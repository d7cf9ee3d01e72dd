use crate::bytes::bytes_lt;
use crate::config::ChunkCompressionType;
use crate::sorter::{MAX_ENTRY_LEN, Pair};
use vstd::prelude::*;

verus! {

/// `grenad::CompressionType`, of which only `compression_of` is known.
#[verifier::external_type_specification]
#[verifier::external_body]
pub struct ExGrenadCompressionType(grenad::CompressionType);

/// `grenad::WriterBuilder`, of which only `builder_setup` is known.
#[verifier::external_type_specification]
#[verifier::external_body]
pub struct ExWriterBuilder(grenad::WriterBuilder);

/// `grenad::Writer`, the writer of streams, of which only `writer_setup`
/// and `writer_pairs` are known.
#[verifier::external_type_specification]
#[verifier::external_body]
#[verifier::reject_recursive_types(W)]
pub struct ExWriter<W>(grenad::Writer<W>);

/// The compression of this library that a compression of `grenad` stands
/// for.
pub uninterp spec fn compression_of(compression: grenad::CompressionType) -> ChunkCompressionType;

/// The compression and the compression level that the writers built from
/// these settings will use.
pub uninterp spec fn builder_setup(builder: grenad::WriterBuilder) -> (ChunkCompressionType, u32);

/// The compression and the compression level that the writer uses.
pub uninterp spec fn writer_setup(writer: grenad::Writer<Vec<u8>>) -> (ChunkCompressionType, u32);

/// The pairs that the writer was given, in the order in which they came.
pub uninterp spec fn writer_pairs(writer: grenad::Writer<Vec<u8>>) -> Seq<Pair>;

/// Whether a `grenad::Writer` into memory with this compression and
/// compression level, which was given `pairs`, takes `pair` as well: it
/// fails where a block that is full cannot be compressed.
pub uninterp spec fn writer_takes(setup: (ChunkCompressionType, u32), pairs: Seq<Pair>, pair: Pair) -> bool;

/// The bytes of the stream that a `grenad::Writer` into memory with this
/// compression and compression level makes of `pairs`, or `None` where
/// it cannot compress what is left to write.
pub uninterp spec fn written_stream(setup: (ChunkCompressionType, u32), pairs: Seq<Pair>) -> Option<
    Seq<u8>,
>;

/// Whether a writer with this compression takes each of `pairs` in turn
/// and makes a stream of them.
pub open spec fn is_writable(setup: (ChunkCompressionType, u32), pairs: Seq<Pair>) -> bool {
    &&& forall|k: int| 0 <= k < pairs.len() ==> writer_takes(setup, pairs.take(k), #[trigger] pairs[k])
    &&& written_stream(setup, pairs) is Some
}

/// The compression of `grenad` that stands for a compression of this
/// library.
#[verifier::external_body]
pub(crate) fn grenad_compression(compression: ChunkCompressionType) -> (out: grenad::CompressionType)
    ensures
        compression_of(out) == compression,
{
    match compression {
        ChunkCompressionType::Uncompressed => grenad::CompressionType::None,
        ChunkCompressionType::Snappy => grenad::CompressionType::Snappy,
        ChunkCompressionType::Zlib => grenad::CompressionType::Zlib,
        ChunkCompressionType::Lz4 => grenad::CompressionType::Lz4,
        ChunkCompressionType::Zstd => grenad::CompressionType::Zstd,
    }
}

/// `WriterBuilder::new`: settings without compression, at level zero.
#[verifier::external_body]
pub(crate) fn writer_builder_new() -> (builder: grenad::WriterBuilder)
    ensures
        builder_setup(builder) == (ChunkCompressionType::Uncompressed, 0u32),
{
    grenad::WriterBuilder::new()
}

/// `WriterBuilder::compression_type`: sets the compression and keeps the
/// level.
#[verifier::external_body]
pub(crate) fn writer_builder_compression_type(
    builder: &mut grenad::WriterBuilder,
    compression: grenad::CompressionType,
)
    ensures
        builder_setup(*final(builder)) == (compression_of(compression), builder_setup(*old(builder)).1),
{
    let _ = builder.compression_type(compression);
}

/// `WriterBuilder::compression_level`: sets the level and keeps the
/// compression.
#[verifier::external_body]
pub(crate) fn writer_builder_compression_level(builder: &mut grenad::WriterBuilder, level: u32)
    ensures
        builder_setup(*final(builder)) == (builder_setup(*old(builder)).0, level),
{
    let _ = builder.compression_level(level);
}

/// `WriterBuilder::memory`: a writer into memory, with the compression of
/// the builder, that was given no pair yet.
#[verifier::external_body]
pub(crate) fn writer_builder_memory(builder: &grenad::WriterBuilder) -> (writer: grenad::Writer<Vec<u8>>)
    ensures
        writer_setup(writer) == builder_setup(*builder),
        writer_pairs(writer) == Seq::<Pair>::empty(),
{
    builder.memory()
}

/// `Writer::insert`: when it succeeds the writer was given one pair more.
/// It fails when a block cannot be compressed, which depends on the
/// compression and on the pairs alone, as the writer writes into memory.
/// A key that is not above the key given before it, and a key or value of
/// more than `MAX_ENTRY_LEN` bytes, make it panic.
#[verifier::external_body]
pub(crate) fn writer_insert(writer: &mut grenad::Writer<Vec<u8>>, key: &[u8], value: &[u8]) -> (done: Result<(), std::io::Error>)
    requires
        key@.len() <= MAX_ENTRY_LEN,
        value@.len() <= MAX_ENTRY_LEN,
        writer_pairs(*old(writer)).len() > 0 ==> bytes_lt(writer_pairs(*old(writer)).last().0, key@),
    ensures
        writer_setup(*final(writer)) == writer_setup(*old(writer)),
        done is Ok <==> writer_takes(writer_setup(*old(writer)), writer_pairs(*old(writer)), (key@, value@)),
        done is Ok ==> writer_pairs(*final(writer)) == writer_pairs(*old(writer)).push((key@, value@)),
{
    writer.insert(key, value)
}

/// `Writer::into_inner`: the stream that the writer makes of the pairs it
/// was given; it fails where what is left to write cannot be compressed.
/// Both depend on the pairs and on the compression alone, as the writer
/// writes into memory.
#[verifier::external_body]
pub(crate) fn writer_into_inner(writer: grenad::Writer<Vec<u8>>) -> (stream: Result<Vec<u8>, std::io::Error>)
    ensures
        stream is Ok <==> written_stream(writer_setup(writer), writer_pairs(writer)) is Some,
        stream matches Ok(bytes) ==> Some(bytes@) == written_stream(writer_setup(writer), writer_pairs(writer)),
{
    writer.into_inner()
}

} // verus!
