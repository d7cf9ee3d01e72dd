use crate::error::TransformError;
use crate::fields_ids_map::FieldId;
use vstd::prelude::*;

verus! {

/// One field of a record: the id of the field and the JSON text of its
/// value.
pub type Entry = (FieldId, Seq<u8>);

/// The longest value that a record can hold.
pub const MAX_VALUE_LEN: usize = 0xffff_ffff;

/// `obkv::KvWriter`, the writer of records, of which only
/// `writer_entries` is known.
#[verifier::external_type_specification]
#[verifier::external_body]
#[verifier::reject_recursive_types(W)]
#[verifier::reject_recursive_types(K)]
pub struct ExKvWriter<W, K>(obkv::KvWriter<W, K>);

/// `std::io::Error`, of which nothing is known.
#[verifier::external_type_specification]
#[verifier::external_body]
pub struct ExIoError(std::io::Error);

/// The entries that `obkv::KvReader` finds in `bytes`, in the order in
/// which it yields them.
pub uninterp spec fn record_entries(bytes: Seq<u8>) -> Seq<Entry>;

/// The bytes that `obkv::KvWriter` has written once it was given `entries`
/// one after the other.
pub uninterp spec fn encoded_record(entries: Seq<Entry>) -> Seq<u8>;

/// The entries that a record writer has accepted so far.
pub uninterp spec fn writer_entries(writer: obkv::KvWriter<Vec<u8>, FieldId>) -> Seq<Entry>;

/// The keys of `entries` are strictly ascending.
pub open spec fn is_ascending(entries: Seq<Entry>) -> bool {
    forall|i: int, j: int| 0 <= i < j < entries.len() ==> entries[i].0 < entries[j].0
}

/// No value of `entries` is longer than a record can hold.
pub open spec fn values_fit(entries: Seq<Entry>) -> bool {
    forall|i: int| 0 <= i < entries.len() ==> (#[trigger] entries[i]).1.len() <= MAX_VALUE_LEN
}

/// What a record can hold: entries with strictly ascending keys and values
/// that fit.
pub open spec fn is_record(entries: Seq<Entry>) -> bool {
    is_ascending(entries) && values_fit(entries)
}

/// The value that a reader finds under `key`: it goes through the entries
/// and gives up at the first key above the one it looks for.
pub open spec fn record_get(entries: Seq<Entry>, key: FieldId) -> Option<Seq<u8>>
    decreases entries.len(),
{
    if entries.len() == 0 || entries[0].0 > key {
        None
    } else if entries[0].0 == key {
        Some(entries[0].1)
    } else {
        record_get(entries.drop_first(), key)
    }
}

/// Whether a writer that has accepted `entries` accepts one more entry: its
/// key must be above the last key and its value must fit.
pub open spec fn writer_accepts(entries: Seq<Entry>, key: FieldId, value: Seq<u8>) -> bool {
    (entries.len() == 0 || entries.last().0 < key) && value.len() <= MAX_VALUE_LEN
}

/// `KvWriter::new` on an empty vector: a writer that has accepted nothing.
#[verifier::external_body]
pub(crate) fn kv_writer_new() -> (writer: obkv::KvWriter<Vec<u8>, FieldId>)
    ensures
        writer_entries(writer) == Seq::<Entry>::empty(),
{
    obkv::KvWriter::new(Vec::new())
}

/// `KvWriter::insert`: the entry is accepted when its key is above the last
/// accepted key and its value is not too long, and refused otherwise, which
/// leaves the writer as it was. Writing into a vector does not fail.
#[verifier::external_body]
pub(crate) fn kv_writer_insert(
    writer: &mut obkv::KvWriter<Vec<u8>, FieldId>,
    key: FieldId,
    value: &[u8],
) -> (done: Result<(), std::io::Error>)
    ensures
        done is Ok <==> writer_accepts(writer_entries(*old(writer)), key, value@),
        done is Ok ==> writer_entries(*final(writer)) == writer_entries(*old(writer)).push((key, value@)),
        done is Err ==> writer_entries(*final(writer)) == writer_entries(*old(writer)),
{
    writer.insert(key, value)
}

/// `KvWriter::into_inner`: the bytes written for the accepted entries,
/// which a reader decodes to these same entries. Flushing a vector does
/// not fail.
#[verifier::external_body]
pub(crate) fn kv_writer_into_inner(
    writer: obkv::KvWriter<Vec<u8>, FieldId>,
) -> (bytes: Result<Vec<u8>, std::io::Error>)
    ensures
        bytes is Ok,
        bytes matches Ok(b) ==> b@ == encoded_record(writer_entries(writer)),
        bytes matches Ok(b) ==> record_entries(b@) == writer_entries(writer),
{
    writer.into_inner()
}

/// `KvReader::iter`: the entries found in `bytes`, whatever the bytes are.
/// The length of a value is read from four bytes at most.
#[verifier::external_body]
pub(crate) fn kv_reader_entries(bytes: &[u8]) -> (entries: Vec<(FieldId, Vec<u8>)>)
    ensures
        entries.deep_view() == record_entries(bytes@),
        values_fit(entries.deep_view()),
{
    obkv::KvReaderU16::new(bytes).iter().map(|(key, value)| (key, value.to_vec())).collect()
}

/// `KvReader::get`: the value that the reader finds under `key` in `bytes`,
/// whose length was read from four bytes at most.
#[verifier::external_body]
pub(crate) fn kv_reader_get(bytes: &[u8], key: FieldId) -> (value: Option<Vec<u8>>)
    ensures
        value.deep_view() == record_get(record_entries(bytes@), key),
        value matches Some(v) ==> v@.len() <= MAX_VALUE_LEN,
{
    obkv::KvReaderU16::new(bytes).get(key).map(|value| value.to_vec())
}

/// Whether the keys of `fields` are strictly ascending.
pub fn check_ascending(fields: &Vec<(FieldId, Vec<u8>)>) -> (ascending: bool)
    ensures
        ascending == is_ascending(fields.deep_view()),
{
    let ghost entries = fields.deep_view();
    let mut i: usize = 1;
    while i < fields.len()
        invariant
            entries == fields.deep_view(),
            1 <= i,
            forall|a: int, b: int| 0 <= a < b < i && b < entries.len() ==> entries[a].0 < entries[b].0,
        decreases fields.len() - i,
    {
        if fields[i - 1].0 >= fields[i].0 {
            assert(entries[i - 1].0 == fields@[i - 1].0 && entries[i as int].0 == fields@[i as int].0);
            return false;
        }
        proof {
            assert forall|a: int, b: int| 0 <= a < b < i + 1 && b < entries.len() implies entries[a].0
                < entries[b].0 by {
                assert(entries[i - 1].0 == fields@[i - 1].0 && entries[i as int].0 == fields@[i as int].0);
                if b == i && a < i - 1 {
                    assert(entries[a].0 < entries[i - 1].0);
                }
            }
        }
        i += 1;
    }
    true
}

/// Encodes `fields` as a record. The fields must come with strictly
/// ascending ids and values that fit; other fields are refused as an
/// invalid record.
pub fn encode_record(fields: &Vec<(FieldId, Vec<u8>)>) -> (bytes: Result<Vec<u8>, TransformError>)
    ensures
        bytes is Ok <==> is_record(fields.deep_view()),
        bytes matches Ok(b) ==> b@ == encoded_record(fields.deep_view()) && record_entries(b@)
            == fields.deep_view(),
        bytes matches Err(e) ==> e == TransformError::InvalidRecord,
{
    let ghost entries = fields.deep_view();
    let mut writer = kv_writer_new();
    let mut i: usize = 0;
    while i < fields.len()
        invariant
            entries == fields.deep_view(),
            i <= fields.len(),
            writer_entries(writer) == entries.take(i as int),
            is_record(entries.take(i as int)),
        decreases fields.len() - i,
    {
        assert(entries[i as int] == (fields@[i as int].0, fields@[i as int].1@));
        let ghost before = writer_entries(writer);
        match kv_writer_insert(&mut writer, fields[i].0, fields[i].1.as_slice()) {
            Ok(()) => {
                proof {
                    let prev = entries.take(i as int);
                    let next = entries.take(i + 1);
                    assert(next =~= prev.push(entries[i as int]));
                    assert forall|a: int, b: int| 0 <= a < b < next.len() implies next[a].0
                        < next[b].0 by {
                        if b == i {
                            assert(prev.last() == prev[i - 1]);
                            if a < i - 1 {
                                assert(prev[a].0 < prev[i - 1].0);
                            }
                        } else {
                            assert(prev[a].0 < prev[b].0);
                        }
                    }
                    assert forall|a: int| 0 <= a < next.len() implies (#[trigger] next[a]).1.len()
                        <= MAX_VALUE_LEN by {
                        if a < i {
                            assert(prev[a].1.len() <= MAX_VALUE_LEN);
                        }
                    }
                }
            },
            Err(_) => {
                proof {
                    if is_record(entries) {
                        assert(entries[i as int].1.len() <= MAX_VALUE_LEN);
                        if i > 0 {
                            assert(before.last() == entries[i - 1]);
                            assert(entries[i - 1].0 < entries[i as int].0);
                        }
                    }
                }
                return Err(TransformError::InvalidRecord);
            },
        }
        i += 1;
    }
    assert(entries.take(i as int) =~= entries);
    match kv_writer_into_inner(writer) {
        Ok(bytes) => Ok(bytes),
        Err(_) => Err(TransformError::InvalidRecord),
    }
}

/// Decodes a record into its fields.
pub fn decode_record(bytes: &[u8]) -> (fields: Vec<(FieldId, Vec<u8>)>)
    ensures
        fields.deep_view() == record_entries(bytes@),
        values_fit(fields.deep_view()),
{
    kv_reader_entries(bytes)
}

/// In a record a reader finds each field under its id.
pub proof fn lemma_record_get(entries: Seq<Entry>, at: int)
    requires
        is_ascending(entries),
        0 <= at < entries.len(),
    ensures
        record_get(entries, entries[at].0) == Some(entries[at].1),
    decreases entries.len(),
{
    if at > 0 {
        assert(entries[0].0 < entries[at].0);
        let rest = entries.drop_first();
        assert forall|i: int, j: int| 0 <= i < j < rest.len() implies rest[i].0 < rest[j].0 by {
            assert(entries[i + 1].0 < entries[j + 1].0);
        }
        assert(rest[at - 1] == entries[at]);
        lemma_record_get(rest, at - 1);
    }
}

/// What a reader finds under an id is a field of the record.
pub proof fn lemma_record_get_found(entries: Seq<Entry>, key: FieldId)
    requires
        record_get(entries, key) is Some,
    ensures
        exists|at: int| 0 <= at < entries.len() && entries[at] == (key, record_get(entries, key)->0),
    decreases entries.len(),
{
    if entries[0].0 == key {
        assert(entries[0] == (key, record_get(entries, key)->0));
    } else {
        let rest = entries.drop_first();
        lemma_record_get_found(rest, key);
        let at = choose|at: int| 0 <= at < rest.len() && rest[at] == (key, record_get(rest, key)->0);
        assert(entries[at + 1] == rest[at]);
    }
}

} // verus!
