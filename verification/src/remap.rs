use crate::bitmap::{bitmap_clone, bitmap_ids, bitmap_len, bitmap_new};
use crate::bytes::{be_bytes, lemma_be_bytes_order, u32_to_be_bytes};
use crate::error::TransformError;
use crate::config::ChunkCompressionType;
use crate::fields_ids_map::{has_name, with_names, FieldId, FieldsIdsMap};
use crate::finalize::{
    can_flatten, create_writer, field_names, flatten_record, identified, is_flattened_record,
    named_entries, stream_setup,
};
use crate::json::flattened;
use crate::index::Index;
use crate::record::{
    encoded_record, kv_reader_get, kv_writer_insert, kv_writer_into_inner, kv_writer_new,
    record_entries, record_get, writer_entries, Entry,
};
use crate::sorter::{MAX_ENTRY_LEN, Pair};
use crate::stream::{
    is_writable, writer_insert, writer_into_inner, writer_pairs, writer_setup, writer_takes,
    written_stream,
};
use crate::transform::{position, Transform, TransformOutput};
use vstd::prelude::*;

verus! {

/// The fields of a record under a new registry, up to the id `bound`:
/// each name of the new registry, in ascending order of its id, with the
/// value that the record holds under the id of this name in the old
/// registry. A name that the old registry does not know, or that the
/// record holds no value for, is left out.
pub open spec fn projected_below(
    old_names: Seq<Seq<char>>,
    new_names: Seq<Seq<char>>,
    entries: Seq<Entry>,
    bound: int,
) -> Seq<Entry>
    decreases bound,
{
    if bound <= 0 {
        Seq::empty()
    } else {
        let before = projected_below(old_names, new_names, entries, bound - 1);
        let name = new_names[bound - 1];
        if has_name(old_names, name) {
            match record_get(entries, position(old_names, name)) {
                Some(value) => before.push(((bound - 1) as FieldId, value)),
                None => before,
            }
        } else {
            before
        }
    }
}

/// The fields of a record under a new registry.
pub open spec fn projected(old_names: Seq<Seq<char>>, new_names: Seq<Seq<char>>, entries: Seq<Entry>) -> Seq<
    Entry,
> {
    projected_below(old_names, new_names, entries, new_names.len() as int)
}

/// The stored documents under a new registry, each under the bytes of its
/// internal id.
pub open spec fn remapped_pairs(
    old_names: Seq<Seq<char>>,
    new_names: Seq<Seq<char>>,
    documents: Seq<(u32, Seq<u8>)>,
) -> Seq<Pair> {
    Seq::new(
        documents.len(),
        |i: int|
            (
                be_bytes(documents[i].0),
                encoded_record(projected(old_names, new_names, record_entries(documents[i].1))),
            ),
    )
}

/// Writes the record `record` anew, with its fields under the ids that
/// the new registry has for their names.
pub fn project_record(old_fields_ids_map: &FieldsIdsMap, new_fields_ids_map: &FieldsIdsMap, record: &[u8]) -> (bytes: Vec<u8>)
    requires
        old_fields_ids_map.wf(),
        new_fields_ids_map.wf(),
    ensures
        bytes@ == encoded_record(projected(old_fields_ids_map@, new_fields_ids_map@, record_entries(record@))),
        record_entries(bytes@) == projected(
            old_fields_ids_map@,
            new_fields_ids_map@,
            record_entries(record@),
        ),
        crate::finalize::all_named(new_fields_ids_map@, record_entries(bytes@)),
{
    let ghost old_names = old_fields_ids_map@;
    let ghost new_names = new_fields_ids_map@;
    let ghost entries = record_entries(record@);
    let mut writer = kv_writer_new();
    let names = new_fields_ids_map.names();
    // The names of the new registry are gone through in the order of
    // their ids, which is the order of the fields in the new record.
    let mut id: usize = 0;
    while id < names.len()
        invariant
            old_fields_ids_map.wf(),
            new_fields_ids_map.wf(),
            old_names == old_fields_ids_map@,
            new_names == new_fields_ids_map@,
            entries == record_entries(record@),
            names@.len() == new_names.len(),
            new_names.len() <= 65536,
            forall|i: int| 0 <= i < new_names.len() ==> names@[i]@ == new_names[i],
            id <= names@.len(),
            writer_entries(writer) == projected_below(old_names, new_names, entries, id as int),
            forall|k: int|
                0 <= k < writer_entries(writer).len() ==> (#[trigger] writer_entries(writer)[k]).0 < id,
        decreases names.len() - id,
    {
        let ghost before = writer_entries(writer);
        if let Some(old_id) = old_fields_ids_map.id(names[id].as_str()) {
            proof {
                let name = new_names[id as int];
                let p = choose|i: int| 0 <= i < old_names.len() && old_names[i] == name;
                if p != old_id as int {
                    if p < old_id {
                        assert(old_names[p] != old_names[old_id as int]);
                    } else {
                        assert(old_names[old_id as int] != old_names[p]);
                    }
                }
                assert(position(old_names, name) == old_id);
            }
            if let Some(value) = kv_reader_get(record, old_id) {
                assert(value.deep_view() =~= value@);
                match kv_writer_insert(&mut writer, id as FieldId, value.as_slice()) {
                    Ok(()) => {},
                    Err(_) => {
                        proof {
                            if before.len() > 0 {
                                assert(before[before.len() - 1].0 < id);
                            }
                            assert(false);
                        }
                        return Vec::new();
                    },
                }
            }
        }
        proof {
            let after = writer_entries(writer);
            assert forall|k: int| 0 <= k < after.len() implies (#[trigger] after[k]).0 < id + 1 by {
                if k < before.len() {
                    assert(after[k] == before[k]);
                }
            }
        }
        id += 1;
    }
    match kv_writer_into_inner(writer) {
        Ok(bytes) => bytes,
        Err(_) => {
            assert(false);
            Vec::new()
        },
    }
}

/// The registry once the first `upto` of the stored documents were
/// flattened anew: it starts as the new registry, and each document
/// brings the names of its flattened fields.
pub open spec fn remap_names(
    old_names: Seq<Seq<char>>,
    new_names: Seq<Seq<char>>,
    documents: Seq<(u32, Seq<u8>)>,
    upto: int,
) -> Seq<Seq<char>>
    decreases upto,
{
    if upto <= 0 {
        new_names
    } else {
        let before = remap_names(old_names, new_names, documents, upto - 1);
        let entries = projected(old_names, new_names, record_entries(documents[upto - 1].1));
        with_names(before, field_names(flattened(named_entries(before, entries))))
    }
}

/// Whether `flats` are the stored documents flattened anew: for each
/// stored document, in their order, the flattened form of its record
/// under the new registry, under the bytes of its internal id.
pub open spec fn is_reflattened(
    old_names: Seq<Seq<char>>,
    new_names: Seq<Seq<char>>,
    documents: Seq<(u32, Seq<u8>)>,
    flats: Seq<Pair>,
) -> bool {
    &&& flats.len() == documents.len()
    &&& forall|i: int|
        0 <= i < documents.len() ==> (#[trigger] flats[i]).0 == be_bytes(documents[i].0) && is_flattened_record(
            remap_names(old_names, new_names, documents, i),
            remap_names(old_names, new_names, documents, i + 1),
            projected(old_names, new_names, record_entries(documents[i].1)),
            flats[i].1,
        )
}

/// Whether the stored documents can be written anew, with `flats` as
/// their flattened forms: every record under the new registry can be
/// flattened, no record and no flattened form is too long for a stream,
/// and both streams can be written.
pub open spec fn is_remapping(
    setup: (ChunkCompressionType, u32),
    old_names: Seq<Seq<char>>,
    new_names: Seq<Seq<char>>,
    documents: Seq<(u32, Seq<u8>)>,
    flats: Seq<Pair>,
) -> bool {
    &&& is_reflattened(old_names, new_names, documents, flats)
    &&& forall|i: int|
        0 <= i < documents.len() ==> can_flatten(
            #[trigger] remap_names(old_names, new_names, documents, i),
            projected(old_names, new_names, record_entries(documents[i].1)),
        )
    &&& forall|i: int|
        0 <= i < documents.len() ==> (#[trigger] remapped_pairs(old_names, new_names, documents)[i]).1.len()
            <= MAX_ENTRY_LEN
    &&& forall|i: int| 0 <= i < flats.len() ==> (#[trigger] flats[i]).1.len() <= MAX_ENTRY_LEN
    &&& is_writable(setup, remapped_pairs(old_names, new_names, documents))
    &&& is_writable(setup, flats)
}

/// Whether the stored documents can be written anew.
pub open spec fn can_remap(
    setup: (ChunkCompressionType, u32),
    old_names: Seq<Seq<char>>,
    new_names: Seq<Seq<char>>,
    documents: Seq<(u32, Seq<u8>)>,
) -> bool {
    exists|flats: Seq<Pair>| is_remapping(setup, old_names, new_names, documents, flats)
}

/// Documents are flattened anew in one way only.
proof fn lemma_flats_agree(
    old_names: Seq<Seq<char>>,
    new_names: Seq<Seq<char>>,
    documents: Seq<(u32, Seq<u8>)>,
    a: Seq<Pair>,
    b: Seq<Pair>,
    upto: int,
)
    requires
        0 <= upto <= documents.len(),
        is_reflattened(old_names, new_names, documents, a),
        b.len() >= upto,
        forall|i: int|
            0 <= i < upto ==> (#[trigger] b[i]).0 == be_bytes(documents[i].0) && is_flattened_record(
                remap_names(old_names, new_names, documents, i),
                remap_names(old_names, new_names, documents, i + 1),
                projected(old_names, new_names, record_entries(documents[i].1)),
                b[i].1,
            ),
    ensures
        a.take(upto) == b.take(upto),
{
    assert forall|i: int| 0 <= i < upto implies a[i] == b[i] by {
        let names = remap_names(old_names, new_names, documents, i);
        let after = remap_names(old_names, new_names, documents, i + 1);
        let entries = projected(old_names, new_names, record_entries(documents[i].1));
        let fields = flattened(named_entries(names, entries));
        assert(a[i].0 == b[i].0);
        crate::determinism::lemma_record_unique(identified(after, fields), a[i].1, b[i].1);
    }
    assert(a.take(upto) =~= b.take(upto));
}

impl<'a> Transform<'a> {
    /// Writes the stored documents anew, with their fields under the ids
    /// that `new_fields_ids_map` has for their names, in the order of
    /// their internal ids, and writes the flattened form of each of these
    /// records, whose names join the new registry. Nothing else changes:
    /// every document counts as new, none as replaced, and what the index
    /// says of the fields and of the external ids is handed on as it is.
    ///
    /// It succeeds when the index has a primary key and the documents can
    /// be written anew, see `can_remap`.
    pub fn remap_index_documents(
        self,
        index: &Index,
        old_fields_ids_map: FieldsIdsMap,
        new_fields_ids_map: FieldsIdsMap,
    ) -> (output: Result<TransformOutput, TransformError>)
        requires
            index.wf(),
            old_fields_ids_map.wf(),
            new_fields_ids_map.wf(),
        ensures
            index.primary_key is None <==> output matches Err(TransformError::MissingPrimaryKey),
            output is Ok <==> index.primary_key is Some && can_remap(
                stream_setup(self.settings()),
                old_fields_ids_map@,
                new_fields_ids_map@,
                index.documents.listing(),
            ),
            output matches Err(e) ==> e == TransformError::MissingPrimaryKey || e == TransformError::Io
                || e == TransformError::InvalidRecord || e == TransformError::SerdeJson || e
                == TransformError::AttributeLimitReached,
            output matches Ok(out) ==> {
                &&& out.primary_key@ == index.primary_key->0@
                &&& out.fields_ids_map.wf()
                &&& out.fields_ids_map@ == remap_names(
                    old_fields_ids_map@,
                    new_fields_ids_map@,
                    index.documents.listing(),
                    index.documents.listing().len() as int,
                )
                &&& out.field_distribution.wf()
                &&& out.field_distribution.counts() == index.field_distribution.counts()
                &&& out.external_documents_ids@ == index.external_documents_ids@
                &&& bitmap_ids(out.new_documents_ids) == bitmap_ids(index.documents_ids)
                &&& bitmap_ids(out.replaced_documents_ids) == Set::<u32>::empty()
                &&& bitmap_ids(index.documents_ids).len() <= usize::MAX ==> out.documents_count == bitmap_ids(
                    index.documents_ids,
                ).len()
                &&& Some(out.original_documents@) == written_stream(
                    stream_setup(self.settings()),
                    remapped_pairs(old_fields_ids_map@, new_fields_ids_map@, index.documents.listing()),
                )
                &&& exists|flats: Seq<Pair>|
                    #[trigger] is_reflattened(
                        old_fields_ids_map@,
                        new_fields_ids_map@,
                        index.documents.listing(),
                        flats,
                    ) && Some(out.flattened_documents@) == written_stream(stream_setup(self.settings()), flats)
            },
    {
        proof {
            self.lemma_parts();
        }
        // A document addition came before: the primary key must be set.
        let primary_key = match &index.primary_key {
            Some(key) => key.clone(),
            None => {
                return Err(TransformError::MissingPrimaryKey);
            },
        };
        let field_distribution = index.field_distribution.clone();
        let external_documents_ids = index.external_documents_ids.clone();
        let documents_ids = bitmap_clone(&index.documents_ids);
        let documents_count = #[verifier::truncate] (bitmap_len(&documents_ids) as usize);

        let mut original_writer = create_writer(
            self.indexer_settings.chunk_compression_type,
            self.indexer_settings.chunk_compression_level,
        );
        let mut flattened_writer = create_writer(
            self.indexer_settings.chunk_compression_type,
            self.indexer_settings.chunk_compression_level,
        );
        // The names of the flattened fields join the new registry.
        let mut fields_ids_map = new_fields_ids_map.clone();
        let stored = index.documents.entries();
        let ghost listing = index.documents.listing();
        let ghost old_names = old_fields_ids_map@;
        let ghost new_names = new_fields_ids_map@;
        let ghost setup = stream_setup(*self.indexer_settings);
        let ghost all = remapped_pairs(old_names, new_names, listing);
        let ghost mut flats: Seq<Pair> = Seq::empty();
        let mut i: usize = 0;
        while i < stored.len()
            invariant
                index.primary_key is Some,
                listing == index.documents.listing(),
                old_fields_ids_map.wf(),
                new_fields_ids_map.wf(),
                fields_ids_map.wf(),
                old_names == old_fields_ids_map@,
                new_names == new_fields_ids_map@,
                setup == stream_setup(self.settings()),
                all == remapped_pairs(old_names, new_names, listing),
                i <= stored@.len(),
                stored@.len() == listing.len(),
                forall|k: int| 0 <= k < stored@.len() ==> #[trigger] listing[k] == (stored@[k].0, stored@[k].1@),
                forall|a: int, b: int| 0 <= a < b < stored@.len() ==> stored@[a].0 < stored@[b].0,
                writer_setup(original_writer) == setup,
                writer_setup(flattened_writer) == setup,
                writer_pairs(original_writer) == all.take(i as int),
                writer_pairs(flattened_writer) == flats,
                flats.len() == i,
                fields_ids_map@ == remap_names(old_names, new_names, listing, i as int),
                new_names.len() <= fields_ids_map@.len(),
                forall|k: int|
                    0 <= k < i ==> (#[trigger] flats[k]).0 == be_bytes(listing[k].0) && is_flattened_record(
                        remap_names(old_names, new_names, listing, k),
                        remap_names(old_names, new_names, listing, k + 1),
                        projected(old_names, new_names, record_entries(listing[k].1)),
                        flats[k].1,
                    ),
                forall|k: int| 0 <= k < i ==> (#[trigger] flats[k]).1.len() <= MAX_ENTRY_LEN,
                forall|k: int| 0 <= k < i ==> (#[trigger] all[k]).1.len() <= MAX_ENTRY_LEN,
                forall|k: int|
                    0 <= k < i ==> can_flatten(
                        #[trigger] remap_names(old_names, new_names, listing, k),
                        projected(old_names, new_names, record_entries(listing[k].1)),
                    ),
                forall|k: int| 0 <= k < i ==> writer_takes(setup, all.take(k), #[trigger] all[k]),
                forall|k: int| 0 <= k < i ==> writer_takes(setup, flats.take(k), #[trigger] flats[k]),
            decreases stored.len() - i,
        {
            let ghost names = fields_ids_map@;
            let ghost entries = projected(old_names, new_names, record_entries(listing[i as int].1));
            let docid = stored[i].0;
            let record = project_record(&old_fields_ids_map, &new_fields_ids_map, stored[i].1.as_slice());
            proof {
                assert(all[i as int].1 == record@);
                assert(all[i as int].0 == be_bytes(docid));
            }
            if record.len() > MAX_ENTRY_LEN {
                proof {
                    assert forall|other: Seq<Pair>| !is_remapping(setup, old_names, new_names, listing, other) by {
                        assert(all[i as int].1.len() > MAX_ENTRY_LEN);
                    }
                }
                return Err(TransformError::InvalidRecord);
            }
            let key = u32_to_be_bytes(docid);
            proof {
                let written = writer_pairs(original_writer);
                if written.len() > 0 {
                    assert(written.last() == all[i - 1]);
                    lemma_be_bytes_order(stored@[i - 1].0, docid);
                }
                if flats.len() > 0 {
                    assert(flats.last() == flats[i - 1]);
                    lemma_be_bytes_order(stored@[i - 1].0, docid);
                }
            }
            match writer_insert(&mut original_writer, key.as_slice(), record.as_slice()) {
                Ok(()) => {},
                Err(_) => {
                    proof {
                        assert forall|other: Seq<Pair>| !is_remapping(setup, old_names, new_names, listing, other) by {
                            assert(!writer_takes(setup, all.take(i as int), all[i as int]));
                        }
                    }
                    return Err(TransformError::Io);
                },
            }
            proof {
                assert(all.take(i + 1) =~= all.take(i as int).push((key@, record@)));
                assert forall|k: int| 0 <= k < new_names.len() implies names[k] == new_names[k] by {
                    lemma_remap_names_extend(old_names, new_names, listing, i as int);
                }
            }
            // The record is flattened, and its flattened form is written
            // under the same id.
            let flat = match flatten_record(&mut fields_ids_map, record.as_slice()) {
                Ok(flat) => flat,
                Err(e) => {
                    proof {
                        assert forall|other: Seq<Pair>| !is_remapping(setup, old_names, new_names, listing, other) by {
                            assert(!can_flatten(remap_names(old_names, new_names, listing, i as int), entries));
                        }
                    }
                    return Err(e);
                },
            };
            let ghost next = flats.push((key@, flat@));
            proof {
                assert(fields_ids_map@ == remap_names(old_names, new_names, listing, i + 1));
                assert forall|k: int| 0 <= k < i + 1 implies (#[trigger] next[k]).0 == be_bytes(listing[k].0)
                    && is_flattened_record(
                    remap_names(old_names, new_names, listing, k),
                    remap_names(old_names, new_names, listing, k + 1),
                    projected(old_names, new_names, record_entries(listing[k].1)),
                    next[k].1,
                ) by {
                    if k < i {
                        assert(next[k] == flats[k]);
                    }
                }
            }
            if flat.len() > MAX_ENTRY_LEN {
                proof {
                    assert forall|other: Seq<Pair>| !is_remapping(setup, old_names, new_names, listing, other) by {
                        if is_remapping(setup, old_names, new_names, listing, other) {
                            lemma_flats_agree(old_names, new_names, listing, other, next, i + 1);
                            assert(other.take(i + 1)[i as int] == next.take(i + 1)[i as int]);
                            assert(other[i as int].1.len() > MAX_ENTRY_LEN);
                        }
                    }
                }
                return Err(TransformError::InvalidRecord);
            }
            match writer_insert(&mut flattened_writer, key.as_slice(), flat.as_slice()) {
                Ok(()) => {},
                Err(_) => {
                    proof {
                        assert forall|other: Seq<Pair>| !is_remapping(setup, old_names, new_names, listing, other) by {
                            if is_remapping(setup, old_names, new_names, listing, other) {
                                lemma_flats_agree(old_names, new_names, listing, other, next, i + 1);
                                assert(other.take(i + 1)[i as int] == next.take(i + 1)[i as int]);
                                assert(other.take(i as int) =~= other.take(i + 1).take(i as int));
                                assert(next.take(i + 1).take(i as int) =~= flats);
                                assert(writer_takes(setup, other.take(i as int), other[i as int]));
                            }
                        }
                    }
                    return Err(TransformError::Io);
                },
            }
            proof {
                assert forall|k: int| 0 <= k < i + 1 implies writer_takes(setup, next.take(k), #[trigger] next[k]) by {
                    if k < i {
                        assert(next[k] == flats[k]);
                        assert(next.take(k) =~= flats.take(k));
                    } else {
                        assert(next.take(k) =~= flats);
                    }
                }
                assert forall|k: int| 0 <= k < i + 1 implies (#[trigger] next[k]).1.len() <= MAX_ENTRY_LEN by {
                    if k < i {
                        assert(next[k] == flats[k]);
                    }
                }
                flats = next;
            }
            i += 1;
        }
        proof {
            assert(all.take(i as int) =~= all);
            assert(is_reflattened(old_names, new_names, listing, flats));
        }
        // The documents are all written: the streams are taken out.
        let original_documents = match writer_into_inner(original_writer) {
            Ok(stream) => stream,
            Err(_) => {
                proof {
                    assert forall|other: Seq<Pair>| !is_remapping(setup, old_names, new_names, listing, other) by {}
                }
                return Err(TransformError::Io);
            },
        };
        let flattened_documents = match writer_into_inner(flattened_writer) {
            Ok(stream) => stream,
            Err(_) => {
                proof {
                    assert forall|other: Seq<Pair>| !is_remapping(setup, old_names, new_names, listing, other) by {
                        if is_remapping(setup, old_names, new_names, listing, other) {
                            lemma_flats_agree(old_names, new_names, listing, other, flats, i as int);
                            assert(other.take(i as int) =~= other);
                            assert(flats.take(i as int) =~= flats);
                        }
                    }
                }
                return Err(TransformError::Io);
            },
        };
        proof {
            assert(is_remapping(setup, old_names, new_names, listing, flats));
        }
        Ok(
            TransformOutput {
                primary_key,
                fields_ids_map,
                field_distribution,
                external_documents_ids,
                new_documents_ids: documents_ids,
                replaced_documents_ids: bitmap_new(),
                documents_count,
                original_documents,
                flattened_documents,
            },
        )
    }
}

/// The registry only grows while the documents are flattened anew.
proof fn lemma_remap_names_extend(
    old_names: Seq<Seq<char>>,
    new_names: Seq<Seq<char>>,
    documents: Seq<(u32, Seq<u8>)>,
    upto: int,
)
    requires
        0 <= upto,
    ensures
        new_names.len() <= remap_names(old_names, new_names, documents, upto).len(),
        forall|k: int|
            0 <= k < new_names.len() ==> remap_names(old_names, new_names, documents, upto)[k] == new_names[k],
    decreases upto,
{
    if upto > 0 {
        lemma_remap_names_extend(old_names, new_names, documents, upto - 1);
        let before = remap_names(old_names, new_names, documents, upto - 1);
        let entries = projected(old_names, new_names, record_entries(documents[upto - 1].1));
        crate::fields_mapping::lemma_with_names_extends(
            before,
            field_names(flattened(named_entries(before, entries))),
        );
    }
}

} // verus!
