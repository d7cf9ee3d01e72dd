use crate::config::{ChunkCompressionType, IndexDocumentsMethod, IndexerConfig, UpdateIndexingStep};
use crate::documents::{
    lemma_fields_push, lemma_fields_view, names_by_id, sort_fields, DocumentBatchReader,
    DocumentFields, DocumentsBatchIndex,
};
use crate::error::TransformError;
use crate::external_documents_ids::ExternalDocumentsIds;
use crate::field_distribution::FieldDistribution;
use crate::fields_ids_map::{with_name, with_names, FieldId, FieldsIdsMap};
use crate::fields_mapping::create_fields_mapping;
use crate::index::Index;
use crate::json::{
    generate_uuid, is_hyphenated_uuid, json_from_slice, json_text, json_to_vec, parsed_json,
    JsonShape, JsonValue,
};
use crate::merge::MergePolicy;
use crate::primary_key::{
    compute_primary_key_pair, find_primary_key, normalized_document_id, validate_document_id,
};
use crate::record::{encode_record, encoded_record, is_record, record_entries, Entry};
use crate::sorter::{
    sorter_error, sorter_builder_allow_realloc, sorter_builder_build,
    sorter_builder_chunk_compression_level, sorter_builder_chunk_compression_type,
    sorter_builder_dump_threshold, sorter_builder_max_nb_chunks, sorter_builder_new,
    sorter_entries, sorter_insert, sorter_policy, MAX_ENTRY_LEN, Pair, Sorter,
};
use crate::stream::grenad_compression;
use std::collections::HashMap;
use vstd::prelude::*;
use vstd::slice::slice_to_vec;
use vstd::utf8::encode_utf8;

verus! {

/// What a transformation hands to the indexation.
pub struct TransformOutput {
    /// The name of the primary key.
    pub primary_key: String,
    /// The registry of the field names, with the names that came in.
    pub fields_ids_map: FieldsIdsMap,
    /// How many documents hold each field, once the documents are stored.
    pub field_distribution: FieldDistribution,
    /// The internal id of each external id, with the ids that were given.
    pub external_documents_ids: ExternalDocumentsIds,
    /// The internal ids that were given to documents not known before.
    pub new_documents_ids: roaring::RoaringBitmap,
    /// The internal ids of the documents whose record is replaced.
    pub replaced_documents_ids: roaring::RoaringBitmap,
    /// The number of documents that are handed on.
    pub documents_count: usize,
    /// The records to store, as a stream of pairs of an internal id, in
    /// four bytes with the most significant first, and a record, in
    /// ascending order of the ids.
    pub original_documents: Vec<u8>,
    /// The same stream with the flattened form of each record.
    pub flattened_documents: Vec<u8>,
}

/// Takes batches of documents, finds the external id of each document,
/// keeps one record for each external id, gives each its internal id and
/// writes the records that are to be stored, by internal id.
pub struct Transform<'a> {
    pub(crate) indexer_settings: &'a IndexerConfig,
    pub autogenerate_docids: bool,
    pub index_documents_method: IndexDocumentsMethod,
    pub(crate) original_sorter: Sorter,
    pub(crate) documents_count: usize,
}

/// The policy by which the documents of one batch that share an external
/// id become one: the last one stands, or they are laid over one another.
pub open spec fn batch_policy(method: IndexDocumentsMethod) -> MergePolicy {
    match method {
        IndexDocumentsMethod::ReplaceDocuments => MergePolicy::KeepLatest,
        IndexDocumentsMethod::UpdateDocuments => MergePolicy::UnionRecords,
    }
}

/// A sorter that applies `policy`, set up as the settings say.
pub fn create_sorter(
    policy: MergePolicy,
    chunk_compression_type: ChunkCompressionType,
    chunk_compression_level: Option<u32>,
    max_nb_chunks: Option<usize>,
    max_memory: Option<usize>,
) -> (sorter: Sorter)
    ensures
        sorter_policy(sorter) == policy,
        sorter_entries(sorter) == Seq::<Pair>::empty(),
{
    let mut builder = sorter_builder_new(policy);
    sorter_builder_chunk_compression_type(&mut builder, grenad_compression(chunk_compression_type));
    if let Some(level) = chunk_compression_level {
        sorter_builder_chunk_compression_level(&mut builder, level);
    }
    if let Some(nb_chunks) = max_nb_chunks {
        sorter_builder_max_nb_chunks(&mut builder, nb_chunks);
    }
    if let Some(memory) = max_memory {
        sorter_builder_dump_threshold(&mut builder, memory);
        sorter_builder_allow_realloc(&mut builder, false);
    }
    sorter_builder_build(builder)
}

/// Drops what `vec` holds and hands back an empty vector in its place.
pub fn drop_and_reuse<U, T>(vec: Vec<U>) -> (reused: Vec<T>)
    ensures
        reused@.len() == 0,
{
    let mut vec = vec;
    vec.clear();
    Vec::new()
}

/// The fields of a document under the ids that `mapping` gives them.
pub open spec fn remapped(mapping: Map<FieldId, FieldId>, document: Seq<Entry>) -> Seq<Entry> {
    Seq::new(document.len(), |i: int| (mapping[document[i].0], document[i].1))
}

/// The value of the first field of `fields` with the id `key`.
pub open spec fn field_value(fields: Seq<Entry>, key: FieldId) -> Option<Seq<u8>>
    decreases fields.len(),
{
    if fields.len() == 0 {
        None
    } else if fields[0].0 == key {
        Some(fields[0].1)
    } else {
        field_value(fields.drop_first(), key)
    }
}

/// What the value under the primary key says of the external id.
pub enum ExternalId {
    /// The document goes by this external id.
    Id(Seq<char>),
    /// The value cannot identify a document.
    Invalid,
    /// The value is not valid JSON.
    Malformed,
}

/// The external id that a value under the primary key stands for: a
/// number stands for itself as it is written out, a string for what is
/// left of it without the surrounding whitespace, if that is a valid
/// identifier, and no other value stands for an id.
pub open spec fn external_id_of(value: Seq<u8>) -> ExternalId {
    match parsed_json(value) {
        None => ExternalId::Malformed,
        Some(JsonShape::Number(number)) => ExternalId::Id(number),
        Some(JsonShape::Text(text)) => match normalized_document_id(text) {
            Some(id) => ExternalId::Id(id),
            None => ExternalId::Invalid,
        },
        Some(JsonShape::Other) => ExternalId::Invalid,
    }
}

/// Reads the external id from the value under the primary key.
pub fn external_id_from_value(value: &[u8]) -> (id: Result<String, TransformError>)
    ensures
        match external_id_of(value@) {
            ExternalId::Id(expected) => id matches Ok(found) && found@ == expected,
            ExternalId::Invalid => id matches Err(TransformError::InvalidDocumentId { value: refused })
                && refused@ == value@,
            ExternalId::Malformed => id matches Err(TransformError::SerdeJson),
        },
{
    match json_from_slice(value) {
        Err(_) => Err(TransformError::SerdeJson),
        Ok(JsonValue::Number(number)) => Ok(number),
        Ok(JsonValue::Text(text)) => match validate_document_id(text.as_str()) {
            Some(id) => Ok(id.to_owned()),
            None => Err(TransformError::InvalidDocumentId { value: slice_to_vec(value) }),
        },
        Ok(JsonValue::Other) => Err(TransformError::InvalidDocumentId { value: slice_to_vec(value) }),
    }
}

/// The fields of `document` under the ids that `mapping` gives them.
pub fn remap_document(mapping: &HashMap<FieldId, FieldId>, document: &DocumentFields) -> (fields: DocumentFields)
    requires
        forall|i: int| 0 <= i < document@.len() ==> mapping@.dom().contains(#[trigger] document@[i].0),
    ensures
        fields.deep_view() == remapped(mapping@, document.deep_view()),
{
    broadcast use vstd::std_specs::hash::group_hash_axioms;

    let mut fields: DocumentFields = Vec::new();
    let mut i: usize = 0;
    while i < document.len()
        invariant
            i <= document@.len(),
            forall|k: int| 0 <= k < document@.len() ==> mapping@.dom().contains(#[trigger] document@[k].0),
            fields@.len() == i,
            forall|k: int|
                0 <= k < i ==> (#[trigger] fields@[k]).0 == mapping@[document@[k].0] && fields@[k].1@
                    == document@[k].1@,
        decreases document.len() - i,
    {
        let key = document[i].0;
        assert(mapping@.dom().contains(document@[i as int].0));
        match mapping.get(&key) {
            Some(mapped) => {
                fields.push((*mapped, document[i].1.clone()));
            },
            None => {
                assert(false);
            },
        }
        i += 1;
    }
    proof {
        assert(fields.deep_view() =~= remapped(mapping@, document.deep_view())) by {
            assert forall|k: int| 0 <= k < fields@.len() implies fields.deep_view()[k] == remapped(
                mapping@,
                document.deep_view(),
            )[k] by {
                assert(fields.deep_view()[k] == (fields@[k].0, fields@[k].1@));
                assert(document.deep_view()[k] == (document@[k].0, document@[k].1@));
            }
        }
    }
    fields
}

/// The position of the first field of `fields` with the id `key`.
pub fn find_field(fields: &DocumentFields, key: FieldId) -> (at: Option<usize>)
    ensures
        at is Some <==> field_value(fields.deep_view(), key) is Some,
        at matches Some(i) ==> i < fields@.len() && fields@[i as int].0 == key && Some(fields@[i as int].1@)
            == field_value(fields.deep_view(), key),
{
    let ghost entries = fields.deep_view();
    let mut i: usize = 0;
    assert(entries.skip(0) =~= entries);
    while i < fields.len()
        invariant
            entries == fields.deep_view(),
            i <= fields@.len(),
            field_value(entries, key) == field_value(entries.skip(i as int), key),
        decreases fields.len() - i,
    {
        proof {
            assert(entries.skip(i as int)[0] == entries[i as int]);
            assert(entries[i as int] == (fields@[i as int].0, fields@[i as int].1@));
            assert(entries.skip(i as int).drop_first() =~= entries.skip(i + 1));
        }
        if fields[i].0 == key {
            return Some(i);
        }
        i += 1;
    }
    None
}

/// Whether the sorter of a transformation was given `pair` for a document
/// with the fields `fields`, under the ids of the registry, when the field
/// `primary_key` holds the external ids.
///
/// The key of the pair is the external id: the one that the value under
/// the primary key stands for or, where the document has no such field
/// and ids are generated, some new identifier, which the document then
/// holds under the primary key. The value of the pair is the record of
/// the fields in ascending order of their ids.
pub open spec fn is_document_pair(
    fields: Seq<Entry>,
    primary_key: FieldId,
    autogenerate_docids: bool,
    pair: Pair,
) -> bool {
    let entries = record_entries(pair.1);
    &&& pair.1 == encoded_record(entries)
    &&& is_record(entries)
    &&& match field_value(fields, primary_key) {
        Some(value) => external_id_of(value) == ExternalId::Id(decoded_id(pair.0)) && pair.0
            == encode_utf8(decoded_id(pair.0)) && entries.to_multiset() == fields.to_multiset(),
        None => autogenerate_docids && is_hyphenated_uuid(decoded_id(pair.0)) && pair.0 == encode_utf8(
            decoded_id(pair.0),
        ) && entries.to_multiset() == fields.push(
            (primary_key, json_text(decoded_id(pair.0))),
        ).to_multiset(),
    }
}

/// The text that the bytes `key` are the UTF-8 encoding of.
pub open spec fn decoded_id(key: Seq<u8>) -> Seq<char> {
    vstd::utf8::decode_utf8(key)
}

/// The external id and the record of a document with the fields `fields`.
/// The external id is read from the value under the primary key; a
/// document without such a field goes by `generated`, which it then holds
/// under the primary key.
pub fn document_entry(fields: DocumentFields, primary_key_id: FieldId, generated: Option<String>) -> (entry: Result<
    (String, Vec<u8>),
    TransformError,
>)
    requires
        field_value(fields.deep_view(), primary_key_id) is None ==> generated is Some,
    ensures
        match field_value(fields.deep_view(), primary_key_id) {
            Some(value) => match external_id_of(value) {
                ExternalId::Id(id) => match entry {
                    Ok((external_id, record)) => external_id@ == id && is_record_of(
                        record@,
                        fields.deep_view(),
                    ) && can_be_record(fields.deep_view()),
                    Err(e) => e == TransformError::InvalidRecord && !can_be_record(fields.deep_view()),
                },
                ExternalId::Invalid => entry matches Err(
                    TransformError::InvalidDocumentId { value: refused },
                ) && refused@ == value,
                ExternalId::Malformed => entry matches Err(TransformError::SerdeJson),
            },
            None => match entry {
                Ok((external_id, record)) => external_id@ == generated->0@ && is_record_of(
                    record@,
                    fields.deep_view().push((primary_key_id, json_text(generated->0@))),
                ) && can_be_record(fields.deep_view().push((primary_key_id, json_text(generated->0@)))),
                Err(e) => e == TransformError::InvalidRecord && !can_be_record(
                    fields.deep_view().push((primary_key_id, json_text(generated->0@))),
                ),
            },
        },
{
    let mut fields = fields;
    let ghost given = fields.deep_view();
    let external_id = match find_field(&fields, primary_key_id) {
        Some(at) => match external_id_from_value(fields[at].1.as_slice()) {
            Ok(id) => id,
            Err(e) => {
                return Err(e);
            },
        },
        None => {
            let id = match generated {
                Some(id) => id,
                None => {
                    assert(false);
                    return Err(TransformError::InvalidRecord);
                },
            };
            let value = match json_to_vec(id.as_str()) {
                Ok(value) => value,
                Err(_) => {
                    return Err(TransformError::InvalidRecord);
                },
            };
            let ghost before = fields;
            fields.push((primary_key_id, value));
            proof {
                lemma_fields_push(before, fields, (primary_key_id, value));
            }
            id
        },
    };
    // The fields of a record come in ascending order of their ids.
    let ghost unsorted = fields.deep_view();
    sort_fields(&mut fields);
    proof {
        lemma_fields_view(fields);
        lemma_sorted_fields(unsorted, fields.deep_view());
    }
    match encode_record(&fields) {
        Ok(record) => Ok((external_id, record)),
        Err(e) => Err(e),
    }
}

/// No two of `fields` have the same id.
pub open spec fn has_distinct_ids(fields: Seq<Entry>) -> bool {
    forall|i: int, j: int| 0 <= i < j < fields.len() ==> fields[i].0 != fields[j].0
}

/// Whether `fields` can make a record: no id comes twice and every value
/// fits.
pub open spec fn can_be_record(fields: Seq<Entry>) -> bool {
    has_distinct_ids(fields) && crate::record::values_fit(fields)
}

/// Fields in ascending order of their ids make a record exactly when no
/// id comes twice among them and their values fit, in whatever order
/// they were given.
pub proof fn lemma_sorted_fields(fields: Seq<Entry>, sorted: Seq<Entry>)
    requires
        sorted.to_multiset() == fields.to_multiset(),
        forall|i: int, j: int| 0 <= i <= j < sorted.len() ==> sorted[i].0 <= sorted[j].0,
    ensures
        is_record(sorted) <==> can_be_record(fields),
{
    broadcast use vstd::seq_lib::group_to_multiset_ensures;

    if can_be_record(fields) {
        assert forall|i: int, j: int| 0 <= i < j < sorted.len() implies sorted[i].0 < sorted[j].0 by {
            if sorted[i].0 == sorted[j].0 {
                assert(sorted.contains(sorted[i]) && sorted.contains(sorted[j]));
                assert(fields.to_multiset().count(sorted[i]) > 0);
                assert(fields.to_multiset().count(sorted[j]) > 0);
                assert(fields.contains(sorted[i]) && fields.contains(sorted[j]));
                let a = choose|a: int| 0 <= a < fields.len() && fields[a] == sorted[i];
                let b = choose|b: int| 0 <= b < fields.len() && fields[b] == sorted[j];
                if a != b {
                    if a < b {
                        assert(fields[a].0 != fields[b].0);
                    } else {
                        assert(fields[b].0 != fields[a].0);
                    }
                } else {
                    crate::documents::lemma_count_two(sorted, i, j);
                    assert forall|k: int| 0 <= k < fields.len() && k != a implies fields[k] != fields[a] by {
                        if k < a {
                            assert(fields[k].0 != fields[a].0);
                        } else {
                            assert(fields[a].0 != fields[k].0);
                        }
                    }
                    crate::documents::lemma_count_unique(fields, a);
                }
            }
        }
        assert forall|i: int| 0 <= i < sorted.len() implies (#[trigger] sorted[i]).1.len()
            <= crate::record::MAX_VALUE_LEN by {
            assert(sorted.contains(sorted[i]));
            assert(fields.to_multiset().count(sorted[i]) > 0);
            assert(fields.contains(sorted[i]));
            let a = choose|a: int| 0 <= a < fields.len() && fields[a] == sorted[i];
            assert(fields[a].1.len() <= crate::record::MAX_VALUE_LEN);
        }
    }
    if is_record(sorted) {
        assert forall|i: int, j: int| 0 <= i < j < fields.len() implies fields[i].0 != fields[j].0 by {
            if fields[i].0 == fields[j].0 {
                assert(fields.contains(fields[i]) && fields.contains(fields[j]));
                assert(sorted.to_multiset().count(fields[i]) > 0);
                assert(sorted.to_multiset().count(fields[j]) > 0);
                assert(sorted.contains(fields[i]) && sorted.contains(fields[j]));
                let a = choose|a: int| 0 <= a < sorted.len() && sorted[a] == fields[i];
                let b = choose|b: int| 0 <= b < sorted.len() && sorted[b] == fields[j];
                if a != b {
                    if a < b {
                        assert(sorted[a].0 < sorted[b].0);
                    } else {
                        assert(sorted[b].0 < sorted[a].0);
                    }
                } else {
                    crate::documents::lemma_count_two(fields, i, j);
                    assert forall|k: int| 0 <= k < sorted.len() && k != a implies sorted[k] != sorted[a] by {
                        if k < a {
                            assert(sorted[k].0 < sorted[a].0);
                        } else {
                            assert(sorted[a].0 < sorted[k].0);
                        }
                    }
                    crate::documents::lemma_count_unique(sorted, a);
                }
            }
        }
        assert forall|i: int| 0 <= i < fields.len() implies (#[trigger] fields[i]).1.len()
            <= crate::record::MAX_VALUE_LEN by {
            assert(fields.contains(fields[i]));
            assert(sorted.to_multiset().count(fields[i]) > 0);
            assert(sorted.contains(fields[i]));
            let a = choose|a: int| 0 <= a < sorted.len() && sorted[a] == fields[i];
            assert(sorted[a].1.len() <= crate::record::MAX_VALUE_LEN);
        }
    }
}

/// Whether `record` is the record of `fields`: it holds these fields in
/// ascending order of their distinct ids.
pub open spec fn is_record_of(record: Seq<u8>, fields: Seq<Entry>) -> bool {
    &&& record == encoded_record(record_entries(record))
    &&& is_record(record_entries(record))
    &&& record_entries(record).to_multiset() == fields.to_multiset()
}

/// The place of `name` among `names`.
pub open spec fn position(names: Seq<Seq<char>>, name: Seq<char>) -> FieldId {
    (choose|i: int| 0 <= i < names.len() && names[i] == name) as FieldId
}

/// The id that the registry `names` has for each field of the batch.
pub open spec fn batch_mapping(names: Seq<Seq<char>>, batch: Map<FieldId, Seq<char>>) -> Map<
    FieldId,
    FieldId,
> {
    Map::new(|id: FieldId| batch.dom().contains(id), |id: FieldId| position(names, batch[id]))
}

/// Whether `found` is the name that is inferred for the primary key from
/// the fields of a batch: the name of the lowest id that can be taken for
/// the primary key, if there is one.
pub open spec fn is_inferred_primary_key(batch: Map<FieldId, Seq<char>>, found: Option<Seq<char>>) -> bool {
    match found {
        Some(name) => exists|id: FieldId|
            {
                &&& batch.dom().contains(id)
                &&& #[trigger] batch[id] == name
                &&& crate::primary_key::is_primary_key_candidate(name)
                &&& forall|lower: FieldId|
                    lower < id && batch.dom().contains(lower)
                        ==> !crate::primary_key::is_primary_key_candidate(#[trigger] batch[lower])
            },
        None => forall|id: FieldId|
            batch.dom().contains(id) ==> !crate::primary_key::is_primary_key_candidate(
                #[trigger] batch[id],
            ),
    }
}

/// Whether `name` is the primary key that a batch resolves to: the one
/// that is stored, else the one inferred from the batch, else the default
/// name if ids are generated, else none.
pub open spec fn is_resolved_primary_key(
    stored: Option<Seq<char>>,
    batch: Map<FieldId, Seq<char>>,
    autogenerate_docids: bool,
    name: Option<Seq<char>>,
) -> bool {
    match stored {
        Some(key) => name == Some(key),
        None => exists|inferred: Option<Seq<char>>|
            #[trigger] is_inferred_primary_key(batch, inferred)
                && name == crate::primary_key::primary_key_name(None, inferred, autogenerate_docids),
    }
}

/// Whether the registry that holds `names` has no id left for the name
/// `key` of the primary key.
pub open spec fn has_no_id_left(names: Seq<Seq<char>>, key: Seq<char>) -> bool {
    !crate::fields_ids_map::has_name(names, key) && names.len() >= crate::fields_ids_map::MAX_FIELDS
}

/// Whether every name of the batch is one of `names`.
pub open spec fn names_the_batch(names: Seq<Seq<char>>, batch: Map<FieldId, Seq<char>>) -> bool {
    forall|id: FieldId| batch.dom().contains(id) ==> crate::fields_ids_map::has_name(names, #[trigger] batch[id])
}

/// Whether a document with the fields `fields` is refused: its external
/// id is missing and none is generated, the value under the primary key
/// stands for no id or is not valid JSON, or its fields cannot make a
/// record.
pub open spec fn is_refused(fields: Seq<Entry>, primary_key: FieldId, autogenerate_docids: bool) -> bool {
    match field_value(fields, primary_key) {
        None => !autogenerate_docids,
        Some(value) => match external_id_of(value) {
            ExternalId::Id(_) => !can_be_record(fields),
            _ => true,
        },
    }
}

/// Whether `error` is the error that a document is refused with. The
/// document has the fields `fields` under the ids of the registry and
/// came as `document` in a batch whose fields are named by `batch`; the
/// primary key is called `key`.
///
/// A document without an external id, when none is generated, is
/// refused with the name of the primary key and with its fields as
/// `shown_fields` gives them. A value under the primary key that stands
/// for no id is refused with this value, and one that is not valid JSON
/// as such. Fields that cannot make a record are refused as an invalid
/// record.
pub open spec fn is_refused_with(
    fields: Seq<Entry>,
    document: Seq<Entry>,
    batch: Map<FieldId, Seq<char>>,
    key: Seq<char>,
    primary_key: FieldId,
    autogenerate_docids: bool,
    error: TransformError,
) -> bool {
    match field_value(fields, primary_key) {
        None => !autogenerate_docids && (error matches TransformError::MissingDocumentId {
            primary_key: name,
            document: shown,
        } && name@ == key && shown.deep_view() == shown_fields(batch, document)),
        Some(value) => match external_id_of(value) {
            ExternalId::Invalid => error matches TransformError::InvalidDocumentId { value: refused }
                && refused@ == value,
            ExternalId::Malformed => error is SerdeJson,
            ExternalId::Id(_) => error is InvalidRecord && !can_be_record(fields),
        },
    }
}

/// Whether document `i` of `documents` is refused with `error`, when the
/// registry holds `names` and the primary key is called `key`.
pub open spec fn document_fails(
    names: Seq<Seq<char>>,
    batch: Map<FieldId, Seq<char>>,
    key: Seq<char>,
    documents: Seq<Seq<Entry>>,
    autogenerate_docids: bool,
    i: int,
    error: TransformError,
) -> bool {
    is_refused_with(
        remapped(batch_mapping(names, batch), documents[i]),
        documents[i],
        batch,
        key,
        position(names, key),
        autogenerate_docids,
        error,
    )
}

/// Whether document `i` is the first of `documents` that is refused.
pub open spec fn is_first_refused(
    names: Seq<Seq<char>>,
    batch: Map<FieldId, Seq<char>>,
    key: Seq<char>,
    documents: Seq<Seq<Entry>>,
    autogenerate_docids: bool,
    i: int,
) -> bool {
    &&& 0 <= i < documents.len()
    &&& is_refused(
        remapped(batch_mapping(names, batch), documents[i]),
        position(names, key),
        autogenerate_docids,
    )
    &&& forall|j: int|
        0 <= j < i ==> !is_refused(
            remapped(batch_mapping(names, batch), #[trigger] documents[j]),
            position(names, key),
            autogenerate_docids,
        )
}

/// Whether what reading gave, `read`, is what the documents ask for.
///
/// Where a document is refused, reading fails: with the error that the
/// first such document is refused with or, if documents came before it,
/// with an error of the sorter that these were given to. And reading
/// fails for a missing or invalid external id, or for a value that is not
/// valid JSON, only where the first document that is refused is refused
/// so.
pub open spec fn meets_refusals(
    names: Seq<Seq<char>>,
    batch: Map<FieldId, Seq<char>>,
    key: Seq<char>,
    documents: Seq<Seq<Entry>>,
    autogenerate_docids: bool,
    read: Result<usize, TransformError>,
) -> bool {
    &&& forall|i: int| #[trigger]
        is_first_refused(names, batch, key, documents, autogenerate_docids, i) ==> (read matches Err(e)
            && (document_fails(names, batch, key, documents, autogenerate_docids, i, e) || (i > 0
            && e.is_sorter_error())))
    &&& read matches Err(e) ==> ((e is MissingDocumentId || e is InvalidDocumentId || e is SerdeJson)
        ==> exists|i: int| #[trigger]
        is_first_refused(names, batch, key, documents, autogenerate_docids, i) && document_fails(
            names,
            batch,
            key,
            documents,
            autogenerate_docids,
            i,
            e,
        ))
}

/// Reading meets the documents where the first document that is refused
/// is refused with the error that reading gave.
proof fn lemma_meets_refused(
    names: Seq<Seq<char>>,
    batch: Map<FieldId, Seq<char>>,
    key: Seq<char>,
    documents: Seq<Seq<Entry>>,
    autogenerate_docids: bool,
    at: int,
    read: Result<usize, TransformError>,
)
    requires
        is_first_refused(names, batch, key, documents, autogenerate_docids, at),
        read matches Err(e) && document_fails(names, batch, key, documents, autogenerate_docids, at, e),
    ensures
        meets_refusals(names, batch, key, documents, autogenerate_docids, read),
{
    assert forall|i: int| #[trigger]
        is_first_refused(names, batch, key, documents, autogenerate_docids, i) implies i == at by {
        if i < at {
            assert(!is_refused(
                remapped(batch_mapping(names, batch), documents[i]),
                position(names, key),
                autogenerate_docids,
            ));
        }
        if at < i {
            assert(!is_refused(
                remapped(batch_mapping(names, batch), documents[at]),
                position(names, key),
                autogenerate_docids,
            ));
        }
    }
}

/// Reading meets the documents where none of the first `upto` documents
/// is refused and reading stopped for no document's sake.
proof fn lemma_meets_unrefused(
    names: Seq<Seq<char>>,
    batch: Map<FieldId, Seq<char>>,
    key: Seq<char>,
    documents: Seq<Seq<Entry>>,
    autogenerate_docids: bool,
    upto: int,
    read: Result<usize, TransformError>,
)
    requires
        0 <= upto <= documents.len(),
        forall|j: int|
            0 <= j < upto ==> !is_refused(
                remapped(batch_mapping(names, batch), #[trigger] documents[j]),
                position(names, key),
                autogenerate_docids,
            ),
        upto == documents.len() || (upto > 0 && (read matches Err(e) && e.is_sorter_error())),
        read matches Err(e) ==> !(e is MissingDocumentId || e is InvalidDocumentId || e is SerdeJson),
    ensures
        meets_refusals(names, batch, key, documents, autogenerate_docids, read),
{
    assert forall|i: int| #[trigger]
        is_first_refused(names, batch, key, documents, autogenerate_docids, i) implies i >= upto by {
        if i < upto {
            assert(!is_refused(
                remapped(batch_mapping(names, batch), documents[i]),
                position(names, key),
                autogenerate_docids,
            ));
        }
    }
}

/// A batch resolves to one primary key only.
proof fn lemma_resolved_once(
    stored: Option<Seq<char>>,
    batch: Map<FieldId, Seq<char>>,
    autogenerate_docids: bool,
    name: Option<Seq<char>>,
)
    requires
        is_resolved_primary_key(stored, batch, autogenerate_docids, name),
    ensures
        forall|other: Option<Seq<char>>|
            is_resolved_primary_key(stored, batch, autogenerate_docids, other) ==> other == name,
{
    assert forall|other: Option<Seq<char>>|
        is_resolved_primary_key(stored, batch, autogenerate_docids, other) implies other == name by {
        crate::determinism::law_same_batch_same_primary_key(stored, batch, autogenerate_docids, name, other);
    }
}

/// The fields of `document` as the error for a missing external id shows
/// them: in their order, each by the name that the batch gives to its id,
/// with its value. A field is left out if the batch has no name for its
/// id or if its value is not valid JSON.
pub open spec fn shown_fields(index: Map<FieldId, Seq<char>>, document: Seq<Entry>) -> Seq<
    crate::json::NamedField,
>
    decreases document.len(),
{
    if document.len() == 0 {
        Seq::empty()
    } else {
        let before = shown_fields(index, document.drop_last());
        let field = document.last();
        if index.dom().contains(field.0) && parsed_json(field.1) is Some {
            before.push((index[field.0], field.1))
        } else {
            before
        }
    }
}

/// The fields of a document that has no external id, as the error shows
/// them: by name, each with its value, those left out whose value is not
/// valid JSON.
pub fn named_fields(index: &DocumentsBatchIndex, document: &DocumentFields) -> (named: Vec<(String, Vec<u8>)>)
    requires
        index.wf(),
    ensures
        named.deep_view() == shown_fields(index@, document.deep_view()),
{
    let ghost fields = document.deep_view();
    proof {
        lemma_fields_view(*document);
    }
    let mut named: Vec<(String, Vec<u8>)> = Vec::new();
    let mut f: usize = 0;
    assert(named.deep_view() =~= shown_fields(index@, fields.take(0)));
    while f < document.len()
        invariant
            index.wf(),
            fields == document.deep_view(),
            fields.len() == document@.len(),
            forall|k: int| 0 <= k < document@.len() ==> #[trigger] fields[k] == (document@[k].0, document@[k].1@),
            f <= document@.len(),
            named.deep_view() == shown_fields(index@, fields.take(f as int)),
        decreases document.len() - f,
    {
        let ghost shown = named.deep_view();
        proof {
            assert(fields.take(f + 1).drop_last() =~= fields.take(f as int));
            assert(fields.take(f + 1).last() == fields[f as int]);
        }
        if let Some(name) = index.name(document[f].0) {
            if json_from_slice(document[f].1.as_slice()).is_ok() {
                let ghost before = named@;
                let value = document[f].1.clone();
                let entry = (name.clone(), value);
                named.push(entry);
                proof {
                    assert(named.deep_view() =~= shown.push((index@[fields[f as int].0], fields[f as int].1))) by {
                        assert forall|k: int| 0 <= k < named@.len() implies #[trigger] named.deep_view()[k]
                            == shown.push((index@[fields[f as int].0], fields[f as int].1))[k] by {
                            if k < before.len() {
                                assert(named@[k] == before[k]);
                            } else {
                                assert(named@[k].1.deep_view() =~= named@[k].1@);
                            }
                        }
                    }
                }
            }
        }
        f += 1;
    }
    proof {
        assert(fields.take(f as int) =~= fields);
    }
    named
}

impl<'a> Transform<'a> {
    /// The sorter applies the policy that goes with the way of indexing.
    pub closed spec fn wf(&self) -> bool {
        sorter_policy(self.original_sorter) == batch_policy(self.index_documents_method)
    }

    /// The pairs that were made of the documents read so far: for each
    /// document its external id and its record.
    pub closed spec fn pairs(&self) -> Seq<Pair> {
        sorter_entries(self.original_sorter)
    }

    /// The number of documents read so far.
    pub closed spec fn spec_documents_count(&self) -> usize {
        self.documents_count
    }

    /// Whether a document without an external id is given a new one.
    pub closed spec fn autogenerates(&self) -> bool {
        self.autogenerate_docids
    }

    /// How a document that is known already meets the one that comes in.
    pub closed spec fn method(&self) -> IndexDocumentsMethod {
        self.index_documents_method
    }

    /// The settings of the sorters and of the streams.
    pub closed spec fn settings(&self) -> IndexerConfig {
        *self.indexer_settings
    }

    /// What the parts of a transformation say of it.
    pub(crate) proof fn lemma_parts(&self)
        ensures
            self.wf() == (sorter_policy(self.original_sorter) == batch_policy(self.index_documents_method)),
            self.pairs() == sorter_entries(self.original_sorter),
            self.method() == self.index_documents_method,
            self.settings() == *self.indexer_settings,
            self.autogenerates() == self.autogenerate_docids,
            self.spec_documents_count() == self.documents_count,
    {
    }

    /// A transformation that has read no document yet.
    pub fn new(
        indexer_settings: &'a IndexerConfig,
        index_documents_method: IndexDocumentsMethod,
        autogenerate_docids: bool,
    ) -> (transform: Transform<'a>)
        ensures
            transform.wf(),
            transform.pairs() == Seq::<Pair>::empty(),
            transform.spec_documents_count() == 0,
            transform.autogenerates() == autogenerate_docids,
            transform.method() == index_documents_method,
            transform.settings() == *indexer_settings,
    {
        // The documents of one batch that share an external id are merged
        // or the last one of them stands, as the way of indexing says.
        let policy = match index_documents_method {
            IndexDocumentsMethod::ReplaceDocuments => MergePolicy::KeepLatest,
            IndexDocumentsMethod::UpdateDocuments => MergePolicy::UnionRecords,
        };
        let original_sorter = create_sorter(
            policy,
            indexer_settings.chunk_compression_type,
            indexer_settings.chunk_compression_level,
            indexer_settings.max_nb_chunks,
            indexer_settings.max_memory,
        );
        Transform {
            indexer_settings,
            autogenerate_docids,
            index_documents_method,
            original_sorter,
            documents_count: 0,
        }
    }

    /// The number of documents read so far.
    pub fn documents_count(&self) -> (count: usize)
        ensures
            count == self.spec_documents_count(),
    {
        self.documents_count
    }

    /// Reads the documents that `reader` still holds.
    ///
    /// The names of the fields of the batch are registered in ascending
    /// order of their ids in the batch, then the name of the primary key
    /// is. Each document is given to the sorter as a pair of its external
    /// id and its record under the ids of the registry, see
    /// `is_document_pair`. When all went well the registry and the name of
    /// the primary key are written to the index; on an error the index is
    /// left as it was.
    pub fn read_documents<F: Fn(UpdateIndexingStep)>(
        &mut self,
        reader: DocumentBatchReader,
        index: &mut Index,
        progress_callback: F,
    ) -> (read: Result<usize, TransformError>)
        requires
            old(self).wf(),
            old(index).wf(),
            reader.wf(),
            forall|step: UpdateIndexingStep| call_requires(progress_callback, (step,)),
        ensures
            final(self).wf(),
            final(index).wf(),
            final(self).autogenerates() == old(self).autogenerates(),
            final(self).method() == old(self).method(),
            final(self).settings() == old(self).settings(),
            read is Err ==> *final(index) == *old(index),
            // The attribute limit is reached when the registry has no id
            // left for a name of the batch or for the primary key.
            read matches Err(TransformError::AttributeLimitReached) <==> !names_the_batch(
                with_names(old(index).fields_ids_map@, names_by_id(reader.spec_index()@)),
                reader.spec_index()@,
            ) || exists|key: Seq<char>|
                #[trigger] is_resolved_primary_key(
                    crate::primary_key::string_option_view(old(index).primary_key),
                    reader.spec_index()@,
                    old(self).autogenerates(),
                    Some(key),
                ) && has_no_id_left(
                    with_names(old(index).fields_ids_map@, names_by_id(reader.spec_index()@)),
                    key,
                ),
            // Without a primary key the batch is not read.
            read matches Err(TransformError::MissingPrimaryKey) <==> names_the_batch(
                with_names(old(index).fields_ids_map@, names_by_id(reader.spec_index()@)),
                reader.spec_index()@,
            ) && is_resolved_primary_key(
                crate::primary_key::string_option_view(old(index).primary_key),
                reader.spec_index()@,
                old(self).autogenerates(),
                None,
            ),
            // The errors that reading reports.
            read matches Err(e) ==> e is AttributeLimitReached || e is MissingPrimaryKey || e
                is MissingDocumentId || e is InvalidDocumentId || e is SerdeJson || e is DocumentLimitReached
                || e.is_sorter_error(),
            // The documents are too many only where they cannot be counted.
            read matches Err(TransformError::DocumentLimitReached) ==> old(self).spec_documents_count()
                + reader.remaining().len() > usize::MAX,
            // A batch without documents is read unless the attribute limit
            // is reached or the primary key is missing.
            reader.remaining().len() == 0 ==> (read matches Err(e) ==> e is AttributeLimitReached || e
                is MissingPrimaryKey),
            // A document is refused only once the primary key is resolved.
            read matches Err(e) ==> ((e is MissingDocumentId || e is InvalidDocumentId || e is SerdeJson)
                ==> exists|key: Seq<char>|
                #[trigger] is_resolved_primary_key(
                    crate::primary_key::string_option_view(old(index).primary_key),
                    reader.spec_index()@,
                    old(self).autogenerates(),
                    Some(key),
                )),
            // The first document that is refused makes reading fail.
            forall|key: Seq<char>|
                #[trigger] is_resolved_primary_key(
                    crate::primary_key::string_option_view(old(index).primary_key),
                    reader.spec_index()@,
                    old(self).autogenerates(),
                    Some(key),
                ) && names_the_batch(
                    with_names(old(index).fields_ids_map@, names_by_id(reader.spec_index()@)),
                    reader.spec_index()@,
                ) && !has_no_id_left(
                    with_names(old(index).fields_ids_map@, names_by_id(reader.spec_index()@)),
                    key,
                ) ==> meets_refusals(
                    with_name(
                        with_names(old(index).fields_ids_map@, names_by_id(reader.spec_index()@)),
                        key,
                    ),
                    reader.spec_index()@,
                    key,
                    reader.remaining(),
                    old(self).autogenerates(),
                    read,
                ),
            read matches Ok(count) ==> {
                let batch = reader.spec_index()@;
                let names = final(index).fields_ids_map@;
                let key = final(index).primary_key->0@;
                let added = final(self).pairs().skip(old(self).pairs().len() as int);
                &&& count == reader.remaining().len()
                &&& final(self).spec_documents_count() == old(self).spec_documents_count() + count
                &&& final(index).primary_key is Some
                &&& is_resolved_primary_key(
                    crate::primary_key::string_option_view(old(index).primary_key),
                    batch,
                    old(self).autogenerates(),
                    Some(key),
                )
                &&& names == with_name(
                    with_names(old(index).fields_ids_map@, names_by_id(batch)),
                    key,
                )
                &&& crate::fields_ids_map::has_name(names, key)
                &&& final(index).documents_ids == old(index).documents_ids
                &&& final(index).field_distribution == old(index).field_distribution
                &&& final(index).external_documents_ids == old(index).external_documents_ids
                &&& final(index).documents == old(index).documents
                &&& final(self).pairs() == old(self).pairs() + added
                &&& added.len() == count
                &&& forall|i: int|
                    0 <= i < count ==> is_document_pair(
                        remapped(batch_mapping(names, batch), reader.remaining()[i]),
                        position(names, key),
                        old(self).autogenerates(),
                        #[trigger] added[i],
                    )
                // The registry names every field of every record.
                &&& forall|i: int|
                    0 <= i < count ==> crate::finalize::all_named(
                        names,
                        record_entries((#[trigger] added[i]).1),
                    )
            },
    {
        let mut batch_reader = reader;
        let ghost batch = reader.spec_index()@;
        let ghost all = reader.spec_documents();
        let ghost documents = reader.remaining();
        let ghost start = reader.spec_cursor();
        let ghost given = self.pairs();
        let mut fields_ids_map = index.fields_ids_map.clone();
        let mapping = match create_fields_mapping(&mut fields_ids_map, batch_reader.index()) {
            Ok(mapping) => mapping,
            Err(e) => {
                return Err(e);
            },
        };
        let ghost registered = fields_ids_map@;

        let inferred: Option<String> = match &index.primary_key {
            Some(key) => Some(key.clone()),
            None => match find_primary_key(batch_reader.index()) {
                Some(name) => Some(name.to_owned()),
                None => None,
            },
        };
        let stored: Option<&str> = match &index.primary_key {
            Some(key) => Some(key.as_str()),
            None => None,
        };
        let (primary_key_id, primary_key_name) = match compute_primary_key_pair(
            stored,
            &mut fields_ids_map,
            inferred,
            self.autogenerate_docids,
        ) {
            Ok(pair) => pair,
            Err(e) => {
                proof {
                    let stored_view = crate::primary_key::string_option_view(index.primary_key);
                    let found = crate::primary_key::string_option_view(inferred);
                    let resolved = crate::primary_key::primary_key_name(
                        stored_view,
                        found,
                        self.autogenerate_docids,
                    );
                    if index.primary_key is None {
                        assert(is_inferred_primary_key(batch, found));
                    }
                    assert(is_resolved_primary_key(stored_view, batch, self.autogenerate_docids, resolved));
                    lemma_resolved_once(stored_view, batch, self.autogenerate_docids, resolved);
                    assert(names_the_batch(registered, batch));
                    assert(stored_view == crate::primary_key::string_option_view(old(index).primary_key));
                    assert(self.autogenerate_docids == old(self).autogenerates());
                    assert(registered == with_names(
                        old(index).fields_ids_map@,
                        names_by_id(reader.spec_index()@),
                    ));
                    if e is AttributeLimitReached {
                        let key = resolved->0;
                        assert(has_no_id_left(registered, key));
                        assert(is_resolved_primary_key(
                            crate::primary_key::string_option_view(old(index).primary_key),
                            reader.spec_index()@,
                            old(self).autogenerates(),
                            Some(key),
                        ));
                    } else {
                        assert(resolved is None);
                    }
                }
                return Err(e);
            },
        };
        let ghost names = fields_ids_map@;
        let ghost key = primary_key_name@;
        let ghost stored_view = crate::primary_key::string_option_view(index.primary_key);
        proof {
            crate::fields_mapping::lemma_with_name_extends(registered, key);
            assert(is_resolved_primary_key(stored_view, batch, self.autogenerate_docids, Some(key))) by {
                if index.primary_key is None {
                    let found = crate::primary_key::string_option_view(inferred);
                    assert(is_inferred_primary_key(batch, found));
                }
            }
            lemma_resolved_once(stored_view, batch, self.autogenerate_docids, Some(key));
            assert(position(names, key) == primary_key_id) by {
                let p = choose|i: int| 0 <= i < names.len() && names[i] == key;
                assert(names[primary_key_id as int] == key);
                if p != primary_key_id as int {
                    if p < primary_key_id {
                        assert(names[p] != names[primary_key_id as int]);
                    } else {
                        assert(names[primary_key_id as int] != names[p]);
                    }
                }
            }
            assert(mapping@ =~= batch_mapping(names, batch)) by {
                assert forall|id: FieldId| batch.dom().contains(id) implies mapping@[id] == position(
                    names,
                    batch[id],
                ) by {
                    let m = mapping@[id];
                    assert(registered[m as int] == batch[id]);
                    assert(names[m as int] == batch[id]);
                    let p = choose|i: int| 0 <= i < names.len() && names[i] == batch[id];
                    if p != m as int {
                        if p < m {
                            assert(names[p] != names[m as int]);
                        } else {
                            assert(names[m as int] != names[p]);
                        }
                    }
                }
            }
            assert(documents.skip(0) =~= documents);
        }

        let batch_len = batch_reader.len();
        proof {
            reader.lemma_cursor();
        }
        let mut documents_count: usize = 0;
        loop
            invariant
                all.len() == batch_len,
                self.wf(),
                batch_reader.wf(),
                index.wf(),
                *index == *old(index),
                self.autogenerate_docids == old(self).autogenerate_docids,
                self.index_documents_method == old(self).index_documents_method,
                self.indexer_settings == old(self).indexer_settings,
                self.documents_count == old(self).documents_count,
                batch_reader.spec_index() == reader.spec_index(),
                batch_reader.spec_documents() == all,
                documents == all.skip(start as int),
                start <= all.len(),
                batch_reader.spec_cursor() == start + documents_count,
                batch_reader.remaining() == documents.skip(documents_count as int),
                documents_count <= documents.len(),
                mapping@ == batch_mapping(names, batch),
                mapping@.dom() == batch.dom(),
                registered == with_names(old(index).fields_ids_map@, names_by_id(batch)),
                forall|id: FieldId|
                    batch.dom().contains(id) ==> crate::fields_ids_map::has_name(
                        registered,
                        #[trigger] batch[id],
                    ),
                names == with_name(registered, key),
                names == fields_ids_map@,
                fields_ids_map.wf(),
                crate::fields_ids_map::has_name(names, key),
                is_resolved_primary_key(stored_view, batch, self.autogenerate_docids, Some(key)),
                forall|other: Option<Seq<char>>|
                    is_resolved_primary_key(stored_view, batch, self.autogenerate_docids, other) ==> other
                        == Some(key),
                !has_no_id_left(registered, key),
                names_the_batch(registered, batch),
                stored_view == crate::primary_key::string_option_view(old(index).primary_key),
                batch == reader.spec_index()@,
                documents == reader.remaining(),
                position(names, key) == primary_key_id,
                primary_key_name@ == key,
                forall|j: int|
                    0 <= j < documents_count ==> !is_refused(
                        remapped(batch_mapping(names, batch), #[trigger] documents[j]),
                        primary_key_id,
                        self.autogenerate_docids,
                    ),
                self.pairs().len() == given.len() + documents_count,
                self.pairs().take(given.len() as int) == given,
                forall|i: int|
                    0 <= i < documents_count ==> is_document_pair(
                        remapped(batch_mapping(names, batch), documents[i]),
                        primary_key_id,
                        self.autogenerate_docids,
                        #[trigger] self.pairs()[given.len() + i],
                    ),
                forall|step: UpdateIndexingStep| call_requires(progress_callback, (step,)),
            ensures
                documents_count == documents.len(),
            decreases documents.len() - documents_count,
        {
            let ghost before = self.pairs();
            let ghost remaining = batch_reader.remaining();
            let (addition_index, document) = match batch_reader.next_document_with_index() {
                Some(next) => next,
                None => {
                    assert(remaining.len() == 0);
                    break ;
                },
            };
            proof {
                assert(remaining[0] == documents[documents_count as int]);
            }
            if let Some(every) = self.indexer_settings.log_every_n {
                if every != 0 && documents_count % every == 0 {
                    progress_callback(
                        UpdateIndexingStep::RemapDocumentAddition { documents_seen: documents_count },
                    );
                }
            }
            let fields = remap_document(&mapping, document);
            let ghost at = documents_count as int;
            let ghost given_fields = fields.deep_view();
            proof {
                assert(given_fields == remapped(batch_mapping(names, batch), documents[at]));
            }

            // Every document needs an external id. It is read from the value
            // under the primary key; where that field is missing and ids are
            // generated, the document gets a new identifier.
            let generated = if find_field(&fields, primary_key_id).is_none() {
                if !self.autogenerate_docids {
                    let error = TransformError::MissingDocumentId {
                        primary_key: primary_key_name,
                        document: named_fields(addition_index, document),
                    };
                    proof {
                        let read = Err::<usize, TransformError>(error);
                        assert(document_fails(names, batch, key, documents, self.autogenerate_docids, at, error));
                        assert(is_first_refused(names, batch, key, documents, self.autogenerate_docids, at));
                        lemma_meets_refused(names, batch, key, documents, self.autogenerate_docids, at, read);
                        assert(is_resolved_primary_key(
                            crate::primary_key::string_option_view(old(index).primary_key),
                            reader.spec_index()@,
                            old(self).autogenerates(),
                            Some(key),
                        ));
                    }
                    return Err(error);
                }
                Some(generate_uuid())
            } else {
                None
            };
            proof {
                assert(batch_reader.remaining() =~= documents.skip(documents_count + 1));
            }
            let (external_id, record) = match document_entry(fields, primary_key_id, generated) {
                Ok(entry) => entry,
                Err(e) => {
                    proof {
                        let read = Err::<usize, TransformError>(e);
                        assert(is_resolved_primary_key(
                            crate::primary_key::string_option_view(old(index).primary_key),
                            reader.spec_index()@,
                            old(self).autogenerates(),
                            Some(key),
                        ));
                        if is_refused(given_fields, primary_key_id, self.autogenerate_docids) {
                            assert(document_fails(names, batch, key, documents, self.autogenerate_docids, at, e));
                            assert(is_first_refused(names, batch, key, documents, self.autogenerate_docids, at));
                            lemma_meets_refused(names, batch, key, documents, self.autogenerate_docids, at, read);
                        } else {
                            lemma_meets_unrefused(
                                names,
                                batch,
                                key,
                                documents,
                                self.autogenerate_docids,
                                at + 1,
                                read,
                            );
                        }
                    }
                    return Err(e);
                },
            };
            proof {
                assert(!is_refused(given_fields, primary_key_id, self.autogenerate_docids));
            }
            let id_bytes = external_id.as_str().as_bytes();
            if id_bytes.len() > MAX_ENTRY_LEN || record.len() > MAX_ENTRY_LEN {
                proof {
                    lemma_meets_unrefused(
                        names,
                        batch,
                        key,
                        documents,
                        self.autogenerate_docids,
                        at + 1,
                        Err::<usize, TransformError>(TransformError::InvalidRecord),
                    );
                }
                return Err(TransformError::InvalidRecord);
            }
            // The external id is the key of the document in the sorter.
            match sorter_insert(&mut self.original_sorter, id_bytes, record.as_slice()) {
                Ok(()) => {},
                Err(e) => {
                    let error = sorter_error(e);
                    proof {
                        lemma_meets_unrefused(
                            names,
                            batch,
                            key,
                            documents,
                            self.autogenerate_docids,
                            at + 1,
                            Err::<usize, TransformError>(error),
                        );
                    }
                    return Err(error);
                },
            }
            proof {
                broadcast use vstd::utf8::encode_utf8_decode_utf8;

                let pair = (id_bytes@, record@);
                assert(self.pairs() == before.push(pair));
                assert(decoded_id(pair.0) == external_id@);
                assert(self.pairs().take(given.len() as int) =~= before.take(given.len() as int));
                assert forall|i: int| 0 <= i < documents_count + 1 implies is_document_pair(
                    remapped(batch_mapping(names, batch), documents[i]),
                    primary_key_id,
                    self.autogenerate_docids,
                    #[trigger] self.pairs()[given.len() + i],
                ) by {
                    if i < documents_count {
                        assert(self.pairs()[given.len() + i] == before[given.len() + i]);
                    }
                }
            }
            documents_count += 1;

            progress_callback(
                UpdateIndexingStep::RemapDocumentAddition { documents_seen: documents_count },
            );
        }

        progress_callback(UpdateIndexingStep::RemapDocumentAddition { documents_seen: documents_count });

        let total = match self.documents_count.checked_add(documents_count) {
            Some(total) => total,
            None => {
                proof {
                    lemma_meets_unrefused(
                        names,
                        batch,
                        key,
                        documents,
                        self.autogenerate_docids,
                        documents_count as int,
                        Err::<usize, TransformError>(TransformError::DocumentLimitReached),
                    );
                }
                return Err(TransformError::DocumentLimitReached);
            },
        };
        proof {
            lemma_meets_unrefused(
                names,
                batch,
                key,
                documents,
                self.autogenerate_docids,
                documents_count as int,
                Ok::<usize, TransformError>(documents_count),
            );
        }
        index.fields_ids_map = fields_ids_map;
        index.primary_key = Some(primary_key_name);
        self.documents_count = total;
        proof {
            let added = self.pairs().skip(given.len() as int);
            assert(self.pairs() =~= given + added);
            assert forall|i: int| 0 <= i < documents_count implies is_document_pair(
                remapped(batch_mapping(names, batch), documents[i]),
                position(names, key),
                self.autogenerate_docids,
                #[trigger] added[i],
            ) by {
                assert(added[i] == self.pairs()[given.len() + i]);
            }
            reader.lemma_fields_known();
            assert forall|i: int| 0 <= i < documents_count implies crate::finalize::all_named(
                names,
                record_entries((#[trigger] added[i]).1),
            ) by {
                let fields = remapped(batch_mapping(names, batch), documents[i]);
                assert(documents[i] == all[start + i]);
                assert forall|f: int| 0 <= f < fields.len() implies (#[trigger] fields[f]).0 < names.len() by {
                    let id = documents[i][f].0;
                    assert(batch.dom().contains(all[start + i][f].0));
                    assert(crate::fields_ids_map::has_name(registered, batch[id]));
                    let p = choose|p: int| 0 <= p < registered.len() && registered[p] == batch[id];
                    assert(names[p] == batch[id]);
                }
                crate::laws::law_read_fields_are_named(
                    names,
                    fields,
                    position(names, key),
                    self.autogenerate_docids,
                    added[i],
                );
            }
        }
        Ok(documents_count)
    }
}

} // verus!
