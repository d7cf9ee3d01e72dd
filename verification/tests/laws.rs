use document_transform::{
    decode_record, encode_record, DocumentBatchReader, DocumentsBatchIndex, Documents,
    ChunkCompressionType, FieldId, IndexDocumentsMethod, Index, IndexerConfig, Transform,
    TransformError, TransformOutput,
};
use std::collections::BTreeMap;
use std::io::Cursor;

fn read(documents: &[&[(&str, &str)]]) -> DocumentBatchReader {
    let mut index = DocumentsBatchIndex::new();
    let mut names: Vec<String> = Vec::new();
    let mut records = Vec::new();
    for document in documents {
        let mut fields = Vec::new();
        for (name, value) in document.iter() {
            let id = match names.iter().position(|known| known == name) {
                Some(id) => id,
                None => {
                    names.push(name.to_string());
                    index.insert((names.len() - 1) as FieldId, name.to_string());
                    names.len() - 1
                }
            };
            fields.push((id as FieldId, value.as_bytes().to_vec()));
        }
        records.push(fields);
    }
    DocumentBatchReader::new(index, records).unwrap()
}

fn transform(
    index: &mut Index,
    documents: &[&[(&str, &str)]],
    method: IndexDocumentsMethod,
) -> TransformOutput {
    let config = IndexerConfig::default();
    let mut transform = Transform::new(&config, method, false);
    transform.read_documents(read(documents), index, |_step| ()).unwrap();
    transform.output_from_sorter(index, |_step| ()).unwrap()
}

fn records(bytes: &[u8]) -> Vec<(u32, Vec<u8>)> {
    let mut entries = Vec::new();
    let mut cursor = grenad::Reader::new(Cursor::new(bytes)).unwrap().into_cursor().unwrap();
    while let Some((key, value)) = cursor.move_on_next().unwrap() {
        entries.push((u32::from_be_bytes([key[0], key[1], key[2], key[3]]), value.to_vec()));
    }
    entries
}

/// Stores what a transformation handed on, as the indexation would.
fn store(index: &mut Index, output: TransformOutput) {
    let mut stored: BTreeMap<u32, Vec<u8>> =
        index.documents.entries().iter().cloned().collect();
    for (id, record) in records(&output.original_documents) {
        stored.insert(id, record);
    }
    index.documents = Documents::from_entries(stored.into_iter().collect()).unwrap();
    index.documents_ids |= &output.new_documents_ids;
    index.fields_ids_map = output.fields_ids_map;
    index.field_distribution = output.field_distribution;
    index.external_documents_ids = output.external_documents_ids;
}

fn stored_fields(index: &Index) -> u64 {
    index.documents.entries().iter().map(|(_, record)| decode_record(record).len() as u64).sum()
}

fn counted_fields(index: &Index) -> u64 {
    index.field_distribution.entries().iter().map(|(_, count)| *count).sum()
}

fn holders(index: &Index, name: &str) -> u64 {
    let id = match index.fields_ids_map.id(name) {
        Some(id) => id,
        None => return 0,
    };
    index
        .documents
        .entries()
        .iter()
        .filter(|(_, record)| decode_record(record).iter().any(|(field, _)| *field == id))
        .count() as u64
}

const FIRST: &[&[(&str, &str)]] = &[
    &[("id", "\"b\""), ("t", "\"y\""), ("u", "1")],
    &[("id", "\"a\""), ("t", "\"x\"")],
    &[("id", "\"c\""), ("v", "{\"w\":true}")],
];

const SECOND: &[&[(&str, &str)]] = &[
    &[("id", "\"a\""), ("u", "2")],
    &[("id", "\"d\""), ("t", "\"z\"")],
    &[("id", "\"c\""), ("t", "\"s\"")],
];

#[test]
fn ids_are_new_or_replaced_and_never_both() {
    let mut index = Index::new();
    let first = transform(&mut index, FIRST, IndexDocumentsMethod::ReplaceDocuments);
    store(&mut index, first);
    let used = index.documents_ids.len();
    let output = transform(&mut index, SECOND, IndexDocumentsMethod::ReplaceDocuments);
    let new = &output.new_documents_ids;
    let replaced = &output.replaced_documents_ids;
    assert!((new & replaced).is_empty());
    for (id, _) in records(&output.original_documents) {
        assert!(new.contains(id) != replaced.contains(id));
    }
    for (id, _) in records(&output.flattened_documents) {
        assert!(new.contains(id) != replaced.contains(id));
    }
    assert_eq!(new.iter().collect::<Vec<u32>>(), vec![3]);
    assert_eq!(replaced.iter().collect::<Vec<u32>>(), vec![0, 2]);
    // The documents handed on are the new ones and the replaced ones.
    assert_eq!(output.documents_count as u64, new.len() + replaced.len());
    assert!(new.len() + used >= output.documents_count as u64);
    assert_eq!(new.len() + used, 4);
    assert!(replaced.len() < used);
}

#[test]
fn count_is_reached_when_all_documents_are_replaced() {
    let mut index = Index::new();
    let first = transform(&mut index, FIRST, IndexDocumentsMethod::ReplaceDocuments);
    store(&mut index, first);
    let used = index.documents_ids.len();
    let output = transform(&mut index, FIRST, IndexDocumentsMethod::ReplaceDocuments);
    assert_eq!(output.new_documents_ids.len() + used, output.documents_count as u64);
    assert_eq!(output.replaced_documents_ids, index.documents_ids);
}

#[test]
fn field_distribution_counts_the_stored_fields() {
    for method in [IndexDocumentsMethod::ReplaceDocuments, IndexDocumentsMethod::UpdateDocuments] {
        let mut index = Index::new();
        let first = transform(&mut index, FIRST, method);
        store(&mut index, first);
        assert_eq!(counted_fields(&index), 7);
        assert_eq!(counted_fields(&index), stored_fields(&index));
        let second = transform(&mut index, SECOND, method);
        store(&mut index, second);
        assert_eq!(counted_fields(&index), stored_fields(&index));
        for name in ["id", "t", "u", "v", "v.w", "absent"] {
            assert_eq!(index.field_distribution.get(name).unwrap_or(0), holders(&index, name));
        }
        match method {
            IndexDocumentsMethod::ReplaceDocuments => {
                assert_eq!(index.field_distribution.get("t"), Some(3));
                assert_eq!(index.field_distribution.get("v"), None);
            }
            IndexDocumentsMethod::UpdateDocuments => {
                assert_eq!(index.field_distribution.get("t"), Some(4));
                assert_eq!(index.field_distribution.get("v"), Some(1));
            }
        }
    }
}

#[test]
fn replacing_twice_is_replacing_once() {
    let mut index = Index::new();
    let earlier = transform(&mut index, SECOND, IndexDocumentsMethod::ReplaceDocuments);
    store(&mut index, earlier);
    let first = transform(&mut index, FIRST, IndexDocumentsMethod::ReplaceDocuments);
    let first_original = first.original_documents.clone();
    let first_flattened = first.flattened_documents.clone();
    store(&mut index, first);
    let documents = index.documents.entries().clone();
    let distribution = index.field_distribution.entries().clone();
    let names = index.fields_ids_map.names().clone();
    let used = index.documents_ids.clone();

    let second = transform(&mut index, FIRST, IndexDocumentsMethod::ReplaceDocuments);
    assert!(second.new_documents_ids.is_empty());
    assert_eq!(second.documents_count, 3);
    assert_eq!(second.original_documents, first_original);
    assert_eq!(second.flattened_documents, first_flattened);
    store(&mut index, second);
    assert_eq!(index.documents.entries(), &documents);
    let mut counts = index.field_distribution.entries().clone();
    counts.sort();
    let mut expected = distribution;
    expected.sort();
    assert_eq!(counts, expected);
    assert_eq!(index.fields_ids_map.names(), &names);
    assert_eq!(index.documents_ids, used);
    for id in ["a", "b", "c", "d"] {
        assert!(index.external_documents_ids.get(id.as_bytes()).is_some());
    }
}

#[test]
fn updating_keeps_the_fields_that_do_not_come_in() {
    let mut index = Index::new();
    let first = transform(&mut index, FIRST, IndexDocumentsMethod::UpdateDocuments);
    store(&mut index, first);
    let before: Vec<(u32, Vec<(FieldId, Vec<u8>)>)> = index
        .documents
        .entries()
        .iter()
        .map(|(id, record)| (*id, decode_record(record)))
        .collect();
    let second = transform(&mut index, SECOND, IndexDocumentsMethod::UpdateDocuments);
    let touched = records(&second.original_documents);
    store(&mut index, second);
    let t = index.fields_ids_map.id("t").unwrap();
    let u = index.fields_ids_map.id("u").unwrap();
    for (id, fields) in before {
        let after = decode_record(index.documents.get(id).unwrap());
        for (field, value) in fields {
            let kept = after.iter().find(|(key, _)| *key == field).unwrap();
            let came_in = touched.iter().any(|(touched_id, record)| {
                *touched_id == id && decode_record(record).iter().any(|(key, _)| *key == field)
            });
            // A field is never lost, and it keeps its value unless a value
            // came in for it.
            if !(id == 0 && field == u) && !(id == 2 && field == t) {
                assert_eq!(kept.1, value);
            }
            assert!(came_in || kept.1 == value);
        }
    }
    let a = decode_record(index.documents.get(0).unwrap());
    assert_eq!(a.iter().find(|(key, _)| *key == u).unwrap().1, b"2".to_vec());
    assert_eq!(a.iter().find(|(key, _)| *key == t).unwrap().1, b"\"x\"".to_vec());
}

#[test]
fn stored_records_hold_their_external_id() {
    for method in [IndexDocumentsMethod::ReplaceDocuments, IndexDocumentsMethod::UpdateDocuments] {
        let mut index = Index::new();
        let documents: &[&[(&str, &str)]] = &[
            &[("uid", "\" b \""), ("t", "1")],
            &[("uid", "17"), ("t", "2")],
            &[("t", "3"), ("uid", "\"b\"")],
        ];
        let output = transform(&mut index, documents, method);
        assert_eq!(output.primary_key, "uid");
        let key = output.fields_ids_map.id("uid").unwrap();
        let stored = records(&output.original_documents);
        assert_eq!(stored.len(), 2);
        for (id, record) in stored {
            let fields = decode_record(&record);
            let value = &fields.iter().find(|(field, _)| *field == key).unwrap().1;
            let external_id =
                document_transform::transform::external_id_from_value(value).unwrap();
            assert_eq!(output.external_documents_ids.get(external_id.as_bytes()), Some(id));
        }
        assert_eq!(output.external_documents_ids.get(b"17"), Some(0));
        assert_eq!(output.external_documents_ids.get(b"b"), Some(1));
    }
}

#[test]
fn records_hold_known_fields_in_ascending_order() {
    let mut index = Index::new();
    let first = transform(&mut index, FIRST, IndexDocumentsMethod::UpdateDocuments);
    store(&mut index, first);
    let output = transform(&mut index, SECOND, IndexDocumentsMethod::UpdateDocuments);
    let registered = output.fields_ids_map.len();
    for stream in [&output.original_documents, &output.flattened_documents] {
        let mut last = None;
        for (id, record) in records(stream) {
            // The stream goes by ascending internal id.
            assert!(last < Some(id));
            last = Some(id);
            let fields = decode_record(&record);
            assert_eq!(encode_record(&fields).unwrap(), record);
            for pair in fields.windows(2) {
                assert!(pair[0].0 < pair[1].0);
            }
            for (field, _) in fields {
                assert!((field as usize) < registered);
            }
        }
    }
}

#[test]
fn streams_go_by_the_value_of_the_internal_ids() {
    let mut index = Index::new();
    index.primary_key = Some("id".to_string());
    // The ids up to 254 are in use, so the documents get 255 and 256.
    for id in 0..255u32 {
        index.documents_ids.insert(id);
    }
    let output = transform(
        &mut index,
        &[&[("id", "\"a\"")], &[("id", "\"b\"")]],
        IndexDocumentsMethod::ReplaceDocuments,
    );
    let ids: Vec<u32> = records(&output.original_documents).iter().map(|entry| entry.0).collect();
    assert_eq!(ids, vec![255, 256]);
    assert_eq!(output.external_documents_ids.get(b"b"), Some(256));
}

#[test]
fn compression_that_is_not_built_in_is_reported() {
    let mut index = Index::new();
    let config = IndexerConfig {
        chunk_compression_type: ChunkCompressionType::Zlib,
        chunk_compression_level: Some(3),
        max_nb_chunks: Some(2),
        ..IndexerConfig::default()
    };
    let mut transform = Transform::new(&config, IndexDocumentsMethod::ReplaceDocuments, false);
    transform.read_documents(read(&[&[("id", "\"a\"")]]), &mut index, |_step| ()).unwrap();
    let result = transform.output_from_sorter(&index, |_step| ());
    assert_eq!(result.err(), Some(TransformError::Io));
}

#[test]
fn documents_with_a_field_twice_are_refused() {
    let mut batch = DocumentsBatchIndex::new();
    batch.insert(0, "id".to_string());
    batch.insert(1, "t".to_string());
    let documents =
        vec![vec![(0, b"\"a\"".to_vec()), (1, b"1".to_vec()), (1, b"2".to_vec())]];
    let reader = DocumentBatchReader::new(batch, documents).unwrap();
    let mut index = Index::new();
    let config = IndexerConfig::default();
    let mut transform = Transform::new(&config, IndexDocumentsMethod::ReplaceDocuments, false);
    let result = transform.read_documents(reader, &mut index, |_step| ());
    assert_eq!(result, Err(TransformError::InvalidRecord));
    assert_eq!(index.primary_key, None);
}

#[test]
fn reader_refuses_unnamed_fields() {
    let mut batch = DocumentsBatchIndex::new();
    batch.insert(0, "id".to_string());
    assert!(DocumentBatchReader::new(batch, vec![vec![(1, b"1".to_vec())]]).is_none());
    let mut batch = DocumentsBatchIndex::new();
    batch.insert(0, "id".to_string());
    let mut reader = DocumentBatchReader::new(batch, vec![vec![(0, b"1".to_vec())]]).unwrap();
    assert_eq!(reader.len(), 1);
    assert!(!reader.is_empty());
    assert_eq!(reader.index().len(), 1);
    let (index, document) = reader.next_document_with_index().unwrap();
    assert_eq!(index.name(0).map(String::as_str), Some("id"));
    assert_eq!(document, &vec![(0, b"1".to_vec())]);
    assert!(reader.next_document_with_index().is_none());
}
