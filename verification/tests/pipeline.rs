use document_transform::{
    decode_record, encode_record, DocumentBatchReader, DocumentsBatchIndex, Documents,
    ExternalDocumentsIds, FieldId, IndexDocumentsMethod, Index, IndexerConfig, Transform,
    TransformError, TransformOutput, UpdateIndexingStep,
};
use std::io::Cursor;

fn batch(documents: &[&[(&str, &str)]]) -> DocumentBatchReader {
    let mut index = DocumentsBatchIndex::new();
    let mut names: Vec<String> = Vec::new();
    let mut records = Vec::new();
    for document in documents {
        let mut fields = Vec::new();
        for (name, value) in document.iter() {
            let id = match names.iter().position(|known| known == name) {
                Some(id) => id,
                None => {
                    names.push(name.to_string());
                    index.insert((names.len() - 1) as FieldId, name.to_string());
                    names.len() - 1
                }
            };
            fields.push((id as FieldId, value.as_bytes().to_vec()));
        }
        records.push(fields);
    }
    DocumentBatchReader::new(index, records).unwrap()
}

fn run(
    index: &mut Index,
    documents: &[&[(&str, &str)]],
    method: IndexDocumentsMethod,
    autogenerate: bool,
) -> Result<TransformOutput, TransformError> {
    let config = IndexerConfig::default();
    let mut transform = Transform::new(&config, method, autogenerate);
    let read = transform.read_documents(batch(documents), index, |_step| ())?;
    assert_eq!(read, documents.len());
    transform.output_from_sorter(index, |_step| ())
}

fn stream(bytes: &[u8]) -> Vec<(u32, Vec<(FieldId, Vec<u8>)>)> {
    let mut entries = Vec::new();
    if bytes.is_empty() {
        return entries;
    }
    let mut cursor = grenad::Reader::new(Cursor::new(bytes)).unwrap().into_cursor().unwrap();
    while let Some((key, value)) = cursor.move_on_next().unwrap() {
        let id = u32::from_be_bytes([key[0], key[1], key[2], key[3]]);
        entries.push((id, decode_record(value)));
    }
    entries
}

fn named(output: &TransformOutput, record: &[(FieldId, Vec<u8>)]) -> Vec<(String, String)> {
    record
        .iter()
        .map(|(id, value)| {
            (
                output.fields_ids_map.name(*id).unwrap().to_string(),
                String::from_utf8(value.clone()).unwrap(),
            )
        })
        .collect()
}

fn pairs(fields: &[(&str, &str)]) -> Vec<(String, String)> {
    fields.iter().map(|(name, value)| (name.to_string(), value.to_string())).collect()
}

fn ids(bitmap: &roaring::RoaringBitmap) -> Vec<u32> {
    bitmap.iter().collect()
}

fn distribution(output: &TransformOutput) -> Vec<(String, u64)> {
    let mut entries = output.field_distribution.entries().clone();
    entries.sort();
    entries
}

/// An index that stores the document `{"id":"a","t":"x"}` under the
/// internal id 7.
fn index_with_one_document() -> Index {
    let mut index = Index::new();
    let id = index.fields_ids_map.insert("id").unwrap();
    let t = index.fields_ids_map.insert("t").unwrap();
    index.primary_key = Some("id".to_string());
    index.documents_ids.insert(7);
    index.field_distribution.increment("id");
    index.field_distribution.increment("t");
    let map = fst::Map::from_iter(vec![("a", 7u64)]).unwrap();
    index.external_documents_ids = ExternalDocumentsIds::from_map(map).unwrap();
    let record = encode_record(&vec![(id, b"\"a\"".to_vec()), (t, b"\"x\"".to_vec())]).unwrap();
    index.documents = Documents::from_entries(vec![(7, record)]).unwrap();
    index
}

#[test]
fn fresh_insert_with_explicit_primary_key() {
    let mut index = Index::new();
    let output = run(
        &mut index,
        &[&[("id", "\"a\""), ("t", "\"x\"")], &[("id", "\"b\""), ("t", "\"y\"")]],
        IndexDocumentsMethod::ReplaceDocuments,
        false,
    )
    .unwrap();
    assert_eq!(output.primary_key, "id");
    assert_eq!(index.primary_key, Some("id".to_string()));
    assert_eq!(ids(&output.new_documents_ids), vec![0, 1]);
    assert_eq!(ids(&output.replaced_documents_ids), Vec::<u32>::new());
    assert_eq!(output.documents_count, 2);
    assert_eq!(distribution(&output), vec![("id".to_string(), 2), ("t".to_string(), 2)]);
    let id = output.fields_ids_map.id("id").unwrap();
    let t = output.fields_ids_map.id("t").unwrap();
    assert!(id < t);
    let original = stream(&output.original_documents);
    assert_eq!(original.len(), 2);
    assert_eq!(original[0].0, 0);
    assert_eq!(named(&output, &original[0].1), pairs(&[("id", "\"a\""), ("t", "\"x\"")]));
    assert_eq!(original[1].0, 1);
    assert_eq!(named(&output, &original[1].1), pairs(&[("id", "\"b\""), ("t", "\"y\"")]));
    assert_eq!(stream(&output.flattened_documents), original);
    assert_eq!(output.external_documents_ids.get(b"a"), Some(0));
    assert_eq!(output.external_documents_ids.get(b"b"), Some(1));
    assert_eq!(output.external_documents_ids.get(b"c"), None);
}

#[test]
fn primary_key_is_inferred_from_the_batch() {
    let mut index = Index::new();
    let output = run(
        &mut index,
        &[&[("uid", "\"1\""), ("x", "9")]],
        IndexDocumentsMethod::ReplaceDocuments,
        false,
    )
    .unwrap();
    assert_eq!(output.primary_key, "uid");
    assert_eq!(ids(&output.new_documents_ids), vec![0]);
    assert_eq!(output.external_documents_ids.get(b"1"), Some(0));
}

#[test]
fn missing_id_is_generated() {
    let mut index = Index::new();
    let output =
        run(&mut index, &[&[("t", "\"x\"")]], IndexDocumentsMethod::ReplaceDocuments, true)
            .unwrap();
    assert_eq!(output.primary_key, "id");
    assert_eq!(ids(&output.new_documents_ids), vec![0]);
    let original = stream(&output.original_documents);
    assert_eq!(original.len(), 1);
    let fields = named(&output, &original[0].1);
    let id = fields.iter().find(|(name, _)| name == "id").unwrap().1.clone();
    // The value is the JSON text of a string of 36 characters.
    assert_eq!(id.len(), 38);
    let external_id = &id[1..37];
    for (at, c) in external_id.chars().enumerate() {
        if at == 8 || at == 13 || at == 18 || at == 23 {
            assert_eq!(c, '-');
        } else {
            assert!(c.is_ascii_digit() || ('a'..='f').contains(&c));
        }
    }
    assert_eq!(external_id.as_bytes()[14], b'4');
    assert!(b"89ab".contains(&external_id.as_bytes()[19]));
    assert_eq!(output.external_documents_ids.get(external_id.as_bytes()), Some(0));
    assert_eq!(fields.iter().find(|(name, _)| name == "t").unwrap().1, "\"x\"");
}

#[test]
fn known_document_is_replaced() {
    let mut index = index_with_one_document();
    let output = run(
        &mut index,
        &[&[("id", "\"a\""), ("t", "\"z\""), ("u", "\"q\"")]],
        IndexDocumentsMethod::ReplaceDocuments,
        false,
    )
    .unwrap();
    assert_eq!(ids(&output.replaced_documents_ids), vec![7]);
    assert_eq!(ids(&output.new_documents_ids), Vec::<u32>::new());
    assert_eq!(output.documents_count, 1);
    let original = stream(&output.original_documents);
    assert_eq!(original.len(), 1);
    assert_eq!(original[0].0, 7);
    assert_eq!(
        named(&output, &original[0].1),
        pairs(&[("id", "\"a\""), ("t", "\"z\""), ("u", "\"q\"")])
    );
    assert_eq!(
        distribution(&output),
        vec![("id".to_string(), 1), ("t".to_string(), 1), ("u".to_string(), 1)]
    );
}

#[test]
fn known_document_is_updated() {
    let mut index = index_with_one_document();
    let output = run(
        &mut index,
        &[&[("id", "\"a\""), ("u", "\"q\"")]],
        IndexDocumentsMethod::UpdateDocuments,
        false,
    )
    .unwrap();
    assert_eq!(ids(&output.replaced_documents_ids), vec![7]);
    let original = stream(&output.original_documents);
    assert_eq!(original.len(), 1);
    assert_eq!(original[0].0, 7);
    assert_eq!(
        named(&output, &original[0].1),
        pairs(&[("id", "\"a\""), ("t", "\"x\""), ("u", "\"q\"")])
    );
    assert_eq!(
        distribution(&output),
        vec![("id".to_string(), 1), ("t".to_string(), 1), ("u".to_string(), 1)]
    );
}

#[test]
fn invalid_id_is_rejected() {
    let mut index = Index::new();
    let result =
        run(&mut index, &[&[("id", "\"a b\"")]], IndexDocumentsMethod::ReplaceDocuments, false);
    match result {
        Err(TransformError::InvalidDocumentId { value }) => assert_eq!(value, b"\"a b\"".to_vec()),
        _ => panic!("the identifier should have been refused"),
    }
    // Nothing was written to the index.
    assert_eq!(index.primary_key, None);
    assert_eq!(index.fields_ids_map.len(), 0);
}

#[test]
fn duplicates_in_a_batch_collapse() {
    let mut index = Index::new();
    let output = run(
        &mut index,
        &[&[("id", "\"a\""), ("t", "\"1\"")], &[("id", "\"a\""), ("t", "\"2\"")]],
        IndexDocumentsMethod::ReplaceDocuments,
        false,
    )
    .unwrap();
    assert_eq!(output.documents_count, 1);
    let original = stream(&output.original_documents);
    assert_eq!(original.len(), 1);
    assert_eq!(named(&output, &original[0].1), pairs(&[("id", "\"a\""), ("t", "\"2\"")]));
}

#[test]
fn duplicates_in_a_batch_are_merged_when_updating() {
    let mut index = Index::new();
    let output = run(
        &mut index,
        &[
            &[("id", "\"a\""), ("t", "\"1\"")],
            &[("id", "\"a\""), ("u", "\"2\"")],
            &[("id", "\"a\""), ("t", "\"3\"")],
        ],
        IndexDocumentsMethod::UpdateDocuments,
        false,
    )
    .unwrap();
    assert_eq!(output.documents_count, 1);
    let original = stream(&output.original_documents);
    assert_eq!(
        named(&output, &original[0].1),
        pairs(&[("id", "\"a\""), ("t", "\"3\""), ("u", "\"2\"")])
    );
}

#[test]
fn empty_batch_yields_nothing() {
    let mut index = Index::new();
    index.primary_key = Some("id".to_string());
    let output = run(&mut index, &[], IndexDocumentsMethod::ReplaceDocuments, false).unwrap();
    assert_eq!(output.documents_count, 0);
    assert!(output.new_documents_ids.is_empty());
    assert!(output.replaced_documents_ids.is_empty());
    let original = grenad::Reader::new(Cursor::new(&output.original_documents[..])).unwrap();
    assert_eq!(original.len(), 0);
    let flattened = grenad::Reader::new(Cursor::new(&output.flattened_documents[..])).unwrap();
    assert_eq!(flattened.len(), 0);
}

#[test]
fn missing_primary_key_stops_the_batch() {
    let mut index = Index::new();
    let result =
        run(&mut index, &[&[("t", "\"x\"")]], IndexDocumentsMethod::ReplaceDocuments, false);
    assert_eq!(result.err(), Some(TransformError::MissingPrimaryKey));
    assert_eq!(index.fields_ids_map.len(), 0);
}

#[test]
fn missing_document_id_shows_the_document() {
    let mut index = Index::new();
    let result = run(
        &mut index,
        &[&[("id", "\"a\""), ("t", "\"x\"")], &[("t", "\"y\""), ("broken", "{")]],
        IndexDocumentsMethod::ReplaceDocuments,
        false,
    );
    assert_eq!(
        result.err(),
        Some(TransformError::MissingDocumentId {
            primary_key: "id".to_string(),
            document: vec![("t".to_string(), b"\"y\"".to_vec())],
        })
    );
}

#[test]
fn numbers_are_accepted_as_ids() {
    let mut index = Index::new();
    let output = run(
        &mut index,
        &[&[("id", "12"), ("t", "\"x\"")], &[("id", " \"7\" ")]],
        IndexDocumentsMethod::ReplaceDocuments,
        false,
    )
    .unwrap();
    assert_eq!(output.external_documents_ids.get(b"12"), Some(0));
    assert_eq!(output.external_documents_ids.get(b"7"), Some(1));
}

#[test]
fn other_values_are_refused_as_ids() {
    for value in ["null", "true", "[1]", "{\"a\":1}", "\"\"", "\"é\""] {
        let mut index = Index::new();
        let result =
            run(&mut index, &[&[("id", value)]], IndexDocumentsMethod::ReplaceDocuments, false);
        match result {
            Err(TransformError::InvalidDocumentId { value: refused }) => {
                assert_eq!(refused, value.as_bytes().to_vec())
            }
            _ => panic!("the identifier should have been refused"),
        }
    }
}

#[test]
fn malformed_id_is_reported() {
    let mut index = Index::new();
    let result = run(&mut index, &[&[("id", "{")]], IndexDocumentsMethod::ReplaceDocuments, false);
    assert_eq!(result.err(), Some(TransformError::SerdeJson));
}

#[test]
fn freed_ids_are_given_again() {
    let mut index = index_with_one_document();
    index.documents_ids.insert(0);
    index.documents_ids.insert(2);
    let output = run(
        &mut index,
        &[&[("id", "\"x\"")], &[("id", "\"b\"")], &[("id", "\"c\"")], &[("id", "\"a\"")]],
        IndexDocumentsMethod::ReplaceDocuments,
        false,
    )
    .unwrap();
    // The ids go to the external ids in ascending order.
    assert_eq!(output.external_documents_ids.get(b"b"), Some(1));
    assert_eq!(output.external_documents_ids.get(b"c"), Some(3));
    assert_eq!(output.external_documents_ids.get(b"x"), Some(4));
    assert_eq!(output.external_documents_ids.get(b"a"), Some(7));
    assert_eq!(ids(&output.new_documents_ids), vec![1, 3, 4]);
    assert_eq!(ids(&output.replaced_documents_ids), vec![7]);
    assert_eq!(output.documents_count, 4);
    let original = stream(&output.original_documents);
    assert_eq!(original.iter().map(|entry| entry.0).collect::<Vec<u32>>(), vec![1, 3, 4, 7]);
}

#[test]
fn nested_fields_are_flattened() {
    let mut index = Index::new();
    let output = run(
        &mut index,
        &[&[("id", "\"a\""), ("doggo", "{\"name\":\"bernese\",\"age\":3}")]],
        IndexDocumentsMethod::ReplaceDocuments,
        false,
    )
    .unwrap();
    let original = stream(&output.original_documents);
    assert_eq!(
        named(&output, &original[0].1),
        pairs(&[("id", "\"a\""), ("doggo", "{\"name\":\"bernese\",\"age\":3}")])
    );
    let flattened = stream(&output.flattened_documents);
    assert_eq!(flattened[0].0, 0);
    assert_eq!(
        named(&output, &flattened[0].1),
        pairs(&[("id", "\"a\""), ("doggo.name", "\"bernese\""), ("doggo.age", "3")])
    );
    assert_eq!(output.fields_ids_map.len(), 4);
    // Only the fields of the stored record are counted.
    assert_eq!(distribution(&output), vec![("doggo".to_string(), 1), ("id".to_string(), 1)]);
}

#[test]
fn missing_stored_record_is_reported() {
    let mut index = index_with_one_document();
    index.documents = Documents::new();
    let result = run(
        &mut index,
        &[&[("id", "\"a\"")]],
        IndexDocumentsMethod::ReplaceDocuments,
        false,
    );
    assert_eq!(result.err(), Some(TransformError::DatabaseMissingEntry));
}

#[test]
fn output_needs_a_primary_key() {
    let index = Index::new();
    let config = IndexerConfig::default();
    let transform = Transform::new(&config, IndexDocumentsMethod::ReplaceDocuments, false);
    let result = transform.output_from_sorter(&index, |_step| ());
    assert_eq!(result.err(), Some(TransformError::MissingPrimaryKey));
}

#[test]
fn progress_is_reported() {
    let mut index = Index::new();
    let config = IndexerConfig { log_every_n: Some(1), ..IndexerConfig::default() };
    let mut transform = Transform::new(&config, IndexDocumentsMethod::ReplaceDocuments, false);
    let seen = std::cell::RefCell::new(Vec::new());
    let read = transform
        .read_documents(batch(&[&[("id", "\"a\"")], &[("id", "\"b\"")]]), &mut index, |step| {
            seen.borrow_mut().push(step)
        })
        .unwrap();
    assert_eq!(read, 2);
    assert_eq!(transform.documents_count(), 2);
    assert_eq!(
        seen.borrow().last(),
        Some(&UpdateIndexingStep::RemapDocumentAddition { documents_seen: 2 })
    );
    assert!(seen.borrow().iter().all(|step| step.step() == 0));
    assert_eq!(
        UpdateIndexingStep::MergeDataIntoFinalDatabase { databases_seen: 0, total_databases: 1 }
            .step(),
        3
    );
}

#[test]
fn same_input_gives_the_same_streams() {
    let documents: &[&[(&str, &str)]] =
        &[&[("id", "\"b\""), ("t", "\"y\"")], &[("id", "\"a\""), ("t", "{\"u\":[1,2]}")]];
    let mut first_index = index_with_one_document();
    let first = run(&mut first_index, documents, IndexDocumentsMethod::UpdateDocuments, false).unwrap();
    let mut second_index = index_with_one_document();
    let second =
        run(&mut second_index, documents, IndexDocumentsMethod::UpdateDocuments, false).unwrap();
    assert_eq!(first.original_documents, second.original_documents);
    assert_eq!(first.flattened_documents, second.flattened_documents);
    assert_eq!(ids(&first.new_documents_ids), ids(&second.new_documents_ids));
}

#[test]
fn stored_documents_are_remapped() {
    let index = index_with_one_document();
    let old = index.fields_ids_map.clone();
    let mut new = document_transform::FieldsIdsMap::new();
    new.insert("t").unwrap();
    new.insert("other").unwrap();
    new.insert("id").unwrap();
    let config = IndexerConfig::default();
    let transform = Transform::new(&config, IndexDocumentsMethod::ReplaceDocuments, false);
    let output = transform.remap_index_documents(&index, old, new).unwrap();
    assert_eq!(output.documents_count, 1);
    assert_eq!(ids(&output.new_documents_ids), vec![7]);
    assert!(output.replaced_documents_ids.is_empty());
    let original = stream(&output.original_documents);
    assert_eq!(original.len(), 1);
    assert_eq!(original[0].0, 7);
    assert_eq!(original[0].1, vec![(0, b"\"x\"".to_vec()), (2, b"\"a\"".to_vec())]);
    // The flattened form of each record is written under the same id.
    assert_eq!(stream(&output.flattened_documents), original);
    assert_eq!(output.fields_ids_map.len(), 3);
    assert_eq!(distribution(&output), vec![("id".to_string(), 1), ("t".to_string(), 1)]);
    assert_eq!(output.external_documents_ids.get(b"a"), Some(7));
}

#[test]
fn remapped_documents_are_flattened_anew() {
    let mut index = Index::new();
    let first = run(
        &mut index,
        &[
            &[("id", "\"a\""), ("doggo", "{\"name\":\"bernese\"}")],
            &[("id", "\"b\""), ("t", "1")],
        ],
        IndexDocumentsMethod::ReplaceDocuments,
        false,
    )
    .unwrap();
    let stored = stream(&first.original_documents)
        .into_iter()
        .map(|(id, fields)| (id, encode_record(&fields).unwrap()))
        .collect();
    index.documents = Documents::from_entries(stored).unwrap();
    index.documents_ids = first.new_documents_ids.clone();
    let old = index.fields_ids_map.clone();
    let mut new = document_transform::FieldsIdsMap::new();
    new.insert("doggo").unwrap();
    new.insert("id").unwrap();
    let config = IndexerConfig::default();
    let transform = Transform::new(&config, IndexDocumentsMethod::ReplaceDocuments, false);
    let output = transform.remap_index_documents(&index, old, new).unwrap();
    let original = stream(&output.original_documents);
    let flattened = stream(&output.flattened_documents);
    assert_eq!(original.len(), 2);
    assert_eq!(flattened.len(), original.len());
    assert_eq!(
        named(&output, &original[0].1),
        pairs(&[("doggo", "{\"name\":\"bernese\"}"), ("id", "\"a\"")])
    );
    assert_eq!(named(&output, &original[1].1), pairs(&[("id", "\"b\"")]));
    assert_eq!(flattened[0].0, original[0].0);
    assert_eq!(
        named(&output, &flattened[0].1),
        pairs(&[("id", "\"a\""), ("doggo.name", "\"bernese\"")])
    );
    assert_eq!(named(&output, &flattened[1].1), pairs(&[("id", "\"b\"")]));
    // The names of the flattened fields have joined the new registry.
    assert_eq!(
        output.fields_ids_map.names(),
        &vec!["doggo".to_string(), "id".to_string(), "doggo.name".to_string()]
    );
}

#[test]
fn remapping_reports_values_that_are_no_json() {
    let mut index = index_with_one_document();
    let names = index.fields_ids_map.clone();
    let record = encode_record(&vec![(0, b"\"a\"".to_vec()), (1, b"{".to_vec())]).unwrap();
    index.documents = Documents::from_entries(vec![(7, record)]).unwrap();
    let config = IndexerConfig::default();
    let transform = Transform::new(&config, IndexDocumentsMethod::ReplaceDocuments, false);
    let result = transform.remap_index_documents(&index, names.clone(), names);
    assert_eq!(result.err(), Some(TransformError::SerdeJson));
}

#[test]
fn values_merged_in_several_runs_are_merged_as_one() {
    let long = |letter: char| format!("\"{}\"", letter.to_string().repeat(4 * 1024 * 1024));
    let (first, second, third) = (long('p'), long('q'), long('r'));
    let documents: Vec<Vec<(&str, &str)>> = vec![
        vec![("id", "\"a\""), ("t", first.as_str())],
        vec![("id", "\"a\""), ("u", second.as_str())],
        vec![("id", "\"a\""), ("t", "\"3\""), ("v", third.as_str())],
        vec![("id", "\"a\""), ("w", "\"4\"")],
        vec![("id", "\"b\""), ("t", "\"5\"")],
    ];
    let slices: Vec<&[(&str, &str)]> = documents.iter().map(|fields| fields.as_slice()).collect();
    let config = IndexerConfig {
        max_memory: Some(1),
        max_nb_chunks: Some(1),
        ..IndexerConfig::default()
    };
    let mut index = Index::new();
    let mut transform = Transform::new(&config, IndexDocumentsMethod::UpdateDocuments, false);
    let read = transform.read_documents(batch(&slices), &mut index, |_step| ()).unwrap();
    assert_eq!(read, 5);
    let output = transform.output_from_sorter(&index, |_step| ()).unwrap();
    assert_eq!(output.documents_count, 2);
    let original = stream(&output.original_documents);
    assert_eq!(original.len(), 2);
    assert_eq!(
        named(&output, &original[0].1),
        pairs(&[
            ("id", "\"a\""),
            ("t", "\"3\""),
            ("u", second.as_str()),
            ("v", third.as_str()),
            ("w", "\"4\""),
        ])
    );
    assert_eq!(named(&output, &original[1].1), pairs(&[("id", "\"b\""), ("t", "\"5\"")]));
    assert_eq!(stream(&output.flattened_documents), original);
}
