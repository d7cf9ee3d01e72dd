use document_transform::{
    compute_primary_key_pair, create_fields_mapping, DocumentsBatchIndex, FieldsIdsMap,
    TransformError,
};

fn full_but_one() -> FieldsIdsMap {
    let mut map = FieldsIdsMap::new();
    for i in 0..65535u32 {
        assert_eq!(map.insert(&format!("{:x}", i)), Some(i as u16));
    }
    map
}

#[test]
fn registry_gives_ids_in_order() {
    let mut map = FieldsIdsMap::new();
    assert!(map.is_empty());
    assert_eq!(map.insert("id"), Some(0));
    assert_eq!(map.insert("title"), Some(1));
    assert_eq!(map.insert("id"), Some(0));
    assert_eq!(map.len(), 2);
    assert_eq!(map.id("title"), Some(1));
    assert_eq!(map.id("other"), None);
    assert_eq!(map.name(1), Some("title"));
    assert_eq!(map.name(2), None);
    assert_eq!(map.names(), &vec!["id".to_string(), "title".to_string()]);
}

#[test]
fn registry_is_full_at_the_last_id() {
    let mut map = full_but_one();
    assert_eq!(map.insert("last"), Some(65535));
    assert_eq!(map.len(), 65536);
    // No id is left for a new name, and the registry stays as it is.
    assert_eq!(map.insert("one too many"), None);
    assert_eq!(map.len(), 65536);
    assert_eq!(map.id("one too many"), None);
    // A known name still has its id.
    assert_eq!(map.insert("last"), Some(65535));
    assert_eq!(map.insert("0"), Some(0));
}

#[test]
fn mapping_stops_at_the_attribute_limit() {
    let mut map = full_but_one();
    let mut batch = DocumentsBatchIndex::new();
    batch.insert(0, "ff".to_string());
    batch.insert(1, "first new".to_string());
    batch.insert(2, "second new".to_string());
    let result = create_fields_mapping(&mut map, &batch);
    assert_eq!(result.err(), Some(TransformError::AttributeLimitReached));
    assert_eq!(map.len(), 65536);
    assert_eq!(map.id("first new"), Some(65535));
    assert_eq!(map.id("second new"), None);
    let result = compute_primary_key_pair(None, &mut map, Some("key".to_string()), false);
    assert_eq!(result.err(), Some(TransformError::AttributeLimitReached));
    assert_eq!(map.len(), 65536);
}

#[test]
fn mapping_follows_the_ids_of_the_batch() {
    let mut map = FieldsIdsMap::new();
    map.insert("t").unwrap();
    let mut batch = DocumentsBatchIndex::new();
    batch.insert(9, "b".to_string());
    batch.insert(4, "a".to_string());
    batch.insert(6, "t".to_string());
    let mapping = create_fields_mapping(&mut map, &batch).unwrap();
    assert_eq!(mapping.len(), 3);
    assert_eq!(mapping[&4], 1);
    assert_eq!(mapping[&6], 0);
    assert_eq!(mapping[&9], 2);
    assert_eq!(map.names(), &vec!["t".to_string(), "a".to_string(), "b".to_string()]);
}
