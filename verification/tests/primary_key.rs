use document_transform::{
    compute_primary_key_pair, find_primary_key, validate_document_id, DocumentsBatchIndex, TransformError,
    FieldsIdsMap,
};

#[test]
fn should_return_primary_key_if_is_some() {
    let mut fields_map = FieldsIdsMap::new();
    fields_map.insert("toto").unwrap();
    let result =
        compute_primary_key_pair(Some("toto"), &mut fields_map, Some("tata".to_string()), false);
    assert_eq!(result.unwrap(), (0, "toto".to_string()));
    assert_eq!(fields_map.len(), 1);
}

#[test]
fn should_return_alternative_if_primary_is_none() {
    let mut fields_map = FieldsIdsMap::new();
    let result = compute_primary_key_pair(None, &mut fields_map, Some("tata".to_string()), false);
    assert_eq!(result.unwrap(), (0, "tata".to_string()));
    assert_eq!(fields_map.len(), 1);
}

#[test]
fn should_return_default_if_both_are_none() {
    let mut fields_map = FieldsIdsMap::new();
    let result = compute_primary_key_pair(None, &mut fields_map, None, true);
    assert_eq!(result.unwrap(), (0, "id".to_string()));
    assert_eq!(fields_map.len(), 1);
}

#[test]
fn should_return_err_if_both_are_none_and_recompute_is_false() {
    let mut fields_map = FieldsIdsMap::new();
    let result = compute_primary_key_pair(None, &mut fields_map, None, false);
    assert!(result.is_err());
    assert_eq!(fields_map.len(), 0);
}

#[test]
fn primary_key_infered_on_first_field() {
    // The test runs several times, as the order in which the fields were
    // given must not matter.
    for _ in 1..50 {
        let mut map = DocumentsBatchIndex::new();
        map.insert(1, "fakeId".to_string());
        map.insert(2, "fakeId".to_string());
        map.insert(3, "fakeId".to_string());
        map.insert(4, "fakeId".to_string());
        map.insert(0, "realId".to_string());

        assert_eq!(find_primary_key(&map), Some("realId"));
    }
}

#[test]
fn missing_primary_key_is_reported() {
    let mut fields_map = FieldsIdsMap::new();
    let result = compute_primary_key_pair(None, &mut fields_map, None, false);
    assert_eq!(result, Err(TransformError::MissingPrimaryKey));
}

#[test]
fn primary_key_is_the_lowest_candidate() {
    let mut map = DocumentsBatchIndex::new();
    map.insert(7, "video".to_string());
    map.insert(3, "title".to_string());
    map.insert(5, "UID".to_string());
    assert_eq!(find_primary_key(&map), Some("UID"));
    assert_eq!(map.len(), 3);
    assert_eq!(map.id("video"), Some(7));
    assert_eq!(map.name(3).map(String::as_str), Some("title"));
    assert_eq!(map.name(4), None);
}

#[test]
fn no_primary_key_without_candidate() {
    let mut map = DocumentsBatchIndex::new();
    map.insert(0, "title".to_string());
    map.insert(1, "overview".to_string());
    assert_eq!(find_primary_key(&map), None);
}

#[test]
fn batch_index_keeps_ids_and_names_paired() {
    let mut map = DocumentsBatchIndex::new();
    map.insert(1, "a".to_string());
    map.insert(2, "b".to_string());
    map.insert(1, "b".to_string());
    assert_eq!(map.len(), 1);
    assert_eq!(map.id("b"), Some(1));
    assert_eq!(map.id("a"), None);
    assert_eq!(map.name(2), None);
}

#[test]
fn document_ids_are_trimmed_and_checked() {
    assert_eq!(validate_document_id("abc"), Some("abc"));
    assert_eq!(validate_document_id("  a-B_9 \n"), Some("a-B_9"));
    assert_eq!(validate_document_id("a b"), None);
    assert_eq!(validate_document_id(""), None);
    assert_eq!(validate_document_id("   "), None);
    assert_eq!(validate_document_id("é"), None);
    assert_eq!(validate_document_id("a.b"), None);
    assert_eq!(validate_document_id("\u{a0}x\u{3000}"), Some("x"));
}
