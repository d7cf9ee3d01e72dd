use document_transform::transform::external_id_from_value;
use document_transform::{
    decode_record, drop_and_reuse, encode_record, forbid_duplicates, keep_latest_obkv,
    merge_obkvs, merge_two_obkvs, AvailableDocumentsIds, Documents, ExternalDocumentsIds,
    FieldDistribution, TransformError,
};
use std::borrow::Cow;

fn record(fields: &[(u16, &str)]) -> Vec<u8> {
    encode_record(&fields.iter().map(|(id, value)| (*id, value.as_bytes().to_vec())).collect())
        .unwrap()
}

fn fields(bytes: &[u8]) -> Vec<(u16, String)> {
    decode_record(bytes)
        .into_iter()
        .map(|(id, value)| (id, String::from_utf8(value).unwrap()))
        .collect()
}

#[test]
fn records_are_read_back_as_written() {
    let bytes = record(&[(0, "a"), (3, ""), (65535, "long value")]);
    assert_eq!(
        fields(&bytes),
        vec![(0, "a".to_string()), (3, String::new()), (65535, "long value".to_string())]
    );
    // The key comes first, in two bytes, then the length and the value.
    assert_eq!(record(&[(258, "a")]), vec![1, 2, 1, b'a']);
    assert_eq!(encode_record(&vec![]).unwrap(), Vec::<u8>::new());
    assert_eq!(decode_record(&[]), vec![]);
}

#[test]
fn records_need_ascending_ids() {
    let unsorted = vec![(2, b"a".to_vec()), (1, b"b".to_vec())];
    assert_eq!(encode_record(&unsorted), Err(TransformError::InvalidRecord));
    let twice = vec![(1, b"a".to_vec()), (1, b"b".to_vec())];
    assert_eq!(encode_record(&twice), Err(TransformError::InvalidRecord));
}

#[test]
fn two_records_are_merged_with_the_update_on_top() {
    let base = record(&[(1, "a"), (2, "b"), (5, "e")]);
    let update = record(&[(0, "z"), (2, "B"), (7, "g")]);
    let mut buffer = vec![9, 9, 9];
    merge_two_obkvs(&base, &update, &mut buffer).unwrap();
    assert_eq!(
        fields(&buffer),
        vec![
            (0, "z".to_string()),
            (1, "a".to_string()),
            (2, "B".to_string()),
            (5, "e".to_string()),
            (7, "g".to_string())
        ]
    );
    merge_two_obkvs(&base, &[], &mut buffer).unwrap();
    assert_eq!(buffer, base);
    merge_two_obkvs(&[], &update, &mut buffer).unwrap();
    assert_eq!(buffer, update);
    // Bytes that are no record are refused: here the ids go down.
    let broken = vec![0, 2, 1, b'a', 0, 1, 1, b'b'];
    assert_eq!(merge_two_obkvs(&broken, &update, &mut buffer), Err(TransformError::InvalidRecord));
}

#[test]
fn merging_is_the_same_in_any_grouping() {
    let a = record(&[(1, "a"), (2, "a")]);
    let b = record(&[(2, "b"), (3, "b")]);
    let c = record(&[(1, "c"), (4, "c")]);
    let mut left = Vec::new();
    merge_two_obkvs(&a, &b, &mut left).unwrap();
    let mut left_then = Vec::new();
    merge_two_obkvs(&left, &c, &mut left_then).unwrap();
    let mut right = Vec::new();
    merge_two_obkvs(&b, &c, &mut right).unwrap();
    let mut right_then = Vec::new();
    merge_two_obkvs(&a, &right, &mut right_then).unwrap();
    assert_eq!(left_then, right_then);
    let all = merge_obkvs(b"key", &[Cow::Borrowed(&a[..]), Cow::Borrowed(&b[..]), Cow::Owned(c)])
        .unwrap();
    assert_eq!(all.as_ref(), &left_then[..]);
    assert_eq!(
        fields(&all),
        vec![
            (1, "c".to_string()),
            (2, "b".to_string()),
            (3, "b".to_string()),
            (4, "c".to_string())
        ]
    );
}

#[test]
fn merge_policies_pick_their_value() {
    let first: Cow<[u8]> = Cow::Borrowed(b"first");
    let last: Cow<[u8]> = Cow::Owned(b"last".to_vec());
    let both = [first.clone(), last.clone()];
    assert_eq!(keep_latest_obkv(b"k", &both).unwrap().as_ref(), b"last");
    assert_eq!(keep_latest_obkv(b"k", &both[..1]).unwrap().as_ref(), b"first");
    assert_eq!(forbid_duplicates(b"k", &both[..1]).unwrap().as_ref(), b"first");
    assert_eq!(forbid_duplicates(b"k", &both).err(), Some(TransformError::IndexingMergingKeys));
    // One value alone is handed back as it is, whatever it holds.
    assert_eq!(merge_obkvs(b"k", &both[1..]).unwrap().as_ref(), b"last");
    let broken: Cow<[u8]> = Cow::Owned(vec![0, 2, 1, b'a', 0, 1, 1, b'b']);
    assert_eq!(merge_obkvs(b"k", &[broken.clone()]).unwrap(), broken);
    assert_eq!(
        merge_obkvs(b"k", &[Cow::Owned(record(&[(1, "a")])), broken]).err(),
        Some(TransformError::InvalidRecord)
    );
}

#[test]
fn external_ids_are_read_from_values() {
    assert_eq!(external_id_from_value(b"\"abc\""), Ok("abc".to_string()));
    assert_eq!(external_id_from_value(b"\" a-b_C \\n\""), Ok("a-b_C".to_string()));
    assert_eq!(external_id_from_value(b"42"), Ok("42".to_string()));
    assert_eq!(external_id_from_value(b"-1.5"), Ok("-1.5".to_string()));
    assert_eq!(
        external_id_from_value(b"\"a b\""),
        Err(TransformError::InvalidDocumentId { value: b"\"a b\"".to_vec() })
    );
    assert_eq!(
        external_id_from_value(b"null"),
        Err(TransformError::InvalidDocumentId { value: b"null".to_vec() })
    );
    assert_eq!(external_id_from_value(b"\"abc"), Err(TransformError::SerdeJson));
    assert_eq!(external_id_from_value(b""), Err(TransformError::SerdeJson));
}

#[test]
fn lowest_free_id_is_handed_out() {
    let mut used = roaring::RoaringBitmap::new();
    for id in [0, 1, 3, 4, 7] {
        used.insert(id);
    }
    let mut available = AvailableDocumentsIds::from_documents_ids(&used);
    let given: Vec<u32> = (0..6).map(|_| available.next().unwrap()).collect();
    assert_eq!(given, vec![2, 5, 6, 8, 9, 10]);
    let mut available = AvailableDocumentsIds::from_documents_ids(&roaring::RoaringBitmap::new());
    assert_eq!(available.next(), Some(0));
    assert_eq!(available.next(), Some(1));
}

#[test]
fn ids_above_the_highest_used_id_follow_the_gaps() {
    let mut used = roaring::RoaringBitmap::new();
    used.insert_range(0..70_000);
    used.remove(65_536);
    used.remove(12);
    let mut available = AvailableDocumentsIds::from_documents_ids(&used);
    assert_eq!(available.next(), Some(12));
    assert_eq!(available.next(), Some(65_536));
    assert_eq!(available.next(), Some(70_000));
    assert_eq!(available.next(), Some(70_001));
}

#[test]
fn external_ids_are_joined_with_the_new_ones_on_top() {
    let known = fst::Map::from_iter(vec![("a", 1u64), ("c", 3), ("e", 5)]).unwrap();
    let mut ids = ExternalDocumentsIds::from_map(known).unwrap();
    let new = fst::Map::from_iter(vec![("b", 2u64), ("c", 30), ("f", 6)]).unwrap();
    ids.insert_ids(&new).unwrap();
    let all = ids.clone().into_map().stream().into_str_vec().unwrap();
    assert_eq!(
        all,
        vec![
            ("a".to_string(), 1),
            ("b".to_string(), 2),
            ("c".to_string(), 30),
            ("e".to_string(), 5),
            ("f".to_string(), 6)
        ]
    );
    assert_eq!(ids.get(b"c"), Some(30));
    assert_eq!(ids.get(b"d"), None);
    assert_eq!(ids.as_map().len(), 5);
    assert_eq!(ExternalDocumentsIds::new().get(b"a"), None);
    // A value that is no internal id is refused.
    let wide = fst::Map::from_iter(vec![("a", u32::MAX as u64 + 1)]).unwrap();
    assert!(ExternalDocumentsIds::from_map(wide).is_none());
}

#[test]
fn field_distribution_counts_up_and_down() {
    let mut distribution = FieldDistribution::new();
    distribution.increment("a");
    distribution.increment("b");
    distribution.increment("a");
    assert_eq!(distribution.get("a"), Some(2));
    assert_eq!(distribution.get("b"), Some(1));
    assert_eq!(distribution.len(), 2);
    distribution.decrement("b");
    // An entry goes when its count reaches zero.
    assert_eq!(distribution.get("b"), None);
    assert_eq!(distribution.len(), 1);
    distribution.decrement("b");
    distribution.decrement("absent");
    assert_eq!(distribution.entries(), &vec![("a".to_string(), 2)]);
    let copy = distribution.clone();
    let same = FieldDistribution::from_entries(vec![("a".to_string(), 2)]).unwrap();
    assert_eq!(same.get("a"), Some(2));
    assert!(FieldDistribution::from_entries(vec![("a".to_string(), 0)]).is_none());
    let twice = vec![("a".to_string(), 1), ("a".to_string(), 2)];
    assert!(FieldDistribution::from_entries(twice).is_none());
    distribution.decrement("a");
    assert_eq!(distribution.get("a"), Some(1));
    assert_eq!(copy.get("a"), Some(2));
}

#[test]
fn documents_are_found_by_id() {
    let entries =
        vec![(1, b"one".to_vec()), (4, b"four".to_vec()), (9, b"nine".to_vec())];
    let documents = Documents::from_entries(entries.clone()).unwrap();
    assert_eq!(documents.len(), 3);
    assert_eq!(documents.get(4), Some(&b"four".to_vec()));
    assert_eq!(documents.get(1), Some(&b"one".to_vec()));
    assert_eq!(documents.get(9), Some(&b"nine".to_vec()));
    assert_eq!(documents.get(5), None);
    assert_eq!(documents.entries(), &entries);
    assert!(Documents::from_entries(vec![(4, vec![]), (1, vec![])]).is_none());
    assert!(Documents::from_entries(vec![(4, vec![]), (4, vec![])]).is_none());
    assert_eq!(Documents::new().get(0), None);
}

#[test]
fn dropped_vector_comes_back_empty() {
    let reused: Vec<(u16, Vec<u8>)> = drop_and_reuse(vec![1u32, 2, 3]);
    assert!(reused.is_empty());
}

fn small_index() -> (document_transform::FieldsIdsMap, Documents) {
    let mut names = document_transform::FieldsIdsMap::new();
    names.insert("id").unwrap();
    names.insert("t").unwrap();
    names.insert("u").unwrap();
    let stored = Documents::from_entries(vec![(5, record(&[(0, "\"a\""), (1, "1")]))]).unwrap();
    (names, stored)
}

#[test]
fn new_document_is_marked_and_counted() {
    let (names, stored) = small_index();
    let mut distribution = FieldDistribution::new();
    let mut replaced = roaring::RoaringBitmap::new();
    let mut new = roaring::RoaringBitmap::new();
    let mut builder = fst::MapBuilder::memory();
    let incoming = record(&[(0, "\"b\""), (2, "2")]);
    let kept = document_transform::Transform::add_and_merge_original_document(
        false,
        b"b",
        9,
        &incoming,
        &stored,
        document_transform::IndexDocumentsMethod::UpdateDocuments,
        &mut distribution,
        &names,
        &mut replaced,
        &mut new,
        &mut builder,
    )
    .unwrap();
    assert_eq!(kept, incoming);
    assert!(replaced.is_empty());
    assert_eq!(new.iter().collect::<Vec<u32>>(), vec![9]);
    assert_eq!(builder.into_map().get("b"), Some(9));
    assert_eq!(distribution.get("id"), Some(1));
    assert_eq!(distribution.get("u"), Some(1));
    assert_eq!(distribution.get("t"), None);
}

#[test]
fn known_document_meets_its_stored_record() {
    for (method, expected) in [
        (
            document_transform::IndexDocumentsMethod::ReplaceDocuments,
            record(&[(0, "\"a\""), (2, "2")]),
        ),
        (
            document_transform::IndexDocumentsMethod::UpdateDocuments,
            record(&[(0, "\"a\""), (1, "1"), (2, "2")]),
        ),
    ] {
        let (names, stored) = small_index();
        let mut distribution = FieldDistribution::from_entries(vec![
            ("id".to_string(), 3),
            ("t".to_string(), 1),
        ])
        .unwrap();
        let mut replaced = roaring::RoaringBitmap::new();
        let mut new = roaring::RoaringBitmap::new();
        let mut builder = fst::MapBuilder::memory();
        let incoming = record(&[(0, "\"a\""), (2, "2")]);
        let kept = document_transform::Transform::add_and_merge_original_document(
            true,
            b"a",
            5,
            &incoming,
            &stored,
            method,
            &mut distribution,
            &names,
            &mut replaced,
            &mut new,
            &mut builder,
        )
        .unwrap();
        assert_eq!(kept, expected);
        assert_eq!(replaced.iter().collect::<Vec<u32>>(), vec![5]);
        assert!(new.is_empty());
        assert_eq!(builder.into_map().len(), 0);
        assert_eq!(distribution.get("id"), Some(3));
        assert_eq!(distribution.get("u"), Some(1));
        let t = if expected.len() > incoming.len() { Some(1) } else { None };
        assert_eq!(distribution.get("t"), t);
    }
}

#[test]
fn documents_that_cannot_be_stored_are_reported() {
    let (names, stored) = small_index();
    let incoming = record(&[(0, "\"a\"")]);
    let run = |updated: bool, key: &[u8], docid: u32, document: &[u8]| {
        let mut distribution = FieldDistribution::new();
        let mut replaced = roaring::RoaringBitmap::new();
        let mut new = roaring::RoaringBitmap::new();
        let mut builder = fst::MapBuilder::memory();
        builder.insert("b", 1).unwrap();
        document_transform::Transform::add_and_merge_original_document(
            updated,
            key,
            docid,
            document,
            &stored,
            document_transform::IndexDocumentsMethod::ReplaceDocuments,
            &mut distribution,
            &names,
            &mut replaced,
            &mut new,
            &mut builder,
        )
    };
    // No record is stored under the internal id.
    assert_eq!(run(true, b"a", 6, &incoming), Err(TransformError::DatabaseMissingEntry));
    // The external id does not come after the one given before it.
    assert_eq!(run(false, b"a", 6, &incoming), Err(TransformError::Fst));
    assert_eq!(run(false, b"b", 6, &incoming), Err(TransformError::Fst));
    // The registry has no name for the field.
    assert_eq!(run(false, b"c", 6, &record(&[(7, "1")])), Err(TransformError::InvalidRecord));
    assert_eq!(run(false, b"c", 6, &incoming), Ok(incoming.clone()));
}
