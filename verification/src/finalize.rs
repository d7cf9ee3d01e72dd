use crate::available_documents_ids::AvailableDocumentsIds;
use crate::bitmap::{bitmap_clone, bitmap_ids, bitmap_insert, bitmap_new};
use crate::bytes::{be_bytes, u32_to_be_bytes};
use crate::config::{ChunkCompressionType, IndexDocumentsMethod, IndexerConfig, UpdateIndexingStep};
use crate::documents::{lemma_fields_view, sort_fields};
use crate::error::TransformError;
use crate::external_documents_ids::{
    fst_builder_accepts, fst_builder_entries, fst_builder_insert, fst_builder_into_map,
    fst_builder_memory, fst_entries, holds_internal_ids, is_listing, ExternalDocumentsIds,
};
use crate::field_distribution::FieldDistribution;
use crate::fields_ids_map::{has_name, with_names, FieldId, FieldsIdsMap};
use crate::fields_mapping::lemma_with_name_extends;
use crate::index::{Documents, Index};
use crate::json::{flatten_fields, flattened, parsed_json, NamedField};
use crate::merge::{merge_two_obkvs, merged_record, MergePolicy};
use crate::record::{
    check_ascending, decode_record, encode_record, encoded_record, is_ascending, record_entries,
    Entry,
};
use crate::sorter::{
    sorter_error, is_grouping, is_merging, iter_groups, iter_policy, sorter_entries,
    sorter_insert, sorter_into_stream_merger_iter, next_merged, sorter_policy,
    write_merged, Group, MAX_ENTRY_LEN, Pair, Sorter,
};
use crate::stream::{
    grenad_compression, writer_builder_compression_level, writer_builder_compression_type,
    writer_builder_memory, writer_builder_new, writer_into_inner, writer_pairs, writer_setup,
    written_stream,
};
use crate::transform::{
    batch_policy, create_sorter, is_record_of, position, Transform, TransformOutput,
};
use vstd::prelude::*;
use vstd::slice::slice_to_vec;

verus! {

/// Whether one of `entries` is the field called `name` in the registry
/// `names`.
pub open spec fn holds_name(names: Seq<Seq<char>>, entries: Seq<Entry>, name: Seq<char>) -> bool {
    exists|i: int|
        0 <= i < entries.len() && (#[trigger] entries[i]).0 < names.len() && names[entries[i].0 as int]
            == name
}

/// Whether the registry `names` has a name for every field of `entries`.
pub open spec fn all_named(names: Seq<Seq<char>>, entries: Seq<Entry>) -> bool {
    forall|i: int| 0 <= i < entries.len() ==> (#[trigger] entries[i]).0 < names.len()
}

/// The count of a field once a document that may hold the field is
/// taken away: a count of zero stays.
pub open spec fn count_without(count: u64, held: bool) -> u64 {
    if held && count > 0 {
        (count - 1) as u64
    } else {
        count
    }
}

/// The count of a field once a document that may hold the field is
/// added: a count that cannot grow stays.
pub open spec fn count_with(count: u64, held: bool) -> u64 {
    if held && count < u64::MAX {
        (count + 1) as u64
    } else {
        count
    }
}

/// How many of the fields `entries` have a count above zero in `counts`:
/// the counts that go down when a document with these fields is taken
/// away.
pub open spec fn uncounted(names: Seq<Seq<char>>, counts: Map<Seq<char>, u64>, entries: Seq<Entry>) -> nat
    decreases entries.len(),
{
    if entries.len() == 0 {
        0
    } else {
        let rest = uncounted(names, counts, entries.drop_last());
        if counts[names[entries.last().0 as int]] > 0 {
            rest + 1
        } else {
            rest
        }
    }
}

/// How many of the fields `entries` have a count in `counts` that can
/// grow: the counts that go up when a document with these fields is
/// added.
pub open spec fn counted(names: Seq<Seq<char>>, counts: Map<Seq<char>, u64>, entries: Seq<Entry>) -> nat
    decreases entries.len(),
{
    if entries.len() == 0 {
        0
    } else {
        let rest = counted(names, counts, entries.drop_last());
        if counts[names[entries.last().0 as int]] < u64::MAX {
            rest + 1
        } else {
            rest
        }
    }
}

/// The counts of the fields once a document with the fields `entries` is
/// taken away.
pub open spec fn counts_without(counts: Map<Seq<char>, u64>, names: Seq<Seq<char>>, entries: Seq<Entry>) -> Map<
    Seq<char>,
    u64,
> {
    Map::total(|name: Seq<char>| count_without(counts[name], holds_name(names, entries, name)))
}

/// The record that is stored for a document that comes in as `incoming`:
/// what comes in, or, where the document is known as `base` and documents
/// are updated, the fields of `base` with those that come in laid over.
pub open spec fn stored_record(method: IndexDocumentsMethod, base: Option<Seq<u8>>, incoming: Seq<u8>) -> Seq<u8> {
    match (method, base) {
        (IndexDocumentsMethod::UpdateDocuments, Some(stored)) => encoded_record(
            merged_record(record_entries(stored), record_entries(incoming)),
        ),
        _ => incoming,
    }
}

/// The fields of the record that is stored for a document that comes in
/// with the fields `incoming`: these fields, or, where the document is
/// known with the fields `base` and documents are updated, the fields of
/// `base` with those that come in laid over.
pub open spec fn stored_entries(method: IndexDocumentsMethod, base: Option<Seq<u8>>, incoming: Seq<u8>) -> Seq<
    Entry,
> {
    match (method, base) {
        (IndexDocumentsMethod::UpdateDocuments, Some(stored)) => merged_record(
            record_entries(stored),
            record_entries(incoming),
        ),
        _ => record_entries(incoming),
    }
}

/// Takes one document off the counts of each of its fields.
pub fn uncount_fields(
    field_distribution: &mut FieldDistribution,
    fields_ids_map: &FieldsIdsMap,
    fields: &Vec<(FieldId, Vec<u8>)>,
) -> (done: Result<(), TransformError>)
    requires
        old(field_distribution).wf(),
        fields_ids_map.wf(),
        is_ascending(fields.deep_view()),
    ensures
        final(field_distribution).wf(),
        done is Ok <==> all_named(fields_ids_map@, fields.deep_view()),
        done matches Err(e) ==> e == TransformError::InvalidRecord,
        done is Ok ==> forall|name: Seq<char>|
            #[trigger] final(field_distribution).count(name) == count_without(
                old(field_distribution).count(name),
                holds_name(fields_ids_map@, fields.deep_view(), name),
            ),
        done is Ok ==> final(field_distribution).total() + uncounted(
            fields_ids_map@,
            old(field_distribution).counts(),
            fields.deep_view(),
        ) == old(field_distribution).total(),
{
    let ghost names = fields_ids_map@;
    let ghost entries = fields.deep_view();
    proof {
        lemma_fields_view(*fields);
    }
    let mut i: usize = 0;
    while i < fields.len()
        invariant
            field_distribution.wf(),
            fields_ids_map.wf(),
            names == fields_ids_map@,
            entries == fields.deep_view(),
            entries.len() == fields@.len(),
            forall|k: int| 0 <= k < fields@.len() ==> #[trigger] entries[k] == (fields@[k].0, fields@[k].1@),
            is_ascending(entries),
            i <= fields@.len(),
            all_named(names, entries.take(i as int)),
            forall|name: Seq<char>|
                #[trigger] field_distribution.count(name) == count_without(
                    old(field_distribution).count(name),
                    holds_name(names, entries.take(i as int), name),
                ),
            field_distribution.total() + uncounted(
                names,
                old(field_distribution).counts(),
                entries.take(i as int),
            ) == old(field_distribution).total(),
        decreases fields.len() - i,
    {
        let ghost before = *field_distribution;
        let ghost done = entries.take(i as int);
        let ghost next = entries.take(i + 1);
        let name = match fields_ids_map.name(fields[i].0) {
            Some(name) => name,
            None => {
                assert(!(entries[i as int].0 < names.len()));
                return Err(TransformError::InvalidRecord);
            },
        };
        proof {
            assert(next =~= done.push(entries[i as int]));
            // The name was not met before: the ids are ascending and a
            // name has one id.
            assert(!holds_name(names, done, name@)) by {
                if holds_name(names, done, name@) {
                    let k = choose|k: int|
                        0 <= k < done.len() && (#[trigger] done[k]).0 < names.len() && names[done[k].0 as int]
                            == name@;
                    assert(done[k] == entries[k]);
                    assert(entries[k].0 < entries[i as int].0);
                }
            }
            assert(holds_name(names, next, name@)) by {
                assert(next[i as int].0 < names.len() && names[next[i as int].0 as int] == name@);
            }
            assert forall|other: Seq<char>| other != name@ implies holds_name(names, next, other)
                == holds_name(names, done, other) by {
                if holds_name(names, next, other) {
                    let k = choose|k: int|
                        0 <= k < next.len() && (#[trigger] next[k]).0 < names.len() && names[next[k].0 as int]
                            == other;
                    assert(k < i);
                    assert(done[k] == next[k]);
                }
                if holds_name(names, done, other) {
                    let k = choose|k: int|
                        0 <= k < done.len() && (#[trigger] done[k]).0 < names.len() && names[done[k].0 as int]
                            == other;
                    assert(next[k] == done[k]);
                }
            }
            assert(all_named(names, next)) by {
                assert forall|k: int| 0 <= k < next.len() implies (#[trigger] next[k]).0 < names.len() by {
                    if k < i {
                        assert(done[k] == next[k]);
                    }
                }
            }
        }
        proof {
            assert(names[fields@[i as int].0 as int] == name@);
            assert(before.count(name@) == count_without(
                old(field_distribution).count(name@),
                holds_name(names, done, name@),
            ));
            assert(next.drop_last() =~= done);
            assert(next.last() == entries[i as int]);
            assert(old(field_distribution).counts()[name@] == old(field_distribution).count(name@));
        }
        field_distribution.decrement(name);
        proof {
            assert forall|other: Seq<char>| #[trigger]
                field_distribution.count(other) == count_without(
                    old(field_distribution).count(other),
                    holds_name(names, next, other),
                ) by {
                if other != name@ {
                    assert(field_distribution.count(other) == before.count(other));
                }
            }
        }
        i += 1;
    }
    proof {
        assert(entries.take(i as int) =~= entries);
    }
    Ok(())
}

/// Counts one document more for each of its fields.
pub fn count_fields(
    field_distribution: &mut FieldDistribution,
    fields_ids_map: &FieldsIdsMap,
    fields: &Vec<(FieldId, Vec<u8>)>,
) -> (done: Result<(), TransformError>)
    requires
        old(field_distribution).wf(),
        fields_ids_map.wf(),
        is_ascending(fields.deep_view()),
    ensures
        final(field_distribution).wf(),
        done is Ok <==> all_named(fields_ids_map@, fields.deep_view()),
        done matches Err(e) ==> e == TransformError::InvalidRecord,
        done is Ok ==> forall|name: Seq<char>|
            #[trigger] final(field_distribution).count(name) == count_with(
                old(field_distribution).count(name),
                holds_name(fields_ids_map@, fields.deep_view(), name),
            ),
        done is Ok ==> final(field_distribution).total() == old(field_distribution).total() + counted(
            fields_ids_map@,
            old(field_distribution).counts(),
            fields.deep_view(),
        ),
{
    let ghost names = fields_ids_map@;
    let ghost entries = fields.deep_view();
    proof {
        lemma_fields_view(*fields);
    }
    let mut i: usize = 0;
    while i < fields.len()
        invariant
            field_distribution.wf(),
            fields_ids_map.wf(),
            names == fields_ids_map@,
            entries == fields.deep_view(),
            entries.len() == fields@.len(),
            forall|k: int| 0 <= k < fields@.len() ==> #[trigger] entries[k] == (fields@[k].0, fields@[k].1@),
            is_ascending(entries),
            i <= fields@.len(),
            all_named(names, entries.take(i as int)),
            forall|name: Seq<char>|
                #[trigger] field_distribution.count(name) == count_with(
                    old(field_distribution).count(name),
                    holds_name(names, entries.take(i as int), name),
                ),
            field_distribution.total() == old(field_distribution).total() + counted(
                names,
                old(field_distribution).counts(),
                entries.take(i as int),
            ),
        decreases fields.len() - i,
    {
        let ghost before = *field_distribution;
        let ghost done = entries.take(i as int);
        let ghost next = entries.take(i + 1);
        let name = match fields_ids_map.name(fields[i].0) {
            Some(name) => name,
            None => {
                assert(!(entries[i as int].0 < names.len()));
                return Err(TransformError::InvalidRecord);
            },
        };
        proof {
            assert(next =~= done.push(entries[i as int]));
            assert(!holds_name(names, done, name@)) by {
                if holds_name(names, done, name@) {
                    let k = choose|k: int|
                        0 <= k < done.len() && (#[trigger] done[k]).0 < names.len() && names[done[k].0 as int]
                            == name@;
                    assert(done[k] == entries[k]);
                    assert(entries[k].0 < entries[i as int].0);
                }
            }
            assert(holds_name(names, next, name@)) by {
                assert(next[i as int].0 < names.len() && names[next[i as int].0 as int] == name@);
            }
            assert forall|other: Seq<char>| other != name@ implies holds_name(names, next, other)
                == holds_name(names, done, other) by {
                if holds_name(names, next, other) {
                    let k = choose|k: int|
                        0 <= k < next.len() && (#[trigger] next[k]).0 < names.len() && names[next[k].0 as int]
                            == other;
                    assert(k < i);
                    assert(done[k] == next[k]);
                }
                if holds_name(names, done, other) {
                    let k = choose|k: int|
                        0 <= k < done.len() && (#[trigger] done[k]).0 < names.len() && names[done[k].0 as int]
                            == other;
                    assert(next[k] == done[k]);
                }
            }
            assert(all_named(names, next)) by {
                assert forall|k: int| 0 <= k < next.len() implies (#[trigger] next[k]).0 < names.len() by {
                    if k < i {
                        assert(done[k] == next[k]);
                    }
                }
            }
        }
        proof {
            assert(names[fields@[i as int].0 as int] == name@);
            assert(before.count(name@) == count_with(
                old(field_distribution).count(name@),
                holds_name(names, done, name@),
            ));
            assert(next.drop_last() =~= done);
            assert(next.last() == entries[i as int]);
            assert(old(field_distribution).counts()[name@] == old(field_distribution).count(name@));
        }
        field_distribution.increment(name);
        proof {
            assert forall|other: Seq<char>| #[trigger]
                field_distribution.count(other) == count_with(
                    old(field_distribution).count(other),
                    holds_name(names, next, other),
                ) by {
                if other != name@ {
                    assert(field_distribution.count(other) == before.count(other));
                }
            }
        }
        i += 1;
    }
    proof {
        assert(entries.take(i as int) =~= entries);
    }
    Ok(())
}

/// The fields `entries` by the names that the registry `names` has for
/// their ids.
pub open spec fn named_entries(names: Seq<Seq<char>>, entries: Seq<Entry>) -> Seq<NamedField> {
    Seq::new(entries.len(), |i: int| (names[entries[i].0 as int], entries[i].1))
}

/// The names of the fields `fields`.
pub open spec fn field_names(fields: Seq<NamedField>) -> Seq<Seq<char>> {
    Seq::new(fields.len(), |i: int| fields[i].0)
}

/// The fields `fields` under the ids that the registry `names` has for
/// their names.
pub open spec fn identified(names: Seq<Seq<char>>, fields: Seq<NamedField>) -> Seq<Entry> {
    Seq::new(fields.len(), |i: int| (position(names, fields[i].0), fields[i].1))
}

/// Whether `flat` is the flattened form of a record with the fields
/// `entries`, made when the registry held `before`, after which the
/// registry holds `after`: the fields go by their names, the object they
/// make is flattened, the names that result are registered in the order
/// in which they result, and `flat` is the record of the fields that
/// result, under the ids of their names.
pub open spec fn is_flattened_record(
    before: Seq<Seq<char>>,
    after: Seq<Seq<char>>,
    entries: Seq<Entry>,
    flat: Seq<u8>,
) -> bool {
    let fields = flattened(named_entries(before, entries));
    &&& after == with_names(before, field_names(fields))
    &&& forall|i: int| 0 <= i < fields.len() ==> has_name(after, (#[trigger] fields[i]).0)
    &&& is_record_of(flat, identified(after, fields))
}

/// Whether the registry that holds `names` has no id left for one of the
/// names `added`, offered in their order.
pub open spec fn has_no_room(names: Seq<Seq<char>>, added: Seq<Seq<char>>) -> bool {
    exists|i: int| 0 <= i < added.len() && !has_name(with_names(names, added), #[trigger] added[i])
}

/// Whether one of the values of `entries` is not valid JSON.
pub open spec fn holds_malformed_value(entries: Seq<Entry>) -> bool {
    exists|i: int| 0 <= i < entries.len() && parsed_json((#[trigger] entries[i]).1) is None
}

/// Whether a record with the fields `entries` can be flattened when the
/// registry holds `names`: its values are all valid JSON, the registry
/// has an id for every name that results, and the values that result fit
/// into a record.
pub open spec fn can_flatten(names: Seq<Seq<char>>, entries: Seq<Entry>) -> bool {
    let fields = flattened(named_entries(names, entries));
    &&& !holds_malformed_value(entries)
    &&& !has_no_room(names, field_names(fields))
    &&& crate::record::values_fit(identified(with_names(names, field_names(fields)), fields))
}

/// Flattens the record `record`, whose fields the registry names, and
/// registers the names of the fields that result. A value that is not
/// valid JSON is reported first, then a name for which no id is left,
/// then a value that is too long for a record.
pub fn flatten_record(fields_ids_map: &mut FieldsIdsMap, record: &[u8]) -> (flat: Result<
    Vec<u8>,
    TransformError,
>)
    requires
        old(fields_ids_map).wf(),
        all_named(old(fields_ids_map)@, record_entries(record@)),
    ensures
        final(fields_ids_map).wf(),
        old(fields_ids_map)@.len() <= final(fields_ids_map)@.len(),
        forall|i: int|
            0 <= i < old(fields_ids_map)@.len() ==> final(fields_ids_map)@[i] == old(fields_ids_map)@[i],
        flat matches Ok(bytes) ==> is_flattened_record(
            old(fields_ids_map)@,
            final(fields_ids_map)@,
            record_entries(record@),
            bytes@,
        ),
        flat is Ok <==> can_flatten(old(fields_ids_map)@, record_entries(record@)),
        flat matches Err(e) ==> e == (if holds_malformed_value(record_entries(record@)) {
            TransformError::SerdeJson
        } else if has_no_room(
            old(fields_ids_map)@,
            field_names(flattened(named_entries(old(fields_ids_map)@, record_entries(record@)))),
        ) {
            TransformError::AttributeLimitReached
        } else {
            TransformError::InvalidRecord
        }),
{
    let ghost before = fields_ids_map@;
    let ghost entries = record_entries(record@);
    let fields = decode_record(record);
    proof {
        lemma_fields_view(fields);
    }
    // The fields go by their names.
    let mut named: Vec<(String, Vec<u8>)> = Vec::new();
    let mut i: usize = 0;
    while i < fields.len()
        invariant
            fields_ids_map.wf(),
            fields_ids_map@ == before,
            entries == fields.deep_view(),
            entries.len() == fields@.len(),
            forall|k: int| 0 <= k < fields@.len() ==> #[trigger] entries[k] == (fields@[k].0, fields@[k].1@),
            all_named(before, entries),
            i <= fields@.len(),
            named@.len() == i,
            forall|k: int|
                0 <= k < i ==> (#[trigger] named@[k]).0@ == before[entries[k].0 as int] && named@[k].1@
                    == entries[k].1,
        decreases fields.len() - i,
    {
        assert(entries[i as int].0 < before.len());
        match fields_ids_map.name(fields[i].0) {
            Some(name) => {
                named.push((name.to_owned(), fields[i].1.clone()));
            },
            None => {
                assert(false);
            },
        }
        i += 1;
    }
    proof {
        assert(named.deep_view() =~= named_entries(before, entries)) by {
            assert forall|k: int| 0 <= k < named@.len() implies named.deep_view()[k] == named_entries(
                before,
                entries,
            )[k] by {
                assert(named@[k].1.deep_view() =~= named@[k].1@);
            }
        }
    }
    let flat = match flatten_fields(&named) {
        Ok(flat) => flat,
        Err(_) => {
            proof {
                let k = choose|k: int| 0 <= k < named@.len() && parsed_json((#[trigger] named@[k]).1@) is None;
                assert(parsed_json(entries[k].1) is None);
            }
            return Err(TransformError::SerdeJson);
        },
    };
    let ghost result = flat.deep_view();
    proof {
        assert forall|k: int| 0 <= k < flat@.len() implies #[trigger] result[k] == (flat@[k].0@, flat@[k].1@) by {
            assert(flat@[k].1.deep_view() =~= flat@[k].1@);
        }
        assert(!holds_malformed_value(entries)) by {
            if holds_malformed_value(entries) {
                let k = choose|k: int| 0 <= k < entries.len() && parsed_json((#[trigger] entries[k]).1) is None;
                assert(parsed_json(named@[k].1@) is None);
            }
        }
    }
    // The fields that result go by the ids of their names, which are
    // registered where they are new.
    let mut buffer: Vec<(FieldId, Vec<u8>)> = Vec::new();
    let mut j: usize = 0;
    while j < flat.len()
        invariant
            fields_ids_map.wf(),
            result == flat.deep_view(),
            result.len() == flat@.len(),
            forall|k: int| 0 <= k < flat@.len() ==> #[trigger] result[k] == (flat@[k].0@, flat@[k].1@),
            j <= flat@.len(),
            before == old(fields_ids_map)@,
            result == flattened(named_entries(before, entries)),
            entries == record_entries(record@),
            !holds_malformed_value(entries),
            forall|a: int, b: int| 0 <= a < b < flat@.len() ==> flat@[a].0@ != flat@[b].0@,
            fields_ids_map@ == with_names(before, field_names(result).take(j as int)),
            before.len() <= fields_ids_map@.len(),
            forall|k: int| 0 <= k < before.len() ==> fields_ids_map@[k] == before[k],
            buffer@.len() == j,
            forall|k: int|
                0 <= k < j ==> (#[trigger] buffer@[k]).0 < fields_ids_map@.len() && fields_ids_map@[buffer@[k].0 as int]
                    == result[k].0 && buffer@[k].1@ == result[k].1,
        decreases flat.len() - j,
    {
        let ghost current = fields_ids_map@;
        let ghost names = field_names(result);
        let id = match fields_ids_map.insert(flat[j].0.as_str()) {
            Some(id) => id,
            None => {
                proof {
                    lemma_with_name_extends(current, result[j as int].0);
                    let rest = names.skip(j as int);
                    assert(names =~= names.take(j as int) + rest);
                    crate::fields_mapping::lemma_with_names_split(before, names.take(j as int), rest);
                    crate::fields_mapping::lemma_with_names_full(current, rest);
                    assert(names[j as int] == result[j as int].0);
                    assert(!has_name(with_names(before, names), names[j as int]));
                }
                return Err(TransformError::AttributeLimitReached);
            },
        };
        proof {
            lemma_with_name_extends(current, result[j as int].0);
            assert(names.take(j + 1).drop_last() =~= names.take(j as int));
            assert(names.take(j + 1).last() == result[j as int].0);
        }
        buffer.push((id, flat[j].1.clone()));
        j += 1;
    }
    let ghost after = fields_ids_map@;
    let ghost wanted = identified(after, result);
    proof {
        assert(field_names(result).take(j as int) =~= field_names(result));
        assert(buffer.deep_view() =~= wanted) by {
            lemma_fields_view(buffer);
            assert forall|k: int| 0 <= k < buffer@.len() implies buffer.deep_view()[k] == wanted[k] by {
                let m = buffer@[k].0;
                assert(after[m as int] == result[k].0);
                let p = choose|p: int| 0 <= p < after.len() && after[p] == result[k].0;
                if p != m as int {
                    if p < m {
                        assert(after[p] != after[m as int]);
                    } else {
                        assert(after[m as int] != after[p]);
                    }
                }
            }
        }
        assert forall|k: int| 0 <= k < result.len() implies has_name(after, (#[trigger] result[k]).0) by {
            assert(after[buffer@[k].0 as int] == result[k].0);
        }
        assert(!has_no_room(before, field_names(result))) by {
            if has_no_room(before, field_names(result)) {
                let k = choose|k: int|
                    0 <= k < field_names(result).len() && !has_name(
                        with_names(before, field_names(result)),
                        #[trigger] field_names(result)[k],
                    );
                assert(has_name(after, result[k].0));
            }
        }
        // No id comes twice, as no name does.
        assert(crate::transform::has_distinct_ids(wanted)) by {
            assert forall|a: int, b: int| 0 <= a < b < wanted.len() implies wanted[a].0 != wanted[b].0 by {
                assert(after[buffer@[a].0 as int] == result[a].0);
                assert(after[buffer@[b].0 as int] == result[b].0);
                assert(result[a].0 == flat@[a].0@ && result[b].0 == flat@[b].0@);
            }
        }
    }
    sort_fields(&mut buffer);
    proof {
        lemma_fields_view(buffer);
        crate::transform::lemma_sorted_fields(wanted, buffer.deep_view());
    }
    match encode_record(&buffer) {
        Ok(bytes) => Ok(bytes),
        Err(e) => Err(e),
    }
}

/// The stored record that a document with the id `docid` is merged with:
/// the record of the id, if the document is known already.
pub open spec fn base_record(updated: bool, documents: Map<u32, Seq<u8>>, docid: u32) -> Option<Seq<u8>> {
    if updated && documents.dom().contains(docid) {
        Some(documents[docid])
    } else {
        None
    }
}

/// The fields of the stored record that a document is merged with; none
/// where the document is new.
pub open spec fn base_entries(base: Option<Seq<u8>>) -> Seq<Entry> {
    match base {
        Some(stored) => record_entries(stored),
        None => Seq::empty(),
    }
}

/// Whether a document can be stored: a document that is known has a
/// stored record, a new one has an external id that comes after those
/// given so far, and the records involved hold fields that the registry
/// names, in ascending order.
pub open spec fn can_store(
    updated: bool,
    external_id: Seq<u8>,
    docid: u32,
    document: Seq<u8>,
    documents: Map<u32, Seq<u8>>,
    method: IndexDocumentsMethod,
    names: Seq<Seq<char>>,
    given_ids: Seq<(Seq<u8>, u64)>,
) -> bool {
    let base = base_record(updated, documents, docid);
    let stored = if method == IndexDocumentsMethod::UpdateDocuments && base is Some {
        merged_record(base_entries(base), record_entries(document))
    } else {
        record_entries(document)
    };
    &&& updated ==> documents.dom().contains(docid)
    &&& !updated ==> fst_builder_accepts(given_ids, external_id)
    &&& is_ascending(base_entries(base))
    &&& all_named(names, base_entries(base))
    &&& is_ascending(record_entries(document))
    &&& all_named(names, stored)
}

impl<'a> Transform<'a> {
    /// Accounts for one document that comes in and hands back the record
    /// to store for it.
    ///
    /// A document that is known already (`updated`) is marked as
    /// replaced, the fields of its stored record are taken off the field
    /// distribution, and its record becomes what `stored_record` says. A
    /// new document is marked as new and its external id is given to the
    /// builder with its internal id. Then the fields of the record to
    /// store are counted in the field distribution.
    pub fn add_and_merge_original_document(
        updated: bool,
        external_id: &[u8],
        docid: u32,
        document: &[u8],
        documents: &Documents,
        index_documents_method: IndexDocumentsMethod,
        field_distribution: &mut FieldDistribution,
        fields_ids_map: &FieldsIdsMap,
        replaced_documents_ids: &mut roaring::RoaringBitmap,
        new_documents_ids: &mut roaring::RoaringBitmap,
        new_external_documents_ids_builder: &mut fst::MapBuilder<Vec<u8>>,
    ) -> (obkv: Result<Vec<u8>, TransformError>)
        requires
            documents.wf(),
            old(field_distribution).wf(),
            fields_ids_map.wf(),
        ensures
            final(field_distribution).wf(),
            obkv is Ok <==> can_store(
                updated,
                external_id@,
                docid,
                document@,
                documents@,
                index_documents_method,
                fields_ids_map@,
                fst_builder_entries(*old(new_external_documents_ids_builder)),
            ),
            obkv matches Err(e) ==> e == (if updated && !documents@.dom().contains(docid) {
                TransformError::DatabaseMissingEntry
            } else if !updated && !fst_builder_accepts(
                fst_builder_entries(*old(new_external_documents_ids_builder)),
                external_id@,
            ) {
                TransformError::Fst
            } else {
                TransformError::InvalidRecord
            }),
            // A known document without a stored record leaves the field
            // distribution, the new ids and the builder as they were.
            obkv matches Err(TransformError::DatabaseMissingEntry) ==> {
                &&& *final(field_distribution) == *old(field_distribution)
                &&& bitmap_ids(*final(new_documents_ids)) == bitmap_ids(*old(new_documents_ids))
                &&& fst_builder_entries(*final(new_external_documents_ids_builder)) == fst_builder_entries(
                    *old(new_external_documents_ids_builder),
                )
                &&& bitmap_ids(*final(replaced_documents_ids)) == bitmap_ids(*old(replaced_documents_ids)).insert(
                    docid,
                )
            },
            obkv matches Ok(record) ==> {
                let base = base_record(updated, documents@, docid);
                &&& record_entries(record@) == stored_entries(index_documents_method, base, document@)
                &&& record@ == stored_record(index_documents_method, base, document@)
                &&& is_ascending(record_entries(record@))
                &&& all_named(fields_ids_map@, record_entries(record@))
                &&& bitmap_ids(*final(replaced_documents_ids)) == (if updated {
                    bitmap_ids(*old(replaced_documents_ids)).insert(docid)
                } else {
                    bitmap_ids(*old(replaced_documents_ids))
                })
                &&& bitmap_ids(*final(new_documents_ids)) == (if updated {
                    bitmap_ids(*old(new_documents_ids))
                } else {
                    bitmap_ids(*old(new_documents_ids)).insert(docid)
                })
                &&& fst_builder_entries(*final(new_external_documents_ids_builder)) == (if updated {
                    fst_builder_entries(*old(new_external_documents_ids_builder))
                } else {
                    fst_builder_entries(*old(new_external_documents_ids_builder)).push(
                        (external_id@, docid as u64),
                    )
                })
                &&& forall|name: Seq<char>|
                    #[trigger] final(field_distribution).count(name) == count_with(
                        count_without(
                            old(field_distribution).count(name),
                            holds_name(fields_ids_map@, base_entries(base), name),
                        ),
                        holds_name(fields_ids_map@, record_entries(record@), name),
                    )
                &&& final(field_distribution).total() + uncounted(
                    fields_ids_map@,
                    old(field_distribution).counts(),
                    base_entries(base),
                ) == old(field_distribution).total() + counted(
                    fields_ids_map@,
                    counts_without(old(field_distribution).counts(), fields_ids_map@, base_entries(base)),
                    record_entries(record@),
                )
            },
    {
        let ghost names = fields_ids_map@;
        let ghost base = base_record(updated, documents@, docid);
        let obkv: Vec<u8> = if updated {
            // The document is known: it is one of those that are replaced.
            bitmap_insert(replaced_documents_ids, docid);
            let stored = match documents.get(docid) {
                Some(stored) => stored,
                None => {
                    return Err(TransformError::DatabaseMissingEntry);
                },
            };
            // The fields of the stored record are counted no longer.
            let base_fields = decode_record(stored.as_slice());
            if !check_ascending(&base_fields) {
                return Err(TransformError::InvalidRecord);
            }
            match uncount_fields(field_distribution, fields_ids_map, &base_fields) {
                Ok(()) => {},
                Err(e) => {
                    return Err(e);
                },
            }
            // The way of indexing says whether the stored record is laid
            // under the one that comes in.
            match index_documents_method {
                IndexDocumentsMethod::ReplaceDocuments => slice_to_vec(document),
                IndexDocumentsMethod::UpdateDocuments => {
                    let mut buffer: Vec<u8> = Vec::new();
                    match merge_two_obkvs(stored.as_slice(), document, &mut buffer) {
                        Ok(()) => {},
                        Err(e) => {
                            return Err(e);
                        },
                    }
                    buffer
                },
            }
        } else {
            match fst_builder_insert(new_external_documents_ids_builder, external_id, docid as u64) {
                Ok(()) => {},
                Err(_) => {
                    return Err(TransformError::Fst);
                },
            }
            bitmap_insert(new_documents_ids, docid);
            slice_to_vec(document)
        };
        proof {
            assert forall|name: Seq<char>| #[trigger]
                field_distribution.count(name) == count_without(
                    old(field_distribution).count(name),
                    holds_name(names, base_entries(base), name),
                ) by {
                if !updated {
                    assert(!holds_name(names, base_entries(base), name));
                }
            }
        }
        let ghost between = *field_distribution;
        proof {
            assert(between.counts() =~= counts_without(
                old(field_distribution).counts(),
                names,
                base_entries(base),
            ));
            if !updated {
                assert(uncounted(names, old(field_distribution).counts(), base_entries(base)) == 0);
            }
        }
        let fields = decode_record(obkv.as_slice());
        if !check_ascending(&fields) {
            return Err(TransformError::InvalidRecord);
        }
        match count_fields(field_distribution, fields_ids_map, &fields) {
            Ok(()) => {},
            Err(e) => {
                return Err(e);
            },
        }
        proof {
            assert forall|name: Seq<char>| #[trigger]
                field_distribution.count(name) == count_with(
                    count_without(
                        old(field_distribution).count(name),
                        holds_name(names, base_entries(base), name),
                    ),
                    holds_name(names, record_entries(obkv@), name),
                ) by {
                assert(between.count(name) == count_without(
                    old(field_distribution).count(name),
                    holds_name(names, base_entries(base), name),
                ));
            }
        }
        Ok(obkv)
    }
}

/// What happens to one external id when a transformation is finalized.
pub struct Step {
    /// The external id.
    pub external_id: Seq<u8>,
    /// The record that the documents read under this id were merged to.
    pub incoming: Seq<u8>,
    /// The internal id of the document.
    pub docid: u32,
    /// Whether the external id was known already.
    pub updated: bool,
    /// The registry before the record was flattened.
    pub names: Seq<Seq<char>>,
    /// The registry after it.
    pub names_after: Seq<Seq<char>>,
    /// The record to store.
    pub record: Seq<u8>,
    /// The flattened form of the record to store.
    pub flattened: Seq<u8>,
}

/// What a transformation starts from when it is finalized.
pub struct FinalInput {
    /// The policy by which the documents read under one id were merged.
    pub policy: MergePolicy,
    /// The pairs made of the documents that were read.
    pub pairs: Seq<Pair>,
    pub method: IndexDocumentsMethod,
    /// The stored records.
    pub documents: Map<u32, Seq<u8>>,
    /// The registry.
    pub names: Seq<Seq<char>>,
    /// The number of documents that hold each field.
    pub counts: Map<Seq<char>, u64>,
    /// The sum of these numbers.
    pub total: nat,
    /// The internal id of each known external id.
    pub ids: Map<Seq<u8>, u64>,
    /// The internal ids in use.
    pub used: Set<u32>,
    /// The internal ids that are marked as new already.
    pub marked: Set<u32>,
    /// The compression of the streams.
    pub setup: (ChunkCompressionType, u32),
}

/// What comes out when a transformation is finalized.
pub struct FinalOutput {
    pub count: usize,
    pub names: Seq<Seq<char>>,
    pub counts: Map<Seq<char>, u64>,
    pub total: nat,
    pub ids: Map<Seq<u8>, u64>,
    pub new_ids: Set<u32>,
    pub replaced_ids: Set<u32>,
    pub original: Seq<u8>,
    pub flattened: Seq<u8>,
}

/// Whether one of the first `upto` steps gave the internal id `id` to a
/// new document.
pub open spec fn given_before(steps: Seq<Step>, upto: int, id: u32) -> bool {
    exists|j: int| 0 <= j < upto && j < steps.len() && !(#[trigger] steps[j]).updated && steps[j].docid == id
}

/// Whether one of the steps replaces the document with the internal id
/// `id`.
pub open spec fn replaced_by(steps: Seq<Step>, id: u32) -> bool {
    exists|j: int| 0 <= j < steps.len() && (#[trigger] steps[j]).updated && steps[j].docid == id
}

/// Whether step `i` took the lowest internal id that was free: one that
/// is not in use and was not given by an earlier step, all lower ids
/// being in use or given.
pub open spec fn is_lowest_free(used: Set<u32>, steps: Seq<Step>, i: int) -> bool {
    let id = steps[i].docid;
    &&& !used.contains(id)
    &&& !given_before(steps, i, id)
    &&& forall|lower: u32| lower < id ==> used.contains(lower) || #[trigger] given_before(steps, i, lower)
}

/// Whether `step` is what happens to the external id of `group`.
///
/// The records read under the id are merged by the policy. The document
/// is known if the external ids map knows the id, and then keeps its
/// internal id. The record to store is what `stored_record` says; the
/// registry names its fields, which are in ascending order, and the
/// flattened form is made of it.
pub open spec fn is_step(input: FinalInput, group: Group, step: Step) -> bool {
    &&& step.external_id == group.0
    &&& crate::runs::is_merged(input.policy, group.1, step.incoming)
    &&& step.updated == input.ids.dom().contains(group.0)
    &&& step.updated ==> step.docid == input.ids[group.0] && input.documents.dom().contains(step.docid)
    &&& step.record == stored_record(
        input.method,
        base_record(step.updated, input.documents, step.docid),
        step.incoming,
    )
    &&& record_entries(step.record) == stored_entries(
        input.method,
        base_record(step.updated, input.documents, step.docid),
        step.incoming,
    )
    &&& is_ascending(record_entries(step.incoming))
    &&& is_ascending(record_entries(step.record))
    &&& all_named(step.names, record_entries(step.record))
    &&& is_ascending(
        base_entries(base_record(step.updated, input.documents, step.docid)),
    )
    &&& all_named(step.names, base_entries(base_record(step.updated, input.documents, step.docid)))
    &&& is_flattened_record(step.names, step.names_after, record_entries(step.record), step.flattened)
}

/// The registry after `steps`, which started from `names`.
pub open spec fn names_after(names: Seq<Seq<char>>, steps: Seq<Step>) -> Seq<Seq<char>> {
    if steps.len() == 0 {
        names
    } else {
        steps.last().names_after
    }
}

/// Whether `steps` are what happens, one after the other, to the external
/// ids of `groups`: each step goes on from the registry that the step
/// before it left, and each new document takes the lowest free id.
pub open spec fn is_trace(input: FinalInput, groups: Seq<Group>, steps: Seq<Step>) -> bool {
    &&& steps.len() == groups.len()
    &&& forall|i: int| 0 <= i < steps.len() ==> is_step(input, groups[i], #[trigger] steps[i])
    &&& forall|i: int|
        0 <= i < steps.len() ==> (#[trigger] steps[i]).names == names_after(input.names, steps.take(i))
    &&& forall|i: int|
        0 <= i < steps.len() && !(#[trigger] steps[i]).updated ==> is_lowest_free(input.used, steps, i)
}

/// The external ids that `steps` gave an internal id to, each with its
/// internal id, in the order of the steps.
pub open spec fn given_entries(steps: Seq<Step>) -> Seq<(Seq<u8>, u64)>
    decreases steps.len(),
{
    if steps.len() == 0 {
        Seq::empty()
    } else if steps.last().updated {
        given_entries(steps.drop_last())
    } else {
        given_entries(steps.drop_last()).push((steps.last().external_id, steps.last().docid as u64))
    }
}

/// The records to store, each under the bytes of its internal id.
pub open spec fn original_pairs(steps: Seq<Step>) -> Seq<Pair> {
    Seq::new(steps.len(), |i: int| (be_bytes(steps[i].docid), steps[i].record))
}

/// The flattened records, each under the bytes of its internal id.
pub open spec fn flattened_pairs(steps: Seq<Step>) -> Seq<Pair> {
    Seq::new(steps.len(), |i: int| (be_bytes(steps[i].docid), steps[i].flattened))
}

/// The count of the field `name` after `steps`: each step takes the
/// stored record of a known document off the count and adds the record
/// to store.
pub open spec fn count_after(count: u64, documents: Map<u32, Seq<u8>>, steps: Seq<Step>, name: Seq<char>) -> u64
    decreases steps.len(),
{
    if steps.len() == 0 {
        count
    } else {
        let step = steps.last();
        count_with(
            count_without(
                count_after(count, documents, steps.drop_last(), name),
                holds_name(
                    step.names,
                    base_entries(base_record(step.updated, documents, step.docid)),
                    name,
                ),
            ),
            holds_name(step.names, record_entries(step.record), name),
        )
    }
}

/// The count of every field after `steps`.
pub open spec fn counts_after(counts: Map<Seq<char>, u64>, documents: Map<u32, Seq<u8>>, steps: Seq<Step>) -> Map<
    Seq<char>,
    u64,
> {
    Map::total(|name: Seq<char>| count_after(counts[name], documents, steps, name))
}

/// The sum of the counts after `steps`: each step takes from it one for
/// each field of the stored record whose count goes down, and adds one
/// for each field of the record to store whose count goes up.
pub open spec fn total_after(
    total: int,
    counts: Map<Seq<char>, u64>,
    documents: Map<u32, Seq<u8>>,
    steps: Seq<Step>,
) -> int
    decreases steps.len(),
{
    if steps.len() == 0 {
        total
    } else {
        let step = steps.last();
        let before = counts_after(counts, documents, steps.drop_last());
        let base = base_entries(base_record(step.updated, documents, step.docid));
        total_after(total, counts, documents, steps.drop_last()) - uncounted(step.names, before, base)
            + counted(step.names, counts_without(before, step.names, base), record_entries(step.record))
    }
}

/// Whether `bytes` is the stream of `pairs`: the pairs in ascending order
/// of their keys, no key coming twice, written with the compression
/// `setup`.
pub open spec fn is_stream_of(setup: (ChunkCompressionType, u32), pairs: Seq<Pair>, bytes: Seq<u8>) -> bool {
    exists|groups: Seq<Group>, written: Seq<Pair>|
        #[trigger] is_grouping(pairs, groups) && #[trigger] is_merging(
            MergePolicy::ForbidDuplicates,
            groups,
            written,
        ) && Some(bytes) == written_stream(setup, written)
}

/// Whether `output` is what `steps` lead to.
pub open spec fn is_outcome(input: FinalInput, steps: Seq<Step>, output: FinalOutput) -> bool {
    &&& output.count == steps.len()
    &&& output.names == names_after(input.names, steps)
    &&& forall|name: Seq<char>|
        #[trigger] output.counts[name] == count_after(input.counts[name], input.documents, steps, name)
    &&& output.total == total_after(input.total as int, input.counts, input.documents, steps)
    &&& exists|given: Map<Seq<u8>, u64>|
        #[trigger] is_listing(given_entries(steps), given) && output.ids == input.ids.union_prefer_right(
            given,
        )
    &&& forall|id: u32|
        #[trigger] output.new_ids.contains(id) <==> input.marked.contains(id) || given_before(
            steps,
            steps.len() as int,
            id,
        )
    &&& forall|id: u32| #[trigger] output.replaced_ids.contains(id) <==> replaced_by(steps, id)
    &&& is_stream_of(input.setup, original_pairs(steps), output.original)
    &&& is_stream_of(input.setup, flattened_pairs(steps), output.flattened)
}

/// Whether `output` is what finalizing leads to from `input`: the pairs
/// are gathered by external id, in ascending order, and to each id
/// happens what `is_step` says.
pub open spec fn is_finalized(input: FinalInput, output: FinalOutput) -> bool {
    exists|groups: Seq<Group>, steps: Seq<Step>|
        #[trigger] is_grouping(input.pairs, groups) && #[trigger] is_trace(input, groups, steps)
            && is_outcome(input, steps, output)
}

/// Whether `record` is the record to store for the external id of
/// `group`.
pub open spec fn is_stored_for(input: FinalInput, group: Group, record: Seq<u8>) -> bool {
    exists|incoming: Seq<u8>|
        #[trigger] crate::runs::is_merged(input.policy, group.1, incoming) && record == stored_record(
            input.method,
            base_record(input.ids.dom().contains(group.0), input.documents, input.ids[group.0] as u32),
            incoming,
        )
}

/// Whether the step for the external id of `group`, after `steps`, fails
/// with `error`: no internal id is left for a new document, or the
/// documents are too many to be counted; a value of the record to store
/// is not valid JSON; or the registry has no id left for a field of the
/// flattened record.
pub open spec fn fails_with(input: FinalInput, group: Group, steps: Seq<Step>, error: TransformError) -> bool {
    match error {
        TransformError::DocumentLimitReached => steps.len() == usize::MAX || (!input.ids.dom().contains(
            group.0,
        ) && forall|id: u32| input.used.contains(id) || #[trigger] given_before(steps, steps.len() as int, id)),
        TransformError::SerdeJson => exists|record: Seq<u8>|
            #[trigger] is_stored_for(input, group, record) && holds_malformed_value(record_entries(record)),
        TransformError::AttributeLimitReached => exists|record: Seq<u8>|
            #[trigger] is_stored_for(input, group, record) && has_no_room(
                names_after(input.names, steps),
                field_names(
                    flattened(named_entries(names_after(input.names, steps), record_entries(record))),
                ),
            ),
        _ => false,
    }
}

/// Whether finalizing fails with `error` at one of the external ids,
/// the steps for the ids before it being taken.
pub open spec fn fails_at_a_step(input: FinalInput, error: TransformError) -> bool {
    exists|groups: Seq<Group>, steps: Seq<Step>|
        #[trigger] is_grouping(input.pairs, groups) && steps.len() < groups.len() && #[trigger] is_trace(
            input,
            groups.take(steps.len() as int),
            steps,
        ) && fails_with(input, groups[steps.len() as int], steps, error)
}

/// The compression and the level with which the streams are written.
pub open spec fn stream_setup(settings: IndexerConfig) -> (ChunkCompressionType, u32) {
    (
        settings.chunk_compression_type,
        match settings.chunk_compression_level {
            Some(level) => level,
            None => 0u32,
        },
    )
}

/// A writer of a stream into memory, set up as the settings say.
pub fn create_writer(
    chunk_compression_type: ChunkCompressionType,
    chunk_compression_level: Option<u32>,
) -> (writer: grenad::Writer<Vec<u8>>)
    ensures
        writer_pairs(writer) == Seq::<Pair>::empty(),
        writer_setup(writer) == (
            chunk_compression_type,
            match chunk_compression_level {
                Some(level) => level,
                None => 0u32,
            },
        ),
{
    let mut builder = writer_builder_new();
    writer_builder_compression_type(&mut builder, grenad_compression(chunk_compression_type));
    if let Some(level) = chunk_compression_level {
        writer_builder_compression_level(&mut builder, level);
    }
    writer_builder_memory(&builder)
}

/// Writes what a sorter that admits each key once holds into a stream.
pub fn write_stream(
    sorter: Sorter,
    chunk_compression_type: ChunkCompressionType,
    chunk_compression_level: Option<u32>,
) -> (stream: Result<Vec<u8>, TransformError>)
    requires
        sorter_policy(sorter) == MergePolicy::ForbidDuplicates,
    ensures
        stream matches Ok(bytes) ==> is_stream_of(
            (
                chunk_compression_type,
                match chunk_compression_level {
                    Some(level) => level,
                    None => 0u32,
                },
            ),
            sorter_entries(sorter),
            bytes@,
        ),
        stream matches Err(e) ==> e.is_sorter_error(),
{
    let mut writer = create_writer(chunk_compression_type, chunk_compression_level);
    match write_merged(sorter, &mut writer) {
        Ok(()) => {},
        Err(e) => {
            return Err(sorter_error(e));
        },
    }
    let ghost written = writer_pairs(writer);
    match writer_into_inner(writer) {
        Ok(bytes) => {
            proof {
                let groups = choose|groups: Seq<Group>|
                    is_grouping(sorter_entries(sorter), groups) && is_merging(
                        MergePolicy::ForbidDuplicates,
                        groups,
                        written,
                    );
                assert(is_grouping(sorter_entries(sorter), groups) && is_merging(
                    MergePolicy::ForbidDuplicates,
                    groups,
                    written,
                ));
            }
            Ok(bytes)
        },
        Err(_) => Err(TransformError::Io),
    }
}

/// The steps before a step are the same once a step is added.
proof fn lemma_push_step(input: FinalInput, groups: Seq<Group>, steps: Seq<Step>, step: Step)
    requires
        steps.len() < groups.len(),
        is_trace(input, groups.take(steps.len() as int), steps),
        is_step(input, groups[steps.len() as int], step),
        step.names == names_after(input.names, steps),
        !step.updated ==> {
            &&& !input.used.contains(step.docid)
            &&& !given_before(steps, steps.len() as int, step.docid)
            &&& forall|lower: u32|
                lower < step.docid ==> input.used.contains(lower) || #[trigger] given_before(
                    steps,
                    steps.len() as int,
                    lower,
                )
        },
    ensures
        is_trace(input, groups.take(steps.len() as int + 1), steps.push(step)),
        forall|id: u32|
            #[trigger] given_before(steps.push(step), steps.len() as int + 1, id) <==> given_before(
                steps,
                steps.len() as int,
                id,
            ) || (!step.updated && step.docid == id),
        forall|id: u32|
            #[trigger] replaced_by(steps.push(step), id) <==> replaced_by(steps, id) || (step.updated
                && step.docid == id),
        original_pairs(steps.push(step)) == original_pairs(steps).push((be_bytes(step.docid), step.record)),
        flattened_pairs(steps.push(step)) == flattened_pairs(steps).push(
            (be_bytes(step.docid), step.flattened),
        ),
        given_entries(steps.push(step)) == (if step.updated {
            given_entries(steps)
        } else {
            given_entries(steps).push((step.external_id, step.docid as u64))
        }),
{
    let k = steps.len() as int;
    let next = steps.push(step);
    let heads = groups.take(k + 1);
    assert(next.drop_last() =~= steps);
    assert(next.last() == step);
    assert forall|i: int, id: u32| 0 <= i <= k implies (#[trigger] given_before(next, i, id)
        <==> given_before(steps, i, id)) by {
        if given_before(next, i, id) {
            let j = choose|j: int|
                0 <= j < i && j < next.len() && !(#[trigger] next[j]).updated && next[j].docid == id;
            assert(steps[j] == next[j]);
        }
        if given_before(steps, i, id) {
            let j = choose|j: int|
                0 <= j < i && j < steps.len() && !(#[trigger] steps[j]).updated && steps[j].docid == id;
            assert(next[j] == steps[j]);
        }
    }
    assert forall|id: u32| #[trigger]
        given_before(next, k + 1, id) <==> given_before(steps, k, id) || (!step.updated && step.docid
            == id) by {
        if given_before(next, k + 1, id) {
            let j = choose|j: int|
                0 <= j < k + 1 && j < next.len() && !(#[trigger] next[j]).updated && next[j].docid == id;
            if j < k {
                assert(steps[j] == next[j]);
            }
        }
        if given_before(steps, k, id) {
            let j = choose|j: int|
                0 <= j < k && j < steps.len() && !(#[trigger] steps[j]).updated && steps[j].docid == id;
            assert(next[j] == steps[j]);
        }
        if !step.updated && step.docid == id {
            assert(!next[k].updated && next[k].docid == id);
        }
    }
    assert forall|id: u32| #[trigger]
        replaced_by(next, id) <==> replaced_by(steps, id) || (step.updated && step.docid == id) by {
        if replaced_by(next, id) {
            let j = choose|j: int| 0 <= j < next.len() && (#[trigger] next[j]).updated && next[j].docid == id;
            if j < k {
                assert(steps[j] == next[j]);
            }
        }
        if replaced_by(steps, id) {
            let j = choose|j: int|
                0 <= j < steps.len() && (#[trigger] steps[j]).updated && steps[j].docid == id;
            assert(next[j] == steps[j]);
        }
        if step.updated && step.docid == id {
            assert(next[k].updated && next[k].docid == id);
        }
    }
    assert(original_pairs(next) =~= original_pairs(steps).push((be_bytes(step.docid), step.record)));
    assert(flattened_pairs(next) =~= flattened_pairs(steps).push((be_bytes(step.docid), step.flattened)));
    assert(is_trace(input, heads, next)) by {
        assert forall|i: int| 0 <= i < next.len() implies is_step(input, heads[i], #[trigger] next[i]) by {
            if i < k {
                assert(next[i] == steps[i]);
                assert(heads[i] == groups.take(k)[i]);
            }
        }
        assert forall|i: int| 0 <= i < next.len() implies (#[trigger] next[i]).names == names_after(
            input.names,
            next.take(i),
        ) by {
            if i < k {
                assert(next[i] == steps[i]);
                assert(next.take(i) =~= steps.take(i));
            } else {
                assert(next.take(i) =~= steps);
            }
        }
        assert forall|i: int| 0 <= i < next.len() && !(#[trigger] next[i]).updated implies is_lowest_free(
            input.used,
            next,
            i,
        ) by {
            if i < k {
                assert(next[i] == steps[i]);
                assert(is_lowest_free(input.used, steps, i));
                assert forall|lower: u32| lower < next[i].docid implies input.used.contains(lower)
                    || #[trigger] given_before(next, i, lower) by {
                    assert(input.used.contains(lower) || given_before(steps, i, lower));
                }
            } else {
                assert forall|lower: u32| lower < next[i].docid implies input.used.contains(lower)
                    || #[trigger] given_before(next, i, lower) by {
                    assert(input.used.contains(lower) || given_before(steps, k, lower));
                }
            }
        }
    }
}

impl<'a> Transform<'a> {
    /// Goes through the external ids in ascending order, gives each its
    /// internal id, merges what comes in with what is stored, and writes
    /// the records to store and their flattened forms into two streams,
    /// by internal id. It returns the number of documents, the internal
    /// ids that are replaced, and the two streams.
    #[verifier::rlimit(100)]
    pub fn write_final_sorter<F: Fn(UpdateIndexingStep)>(
        original_sorter: Sorter,
        indexer_settings: &IndexerConfig,
        documents: &Documents,
        index_documents_method: IndexDocumentsMethod,
        total_documents: usize,
        field_distribution: &mut FieldDistribution,
        fields_ids_map: &mut FieldsIdsMap,
        documents_ids: &roaring::RoaringBitmap,
        external_documents_ids: &mut ExternalDocumentsIds,
        new_documents_ids: &mut roaring::RoaringBitmap,
        progress_callback: F,
    ) -> (written: Result<(usize, roaring::RoaringBitmap, Vec<u8>, Vec<u8>), TransformError>)
        requires
            documents.wf(),
            old(field_distribution).wf(),
            old(fields_ids_map).wf(),
            old(external_documents_ids).wf(),
            forall|step: UpdateIndexingStep| call_requires(progress_callback, (step,)),
        ensures
            final(field_distribution).wf(),
            final(fields_ids_map).wf(),
            final(external_documents_ids).wf(),
            written matches Err(e) ==> e.is_sorter_error() || e is DocumentLimitReached || e
                is DatabaseMissingEntry || e is SerdeJson || e is AttributeLimitReached,
            // The documents are too many, a value is not valid JSON, or
            // the registry is full: at the step for one external id.
            written matches Err(e) ==> ((e is DocumentLimitReached || e is SerdeJson || e
                is AttributeLimitReached) ==> fails_at_a_step(
                FinalInput {
                    policy: sorter_policy(original_sorter),
                    pairs: sorter_entries(original_sorter),
                    method: index_documents_method,
                    documents: documents@,
                    names: old(fields_ids_map)@,
                    counts: old(field_distribution).counts(),
                    total: old(field_distribution).total(),
                    ids: old(external_documents_ids)@,
                    used: bitmap_ids(*documents_ids),
                    marked: bitmap_ids(*old(new_documents_ids)),
                    setup: stream_setup(*indexer_settings),
                },
                e,
            )),
            // With every internal id in use, an external id that is not
            // known yet makes finalizing fail.
            (forall|id: u32| bitmap_ids(*documents_ids).contains(id)) && (exists|k: int|
                0 <= k < sorter_entries(original_sorter).len() && !old(external_documents_ids)@.dom().contains(
                    (#[trigger] sorter_entries(original_sorter)[k]).0,
                )) ==> written is Err,
            // With every internal id in use and none of the external ids
            // known, the documents are too many, unless a sorter fails.
            (forall|id: u32| bitmap_ids(*documents_ids).contains(id)) && sorter_entries(
                original_sorter,
            ).len() > 0 && (forall|k: int|
                0 <= k < sorter_entries(original_sorter).len() ==> !old(
                    external_documents_ids,
                )@.dom().contains((#[trigger] sorter_entries(original_sorter)[k]).0)) ==> (written matches Err(e)
                && (e is DocumentLimitReached || e.is_sorter_error())),
            // A stored record is missing only where the external ids map
            // names an internal id that no document is stored under.
            written matches Err(TransformError::DatabaseMissingEntry) ==> exists|key: Seq<u8>|
                #[trigger] old(external_documents_ids)@.dom().contains(key) && !documents@.dom().contains(
                    old(external_documents_ids)@[key] as u32,
                ),
            written matches Ok(out) ==> is_finalized(
                FinalInput {
                    policy: sorter_policy(original_sorter),
                    pairs: sorter_entries(original_sorter),
                    method: index_documents_method,
                    documents: documents@,
                    names: old(fields_ids_map)@,
                    counts: old(field_distribution).counts(),
                    total: old(field_distribution).total(),
                    ids: old(external_documents_ids)@,
                    used: bitmap_ids(*documents_ids),
                    marked: bitmap_ids(*old(new_documents_ids)),
                    setup: stream_setup(*indexer_settings),
                },
                FinalOutput {
                    count: out.0,
                    names: final(fields_ids_map)@,
                    counts: final(field_distribution).counts(),
                    total: final(field_distribution).total(),
                    ids: final(external_documents_ids)@,
                    new_ids: bitmap_ids(*final(new_documents_ids)),
                    replaced_ids: bitmap_ids(out.1),
                    original: out.2@,
                    flattened: out.3@,
                },
            ),
    {
        let ghost input = FinalInput {
            policy: sorter_policy(original_sorter),
            pairs: sorter_entries(original_sorter),
            method: index_documents_method,
            documents: documents@,
            names: fields_ids_map@,
            counts: field_distribution.counts(),
            total: field_distribution.total(),
            ids: external_documents_ids@,
            used: bitmap_ids(*documents_ids),
            marked: bitmap_ids(*new_documents_ids),
            setup: stream_setup(*indexer_settings),
        };
        let mut replaced_documents_ids = bitmap_new();
        let mut new_external_documents_ids_builder = fst_builder_memory();
        let mut available_documents_ids = AvailableDocumentsIds::from_documents_ids(documents_ids);

        // The documents, deduplicated, are written into a final stream, in
        // which no internal id may come twice.
        let mut original_final_sorter = create_sorter(
            MergePolicy::ForbidDuplicates,
            indexer_settings.chunk_compression_type,
            indexer_settings.chunk_compression_level,
            indexer_settings.max_nb_chunks,
            indexer_settings.max_memory,
        );
        // So are their flattened forms.
        let mut flattened_final_sorter = create_sorter(
            MergePolicy::ForbidDuplicates,
            indexer_settings.chunk_compression_type,
            indexer_settings.chunk_compression_level,
            indexer_settings.max_nb_chunks,
            indexer_settings.max_memory,
        );

        let mut iter = match sorter_into_stream_merger_iter(original_sorter) {
            Ok(iter) => iter,
            Err(e) => {
                return Err(sorter_error(e));
            },
        };
        let ghost groups = iter_groups(iter);
        let ghost mut steps: Seq<Step> = Seq::empty();
        proof {
            assert(groups.skip(0) =~= groups);
            assert(original_pairs(steps) =~= Seq::<Pair>::empty());
            assert(flattened_pairs(steps) =~= Seq::<Pair>::empty());
            assert(groups.take(0) =~= Seq::<Group>::empty());
        }

        // While the documents are written they get their internal ids.
        let mut documents_count: usize = 0;
        loop
            invariant_except_break
                iter_groups(iter) == groups.skip(steps.len() as int),
            invariant
                documents.wf(),
                field_distribution.wf(),
                fields_ids_map.wf(),
                external_documents_ids.wf(),
                available_documents_ids.wf(),
                external_documents_ids@ == input.ids,
                input.ids == old(external_documents_ids)@,
                input == (FinalInput {
                    policy: sorter_policy(original_sorter),
                    pairs: sorter_entries(original_sorter),
                    method: index_documents_method,
                    documents: documents@,
                    names: old(fields_ids_map)@,
                    counts: old(field_distribution).counts(),
                    total: old(field_distribution).total(),
                    ids: old(external_documents_ids)@,
                    used: bitmap_ids(*documents_ids),
                    marked: bitmap_ids(*old(new_documents_ids)),
                    setup: stream_setup(*indexer_settings),
                }),
                input.documents == documents@,
                input.method == index_documents_method,
                input.used == bitmap_ids(*documents_ids),
                input.marked == bitmap_ids(*old(new_documents_ids)),
                input.names == old(fields_ids_map)@,
                input.counts == old(field_distribution).counts(),
                input.total == old(field_distribution).total(),
                field_distribution.total() == total_after(
                    input.total as int,
                    input.counts,
                    input.documents,
                    steps,
                ),
                iter_policy(iter) == input.policy,
                is_grouping(input.pairs, groups),
                steps.len() <= groups.len(),
                documents_count == steps.len(),
                is_trace(input, groups.take(steps.len() as int), steps),
                fields_ids_map@ == names_after(input.names, steps),
                forall|id: u32|
                    available_documents_ids.is_available(id) <==> !input.used.contains(id)
                        && !given_before(steps, steps.len() as int, id),
                forall|id: u32| #[trigger] bitmap_ids(replaced_documents_ids).contains(id) <==> replaced_by(steps, id),
                forall|id: u32|
                    #[trigger] bitmap_ids(*new_documents_ids).contains(id) <==> input.marked.contains(id)
                        || given_before(steps, steps.len() as int, id),
                fst_builder_entries(new_external_documents_ids_builder) == given_entries(steps),
                sorter_policy(original_final_sorter) == MergePolicy::ForbidDuplicates,
                sorter_policy(flattened_final_sorter) == MergePolicy::ForbidDuplicates,
                sorter_entries(original_final_sorter) == original_pairs(steps),
                sorter_entries(flattened_final_sorter) == flattened_pairs(steps),
                forall|name: Seq<char>|
                    #[trigger] field_distribution.count(name) == count_after(
                        input.counts[name],
                        input.documents,
                        steps,
                        name,
                    ),
                forall|step: UpdateIndexingStep| call_requires(progress_callback, (step,)),
            ensures
                steps.len() == groups.len(),
            decreases groups.len() - steps.len(),
        {
            let ghost k = steps.len() as int;
            let ghost names = fields_ids_map@;
            let ghost counted = *field_distribution;
            let (external_id, update_obkv) = match next_merged(&mut iter) {
                Ok(Some(pair)) => pair,
                Ok(None) => {
                    break ;
                },
                Err(e) => {
                    return Err(sorter_error(e));
                },
            };
            proof {
                assert(groups.skip(k)[0] == groups[k]);
                assert(groups.skip(k).drop_first() =~= groups.skip(k + 1));
            }
            if let Some(every) = indexer_settings.log_every_n {
                if every != 0 && documents_count % every == 0 {
                    progress_callback(
                        UpdateIndexingStep::ComputeIdsAndMergeDocuments {
                            documents_seen: documents_count,
                            total_documents,
                        },
                    );
                }
            }
            let ghost free = available_documents_ids;
            let (docid, updated) = match external_documents_ids.get(external_id.as_slice()) {
                Some(docid) => (docid, true),
                None => match available_documents_ids.next() {
                    Some(new_docid) => {
                        proof {
                            assert(free.is_available(new_docid));
                            assert forall|lower: u32| lower < new_docid implies input.used.contains(lower)
                                || #[trigger] given_before(steps, k, lower) by {
                                assert(!free.is_available(lower));
                            }
                        }
                        (new_docid, false)
                    },
                    None => {
                        proof {
                            assert forall|id: u32|
                                input.used.contains(id) || #[trigger] given_before(steps, k, id) by {
                                assert(!free.is_available(id));
                            }
                            assert(!input.ids.dom().contains(groups[k].0));
                            assert(fails_with(input, groups[k], steps, TransformError::DocumentLimitReached));
                            assert(fails_at_a_step(input, TransformError::DocumentLimitReached));
                        }
                        return Err(TransformError::DocumentLimitReached);
                    },
                },
            };
            proof {
                // A new document takes an id that was free, and a known
                // one was read under an external id that is known.
                assert(!updated ==> !input.used.contains(docid));
                if updated {
                    crate::laws::lemma_values_for(input.pairs, groups[k].0, 0);
                    let at = choose|at: int|
                        0 <= at < input.pairs.len() && input.pairs[at] == (
                            groups[k].0,
                            crate::sorter::values_for(input.pairs, groups[k].0)[0],
                        );
                    assert(input.ids.dom().contains(input.pairs[at].0));
                }
            }
            let obkv = match Self::add_and_merge_original_document(
                updated,
                external_id.as_slice(),
                docid,
                update_obkv.as_slice(),
                documents,
                index_documents_method,
                field_distribution,
                fields_ids_map,
                &mut replaced_documents_ids,
                new_documents_ids,
                &mut new_external_documents_ids_builder,
            ) {
                Ok(obkv) => obkv,
                Err(e) => {
                    proof {
                        if e is DatabaseMissingEntry {
                            assert(input.ids.dom().contains(external_id@));
                        }
                        if given_entries(steps).len() > 0 {
                            let at = lemma_given_last(steps);
                            assert(is_step(input, groups.take(k)[at], steps[at]));
                            assert(crate::bytes::bytes_lt(groups[at].0, groups[k].0));
                        }
                    }
                    return Err(e);
                },
            };

            // The document is written under its internal id.
            let key = u32_to_be_bytes(docid);
            if obkv.len() > MAX_ENTRY_LEN {
                return Err(TransformError::InvalidRecord);
            }
            match sorter_insert(&mut original_final_sorter, key.as_slice(), obkv.as_slice()) {
                Ok(()) => {},
                Err(e) => {
                    return Err(sorter_error(e));
                },
            }
            documents_count = match documents_count.checked_add(1) {
                Some(count) => count,
                None => {
                    proof {
                        assert(fails_with(input, groups[k], steps, TransformError::DocumentLimitReached));
                        assert(fails_at_a_step(input, TransformError::DocumentLimitReached));
                    }
                    return Err(TransformError::DocumentLimitReached);
                },
            };

            // The record to store is flattened, which may bring new names
            // into the registry, and written under the same id.
            let flat = match flatten_record(fields_ids_map, obkv.as_slice()) {
                Ok(flat) => flat,
                Err(e) => {
                    proof {
                        if e is SerdeJson || e is AttributeLimitReached {
                            assert(crate::runs::is_merged(input.policy, groups[k].1, update_obkv@));
                            assert(is_stored_for(input, groups[k], obkv@));
                            assert(fails_with(input, groups[k], steps, e));
                            assert(fails_at_a_step(input, e));
                        }
                    }
                    return Err(e);
                },
            };
            if flat.len() > MAX_ENTRY_LEN {
                return Err(TransformError::InvalidRecord);
            }
            match sorter_insert(&mut flattened_final_sorter, key.as_slice(), flat.as_slice()) {
                Ok(()) => {},
                Err(e) => {
                    return Err(sorter_error(e));
                },
            }
            proof {
                let step = Step {
                    external_id: external_id@,
                    incoming: update_obkv@,
                    docid,
                    updated,
                    names,
                    names_after: fields_ids_map@,
                    record: obkv@,
                    flattened: flat@,
                };
                let base = base_record(updated, documents@, docid);
                assert(is_step(input, groups[k], step));
                lemma_push_step(input, groups, steps, step);
                let next = steps.push(step);
                assert(next.drop_last() =~= steps);
                assert forall|name: Seq<char>| #[trigger]
                    field_distribution.count(name) == count_after(
                        input.counts[name],
                        input.documents,
                        next,
                        name,
                    ) by {
                    assert(counted.count(name) == count_after(
                        input.counts[name],
                        input.documents,
                        steps,
                        name,
                    ));
                }
                assert(counted.counts() =~= counts_after(input.counts, input.documents, steps));
                assert(next.last() == step);
                steps = next;
            }
        }
        proof {
            assert(groups.take(steps.len() as int) =~= groups);
        }

        // The external ids that were given now join those known before.
        let new_external_documents_ids = fst_builder_into_map(new_external_documents_ids_builder);
        proof {
            lemma_given_are_ids(steps, fst_entries(new_external_documents_ids));
        }
        match external_documents_ids.insert_ids(&new_external_documents_ids) {
            Ok(()) => {},
            Err(e) => {
                return Err(e);
            },
        }

        // The documents are written by internal id into a stream, and
        // then their flattened forms are.
        let original_documents = match write_stream(
            original_final_sorter,
            indexer_settings.chunk_compression_type,
            indexer_settings.chunk_compression_level,
        ) {
            Ok(stream) => stream,
            Err(e) => {
                return Err(e);
            },
        };
        let flattened_documents = match write_stream(
            flattened_final_sorter,
            indexer_settings.chunk_compression_type,
            indexer_settings.chunk_compression_level,
        ) {
            Ok(stream) => stream,
            Err(e) => {
                return Err(e);
            },
        };
        proof {
            let output = FinalOutput {
                count: documents_count,
                names: fields_ids_map@,
                counts: field_distribution.counts(),
                total: field_distribution.total(),
                ids: external_documents_ids@,
                new_ids: bitmap_ids(*new_documents_ids),
                replaced_ids: bitmap_ids(replaced_documents_ids),
                original: original_documents@,
                flattened: flattened_documents@,
            };
            assert(is_listing(given_entries(steps), fst_entries(new_external_documents_ids)));
            assert(is_outcome(input, steps, output));
            assert(is_grouping(input.pairs, groups) && is_trace(input, groups, steps));
            assert(is_finalized(input, output));
            if forall|id: u32| input.used.contains(id) {
                crate::laws::law_no_id_left(input, output);
            }
        }
        Ok((documents_count, replaced_documents_ids, original_documents, flattened_documents))
    }
}

/// The external id that was given an internal id last is the external id
/// of one of the steps.
proof fn lemma_given_last(steps: Seq<Step>) -> (at: int)
    requires
        given_entries(steps).len() > 0,
    ensures
        0 <= at < steps.len(),
        given_entries(steps).last().0 == steps[at].external_id,
    decreases steps.len(),
{
    if steps.last().updated {
        let at = lemma_given_last(steps.drop_last());
        assert(steps.drop_last()[at] == steps[at]);
        at
    } else {
        steps.len() - 1
    }
}

/// The internal ids that steps give are internal ids.
proof fn lemma_given_are_ids(steps: Seq<Step>, given: Map<Seq<u8>, u64>)
    requires
        is_listing(given_entries(steps), given),
    ensures
        holds_internal_ids(given),
{
    lemma_given_entries(steps);
    let entries = given_entries(steps);
    assert forall|key: Seq<u8>| given.dom().contains(key) implies #[trigger] given[key] <= u32::MAX by {
        let i = choose|i: int| 0 <= i < entries.len() && (#[trigger] entries[i]).0 == key;
        assert(given[entries[i].0] == entries[i].1);
    }
}

/// Each of the entries that steps give holds an internal id.
proof fn lemma_given_entries(steps: Seq<Step>)
    ensures
        forall|i: int| 0 <= i < given_entries(steps).len() ==> (#[trigger] given_entries(steps)[i]).1 <= u32::MAX,
    decreases steps.len(),
{
    if steps.len() > 0 {
        lemma_given_entries(steps.drop_last());
        let before = given_entries(steps.drop_last());
        assert forall|i: int| 0 <= i < given_entries(steps).len() implies (#[trigger] given_entries(
            steps,
        )[i]).1 <= u32::MAX by {
            if i < before.len() {
                assert(given_entries(steps)[i] == before[i]);
            }
        }
    }
}

impl<'a> Transform<'a> {
    /// What finalizing this transformation starts from, with the index
    /// `index`.
    pub open spec fn final_input(&self, index: Index) -> FinalInput {
        FinalInput {
            policy: batch_policy(self.method()),
            pairs: self.pairs(),
            method: self.method(),
            documents: index.documents@,
            names: index.fields_ids_map@,
            counts: index.field_distribution.counts(),
            total: index.field_distribution.total(),
            ids: index.external_documents_ids@,
            used: bitmap_ids(index.documents_ids),
            marked: Set::empty(),
            setup: stream_setup(self.settings()),
        }
    }

    /// Finalizes the transformation: the documents that were read are
    /// gathered by external id, each gets its internal id and meets its
    /// stored version, and what is to be stored is written out, see
    /// `is_finalized`. The index is only read. Without a primary key in
    /// the index the primary key is reported missing.
    pub fn output_from_sorter<F: Fn(UpdateIndexingStep)>(self, index: &Index, progress_callback: F) -> (output: Result<
        TransformOutput,
        TransformError,
    >)
        requires
            self.wf(),
            index.wf(),
            forall|step: UpdateIndexingStep| call_requires(progress_callback, (step,)),
        ensures
            index.primary_key is None <==> output matches Err(TransformError::MissingPrimaryKey),
            // The errors that finalizing reports.
            output matches Err(e) ==> e is MissingPrimaryKey || e.is_sorter_error() || e
                is DocumentLimitReached || e is DatabaseMissingEntry || e is SerdeJson || e
                is AttributeLimitReached,
            // With every internal id in use, an external id that is not
            // known yet makes finalizing fail.
            (forall|id: u32| bitmap_ids(index.documents_ids).contains(id)) && (exists|k: int|
                0 <= k < self.pairs().len() && !index.external_documents_ids@.dom().contains(
                    (#[trigger] self.pairs()[k]).0,
                )) ==> output is Err,
            // With every internal id in use and none of the external ids
            // known, the documents are too many, unless a sorter fails.
            index.primary_key is Some && (forall|id: u32| bitmap_ids(index.documents_ids).contains(id))
                && self.pairs().len() > 0 && (forall|k: int|
                0 <= k < self.pairs().len() ==> !index.external_documents_ids@.dom().contains(
                    (#[trigger] self.pairs()[k]).0,
                )) ==> (output matches Err(e) && (e is DocumentLimitReached || e.is_sorter_error())),
            output matches Err(TransformError::DatabaseMissingEntry) ==> exists|key: Seq<u8>|
                #[trigger] index.external_documents_ids@.dom().contains(key) && !index.documents@.dom().contains(
                    index.external_documents_ids@[key] as u32,
                ),
            output matches Err(e) ==> ((e is DocumentLimitReached || e is SerdeJson || e
                is AttributeLimitReached) ==> fails_at_a_step(self.final_input(*index), e)),
            output matches Ok(out) ==> {
                &&& index.primary_key is Some
                &&& out.primary_key@ == index.primary_key->0@
                &&& out.fields_ids_map.wf()
                &&& out.field_distribution.wf()
                &&& out.external_documents_ids.wf()
                &&& is_finalized(self.final_input(*index), spec_final_output(out))
            },
    {
        let primary_key = match &index.primary_key {
            Some(key) => key.clone(),
            None => {
                return Err(TransformError::MissingPrimaryKey);
            },
        };
        let mut fields_ids_map = index.fields_ids_map.clone();
        let documents_ids = bitmap_clone(&index.documents_ids);
        let mut field_distribution = index.field_distribution.clone();
        let mut external_documents_ids = index.external_documents_ids.clone();

        let total_documents = self.documents_count;
        let mut new_documents_ids = bitmap_new();
        let ghost input = FinalInput {
            policy: sorter_policy(self.original_sorter),
            pairs: sorter_entries(self.original_sorter),
            method: self.index_documents_method,
            documents: index.documents@,
            names: fields_ids_map@,
            counts: field_distribution.counts(),
            total: field_distribution.total(),
            ids: external_documents_ids@,
            used: bitmap_ids(documents_ids),
            marked: bitmap_ids(new_documents_ids),
            setup: stream_setup(*self.indexer_settings),
        };
        proof {
            self.lemma_parts();
            assert(input.marked =~= Set::<u32>::empty());
            assert(input == self.final_input(*index));
        }

        let (documents_count, replaced_documents_ids, original_documents, flattened_documents) =
            match Self::write_final_sorter(
            self.original_sorter,
            self.indexer_settings,
            &index.documents,
            self.index_documents_method,
            total_documents,
            &mut field_distribution,
            &mut fields_ids_map,
            &documents_ids,
            &mut external_documents_ids,
            &mut new_documents_ids,
            &progress_callback,
        ) {
            Ok(written) => written,
            Err(e) => {
                return Err(e);
            },
        };

        progress_callback(
            UpdateIndexingStep::ComputeIdsAndMergeDocuments {
                documents_seen: documents_count,
                total_documents: documents_count,
            },
        );

        let output = TransformOutput {
            primary_key,
            fields_ids_map,
            field_distribution,
            external_documents_ids,
            new_documents_ids,
            replaced_documents_ids,
            documents_count,
            original_documents,
            flattened_documents,
        };
        Ok(output)
    }
}

/// What a transformation hands on, as `is_finalized` speaks of it.
pub open spec fn spec_final_output(out: TransformOutput) -> FinalOutput {
    FinalOutput {
        count: out.documents_count,
        names: out.fields_ids_map@,
        counts: out.field_distribution.counts(),
        total: out.field_distribution.total(),
        ids: out.external_documents_ids@,
        new_ids: bitmap_ids(out.new_documents_ids),
        replaced_ids: bitmap_ids(out.replaced_documents_ids),
        original: out.original_documents@,
        flattened: out.flattened_documents@,
    }
}

/// Pairs that are none are gathered to no group.
pub proof fn is_grouping_empty(pairs: Seq<Pair>, groups: Seq<Group>)
    requires
        is_grouping(pairs, groups),
        pairs.len() == 0,
    ensures
        groups.len() == 0,
{
    if groups.len() > 0 {
        assert(groups[0].1.len() > 0);
        assert(groups[0].1 == crate::sorter::values_for(pairs, groups[0].0));
    }
}

} // verus!
