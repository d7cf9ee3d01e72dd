use crate::error::TransformError;
use crate::fields_ids_map::FieldId;
use crate::record::{
    check_ascending, decode_record, encode_record, encoded_record, is_ascending, is_record,
    record_entries, Entry, MAX_VALUE_LEN,
};
use std::borrow::Cow;
use vstd::prelude::*;

verus! {

/// How the values that were given under one key become one value.
#[derive(Debug, Clone, Copy, PartialEq, Eq, Structural)]
pub enum MergePolicy {
    /// The value given last stands for all.
    KeepLatest,
    /// The values are records, and the fields of each are laid over the
    /// fields of those given before it.
    UnionRecords,
    /// A key must not be given more than one value.
    ForbidDuplicates,
}

/// The fields of `base` with the fields of `update` laid over them: every
/// field of either record, and the value of `update` where both have one.
pub open spec fn merged_record(base: Seq<Entry>, update: Seq<Entry>) -> Seq<Entry>
    decreases base.len() + update.len(),
{
    if base.len() == 0 {
        update
    } else if update.len() == 0 {
        base
    } else if base[0].0 < update[0].0 {
        seq![base[0]] + merged_record(base.drop_first(), update)
    } else if update[0].0 < base[0].0 {
        seq![update[0]] + merged_record(base, update.drop_first())
    } else {
        seq![update[0]] + merged_record(base.drop_first(), update.drop_first())
    }
}

/// The records of `records` laid over one another, from the first to the
/// last.
pub open spec fn merged_records(records: Seq<Seq<Entry>>) -> Seq<Entry>
    decreases records.len(),
{
    if records.len() == 0 {
        Seq::empty()
    } else if records.len() == 1 {
        records[0]
    } else {
        merged_record(merged_records(records.drop_last()), records.last())
    }
}

/// Every key of `entries` is above `bound`.
pub open spec fn keys_above(entries: Seq<Entry>, bound: int) -> bool {
    forall|i: int| 0 <= i < entries.len() ==> (#[trigger] entries[i]).0 > bound
}

/// Laying one record over another gives a record again, and no key of it
/// is below the keys of both.
pub proof fn lemma_merged_record_is_record(base: Seq<Entry>, update: Seq<Entry>, bound: int)
    requires
        is_record(base),
        is_record(update),
        keys_above(base, bound),
        keys_above(update, bound),
    ensures
        is_record(merged_record(base, update)),
        keys_above(merged_record(base, update), bound),
    decreases base.len() + update.len(),
{
    let merged = merged_record(base, update);
    if base.len() == 0 || update.len() == 0 {
    } else {
        let (head, rest_base, rest_update) = if base[0].0 < update[0].0 {
            (base[0], base.drop_first(), update)
        } else if update[0].0 < base[0].0 {
            (update[0], base, update.drop_first())
        } else {
            (update[0], base.drop_first(), update.drop_first())
        };
        let rest = merged_record(rest_base, rest_update);
        assert(merged == seq![head] + rest);
        assert(is_record(rest_base) && keys_above(rest_base, head.0 as int)) by {
            if rest_base == base {
                assert forall|i: int| 0 <= i < base.len() implies (#[trigger] base[i]).0 > head.0 by {
                    if i > 0 {
                        assert(base[0].0 < base[i].0);
                    }
                }
            } else {
                assert forall|i: int| 0 <= i < rest_base.len() implies (#[trigger] rest_base[i]).0
                    > head.0 by {
                    assert(rest_base[i] == base[i + 1]);
                    assert(base[0].0 < base[i + 1].0);
                }
                assert forall|i: int, j: int| 0 <= i < j < rest_base.len() implies rest_base[i].0
                    < rest_base[j].0 by {
                    assert(base[i + 1].0 < base[j + 1].0);
                }
                assert forall|i: int| 0 <= i < rest_base.len() implies (#[trigger] rest_base[i]).1.len()
                    <= MAX_VALUE_LEN by {
                    assert(rest_base[i] == base[i + 1]);
                }
            }
        }
        assert(is_record(rest_update) && keys_above(rest_update, head.0 as int)) by {
            if rest_update == update {
                assert forall|i: int| 0 <= i < update.len() implies (#[trigger] update[i]).0
                    > head.0 by {
                    if i > 0 {
                        assert(update[0].0 < update[i].0);
                    }
                }
            } else {
                assert forall|i: int| 0 <= i < rest_update.len() implies (
                #[trigger] rest_update[i]).0 > head.0 by {
                    assert(rest_update[i] == update[i + 1]);
                    assert(update[0].0 < update[i + 1].0);
                }
                assert forall|i: int, j: int| 0 <= i < j < rest_update.len() implies rest_update[i].0
                    < rest_update[j].0 by {
                    assert(update[i + 1].0 < update[j + 1].0);
                }
                assert forall|i: int| 0 <= i < rest_update.len() implies (
                #[trigger] rest_update[i]).1.len() <= MAX_VALUE_LEN by {
                    assert(rest_update[i] == update[i + 1]);
                }
            }
        }
        lemma_merged_record_is_record(rest_base, rest_update, head.0 as int);
        assert(head.0 > bound && head.1.len() <= MAX_VALUE_LEN) by {
            assert(base[0].0 > bound && update[0].0 > bound);
            assert(base[0].1.len() <= MAX_VALUE_LEN && update[0].1.len() <= MAX_VALUE_LEN);
        }
        assert forall|i: int, j: int| 0 <= i < j < merged.len() implies merged[i].0
            < merged[j].0 by {
            assert(merged[j] == rest[j - 1]);
            if i > 0 {
                assert(merged[i] == rest[i - 1]);
            }
        }
        assert forall|i: int| 0 <= i < merged.len() implies (#[trigger] merged[i]).1.len()
            <= MAX_VALUE_LEN by {
            if i > 0 {
                assert(merged[i] == rest[i - 1]);
            }
        }
        assert forall|i: int| 0 <= i < merged.len() implies (#[trigger] merged[i]).0 > bound by {
            if i > 0 {
                assert(merged[i] == rest[i - 1]);
            }
        }
    }
}

/// What is left of ascending fields without the first is ascending.
proof fn lemma_rest_is_ascending(entries: Seq<Entry>)
    requires
        is_ascending(entries),
        entries.len() > 0,
    ensures
        is_ascending(entries.drop_first()),
{
    let rest = entries.drop_first();
    assert forall|i: int, j: int| 0 <= i < j < rest.len() implies rest[i].0 < rest[j].0 by {
        assert(entries[i + 1].0 < entries[j + 1].0);
    }
}

/// Where one record is laid over another, a reader finds under each id
/// the value of the record laid over, if it has one, and the value of the
/// record below otherwise.
pub proof fn lemma_merged_record_get(base: Seq<Entry>, update: Seq<Entry>, key: FieldId)
    requires
        is_ascending(base),
        is_ascending(update),
    ensures
        crate::record::record_get(merged_record(base, update), key) == (match crate::record::record_get(
            update,
            key,
        ) {
            Some(value) => Some(value),
            None => crate::record::record_get(base, key),
        }),
    decreases base.len() + update.len(),
{
    let merged = merged_record(base, update);
    if base.len() == 0 || update.len() == 0 {
    } else {
        lemma_rest_is_ascending(base);
        lemma_rest_is_ascending(update);
        if base[0].0 < update[0].0 {
            let rest = merged_record(base.drop_first(), update);
            assert(merged == seq![base[0]] + rest);
            assert(merged[0] == base[0]);
            assert(merged.drop_first() =~= rest);
            lemma_merged_record_get(base.drop_first(), update, key);
        } else if update[0].0 < base[0].0 {
            let rest = merged_record(base, update.drop_first());
            assert(merged == seq![update[0]] + rest);
            assert(merged[0] == update[0]);
            assert(merged.drop_first() =~= rest);
            lemma_merged_record_get(base, update.drop_first(), key);
        } else {
            let rest = merged_record(base.drop_first(), update.drop_first());
            assert(merged == seq![update[0]] + rest);
            assert(merged[0] == update[0]);
            assert(merged.drop_first() =~= rest);
            lemma_merged_record_get(base.drop_first(), update.drop_first(), key);
        }
    }
}

/// Laying one record with ascending ids over another gives ascending ids.
pub proof fn lemma_merged_record_is_ascending(base: Seq<Entry>, update: Seq<Entry>, bound: int)
    requires
        is_ascending(base),
        is_ascending(update),
        keys_above(base, bound),
        keys_above(update, bound),
    ensures
        is_ascending(merged_record(base, update)),
        keys_above(merged_record(base, update), bound),
    decreases base.len() + update.len(),
{
    let merged = merged_record(base, update);
    if base.len() == 0 || update.len() == 0 {
    } else {
        lemma_rest_is_ascending(base);
        lemma_rest_is_ascending(update);
        let (head, rest_base, rest_update) = if base[0].0 < update[0].0 {
            (base[0], base.drop_first(), update)
        } else if update[0].0 < base[0].0 {
            (update[0], base, update.drop_first())
        } else {
            (update[0], base.drop_first(), update.drop_first())
        };
        let rest = merged_record(rest_base, rest_update);
        assert(merged == seq![head] + rest);
        assert(keys_above(rest_base, head.0 as int)) by {
            assert forall|i: int| 0 <= i < rest_base.len() implies (#[trigger] rest_base[i]).0 > head.0 by {
                if rest_base == base {
                    if i > 0 {
                        assert(base[0].0 < base[i].0);
                    }
                } else {
                    assert(rest_base[i] == base[i + 1]);
                    assert(base[0].0 < base[i + 1].0);
                }
            }
        }
        assert(keys_above(rest_update, head.0 as int)) by {
            assert forall|i: int| 0 <= i < rest_update.len() implies (#[trigger] rest_update[i]).0
                > head.0 by {
                if rest_update == update {
                    if i > 0 {
                        assert(update[0].0 < update[i].0);
                    }
                } else {
                    assert(rest_update[i] == update[i + 1]);
                    assert(update[0].0 < update[i + 1].0);
                }
            }
        }
        lemma_merged_record_is_ascending(rest_base, rest_update, head.0 as int);
        assert(head.0 > bound) by {
            assert(base[0].0 > bound && update[0].0 > bound);
        }
        assert forall|i: int, j: int| 0 <= i < j < merged.len() implies merged[i].0 < merged[j].0 by {
            assert(merged[j] == rest[j - 1]);
            if i > 0 {
                assert(merged[i] == rest[i - 1]);
            }
        }
        assert forall|i: int| 0 <= i < merged.len() implies (#[trigger] merged[i]).0 > bound by {
            if i > 0 {
                assert(merged[i] == rest[i - 1]);
            }
        }
    }
}

/// Two records with ascending ids under which a reader finds the same are
/// the same record.
pub proof fn lemma_records_equal(a: Seq<Entry>, b: Seq<Entry>)
    requires
        is_ascending(a),
        is_ascending(b),
        forall|key: FieldId| crate::record::record_get(a, key) == crate::record::record_get(b, key),
    ensures
        a == b,
{
    let before = |x: Entry, y: Entry| x.0 < y.0;
    assert(crate::order::is_strict_order(before));
    assert(crate::order::is_sorted_by(a, before));
    assert(crate::order::is_sorted_by(b, before));
    assert forall|x: Entry| a.contains(x) <==> b.contains(x) by {
        if a.contains(x) {
            let i = choose|i: int| 0 <= i < a.len() && a[i] == x;
            crate::record::lemma_record_get(a, i);
            crate::record::lemma_record_get_found(b, x.0);
            let j = choose|j: int| 0 <= j < b.len() && b[j] == (x.0, crate::record::record_get(b, x.0)->0);
            assert(b[j] == x);
        }
        if b.contains(x) {
            let i = choose|i: int| 0 <= i < b.len() && b[i] == x;
            crate::record::lemma_record_get(b, i);
            crate::record::lemma_record_get_found(a, x.0);
            let j = choose|j: int| 0 <= j < a.len() && a[j] == (x.0, crate::record::record_get(a, x.0)->0);
            assert(a[j] == x);
        }
    }
    crate::order::lemma_sorted_unique(a, b, before);
}

/// Records are laid over one another with the same result whichever
/// neighbours are merged first. So a sorter that merges the records of
/// one key in several runs, each run merging neighbours in their order,
/// ends with the record that one merge of all of them gives.
pub proof fn law_merging_is_associative(a: Seq<Entry>, b: Seq<Entry>, c: Seq<Entry>)
    requires
        is_ascending(a),
        is_ascending(b),
        is_ascending(c),
    ensures
        merged_record(merged_record(a, b), c) == merged_record(a, merged_record(b, c)),
{
    lemma_merged_record_is_ascending(a, b, -1);
    lemma_merged_record_is_ascending(b, c, -1);
    let left = merged_record(merged_record(a, b), c);
    let right = merged_record(a, merged_record(b, c));
    lemma_merged_record_is_ascending(merged_record(a, b), c, -1);
    lemma_merged_record_is_ascending(a, merged_record(b, c), -1);
    assert forall|key: FieldId| crate::record::record_get(left, key) == crate::record::record_get(
        right,
        key,
    ) by {
        lemma_merged_record_get(merged_record(a, b), c, key);
        lemma_merged_record_get(a, b, key);
        lemma_merged_record_get(a, merged_record(b, c), key);
        lemma_merged_record_get(b, c, key);
    }
    lemma_records_equal(left, right);
}

/// Where every record holds a field, the records laid over one another
/// hold it with the value of the last record.
pub proof fn lemma_merged_records_last(records: Seq<Seq<Entry>>, key: FieldId)
    requires
        records.len() > 0,
        forall|i: int| 0 <= i < records.len() ==> is_ascending(#[trigger] records[i]),
        forall|i: int| 0 <= i < records.len() ==> crate::record::record_get(#[trigger] records[i], key) is Some,
    ensures
        is_ascending(merged_records(records)),
        crate::record::record_get(merged_records(records), key) == crate::record::record_get(
            records.last(),
            key,
        ),
    decreases records.len(),
{
    if records.len() > 1 {
        let front = records.drop_last();
        assert forall|i: int| 0 <= i < front.len() implies is_ascending(#[trigger] front[i]) by {
            assert(front[i] == records[i]);
        }
        assert forall|i: int| 0 <= i < front.len() implies crate::record::record_get(
            #[trigger] front[i],
            key,
        ) is Some by {
            assert(front[i] == records[i]);
        }
        lemma_merged_records_last(front, key);
        lemma_merged_record_is_ascending(merged_records(front), records.last(), -1);
        lemma_merged_record_get(merged_records(front), records.last(), key);
    } else {
        assert(records.last() == records[0]);
    }
}

/// The fields of `base` with those of `update` laid over them, both given
/// with ascending ids.
fn merge_fields(base: &Vec<(FieldId, Vec<u8>)>, update: &Vec<(FieldId, Vec<u8>)>) -> (merged: Vec<
    (FieldId, Vec<u8>),
>)
    ensures
        merged.deep_view() == merged_record(base.deep_view(), update.deep_view()),
{
    let ghost b = base.deep_view();
    let ghost u = update.deep_view();
    let mut merged: Vec<(FieldId, Vec<u8>)> = Vec::new();
    let mut i: usize = 0;
    let mut j: usize = 0;
    assert(b.skip(0) =~= b && u.skip(0) =~= u);
    assert(merged.deep_view() =~= Seq::<Entry>::empty());
    while i < base.len() || j < update.len()
        invariant
            b == base.deep_view(),
            u == update.deep_view(),
            i <= base.len(),
            j <= update.len(),
            merged.deep_view() + merged_record(b.skip(i as int), u.skip(j as int)) == merged_record(
                b,
                u,
            ),
        decreases base.len() - i + update.len() - j,
    {
        let ghost before = merged.deep_view();
        let ghost rb = b.skip(i as int);
        let ghost ru = u.skip(j as int);
        proof {
            if i < base.len() {
                assert(rb[0] == b[i as int] && b[i as int] == (base@[i as int].0, base@[i as int].1@));
                assert(rb.drop_first() =~= b.skip(i + 1));
            }
            if j < update.len() {
                assert(ru[0] == u[j as int] && u[j as int] == (update@[j as int].0, update@[j as int].1@));
                assert(ru.drop_first() =~= u.skip(j + 1));
            }
        }
        if j >= update.len() || (i < base.len() && base[i].0 < update[j].0) {
            merged.push((base[i].0, base[i].1.clone()));
            i += 1;
            proof {
                assert(merged.deep_view() =~= before.push(rb[0]));
                if j >= update.len() {
                    assert(ru.len() == 0);
                    assert(merged_record(rb, ru) == rb);
                    assert(u.skip(j as int).len() == 0);
                    assert(merged_record(b.skip(i as int), ru) =~= b.skip(i as int)) by {
                        if b.skip(i as int).len() == 0 {
                            assert(merged_record(b.skip(i as int), ru) =~= ru);
                        }
                    }
                    assert(rb =~= seq![rb[0]] + b.skip(i as int));
                }
                assert(before + merged_record(rb, ru) =~= merged.deep_view() + merged_record(
                    b.skip(i as int),
                    u.skip(j as int),
                ));
            }
        } else if i >= base.len() || update[j].0 < base[i].0 {
            merged.push((update[j].0, update[j].1.clone()));
            j += 1;
            proof {
                assert(merged.deep_view() =~= before.push(ru[0]));
                if i >= base.len() {
                    assert(rb.len() == 0);
                    assert(merged_record(rb, ru) == ru);
                    assert(merged_record(rb, u.skip(j as int)) =~= u.skip(j as int));
                    assert(ru =~= seq![ru[0]] + u.skip(j as int));
                }
                assert(before + merged_record(rb, ru) =~= merged.deep_view() + merged_record(
                    b.skip(i as int),
                    u.skip(j as int),
                ));
            }
        } else {
            merged.push((update[j].0, update[j].1.clone()));
            i += 1;
            j += 1;
            proof {
                assert(merged.deep_view() =~= before.push(ru[0]));
                assert(before + merged_record(rb, ru) =~= merged.deep_view() + merged_record(
                    b.skip(i as int),
                    u.skip(j as int),
                ));
            }
        }
    }
    proof {
        assert(b.skip(i as int).len() == 0);
        assert(merged.deep_view() + merged_record(b.skip(i as int), u.skip(j as int))
            =~= merged.deep_view());
    }
    merged
}

/// Lays the record `update` over the record `base` and writes the record
/// that results into `buffer`. Bytes that do not decode to ascending keys
/// are refused as an invalid record.
pub fn merge_two_obkvs(base: &[u8], update: &[u8], buffer: &mut Vec<u8>) -> (done: Result<(), TransformError>)
    ensures
        done is Ok <==> is_ascending(record_entries(base@)) && is_ascending(record_entries(update@)),
        done is Ok ==> final(buffer)@ == encoded_record(
            merged_record(record_entries(base@), record_entries(update@)),
        ) && record_entries(final(buffer)@) == merged_record(
            record_entries(base@),
            record_entries(update@),
        ) && is_record(record_entries(final(buffer)@)),
        done matches Err(e) ==> e == TransformError::InvalidRecord,
{
    buffer.clear();
    let base_fields = decode_record(base);
    let update_fields = decode_record(update);
    if !check_ascending(&base_fields) || !check_ascending(&update_fields) {
        return Err(TransformError::InvalidRecord);
    }
    let merged = merge_fields(&base_fields, &update_fields);
    proof {
        lemma_merged_record_is_record(base_fields.deep_view(), update_fields.deep_view(), -1);
    }
    match encode_record(&merged) {
        Ok(bytes) => {
            *buffer = bytes;
            Ok(())
        },
        Err(e) => Err(e),
    }
}

/// The bytes that a shared or owned buffer holds.
pub fn cow_bytes<'a, 'b>(value: &'b Cow<'a, [u8]>) -> (bytes: &'b [u8])
    ensures
        bytes@ == value@,
{
    match value {
        Cow::Borrowed(b) => b,
        Cow::Owned(v) => v.as_slice(),
    }
}

/// A copy of a shared or owned buffer.
pub fn cow_copy<'a>(value: &Cow<'a, [u8]>) -> (copy: Cow<'a, [u8]>)
    ensures
        copy@ == value@,
{
    match value {
        Cow::Borrowed(b) => Cow::Borrowed(*b),
        Cow::Owned(v) => Cow::Owned(v.clone()),
    }
}

/// The views of the values in `values`.
pub open spec fn values_view(values: Seq<Cow<'_, [u8]>>) -> Seq<Seq<u8>> {
    Seq::new(values.len(), |i: int| values[i]@)
}

/// The entries of each record in `values`.
pub open spec fn records_of(values: Seq<Seq<u8>>) -> Seq<Seq<Entry>> {
    Seq::new(values.len(), |i: int| record_entries(values[i]))
}

/// The value that stands for `values` under `policy`, where there is one:
/// the last one kept, the union of the records (which must all decode to
/// ascending keys and give a record that is not too long, unless there is
/// only one), or the only value.
pub open spec fn merged_value(policy: MergePolicy, values: Seq<Seq<u8>>) -> Option<Seq<u8>> {
    if values.len() == 0 {
        None
    } else {
        match policy {
            MergePolicy::KeepLatest => Some(values.last()),
            MergePolicy::UnionRecords => if values.len() == 1 {
                Some(values[0])
            } else if (forall|i: int|
                0 <= i < values.len() ==> is_ascending(#[trigger] record_entries(values[i])))
                && encoded_record(merged_records(records_of(values))).len() <= MAX_VALUE_LEN {
                Some(encoded_record(merged_records(records_of(values))))
            } else {
                None
            },
            MergePolicy::ForbidDuplicates => if values.len() == 1 {
                Some(values[0])
            } else {
                None
            },
        }
    }
}

/// Keeps the value that was given last.
pub fn keep_latest_obkv<'a>(_key: &[u8], obkvs: &[Cow<'a, [u8]>]) -> (kept: Result<Cow<'a, [u8]>, TransformError>)
    requires
        obkvs@.len() > 0,
    ensures
        kept matches Ok(value) && Some(value@) == merged_value(
            MergePolicy::KeepLatest,
            values_view(obkvs@),
        ),
{
    Ok(cow_copy(&obkvs[obkvs.len() - 1]))
}

/// Accepts a single value and reports several values as keys that were
/// merged.
pub fn forbid_duplicates<'a>(_key: &[u8], obkvs: &[Cow<'a, [u8]>]) -> (only: Result<Cow<'a, [u8]>, TransformError>)
    requires
        obkvs@.len() > 0,
    ensures
        only is Ok <==> obkvs@.len() == 1,
        only matches Ok(value) ==> Some(value@) == merged_value(
            MergePolicy::ForbidDuplicates,
            values_view(obkvs@),
        ),
        only matches Err(e) ==> e == TransformError::IndexingMergingKeys,
{
    if obkvs.len() == 1 {
        Ok(cow_copy(&obkvs[0]))
    } else {
        Err(TransformError::IndexingMergingKeys)
    }
}

/// Lays the records over one another, from the first to the last. A
/// single record is handed back as it is; of several, each must decode to
/// ascending keys, and what results must not be longer than a value can be.
pub fn merge_obkvs<'a>(_key: &[u8], obkvs: &[Cow<'a, [u8]>]) -> (merged: Result<Cow<'a, [u8]>, TransformError>)
    requires
        obkvs@.len() > 0,
    ensures
        merged is Ok <==> merged_value(MergePolicy::UnionRecords, values_view(obkvs@)) is Some,
        merged matches Ok(value) ==> Some(value@) == merged_value(
            MergePolicy::UnionRecords,
            values_view(obkvs@),
        ),
        merged matches Ok(value) ==> record_entries(value@) == merged_records(
            records_of(values_view(obkvs@)),
        ),
        merged matches Err(e) ==> e == TransformError::InvalidRecord,
{
    let ghost values = values_view(obkvs@);
    let ghost records = records_of(values);
    if obkvs.len() == 1 {
        return Ok(cow_copy(&obkvs[0]));
    }
    let mut acc: Vec<u8> = Vec::new();
    match merge_two_obkvs(cow_bytes(&obkvs[0]), cow_bytes(&obkvs[1]), &mut acc) {
        Ok(()) => {},
        Err(e) => {
            assert(record_entries(values[0]) == record_entries(obkvs@[0]@));
            assert(record_entries(values[1]) == record_entries(obkvs@[1]@));
            return Err(e);
        },
    }
    proof {
        assert(records.take(2).drop_last() =~= seq![records[0]]);
        assert(records.take(2).last() == records[1]);
        assert(merged_records(seq![records[0]]) == records[0]);
    }
    let mut i: usize = 2;
    while i < obkvs.len()
        invariant
            values == values_view(obkvs@),
            records == records_of(values),
            2 <= i <= obkvs.len(),
            acc@ == encoded_record(merged_records(records.take(i as int))),
            record_entries(acc@) == merged_records(records.take(i as int)),
            is_record(record_entries(acc@)),
            forall|k: int| 0 <= k < i ==> is_ascending(#[trigger] record_entries(values[k])),
        decreases obkvs.len() - i,
    {
        let mut next: Vec<u8> = Vec::new();
        match merge_two_obkvs(acc.as_slice(), cow_bytes(&obkvs[i]), &mut next) {
            Ok(()) => {},
            Err(e) => {
                assert(record_entries(values[i as int]) == record_entries(obkvs@[i as int]@));
                return Err(e);
            },
        }
        proof {
            assert(record_entries(values[i as int]) == record_entries(obkvs@[i as int]@));
            assert(records.take(i + 1).drop_last() =~= records.take(i as int));
            assert(records.take(i + 1).last() == records[i as int]);
        }
        acc = next;
        i += 1;
    }
    proof {
        assert(records.take(i as int) =~= records);
    }
    if acc.len() > MAX_VALUE_LEN {
        return Err(TransformError::InvalidRecord);
    }
    Ok(Cow::Owned(acc))
}

/// Merges the values given under one key as `policy` says.
pub fn merge_values<'a>(policy: MergePolicy, key: &[u8], values: &[Cow<'a, [u8]>]) -> (merged: Result<
    Cow<'a, [u8]>,
    TransformError,
>)
    requires
        values@.len() > 0,
    ensures
        merged is Ok <==> merged_value(policy, values_view(values@)) is Some,
        merged matches Ok(value) ==> crate::runs::is_merged(policy, values_view(values@), value@),
        merged matches Err(e) ==> e == (if policy == MergePolicy::UnionRecords {
            TransformError::InvalidRecord
        } else {
            TransformError::IndexingMergingKeys
        }),
{
    match policy {
        MergePolicy::KeepLatest => keep_latest_obkv(key, values),
        MergePolicy::UnionRecords => merge_obkvs(key, values),
        MergePolicy::ForbidDuplicates => forbid_duplicates(key, values),
    }
}

} // verus!
