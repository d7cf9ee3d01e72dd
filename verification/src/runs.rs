use crate::merge::{
    law_merging_is_associative, lemma_merged_record_is_ascending, merged_record, merged_records,
    merged_value, records_of, MergePolicy,
};
use crate::record::{is_ascending, record_entries, Entry};
use vstd::prelude::*;

verus! {

/// Whether `value` is what `policy` makes of `values`; where records are
/// laid over one another, the value is a record with the fields that
/// result.
pub open spec fn is_merged(policy: MergePolicy, values: Seq<Seq<u8>>, value: Seq<u8>) -> bool {
    &&& Some(value) == merged_value(policy, values)
    &&& policy == MergePolicy::UnionRecords && values.len() > 1 ==> record_entries(value)
        == merged_records(records_of(values))
}

/// Whether `values` are `parts` laid end to end, none of them empty.
pub open spec fn is_split(values: Seq<Seq<u8>>, parts: Seq<Seq<Seq<u8>>>) -> bool {
    &&& parts.flatten() == values
    &&& forall|i: int| 0 <= i < parts.len() ==> (#[trigger] parts[i]).len() > 0
}

/// Whether `value` is what `policy` makes of `values` in runs that stand
/// one above the other, at most `runs` high: the values are split into
/// neighbours, each part is one value as it came or is merged to one
/// value in lower runs, and `value` is what the policy makes of these
/// results in their order.
pub open spec fn is_merged_in_runs(
    policy: MergePolicy,
    values: Seq<Seq<u8>>,
    value: Seq<u8>,
    runs: nat,
) -> bool
    decreases runs,
{
    &&& runs > 0
    &&& exists|parts: Seq<Seq<Seq<u8>>>, results: Seq<Seq<u8>>|
        #![trigger is_split(values, parts), is_merged(policy, results, value)]
        {
            &&& is_split(values, parts)
            &&& results.len() == parts.len()
            &&& is_merged(policy, results, value)
            &&& forall|i: int|
                0 <= i < parts.len() ==> (#[trigger] parts[i]) == seq![results[i]]
                    || is_merged_in_runs(policy, parts[i], results[i], (runs - 1) as nat)
        }
}

/// Whether `value` is what `policy` makes of `values` in some number of
/// runs.
pub open spec fn is_merged_in_some_runs(policy: MergePolicy, values: Seq<Seq<u8>>, value: Seq<u8>) -> bool {
    exists|runs: nat| is_merged_in_runs(policy, values, value, runs)
}

/// Whether every record of `records` has ascending ids.
pub open spec fn all_ascending(records: Seq<Seq<Entry>>) -> bool {
    forall|i: int| 0 <= i < records.len() ==> is_ascending(#[trigger] records[i])
}

/// Records with ascending ids laid over one another have ascending ids.
proof fn lemma_merged_records_ascending(records: Seq<Seq<Entry>>)
    requires
        all_ascending(records),
    ensures
        is_ascending(merged_records(records)),
    decreases records.len(),
{
    if records.len() > 1 {
        let front = records.drop_last();
        assert forall|i: int| 0 <= i < front.len() implies is_ascending(#[trigger] front[i]) by {
            assert(front[i] == records[i]);
        }
        lemma_merged_records_ascending(front);
        lemma_merged_record_is_ascending(merged_records(front), records.last(), -1);
    } else if records.len() == 1 {
        assert(is_ascending(records[0]));
    }
}

/// Records laid over one another are the first of them laid over one
/// another, with the rest, laid over one another, laid over that.
proof fn lemma_merged_records_concat(first: Seq<Seq<Entry>>, rest: Seq<Seq<Entry>>)
    requires
        rest.len() > 0,
        all_ascending(first),
        all_ascending(rest),
    ensures
        merged_records(first + rest) == merged_record(merged_records(first), merged_records(rest)),
    decreases rest.len(),
{
    let all = first + rest;
    if first.len() == 0 {
        assert(all =~= rest);
    } else if rest.len() == 1 {
        assert(all.drop_last() =~= first);
        assert(all.last() == rest[0]);
    } else {
        let front = rest.drop_last();
        assert(all.drop_last() =~= first + front);
        assert(all.last() == rest.last());
        assert forall|i: int| 0 <= i < front.len() implies is_ascending(#[trigger] front[i]) by {
            assert(front[i] == rest[i]);
        }
        lemma_merged_records_concat(first, front);
        lemma_merged_records_ascending(first);
        lemma_merged_records_ascending(front);
        assert(is_ascending(rest.last()));
        law_merging_is_associative(merged_records(first), merged_records(front), rest.last());
    }
}

/// The records of values laid end to end are their records laid end to
/// end.
proof fn lemma_records_of_concat(first: Seq<Seq<u8>>, rest: Seq<Seq<u8>>)
    ensures
        records_of(first + rest) == records_of(first) + records_of(rest),
{
    assert(records_of(first + rest) =~= records_of(first) + records_of(rest));
}

/// Records that are merged part by part, and the results merged, are the
/// records merged at once.
proof fn lemma_merged_by_parts(parts: Seq<Seq<Seq<u8>>>, results: Seq<Seq<u8>>)
    requires
        results.len() == parts.len(),
        forall|i: int|
            0 <= i < parts.len() ==> (#[trigger] parts[i]).len() > 0 && all_ascending(
                records_of(parts[i]),
            ) && record_entries(results[i]) == merged_records(records_of(parts[i])),
    ensures
        parts.flatten().len() >= parts.len(),
        all_ascending(records_of(parts.flatten())),
        all_ascending(records_of(results)),
        merged_records(records_of(parts.flatten())) == merged_records(records_of(results)),
    decreases parts.len(),
{
    broadcast use Seq::lemma_flatten_push;

    if parts.len() == 0 {
        assert(parts.flatten() =~= Seq::<Seq<u8>>::empty());
        assert(records_of(parts.flatten()) =~= records_of(results));
    } else {
        let front = parts.drop_last();
        let done = results.drop_last();
        let part = parts.last();
        assert(parts =~= front.push(part));
        assert(parts.flatten() == front.flatten() + part);
        assert forall|i: int| 0 <= i < front.len() implies (#[trigger] front[i]).len() > 0
            && all_ascending(records_of(front[i])) && record_entries(done[i]) == merged_records(
            records_of(front[i]),
        ) by {
            assert(front[i] == parts[i]);
            assert(done[i] == results[i]);
        }
        lemma_merged_by_parts(front, done);
        lemma_records_of_concat(front.flatten(), part);
        let before = records_of(front.flatten());
        let after = records_of(parts.flatten());
        assert forall|i: int| 0 <= i < after.len() implies is_ascending(#[trigger] after[i]) by {
            if i < before.len() {
                assert(after[i] == before[i]);
            } else {
                assert(after[i] == records_of(part)[i - before.len()]);
            }
        }
        lemma_merged_records_ascending(records_of(part));
        assert(records_of(results) =~= records_of(done).push(record_entries(results.last())));
        assert forall|i: int| 0 <= i < results.len() implies is_ascending(
            #[trigger] records_of(results)[i],
        ) by {
            if i < done.len() {
                assert(records_of(results)[i] == records_of(done)[i]);
            }
        }
        lemma_merged_records_concat(before, records_of(part));
        if results.len() > 1 {
            assert(records_of(results).drop_last() =~= records_of(done));
        } else {
            assert(records_of(done) =~= Seq::<Seq<Entry>>::empty());
            assert(before.len() == 0 ==> merged_records(before) =~= Seq::<Entry>::empty());
            assert(merged_records(records_of(done)) =~= Seq::<Entry>::empty());
        }
    }
}

/// The last of values laid end to end is the last of the last part.
proof fn lemma_last_of_parts(parts: Seq<Seq<Seq<u8>>>)
    requires
        parts.len() > 0,
        parts.last().len() > 0,
    ensures
        parts.flatten().len() > 0,
        parts.flatten().last() == parts.last().last(),
{
    broadcast use Seq::lemma_flatten_push;

    assert(parts =~= parts.drop_last().push(parts.last()));
    assert(parts.flatten() == parts.drop_last().flatten() + parts.last());
}

/// Values that are merged part by part, and the results merged, are the
/// values merged at once.
proof fn lemma_merged_level(
    policy: MergePolicy,
    values: Seq<Seq<u8>>,
    value: Seq<u8>,
    parts: Seq<Seq<Seq<u8>>>,
    results: Seq<Seq<u8>>,
)
    requires
        is_split(values, parts),
        results.len() == parts.len(),
        is_merged(policy, results, value),
        forall|i: int| 0 <= i < parts.len() ==> is_merged(policy, #[trigger] parts[i], results[i]),
    ensures
        is_merged(policy, values, value),
{
    assert(parts.len() > 0);
    lemma_last_of_parts(parts);
    if results.len() == 1 {
        parts.lemma_flatten_one_element();
        assert(is_merged(policy, parts[0], results[0]));
        assert(merged_value(policy, results) == Some(results[0]));
    } else {
        match policy {
            MergePolicy::KeepLatest => {
                assert(is_merged(policy, parts.last(), results.last()));
                assert(parts[parts.len() - 1] == parts.last());
            },
            MergePolicy::ForbidDuplicates => {},
            MergePolicy::UnionRecords => {
                assert forall|i: int| 0 <= i < parts.len() implies (#[trigger] parts[i]).len() > 0
                    && all_ascending(records_of(parts[i])) && record_entries(results[i])
                    == merged_records(records_of(parts[i])) by {
                    assert(is_merged(policy, parts[i], results[i]));
                    assert(is_ascending(record_entries(results[i])));
                    if parts[i].len() == 1 {
                        assert(results[i] == parts[i][0]);
                        assert(records_of(parts[i])[0] == record_entries(parts[i][0]));
                    } else {
                        assert forall|k: int| 0 <= k < parts[i].len() implies is_ascending(
                            #[trigger] records_of(parts[i])[k],
                        ) by {
                            assert(is_ascending(record_entries(parts[i][k])));
                        }
                    }
                }
                lemma_merged_by_parts(parts, results);
                assert forall|k: int| 0 <= k < values.len() implies is_ascending(
                    #[trigger] record_entries(values[k]),
                ) by {
                    assert(records_of(values)[k] == record_entries(values[k]));
                }
            },
        }
    }
}

/// What a policy makes of values in runs that stand one above the other
/// is what it makes of them in one run.
pub proof fn law_runs_merge_as_one(policy: MergePolicy, values: Seq<Seq<u8>>, value: Seq<u8>, runs: nat)
    requires
        is_merged_in_runs(policy, values, value, runs),
    ensures
        is_merged(policy, values, value),
    decreases runs,
{
    let (parts, results) = choose|parts: Seq<Seq<Seq<u8>>>, results: Seq<Seq<u8>>|
        #![trigger is_split(values, parts), is_merged(policy, results, value)]
        {
            &&& is_split(values, parts)
            &&& results.len() == parts.len()
            &&& is_merged(policy, results, value)
            &&& forall|i: int|
                0 <= i < parts.len() ==> (#[trigger] parts[i]) == seq![results[i]]
                    || is_merged_in_runs(policy, parts[i], results[i], (runs - 1) as nat)
        };
    assert forall|i: int| 0 <= i < parts.len() implies is_merged(
        policy,
        #[trigger] parts[i],
        results[i],
    ) by {
        if parts[i] == seq![results[i]] {
            assert(parts[i].len() == 1 && parts[i][0] == results[i]);
            assert(parts[i].last() == results[i]);
        } else {
            law_runs_merge_as_one(policy, parts[i], results[i], (runs - 1) as nat);
        }
    }
    lemma_merged_level(policy, values, value, parts, results);
}

} // verus!
