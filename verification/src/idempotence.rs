use crate::consistency::{is_consistent, lemma_docids_distinct, stored_after};
use crate::external_documents_ids::is_listing;
use crate::fields_ids_map::{has_name, with_name, with_names, FieldId};
use crate::finalize::{
    given_before, given_entries, is_lowest_free, is_outcome, is_step, is_trace, names_after,
    FinalInput, FinalOutput, Step,
};
use crate::laws::{extends, ids_are_in_order};
use crate::sorter::{is_grouping, Group, Pair};
use crate::transform::position;
use vstd::prelude::*;

verus! {

/// What a registry holds: no more names than there are field ids, and no
/// name twice.
pub open spec fn names_are_distinct(names: Seq<Seq<char>>) -> bool {
    &&& names.len() <= crate::fields_ids_map::MAX_FIELDS
    &&& forall|i: int, j: int| 0 <= i < j < names.len() ==> names[i] != names[j]
}

/// Names that are registered already change nothing when they are
/// offered again.
pub proof fn lemma_with_names_known(names: Seq<Seq<char>>, added: Seq<Seq<char>>)
    requires
        forall|i: int| 0 <= i < added.len() ==> has_name(names, #[trigger] added[i]),
    ensures
        with_names(names, added) == names,
    decreases added.len(),
{
    if added.len() > 0 {
        let front = added.drop_last();
        assert forall|i: int| 0 <= i < front.len() implies has_name(names, #[trigger] front[i]) by {
            assert(front[i] == added[i]);
        }
        lemma_with_names_known(names, front);
        assert(has_name(names, added[added.len() - 1]));
    }
}

/// No name comes twice into a registry.
pub proof fn lemma_with_names_distinct(names: Seq<Seq<char>>, added: Seq<Seq<char>>)
    requires
        names_are_distinct(names),
    ensures
        names_are_distinct(with_names(names, added)),
    decreases added.len(),
{
    if added.len() > 0 {
        lemma_with_names_distinct(names, added.drop_last());
        let before = with_names(names, added.drop_last());
        let after = with_name(before, added.last());
        assert forall|i: int, j: int| 0 <= i < j < after.len() implies after[i] != after[j] by {
            if j == before.len() {
                assert(after[i] == before[i]);
            }
        }
    }
}

/// A name keeps its place when the registry grows.
pub proof fn lemma_position_extends(names: Seq<Seq<char>>, after: Seq<Seq<char>>, name: Seq<char>)
    requires
        extends(after, names),
        names_are_distinct(after),
        has_name(names, name),
    ensures
        position(after, name) == position(names, name),
        position(names, name) < names.len(),
        names[position(names, name) as int] == name,
{
    let p = choose|i: int| 0 <= i < names.len() && names[i] == name;
    assert(after[p] == name);
    let q = choose|i: int| 0 <= i < after.len() && after[i] == name;
    if p != q {
        if p < q {
            assert(after[p] != after[q]);
        } else {
            assert(after[q] != after[p]);
        }
    }
}

/// Whether `entry` is the external id and the internal id of a step
/// for a new document.
pub open spec fn is_given_by(steps: Seq<Step>, entry: (Seq<u8>, u64)) -> bool {
    exists|j: int|
        0 <= j < steps.len() && !(#[trigger] steps[j]).updated && entry == (
            steps[j].external_id,
            steps[j].docid as u64,
        )
}

/// The external ids that were given an internal id are those of the
/// steps for new documents, each with the id of its step.
pub proof fn lemma_given_entries_hold(steps: Seq<Step>)
    ensures
        forall|j: int|
            0 <= j < steps.len() && !(#[trigger] steps[j]).updated ==> given_entries(steps).contains(
                (steps[j].external_id, steps[j].docid as u64),
            ),
        forall|t: int| 0 <= t < given_entries(steps).len() ==> is_given_by(steps, #[trigger] given_entries(steps)[t]),
    decreases steps.len(),
{
    if steps.len() > 0 {
        let front = steps.drop_last();
        let last = steps.last();
        lemma_given_entries_hold(front);
        let before = given_entries(front);
        let all = given_entries(steps);
        assert forall|j: int| 0 <= j < steps.len() && !(#[trigger] steps[j]).updated implies all.contains(
            (steps[j].external_id, steps[j].docid as u64),
        ) by {
            if j < front.len() {
                assert(front[j] == steps[j]);
                let found = (steps[j].external_id, steps[j].docid as u64);
                assert(before.contains(found));
                let t = choose|t: int| 0 <= t < before.len() && before[t] == found;
                assert(all[t] == found);
            } else {
                assert(all[all.len() - 1] == (last.external_id, last.docid as u64));
            }
        }
        assert forall|t: int| 0 <= t < all.len() implies is_given_by(steps, #[trigger] all[t]) by {
            if t < before.len() {
                assert(all[t] == before[t]);
                assert(is_given_by(front, before[t]));
                let j = choose|j: int|
                    0 <= j < front.len() && !(#[trigger] front[j]).updated && before[t] == (
                        front[j].external_id,
                        front[j].docid as u64,
                    );
                assert(steps[j] == front[j]);
            } else {
                assert(!steps[steps.len() - 1].updated);
            }
        }
    }
}

/// Whether `key` is the external id of a step for a new document.
pub open spec fn is_new_key(steps: Seq<Step>, key: Seq<u8>) -> bool {
    exists|i: int| 0 <= i < steps.len() && !(#[trigger] steps[i]).updated && steps[i].external_id == key
}

/// After the steps every external id that a step was taken for has the
/// internal id of its step, and no other external id has got another
/// internal id than before.
pub proof fn lemma_ids_after(input: FinalInput, groups: Seq<Group>, steps: Seq<Step>, output: FinalOutput)
    requires
        is_grouping(input.pairs, groups),
        is_trace(input, groups, steps),
        is_outcome(input, steps, output),
    ensures
        forall|i: int|
            0 <= i < steps.len() ==> output.ids.dom().contains((#[trigger] steps[i]).external_id)
                && output.ids[steps[i].external_id] == steps[i].docid,
        forall|key: Seq<u8>|
            #[trigger] output.ids.dom().contains(key) ==> input.ids.dom().contains(key) || is_new_key(steps, key),
        forall|key: Seq<u8>| input.ids.dom().contains(key) ==> output.ids.dom().contains(key) && output.ids[key]
            == #[trigger] input.ids[key],
{
    lemma_given_entries_hold(steps);
    let entries = given_entries(steps);
    let given = choose|given: Map<Seq<u8>, u64>|
        #[trigger] is_listing(entries, given) && output.ids == input.ids.union_prefer_right(given);
    // No external id that was known is given an internal id.
    assert forall|key: Seq<u8>| given.dom().contains(key) implies !input.ids.dom().contains(key) by {
        let t = choose|t: int| 0 <= t < entries.len() && (#[trigger] entries[t]).0 == key;
        assert(is_given_by(steps, entries[t]));
        let j = choose|j: int|
            0 <= j < steps.len() && !(#[trigger] steps[j]).updated && entries[t] == (
                steps[j].external_id,
                steps[j].docid as u64,
            );
        assert(is_step(input, groups[j], steps[j]));
    }
    assert forall|i: int| 0 <= i < steps.len() implies output.ids.dom().contains(
        (#[trigger] steps[i]).external_id,
    ) && output.ids[steps[i].external_id] == steps[i].docid by {
        assert(is_step(input, groups[i], steps[i]));
        if !steps[i].updated {
            let found = (steps[i].external_id, steps[i].docid as u64);
            assert(entries.contains(found));
            let t = choose|t: int| 0 <= t < entries.len() && entries[t] == found;
            assert(given.dom().contains(entries[t].0) && given[entries[t].0] == entries[t].1);
        }
    }
    assert forall|key: Seq<u8>| #[trigger] output.ids.dom().contains(key) implies input.ids.dom().contains(key)
        || is_new_key(steps, key) by {
        if !input.ids.dom().contains(key) {
            assert(given.dom().contains(key));
            let t = choose|t: int| 0 <= t < entries.len() && (#[trigger] entries[t]).0 == key;
            assert(is_given_by(steps, entries[t]));
            let j = choose|j: int|
                0 <= j < steps.len() && !(#[trigger] steps[j]).updated && entries[t] == (
                    steps[j].external_id,
                    steps[j].docid as u64,
                );
            assert(steps[j].external_id == key);
        }
    }
}

/// What finalizing starts from once the records that a first run handed
/// on are stored as `stored` and the same documents are read again: the
/// registry, the counts and the external ids are those that the first
/// run handed on, and the ids that it gave are in use.
pub open spec fn input_after(input: FinalInput, output: FinalOutput, stored: Map<u32, Seq<u8>>) -> FinalInput {
    FinalInput {
        policy: input.policy,
        pairs: input.pairs,
        method: input.method,
        documents: stored,
        names: output.names,
        counts: output.counts,
        total: output.total,
        ids: output.ids,
        used: input.used + output.new_ids,
        marked: Set::empty(),
        setup: input.setup,
    }
}

/// Whether finalizing leads from `input` to `output` and the stored
/// documents are `stored` once the records handed on are stored.
pub open spec fn is_stored(input: FinalInput, output: FinalOutput, stored: Map<u32, Seq<u8>>) -> bool {
    exists|groups: Seq<Group>, steps: Seq<Step>|
        #[trigger] is_grouping(input.pairs, groups) && #[trigger] is_trace(input, groups, steps) && is_outcome(
            input,
            steps,
            output,
        ) && stored == stored_after(input.documents, steps)
}

/// The step that is taken again for a document whose record was stored
/// by `step`, when the registry holds `names`.
pub open spec fn taken_again(step: Step, names: Seq<Seq<char>>) -> Step {
    Step {
        external_id: step.external_id,
        incoming: step.incoming,
        docid: step.docid,
        updated: true,
        names,
        names_after: names,
        record: step.record,
        flattened: step.flattened,
    }
}

/// When documents are replaced, the step for a document that was stored
/// by an earlier step is this earlier step taken again.
proof fn lemma_step_again(
    input: FinalInput,
    again: FinalInput,
    group: Group,
    first: Step,
    second: Step,
    names: Seq<Seq<char>>,
)
    requires
        is_step(input, group, first),
        is_step(again, group, second),
        input.method == crate::config::IndexDocumentsMethod::ReplaceDocuments,
        again.method == input.method,
        again.policy == input.policy,
        again.ids.dom().contains(group.0),
        again.ids[group.0] == first.docid,
        second.names == names,
        extends(names, first.names_after),
        extends(first.names_after, first.names),
        names_are_distinct(names),
    ensures
        second == taken_again(first, names),
{
    let entries = crate::record::record_entries(first.record);
    assert(Some(first.incoming) == Some(second.incoming));
    assert(second.record == first.record);
    let named = crate::finalize::named_entries(first.names, entries);
    assert(crate::finalize::named_entries(names, entries) =~= named);
    let fields = crate::json::flattened(named);
    assert forall|i: int| 0 <= i < crate::finalize::field_names(fields).len() implies has_name(
        names,
        #[trigger] crate::finalize::field_names(fields)[i],
    ) by {
        assert(has_name(first.names_after, fields[i].0));
        let p = choose|p: int| 0 <= p < first.names_after.len() && first.names_after[p] == fields[i].0;
        assert(names[p] == fields[i].0);
    }
    lemma_with_names_known(names, crate::finalize::field_names(fields));
    assert(second.names_after == names);
    assert(crate::finalize::identified(names, fields) =~= crate::finalize::identified(
        first.names_after,
        fields,
    )) by {
        assert forall|i: int| 0 <= i < fields.len() implies position(names, fields[i].0) == position(
            first.names_after,
            fields[i].0,
        ) by {
            assert(has_name(first.names_after, fields[i].0));
            lemma_position_extends(first.names_after, names, fields[i].0);
        }
    }
    crate::determinism::lemma_record_unique(
        crate::finalize::identified(names, fields),
        first.flattened,
        second.flattened,
    );
}

/// When documents are replaced, the steps for documents that were all
/// stored by earlier steps are these steps taken again.
proof fn lemma_trace_again(
    input: FinalInput,
    again: FinalInput,
    groups: Seq<Group>,
    first: Seq<Step>,
    second: Seq<Step>,
    upto: int,
)
    requires
        is_trace(input, groups, first),
        is_trace(again, groups, second),
        input.method == crate::config::IndexDocumentsMethod::ReplaceDocuments,
        again.method == input.method,
        again.policy == input.policy,
        forall|i: int|
            0 <= i < first.len() ==> again.ids.dom().contains((#[trigger] first[i]).external_id)
                && again.ids[first[i].external_id] == first[i].docid,
        names_are_distinct(again.names),
        forall|i: int|
            0 <= i < first.len() ==> extends(again.names, (#[trigger] first[i]).names_after) && extends(
                first[i].names_after,
                first[i].names,
            ),
        0 <= upto <= first.len(),
    ensures
        forall|i: int| 0 <= i < upto ==> #[trigger] second[i] == taken_again(first[i], again.names),
    decreases upto,
{
    if upto > 0 {
        lemma_trace_again(input, again, groups, first, second, upto - 1);
        let i = upto - 1;
        assert(is_step(input, groups[i], first[i]));
        assert(is_step(again, groups[i], second[i]));
        assert(second[i].names == again.names) by {
            let done = second.take(i);
            if i > 0 {
                assert(done.last() == second[i - 1]);
                assert(second[i - 1] == taken_again(first[i - 1], again.names));
            }
        }
        lemma_step_again(input, again, groups[i], first[i], second[i], again.names);
    }
}

/// An index that is in order is in order again once the records that a
/// run handed on are stored.
proof fn lemma_consistent_again(input: FinalInput, groups: Seq<Group>, steps: Seq<Step>, output: FinalOutput)
    requires
        is_grouping(input.pairs, groups),
        is_trace(input, groups, steps),
        is_outcome(input, steps, output),
        is_consistent(input),
        input.marked == Set::<u32>::empty(),
    ensures
        is_consistent(input_after(input, output, stored_after(input.documents, steps))),
{
    let stored = stored_after(input.documents, steps);
    let again = input_after(input, output, stored);
    crate::consistency::lemma_consistent_prefix(input, groups, steps, steps.len() as int);
    assert(steps.take(steps.len() as int) =~= steps);
    lemma_docids_distinct(input, groups, steps);
    crate::consistency::lemma_store_prefix(input.documents, steps, steps.len() as int);
    lemma_ids_after(input, groups, steps, output);
    assert(again.used =~= stored.dom()) by {
        assert forall|id: u32| again.used.contains(id) <==> stored.dom().contains(id) by {
            if output.new_ids.contains(id) {
                assert(given_before(steps, steps.len() as int, id));
                let j = choose|j: int|
                    0 <= j < steps.len() && j < steps.len() && !(#[trigger] steps[j]).updated && steps[j].docid
                        == id;
                assert(steps[j].docid == id);
            }
            if stored.dom().contains(id) && !input.documents.dom().contains(id) {
                let j = choose|j: int| 0 <= j < steps.len() && (#[trigger] steps[j]).docid == id;
                assert(is_step(input, groups[j], steps[j]));
                assert(given_before(steps, steps.len() as int, id));
            }
        }
    }
    assert(ids_are_in_order(again)) by {
        assert forall|key: Seq<u8>| again.ids.dom().contains(key) implies #[trigger] again.ids[key]
            <= u32::MAX && again.used.contains(again.ids[key] as u32) by {
            if input.ids.dom().contains(key) {
                assert(again.ids[key] == input.ids[key]);
            } else {
                assert(is_new_key(steps, key));
                let i = choose|i: int|
                    0 <= i < steps.len() && !(#[trigger] steps[i]).updated && steps[i].external_id == key;
                assert(again.ids[steps[i].external_id] == steps[i].docid);
                assert(given_before(steps, steps.len() as int, steps[i].docid));
            }
        }
        assert forall|a: Seq<u8>, b: Seq<u8>|
            again.ids.dom().contains(a) && again.ids.dom().contains(b) && a != b implies #[trigger] again.ids[a]
            != #[trigger] again.ids[b] by {
            let known_a = input.ids.dom().contains(a);
            let known_b = input.ids.dom().contains(b);
            if known_a {
                assert(again.ids[a] == input.ids[a]);
            }
            if known_b {
                assert(again.ids[b] == input.ids[b]);
            }
            if !known_a {
                assert(is_new_key(steps, a));
                let i = choose|i: int|
                    0 <= i < steps.len() && !(#[trigger] steps[i]).updated && steps[i].external_id == a;
                assert(again.ids[steps[i].external_id] == steps[i].docid);
                assert(is_lowest_free(input.used, steps, i));
                if !known_b {
                    assert(is_new_key(steps, b));
                    let j = choose|j: int|
                        0 <= j < steps.len() && !(#[trigger] steps[j]).updated && steps[j].external_id == b;
                    assert(again.ids[steps[j].external_id] == steps[j].docid);
                    if i < j {
                        assert(steps[i].docid != steps[j].docid);
                    } else {
                        assert(steps[j].docid != steps[i].docid);
                    }
                } else {
                    assert(input.used.contains(input.ids[b] as u32));
                }
            } else if !known_b {
                assert(is_new_key(steps, b));
                let j = choose|j: int|
                    0 <= j < steps.len() && !(#[trigger] steps[j]).updated && steps[j].external_id == b;
                assert(again.ids[steps[j].external_id] == steps[j].docid);
                assert(is_lowest_free(input.used, steps, j));
                assert(input.used.contains(input.ids[a] as u32));
            }
        }
    }
    assert(crate::consistency::counts_match(again.counts, again.names, again.documents)) by {
        assert forall|name: Seq<char>| #[trigger]
            again.counts[name] == crate::consistency::holders(again.names, again.documents, name).len() by {
            assert(crate::finalize::counts_after(input.counts, input.documents, steps)[name]
                == crate::consistency::holders(again.names, again.documents, name).len());
        }
    }
}

/// Replacing documents twice by the same documents is replacing them
/// once: when the records that a run handed on are stored and the same
/// documents are read and finalized again, what is stored after the
/// second run is what was stored after the first, and so are the
/// registry, the external ids, the counts of the fields and both
/// streams. The second run marks no document as new.
///
/// This holds of an index that is in order, see `is_consistent`, whose
/// registry holds no name twice.
pub proof fn law_replace_is_idempotent(
    input: FinalInput,
    first: FinalOutput,
    stored: Map<u32, Seq<u8>>,
    second: FinalOutput,
    stored_again: Map<u32, Seq<u8>>,
)
    requires
        is_consistent(input),
        names_are_distinct(input.names),
        input.marked == Set::<u32>::empty(),
        input.method == crate::config::IndexDocumentsMethod::ReplaceDocuments,
        is_stored(input, first, stored),
        is_stored(input_after(input, first, stored), second, stored_again),
    ensures
        stored_again == stored,
        second.names == first.names,
        second.ids == first.ids,
        forall|name: Seq<char>| #[trigger] second.counts[name] == first.counts[name],
        second.total == first.total,
        second.count == first.count,
        second.new_ids == Set::<u32>::empty(),
        second.original == first.original,
        second.flattened == first.flattened,
{
    let (groups, steps) = choose|groups: Seq<Group>, steps: Seq<Step>|
        #[trigger] is_grouping(input.pairs, groups) && #[trigger] is_trace(input, groups, steps) && is_outcome(
            input,
            steps,
            first,
        ) && stored == stored_after(input.documents, steps);
    let again = input_after(input, first, stored);
    let (groups_again, steps_again) = choose|groups: Seq<Group>, steps: Seq<Step>|
        #[trigger] is_grouping(again.pairs, groups) && #[trigger] is_trace(again, groups, steps) && is_outcome(
            again,
            steps,
            second,
        ) && stored_again == stored_after(again.documents, steps);
    crate::determinism::lemma_grouping_unique(input.pairs, groups, groups_again);
    lemma_ids_after(input, groups, steps, first);
    lemma_registry_after(input, groups, steps, steps.len() as int);
    assert(steps.take(steps.len() as int) =~= steps);
    crate::laws::lemma_names_grow(input, groups, steps, steps.len() as int);
    lemma_trace_again(input, again, groups, steps, steps_again, steps.len() as int);
    lemma_consistent_again(input, groups, steps, first);
    lemma_same_again(input, again, groups, steps, steps_again, first, second);
}

/// The registry holds no name twice after the steps if it held none
/// twice before.
proof fn lemma_registry_after(input: FinalInput, groups: Seq<Group>, steps: Seq<Step>, upto: int)
    requires
        is_trace(input, groups, steps),
        names_are_distinct(input.names),
        0 <= upto <= steps.len(),
    ensures
        names_are_distinct(names_after(input.names, steps.take(upto))),
    decreases upto,
{
    if upto > 0 {
        lemma_registry_after(input, groups, steps, upto - 1);
        let step = steps[upto - 1];
        assert(is_step(input, groups[upto - 1], step));
        assert(steps.take(upto).last() == step);
        let fields = crate::json::flattened(
            crate::finalize::named_entries(step.names, crate::record::record_entries(step.record)),
        );
        lemma_with_names_distinct(step.names, crate::finalize::field_names(fields));
        lemma_with_names_bounded(step.names, crate::finalize::field_names(fields));
    }
}

/// A registry never holds more names than there are field ids.
proof fn lemma_with_names_bounded(names: Seq<Seq<char>>, added: Seq<Seq<char>>)
    requires
        names.len() <= crate::fields_ids_map::MAX_FIELDS,
    ensures
        with_names(names, added).len() <= crate::fields_ids_map::MAX_FIELDS,
    decreases added.len(),
{
    if added.len() > 0 {
        lemma_with_names_bounded(names, added.drop_last());
    }
}

/// Steps that are taken again lead to what the first steps led to.
proof fn lemma_same_again(
    input: FinalInput,
    again: FinalInput,
    groups: Seq<Group>,
    first: Seq<Step>,
    second: Seq<Step>,
    output: FinalOutput,
    output_again: FinalOutput,
)
    requires
        is_grouping(input.pairs, groups),
        is_trace(input, groups, first),
        is_trace(again, groups, second),
        is_outcome(input, first, output),
        is_outcome(again, second, output_again),
        again == input_after(input, output, stored_after(input.documents, first)),
        is_consistent(input),
        is_consistent(again),
        forall|i: int| 0 <= i < first.len() ==> #[trigger] second[i] == taken_again(first[i], again.names),
    ensures
        stored_after(again.documents, second) == again.documents,
        output_again.names == output.names,
        output_again.ids == output.ids,
        forall|name: Seq<char>| #[trigger] output_again.counts[name] == output.counts[name],
        output_again.total == output.total,
        output_again.count == output.count,
        output_again.new_ids == Set::<u32>::empty(),
        output_again.original == output.original,
        output_again.flattened == output.flattened,
{
    let stored = again.documents;
    lemma_docids_distinct(input, groups, first);
    crate::consistency::lemma_store_prefix(input.documents, first, first.len() as int);
    assert(first.take(first.len() as int) =~= first);
    lemma_stored_again(stored, second, second.len() as int);
    assert(second.take(second.len() as int) =~= second);
    assert(output_again.names == output.names) by {
        if second.len() > 0 {
            assert(second.last() == second[second.len() - 1]);
        }
    }
    assert(crate::finalize::original_pairs(second) =~= crate::finalize::original_pairs(first));
    assert(crate::finalize::flattened_pairs(second) =~= crate::finalize::flattened_pairs(first));
    crate::determinism::lemma_stream_unique(
        input.setup,
        crate::finalize::original_pairs(first),
        output.original,
        output_again.original,
    );
    crate::determinism::lemma_stream_unique(
        input.setup,
        crate::finalize::flattened_pairs(first),
        output.flattened,
        output_again.flattened,
    );
    lemma_nothing_given(second);
    assert(output_again.ids =~= output.ids) by {
        let given = choose|given: Map<Seq<u8>, u64>|
            #[trigger] is_listing(given_entries(second), given) && output_again.ids
                == again.ids.union_prefer_right(given);
        assert(given.dom() =~= Set::<Seq<u8>>::empty()) by {
            assert forall|key: Seq<u8>| !given.dom().contains(key) by {}
        }
    }
    assert(output_again.new_ids =~= Set::<u32>::empty()) by {
        assert forall|id: u32| !output_again.new_ids.contains(id) by {
            if given_before(second, second.len() as int, id) {
                let j = choose|j: int|
                    0 <= j < second.len() && j < second.len() && !(#[trigger] second[j]).updated && second[j].docid
                        == id;
                assert(second[j] == taken_again(first[j], again.names));
            }
        }
    }
    // The counts match what is stored after either run, and what is
    // stored is the same.
    crate::consistency::lemma_consistent_prefix(again, groups, second, second.len() as int);
    assert forall|name: Seq<char>| #[trigger] output_again.counts[name] == output.counts[name] by {
        assert(crate::finalize::counts_after(again.counts, again.documents, second)[name]
            == crate::consistency::holders(output_again.names, stored, name).len());
        assert(again.counts[name] == crate::consistency::holders(again.names, stored, name).len());
    }
}

/// Steps that store what is stored already leave the store as it is.
proof fn lemma_stored_again(stored: Map<u32, Seq<u8>>, steps: Seq<Step>, upto: int)
    requires
        0 <= upto <= steps.len(),
        forall|i: int|
            0 <= i < steps.len() ==> stored.dom().contains((#[trigger] steps[i]).docid) && stored[steps[i].docid]
                == steps[i].record,
    ensures
        stored_after(stored, steps.take(upto)) == stored,
    decreases upto,
{
    if upto > 0 {
        lemma_stored_again(stored, steps, upto - 1);
        assert(steps.take(upto).drop_last() =~= steps.take(upto - 1));
        assert(steps.take(upto).last() == steps[upto - 1]);
        assert(stored.insert(steps[upto - 1].docid, steps[upto - 1].record) =~= stored);
    } else {
        assert(steps.take(0) =~= Seq::<Step>::empty());
    }
}

/// Steps for known documents give no internal id.
proof fn lemma_nothing_given(steps: Seq<Step>)
    requires
        forall|i: int| 0 <= i < steps.len() ==> (#[trigger] steps[i]).updated,
    ensures
        given_entries(steps).len() == 0,
    decreases steps.len(),
{
    if steps.len() > 0 {
        assert(steps.last() == steps[steps.len() - 1]);
        let front = steps.drop_last();
        assert forall|i: int| 0 <= i < front.len() implies (#[trigger] front[i]).updated by {
            assert(front[i] == steps[i]);
        }
        lemma_nothing_given(front);
    }
}

/// Whether `name` is the name of a field of the batch.
pub open spec fn is_batch_name(batch: Map<FieldId, Seq<char>>, name: Seq<char>) -> bool {
    exists|id: FieldId| batch.dom().contains(id) && batch[id] == name
}

/// Every name of a batch by id is the name of one of its ids.
proof fn lemma_names_below(batch: Map<FieldId, Seq<char>>, bound: int)
    requires
        0 <= bound <= 65536,
    ensures
        forall|i: int|
            0 <= i < crate::documents::names_below(batch, bound).len() ==> is_batch_name(
                batch,
                #[trigger] crate::documents::names_below(batch, bound)[i],
            ),
    decreases bound,
{
    if bound > 0 {
        lemma_names_below(batch, bound - 1);
        let before = crate::documents::names_below(batch, bound - 1);
        let all = crate::documents::names_below(batch, bound);
        assert forall|i: int| 0 <= i < all.len() implies is_batch_name(batch, #[trigger] all[i]) by {
            if i < before.len() {
                assert(all[i] == before[i]);
                assert(is_batch_name(batch, before[i]));
            } else {
                assert(batch.dom().contains((bound - 1) as FieldId));
                assert(all[i] == batch[(bound - 1) as FieldId]);
            }
        }
    }
}

/// A batch whose names are all registered is read in the same way once
/// the registry has grown: the registry stays as it is, every field of
/// the batch goes by the same id, and so does the primary key. So the
/// documents of the batch are given to the sorter as the same pairs.
pub proof fn law_known_batch_reads_the_same(
    names: Seq<Seq<char>>,
    after: Seq<Seq<char>>,
    batch: Map<FieldId, Seq<char>>,
    key: Seq<char>,
)
    requires
        names_are_distinct(after),
        extends(after, names),
        has_name(names, key),
        forall|id: FieldId| batch.dom().contains(id) ==> has_name(names, #[trigger] batch[id]),
    ensures
        with_name(with_names(after, crate::documents::names_by_id(batch)), key) == after,
        crate::transform::batch_mapping(after, batch) == crate::transform::batch_mapping(names, batch),
        position(after, key) == position(names, key),
{
    let added = crate::documents::names_by_id(batch);
    lemma_names_below(batch, 65536);
    assert forall|i: int| 0 <= i < added.len() implies has_name(after, #[trigger] added[i]) by {
        assert(is_batch_name(batch, added[i]));
        let id = choose|id: FieldId| batch.dom().contains(id) && batch[id] == added[i];
        lemma_position_extends(names, after, batch[id]);
        assert(after[position(names, batch[id]) as int] == batch[id]);
    }
    lemma_with_names_known(after, added);
    lemma_position_extends(names, after, key);
    assert(after[position(names, key) as int] == key);
    assert(crate::transform::batch_mapping(after, batch) =~= crate::transform::batch_mapping(names, batch)) by {
        assert forall|id: FieldId| batch.dom().contains(id) implies position(after, batch[id]) == position(
            names,
            batch[id],
        ) by {
            lemma_position_extends(names, after, batch[id]);
        }
    }
}

/// Whether the record of `pair` holds, under the primary key, a value
/// that stands for the external id that is the key of the pair.
pub open spec fn pair_holds_its_id(pair: Pair, primary_key: FieldId) -> bool {
    crate::laws::holds_external_id(pair.1, primary_key, pair.0)
}

/// Whether `pair` is a record under the bytes of an internal id, the
/// record holding a value that stands for an external id that has this
/// internal id in `ids`.
pub open spec fn is_filed_under_its_id(pair: Pair, primary_key: FieldId, ids: Map<Seq<u8>, u64>) -> bool {
    exists|key: Seq<u8>, id: u32|
        #![trigger crate::laws::holds_external_id(pair.1, primary_key, key), crate::bytes::be_bytes(id)]
        pair.0 == crate::bytes::be_bytes(id) && crate::laws::holds_external_id(pair.1, primary_key, key)
            && ids.dom().contains(key) && ids[key] == id
}

/// Whether each of `written` is filed under its id.
pub open spec fn are_filed_under_their_ids(written: Seq<Pair>, primary_key: FieldId, ids: Map<Seq<u8>, u64>) -> bool {
    forall|i: int| 0 <= i < written.len() ==> is_filed_under_its_id(#[trigger] written[i], primary_key, ids)
}

/// Every record that is handed on to be stored holds, under the primary
/// key, a value that stands for an external id, and the internal id of
/// this external id is the one that the record is handed on under. This
/// holds when the record of every document that was read holds a value
/// that stands for its external id, as it does where no external id is
/// generated.
pub proof fn law_stored_records_are_filed_under_their_ids(
    input: FinalInput,
    output: FinalOutput,
    primary_key: FieldId,
)
    requires
        crate::finalize::is_finalized(input, output),
        input.policy == crate::transform::batch_policy(input.method),
        forall|k: int| 0 <= k < input.pairs.len() ==> pair_holds_its_id(#[trigger] input.pairs[k], primary_key),
    ensures
        exists|written: Seq<Pair>|
            Some(output.original) == #[trigger] crate::stream::written_stream(input.setup, written)
                && are_filed_under_their_ids(written, primary_key, output.ids),
{
    let (groups, steps) = choose|groups: Seq<Group>, steps: Seq<Step>|
        #[trigger] is_grouping(input.pairs, groups) && #[trigger] is_trace(input, groups, steps)
            && is_outcome(input, steps, output);
    lemma_ids_after(input, groups, steps, output);
    let pairs = crate::finalize::original_pairs(steps);
    assert forall|k: int| 0 <= k < pairs.len() implies is_filed_under_its_id(
        #[trigger] pairs[k],
        primary_key,
        output.ids,
    ) by {
        let group = groups[k];
        assert(is_step(input, group, steps[k]));
        assert(group.1 == crate::sorter::values_for(input.pairs, group.0));
        assert forall|i: int| 0 <= i < group.1.len() implies crate::laws::holds_external_id(
            #[trigger] group.1[i],
            primary_key,
            group.0,
        ) by {
            crate::laws::lemma_values_for(input.pairs, group.0, i);
            let at = choose|at: int|
                0 <= at < input.pairs.len() && input.pairs[at] == (
                    group.0,
                    crate::sorter::values_for(input.pairs, group.0)[i],
                );
            assert(pair_holds_its_id(input.pairs[at], primary_key));
        }
        crate::laws::law_stored_record_holds_its_id(input, group, steps[k], primary_key);
        assert(crate::laws::holds_external_id(pairs[k].1, primary_key, steps[k].external_id));
        assert(pairs[k].0 == crate::bytes::be_bytes(steps[k].docid));
    }
    let written = crate::laws::lemma_stream_holds_pairs(input.setup, pairs, output.original);
    assert forall|i: int| 0 <= i < written.len() implies is_filed_under_its_id(
        #[trigger] written[i],
        primary_key,
        output.ids,
    ) by {
        assert(crate::laws::is_one_of(written[i], pairs));
        let k = choose|k: int| 0 <= k < pairs.len() && pairs[k] == written[i];
        assert(is_filed_under_its_id(pairs[k], primary_key, output.ids));
    }
    assert(Some(output.original) == crate::stream::written_stream(input.setup, written));
}

} // verus!
