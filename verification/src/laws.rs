use crate::finalize::{
    given_before, is_finalized, is_grouping_empty, is_lowest_free, is_outcome, is_step,
    is_stream_of, is_trace, original_pairs, replaced_by, FinalInput, FinalOutput, Step,
};
use crate::merge::MergePolicy;
use crate::sorter::{is_grouping, is_merging, Group, Pair};
use crate::stream::written_stream;
use vstd::prelude::*;

verus! {

/// Without documents nothing is handed on: no document is counted, no
/// internal id is marked as new or replaced, the registry, the count of
/// each field and the external ids stay as they are, and both streams
/// are the stream of no pair.
pub proof fn law_nothing_read(input: FinalInput, output: FinalOutput)
    requires
        is_finalized(input, output),
        input.pairs.len() == 0,
    ensures
        output.count == 0,
        output.names == input.names,
        forall|name: Seq<char>| #[trigger] output.counts[name] == input.counts[name],
        output.total == input.total,
        output.ids == input.ids,
        output.new_ids == input.marked,
        output.replaced_ids == Set::<u32>::empty(),
        Some(output.original) == written_stream(input.setup, Seq::<Pair>::empty()),
        Some(output.flattened) == written_stream(input.setup, Seq::<Pair>::empty()),
{
    let (groups, steps) = choose|groups: Seq<Group>, steps: Seq<Step>|
        #[trigger] is_grouping(input.pairs, groups) && #[trigger] is_trace(input, groups, steps)
            && is_outcome(input, steps, output);
    is_grouping_empty(input.pairs, groups);
    assert(steps.len() == 0);
    assert(output.new_ids =~= input.marked);
    assert(output.replaced_ids =~= Set::<u32>::empty());
    assert(output.ids =~= input.ids) by {
        let given = choose|given: Map<Seq<u8>, u64>|
            #[trigger] crate::external_documents_ids::is_listing(
                crate::finalize::given_entries(steps),
                given,
            ) && output.ids == input.ids.union_prefer_right(given);
        assert(given.dom() =~= Set::<Seq<u8>>::empty()) by {
            assert forall|key: Seq<u8>| !given.dom().contains(key) by {}
        }
    }
    lemma_empty_stream(input.setup, original_pairs(steps), output.original);
    lemma_empty_stream(input.setup, crate::finalize::flattened_pairs(steps), output.flattened);
}

/// The stream of no pair.
proof fn lemma_empty_stream(
    setup: (crate::config::ChunkCompressionType, u32),
    pairs: Seq<Pair>,
    bytes: Seq<u8>,
)
    requires
        is_stream_of(setup, pairs, bytes),
        pairs.len() == 0,
    ensures
        Some(bytes) == written_stream(setup, Seq::<Pair>::empty()),
{
    let (groups, written) = choose|groups: Seq<Group>, written: Seq<Pair>|
        #[trigger] is_grouping(pairs, groups) && #[trigger] is_merging(
            MergePolicy::ForbidDuplicates,
            groups,
            written,
        ) && Some(bytes) == written_stream(setup, written);
    is_grouping_empty(pairs, groups);
    assert(written =~= Seq::<Pair>::empty());
}

/// Whether the index is in order as far as the internal ids go: every
/// external id has an internal id that is in use, and no two external ids
/// share one.
pub open spec fn ids_are_in_order(input: FinalInput) -> bool {
    &&& forall|key: Seq<u8>|
        input.ids.dom().contains(key) ==> #[trigger] input.ids[key] <= u32::MAX && input.used.contains(
            input.ids[key] as u32,
        )
    &&& forall|a: Seq<u8>, b: Seq<u8>|
        input.ids.dom().contains(a) && input.ids.dom().contains(b) && a != b ==> #[trigger] input.ids[a]
            != #[trigger] input.ids[b]
}

/// Whether every external id has an internal id that is in use.
pub open spec fn ids_are_in_use(input: FinalInput) -> bool {
    forall|key: Seq<u8>|
        input.ids.dom().contains(key) ==> #[trigger] input.ids[key] <= u32::MAX && input.used.contains(
            input.ids[key] as u32,
        )
}

/// Whether `pair` is one of `pairs`.
pub open spec fn is_one_of(pair: Pair, pairs: Seq<Pair>) -> bool {
    exists|k: int| 0 <= k < pairs.len() && pairs[k] == pair
}

/// Whether each of `written` is one of `pairs`.
pub open spec fn holds_only(written: Seq<Pair>, pairs: Seq<Pair>) -> bool {
    forall|i: int| 0 <= i < written.len() ==> is_one_of(#[trigger] written[i], pairs)
}

/// Each value that is given under a key is the value of a pair with
/// that key.
pub proof fn lemma_values_for(pairs: Seq<Pair>, key: Seq<u8>, at: int)
    requires
        0 <= at < crate::sorter::values_for(pairs, key).len(),
    ensures
        exists|k: int| 0 <= k < pairs.len() && pairs[k] == (key, crate::sorter::values_for(pairs, key)[at]),
    decreases pairs.len(),
{
    let values = crate::sorter::values_for(pairs, key);
    let front = pairs.drop_last();
    if pairs.last().0 == key && at == values.len() - 1 {
        assert(pairs[pairs.len() - 1] == (key, values[at]));
    } else {
        lemma_values_for(front, key, at);
        let k = choose|k: int|
            0 <= k < front.len() && front[k] == (key, crate::sorter::values_for(front, key)[at]);
        assert(pairs[k] == front[k]);
    }
}

/// A stream holds pairs that it was made of, and no others.
pub proof fn lemma_stream_holds_pairs(
    setup: (crate::config::ChunkCompressionType, u32),
    pairs: Seq<Pair>,
    bytes: Seq<u8>,
) -> (written: Seq<Pair>)
    requires
        is_stream_of(setup, pairs, bytes),
    ensures
        Some(bytes) == written_stream(setup, written),
        holds_only(written, pairs),
{
    let (groups, written) = choose|groups: Seq<Group>, written: Seq<Pair>|
        #[trigger] is_grouping(pairs, groups) && #[trigger] is_merging(
            MergePolicy::ForbidDuplicates,
            groups,
            written,
        ) && Some(bytes) == written_stream(setup, written);
    assert forall|i: int| 0 <= i < written.len() implies is_one_of(#[trigger] written[i], pairs) by {
        assert(written[i].0 == groups[i].0);
        assert(groups[i].1.len() > 0);
        assert(groups[i].1 == crate::sorter::values_for(pairs, groups[i].0));
        lemma_values_for(pairs, groups[i].0, 0);
        assert(written[i].1 == groups[i].1[0]);
        let k = choose|k: int|
            0 <= k < pairs.len() && pairs[k] == (groups[i].0, crate::sorter::values_for(pairs, groups[i].0)[0]);
        assert(pairs[k] == written[i]);
    }
    written
}

/// Whether `key` is the bytes of an internal id that is new or replaced.
pub open spec fn is_marked_key(key: Seq<u8>, new_ids: Set<u32>, replaced_ids: Set<u32>) -> bool {
    exists|id: u32| key == crate::bytes::be_bytes(id) && (new_ids.contains(id) || replaced_ids.contains(id))
}

/// Whether every pair of `written` stands under the bytes of an internal
/// id that is new or replaced.
pub open spec fn stands_under_marked_ids(written: Seq<Pair>, new_ids: Set<u32>, replaced_ids: Set<u32>) -> bool {
    forall|i: int| 0 <= i < written.len() ==> is_marked_key((#[trigger] written[i]).0, new_ids, replaced_ids)
}

/// No internal id is both new and replaced, and every internal id under
/// which a record is handed on, in either stream, is new or replaced.
///
/// The new ids are none of those in use, and the replaced ones are all
/// in use.
///
/// This holds of an index in which every external id has an internal id
/// that is in use, when no id was marked as new beforehand.
pub proof fn law_new_or_replaced(input: FinalInput, output: FinalOutput)
    requires
        is_finalized(input, output),
        ids_are_in_use(input),
        input.marked == Set::<u32>::empty(),
    ensures
        forall|id: u32| !(output.new_ids.contains(id) && output.replaced_ids.contains(id)),
        forall|id: u32| output.new_ids.contains(id) ==> !input.used.contains(id),
        forall|id: u32| output.replaced_ids.contains(id) ==> input.used.contains(id),
        exists|written: Seq<Pair>|
            Some(output.original) == #[trigger] written_stream(input.setup, written) && stands_under_marked_ids(
                written,
                output.new_ids,
                output.replaced_ids,
            ),
        exists|written: Seq<Pair>|
            Some(output.flattened) == #[trigger] written_stream(input.setup, written) && stands_under_marked_ids(
                written,
                output.new_ids,
                output.replaced_ids,
            ),
{
    let (groups, steps) = choose|groups: Seq<Group>, steps: Seq<Step>|
        #[trigger] is_grouping(input.pairs, groups) && #[trigger] is_trace(input, groups, steps)
            && is_outcome(input, steps, output);
    lemma_never_both(input, output, groups, steps);
    lemma_steps_are_marked(input, output, steps);
    let ids = Seq::new(steps.len(), |k: int| steps[k].docid);
    let original = lemma_stream_is_marked(
        input.setup,
        original_pairs(steps),
        output.original,
        ids,
        output.new_ids,
        output.replaced_ids,
    );
    let flattened = lemma_stream_is_marked(
        input.setup,
        crate::finalize::flattened_pairs(steps),
        output.flattened,
        ids,
        output.new_ids,
        output.replaced_ids,
    );
}

/// An internal id that is in use is not given to a new document.
proof fn lemma_never_both(input: FinalInput, output: FinalOutput, groups: Seq<Group>, steps: Seq<Step>)
    requires
        is_trace(input, groups, steps),
        is_outcome(input, steps, output),
        ids_are_in_use(input),
        input.marked == Set::<u32>::empty(),
    ensures
        forall|id: u32| !(output.new_ids.contains(id) && output.replaced_ids.contains(id)),
        forall|id: u32| output.new_ids.contains(id) ==> !input.used.contains(id),
        forall|id: u32| output.replaced_ids.contains(id) ==> input.used.contains(id),
{
    assert forall|id: u32| output.new_ids.contains(id) implies !input.used.contains(id) by {
        assert(given_before(steps, steps.len() as int, id));
        let j = choose|j: int|
            0 <= j < steps.len() && j < steps.len() && !(#[trigger] steps[j]).updated && steps[j].docid == id;
        assert(is_lowest_free(input.used, steps, j));
    }
    assert forall|id: u32| output.replaced_ids.contains(id) implies input.used.contains(id) by {
        assert(replaced_by(steps, id));
        let i = choose|i: int| 0 <= i < steps.len() && (#[trigger] steps[i]).updated && steps[i].docid == id;
        assert(is_step(input, groups[i], steps[i]));
        assert(input.used.contains(input.ids[groups[i].0] as u32));
    }
}

/// A stream of pairs that stand under marked ids holds such pairs only.
proof fn lemma_stream_is_marked(
    setup: (crate::config::ChunkCompressionType, u32),
    pairs: Seq<Pair>,
    bytes: Seq<u8>,
    ids: Seq<u32>,
    new_ids: Set<u32>,
    replaced_ids: Set<u32>,
) -> (written: Seq<Pair>)
    requires
        is_stream_of(setup, pairs, bytes),
        ids.len() == pairs.len(),
        forall|k: int| 0 <= k < pairs.len() ==> (#[trigger] pairs[k]).0 == crate::bytes::be_bytes(ids[k]),
        forall|k: int| 0 <= k < ids.len() ==> new_ids.contains(#[trigger] ids[k]) || replaced_ids.contains(ids[k]),
    ensures
        Some(bytes) == written_stream(setup, written),
        stands_under_marked_ids(written, new_ids, replaced_ids),
{
    let written = lemma_stream_holds_pairs(setup, pairs, bytes);
    assert forall|i: int| 0 <= i < written.len() implies is_marked_key(
        (#[trigger] written[i]).0,
        new_ids,
        replaced_ids,
    ) by {
        assert(is_one_of(written[i], pairs));
        let k = choose|k: int| 0 <= k < pairs.len() && pairs[k] == written[i];
        assert(written[i].0 == crate::bytes::be_bytes(ids[k]));
        assert(new_ids.contains(ids[k]) || replaced_ids.contains(ids[k]));
    }
    written
}

/// The internal id of every step is marked as new or as replaced.
proof fn lemma_steps_are_marked(input: FinalInput, output: FinalOutput, steps: Seq<Step>)
    requires
        is_outcome(input, steps, output),
    ensures
        forall|k: int|
            0 <= k < steps.len() ==> output.new_ids.contains((#[trigger] steps[k]).docid)
                || output.replaced_ids.contains(steps[k].docid),
{
    assert forall|k: int| 0 <= k < steps.len() implies output.new_ids.contains((#[trigger] steps[k]).docid)
        || output.replaced_ids.contains(steps[k].docid) by {
        if steps[k].updated {
            assert(replaced_by(steps, steps[k].docid));
        } else {
            assert(given_before(steps, steps.len() as int, steps[k].docid));
        }
    }
}

/// The documents that are handed on are those that are new and those
/// that are replaced, and the replaced ones were in use. So the new
/// documents and the documents in use are together no fewer than the
/// documents handed on, and they are as many exactly when every document
/// in use is replaced.
///
/// This holds of an index that is in order, when no id was marked as new
/// beforehand.
pub proof fn law_documents_count(input: FinalInput, output: FinalOutput)
    requires
        is_finalized(input, output),
        ids_are_in_order(input),
        input.marked == Set::<u32>::empty(),
    ensures
        output.new_ids.finite() && output.replaced_ids.finite() && input.used.finite(),
        output.count == output.new_ids.len() + output.replaced_ids.len(),
        output.replaced_ids.subset_of(input.used),
        output.new_ids.disjoint(input.used),
        output.new_ids.len() + input.used.len() >= output.count,
        output.new_ids.len() + input.used.len() == output.count <==> output.replaced_ids == input.used,
{
    let (groups, steps) = choose|groups: Seq<Group>, steps: Seq<Step>|
        #[trigger] is_grouping(input.pairs, groups) && #[trigger] is_trace(input, groups, steps)
            && is_outcome(input, steps, output);
    crate::bitmap::lemma_ids_finite(output.new_ids);
    crate::bitmap::lemma_ids_finite(output.replaced_ids);
    crate::bitmap::lemma_ids_finite(input.used);
    lemma_never_both(input, output, groups, steps);
    let docids = Seq::new(steps.len(), |i: int| steps[i].docid);
    assert(docids.no_duplicates()) by {
        assert forall|i: int, j: int| 0 <= i < j < docids.len() implies docids[i] != docids[j] by {
            assert(is_step(input, groups[i], steps[i]));
            assert(is_step(input, groups[j], steps[j]));
            if steps[i].updated && steps[j].updated {
                assert(crate::bytes::bytes_lt(groups[i].0, groups[j].0));
                crate::bytes::lemma_bytes_lt_irreflexive(groups[i].0);
                assert(input.ids[groups[i].0] != input.ids[groups[j].0]);
            } else if !steps[i].updated && !steps[j].updated {
                assert(is_lowest_free(input.used, steps, j));
                if docids[i] == docids[j] {
                    assert(given_before(steps, j, steps[j].docid));
                }
            } else if steps[i].updated {
                assert(is_lowest_free(input.used, steps, j));
                assert(input.used.contains(input.ids[groups[i].0] as u32));
            } else {
                assert(is_lowest_free(input.used, steps, i));
                assert(input.used.contains(input.ids[groups[j].0] as u32));
            }
        }
    }
    docids.unique_seq_to_set();
    assert(docids.to_set() =~= output.new_ids + output.replaced_ids) by {
        lemma_steps_are_marked(input, output, steps);
        assert forall|id: u32| docids.to_set().contains(id) implies (output.new_ids
            + output.replaced_ids).contains(id) by {
            let k = choose|k: int| 0 <= k < docids.len() && docids[k] == id;
            assert(steps[k].docid == id);
        }
        assert forall|id: u32| (output.new_ids + output.replaced_ids).contains(id) implies docids.to_set().contains(
            id,
        ) by {
            if output.new_ids.contains(id) {
                assert(given_before(steps, steps.len() as int, id));
                let j = choose|j: int|
                    0 <= j < steps.len() && j < steps.len() && !(#[trigger] steps[j]).updated && steps[j].docid
                        == id;
                assert(docids[j] == id);
            } else {
                assert(replaced_by(steps, id));
                let j = choose|j: int|
                    0 <= j < steps.len() && (#[trigger] steps[j]).updated && steps[j].docid == id;
                assert(docids[j] == id);
            }
        }
    }
    assert(output.new_ids.disjoint(output.replaced_ids));
    vstd::set_lib::lemma_set_disjoint_lens(output.new_ids, output.replaced_ids);
    assert(output.replaced_ids.subset_of(input.used)) by {
        assert forall|id: u32| output.replaced_ids.contains(id) implies input.used.contains(id) by {
            assert(replaced_by(steps, id));
            let i = choose|i: int| 0 <= i < steps.len() && (#[trigger] steps[i]).updated && steps[i].docid == id;
            assert(is_step(input, groups[i], steps[i]));
            assert(input.used.contains(input.ids[groups[i].0] as u32));
        }
    }
    vstd::set_lib::lemma_len_subset(output.replaced_ids, input.used);
    if output.replaced_ids.len() == input.used.len() {
        vstd::set_lib::lemma_subset_equality(output.replaced_ids, input.used);
    }
}

/// Where every internal id is in use, no document that is not known yet
/// can be handed on: finalizing does not succeed unless every external id
/// that was read is known already.
pub proof fn law_no_id_left(input: FinalInput, output: FinalOutput)
    requires
        is_finalized(input, output),
        forall|id: u32| input.used.contains(id),
    ensures
        forall|k: int| 0 <= k < input.pairs.len() ==> input.ids.dom().contains((#[trigger] input.pairs[k]).0),
        output.new_ids == input.marked,
{
    let (groups, steps) = choose|groups: Seq<Group>, steps: Seq<Step>|
        #[trigger] is_grouping(input.pairs, groups) && #[trigger] is_trace(input, groups, steps)
            && is_outcome(input, steps, output);
    assert forall|i: int| 0 <= i < steps.len() implies (#[trigger] steps[i]).updated by {
        if !steps[i].updated {
            assert(is_lowest_free(input.used, steps, i));
        }
    }
    assert forall|k: int| 0 <= k < input.pairs.len() implies input.ids.dom().contains(
        (#[trigger] input.pairs[k]).0,
    ) by {
        let i = choose|i: int| 0 <= i < groups.len() && groups[i].0 == (#[trigger] input.pairs[k]).0;
        assert(is_step(input, groups[i], steps[i]));
        assert(steps[i].updated);
    }
    assert(output.new_ids =~= input.marked) by {
        assert forall|id: u32| output.new_ids.contains(id) implies input.marked.contains(id) by {
            if given_before(steps, steps.len() as int, id) {
                let j = choose|j: int|
                    0 <= j < steps.len() && j < steps.len() && !(#[trigger] steps[j]).updated && steps[j].docid
                        == id;
                assert(steps[j].updated);
            }
        }
    }
}

/// Where no document was in use, or where some but not all documents in
/// use are replaced, the new documents and the documents in use are
/// together as many as the documents handed on exactly when none is
/// replaced.
pub proof fn law_documents_count_without_replacement(input: FinalInput, output: FinalOutput)
    requires
        is_finalized(input, output),
        ids_are_in_order(input),
        input.marked == Set::<u32>::empty(),
        input.used.len() == 0 || 0 < output.replaced_ids.len() < input.used.len(),
    ensures
        output.new_ids.len() + input.used.len() == output.count <==> output.replaced_ids.len() == 0,
{
    law_documents_count(input, output);
}

/// Whether `names` begins with `before`.
pub open spec fn extends(names: Seq<Seq<char>>, before: Seq<Seq<char>>) -> bool {
    before.len() <= names.len() && forall|i: int| 0 <= i < before.len() ==> names[i] == before[i]
}

/// The registry only grows while the steps are taken.
pub proof fn lemma_names_grow(input: FinalInput, groups: Seq<Group>, steps: Seq<Step>, upto: int)
    requires
        is_trace(input, groups, steps),
        0 <= upto <= steps.len(),
    ensures
        extends(crate::finalize::names_after(input.names, steps.take(upto)), input.names),
        forall|i: int|
            0 <= i < upto ==> extends(
                crate::finalize::names_after(input.names, steps.take(upto)),
                (#[trigger] steps[i]).names_after,
            ) && extends(steps[i].names_after, steps[i].names),
    decreases upto,
{
    if upto > 0 {
        lemma_names_grow(input, groups, steps, upto - 1);
        let step = steps[upto - 1];
        assert(is_step(input, groups[upto - 1], step));
        assert(step.names == crate::finalize::names_after(input.names, steps.take(upto - 1)));
        let fields = crate::json::flattened(
            crate::finalize::named_entries(step.names, crate::record::record_entries(step.record)),
        );
        crate::fields_mapping::lemma_with_names_extends(step.names, crate::finalize::field_names(fields));
        assert(steps.take(upto).last() == step);
        let now = crate::finalize::names_after(input.names, steps.take(upto));
        assert(now == step.names_after);
        assert forall|i: int| 0 <= i < upto implies extends(now, (#[trigger] steps[i]).names_after) && extends(
            steps[i].names_after,
            steps[i].names,
        ) by {
            if i < upto - 1 {
                assert(extends(step.names, steps[i].names_after));
            }
        }
    }
}

/// Whether every record of `written` holds its fields in ascending order
/// of their ids, no id coming twice, and holds no field that the
/// registry `names` has no name for.
pub open spec fn holds_sound_records(written: Seq<Pair>, names: Seq<Seq<char>>) -> bool {
    forall|i: int|
        0 <= i < written.len() ==> crate::record::is_ascending(
            crate::record::record_entries((#[trigger] written[i]).1),
        ) && crate::finalize::all_named(names, crate::record::record_entries(written[i].1))
}

/// Every record that is handed on, whether as it is stored or flattened,
/// holds its fields in strictly ascending order of their ids, and the
/// registry that is handed on names each of these ids.
pub proof fn law_records_are_sound(input: FinalInput, output: FinalOutput)
    requires
        is_finalized(input, output),
    ensures
        exists|written: Seq<Pair>|
            Some(output.original) == #[trigger] written_stream(input.setup, written) && holds_sound_records(
                written,
                output.names,
            ),
        exists|written: Seq<Pair>|
            Some(output.flattened) == #[trigger] written_stream(input.setup, written) && holds_sound_records(
                written,
                output.names,
            ),
{
    let (groups, steps) = choose|groups: Seq<Group>, steps: Seq<Step>|
        #[trigger] is_grouping(input.pairs, groups) && #[trigger] is_trace(input, groups, steps)
            && is_outcome(input, steps, output);
    lemma_names_grow(input, groups, steps, steps.len() as int);
    assert(steps.take(steps.len() as int) =~= steps);
    let originals = original_pairs(steps);
    let flats = crate::finalize::flattened_pairs(steps);
    assert forall|k: int| 0 <= k < steps.len() implies crate::record::is_ascending(
        crate::record::record_entries((#[trigger] originals[k]).1),
    ) && crate::finalize::all_named(output.names, crate::record::record_entries(originals[k].1)) by {
        assert(is_step(input, groups[k], steps[k]));
        assert(extends(output.names, steps[k].names_after));
        assert(extends(steps[k].names_after, steps[k].names));
    }
    assert forall|k: int| 0 <= k < steps.len() implies crate::record::is_ascending(
        crate::record::record_entries((#[trigger] flats[k]).1),
    ) && crate::finalize::all_named(output.names, crate::record::record_entries(flats[k].1)) by {
        assert(is_step(input, groups[k], steps[k]));
        assert(extends(output.names, steps[k].names_after));
        lemma_flattened_is_named(steps[k]);
    }
    let original = lemma_stream_is_sound(input.setup, originals, output.original, output.names);
    let flattened = lemma_stream_is_sound(input.setup, flats, output.flattened, output.names);
}

/// The registry names the fields of a flattened record.
proof fn lemma_flattened_is_named(step: Step)
    requires
        crate::finalize::is_flattened_record(
            step.names,
            step.names_after,
            crate::record::record_entries(step.record),
            step.flattened,
        ),
    ensures
        crate::finalize::all_named(step.names_after, crate::record::record_entries(step.flattened)),
{
    broadcast use vstd::seq_lib::group_to_multiset_ensures;

    let fields = crate::json::flattened(
        crate::finalize::named_entries(step.names, crate::record::record_entries(step.record)),
    );
    let wanted = crate::finalize::identified(step.names_after, fields);
    let entries = crate::record::record_entries(step.flattened);
    assert forall|i: int| 0 <= i < entries.len() implies (#[trigger] entries[i]).0 < step.names_after.len() by {
        assert(entries.contains(entries[i]));
        assert(wanted.to_multiset().count(entries[i]) > 0);
        assert(wanted.contains(entries[i]));
        let k = choose|k: int| 0 <= k < wanted.len() && wanted[k] == entries[i];
        assert(crate::fields_ids_map::has_name(step.names_after, fields[k].0));
    }
}

/// A stream of sound records holds sound records only.
proof fn lemma_stream_is_sound(
    setup: (crate::config::ChunkCompressionType, u32),
    pairs: Seq<Pair>,
    bytes: Seq<u8>,
    names: Seq<Seq<char>>,
) -> (written: Seq<Pair>)
    requires
        is_stream_of(setup, pairs, bytes),
        holds_sound_records(pairs, names),
    ensures
        Some(bytes) == written_stream(setup, written),
        holds_sound_records(written, names),
{
    let written = lemma_stream_holds_pairs(setup, pairs, bytes);
    assert forall|i: int| 0 <= i < written.len() implies crate::record::is_ascending(
        crate::record::record_entries((#[trigger] written[i]).1),
    ) && crate::finalize::all_named(names, crate::record::record_entries(written[i].1)) by {
        assert(is_one_of(written[i], pairs));
        let k = choose|k: int| 0 <= k < pairs.len() && pairs[k] == written[i];
        assert(crate::record::is_ascending(crate::record::record_entries(pairs[k].1)));
    }
    written
}

/// The value of a field that is looked up is the value of one of the
/// fields.
proof fn lemma_field_value(fields: Seq<crate::record::Entry>, key: crate::fields_ids_map::FieldId)
    requires
        crate::transform::field_value(fields, key) is Some,
    ensures
        exists|at: int| 0 <= at < fields.len() && fields[at] == (key, crate::transform::field_value(fields, key)->0),
    decreases fields.len(),
{
    if fields[0].0 == key {
        assert(fields[0] == (key, crate::transform::field_value(fields, key)->0));
    } else {
        let rest = fields.drop_first();
        lemma_field_value(rest, key);
        let at = choose|at: int|
            0 <= at < rest.len() && rest[at] == (key, crate::transform::field_value(rest, key)->0);
        assert(fields[at + 1] == rest[at]);
    }
}

/// The record of a document that was read holds, under the primary key,
/// a value that stands for the external id of the document. Where the
/// document came with a value under the primary key, the record holds
/// this very value.
pub proof fn law_primary_key_round_trip(
    fields: Seq<crate::record::Entry>,
    primary_key: crate::fields_ids_map::FieldId,
    autogenerate_docids: bool,
    pair: Pair,
)
    requires
        crate::transform::is_document_pair(fields, primary_key, autogenerate_docids, pair),
    ensures
        pair.0 == vstd::utf8::encode_utf8(crate::transform::decoded_id(pair.0)),
        crate::record::record_get(crate::record::record_entries(pair.1), primary_key) is Some,
        crate::transform::field_value(fields, primary_key) is Some ==> crate::record::record_get(
            crate::record::record_entries(pair.1),
            primary_key,
        ) == crate::transform::field_value(fields, primary_key) && crate::transform::external_id_of(
            crate::transform::field_value(fields, primary_key)->0,
        ) == crate::transform::ExternalId::Id(crate::transform::decoded_id(pair.0)),
        crate::transform::field_value(fields, primary_key) is None ==> crate::record::record_get(
            crate::record::record_entries(pair.1),
            primary_key,
        ) == Some(crate::json::json_text(crate::transform::decoded_id(pair.0))),
        !autogenerate_docids ==> crate::transform::field_value(fields, primary_key) is Some,
{
    broadcast use vstd::seq_lib::group_to_multiset_ensures;

    let entries = crate::record::record_entries(pair.1);
    if crate::transform::field_value(fields, primary_key) is Some {
        lemma_field_value(fields, primary_key);
        let at = choose|at: int|
            0 <= at < fields.len() && fields[at] == (
                primary_key,
                crate::transform::field_value(fields, primary_key)->0,
            );
        assert(fields.contains(fields[at]));
        assert(entries.to_multiset().count(fields[at]) > 0);
        assert(entries.contains(fields[at]));
        let m = choose|m: int| 0 <= m < entries.len() && entries[m] == fields[at];
        crate::record::lemma_record_get(entries, m);
    } else {
        let added = (primary_key, crate::json::json_text(crate::transform::decoded_id(pair.0)));
        let all = fields.push(added);
        assert(all[fields.len() as int] == added);
        assert(all.contains(added));
        assert(entries.to_multiset().count(added) > 0);
        assert(entries.contains(added));
        let m = choose|m: int| 0 <= m < entries.len() && entries[m] == added;
        crate::record::lemma_record_get(entries, m);
    }
}

/// Where a document came with a string under the primary key that has no
/// whitespace around it, this string is the external id of the document
/// and the record holds it under the primary key.
pub proof fn law_plain_id_is_kept(
    fields: Seq<crate::record::Entry>,
    primary_key: crate::fields_ids_map::FieldId,
    autogenerate_docids: bool,
    pair: Pair,
    text: Seq<char>,
)
    requires
        crate::transform::is_document_pair(fields, primary_key, autogenerate_docids, pair),
        crate::transform::field_value(fields, primary_key) matches Some(value) && crate::json::parsed_json(
            value,
        ) == Some(crate::json::JsonShape::Text(text)),
        crate::text::trimmed(text) == text,
    ensures
        pair.0 == vstd::utf8::encode_utf8(text),
        crate::record::record_get(crate::record::record_entries(pair.1), primary_key) matches Some(value)
            && crate::json::parsed_json(value) == Some(crate::json::JsonShape::Text(text)),
{
    law_primary_key_round_trip(fields, primary_key, autogenerate_docids, pair);
}

/// The registry names every field of the record of a document that was
/// read, if it names the primary key and the fields that the document
/// came with.
pub proof fn law_read_fields_are_named(
    names: Seq<Seq<char>>,
    fields: Seq<crate::record::Entry>,
    primary_key: crate::fields_ids_map::FieldId,
    autogenerate_docids: bool,
    pair: Pair,
)
    requires
        crate::transform::is_document_pair(fields, primary_key, autogenerate_docids, pair),
        crate::finalize::all_named(names, fields),
        primary_key < names.len(),
    ensures
        crate::finalize::all_named(names, crate::record::record_entries(pair.1)),
{
    broadcast use vstd::seq_lib::group_to_multiset_ensures;

    let entries = crate::record::record_entries(pair.1);
    let all = if crate::transform::field_value(fields, primary_key) is Some {
        fields
    } else {
        fields.push((primary_key, crate::json::json_text(crate::transform::decoded_id(pair.0))))
    };
    assert forall|i: int| 0 <= i < entries.len() implies (#[trigger] entries[i]).0 < names.len() by {
        assert(entries.contains(entries[i]));
        assert(all.to_multiset().count(entries[i]) > 0);
        assert(all.contains(entries[i]));
        let k = choose|k: int| 0 <= k < all.len() && all[k] == entries[i];
        if k < fields.len() {
            assert(all[k] == fields[k]);
        }
    }
}

/// When a known document is updated, the record to store holds every
/// field that comes in with the value that comes in, and every other
/// field of the stored record with its stored value. So no field is
/// lost, and a field keeps its value unless another value comes in for
/// it.
pub proof fn law_update_keeps_fields(input: FinalInput, group: Group, step: Step, key: crate::fields_ids_map::FieldId)
    requires
        is_step(input, group, step),
        input.method == crate::config::IndexDocumentsMethod::UpdateDocuments,
        step.updated,
    ensures
        ({
            let stored = crate::record::record_get(
                crate::record::record_entries(input.documents[step.docid]),
                key,
            );
            let incoming = crate::record::record_get(crate::record::record_entries(step.incoming), key);
            let kept = crate::record::record_get(crate::record::record_entries(step.record), key);
            &&& incoming is Some ==> kept == incoming
            &&& incoming is None ==> kept == stored
            &&& stored is Some ==> kept is Some
            &&& (stored is Some && (incoming is None || incoming == stored)) ==> kept == stored
        }),
{
    crate::merge::lemma_merged_record_get(
        crate::record::record_entries(input.documents[step.docid]),
        crate::record::record_entries(step.incoming),
        key,
    );
}

/// When documents are replaced, the record to store is the record that
/// comes in, whatever is stored, and what comes in for an external id is
/// the record of the document that was read last under this id.
pub proof fn law_replace_stores_the_last(input: FinalInput, group: Group, step: Step)
    requires
        is_step(input, group, step),
        input.method == crate::config::IndexDocumentsMethod::ReplaceDocuments,
        input.policy == MergePolicy::KeepLatest,
    ensures
        group.1.len() > 0 ==> step.record == group.1.last(),
{
}

/// Whether `record` holds, under the field `primary_key`, a value that
/// stands for the external id whose bytes are `key`, its fields being in
/// ascending order.
pub open spec fn holds_external_id(record: Seq<u8>, primary_key: crate::fields_ids_map::FieldId, key: Seq<u8>) -> bool {
    let entries = crate::record::record_entries(record);
    &&& crate::record::is_ascending(entries)
    &&& crate::record::record_get(entries, primary_key) is Some
    &&& crate::transform::external_id_of(crate::record::record_get(entries, primary_key)->0)
        == crate::transform::ExternalId::Id(crate::transform::decoded_id(key))
}

/// The record of a document that was read with a value under the primary
/// key holds a value that stands for its external id.
pub proof fn law_read_record_holds_its_id(
    fields: Seq<crate::record::Entry>,
    primary_key: crate::fields_ids_map::FieldId,
    autogenerate_docids: bool,
    pair: Pair,
)
    requires
        crate::transform::is_document_pair(fields, primary_key, autogenerate_docids, pair),
        crate::transform::field_value(fields, primary_key) is Some,
    ensures
        holds_external_id(pair.1, primary_key, pair.0),
{
    law_primary_key_round_trip(fields, primary_key, autogenerate_docids, pair);
}

/// The record that is stored for an external id holds, under the primary
/// key, a value that stands for this external id, if the record of every
/// document that was read under this id does.
pub proof fn law_stored_record_holds_its_id(
    input: FinalInput,
    group: Group,
    step: Step,
    primary_key: crate::fields_ids_map::FieldId,
)
    requires
        is_step(input, group, step),
        input.policy == crate::transform::batch_policy(input.method),
        group.1.len() > 0,
        forall|i: int| 0 <= i < group.1.len() ==> holds_external_id(#[trigger] group.1[i], primary_key, group.0),
    ensures
        holds_external_id(step.record, primary_key, step.external_id),
{
    let values = group.1;
    assert(holds_external_id(values[values.len() - 1], primary_key, group.0));
    assert(holds_external_id(values[0], primary_key, group.0));
    if input.method == crate::config::IndexDocumentsMethod::UpdateDocuments {
        let records = crate::merge::records_of(values);
        assert forall|i: int| 0 <= i < records.len() implies crate::record::is_ascending(#[trigger] records[i])
            && crate::record::record_get(records[i], primary_key) is Some by {
            assert(holds_external_id(values[i], primary_key, group.0));
        }
        crate::merge::lemma_merged_records_last(records, primary_key);
        assert(records.last() == crate::record::record_entries(values.last()));
        let incoming = crate::record::record_entries(step.incoming);
        assert(crate::record::record_get(incoming, primary_key) == crate::record::record_get(
            crate::record::record_entries(values.last()),
            primary_key,
        )) by {
            if values.len() == 1 {
                assert(step.incoming == values[0]);
            }
        }
        if step.updated {
            crate::merge::lemma_merged_record_get(
                crate::record::record_entries(input.documents[step.docid]),
                incoming,
                primary_key,
            );
        }
    }
}

} // verus!
