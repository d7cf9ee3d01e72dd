use crate::bytes::{bytes_lt, lemma_bytes_lt_irreflexive, lemma_bytes_lt_transitive};
use crate::config::ChunkCompressionType;
use crate::external_documents_ids::{is_listing, lemma_listing_unique};
use crate::fields_ids_map::FieldId;
use crate::finalize::{
    flattened_pairs, given_before, given_entries, is_finalized, is_lowest_free, is_outcome,
    is_step, is_stream_of, is_trace, names_after, original_pairs, FinalInput, FinalOutput, Step,
};
use crate::laws::lemma_values_for;
use crate::merge::MergePolicy;
use crate::order::{is_sorted_by, is_strict_order, lemma_sorted_unique};
use crate::record::{record_entries, Entry};
use crate::sorter::{is_grouping, is_merging, values_for, Group, Pair};
use crate::stream::written_stream;
use crate::transform::{
    field_value, is_document_pair, is_inferred_primary_key, is_record_of,
    is_resolved_primary_key,
};
use vstd::prelude::*;

verus! {

/// The order of groups: that of their keys.
pub open spec fn group_before() -> spec_fn(Group, Group) -> bool {
    |a: Group, b: Group| bytes_lt(a.0, b.0)
}

/// The order of fields: that of their ids.
pub open spec fn entry_before() -> spec_fn(Entry, Entry) -> bool {
    |a: Entry, b: Entry| a.0 < b.0
}

proof fn lemma_group_order()
    ensures
        is_strict_order(group_before()),
{
    assert forall|x: Group| !#[trigger] group_before()(x, x) by {
        lemma_bytes_lt_irreflexive(x.0);
    }
    assert forall|x: Group, y: Group, z: Group| #[trigger]
        group_before()(x, y) && #[trigger] group_before()(y, z) implies group_before()(x, z) by {
        lemma_bytes_lt_transitive(x.0, y.0, z.0);
    }
}

/// Pairs are gathered by key in one way only.
pub proof fn lemma_grouping_unique(pairs: Seq<Pair>, a: Seq<Group>, b: Seq<Group>)
    requires
        is_grouping(pairs, a),
        is_grouping(pairs, b),
    ensures
        a == b,
{
    lemma_group_order();
    lemma_grouping_holds(pairs, a, b);
    lemma_grouping_holds(pairs, b, a);
    assert(is_sorted_by(a, group_before()));
    assert(is_sorted_by(b, group_before()));
    lemma_sorted_unique(a, b, group_before());
}

/// Every group of one grouping is a group of any other.
proof fn lemma_grouping_holds(pairs: Seq<Pair>, a: Seq<Group>, b: Seq<Group>)
    requires
        is_grouping(pairs, a),
        is_grouping(pairs, b),
    ensures
        forall|group: Group| a.contains(group) ==> b.contains(group),
{
    assert forall|group: Group| a.contains(group) implies b.contains(group) by {
        let i = choose|i: int| 0 <= i < a.len() && a[i] == group;
        assert(a[i].1.len() > 0 && a[i].1 == values_for(pairs, a[i].0));
        lemma_values_for(pairs, group.0, 0);
        let k = choose|k: int| 0 <= k < pairs.len() && pairs[k] == (group.0, values_for(pairs, group.0)[0]);
        let j = choose|j: int| 0 <= j < b.len() && b[j].0 == (#[trigger] pairs[k]).0;
        assert(b[j].1 == values_for(pairs, b[j].0));
        assert(b[j] == group);
    }
}

/// A stream is made of pairs in one way only.
pub proof fn lemma_stream_unique(
    setup: (ChunkCompressionType, u32),
    pairs: Seq<Pair>,
    a: Seq<u8>,
    b: Seq<u8>,
)
    requires
        is_stream_of(setup, pairs, a),
        is_stream_of(setup, pairs, b),
    ensures
        a == b,
{
    let (groups_a, written_a) = choose|groups: Seq<Group>, written: Seq<Pair>|
        #[trigger] is_grouping(pairs, groups) && #[trigger] is_merging(
            MergePolicy::ForbidDuplicates,
            groups,
            written,
        ) && Some(a) == written_stream(setup, written);
    let (groups_b, written_b) = choose|groups: Seq<Group>, written: Seq<Pair>|
        #[trigger] is_grouping(pairs, groups) && #[trigger] is_merging(
            MergePolicy::ForbidDuplicates,
            groups,
            written,
        ) && Some(b) == written_stream(setup, written);
    lemma_grouping_unique(pairs, groups_a, groups_b);
    assert(written_a =~= written_b) by {
        assert forall|i: int| 0 <= i < written_a.len() implies written_a[i] == written_b[i] by {
            assert(written_a[i].0 == written_b[i].0);
            assert(Some(written_a[i].1) == Some(written_b[i].1));
        }
    }
}

/// Fields make one record only.
pub proof fn lemma_record_unique(fields: Seq<Entry>, a: Seq<u8>, b: Seq<u8>)
    requires
        is_record_of(a, fields),
        is_record_of(b, fields),
    ensures
        a == b,
{
    broadcast use vstd::seq_lib::group_to_multiset_ensures;

    let x = record_entries(a);
    let y = record_entries(b);
    assert(is_strict_order(entry_before()));
    assert(is_sorted_by(x, entry_before()));
    assert(is_sorted_by(y, entry_before()));
    assert forall|entry: Entry| x.contains(entry) <==> y.contains(entry) by {
        assert(x.to_multiset().count(entry) == y.to_multiset().count(entry));
    }
    lemma_sorted_unique(x, y, entry_before());
}

/// A document with a value under the primary key is given to the sorter
/// as one pair only: what is read depends on the document alone.
///
/// A document without such a value is left out: the identifier that it
/// gets is drawn at random.
pub proof fn law_same_document_same_pair(
    fields: Seq<Entry>,
    primary_key: FieldId,
    autogenerate_docids: bool,
    a: Pair,
    b: Pair,
)
    requires
        is_document_pair(fields, primary_key, autogenerate_docids, a),
        is_document_pair(fields, primary_key, autogenerate_docids, b),
        field_value(fields, primary_key) is Some,
    ensures
        a == b,
{
    lemma_record_unique(fields, a.1, b.1);
}

/// The documents of a batch that all come with a value under the primary
/// key are given to the sorter as the same pairs whenever they are read
/// with the same registry.
pub proof fn law_same_batch_same_pairs(
    documents: Seq<Seq<Entry>>,
    primary_key: FieldId,
    autogenerate_docids: bool,
    a: Seq<Pair>,
    b: Seq<Pair>,
)
    requires
        a.len() == documents.len(),
        b.len() == documents.len(),
        forall|i: int|
            0 <= i < documents.len() ==> is_document_pair(
                #[trigger] documents[i],
                primary_key,
                autogenerate_docids,
                a[i],
            ) && is_document_pair(documents[i], primary_key, autogenerate_docids, b[i]),
        forall|i: int| 0 <= i < documents.len() ==> field_value(#[trigger] documents[i], primary_key) is Some,
    ensures
        a == b,
{
    assert forall|i: int| 0 <= i < documents.len() implies a[i] == b[i] by {
        assert(field_value(documents[i], primary_key) is Some);
        law_same_document_same_pair(documents[i], primary_key, autogenerate_docids, a[i], b[i]);
    }
    assert(a =~= b);
}

/// A batch resolves to one primary key only.
pub proof fn law_same_batch_same_primary_key(
    stored: Option<Seq<char>>,
    batch: Map<FieldId, Seq<char>>,
    autogenerate_docids: bool,
    a: Option<Seq<char>>,
    b: Option<Seq<char>>,
)
    requires
        is_resolved_primary_key(stored, batch, autogenerate_docids, a),
        is_resolved_primary_key(stored, batch, autogenerate_docids, b),
    ensures
        a == b,
{
    if stored is None {
        let x = choose|inferred: Option<Seq<char>>|
            #[trigger] is_inferred_primary_key(batch, inferred) && a == crate::primary_key::primary_key_name(
                None,
                inferred,
                autogenerate_docids,
            );
        let y = choose|inferred: Option<Seq<char>>|
            #[trigger] is_inferred_primary_key(batch, inferred) && b == crate::primary_key::primary_key_name(
                None,
                inferred,
                autogenerate_docids,
            );
        lemma_inferred_unique(batch, x, y);
    }
}

/// One name only is inferred from a batch.
proof fn lemma_inferred_unique(batch: Map<FieldId, Seq<char>>, a: Option<Seq<char>>, b: Option<Seq<char>>)
    requires
        is_inferred_primary_key(batch, a),
        is_inferred_primary_key(batch, b),
    ensures
        a == b,
{
    match (a, b) {
        (Some(x), Some(y)) => {
            let i = choose|id: FieldId|
                {
                    &&& batch.dom().contains(id)
                    &&& #[trigger] batch[id] == x
                    &&& crate::primary_key::is_primary_key_candidate(x)
                    &&& forall|lower: FieldId|
                        lower < id && batch.dom().contains(lower)
                            ==> !crate::primary_key::is_primary_key_candidate(#[trigger] batch[lower])
                };
            let j = choose|id: FieldId|
                {
                    &&& batch.dom().contains(id)
                    &&& #[trigger] batch[id] == y
                    &&& crate::primary_key::is_primary_key_candidate(y)
                    &&& forall|lower: FieldId|
                        lower < id && batch.dom().contains(lower)
                            ==> !crate::primary_key::is_primary_key_candidate(#[trigger] batch[lower])
                };
            if i < j {
                assert(!crate::primary_key::is_primary_key_candidate(batch[i]));
            }
            if j < i {
                assert(!crate::primary_key::is_primary_key_candidate(batch[j]));
            }
        },
        (Some(x), None) => {
            let i = choose|id: FieldId|
                {
                    &&& batch.dom().contains(id)
                    &&& #[trigger] batch[id] == x
                    &&& crate::primary_key::is_primary_key_candidate(x)
                    &&& forall|lower: FieldId|
                        lower < id && batch.dom().contains(lower)
                            ==> !crate::primary_key::is_primary_key_candidate(#[trigger] batch[lower])
                };
            assert(!crate::primary_key::is_primary_key_candidate(batch[i]));
        },
        (None, Some(y)) => {
            let j = choose|id: FieldId|
                {
                    &&& batch.dom().contains(id)
                    &&& #[trigger] batch[id] == y
                    &&& crate::primary_key::is_primary_key_candidate(y)
                    &&& forall|lower: FieldId|
                        lower < id && batch.dom().contains(lower)
                            ==> !crate::primary_key::is_primary_key_candidate(#[trigger] batch[lower])
                };
            assert(!crate::primary_key::is_primary_key_candidate(batch[j]));
        },
        (None, None) => {},
    }
}

/// Two runs of steps over the same groups agree on their first `n` steps.
proof fn lemma_trace_prefix(input: FinalInput, groups: Seq<Group>, a: Seq<Step>, b: Seq<Step>, n: int)
    requires
        is_trace(input, groups, a),
        is_trace(input, groups, b),
        0 <= n <= groups.len(),
    ensures
        a.take(n) == b.take(n),
    decreases n,
{
    if n == 0 {
        assert(a.take(0) =~= b.take(0));
    } else {
        let i = n - 1;
        lemma_trace_prefix(input, groups, a, b, i);
        assert(is_step(input, groups[i], a[i]));
        assert(is_step(input, groups[i], b[i]));
        assert(a[i].names == names_after(input.names, a.take(i)));
        assert(b[i].names == names_after(input.names, b.take(i)));
        assert(a[i].updated == b[i].updated);
        assert(Some(a[i].incoming) == Some(b[i].incoming));
        assert(a[i].docid == b[i].docid) by {
            if !a[i].updated {
                assert(is_lowest_free(input.used, a, i));
                assert(is_lowest_free(input.used, b, i));
                lemma_given_before_prefix(a, b, i);
                if a[i].docid < b[i].docid {
                    assert(input.used.contains(a[i].docid) || given_before(b, i, a[i].docid));
                    assert(given_before(a, i, a[i].docid));
                }
                if b[i].docid < a[i].docid {
                    assert(input.used.contains(b[i].docid) || given_before(a, i, b[i].docid));
                    assert(given_before(b, i, b[i].docid));
                }
            }
        }
        assert(a[i].record == b[i].record);
        assert(a[i].names_after == b[i].names_after);
        lemma_flattened_unique(a[i], b[i]);
        assert(a[i] == b[i]);
        assert(a.take(n) =~= a.take(i).push(a[i]));
        assert(b.take(n) =~= b.take(i).push(b[i]));
    }
}

/// A record is flattened in one way only.
proof fn lemma_flattened_unique(a: Step, b: Step)
    requires
        a.names == b.names,
        a.names_after == b.names_after,
        a.record == b.record,
        crate::finalize::is_flattened_record(a.names, a.names_after, record_entries(a.record), a.flattened),
        crate::finalize::is_flattened_record(b.names, b.names_after, record_entries(b.record), b.flattened),
    ensures
        a.flattened == b.flattened,
{
    let fields = crate::json::flattened(crate::finalize::named_entries(a.names, record_entries(a.record)));
    lemma_record_unique(crate::finalize::identified(a.names_after, fields), a.flattened, b.flattened);
}

/// Steps that agree up to a place gave the same ids before it.
proof fn lemma_given_before_prefix(a: Seq<Step>, b: Seq<Step>, upto: int)
    requires
        0 <= upto <= a.len(),
        upto <= b.len(),
        a.take(upto) == b.take(upto),
    ensures
        forall|id: u32| given_before(a, upto, id) <==> given_before(b, upto, id),
{
    assert forall|id: u32| given_before(a, upto, id) <==> given_before(b, upto, id) by {
        if given_before(a, upto, id) {
            let j = choose|j: int|
                0 <= j < upto && j < a.len() && !(#[trigger] a[j]).updated && a[j].docid == id;
            assert(a.take(upto)[j] == a[j] && b.take(upto)[j] == b[j]);
            assert(!b[j].updated && b[j].docid == id);
        }
        if given_before(b, upto, id) {
            let j = choose|j: int|
                0 <= j < upto && j < b.len() && !(#[trigger] b[j]).updated && b[j].docid == id;
            assert(a.take(upto)[j] == a[j] && b.take(upto)[j] == b[j]);
            assert(!a[j].updated && a[j].docid == id);
        }
    }
}

/// What finalizing hands on depends on what it starts from alone: the
/// same documents, with the same index, lead to the same streams, byte
/// for byte, and to the same ids, registry and counts.
pub proof fn law_same_input_same_output(input: FinalInput, a: FinalOutput, b: FinalOutput)
    requires
        is_finalized(input, a),
        is_finalized(input, b),
    ensures
        a.original == b.original,
        a.flattened == b.flattened,
        a.count == b.count,
        a.names == b.names,
        a.ids == b.ids,
        a.new_ids == b.new_ids,
        a.replaced_ids == b.replaced_ids,
        forall|name: Seq<char>| #[trigger] a.counts[name] == b.counts[name],
        a.total == b.total,
{
    let (groups_a, steps_a) = choose|groups: Seq<Group>, steps: Seq<Step>|
        #[trigger] is_grouping(input.pairs, groups) && #[trigger] is_trace(input, groups, steps)
            && is_outcome(input, steps, a);
    let (groups_b, steps_b) = choose|groups: Seq<Group>, steps: Seq<Step>|
        #[trigger] is_grouping(input.pairs, groups) && #[trigger] is_trace(input, groups, steps)
            && is_outcome(input, steps, b);
    lemma_grouping_unique(input.pairs, groups_a, groups_b);
    lemma_trace_prefix(input, groups_a, steps_a, steps_b, groups_a.len() as int);
    assert(steps_a.take(groups_a.len() as int) =~= steps_a);
    assert(steps_b.take(groups_a.len() as int) =~= steps_b);
    lemma_outcome_unique(input, steps_a, a, b);
}

/// Steps lead to one outcome only.
proof fn lemma_outcome_unique(input: FinalInput, steps: Seq<Step>, a: FinalOutput, b: FinalOutput)
    requires
        is_outcome(input, steps, a),
        is_outcome(input, steps, b),
    ensures
        a.original == b.original,
        a.flattened == b.flattened,
        a.count == b.count,
        a.names == b.names,
        a.ids == b.ids,
        a.new_ids == b.new_ids,
        a.replaced_ids == b.replaced_ids,
        forall|name: Seq<char>| #[trigger] a.counts[name] == b.counts[name],
        a.total == b.total,
{
    lemma_stream_unique(input.setup, original_pairs(steps), a.original, b.original);
    lemma_stream_unique(input.setup, flattened_pairs(steps), a.flattened, b.flattened);
    let given_a = choose|given: Map<Seq<u8>, u64>|
        #[trigger] is_listing(given_entries(steps), given) && a.ids == input.ids.union_prefer_right(given);
    let given_b = choose|given: Map<Seq<u8>, u64>|
        #[trigger] is_listing(given_entries(steps), given) && b.ids == input.ids.union_prefer_right(given);
    lemma_listing_unique(given_entries(steps), given_a, given_b);
    assert(a.new_ids =~= b.new_ids);
    assert(a.replaced_ids =~= b.replaced_ids);
}

} // verus!
