use crate::bytes::{bytes_lt, lemma_bytes_lt_irreflexive};
use crate::finalize::{
    all_named, base_entries, base_record, count_with, count_without, counted, counts_after,
    counts_without, given_before, holds_name, is_lowest_free, is_step, is_trace, names_after,
    total_after, uncounted, FinalInput, Step,
};
use crate::laws::{extends, ids_are_in_order};
use crate::record::{is_ascending, record_entries, Entry};
use crate::sorter::{is_grouping, Group};
use vstd::prelude::*;

verus! {

/// The internal ids of the stored documents that hold the field `name`.
pub open spec fn holders(names: Seq<Seq<char>>, documents: Map<u32, Seq<u8>>, name: Seq<char>) -> Set<u32> {
    Set::new(|id: u32| documents.dom().contains(id) && holds_name(names, record_entries(documents[id]), name))
}

/// Whether every stored record holds its fields in ascending order of
/// their ids and holds no field that the registry has no name for.
pub open spec fn is_sound_store(names: Seq<Seq<char>>, documents: Map<u32, Seq<u8>>) -> bool {
    forall|id: u32|
        documents.dom().contains(id) ==> is_ascending(record_entries(#[trigger] documents[id])) && all_named(
            names,
            record_entries(documents[id]),
        )
}

/// Whether the count of every field is the number of stored documents
/// that hold the field.
pub open spec fn counts_match(counts: Map<Seq<char>, u64>, names: Seq<Seq<char>>, documents: Map<u32, Seq<u8>>) -> bool {
    forall|name: Seq<char>| #[trigger] counts[name] == holders(names, documents, name).len()
}

/// The number of fields of the stored documents with an internal id below
/// `bound`, each field counted once for each document that holds it.
pub open spec fn fields_below(documents: Map<u32, Seq<u8>>, bound: int) -> nat
    decreases bound,
{
    if bound <= 0 {
        0
    } else if documents.dom().contains((bound - 1) as u32) {
        fields_below(documents, bound - 1) + record_entries(documents[(bound - 1) as u32]).len()
    } else {
        fields_below(documents, bound - 1)
    }
}

/// The number of fields of all the stored documents: the number of pairs
/// of a document and a field that the document holds.
pub open spec fn stored_fields(documents: Map<u32, Seq<u8>>) -> nat {
    fields_below(documents, 0x1_0000_0000)
}

/// The stored documents once the records that `steps` hand on are stored.
pub open spec fn stored_after(documents: Map<u32, Seq<u8>>, steps: Seq<Step>) -> Map<u32, Seq<u8>>
    decreases steps.len(),
{
    if steps.len() == 0 {
        documents
    } else {
        stored_after(documents, steps.drop_last()).insert(steps.last().docid, steps.last().record)
    }
}

/// The number of fields that a document holds, or zero for a document
/// that is not stored.
pub open spec fn fields_of(documents: Map<u32, Seq<u8>>, id: u32) -> nat {
    if documents.dom().contains(id) {
        record_entries(documents[id]).len()
    } else {
        0
    }
}

/// Storing a record changes the number of stored fields by the fields of
/// the record, less those of the record that it takes the place of.
proof fn lemma_fields_below_insert(documents: Map<u32, Seq<u8>>, id: u32, record: Seq<u8>, bound: int)
    requires
        0 <= bound <= 0x1_0000_0000,
    ensures
        fields_below(documents.insert(id, record), bound) == (if id < bound {
            fields_below(documents, bound) - fields_of(documents, id) + record_entries(record).len()
        } else {
            fields_below(documents, bound) as int
        }),
        id < bound ==> fields_below(documents, bound) >= fields_of(documents, id),
    decreases bound,
{
    if bound > 0 {
        lemma_fields_below_insert(documents, id, record, bound - 1);
        let at = (bound - 1) as u32;
        let after = documents.insert(id, record);
        if at != id {
            assert(after.dom().contains(at) == documents.dom().contains(at));
            if documents.dom().contains(at) {
                assert(after[at] == documents[at]);
            }
        }
    }
}

/// Storing a record changes the number of stored fields by the fields of
/// the record, less those of the record that it takes the place of.
pub proof fn lemma_stored_fields_insert(documents: Map<u32, Seq<u8>>, id: u32, record: Seq<u8>)
    ensures
        stored_fields(documents.insert(id, record)) == stored_fields(documents) - fields_of(documents, id)
            + record_entries(record).len(),
        stored_fields(documents) >= fields_of(documents, id),
{
    lemma_fields_below_insert(documents, id, record, 0x1_0000_0000);
}

/// Where every field has a count above zero, each field takes one off.
pub proof fn lemma_uncounted_all(names: Seq<Seq<char>>, counts: Map<Seq<char>, u64>, entries: Seq<Entry>)
    requires
        forall|i: int| 0 <= i < entries.len() ==> counts[names[(#[trigger] entries[i]).0 as int]] > 0,
    ensures
        uncounted(names, counts, entries) == entries.len(),
    decreases entries.len(),
{
    if entries.len() > 0 {
        let front = entries.drop_last();
        assert forall|i: int| 0 <= i < front.len() implies counts[names[(#[trigger] front[i]).0 as int]]
            > 0 by {
            assert(front[i] == entries[i]);
        }
        lemma_uncounted_all(names, counts, front);
        assert(entries.last() == entries[entries.len() - 1]);
    }
}

/// Where the count of every field can grow, each field adds one.
pub proof fn lemma_counted_all(names: Seq<Seq<char>>, counts: Map<Seq<char>, u64>, entries: Seq<Entry>)
    requires
        forall|i: int| 0 <= i < entries.len() ==> counts[names[(#[trigger] entries[i]).0 as int]] < u64::MAX,
    ensures
        counted(names, counts, entries) == entries.len(),
    decreases entries.len(),
{
    if entries.len() > 0 {
        let front = entries.drop_last();
        assert forall|i: int| 0 <= i < front.len() implies counts[names[(#[trigger] front[i]).0 as int]]
            < u64::MAX by {
            assert(front[i] == entries[i]);
        }
        lemma_counted_all(names, counts, front);
        assert(entries.last() == entries[entries.len() - 1]);
    }
}

/// No set of internal ids has more members than there are internal ids.
pub proof fn lemma_ids_len(ids: Set<u32>)
    ensures
        ids.finite(),
        ids.len() <= 0x1_0000_0000,
{
    let all = vstd::set_lib::set_int_range(0, 0x1_0000_0000);
    vstd::set_lib::lemma_int_range(0, 0x1_0000_0000);
    let image = all.map(|i: int| i as u32);
    all.lemma_map_finite(|i: int| i as u32);
    vstd::set_lib::lemma_map_size_bound(all, image, |i: int| i as u32);
    assert(ids.subset_of(image)) by {
        assert forall|id: u32| ids.contains(id) implies image.contains(id) by {
            assert(all.contains(id as int));
            assert((id as int) as u32 == id);
        }
    }
    vstd::set_lib::lemma_len_subset(ids, image);
}

/// Whether the index is in order: the internal ids of the external ids
/// are in order, the ids in use are those of the stored documents, the
/// stored records are sound, and the field distribution counts the
/// stored documents that hold each field.
pub open spec fn is_consistent(input: FinalInput) -> bool {
    &&& ids_are_in_order(input)
    &&& input.used == input.documents.dom()
    &&& is_sound_store(input.names, input.documents)
    &&& counts_match(input.counts, input.names, input.documents)
    &&& input.total == stored_fields(input.documents)
}

/// A registry that has grown names the fields of a record as before.
proof fn lemma_holds_extends(names: Seq<Seq<char>>, after: Seq<Seq<char>>, entries: Seq<Entry>, name: Seq<char>)
    requires
        extends(after, names),
        all_named(names, entries),
    ensures
        holds_name(after, entries, name) == holds_name(names, entries, name),
        all_named(after, entries),
{
    if holds_name(after, entries, name) {
        let i = choose|i: int|
            0 <= i < entries.len() && (#[trigger] entries[i]).0 < after.len() && after[entries[i].0 as int] == name;
        assert(entries[i].0 < names.len() && names[entries[i].0 as int] == name);
    }
    if holds_name(names, entries, name) {
        let i = choose|i: int|
            0 <= i < entries.len() && (#[trigger] entries[i]).0 < names.len() && names[entries[i].0 as int] == name;
        assert(entries[i].0 < after.len() && after[entries[i].0 as int] == name);
    }
}

/// No two steps hand on a record for the same internal id.
pub proof fn lemma_docids_distinct(input: FinalInput, groups: Seq<Group>, steps: Seq<Step>)
    requires
        is_grouping(input.pairs, groups),
        is_trace(input, groups, steps),
        ids_are_in_order(input),
    ensures
        forall|i: int, j: int| 0 <= i < j < steps.len() ==> (#[trigger] steps[i]).docid != (#[trigger] steps[j]).docid,
{
    assert forall|i: int, j: int| 0 <= i < j < steps.len() implies (#[trigger] steps[i]).docid != (
    #[trigger] steps[j]).docid by {
        assert(is_step(input, groups[i], steps[i]));
        assert(is_step(input, groups[j], steps[j]));
        if steps[i].updated && steps[j].updated {
            assert(bytes_lt(groups[i].0, groups[j].0));
            lemma_bytes_lt_irreflexive(groups[i].0);
            assert(input.ids[groups[i].0] != input.ids[groups[j].0]);
        } else if !steps[i].updated && !steps[j].updated {
            assert(is_lowest_free(input.used, steps, j));
            if steps[i].docid == steps[j].docid {
                assert(given_before(steps, j, steps[j].docid));
            }
        } else if steps[i].updated {
            assert(is_lowest_free(input.used, steps, j));
            assert(input.used.contains(input.ids[groups[i].0] as u32));
        } else {
            assert(is_lowest_free(input.used, steps, i));
            assert(input.used.contains(input.ids[groups[j].0] as u32));
        }
    }
}

/// What is stored after the first steps: the records that they hand on,
/// and the records stored before under the other ids.
pub proof fn lemma_store_prefix(documents: Map<u32, Seq<u8>>, steps: Seq<Step>, upto: int)
    requires
        0 <= upto <= steps.len(),
        forall|i: int, j: int| 0 <= i < j < steps.len() ==> (#[trigger] steps[i]).docid != (#[trigger] steps[j]).docid,
    ensures
        forall|id: u32|
            #[trigger] stored_after(documents, steps.take(upto)).dom().contains(id) <==> documents.dom().contains(
                id,
            ) || exists|j: int| 0 <= j < upto && (#[trigger] steps[j]).docid == id,
        forall|id: u32|
            documents.dom().contains(id) && (forall|j: int| 0 <= j < upto ==> (#[trigger] steps[j]).docid != id)
                ==> #[trigger] stored_after(documents, steps.take(upto))[id] == documents[id],
        forall|j: int|
            0 <= j < upto ==> stored_after(documents, steps.take(upto))[(#[trigger] steps[j]).docid]
                == steps[j].record,
    decreases upto,
{
    let store = stored_after(documents, steps.take(upto));
    if upto > 0 {
        lemma_store_prefix(documents, steps, upto - 1);
        let before = stored_after(documents, steps.take(upto - 1));
        let step = steps[upto - 1];
        assert(steps.take(upto).drop_last() =~= steps.take(upto - 1));
        assert(steps.take(upto).last() == step);
        assert(store == before.insert(step.docid, step.record));
        assert forall|id: u32| #[trigger]
            store.dom().contains(id) <==> documents.dom().contains(id) || exists|j: int|
                0 <= j < upto && (#[trigger] steps[j]).docid == id by {
            if store.dom().contains(id) && !documents.dom().contains(id) {
                if id != step.docid {
                    assert(before.dom().contains(id));
                    let j = choose|j: int| 0 <= j < upto - 1 && (#[trigger] steps[j]).docid == id;
                    assert(steps[j].docid == id);
                }
            }
            if exists|j: int| 0 <= j < upto && (#[trigger] steps[j]).docid == id {
                let j = choose|j: int| 0 <= j < upto && (#[trigger] steps[j]).docid == id;
                if j < upto - 1 {
                    assert(before.dom().contains(id));
                }
            }
        }
        assert forall|j: int| 0 <= j < upto implies store[(#[trigger] steps[j]).docid] == steps[j].record by {
            if j < upto - 1 {
                assert(steps[j].docid != steps[upto - 1].docid);
            }
        }
    }
}

/// One step keeps the count of a field equal to the number of stored
/// documents that hold the field.
proof fn lemma_step_count(
    names: Seq<Seq<char>>,
    after: Seq<Seq<char>>,
    store: Map<u32, Seq<u8>>,
    docid: u32,
    record: Seq<u8>,
    count: u64,
    name: Seq<char>,
)
    requires
        is_sound_store(names, store),
        extends(after, names),
        all_named(names, record_entries(record)),
        count == holders(names, store, name).len(),
    ensures
        count_with(
            count_without(
                count,
                holds_name(names, base_entries(base_record(true, store, docid)), name),
            ),
            holds_name(names, record_entries(record), name),
        ) == holders(after, store.insert(docid, record), name).len(),
        count_without(
            count,
            holds_name(names, base_entries(base_record(true, store, docid)), name),
        ) < u64::MAX,
        holds_name(names, base_entries(base_record(true, store, docid)), name) ==> count > 0,
{
    broadcast use vstd::set::group_set_axioms;

    let before = holders(names, store, name);
    let stored = store.insert(docid, record);
    let now = holders(after, stored, name);
    lemma_ids_len(before);
    lemma_ids_len(now);
    let base = base_entries(base_record(true, store, docid));
    let held = holds_name(names, base, name);
    let holds = holds_name(names, record_entries(record), name);
    lemma_holds_extends(names, after, record_entries(record), name);
    assert(held == before.contains(docid));
    let without = before.remove(docid);
    lemma_ids_len(without);
    assert(now =~= (if holds {
        without.insert(docid)
    } else {
        without
    })) by {
        assert forall|id: u32| now.contains(id) <==> (if holds {
            without.insert(docid)
        } else {
            without
        }).contains(id) by {
            if id != docid {
                if store.dom().contains(id) {
                    assert(stored[id] == store[id]);
                    lemma_holds_extends(names, after, record_entries(store[id]), name);
                }
            }
        }
    }
}

/// What holds of the store, of the counts of the fields and of their
/// sum after the first steps.
pub open spec fn is_consistent_after(input: FinalInput, steps: Seq<Step>) -> bool {
    let store = stored_after(input.documents, steps);
    let names = names_after(input.names, steps);
    &&& is_sound_store(names, store)
    &&& counts_match(counts_after(input.counts, input.documents, steps), names, store)
    &&& total_after(input.total as int, input.counts, input.documents, steps) == stored_fields(store)
}

/// An index that is in order stays in order step by step.
pub proof fn lemma_consistent_prefix(input: FinalInput, groups: Seq<Group>, steps: Seq<Step>, upto: int)
    requires
        is_grouping(input.pairs, groups),
        is_trace(input, groups, steps),
        is_consistent(input),
        0 <= upto <= steps.len(),
    ensures
        is_consistent_after(input, steps.take(upto)),
    decreases upto,
{
    if upto == 0 {
        assert(steps.take(0) =~= Seq::<Step>::empty());
        assert(counts_match(counts_after(input.counts, input.documents, steps.take(0)), input.names, input.documents)) by {
            assert forall|name: Seq<char>| #[trigger]
                counts_after(input.counts, input.documents, steps.take(0))[name] == holders(
                    input.names,
                    input.documents,
                    name,
                ).len() by {
                assert(input.counts[name] == holders(input.names, input.documents, name).len());
            }
        }
    } else {
        lemma_consistent_prefix(input, groups, steps, upto - 1);
        lemma_docids_distinct(input, groups, steps);
        lemma_store_prefix(input.documents, steps, upto - 1);
        let done = steps.take(upto - 1);
        let next = steps.take(upto);
        let step = steps[upto - 1];
        assert(next.drop_last() =~= done);
        assert(next.last() == step);
        assert(is_step(input, groups[upto - 1], step));
        let store = stored_after(input.documents, done);
        let names = names_after(input.names, done);
        assert(step.names == names);
        let after = step.names_after;
        assert(names_after(input.names, next) == after);
        lemma_step_names(step);
        let counts = counts_after(input.counts, input.documents, done);
        // The step meets the record that was stored at the start, if any.
        let base = base_record(step.updated, input.documents, step.docid);
        assert(base == base_record(true, store, step.docid)) by {
            if step.updated {
                assert(forall|j: int| 0 <= j < upto - 1 ==> (#[trigger] steps[j]).docid != step.docid);
                assert(store[step.docid] == input.documents[step.docid]);
            } else {
                assert(is_lowest_free(input.used, steps, upto - 1));
                if store.dom().contains(step.docid) {
                    let j = choose|j: int| 0 <= j < upto - 1 && (#[trigger] steps[j]).docid == step.docid;
                    assert(steps[j].docid != steps[upto - 1].docid);
                }
            }
        }
        assert(next =~= done.push(step));
        lemma_consistent_step(input, done, step, next);
    }
}

/// The registry after a step begins with the registry before it.
pub proof fn lemma_step_names(step: Step)
    requires
        crate::finalize::is_flattened_record(
            step.names,
            step.names_after,
            record_entries(step.record),
            step.flattened,
        ),
    ensures
        extends(step.names_after, step.names),
{
    let fields = crate::json::flattened(crate::finalize::named_entries(step.names, record_entries(step.record)));
    crate::fields_mapping::lemma_with_names_extends(step.names, crate::finalize::field_names(fields));
}

/// An index that is in order after some steps is in order after one
/// step more.
proof fn lemma_consistent_step(input: FinalInput, done: Seq<Step>, step: Step, next: Seq<Step>)
    requires
        next == done.push(step),
        is_consistent_after(input, done),
        step.names == names_after(input.names, done),
        extends(step.names_after, step.names),
        is_ascending(record_entries(step.record)),
        all_named(step.names, record_entries(step.record)),
        base_record(step.updated, input.documents, step.docid) == base_record(
            true,
            stored_after(input.documents, done),
            step.docid,
        ),
    ensures
        is_consistent_after(input, next),
{
    let store = stored_after(input.documents, done);
    let names = step.names;
    let after = step.names_after;
    let counts = counts_after(input.counts, input.documents, done);
    let base = base_entries(base_record(step.updated, input.documents, step.docid));
    let record = record_entries(step.record);
    assert(next.drop_last() =~= done);
    assert(next.last() == step);
    let stored = stored_after(input.documents, next);
    assert(stored == store.insert(step.docid, step.record));
    assert(names_after(input.names, next) == after);
    assert(is_sound_store(after, stored)) by {
        assert forall|id: u32| stored.dom().contains(id) implies is_ascending(
            record_entries(#[trigger] stored[id]),
        ) && all_named(after, record_entries(stored[id])) by {
            if id == step.docid {
                lemma_holds_extends(names, after, record, Seq::empty());
            } else {
                assert(stored[id] == store[id]);
                lemma_holds_extends(names, after, record_entries(store[id]), Seq::empty());
            }
        }
    }
    let counts_next = counts_after(input.counts, input.documents, next);
    assert forall|name: Seq<char>| #[trigger] counts_next[name] == holders(after, stored, name).len() by {
        assert(counts[name] == holders(names, store, name).len());
        lemma_step_count(names, after, store, step.docid, step.record, counts[name], name);
    }
    // Each field of the stored record takes one off the sum, and each
    // field of the record to store adds one.
    let mid = counts_without(counts, names, base);
    assert forall|i: int| 0 <= i < base.len() implies counts[names[(#[trigger] base[i]).0 as int]] > 0 by {
        let name = names[base[i].0 as int];
        assert(counts[name] == holders(names, store, name).len());
        assert(store.dom().contains(step.docid));
        assert(base[i].0 < names.len());
        assert(holds_name(names, base, name));
        lemma_step_count(names, after, store, step.docid, step.record, counts[name], name);
    }
    lemma_uncounted_all(names, counts, base);
    assert forall|i: int| 0 <= i < record.len() implies mid[names[(#[trigger] record[i]).0 as int]]
        < u64::MAX by {
        let name = names[record[i].0 as int];
        assert(counts[name] == holders(names, store, name).len());
        lemma_step_count(names, after, store, step.docid, step.record, counts[name], name);
    }
    lemma_counted_all(names, mid, record);
    lemma_stored_fields_insert(store, step.docid, step.record);
    assert(fields_of(store, step.docid) == base.len());
}

/// Once the records that are handed on are stored, the count of every
/// field is the number of stored documents that hold the field, and the
/// sum of the counts is the number of pairs of a stored document and a
/// field that it holds.
///
/// This holds of an index that was in order: see `is_consistent`.
pub proof fn law_counts_match_the_store(input: FinalInput, output: crate::finalize::FinalOutput)
    requires
        crate::finalize::is_finalized(input, output),
        is_consistent(input),
    ensures
        exists|groups: Seq<Group>, steps: Seq<Step>|
            {
                &&& #[trigger] is_grouping(input.pairs, groups)
                &&& #[trigger] is_trace(input, groups, steps)
                &&& crate::finalize::is_outcome(input, steps, output)
                &&& is_sound_store(output.names, stored_after(input.documents, steps))
                &&& counts_match(output.counts, output.names, stored_after(input.documents, steps))
                &&& output.total == stored_fields(stored_after(input.documents, steps))
            },
{
    let (groups, steps) = choose|groups: Seq<Group>, steps: Seq<Step>|
        #[trigger] is_grouping(input.pairs, groups) && #[trigger] is_trace(input, groups, steps)
            && crate::finalize::is_outcome(input, steps, output);
    lemma_consistent_prefix(input, groups, steps, steps.len() as int);
    assert(steps.take(steps.len() as int) =~= steps);
    let store = stored_after(input.documents, steps);
    assert forall|name: Seq<char>| #[trigger] output.counts[name] == holders(output.names, store, name).len() by {
        assert(counts_after(input.counts, input.documents, steps)[name] == holders(
            output.names,
            store,
            name,
        ).len());
    }
}

} // verus!
