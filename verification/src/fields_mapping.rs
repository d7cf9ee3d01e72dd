use crate::documents::{names_below, names_by_id, DocumentsBatchIndex};
use crate::error::TransformError;
use crate::fields_ids_map::{has_name, with_name, with_names, FieldId, FieldsIdsMap, MAX_FIELDS};
use crate::idempotence::{lemma_with_names_distinct, names_are_distinct};
use std::collections::HashMap;
use vstd::prelude::*;

verus! {

/// A registry only grows at its end: what was registered keeps its place.
pub proof fn lemma_with_name_extends(names: Seq<Seq<char>>, name: Seq<char>)
    ensures
        names.len() <= with_name(names, name).len(),
        forall|i: int| 0 <= i < names.len() ==> with_name(names, name)[i] == names[i],
        forall|other: Seq<char>| has_name(names, other) ==> has_name(with_name(names, name), other),
{
    let after = with_name(names, name);
    assert forall|other: Seq<char>| has_name(names, other) implies has_name(after, other) by {
        let i = choose|i: int| 0 <= i < names.len() && names[i] == other;
        assert(after[i] == other);
    }
}

/// Names that are offered never move what was registered before.
pub proof fn lemma_with_names_extends(names: Seq<Seq<char>>, added: Seq<Seq<char>>)
    ensures
        names.len() <= with_names(names, added).len(),
        forall|i: int| 0 <= i < names.len() ==> with_names(names, added)[i] == names[i],
    decreases added.len(),
{
    if added.len() > 0 {
        lemma_with_names_extends(names, added.drop_last());
        lemma_with_name_extends(with_names(names, added.drop_last()), added.last());
    }
}

/// A full registry takes no further name.
pub proof fn lemma_with_names_full(names: Seq<Seq<char>>, added: Seq<Seq<char>>)
    requires
        names.len() >= MAX_FIELDS,
    ensures
        with_names(names, added) == names,
    decreases added.len(),
{
    if added.len() > 0 {
        lemma_with_names_full(names, added.drop_last());
    }
}

/// Offering names in two runs is offering them in one.
pub proof fn lemma_with_names_split(names: Seq<Seq<char>>, first: Seq<Seq<char>>, second: Seq<Seq<char>>)
    ensures
        with_names(names, first + second) == with_names(with_names(names, first), second),
    decreases second.len(),
{
    if second.len() == 0 {
        assert(first + second =~= first);
    } else {
        assert((first + second).drop_last() =~= first + second.drop_last());
        assert((first + second).last() == second.last());
        lemma_with_names_split(names, first, second.drop_last());
    }
}

/// The place of `name` among `names`.
pub open spec fn place_of(names: Seq<Seq<char>>, name: Seq<char>) -> int {
    choose|i: int| 0 <= i < names.len() && names[i] == name
}

/// A registry takes no more new names than it has ids left: when the
/// batch holds more names that are not registered than that, the names
/// of the batch are not all registered after they were offered, so that
/// the mapping fails with the attribute limit.
pub proof fn law_more_names_than_ids(
    names: Seq<Seq<char>>,
    batch: Map<FieldId, Seq<char>>,
    absent: Set<Seq<char>>,
)
    requires
        names_are_distinct(names),
        absent.finite(),
        forall|name: Seq<char>|
            #[trigger] absent.contains(name) ==> !has_name(names, name) && exists|id: FieldId|
                batch.dom().contains(id) && #[trigger] batch[id] == name,
        absent.len() > MAX_FIELDS - names.len(),
    ensures
        exists|id: FieldId|
            batch.dom().contains(id) && !has_name(
                with_names(names, names_by_id(batch)),
                #[trigger] batch[id],
            ),
{
    let after = with_names(names, names_by_id(batch));
    lemma_with_names_distinct(names, names_by_id(batch));
    lemma_with_names_extends(names, names_by_id(batch));
    if forall|name: Seq<char>| absent.contains(name) ==> has_name(after, name) {
        let place = |name: Seq<char>| place_of(after, name);
        let places = absent.map(place);
        let free = vstd::set_lib::set_int_range(names.len() as int, after.len() as int);
        assert(vstd::relations::injective_on(place, absent)) by {
            assert forall|a: Seq<char>, b: Seq<char>|
                absent.contains(a) && absent.contains(b) && #[trigger] place(a) == #[trigger] place(
                    b,
                ) implies a == b by {
                assert(has_name(after, a) && has_name(after, b));
            }
        }
        vstd::set_lib::lemma_map_size(absent, places, place);
        vstd::set_lib::lemma_int_range(names.len() as int, after.len() as int);
        assert(places.subset_of(free)) by {
            assert forall|p: int| places.contains(p) implies free.contains(p) by {
                let name = choose|name: Seq<char>| absent.contains(name) && place(name) == p;
                assert(has_name(after, name));
                if p < names.len() {
                    assert(names[p] == name);
                    assert(has_name(names, name));
                }
            }
        }
        vstd::set_lib::lemma_len_subset(places, free);
        assert(false);
    }
    let name = choose|name: Seq<char>| absent.contains(name) && !has_name(after, name);
    let id = choose|id: FieldId| batch.dom().contains(id) && #[trigger] batch[id] == name;
    assert(batch.dom().contains(id) && !has_name(after, batch[id]));
}

/// The names of entries that stand in ascending order of id and cover the
/// index are the names of the index by id.
proof fn lemma_names_below(
    index: Map<FieldId, Seq<char>>,
    sorted: Seq<(FieldId, Seq<char>)>,
    bound: int,
) -> (k: int)
    requires
        0 <= bound <= 65536,
        forall|i: int, j: int| 0 <= i < j < sorted.len() ==> sorted[i].0 < sorted[j].0,
        forall|i: int|
            0 <= i < sorted.len() ==> index.dom().contains(#[trigger] sorted[i].0)
                && index[sorted[i].0] == sorted[i].1,
        forall|id: FieldId|
            index.dom().contains(id) ==> exists|i: int|
                0 <= i < sorted.len() && #[trigger] sorted[i].0 == id,
    ensures
        0 <= k <= sorted.len(),
        forall|i: int| 0 <= i < k ==> sorted[i].0 < bound,
        forall|i: int| k <= i < sorted.len() ==> sorted[i].0 >= bound,
        names_below(index, bound) == Seq::new(k as nat, |i: int| sorted[i].1),
    decreases bound,
{
    if bound <= 0 {
        assert(names_below(index, bound) =~= Seq::new(0, |i: int| sorted[i].1));
        0
    } else {
        let k = lemma_names_below(index, sorted, bound - 1);
        let id = (bound - 1) as FieldId;
        if index.dom().contains(id) {
            let i = choose|i: int| 0 <= i < sorted.len() && sorted[i].0 == id;
            assert(i >= k);
            assert(i == k) by {
                if i > k {
                    assert(sorted[k].0 < sorted[i].0);
                }
            }
            assert(names_below(index, bound) =~= Seq::new((k + 1) as nat, |i: int| sorted[i].1));
            assert forall|j: int| k + 1 <= j < sorted.len() implies sorted[j].0 >= bound by {
                assert(sorted[k].0 < sorted[j].0);
            }
            k + 1
        } else {
            assert forall|j: int| k <= j < sorted.len() implies sorted[j].0 >= bound by {
                assert(index.dom().contains(sorted[j].0));
            }
            k
        }
    }
}

/// Maps each field id of the batch to the id that the registry has for the
/// same name, registering the names that the registry does not know yet.
///
/// The names are offered in ascending order of their id in the batch, so
/// that the ids they get depend on the registry and on the batch alone.
/// When the registry has no id left for one of them the attribute limit
/// is reported; the registry is then full.
pub fn create_fields_mapping(
    index_field_map: &mut FieldsIdsMap,
    batch_field_map: &DocumentsBatchIndex,
) -> (mapping: Result<HashMap<FieldId, FieldId>, TransformError>)
    requires
        old(index_field_map).wf(),
        batch_field_map.wf(),
    ensures
        final(index_field_map).wf(),
        final(index_field_map)@ == with_names(
            old(index_field_map)@,
            names_by_id(batch_field_map@),
        ),
        mapping is Ok <==> forall|id: FieldId|
            batch_field_map@.dom().contains(id) ==> has_name(
                final(index_field_map)@,
                #[trigger] batch_field_map@[id],
            ),
        mapping matches Ok(m) ==> {
            &&& m@.dom() == batch_field_map@.dom()
            &&& forall|id: FieldId|
                batch_field_map@.dom().contains(id) ==> (#[trigger] m@[id]) < final(index_field_map)@.len() && final(index_field_map)@[m@[id] as int] == batch_field_map@[id]
        },
        mapping matches Err(e) ==> e == TransformError::AttributeLimitReached && final(index_field_map)@.len() == MAX_FIELDS,
{
    broadcast use vstd::std_specs::hash::group_hash_axioms;

    let sorted = batch_field_map.sorted();
    let ghost pairs = Seq::new(sorted@.len(), |i: int| (sorted@[i].0, sorted@[i].1@));
    let ghost names = Seq::new(sorted@.len(), |i: int| sorted@[i].1@);
    proof {
        assert forall|id: FieldId| batch_field_map@.dom().contains(id) implies exists|i: int|
            0 <= i < pairs.len() && #[trigger] pairs[i].0 == id by {
            let i = choose|i: int| 0 <= i < sorted@.len() && sorted@[i].0 == id;
            assert(pairs[i].0 == id);
        }
        let k = lemma_names_below(batch_field_map@, pairs, 65536);
        assert(k == sorted@.len()) by {
            if k < sorted@.len() {
                assert(pairs[k].0 >= 65536);
            }
        }
        assert(names_by_id(batch_field_map@) =~= names);
    }
    let mut mapping: HashMap<FieldId, FieldId> = HashMap::new();
    let mut i: usize = 0;
    while i < sorted.len()
        invariant
            index_field_map.wf(),
            batch_field_map.wf(),
            i <= sorted@.len(),
            names.len() == sorted@.len(),
            names_by_id(batch_field_map@) == names,
            forall|a: int| 0 <= a < names.len() ==> names[a] == sorted@[a].1@,
            forall|a: int|
                0 <= a < sorted@.len() ==> batch_field_map@.dom().contains(#[trigger] sorted@[a].0)
                    && batch_field_map@[sorted@[a].0] == sorted@[a].1@,
            forall|a: int, b: int| 0 <= a < b < sorted@.len() ==> sorted@[a].0 < sorted@[b].0,
            index_field_map@ == with_names(old(index_field_map)@, names.take(i as int)),
            forall|id: FieldId|
                mapping@.dom().contains(id) <==> exists|a: int|
                    0 <= a < i && #[trigger] sorted@[a].0 == id,
            forall|a: int|
                0 <= a < i ==> (#[trigger] mapping@[sorted@[a].0]) < index_field_map@.len()
                    && index_field_map@[mapping@[sorted@[a].0] as int] == sorted@[a].1@,
        decreases sorted.len() - i,
    {
        let ghost before = index_field_map@;
        let ghost map_before = mapping@;
        let inserted = index_field_map.insert(sorted[i].1.as_str());
        proof {
            lemma_with_name_extends(before, names[i as int]);
            assert(names.take(i + 1).drop_last() =~= names.take(i as int));
            assert(names.take(i + 1).last() == names[i as int]);
        }
        match inserted {
            Some(id) => {
                mapping.insert(sorted[i].0, id);
                proof {
                    assert forall|key: FieldId|
                        mapping@.dom().contains(key) <==> exists|a: int|
                            0 <= a < i + 1 && #[trigger] sorted@[a].0 == key by {
                        if mapping@.dom().contains(key) {
                            if key == sorted@[i as int].0 {
                                assert(sorted@[i as int].0 == key);
                            } else {
                                assert(map_before.dom().contains(key));
                                let a = choose|a: int| 0 <= a < i && sorted@[a].0 == key;
                                assert(sorted@[a].0 == key);
                            }
                        }
                    }
                    assert forall|a: int| 0 <= a < i + 1 implies (#[trigger] mapping@[sorted@[a].0])
                        < index_field_map@.len() && index_field_map@[mapping@[sorted@[a].0] as int]
                        == sorted@[a].1@ by {
                        if a < i {
                            assert(sorted@[a].0 < sorted@[i as int].0);
                            assert(mapping@[sorted@[a].0] == map_before[sorted@[a].0]);
                        }
                    }
                }
            },
            None => {
                proof {
                    let rest = names.skip(i + 1);
                    assert(names =~= names.take(i + 1) + rest);
                    lemma_with_names_split(old(index_field_map)@, names.take(i + 1), rest);
                    lemma_with_names_full(index_field_map@, rest);
                    batch_field_map.lemma_names_distinct();
                    let id = sorted@[i as int].0;
                    assert(batch_field_map@[id] == names[i as int]);
                }
                return Err(TransformError::AttributeLimitReached);
            },
        }
        i += 1;
    }
    proof {
        assert(names.take(i as int) =~= names);
        assert(mapping@.dom() =~= batch_field_map@.dom()) by {
            assert forall|id: FieldId| batch_field_map@.dom().contains(id) implies mapping@.dom().contains(id) by {
                let a = choose|a: int| 0 <= a < sorted@.len() && sorted@[a].0 == id;
                assert(sorted@[a].0 == id);
            }
        }
        assert forall|id: FieldId| batch_field_map@.dom().contains(id) implies (#[trigger] mapping@[id])
            < index_field_map@.len() && index_field_map@[mapping@[id] as int] == batch_field_map@[id] by {
            let a = choose|a: int| 0 <= a < sorted@.len() && sorted@[a].0 == id;
            assert(mapping@[sorted@[a].0] < index_field_map@.len());
        }
        assert forall|id: FieldId| batch_field_map@.dom().contains(id) implies has_name(
            index_field_map@,
            #[trigger] batch_field_map@[id],
        ) by {
            assert(index_field_map@[mapping@[id] as int] == batch_field_map@[id]);
        }
    }
    Ok(mapping)
}

} // verus!
