use crate::bytes::{
    bytes_before, bytes_lt, lemma_bytes_lt_irreflexive, lemma_bytes_lt_total,
    lemma_bytes_lt_transitive,
};
use crate::error::TransformError;
use vstd::prelude::*;

verus! {

/// `fst::Map`, an ordered map from byte strings to integers, of which only
/// `fst_entries` is known.
#[verifier::external_type_specification]
#[verifier::external_body]
#[verifier::reject_recursive_types(D)]
pub struct ExFstMap<D>(fst::Map<D>);

/// `fst::MapBuilder`, of which only `fst_builder_entries` is known.
#[verifier::external_type_specification]
#[verifier::external_body]
#[verifier::reject_recursive_types(W)]
pub struct ExFstMapBuilder<W>(fst::MapBuilder<W>);

/// `fst::Error`, of which nothing is known.
#[verifier::external_type_specification]
#[verifier::external_body]
pub struct ExFstError(fst::Error);

/// The keys of the map, each with its value.
pub uninterp spec fn fst_entries(map: fst::Map<Vec<u8>>) -> Map<Seq<u8>, u64>;

/// The keys that the builder has accepted, each with its value, in the
/// order in which they came.
pub uninterp spec fn fst_builder_entries(builder: fst::MapBuilder<Vec<u8>>) -> Seq<(Seq<u8>, u64)>;

/// Whether `entries` list `map`: every key of the map once, with its value,
/// in ascending order of the keys.
pub open spec fn is_listing(entries: Seq<(Seq<u8>, u64)>, map: Map<Seq<u8>, u64>) -> bool {
    &&& forall|i: int, j: int|
        0 <= i < j < entries.len() ==> bytes_lt(#[trigger] entries[i].0, #[trigger] entries[j].0)
    &&& forall|i: int|
        0 <= i < entries.len() ==> map.dom().contains((#[trigger] entries[i]).0) && map[entries[i].0]
            == entries[i].1
    &&& forall|key: Seq<u8>|
        map.dom().contains(key) ==> exists|i: int|
            0 <= i < entries.len() && (#[trigger] entries[i]).0 == key
}

/// Whether `key` is one of the keys of `entries`.
pub open spec fn lists_key(entries: Seq<(Seq<u8>, u64)>, key: Seq<u8>) -> bool {
    exists|t: int| 0 <= t < entries.len() && (#[trigger] entries[t]).0 == key
}

/// Whether a builder that has accepted `entries` accepts `key`: it must
/// come after the last key.
pub open spec fn fst_builder_accepts(entries: Seq<(Seq<u8>, u64)>, key: Seq<u8>) -> bool {
    entries.len() == 0 || bytes_lt(entries.last().0, key)
}

/// `Map::default`: a map without keys.
#[verifier::external_body]
pub(crate) fn fst_map_default() -> (empty: fst::Map<Vec<u8>>)
    ensures
        fst_entries(empty).dom() == Set::<Seq<u8>>::empty(),
{
    fst::Map::default()
}

/// `Map::get`: the value of `key`, or `None` if the map has no such key.
#[verifier::external_body]
pub(crate) fn fst_map_get(map: &fst::Map<Vec<u8>>, key: &[u8]) -> (value: Option<u64>)
    ensures
        value is Some <==> fst_entries(*map).dom().contains(key@),
        value matches Some(v) ==> v == fst_entries(*map)[key@],
{
    map.get(key)
}

/// `Map::stream` followed by `Stream::into_byte_vec`: all the keys of the
/// map with their values, in ascending order of the keys.
#[verifier::external_body]
pub(crate) fn fst_map_entries(map: &fst::Map<Vec<u8>>) -> (entries: Vec<(Vec<u8>, u64)>)
    ensures
        is_listing(entries.deep_view(), fst_entries(*map)),
{
    map.stream().into_byte_vec()
}

/// `MapBuilder::memory`: a builder that has accepted nothing.
#[verifier::external_body]
pub(crate) fn fst_builder_memory() -> (builder: fst::MapBuilder<Vec<u8>>)
    ensures
        fst_builder_entries(builder) == Seq::<(Seq<u8>, u64)>::empty(),
{
    fst::MapBuilder::memory()
}

/// `MapBuilder::insert`: a key that comes after the key given before it is
/// accepted with its value; any other key is refused, which leaves the
/// builder as it was. Building in memory does not fail otherwise.
#[verifier::external_body]
pub(crate) fn fst_builder_insert(builder: &mut fst::MapBuilder<Vec<u8>>, key: &[u8], value: u64) -> (done: Result<(), fst::Error>)
    ensures
        done is Ok <==> fst_builder_accepts(fst_builder_entries(*old(builder)), key@),
        done is Ok ==> fst_builder_entries(*final(builder)) == fst_builder_entries(*old(builder)).push((key@, value)),
        done is Err ==> fst_builder_entries(*final(builder)) == fst_builder_entries(*old(builder)),
{
    builder.insert(key, value)
}

/// `MapBuilder::into_map`: the map of the keys that the builder accepted.
#[verifier::external_body]
pub(crate) fn fst_builder_into_map(builder: fst::MapBuilder<Vec<u8>>) -> (built: fst::Map<Vec<u8>>)
    ensures
        is_listing(fst_builder_entries(builder), fst_entries(built)),
{
    builder.into_map()
}

/// `Clone` of `fst::Map`: a map with the same keys and values.
#[verifier::external_body]
pub(crate) fn fst_map_clone(map: &fst::Map<Vec<u8>>) -> (copy: fst::Map<Vec<u8>>)
    ensures
        fst_entries(copy) == fst_entries(*map),
{
    map.clone()
}

/// Two maps with the same listing are the same map.
pub proof fn lemma_listing_unique(entries: Seq<(Seq<u8>, u64)>, a: Map<Seq<u8>, u64>, b: Map<Seq<u8>, u64>)
    requires
        is_listing(entries, a),
        is_listing(entries, b),
    ensures
        a == b,
{
    assert forall|key: Seq<u8>| a.dom().contains(key) <==> b.dom().contains(key) by {
        if a.dom().contains(key) {
            let i = choose|i: int| 0 <= i < entries.len() && (#[trigger] entries[i]).0 == key;
            assert(b.dom().contains(entries[i].0));
        }
        if b.dom().contains(key) {
            let i = choose|i: int| 0 <= i < entries.len() && (#[trigger] entries[i]).0 == key;
            assert(a.dom().contains(entries[i].0));
        }
    }
    assert forall|key: Seq<u8>| a.dom().contains(key) implies a[key] == b[key] by {
        let i = choose|i: int| 0 <= i < entries.len() && (#[trigger] entries[i]).0 == key;
        assert(a[entries[i].0] == entries[i].1 && b[entries[i].0] == entries[i].1);
    }
    assert(a =~= b);
}

/// The internal id of every document that is known by an external id.
pub struct ExternalDocumentsIds {
    map: fst::Map<Vec<u8>>,
}

impl View for ExternalDocumentsIds {
    type V = Map<Seq<u8>, u64>;

    /// The internal id under each external id.
    closed spec fn view(&self) -> Map<Seq<u8>, u64> {
        fst_entries(self.map)
    }
}

/// Whether every value of `map` is an internal id.
pub open spec fn holds_internal_ids(map: Map<Seq<u8>, u64>) -> bool {
    forall|key: Seq<u8>| map.dom().contains(key) ==> #[trigger] map[key] <= u32::MAX
}

impl ExternalDocumentsIds {
    /// Every value is an internal id.
    pub open spec fn wf(&self) -> bool {
        holds_internal_ids(self@)
    }

    /// No document is known yet.
    pub fn new() -> (ids: ExternalDocumentsIds)
        ensures
            ids.wf(),
            ids@ == Map::<Seq<u8>, u64>::empty(),
    {
        let ids = ExternalDocumentsIds { map: fst_map_default() };
        assert(ids@ =~= Map::<Seq<u8>, u64>::empty());
        ids
    }

    /// Wraps `map` if all its values are internal ids.
    pub fn from_map(map: fst::Map<Vec<u8>>) -> (ids: Option<ExternalDocumentsIds>)
        ensures
            ids is Some <==> holds_internal_ids(fst_entries(map)),
            ids matches Some(e) ==> e.wf() && e@ == fst_entries(map),
    {
        let entries = fst_map_entries(&map);
        let ghost listed = entries.deep_view();
        let mut i: usize = 0;
        while i < entries.len()
            invariant
                listed == entries.deep_view(),
                is_listing(listed, fst_entries(map)),
                i <= entries.len(),
                forall|k: int| 0 <= k < i ==> (#[trigger] listed[k]).1 <= u32::MAX,
            decreases entries.len() - i,
        {
            assert(listed[i as int] == (entries@[i as int].0@, entries@[i as int].1));
            if entries[i].1 > u32::MAX as u64 {
                assert(fst_entries(map)[listed[i as int].0] == listed[i as int].1);
                return None;
            }
            i += 1;
        }
        proof {
            assert forall|key: Seq<u8>| fst_entries(map).dom().contains(key) implies #[trigger] fst_entries(
                map,
            )[key] <= u32::MAX by {
                let k = choose|k: int| 0 <= k < listed.len() && (#[trigger] listed[k]).0 == key;
                assert(fst_entries(map)[listed[k].0] == listed[k].1);
            }
        }
        Some(ExternalDocumentsIds { map })
    }

    /// The ids in the map that holds them.
    pub fn into_map(self) -> (map: fst::Map<Vec<u8>>)
        ensures
            fst_entries(map) == self@,
    {
        self.map
    }

    /// The map that holds the ids.
    pub fn as_map(&self) -> (map: &fst::Map<Vec<u8>>)
        ensures
            fst_entries(*map) == self@,
    {
        &self.map
    }

    /// The internal id of the document that is known as `external_id`.
    pub fn get(&self, external_id: &[u8]) -> (id: Option<u32>)
        requires
            self.wf(),
        ensures
            id is Some <==> self@.dom().contains(external_id@),
            id matches Some(d) ==> d == self@[external_id@],
    {
        match fst_map_get(&self.map, external_id) {
            Some(id) => Some(id as u32),
            None => None,
        }
    }

    /// Adds the ids of `other` to those already known. Where both know an
    /// external id, the internal id of `other` stands.
    pub fn insert_ids(&mut self, other: &fst::Map<Vec<u8>>) -> (done: Result<(), TransformError>)
        requires
            old(self).wf(),
            holds_internal_ids(fst_entries(*other)),
        ensures
            done is Ok,
            final(self).wf(),
            final(self)@ == old(self)@.union_prefer_right(fst_entries(*other)),
    {
        let base = fst_map_entries(&self.map);
        let update = fst_map_entries(other);
        let ghost a = base.deep_view();
        let ghost b = update.deep_view();
        let ghost union = self@.union_prefer_right(fst_entries(*other));
        let mut builder = fst_builder_memory();
        let mut i: usize = 0;
        let mut j: usize = 0;
        while i < base.len() || j < update.len()
            invariant
                a == base.deep_view(),
                b == update.deep_view(),
                is_listing(a, self@),
                is_listing(b, fst_entries(*other)),
                union == self@.union_prefer_right(fst_entries(*other)),
                i <= base.len(),
                j <= update.len(),
                forall|s: int, t: int|
                    0 <= s < t < fst_builder_entries(builder).len() ==> bytes_lt(
                        #[trigger] fst_builder_entries(builder)[s].0,
                        #[trigger] fst_builder_entries(builder)[t].0,
                    ),
                forall|t: int, k: int|
                    0 <= t < fst_builder_entries(builder).len() && i <= k < a.len() ==> bytes_lt(
                        #[trigger] fst_builder_entries(builder)[t].0,
                        #[trigger] a[k].0,
                    ),
                forall|t: int, k: int|
                    0 <= t < fst_builder_entries(builder).len() && j <= k < b.len() ==> bytes_lt(
                        #[trigger] fst_builder_entries(builder)[t].0,
                        #[trigger] b[k].0,
                    ),
                forall|t: int|
                    0 <= t < fst_builder_entries(builder).len() ==> union.dom().contains(
                        (#[trigger] fst_builder_entries(builder)[t]).0,
                    ) && union[fst_builder_entries(builder)[t].0] == fst_builder_entries(builder)[t].1,
                forall|k: int| 0 <= k < i ==> lists_key(fst_builder_entries(builder), (#[trigger] a[k]).0),
                forall|k: int| 0 <= k < j ==> lists_key(fst_builder_entries(builder), (#[trigger] b[k]).0),
            decreases base.len() - i + update.len() - j,
        {
            let ghost before = fst_builder_entries(builder);
            proof {
                if i < base.len() {
                    assert(a[i as int] == (base@[i as int].0@, base@[i as int].1));
                }
                if j < update.len() {
                    assert(b[j as int] == (update@[j as int].0@, update@[j as int].1));
                }
            }
            let take_base = if j >= update.len() {
                true
            } else if i >= base.len() {
                false
            } else {
                bytes_before(base[i].0.as_slice(), update[j].0.as_slice())
            };
            let skip_base = !take_base && i < base.len() && !bytes_before(
                update[j].0.as_slice(),
                base[i].0.as_slice(),
            );
            let ghost entry = if take_base {
                a[i as int]
            } else {
                b[j as int]
            };
            proof {
                if skip_base {
                    lemma_bytes_lt_total(a[i as int].0, b[j as int].0);
                    assert(a[i as int].0 == b[j as int].0);
                }
                // The key comes after every key that was written.
                if before.len() > 0 {
                    if take_base {
                        assert(bytes_lt(before[before.len() - 1].0, a[i as int].0));
                    } else {
                        assert(bytes_lt(before[before.len() - 1].0, b[j as int].0));
                    }
                }
                // The key has the value that the union gives it.
                if take_base {
                    assert(self@.dom().contains(a[i as int].0));
                    if fst_entries(*other).dom().contains(entry.0) {
                        let k = choose|k: int| 0 <= k < b.len() && (#[trigger] b[k]).0 == entry.0;
                        if k < j {
                            let t = choose|t: int|
                                0 <= t < before.len() && (#[trigger] before[t]).0 == b[k].0;
                            assert(bytes_lt(before[t].0, a[i as int].0));
                            lemma_bytes_lt_irreflexive(entry.0);
                        } else {
                            if k > j {
                                assert(bytes_lt(b[j as int].0, b[k].0));
                                lemma_bytes_lt_transitive(a[i as int].0, b[j as int].0, b[k].0);
                            }
                            lemma_bytes_lt_irreflexive(entry.0);
                        }
                        assert(false);
                    }
                    assert(union[entry.0] == self@[entry.0]);
                } else {
                    assert(fst_entries(*other).dom().contains(b[j as int].0));
                    assert(union[entry.0] == fst_entries(*other)[entry.0]);
                }
            }
            let done = if take_base {
                fst_builder_insert(&mut builder, base[i].0.as_slice(), base[i].1)
            } else {
                fst_builder_insert(&mut builder, update[j].0.as_slice(), update[j].1)
            };
            assert(done is Ok);
            let ghost after = fst_builder_entries(builder);
            assert(after == before.push(entry));
            let ghost old_i = i;
            let ghost old_j = j;
            if take_base {
                i += 1;
            } else {
                if skip_base {
                    i += 1;
                }
                j += 1;
            }
            proof {
                assert forall|s: int, t: int| 0 <= s < t < after.len() implies bytes_lt(
                    #[trigger] after[s].0,
                    #[trigger] after[t].0,
                ) by {
                    if t == before.len() {
                        assert(after[s] == before[s]);
                        if take_base {
                            assert(bytes_lt(before[s].0, a[old_i as int].0));
                        } else {
                            assert(bytes_lt(before[s].0, b[old_j as int].0));
                        }
                    } else {
                        assert(after[s] == before[s] && after[t] == before[t]);
                    }
                }
                assert forall|t: int, k: int| 0 <= t < after.len() && i <= k < a.len() implies bytes_lt(
                    #[trigger] after[t].0,
                    #[trigger] a[k].0,
                ) by {
                    if t < before.len() {
                        assert(after[t] == before[t]);
                        assert(bytes_lt(before[t].0, a[k].0));
                    } else if take_base || skip_base {
                        assert(bytes_lt(a[old_i as int].0, a[k].0));
                    } else {
                        // The key of `update` is below the head of `base`.
                        if old_i < a.len() {
                            lemma_bytes_lt_total(a[old_i as int].0, b[old_j as int].0);
                            assert(bytes_lt(b[old_j as int].0, a[old_i as int].0));
                            if k > old_i {
                                assert(bytes_lt(a[old_i as int].0, a[k].0));
                                lemma_bytes_lt_transitive(b[old_j as int].0, a[old_i as int].0, a[k].0);
                            }
                        }
                    }
                }
                assert forall|t: int, k: int| 0 <= t < after.len() && j <= k < b.len() implies bytes_lt(
                    #[trigger] after[t].0,
                    #[trigger] b[k].0,
                ) by {
                    if t < before.len() {
                        assert(after[t] == before[t]);
                        assert(bytes_lt(before[t].0, b[k].0));
                    } else if take_base {
                        if old_j < b.len() {
                            assert(bytes_lt(a[old_i as int].0, b[old_j as int].0));
                            if k > old_j {
                                assert(bytes_lt(b[old_j as int].0, b[k].0));
                                lemma_bytes_lt_transitive(a[old_i as int].0, b[old_j as int].0, b[k].0);
                            }
                        }
                    } else {
                        assert(bytes_lt(b[old_j as int].0, b[k].0));
                    }
                }
                assert forall|t: int| 0 <= t < after.len() implies union.dom().contains(
                    (#[trigger] after[t]).0,
                ) && union[after[t].0] == after[t].1 by {
                    if t < before.len() {
                        assert(after[t] == before[t]);
                    }
                }
                assert forall|k: int| 0 <= k < i implies lists_key(after, (#[trigger] a[k]).0) by {
                    if k < old_i {
                        let t = choose|t: int|
                            0 <= t < before.len() && (#[trigger] before[t]).0 == a[k].0;
                        assert(after[t] == before[t]);
                    } else {
                        assert(after[before.len() as int].0 == a[k].0);
                    }
                }
                assert forall|k: int| 0 <= k < j implies lists_key(after, (#[trigger] b[k]).0) by {
                    if k < old_j {
                        let t = choose|t: int|
                            0 <= t < before.len() && (#[trigger] before[t]).0 == b[k].0;
                        assert(after[t] == before[t]);
                    } else {
                        assert(after[before.len() as int].0 == b[k].0);
                    }
                }
            }
        }
        let ghost written = fst_builder_entries(builder);
        proof {
            assert(is_listing(written, union)) by {
                assert forall|key: Seq<u8>| union.dom().contains(key) implies exists|t: int|
                    0 <= t < written.len() && (#[trigger] written[t]).0 == key by {
                    if fst_entries(*other).dom().contains(key) {
                        let k = choose|k: int| 0 <= k < b.len() && (#[trigger] b[k]).0 == key;
                        let t = choose|t: int|
                            0 <= t < written.len() && (#[trigger] written[t]).0 == b[k].0;
                        assert(written[t].0 == key);
                    } else {
                        let k = choose|k: int| 0 <= k < a.len() && (#[trigger] a[k]).0 == key;
                        let t = choose|t: int|
                            0 <= t < written.len() && (#[trigger] written[t]).0 == a[k].0;
                        assert(written[t].0 == key);
                    }
                }
            }
        }
        self.map = fst_builder_into_map(builder);
        proof {
            lemma_listing_unique(written, union, self@);
        }
        Ok(())
    }
}

impl Clone for ExternalDocumentsIds {
    fn clone(&self) -> (copy: ExternalDocumentsIds)
        ensures
            copy@ == self@,
    {
        ExternalDocumentsIds { map: fst_map_clone(&self.map) }
    }
}

} // verus!
