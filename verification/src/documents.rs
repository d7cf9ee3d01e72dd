use crate::fields_ids_map::FieldId;
use itertools::Itertools;
use vstd::prelude::*;

verus! {

/// The fields of one document: pairs of a field id and the JSON text of the
/// value, in no particular order.
pub type DocumentFields = Vec<(FieldId, Vec<u8>)>;

/// The names of the fields of a batch, each under the id that the batch
/// gave it. An id has one name and a name has one id.
pub struct DocumentsBatchIndex {
    entries: Vec<(FieldId, String)>,
}

/// The entries of a batch index as mathematical pairs.
pub open spec fn index_pairs(entries: Seq<(FieldId, String)>) -> Seq<(FieldId, Seq<char>)> {
    Seq::new(entries.len(), |i: int| (entries[i].0, entries[i].1@))
}

/// `Itertools::sorted_by_key` on the entries of a batch index, keyed by
/// their ids: the same entries, each as often as before, in ascending
/// order of id.
#[verifier::external_body]
fn sorted_by_id<'a>(entries: &'a Vec<(FieldId, String)>) -> (sorted: Vec<&'a (FieldId, String)>)
    ensures
        sorted@.len() == entries@.len(),
        forall|i: int, j: int| 0 <= i <= j < sorted@.len() ==> sorted@[i].0 <= sorted@[j].0,
        Seq::new(sorted@.len(), |i: int| *sorted@[i]).to_multiset() == entries@.to_multiset(),
{
    entries.iter().sorted_by_key(|entry| entry.0).collect()
}

impl View for DocumentsBatchIndex {
    type V = Map<FieldId, Seq<char>>;

    /// The name of each id that the batch uses.
    closed spec fn view(&self) -> Map<FieldId, Seq<char>> {
        Map::new(
            |id: FieldId| exists|i: int| 0 <= i < self.entries@.len() && self.entries@[i].0 == id,
            |id: FieldId|
                self.entries@[choose|i: int| 0 <= i < self.entries@.len() && self.entries@[i].0 == id].1@,
        )
    }
}

/// The names of `index` up to the id `bound`, in ascending order of id.
pub open spec fn names_below(index: Map<FieldId, Seq<char>>, bound: int) -> Seq<Seq<char>>
    decreases bound,
{
    if bound <= 0 {
        Seq::empty()
    } else if index.dom().contains((bound - 1) as FieldId) {
        names_below(index, bound - 1).push(index[(bound - 1) as FieldId])
    } else {
        names_below(index, bound - 1)
    }
}

/// All the names of `index`, in ascending order of id.
pub open spec fn names_by_id(index: Map<FieldId, Seq<char>>) -> Seq<Seq<char>> {
    names_below(index, 65536)
}

impl DocumentsBatchIndex {
    /// No id and no name occurs twice.
    pub closed spec fn wf(&self) -> bool {
        forall|i: int, j: int|
            0 <= i < j < self.entries@.len() ==> self.entries@[i].0 != self.entries@[j].0
                && self.entries@[i].1@ != self.entries@[j].1@
    }

    /// Every name belongs to one id only.
    pub proof fn lemma_names_distinct(&self)
        requires
            self.wf(),
        ensures
            forall|a: FieldId, b: FieldId|
                self@.dom().contains(a) && self@.dom().contains(b) && a != b ==> self@[a]
                    != self@[b],
            self@.dom().finite(),
    {
        assert forall|a: FieldId, b: FieldId|
            self@.dom().contains(a) && self@.dom().contains(b) && a != b implies self@[a]
            != self@[b] by {
            let i = choose|i: int| 0 <= i < self.entries@.len() && self.entries@[i].0 == a;
            let j = choose|j: int| 0 <= j < self.entries@.len() && self.entries@[j].0 == b;
            assert(i != j);
        }
        let ids = Seq::new(self.entries@.len(), |i: int| self.entries@[i].0);
        assert(self@.dom() =~= ids.to_set()) by {
            assert forall|id: FieldId| self@.dom().contains(id) implies ids.to_set().contains(
                id,
            ) by {
                let i = choose|i: int| 0 <= i < self.entries@.len() && self.entries@[i].0 == id;
                assert(ids[i] == id);
            }
            assert forall|id: FieldId| ids.to_set().contains(id) implies self@.dom().contains(
                id,
            ) by {
                let i = choose|i: int| 0 <= i < ids.len() && ids[i] == id;
                assert(self.entries@[i].0 == id);
            }
        }
        vstd::seq_lib::seq_to_set_is_finite(ids);
    }

    pub fn new() -> (index: DocumentsBatchIndex)
        ensures
            index.wf(),
            index@ == Map::<FieldId, Seq<char>>::empty(),
    {
        let index = DocumentsBatchIndex { entries: Vec::new() };
        assert(index@ =~= Map::<FieldId, Seq<char>>::empty());
        index
    }

    /// The number of fields.
    pub fn len(&self) -> (n: usize)
        requires
            self.wf(),
        ensures
            n == self@.dom().len(),
    {
        proof {
            self.lemma_len();
        }
        self.entries.len()
    }

    pub fn is_empty(&self) -> (empty: bool)
        requires
            self.wf(),
        ensures
            empty == (self@.dom().len() == 0),
    {
        proof {
            self.lemma_len();
        }
        self.entries.len() == 0
    }

    proof fn lemma_len(&self)
        requires
            self.wf(),
        ensures
            self@.dom().finite(),
            self@.dom().len() == self.entries@.len(),
    {
        let ids = Seq::new(self.entries@.len(), |i: int| self.entries@[i].0);
        assert(self@.dom() =~= ids.to_set()) by {
            assert forall|id: FieldId| self@.dom().contains(id) implies ids.to_set().contains(
                id,
            ) by {
                let i = choose|i: int| 0 <= i < self.entries@.len() && self.entries@[i].0 == id;
                assert(ids[i] == id);
            }
            assert forall|id: FieldId| ids.to_set().contains(id) implies self@.dom().contains(
                id,
            ) by {
                let i = choose|i: int| 0 <= i < ids.len() && ids[i] == id;
                assert(self.entries@[i].0 == id);
            }
        }
        assert(ids.no_duplicates());
        ids.unique_seq_to_set();
    }

    /// The entry at position `i` is part of the view.
    proof fn lemma_entry(&self, i: int)
        requires
            self.wf(),
            0 <= i < self.entries@.len(),
        ensures
            self@.dom().contains(self.entries@[i].0),
            self@[self.entries@[i].0] == self.entries@[i].1@,
    {
        let id = self.entries@[i].0;
        let k = choose|k: int| 0 <= k < self.entries@.len() && self.entries@[k].0 == id;
        assert(k == i);
    }

    /// The name that the batch gave to `id`.
    pub fn name(&self, id: FieldId) -> (name: Option<&String>)
        requires
            self.wf(),
        ensures
            name matches Some(n) ==> self@.dom().contains(id) && self@[id] == n@,
            name is None ==> !self@.dom().contains(id),
    {
        let mut i: usize = 0;
        while i < self.entries.len()
            invariant
                self.wf(),
                i <= self.entries@.len(),
                forall|j: int| 0 <= j < i ==> self.entries@[j].0 != id,
            decreases self.entries.len() - i,
        {
            if self.entries[i].0 == id {
                proof {
                    self.lemma_entry(i as int);
                }
                return Some(&self.entries[i].1);
            }
            i += 1;
        }
        None
    }

    /// The id under which the batch knows `name`.
    pub fn id(&self, name: &str) -> (id: Option<FieldId>)
        requires
            self.wf(),
        ensures
            id matches Some(i) ==> self@.dom().contains(i) && self@[i] == name@,
            id is None ==> forall|i: FieldId| self@.dom().contains(i) ==> self@[i] != name@,
    {
        let mut i: usize = 0;
        while i < self.entries.len()
            invariant
                self.wf(),
                i <= self.entries@.len(),
                forall|j: int| 0 <= j < i ==> self.entries@[j].1@ != name@,
            decreases self.entries.len() - i,
        {
            if self.entries[i].1.as_str().eq(name) {
                proof {
                    self.lemma_entry(i as int);
                }
                return Some(self.entries[i].0);
            }
            i += 1;
        }
        assert forall|k: FieldId| self@.dom().contains(k) implies self@[k] != name@ by {
            let j = choose|j: int| 0 <= j < self.entries@.len() && self.entries@[j].0 == k;
            self.lemma_entry(j);
        }
        None
    }

    /// Gives `name` to `id`. Whatever the index held under this id or under
    /// this name is forgotten, so that ids and names stay paired one to one.
    pub fn insert(&mut self, id: FieldId, name: String)
        requires
            old(self).wf(),
        ensures
            final(self).wf(),
            final(self)@.dom().contains(id),
            final(self)@[id] == name@,
            forall|k: FieldId|
                k != id ==> (#[trigger] final(self)@.dom().contains(k) <==> old(self)@.dom().contains(
                    k,
                ) && old(self)@[k] != name@),
            forall|k: FieldId|
                k != id && final(self)@.dom().contains(k) ==> #[trigger] final(self)@[k] == old(self)@[k],
    {
        let mut kept: Vec<(FieldId, String)> = Vec::new();
        let ghost mut origin: Seq<int> = Seq::empty();
        let mut i: usize = 0;
        while i < self.entries.len()
            invariant
                self.wf(),
                *self == *old(self),
                i <= self.entries@.len(),
                origin.len() == kept@.len(),
                forall|k: int|
                    0 <= k < kept@.len() ==> 0 <= #[trigger] origin[k] < i && kept@[k].0
                        == self.entries@[origin[k]].0 && kept@[k].1@ == self.entries@[origin[k]].1@,
                forall|k: int, l: int| 0 <= k < l < kept@.len() ==> origin[k] < origin[l],
                forall|k: int| 0 <= k < kept@.len() ==> kept@[k].0 != id && kept@[k].1@ != name@,
                forall|j: int|
                    0 <= j < i && self.entries@[j].0 != id && self.entries@[j].1@ != name@
                        ==> exists|k: int| 0 <= k < kept@.len() && origin[k] == j,
            decreases self.entries.len() - i,
        {
            if self.entries[i].0 != id && !self.entries[i].1.as_str().eq(name.as_str()) {
                kept.push((self.entries[i].0, self.entries[i].1.clone()));
                proof {
                    let ghost before = origin;
                    origin = origin.push(i as int);
                    assert forall|j: int|
                        0 <= j < i + 1 && self.entries@[j].0 != id && self.entries@[j].1@
                            != name@ implies exists|k: int|
                        0 <= k < kept@.len() && origin[k] == j by {
                        if j < i {
                            let k = choose|k: int| 0 <= k < before.len() && before[k] == j;
                            assert(origin[k] == j);
                        } else {
                            assert(origin[kept@.len() - 1] == j);
                        }
                    }
                }
            }
            i += 1;
        }
        let ghost last = kept@.len() as int;
        let ghost before = self.entries@;
        kept.push((id, name));
        self.entries = kept;
        proof {
            assert(self.wf()) by {
                assert forall|a: int, b: int| 0 <= a < b < self.entries@.len() implies self.entries@[a].0
                    != self.entries@[b].0 && self.entries@[a].1@ != self.entries@[b].1@ by {
                    if b < last {
                        assert(origin[a] < origin[b]);
                    }
                }
            }
            self.lemma_entry(last);
            assert forall|k: FieldId| k != id implies (#[trigger] self@.dom().contains(k)
                <==> old(self)@.dom().contains(k) && old(self)@[k] != name@) by {
                if self@.dom().contains(k) {
                    let a = choose|a: int| 0 <= a < self.entries@.len() && self.entries@[a].0 == k;
                    assert(a < last);
                    old(self).lemma_entry(origin[a]);
                }
                if old(self)@.dom().contains(k) && old(self)@[k] != name@ {
                    let j = choose|j: int| 0 <= j < before.len() && before[j].0 == k;
                    old(self).lemma_entry(j);
                    assert(before[j].0 != id && before[j].1@ != name@);
                    let a = choose|a: int| 0 <= a < last && origin[a] == j;
                    assert(self.entries@[a].0 == k);
                }
            }
            assert forall|k: FieldId| k != id && self@.dom().contains(k) implies #[trigger] self@[k]
                == old(self)@[k] by {
                let a = choose|a: int| 0 <= a < self.entries@.len() && self.entries@[a].0 == k;
                self.lemma_entry(a);
                old(self).lemma_entry(origin[a]);
            }
        }
    }

    /// The entries in ascending order of id.
    pub fn sorted(&self) -> (sorted: Vec<&(FieldId, String)>)
        requires
            self.wf(),
        ensures
            sorted@.len() == self@.dom().len(),
            forall|i: int, j: int| 0 <= i < j < sorted@.len() ==> sorted@[i].0 < sorted@[j].0,
            forall|i: int|
                0 <= i < sorted@.len() ==> self@.dom().contains(#[trigger] sorted@[i].0)
                    && self@[sorted@[i].0] == sorted@[i].1@,
            forall|id: FieldId|
                self@.dom().contains(id) ==> exists|i: int|
                    0 <= i < sorted@.len() && #[trigger] sorted@[i].0 == id,
    {
        let sorted = sorted_by_id(&self.entries);
        proof {
            self.lemma_len();
            let values = Seq::new(sorted@.len(), |i: int| *sorted@[i]);
            broadcast use vstd::seq_lib::group_to_multiset_ensures;

            assert forall|i: int| 0 <= i < sorted@.len() implies self@.dom().contains(
                #[trigger] sorted@[i].0,
            ) && self@[sorted@[i].0] == sorted@[i].1@ by {
                assert(values[i] == *sorted@[i]);
                assert(values.contains(values[i]));
                assert(self.entries@.to_multiset().count(values[i]) > 0);
                assert(self.entries@.contains(values[i]));
                let k = choose|k: int| 0 <= k < self.entries@.len() && self.entries@[k] == values[i];
                self.lemma_entry(k);
            }
            assert forall|id: FieldId| self@.dom().contains(id) implies exists|i: int|
                0 <= i < sorted@.len() && #[trigger] sorted@[i].0 == id by {
                let k = choose|k: int| 0 <= k < self.entries@.len() && self.entries@[k].0 == id;
                assert(self.entries@.contains(self.entries@[k]));
                assert(values.to_multiset().count(self.entries@[k]) > 0);
                assert(values.contains(self.entries@[k]));
                let i = choose|i: int| 0 <= i < values.len() && values[i] == self.entries@[k];
                assert(sorted@[i].0 == id);
            }
            assert forall|i: int, j: int| 0 <= i < j < sorted@.len() implies sorted@[i].0
                < sorted@[j].0 by {
                if sorted@[i].0 == sorted@[j].0 {
                    // An id that stood twice among the sorted entries would
                    // stand twice among the entries themselves.
                    assert(values[i] == *sorted@[i] && values[j] == *sorted@[j]);
                    assert(values.contains(values[i]));
                    assert(self.entries@.to_multiset().count(values[i]) > 0);
                    assert(self.entries@.contains(values[i]));
                    assert(values.contains(values[j]));
                    assert(self.entries@.to_multiset().count(values[j]) > 0);
                    assert(self.entries@.contains(values[j]));
                    let a = choose|a: int| 0 <= a < self.entries@.len() && self.entries@[a] == values[i];
                    let b = choose|b: int| 0 <= b < self.entries@.len() && self.entries@[b] == values[j];
                    assert(a == b);
                    assert(values[i] == values[j]);
                    lemma_count_two(values, i, j);
                    assert(values.to_multiset().count(values[i]) >= 2);
                    lemma_count_unique(self.entries@, a);
                    assert(false);
                }
            }
        }
        sorted
    }
}

/// The fields at each place of a list of fields, as mathematical values.
pub proof fn lemma_fields_view(fields: DocumentFields)
    ensures
        fields.deep_view().len() == fields@.len(),
        forall|i: int|
            0 <= i < fields@.len() ==> #[trigger] fields.deep_view()[i] == (fields@[i].0, fields@[i].1@),
{
    assert forall|i: int| 0 <= i < fields@.len() implies #[trigger] fields.deep_view()[i] == (
        fields@[i].0,
        fields@[i].1@,
    ) by {
        assert(fields@[i].1.deep_view() =~= fields@[i].1@);
    }
}

/// A field more at the end of a list of fields is a field more at the end
/// of what the list stands for.
pub proof fn lemma_fields_push(before: DocumentFields, after: DocumentFields, field: (FieldId, Vec<u8>))
    requires
        after@ == before@.push(field),
    ensures
        after.deep_view() == before.deep_view().push((field.0, field.1@)),
{
    lemma_fields_view(before);
    lemma_fields_view(after);
    assert(after.deep_view() =~= before.deep_view().push((field.0, field.1@)));
}

/// Sorts the fields by their ids with `sort_unstable_by_key` of slices:
/// the same fields, each as often as before, in ascending order of id.
#[verifier::external_body]
pub(crate) fn sort_fields(fields: &mut Vec<(FieldId, Vec<u8>)>)
    ensures
        final(fields).deep_view().to_multiset() == old(fields).deep_view().to_multiset(),
        forall|i: int, j: int|
            0 <= i <= j < final(fields)@.len() ==> final(fields)@[i].0 <= final(fields)@[j].0,
{
    fields.sort_unstable_by_key(|field| field.0);
}

/// A batch of documents: the names of their fields and, for each
/// document, the fields it holds under the ids of the batch.
pub struct DocumentBatchReader {
    index: DocumentsBatchIndex,
    documents: Vec<DocumentFields>,
    cursor: usize,
}

impl DocumentBatchReader {
    /// The index is well formed and names every field of every document.
    pub closed spec fn wf(&self) -> bool {
        &&& self.index.wf()
        &&& self.cursor <= self.documents@.len()
        &&& forall|d: int, f: int|
            0 <= d < self.documents@.len() && 0 <= f < self.documents@[d]@.len()
                ==> self.index@.dom().contains(#[trigger] self.documents@[d]@[f].0)
    }

    /// The names of the fields.
    pub closed spec fn spec_index(&self) -> DocumentsBatchIndex {
        self.index
    }

    /// All the documents of the batch.
    pub closed spec fn spec_documents(&self) -> Seq<Seq<(FieldId, Seq<u8>)>> {
        Seq::new(self.documents@.len(), |d: int| self.documents@[d].deep_view())
    }

    /// How many documents were read already.
    pub closed spec fn spec_cursor(&self) -> nat {
        self.cursor as nat
    }

    /// The documents that are still to be read.
    pub open spec fn remaining(&self) -> Seq<Seq<(FieldId, Seq<u8>)>> {
        self.spec_documents().skip(self.spec_cursor() as int)
    }

    /// The index names every field of every document.
    pub proof fn lemma_fields_known(&self)
        requires
            self.wf(),
        ensures
            forall|d: int, f: int|
                0 <= d < self.spec_documents().len() && 0 <= f < self.spec_documents()[d].len()
                    ==> self.spec_index()@.dom().contains(#[trigger] self.spec_documents()[d][f].0),
    {
        assert forall|d: int, f: int|
            0 <= d < self.spec_documents().len() && 0 <= f < self.spec_documents()[d].len()
                implies self.spec_index()@.dom().contains(#[trigger] self.spec_documents()[d][f].0) by {
            lemma_fields_view(self.documents@[d]);
            assert(self.index@.dom().contains(self.documents@[d]@[f].0));
        }
    }

    /// What was read is part of the batch.
    pub proof fn lemma_cursor(&self)
        requires
            self.wf(),
        ensures
            self.spec_cursor() <= self.spec_documents().len(),
    {
    }

    /// A reader over `documents`, or `None` when a document holds a field
    /// id that `index` does not name.
    pub fn new(index: DocumentsBatchIndex, documents: Vec<DocumentFields>) -> (reader: Option<DocumentBatchReader>)
        requires
            index.wf(),
        ensures
            reader matches Some(r) ==> r.wf() && r.spec_index() == index && r.spec_cursor() == 0
                && r.spec_documents() == Seq::new(documents@.len(), |d: int| documents@[d].deep_view()),
            reader is None <==> exists|d: int, f: int|
                0 <= d < documents@.len() && 0 <= f < documents@[d]@.len() && !index@.dom().contains(
                    #[trigger] documents@[d]@[f].0,
                ),
    {
        let mut d: usize = 0;
        while d < documents.len()
            invariant
                index.wf(),
                d <= documents@.len(),
                forall|a: int, f: int|
                    0 <= a < d && 0 <= f < documents@[a]@.len() ==> index@.dom().contains(
                        #[trigger] documents@[a]@[f].0,
                    ),
            decreases documents.len() - d,
        {
            let mut f: usize = 0;
            while f < documents[d].len()
                invariant
                    index.wf(),
                    d < documents@.len(),
                    f <= documents@[d as int]@.len(),
                    forall|b: int|
                        0 <= b < f ==> index@.dom().contains(#[trigger] documents@[d as int]@[b].0),
                decreases documents@[d as int]@.len() - f,
            {
                if index.name(documents[d][f].0).is_none() {
                    assert(!index@.dom().contains(documents@[d as int]@[f as int].0));
                    return None;
                }
                f += 1;
            }
            d += 1;
        }
        Some(DocumentBatchReader { index, documents, cursor: 0 })
    }

    /// The names of the fields of the batch.
    pub fn index(&self) -> (index: &DocumentsBatchIndex)
        ensures
            *index == self.spec_index(),
            self.wf() ==> index.wf(),
    {
        &self.index
    }

    /// The number of documents in the batch.
    pub fn len(&self) -> (n: usize)
        ensures
            n == self.spec_documents().len(),
    {
        self.documents.len()
    }

    pub fn is_empty(&self) -> (empty: bool)
        ensures
            empty == (self.spec_documents().len() == 0),
    {
        self.documents.len() == 0
    }

    /// The next document with the names of the fields of the batch, or
    /// `None` when every document was read.
    pub fn next_document_with_index(&mut self) -> (next: Option<(&DocumentsBatchIndex, &DocumentFields)>)
        requires
            old(self).wf(),
        ensures
            final(self).wf(),
            final(self).spec_index() == old(self).spec_index(),
            final(self).spec_documents() == old(self).spec_documents(),
            next is None <==> old(self).remaining().len() == 0,
            next is None ==> final(self).spec_cursor() == old(self).spec_cursor(),
            next matches Some(pair) ==> {
                &&& *pair.0 == old(self).spec_index()
                &&& pair.0.wf()
                &&& pair.1.deep_view() == old(self).remaining()[0]
                &&& final(self).spec_cursor() == old(self).spec_cursor() + 1
                &&& forall|f: int|
                    0 <= f < pair.1@.len() ==> old(self).spec_index()@.dom().contains(
                        #[trigger] pair.1@[f].0,
                    )
            },
    {
        if self.cursor < self.documents.len() {
            let at = self.cursor;
            self.cursor = at + 1;
            Some((&self.index, &self.documents[at]))
        } else {
            None
        }
    }
}

/// A value that stands at two positions of a sequence counts twice at least.
pub proof fn lemma_count_two<A>(s: Seq<A>, i: int, j: int)
    requires
        0 <= i < j < s.len(),
        s[i] == s[j],
    ensures
        s.to_multiset().count(s[i]) >= 2,
    decreases s.len(),
{
    broadcast use vstd::seq_lib::group_to_multiset_ensures;

    let last = s.len() - 1;
    let front = s.drop_last();
    assert(s =~= front.push(s[last]));
    if j == last {
        assert(front.contains(front[i]));
        assert(front.to_multiset().count(s[i]) > 0);
    } else {
        lemma_count_two(front, i, j);
    }
}

/// A value that stands at one position only counts once.
pub proof fn lemma_count_unique<A>(s: Seq<A>, i: int)
    requires
        0 <= i < s.len(),
        forall|j: int| 0 <= j < s.len() && j != i ==> s[j] != s[i],
    ensures
        s.to_multiset().count(s[i]) == 1,
    decreases s.len(),
{
    broadcast use vstd::seq_lib::group_to_multiset_ensures;

    let last = s.len() - 1;
    let front = s.drop_last();
    assert(s =~= front.push(s[last]));
    if i == last {
        if front.to_multiset().count(s[i]) > 0 {
            assert(front.contains(s[i]));
            let k = choose|k: int| 0 <= k < front.len() && front[k] == s[i];
            assert(s[k] == s[i]);
        }
    } else {
        lemma_count_unique(front, i);
    }
}

} // verus!
