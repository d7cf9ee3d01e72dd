use crate::bitmap::bitmap_ids;
use crate::external_documents_ids::ExternalDocumentsIds;
use crate::field_distribution::FieldDistribution;
use crate::fields_ids_map::FieldsIdsMap;
use vstd::prelude::*;

verus! {

/// The stored documents: the record of each document under its internal
/// id, in ascending order of the ids.
pub struct Documents {
    entries: Vec<(u32, Vec<u8>)>,
}

impl View for Documents {
    type V = Map<u32, Seq<u8>>;

    /// The record stored under each internal id.
    closed spec fn view(&self) -> Map<u32, Seq<u8>> {
        Map::new(
            |id: u32| exists|i: int| 0 <= i < self.entries@.len() && (#[trigger] self.entries@[i]).0 == id,
            |id: u32|
                self.entries@[choose|i: int|
                    0 <= i < self.entries@.len() && (#[trigger] self.entries@[i]).0 == id].1@,
        )
    }
}

impl Documents {
    /// The stored documents in ascending order of their ids.
    pub closed spec fn listing(&self) -> Seq<(u32, Seq<u8>)> {
        Seq::new(self.entries@.len(), |i: int| (self.entries@[i].0, self.entries@[i].1@))
    }

    /// The listing holds every stored document once, by ascending id.
    pub proof fn law_listing(&self)
        requires
            self.wf(),
        ensures
            forall|i: int, j: int|
                0 <= i < j < self.listing().len() ==> self.listing()[i].0 < self.listing()[j].0,
            forall|i: int|
                0 <= i < self.listing().len() ==> self@.dom().contains((#[trigger] self.listing()[i]).0)
                    && self@[self.listing()[i].0] == self.listing()[i].1,
            forall|id: u32|
                self@.dom().contains(id) ==> exists|i: int|
                    0 <= i < self.listing().len() && (#[trigger] self.listing()[i]).0 == id,
    {
        assert forall|i: int| 0 <= i < self.listing().len() implies self@.dom().contains(
            (#[trigger] self.listing()[i]).0,
        ) && self@[self.listing()[i].0] == self.listing()[i].1 by {
            self.lemma_entry(i);
        }
        assert forall|id: u32| self@.dom().contains(id) implies exists|i: int|
            0 <= i < self.listing().len() && (#[trigger] self.listing()[i]).0 == id by {
            let i = choose|i: int| 0 <= i < self.entries@.len() && (#[trigger] self.entries@[i]).0 == id;
            assert(self.listing()[i].0 == id);
        }
    }

    /// The ids are strictly ascending.
    pub closed spec fn wf(&self) -> bool {
        forall|i: int, j: int|
            0 <= i < j < self.entries@.len() ==> self.entries@[i].0 < self.entries@[j].0
    }

    proof fn lemma_entry(&self, i: int)
        requires
            self.wf(),
            0 <= i < self.entries@.len(),
        ensures
            self@.dom().contains(self.entries@[i].0),
            self@[self.entries@[i].0] == self.entries@[i].1@,
    {
        let id = self.entries@[i].0;
        let k = choose|k: int| 0 <= k < self.entries@.len() && (#[trigger] self.entries@[k]).0 == id;
        assert(k == i);
    }

    /// No document is stored.
    pub fn new() -> (documents: Documents)
        ensures
            documents.wf(),
            documents@ == Map::<u32, Seq<u8>>::empty(),
    {
        let documents = Documents { entries: Vec::new() };
        assert(documents@ =~= Map::<u32, Seq<u8>>::empty());
        documents
    }

    /// The documents of `entries`, which must come in strictly ascending
    /// order of their ids.
    pub fn from_entries(entries: Vec<(u32, Vec<u8>)>) -> (documents: Option<Documents>)
        ensures
            documents is Some <==> forall|i: int, j: int|
                0 <= i < j < entries@.len() ==> entries@[i].0 < entries@[j].0,
            documents matches Some(d) ==> d.wf() && d@.dom().finite() && d@.dom().len() == entries@.len()
                && forall|i: int|
                0 <= i < entries@.len() ==> d@.dom().contains((#[trigger] entries@[i]).0) && d@[entries@[i].0]
                    == entries@[i].1@,
    {
        let mut i: usize = 1;
        while i < entries.len()
            invariant
                1 <= i,
                forall|a: int, b: int| 0 <= a < b < i && b < entries@.len() ==> entries@[a].0 < entries@[b].0,
            decreases entries.len() - i,
        {
            if entries[i - 1].0 >= entries[i].0 {
                return None;
            }
            proof {
                assert forall|a: int, b: int| 0 <= a < b < i + 1 && b < entries@.len() implies entries@[a].0
                    < entries@[b].0 by {
                    if b == i && a < i - 1 {
                        assert(entries@[a].0 < entries@[i - 1].0);
                    }
                }
            }
            i += 1;
        }
        let documents = Documents { entries };
        proof {
            documents.lemma_len();
            assert forall|i: int| 0 <= i < entries@.len() implies documents@.dom().contains(
                (#[trigger] entries@[i]).0,
            ) && documents@[entries@[i].0] == entries@[i].1@ by {
                documents.lemma_entry(i);
            }
        }
        Some(documents)
    }

    proof fn lemma_len(&self)
        requires
            self.wf(),
        ensures
            self@.dom().finite(),
            self@.dom().len() == self.entries@.len(),
    {
        let ids = Seq::new(self.entries@.len(), |i: int| self.entries@[i].0);
        assert(self@.dom() =~= ids.to_set()) by {
            assert forall|id: u32| self@.dom().contains(id) implies ids.to_set().contains(id) by {
                let i = choose|i: int| 0 <= i < self.entries@.len() && (#[trigger] self.entries@[i]).0 == id;
                assert(ids[i] == id);
            }
            assert forall|id: u32| ids.to_set().contains(id) implies self@.dom().contains(id) by {
                let i = choose|i: int| 0 <= i < ids.len() && ids[i] == id;
                assert(self.entries@[i].0 == id);
            }
        }
        assert(ids.no_duplicates());
        ids.unique_seq_to_set();
    }

    /// The number of stored documents.
    pub fn len(&self) -> (n: usize)
        requires
            self.wf(),
        ensures
            self@.dom().finite(),
            n == self@.dom().len(),
    {
        proof {
            self.lemma_len();
        }
        self.entries.len()
    }

    /// The record of the document with the internal id `id`.
    pub fn get(&self, id: u32) -> (record: Option<&Vec<u8>>)
        requires
            self.wf(),
        ensures
            record is Some <==> self@.dom().contains(id),
            record matches Some(r) ==> r@ == self@[id],
    {
        let mut low: usize = 0;
        let mut high: usize = self.entries.len();
        while low < high
            invariant
                self.wf(),
                low <= high <= self.entries@.len(),
                forall|k: int| 0 <= k < low ==> (#[trigger] self.entries@[k]).0 < id,
                forall|k: int| high <= k < self.entries@.len() ==> (#[trigger] self.entries@[k]).0 > id,
            decreases high - low,
        {
            let mid = low + (high - low) / 2;
            let found = self.entries[mid].0;
            if found == id {
                proof {
                    self.lemma_entry(mid as int);
                }
                return Some(&self.entries[mid].1);
            } else if found < id {
                proof {
                    assert forall|k: int| 0 <= k < mid + 1 implies (#[trigger] self.entries@[k]).0 < id by {
                        if k < mid {
                            assert(self.entries@[k].0 < self.entries@[mid as int].0);
                        }
                    }
                }
                low = mid + 1;
            } else {
                proof {
                    assert forall|k: int| mid <= k < self.entries@.len() implies (
                    #[trigger] self.entries@[k]).0 > id by {
                        if k > mid {
                            assert(self.entries@[mid as int].0 < self.entries@[k].0);
                        }
                    }
                }
                high = mid;
            }
        }
        None
    }

    /// The stored documents in ascending order of their ids.
    pub fn entries(&self) -> (entries: &Vec<(u32, Vec<u8>)>)
        requires
            self.wf(),
        ensures
            entries@.len() == self.listing().len(),
            forall|i: int|
                0 <= i < entries@.len() ==> #[trigger] self.listing()[i] == (entries@[i].0, entries@[i].1@),
            forall|i: int, j: int| 0 <= i < j < entries@.len() ==> entries@[i].0 < entries@[j].0,
            forall|i: int|
                0 <= i < entries@.len() ==> self@.dom().contains((#[trigger] entries@[i]).0) && self@[entries@[i].0]
                    == entries@[i].1@,
            forall|id: u32|
                self@.dom().contains(id) ==> exists|i: int|
                    0 <= i < entries@.len() && (#[trigger] entries@[i]).0 == id,
    {
        proof {
            assert forall|i: int| 0 <= i < self.entries@.len() implies self@.dom().contains(
                (#[trigger] self.entries@[i]).0,
            ) && self@[self.entries@[i].0] == self.entries@[i].1@ by {
                self.lemma_entry(i);
            }
        }
        &self.entries
    }
}

/// What an index holds when a transformation starts, as far as the
/// transformation reads or writes it.
pub struct Index {
    /// The registry of the field names.
    pub fields_ids_map: FieldsIdsMap,
    /// The name of the primary key, once it is chosen.
    pub primary_key: Option<String>,
    /// The internal ids in use.
    pub documents_ids: roaring::RoaringBitmap,
    /// How many documents hold each field.
    pub field_distribution: FieldDistribution,
    /// The internal id of each external id.
    pub external_documents_ids: ExternalDocumentsIds,
    /// The stored record of each internal id.
    pub documents: Documents,
}

impl Index {
    /// Each part is well formed.
    pub open spec fn wf(&self) -> bool {
        &&& self.fields_ids_map.wf()
        &&& self.field_distribution.wf()
        &&& self.external_documents_ids.wf()
        &&& self.documents.wf()
    }

    /// An index without documents, fields or primary key.
    pub fn new() -> (index: Index)
        ensures
            index.wf(),
            index.fields_ids_map@.len() == 0,
            index.primary_key is None,
            bitmap_ids(index.documents_ids) == Set::<u32>::empty(),
            index.external_documents_ids@ == Map::<Seq<u8>, u64>::empty(),
            index.documents@ == Map::<u32, Seq<u8>>::empty(),
            index.field_distribution.total() == 0,
            forall|name: Seq<char>| index.field_distribution.count(name) == 0,
    {
        Index {
            fields_ids_map: FieldsIdsMap::new(),
            primary_key: None,
            documents_ids: crate::bitmap::bitmap_new(),
            field_distribution: FieldDistribution::new(),
            external_documents_ids: ExternalDocumentsIds::new(),
            documents: Documents::new(),
        }
    }
}

} // verus!
