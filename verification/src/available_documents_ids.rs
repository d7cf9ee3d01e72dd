use crate::bitmap::{
    bitmap_ids, bitmap_insert_range, bitmap_max, bitmap_min, bitmap_new, bitmap_remove,
    bitmap_sub_assign,
};
use vstd::prelude::*;

verus! {

/// The internal ids that no document uses, handed out from the lowest up.
pub struct AvailableDocumentsIds {
    /// The free ids below the highest id that was in use at the start.
    gaps: roaring::RoaringBitmap,
    /// The lowest id above all those: it and every higher id is free.
    fresh: Option<u32>,
}

impl AvailableDocumentsIds {
    /// Every gap lies below the fresh ids.
    pub closed spec fn wf(&self) -> bool {
        forall|id: u32|
            bitmap_ids(self.gaps).contains(id) ==> match self.fresh {
                Some(fresh) => id < fresh,
                None => true,
            }
    }

    /// Whether `id` is free.
    pub closed spec fn is_available(&self, id: u32) -> bool {
        bitmap_ids(self.gaps).contains(id) || match self.fresh {
            Some(fresh) => fresh <= id,
            None => false,
        }
    }

    /// The free ids are those that `documents_ids` does not hold.
    pub fn from_documents_ids(documents_ids: &roaring::RoaringBitmap) -> (available: AvailableDocumentsIds)
        ensures
            available.wf(),
            forall|id: u32|
                available.is_available(id) <==> !bitmap_ids(*documents_ids).contains(id),
    {
        match bitmap_max(documents_ids) {
            Some(last_id) => {
                let mut gaps = bitmap_new();
                bitmap_insert_range(&mut gaps, 0, last_id);
                bitmap_sub_assign(&mut gaps, documents_ids);
                let fresh = last_id.checked_add(1);
                AvailableDocumentsIds { gaps, fresh }
            },
            None => AvailableDocumentsIds { gaps: bitmap_new(), fresh: Some(0) },
        }
    }

    /// Hands out the lowest free id, which is free no longer, or `None`
    /// when every id is in use.
    pub fn next(&mut self) -> (id: Option<u32>)
        requires
            old(self).wf(),
        ensures
            final(self).wf(),
            id is None <==> forall|other: u32| !old(self).is_available(other),
            id matches Some(d) ==> {
                &&& old(self).is_available(d)
                &&& forall|other: u32| other < d ==> !old(self).is_available(other)
                &&& forall|other: u32|
                    final(self).is_available(other) <==> old(self).is_available(other) && other != d
            },
            id is None ==> forall|other: u32|
                final(self).is_available(other) <==> old(self).is_available(other),
    {
        match bitmap_min(&self.gaps) {
            Some(id) => {
                bitmap_remove(&mut self.gaps, id);
                assert(old(self).is_available(id));
                Some(id)
            },
            None => match self.fresh {
                Some(id) => {
                    self.fresh = id.checked_add(1);
                    assert(old(self).is_available(id));
                    Some(id)
                },
                None => None,
            },
        }
    }
}

} // verus!
