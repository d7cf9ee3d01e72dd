use vstd::prelude::*;

verus! {

/// Identifier of a field: an index into the registry of field names.
pub type FieldId = u16;

/// The number of distinct field ids, hence the most names a registry holds.
pub const MAX_FIELDS: usize = 65536;

/// Whether `name` is one of `names`.
pub open spec fn has_name(names: Seq<Seq<char>>, name: Seq<char>) -> bool {
    exists|i: int| 0 <= i < names.len() && names[i] == name
}

/// The names registered after `name` was offered to a registry holding
/// `names`: a known name and a full registry change nothing.
pub open spec fn with_name(names: Seq<Seq<char>>, name: Seq<char>) -> Seq<Seq<char>> {
    if has_name(names, name) || names.len() >= MAX_FIELDS {
        names
    } else {
        names.push(name)
    }
}

/// The names registered after each of `added` was offered in turn.
pub open spec fn with_names(names: Seq<Seq<char>>, added: Seq<Seq<char>>) -> Seq<Seq<char>>
    decreases added.len(),
{
    if added.len() == 0 {
        names
    } else {
        with_name(with_names(names, added.drop_last()), added.last())
    }
}

/// The registry of field names: every name has one id and ids are handed
/// out densely, from zero, in the order in which the names arrive.
pub struct FieldsIdsMap {
    names: Vec<String>,
}

impl View for FieldsIdsMap {
    type V = Seq<Seq<char>>;

    /// The registered names; the id of a name is its position.
    closed spec fn view(&self) -> Seq<Seq<char>> {
        Seq::new(self.names@.len(), |i: int| self.names@[i]@)
    }
}

impl FieldsIdsMap {
    /// No name is registered twice and every position fits a field id.
    pub open spec fn wf(&self) -> bool {
        &&& self@.len() <= MAX_FIELDS
        &&& forall|i: int, j: int| 0 <= i < j < self@.len() ==> self@[i] != self@[j]
    }

    /// The id registered for `name`, if there is one.
    pub open spec fn spec_id(&self, name: Seq<char>) -> Option<FieldId> {
        if has_name(self@, name) {
            Some((choose|i: int| 0 <= i < self@.len() && self@[i] == name) as FieldId)
        } else {
            None
        }
    }

    pub fn new() -> (map: FieldsIdsMap)
        ensures
            map.wf(),
            map@ == Seq::<Seq<char>>::empty(),
    {
        FieldsIdsMap { names: Vec::new() }
    }

    /// The number of registered names.
    pub fn len(&self) -> (n: usize)
        ensures
            n == self@.len(),
    {
        self.names.len()
    }

    pub fn is_empty(&self) -> (empty: bool)
        ensures
            empty == (self@.len() == 0),
    {
        self.names.len() == 0
    }

    /// The id of `name`, or `None` when the name is not registered.
    pub fn id(&self, name: &str) -> (id: Option<FieldId>)
        requires
            self.wf(),
        ensures
            id == self.spec_id(name@),
            id matches Some(i) ==> i < self@.len() && self@[i as int] == name@,
            id is None ==> !has_name(self@, name@),
    {
        let mut i: usize = 0;
        while i < self.names.len()
            invariant
                self.wf(),
                i <= self.names.len(),
                forall|j: int| 0 <= j < i ==> self@[j] != name@,
            decreases self.names.len() - i,
        {
            if self.names[i].as_str().eq(name) {
                assert(self@[i as int] == name@);
                return Some(i as FieldId);
            }
            i += 1;
        }
        None
    }

    /// The name registered under `id`, or `None` when the id is free.
    pub fn name(&self, id: FieldId) -> (name: Option<&str>)
        ensures
            name matches Some(n) ==> id < self@.len() && n@ == self@[id as int],
            name is None ==> id >= self@.len(),
    {
        if (id as usize) < self.names.len() {
            Some(self.names[id as usize].as_str())
        } else {
            None
        }
    }

    /// Registers `name` and returns its id. A known name keeps its id, a new
    /// one gets the next free id, and `None` says that no id is left.
    pub fn insert(&mut self, name: &str) -> (id: Option<FieldId>)
        requires
            old(self).wf(),
        ensures
            final(self).wf(),
            final(self)@ == with_name(old(self)@, name@),
            id == final(self).spec_id(name@),
            id is None <==> !has_name(old(self)@, name@) && old(self)@.len() == MAX_FIELDS,
            id matches Some(i) ==> i < final(self)@.len() && final(self)@[i as int] == name@,
    {
        match self.id(name) {
            Some(id) => Some(id),
            None => {
                if self.names.len() >= MAX_FIELDS {
                    None
                } else {
                    let id = self.names.len() as FieldId;
                    self.names.push(name.to_owned());
                    assert(self@ =~= old(self)@.push(name@));
                    assert(self@[id as int] == name@);
                    Some(id)
                }
            }
        }
    }

    /// The registered names, each at the position that is its id.
    pub fn names(&self) -> (names: &Vec<String>)
        ensures
            names@.len() == self@.len(),
            forall|i: int| 0 <= i < self@.len() ==> names@[i]@ == self@[i],
    {
        &self.names
    }
}

impl Clone for FieldsIdsMap {
    fn clone(&self) -> (copy: FieldsIdsMap)
        ensures
            copy@ == self@,
    {
        let mut names: Vec<String> = Vec::new();
        let mut i: usize = 0;
        while i < self.names.len()
            invariant
                i <= self.names@.len(),
                names@.len() == i,
                forall|k: int| 0 <= k < i ==> names@[k]@ == self.names@[k]@,
            decreases self.names.len() - i,
        {
            names.push(self.names[i].clone());
            i += 1;
        }
        let copy = FieldsIdsMap { names };
        assert(copy@ =~= self@);
        copy
    }
}

} // verus!
