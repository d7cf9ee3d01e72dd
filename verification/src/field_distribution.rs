use vstd::prelude::*;

verus! {

/// How many stored documents hold each field, by the name of the field. A
/// field that no document holds has no entry.
pub struct FieldDistribution {
    entries: Vec<(String, u64)>,
}

impl FieldDistribution {
    /// No name has two entries and no entry counts zero documents.
    pub closed spec fn wf(&self) -> bool {
        &&& forall|i: int, j: int|
            0 <= i < j < self.entries@.len() ==> self.entries@[i].0@ != self.entries@[j].0@
        &&& forall|i: int| 0 <= i < self.entries@.len() ==> (#[trigger] self.entries@[i]).1 > 0
    }

    /// Whether `name` has an entry.
    pub closed spec fn has_entry(&self, name: Seq<char>) -> bool {
        exists|i: int| 0 <= i < self.entries@.len() && (#[trigger] self.entries@[i]).0@ == name
    }

    /// The number of documents counted for `name`: zero without an entry.
    pub closed spec fn count(&self, name: Seq<char>) -> u64 {
        if self.has_entry(name) {
            self.entries@[choose|i: int|
                0 <= i < self.entries@.len() && (#[trigger] self.entries@[i]).0@ == name].1
        } else {
            0
        }
    }

    /// The count of every name.
    pub open spec fn counts(&self) -> Map<Seq<char>, u64> {
        Map::total(|name: Seq<char>| self.count(name))
    }

    /// The sum of all the counts.
    pub closed spec fn total(&self) -> nat {
        sum_counts(self.entries@)
    }

    proof fn lemma_entry(&self, i: int)
        requires
            self.wf(),
            0 <= i < self.entries@.len(),
        ensures
            self.has_entry(self.entries@[i].0@),
            self.count(self.entries@[i].0@) == self.entries@[i].1,
    {
        let name = self.entries@[i].0@;
        assert(self.has_entry(name));
        let k = choose|k: int| 0 <= k < self.entries@.len() && (#[trigger] self.entries@[k]).0@ == name;
        assert(k == i);
    }

    /// An entry counts one document at least.
    pub proof fn lemma_positive(&self, name: Seq<char>)
        requires
            self.wf(),
        ensures
            self.has_entry(name) <==> self.count(name) > 0,
    {
        if self.has_entry(name) {
            let k = choose|k: int| 0 <= k < self.entries@.len() && (#[trigger] self.entries@[k]).0@ == name;
            self.lemma_entry(k);
        }
    }

    pub fn new() -> (distribution: FieldDistribution)
        ensures
            distribution.wf(),
            distribution.total() == 0,
            forall|name: Seq<char>| distribution.count(name) == 0,
    {
        FieldDistribution { entries: Vec::new() }
    }

    /// The distribution that counts `count` documents for each `name` of
    /// `entries`, which must hold no name twice and no count of zero.
    pub fn from_entries(entries: Vec<(String, u64)>) -> (distribution: Option<FieldDistribution>)
        ensures
            distribution is Some <==> (forall|i: int, j: int|
                0 <= i < j < entries@.len() ==> entries@[i].0@ != entries@[j].0@) && (forall|i: int|
                0 <= i < entries@.len() ==> (#[trigger] entries@[i]).1 > 0),
            distribution matches Some(d) ==> d.wf() && d.spec_len() == entries@.len() && d.total()
                == sum_counts(entries@) && forall|i: int|
                0 <= i < entries@.len() ==> d.count((#[trigger] entries@[i]).0@) == entries@[i].1,
    {
        let mut i: usize = 0;
        while i < entries.len()
            invariant
                i <= entries@.len(),
                forall|a: int, b: int| 0 <= a < b < i ==> entries@[a].0@ != entries@[b].0@,
                forall|a: int| 0 <= a < i ==> (#[trigger] entries@[a]).1 > 0,
            decreases entries.len() - i,
        {
            if entries[i].1 == 0 {
                return None;
            }
            let mut j: usize = 0;
            while j < i
                invariant
                    j <= i < entries@.len(),
                    forall|a: int| 0 <= a < j ==> entries@[a].0@ != entries@[i as int].0@,
                decreases i - j,
            {
                if entries[j].0.as_str().eq(entries[i].0.as_str()) {
                    return None;
                }
                j += 1;
            }
            i += 1;
        }
        let distribution = FieldDistribution { entries };
        proof {
            assert forall|k: int| 0 <= k < entries@.len() implies distribution.count(
                (#[trigger] entries@[k]).0@,
            ) == entries@[k].1 by {
                distribution.lemma_entry(k);
            }
        }
        Some(distribution)
    }

    /// The number of fields that some document holds.
    pub fn len(&self) -> (n: usize)
        ensures
            n == self.spec_len(),
    {
        self.entries.len()
    }

    /// The number of entries.
    pub closed spec fn spec_len(&self) -> nat {
        self.entries@.len()
    }

    /// The position of the entry of `name`.
    fn position(&self, name: &str) -> (at: Option<usize>)
        requires
            self.wf(),
        ensures
            at is Some <==> self.has_entry(name@),
            at matches Some(i) ==> i < self.entries@.len() && self.entries@[i as int].0@ == name@,
    {
        let mut i: usize = 0;
        while i < self.entries.len()
            invariant
                i <= self.entries@.len(),
                forall|k: int| 0 <= k < i ==> (#[trigger] self.entries@[k]).0@ != name@,
            decreases self.entries.len() - i,
        {
            if self.entries[i].0.as_str().eq(name) {
                return Some(i);
            }
            i += 1;
        }
        None
    }

    /// The number of documents counted for `name`, if there is any.
    pub fn get(&self, name: &str) -> (count: Option<u64>)
        requires
            self.wf(),
        ensures
            count is Some <==> self.count(name@) > 0,
            count matches Some(c) ==> c == self.count(name@),
    {
        proof {
            self.lemma_positive(name@);
        }
        match self.position(name) {
            Some(i) => {
                proof {
                    self.lemma_entry(i as int);
                }
                Some(self.entries[i].1)
            },
            None => None,
        }
    }

    /// Counts one document more for `name`. A count that cannot grow
    /// stays as it is.
    pub fn increment(&mut self, name: &str)
        requires
            old(self).wf(),
        ensures
            final(self).wf(),
            final(self).count(name@) == if old(self).count(name@) < u64::MAX {
                (old(self).count(name@) + 1) as u64
            } else {
                u64::MAX
            },
            forall|other: Seq<char>| other != name@ ==> final(self).count(other) == old(self).count(other),
            final(self).total() == if old(self).count(name@) < u64::MAX {
                old(self).total() + 1
            } else {
                old(self).total()
            },
    {
        let ghost before = self.entries@;
        match self.position(name) {
            Some(i) => {
                proof {
                    self.lemma_entry(i as int);
                }
                let count = self.entries[i].1;
                if count < u64::MAX {
                    let entry = (name.to_owned(), count + 1);
                    self.entries.set(i, entry);
                    proof {
                        lemma_sum_update(before, i as int, self.entries@[i as int]);
                    }
                }
                proof {
                    self.lemma_entry(i as int);
                    assert forall|other: Seq<char>| other != name@ implies self.count(other)
                        == old(self).count(other) by {
                        self.lemma_same_elsewhere(*old(self), i as int, other);
                    }
                }
            },
            None => {
                self.entries.push((name.to_owned(), 1));
                proof {
                    let last = self.entries@.len() - 1;
                    assert(self.entries@.drop_last() =~= before);
                    self.lemma_entry(last);
                    assert forall|other: Seq<char>| other != name@ implies self.count(other)
                        == old(self).count(other) by {
                        if old(self).has_entry(other) {
                            let k = choose|k: int|
                                0 <= k < before.len() && (#[trigger] before[k]).0@ == other;
                            old(self).lemma_entry(k);
                            assert(self.entries@[k] == before[k]);
                            self.lemma_entry(k);
                        } else if self.has_entry(other) {
                            let k = choose|k: int|
                                0 <= k < self.entries@.len() && (#[trigger] self.entries@[k]).0@
                                    == other;
                            assert(before[k].0@ == other);
                        }
                    }
                }
            },
        }
    }

    /// The counts of the names other than that of entry `i` are the same
    /// in two distributions that differ in the count of that entry only.
    proof fn lemma_same_elsewhere(&self, before: FieldDistribution, i: int, other: Seq<char>)
        requires
            self.wf(),
            before.wf(),
            0 <= i < before.entries@.len(),
            self.entries@.len() == before.entries@.len(),
            forall|k: int|
                0 <= k < before.entries@.len() ==> (#[trigger] self.entries@[k]).0@
                    == before.entries@[k].0@,
            forall|k: int|
                0 <= k < before.entries@.len() && k != i ==> (#[trigger] self.entries@[k]).1
                    == before.entries@[k].1,
            other != before.entries@[i].0@,
        ensures
            self.count(other) == before.count(other),
    {
        if before.has_entry(other) {
            let k = choose|k: int|
                0 <= k < before.entries@.len() && (#[trigger] before.entries@[k]).0@ == other;
            before.lemma_entry(k);
            assert(self.entries@[k].0@ == other);
            self.lemma_entry(k);
        } else if self.has_entry(other) {
            let k = choose|k: int|
                0 <= k < self.entries@.len() && (#[trigger] self.entries@[k]).0@ == other;
            assert(before.entries@[k].0@ == other);
        }
    }

    /// Counts one document less for `name`, whose entry goes when no
    /// document is left. A name without an entry stays without one.
    pub fn decrement(&mut self, name: &str)
        requires
            old(self).wf(),
        ensures
            final(self).wf(),
            final(self).count(name@) == if old(self).count(name@) > 0 {
                (old(self).count(name@) - 1) as u64
            } else {
                0
            },
            forall|other: Seq<char>| other != name@ ==> final(self).count(other) == old(self).count(other),
            old(self).total() == if old(self).count(name@) > 0 {
                final(self).total() + 1
            } else {
                final(self).total()
            },
    {
        let ghost before = self.entries@;
        proof {
            self.lemma_positive(name@);
        }
        match self.position(name) {
            Some(i) => {
                proof {
                    self.lemma_entry(i as int);
                    lemma_sum_at_least(before, i as int);
                }
                let count = self.entries[i].1;
                if count > 1 {
                    let entry = (name.to_owned(), count - 1);
                    self.entries.set(i, entry);
                    proof {
                        lemma_sum_update(before, i as int, self.entries@[i as int]);
                        self.lemma_entry(i as int);
                        assert forall|other: Seq<char>| other != name@ implies self.count(other)
                            == old(self).count(other) by {
                            self.lemma_same_elsewhere(*old(self), i as int, other);
                        }
                    }
                } else {
                    self.entries.remove(i);
                    proof {
                        lemma_sum_remove(before, i as int);
                        assert(self.entries@ =~= before.remove(i as int));
                        assert(self.wf()) by {
                            assert forall|a: int, b: int| 0 <= a < b < self.entries@.len() implies self.entries@[a].0@
                                != self.entries@[b].0@ by {
                                let a0 = if a < i { a } else { a + 1 };
                                let b0 = if b < i { b } else { b + 1 };
                                assert(self.entries@[a] == before[a0] && self.entries@[b] == before[b0]);
                            }
                            assert forall|a: int| 0 <= a < self.entries@.len() implies (
                            #[trigger] self.entries@[a]).1 > 0 by {
                                let a0 = if a < i { a } else { a + 1 };
                                assert(self.entries@[a] == before[a0]);
                            }
                        }
                        assert(!self.has_entry(name@)) by {
                            if self.has_entry(name@) {
                                let k = choose|k: int|
                                    0 <= k < self.entries@.len() && (#[trigger] self.entries@[k]).0@
                                        == name@;
                                let k0 = if k < i { k } else { k + 1 };
                                assert(self.entries@[k] == before[k0]);
                                assert(before[k0].0@ == before[i as int].0@);
                            }
                        }
                        assert forall|other: Seq<char>| other != name@ implies self.count(other)
                            == old(self).count(other) by {
                            if old(self).has_entry(other) {
                                let k0 = choose|k: int|
                                    0 <= k < before.len() && (#[trigger] before[k]).0@ == other;
                                old(self).lemma_entry(k0);
                                let k = if k0 < i { k0 } else { k0 - 1 };
                                assert(self.entries@[k] == before[k0]);
                                self.lemma_entry(k);
                            } else if self.has_entry(other) {
                                let k = choose|k: int|
                                    0 <= k < self.entries@.len() && (#[trigger] self.entries@[k]).0@
                                        == other;
                                let k0 = if k < i { k } else { k + 1 };
                                assert(self.entries@[k] == before[k0]);
                                assert(before[k0].0@ == other);
                            }
                        }
                    }
                }
            },
            None => {},
        }
    }

    /// The entries: every name that some document holds, with the number
    /// of those documents.
    pub fn entries(&self) -> (entries: &Vec<(String, u64)>)
        requires
            self.wf(),
        ensures
            entries@.len() == self.spec_len(),
            forall|i: int|
                0 <= i < entries@.len() ==> (#[trigger] entries@[i]).1 == self.count(entries@[i].0@)
                    && entries@[i].1 > 0,
            forall|i: int, j: int| 0 <= i < j < entries@.len() ==> entries@[i].0@ != entries@[j].0@,
    {
        proof {
            assert forall|i: int| 0 <= i < self.entries@.len() implies (#[trigger] self.entries@[i]).1
                == self.count(self.entries@[i].0@) && self.entries@[i].1 > 0 by {
                self.lemma_entry(i);
            }
        }
        &self.entries
    }
}

impl Clone for FieldDistribution {
    fn clone(&self) -> (copy: FieldDistribution)
        ensures
            self.wf() ==> copy.wf(),
            copy.total() == self.total(),
            copy.spec_len() == self.spec_len(),
            self.wf() ==> forall|name: Seq<char>| copy.count(name) == self.count(name),
            self.wf() ==> copy.counts() == self.counts(),
    {
        let mut entries: Vec<(String, u64)> = Vec::new();
        let mut i: usize = 0;
        while i < self.entries.len()
            invariant
                i <= self.entries@.len(),
                entries@.len() == i,
                forall|k: int|
                    0 <= k < i ==> (#[trigger] entries@[k]).0@ == self.entries@[k].0@ && entries@[k].1
                        == self.entries@[k].1,
                sum_counts(entries@) == sum_counts(self.entries@.take(i as int)),
            decreases self.entries.len() - i,
        {
            let ghost before = entries@;
            entries.push((self.entries[i].0.clone(), self.entries[i].1));
            proof {
                assert(entries@.drop_last() =~= before);
                assert(self.entries@.take(i + 1).drop_last() =~= self.entries@.take(i as int));
            }
            i += 1;
        }
        let copy = FieldDistribution { entries };
        proof {
            assert(self.entries@.take(i as int) =~= self.entries@);
            if self.wf() {
                assert(copy.wf()) by {
                    assert forall|a: int, b: int| 0 <= a < b < copy.entries@.len() implies copy.entries@[a].0@
                        != copy.entries@[b].0@ by {
                        assert(copy.entries@[a].0@ == self.entries@[a].0@);
                        assert(copy.entries@[b].0@ == self.entries@[b].0@);
                    }
                    assert forall|a: int| 0 <= a < copy.entries@.len() implies (
                    #[trigger] copy.entries@[a]).1 > 0 by {
                        assert(self.entries@[a].1 > 0);
                    }
                }
                assert forall|name: Seq<char>| copy.count(name) == self.count(name) by {
                    if self.has_entry(name) {
                        let k = choose|k: int|
                            0 <= k < self.entries@.len() && (#[trigger] self.entries@[k]).0@ == name;
                        self.lemma_entry(k);
                        assert(copy.entries@[k].0@ == name);
                        copy.lemma_entry(k);
                    } else if copy.has_entry(name) {
                        let c = choose|c: int|
                            0 <= c < copy.entries@.len() && (#[trigger] copy.entries@[c]).0@ == name;
                        assert(self.entries@[c].0@ == name);
                    }
                }
                assert(copy.counts() =~= self.counts());
            }
        }
        copy
    }
}

/// The sum of the counts of `entries`.
pub open spec fn sum_counts(entries: Seq<(String, u64)>) -> nat
    decreases entries.len(),
{
    if entries.len() == 0 {
        0
    } else {
        sum_counts(entries.drop_last()) + entries.last().1 as nat
    }
}

proof fn lemma_sum_update(entries: Seq<(String, u64)>, i: int, entry: (String, u64))
    requires
        0 <= i < entries.len(),
    ensures
        sum_counts(entries.update(i, entry)) == sum_counts(entries) - entries[i].1 + entry.1,
    decreases entries.len(),
{
    let updated = entries.update(i, entry);
    if i == entries.len() - 1 {
        assert(updated.drop_last() =~= entries.drop_last());
    } else {
        assert(updated.drop_last() =~= entries.drop_last().update(i, entry));
        lemma_sum_update(entries.drop_last(), i, entry);
    }
}

proof fn lemma_sum_remove(entries: Seq<(String, u64)>, i: int)
    requires
        0 <= i < entries.len(),
    ensures
        sum_counts(entries.remove(i)) == sum_counts(entries) - entries[i].1,
    decreases entries.len(),
{
    let removed = entries.remove(i);
    if i == entries.len() - 1 {
        assert(removed =~= entries.drop_last());
    } else {
        assert(removed.drop_last() =~= entries.drop_last().remove(i));
        assert(removed.last() == entries.last());
        lemma_sum_remove(entries.drop_last(), i);
    }
}

proof fn lemma_sum_at_least(entries: Seq<(String, u64)>, i: int)
    requires
        0 <= i < entries.len(),
    ensures
        sum_counts(entries) >= entries[i].1,
    decreases entries.len(),
{
    if i < entries.len() - 1 {
        lemma_sum_at_least(entries.drop_last(), i);
    }
}

} // verus!
