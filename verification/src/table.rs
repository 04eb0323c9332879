//! Tables: maps from names to values of any kind, kept in ascending order of
//! name.
use crate::name::lemma_precedes_irreflexive;
use crate::name::lemma_precedes_trichotomy;
use crate::name::precedes;
use crate::name::Name;
use crate::name::Placement;
use crate::props::ascending;
use crate::props::first_not_before;
use crate::props::holds;
use crate::props::lemma_lookup_at;
use crate::props::lemma_first_not_before;
use crate::props::lemma_lookup_gap;
use crate::props::lemma_updated;
use crate::props::lemma_without;
use crate::props::lookup;
use crate::props::updated;
use crate::props::without;
use vstd::prelude::*;

verus! {

/// A map from names to values, kept in ascending order of name.
#[derive(Debug)]
pub struct Table<T> {
    entries: Vec<(Name, T)>,
}

impl<T> View for Table<T> {
    type V = Seq<(Seq<u8>, T)>;

    /// The entries in the order in which they are kept.
    closed spec fn view(&self) -> Seq<(Seq<u8>, T)> {
        Seq::new(self.entries@.len(), |i: int| (self.entries@[i].0@, self.entries@[i].1))
    }
}

impl<T> Table<T> {
    /// The names are strictly ascending, so each occurs once.
    pub open spec fn wf(&self) -> bool {
        ascending(self@)
    }

    /// The value that the table gives for a name.
    pub open spec fn value_of(&self, name: Seq<u8>) -> Option<T> {
        lookup(self@, name)
    }

    /// The empty table.
    pub fn new() -> (r: Table<T>)
        ensures
            r@.len() == 0,
            r.wf(),
    {
        Table { entries: Vec::new() }
    }

    /// The number of entries.
    pub fn len(&self) -> (r: usize)
        ensures
            r == self@.len(),
    {
        self.entries.len()
    }

    /// The name of the entry at a place.
    pub fn name_at(&self, i: usize) -> (r: &Name)
        requires
            i < self@.len(),
        ensures
            r@ == self@[i as int].0,
    {
        &self.entries[i].0
    }

    /// The value of the entry at a place.
    pub fn value_at(&self, i: usize) -> (r: &T)
        requires
            i < self@.len(),
        ensures
            *r == self@[i as int].1,
    {
        &self.entries[i].1
    }

    /// The first place whose name does not come before `name`, and whether
    /// the name at that place is `name`.
    pub fn position(&self, name: &Name) -> (r: (usize, bool))
        requires
            self.wf(),
        ensures
            r.0 == first_not_before(self@, 0, name@),
            r.0 <= self@.len(),
            r.1 == (r.0 < self@.len() && self@[r.0 as int].0 == name@),
            r.1 == holds(self@, name@),
            r.1 ==> lookup(self@, name@) == Some(self@[r.0 as int].1),
            !r.1 ==> lookup(self@, name@).is_none(),
    {
        let mut k: usize = 0;
        while k < self.entries.len()
            invariant
                k <= self.entries.len(),
                self.wf(),
                forall|i: int| 0 <= i < k ==> precedes(#[trigger] self@[i].0, name@),
                first_not_before(self@, 0, name@) == first_not_before(self@, k as int, name@),
            decreases self.entries.len() - k,
        {
            match self.entries[k].0.placement(name) {
                Placement::Before => {
                    k += 1;
                },
                Placement::Same => {
                    proof {
                        assert(self@[k as int].0 == name@);
                        lemma_precedes_irreflexive(name@);
                        lemma_lookup_at(self@, k as int);
                    }
                    return (k, true);
                },
                Placement::After => {
                    proof {
                        lemma_lookup_gap(self@, name@, k as int);
                        lemma_precedes_trichotomy(self@[k as int].0, name@);
                    }
                    return (k, false);
                },
            }
        }
        proof {
            lemma_lookup_gap(self@, name@, k as int);
        }
        (k, false)
    }

    /// The value under a name, if the table has one.
    pub fn get(&self, name: &Name) -> (r: Option<&T>)
        requires
            self.wf(),
        ensures
            match r {
                Some(v) => self.value_of(name@) == Some(*v),
                None => self.value_of(name@).is_none(),
            },
    {
        let (k, found) = self.position(name);
        if found {
            Some(&self.entries[k].1)
        } else {
            None
        }
    }

    /// Whether the table has a value under a name.
    pub fn contains(&self, name: &Name) -> (r: bool)
        requires
            self.wf(),
        ensures
            r == holds(self@, name@),
    {
        let (_, found) = self.position(name);
        found
    }

    /// Gives a name a value, in place of the one it had if it had one.
    pub fn insert(&mut self, name: Name, value: T)
        requires
            old(self).wf(),
        ensures
            final(self).wf(),
            final(self)@ == updated(old(self)@, name@, value),
            final(self).value_of(name@) == Some(value),
            forall|n: Seq<u8>| n != name@ ==> final(self).value_of(n) == old(self).value_of(n),
    {
        let (k, found) = self.position(&name);
        let ghost before = self@;
        let ghost n = name@;
        proof {
            lemma_updated(before, n, value);
        }
        if found {
            self.entries.set(k, (name, value));
            assert(self@ =~= before.update(k as int, (n, value)));
        } else {
            self.entries.insert(k, (name, value));
            assert(self@ =~= before.insert(k as int, (n, value)));
        }
    }

    /// Takes a name out of the table and gives the value it had, if it had
    /// one.
    pub fn remove(&mut self, name: &Name) -> (r: Option<T>)
        requires
            old(self).wf(),
        ensures
            final(self).wf(),
            final(self)@ == without(old(self)@, name@),
            r == old(self).value_of(name@),
            final(self).value_of(name@).is_none(),
            forall|n: Seq<u8>| n != name@ ==> final(self).value_of(n) == old(self).value_of(n),
    {
        let (k, found) = self.position(name);
        let ghost before = self@;
        proof {
            lemma_without(before, name@);
        }
        if found {
            let entry = self.entries.remove(k);
            assert(self@ =~= before.remove(k as int));
            Some(entry.1)
        } else {
            None
        }
    }

    /// The names of the table, in ascending order.
    pub fn keys(&self) -> (r: Vec<Name>)
        ensures
            r@.len() == self@.len(),
            forall|i: int| 0 <= i < r@.len() ==> (#[trigger] r@[i])@ == self@[i].0,
    {
        let mut out: Vec<Name> = Vec::new();
        let mut i: usize = 0;
        while i < self.entries.len()
            invariant
                i <= self.entries.len(),
                out@.len() == i,
                forall|j: int| 0 <= j < i ==> (#[trigger] out@[j])@ == self@[j].0,
            decreases self.entries.len() - i,
        {
            out.push(self.entries[i].0.duplicate());
            i += 1;
        }
        out
    }

    /// The entries of the table from the last to the first.
    pub fn into_reversed(self) -> (r: Vec<(Name, T)>)
        ensures
            r@.len() == self@.len(),
            forall|i: int|
                0 <= i < r@.len() ==> (#[trigger] r@[i]).0@ == self@[self@.len() - 1 - i].0
                    && r@[i].1 == self@[self@.len() - 1 - i].1,
    {
        let ghost all = self@;
        let mut entries = self.entries;
        let mut out: Vec<(Name, T)> = Vec::new();
        while entries.len() > 0
            invariant
                entries@.len() + out@.len() == all.len(),
                forall|j: int|
                    0 <= j < entries@.len() ==> (#[trigger] entries@[j]).0@ == all[j].0
                        && entries@[j].1 == all[j].1,
                forall|i: int|
                    0 <= i < out@.len() ==> (#[trigger] out@[i]).0@ == all[all.len() - 1 - i].0
                        && out@[i].1 == all[all.len() - 1 - i].1,
            decreases entries@.len(),
        {
            let entry = entries.pop().unwrap();
            out.push(entry);
        }
        out
    }
}

/// The entries of a table, with each value as its view.
pub open spec fn viewed<T: View>(entries: Seq<(Seq<u8>, T)>) -> Seq<(Seq<u8>, T::V)> {
    Seq::new(entries.len(), |i: int| (entries[i].0, entries[i].1@))
}

/// The place where a name belongs in a table does not depend on the values.
pub proof fn lemma_viewed_place<T: View>(entries: Seq<(Seq<u8>, T)>, from: int, name: Seq<u8>)
    requires
        0 <= from <= entries.len(),
    ensures
        first_not_before(viewed(entries), from, name) == first_not_before(entries, from, name),
    decreases entries.len() - from,
{
    if from < entries.len() {
        assert(viewed(entries)[from].0 == entries[from].0);
        lemma_viewed_place(entries, from + 1, name);
    }
}

/// Giving a name a value in a table does to the views of the values what
/// it does to the table.
pub proof fn lemma_viewed_updated<T: View>(entries: Seq<(Seq<u8>, T)>, name: Seq<u8>, value: T)
    ensures
        viewed(updated(entries, name, value)) == updated(viewed(entries), name, value@),
{
    lemma_viewed_place(entries, 0, name);
    lemma_first_not_before(entries, 0, name);
    let k = first_not_before(entries, 0, name);
    if k < entries.len() {
        assert(viewed(entries)[k].0 == entries[k].0);
    }
    assert(viewed(updated(entries, name, value)) =~= updated(viewed(entries), name, value@));
}

} // verus!
