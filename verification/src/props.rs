//! Property sets: ordered maps from names to values.
use crate::name::lemma_precedes_irreflexive;
use crate::name::lemma_precedes_transitive;
use crate::name::lemma_precedes_trichotomy;
use crate::name::precedes;
use crate::name::Name;
use crate::name::Placement;
use crate::value::Value;
use crate::value::ValueView;
use vstd::prelude::*;

verus! {

/// The names of a list of entries are strictly ascending.
pub open spec fn ascending<V>(s: Seq<(Seq<u8>, V)>) -> bool {
    forall|i: int, j: int| 0 <= i < j < s.len() ==> precedes(#[trigger] s[i].0, #[trigger] s[j].0)
}

/// Some entry of the list has the given name.
pub open spec fn holds<V>(s: Seq<(Seq<u8>, V)>, name: Seq<u8>) -> bool {
    exists|i: int| 0 <= i < s.len() && #[trigger] s[i].0 == name
}

/// What the list gives for a name: the value of an entry with that name.
pub open spec fn lookup<V>(s: Seq<(Seq<u8>, V)>, name: Seq<u8>) -> Option<V> {
    if holds(s, name) {
        Some(s[choose|i: int| 0 <= i < s.len() && #[trigger] s[i].0 == name].1)
    } else {
        None
    }
}

/// In an ascending list an entry is the only one with its name.
pub proof fn lemma_lookup_at<V>(s: Seq<(Seq<u8>, V)>, i: int)
    requires
        ascending(s),
        0 <= i < s.len(),
    ensures
        lookup(s, s[i].0) == Some(s[i].1),
{
    let name = s[i].0;
    let j = choose|j: int| 0 <= j < s.len() && #[trigger] s[j].0 == name;
    lemma_precedes_irreflexive(name);
    if j < i {
        assert(precedes(s[j].0, s[i].0));
    } else if i < j {
        assert(precedes(s[i].0, s[j].0));
    }
}

/// A name that falls strictly between two neighbours of an ascending list,
/// before its first entry or after its last, is not in the list.
pub proof fn lemma_lookup_gap<V>(s: Seq<(Seq<u8>, V)>, name: Seq<u8>, k: int)
    requires
        ascending(s),
        0 <= k <= s.len(),
        forall|i: int| 0 <= i < k ==> precedes(#[trigger] s[i].0, name),
        k < s.len() ==> precedes(name, s[k].0),
    ensures
        !holds(s, name),
        lookup(s, name).is_none(),
{
    lemma_precedes_irreflexive(name);
    assert forall|i: int| 0 <= i < s.len() implies #[trigger] s[i].0 != name by {
        if i < k {
            assert(precedes(s[i].0, name));
        } else if i == k {
        } else {
            assert(precedes(s[k].0, s[i].0));
            if s[i].0 == name {
                lemma_precedes_trichotomy(name, s[k].0);
            }
        }
    }
}

/// Putting an entry where its name belongs keeps the list ascending, makes
/// the name give the new value and leaves every other name as it was.
pub proof fn lemma_insert_entry<V>(s: Seq<(Seq<u8>, V)>, k: int, name: Seq<u8>, value: V)
    requires
        ascending(s),
        0 <= k <= s.len(),
        forall|i: int| 0 <= i < k ==> precedes(#[trigger] s[i].0, name),
        k < s.len() ==> precedes(name, s[k].0),
    ensures
        ascending(s.insert(k, (name, value))),
        lookup(s.insert(k, (name, value)), name) == Some(value),
        forall|n: Seq<u8>| n != name ==> lookup(s.insert(k, (name, value)), n) == lookup(s, n),
{
    let t = s.insert(k, (name, value));
    assert forall|i: int, j: int| 0 <= i < j < t.len() implies precedes(
        #[trigger] t[i].0,
        #[trigger] t[j].0,
    ) by {
        if j < k {
            assert(t[i] == s[i] && t[j] == s[j]);
        } else if j == k {
            assert(t[i] == s[i]);
        } else if i < k {
            assert(t[i] == s[i] && t[j] == s[j - 1]);
            if j - 1 == k {
                lemma_precedes_transitive(s[i].0, name, s[k].0);
            } else {
                assert(precedes(s[i].0, s[j - 1].0));
            }
        } else if i == k {
            assert(t[j] == s[j - 1]);
            if j - 1 > k {
                assert(precedes(s[k].0, s[j - 1].0));
                lemma_precedes_transitive(name, s[k].0, s[j - 1].0);
            }
        } else {
            assert(t[i] == s[i - 1] && t[j] == s[j - 1]);
            assert(precedes(s[i - 1].0, s[j - 1].0));
        }
    }
    assert(t[k] == (name, value));
    lemma_lookup_at(t, k);
    assert forall|n: Seq<u8>| n != name implies lookup(t, n) == lookup(s, n) by {
        if holds(s, n) {
            let i = choose|i: int| 0 <= i < s.len() && #[trigger] s[i].0 == n;
            lemma_lookup_at(s, i);
            let i2 = if i < k { i } else { i + 1 };
            assert(t[i2] == s[i]);
            lemma_lookup_at(t, i2);
        } else if holds(t, n) {
            let i = choose|i: int| 0 <= i < t.len() && #[trigger] t[i].0 == n;
            if i < k {
                assert(t[i] == s[i]);
            } else {
                assert(t[i] == s[i - 1]);
                assert(s[i - 1].0 == n);
            }
        }
    }
}

/// Replacing the value of an entry keeps the list ascending, makes its name
/// give the new value and leaves every other name as it was.
pub proof fn lemma_update_entry<V>(s: Seq<(Seq<u8>, V)>, k: int, value: V)
    requires
        ascending(s),
        0 <= k < s.len(),
    ensures
        ascending(s.update(k, (s[k].0, value))),
        lookup(s.update(k, (s[k].0, value)), s[k].0) == Some(value),
        forall|n: Seq<u8>| n != s[k].0 ==> lookup(s.update(k, (s[k].0, value)), n) == lookup(s, n),
{
    let name = s[k].0;
    let t = s.update(k, (name, value));
    assert forall|i: int, j: int| 0 <= i < j < t.len() implies precedes(
        #[trigger] t[i].0,
        #[trigger] t[j].0,
    ) by {
        assert(t[i].0 == s[i].0 && t[j].0 == s[j].0);
    }
    lemma_lookup_at(t, k);
    assert forall|n: Seq<u8>| n != name implies lookup(t, n) == lookup(s, n) by {
        if holds(s, n) {
            let i = choose|i: int| 0 <= i < s.len() && #[trigger] s[i].0 == n;
            lemma_lookup_at(s, i);
            assert(t[i] == s[i]);
            lemma_lookup_at(t, i);
        } else if holds(t, n) {
            let i = choose|i: int| 0 <= i < t.len() && #[trigger] t[i].0 == n;
            assert(s[i].0 == n);
        }
    }
}

/// Taking an entry out keeps the list ascending, leaves its name without a
/// value and every other name as it was.
pub proof fn lemma_remove_entry<V>(s: Seq<(Seq<u8>, V)>, k: int)
    requires
        ascending(s),
        0 <= k < s.len(),
    ensures
        ascending(s.remove(k)),
        lookup(s.remove(k), s[k].0).is_none(),
        forall|n: Seq<u8>| n != s[k].0 ==> lookup(s.remove(k), n) == lookup(s, n),
{
    let name = s[k].0;
    let t = s.remove(k);
    assert forall|i: int, j: int| 0 <= i < j < t.len() implies precedes(
        #[trigger] t[i].0,
        #[trigger] t[j].0,
    ) by {
        let i2 = if i < k { i } else { i + 1 };
        let j2 = if j < k { j } else { j + 1 };
        assert(t[i] == s[i2] && t[j] == s[j2]);
        assert(precedes(s[i2].0, s[j2].0));
    }
    assert forall|i: int| 0 <= i < k implies precedes(#[trigger] t[i].0, name) by {
        assert(t[i] == s[i]);
        assert(precedes(s[i].0, s[k].0));
    }
    if k < t.len() {
        assert(t[k] == s[k + 1]);
        assert(precedes(s[k].0, s[k + 1].0));
    }
    lemma_lookup_gap(t, name, k);
    assert forall|n: Seq<u8>| n != name implies lookup(t, n) == lookup(s, n) by {
        if holds(s, n) {
            let i = choose|i: int| 0 <= i < s.len() && #[trigger] s[i].0 == n;
            lemma_lookup_at(s, i);
            let i2 = if i < k { i } else { i - 1 };
            assert(t[i2] == s[i]);
            lemma_lookup_at(t, i2);
        } else if holds(t, n) {
            let i = choose|i: int| 0 <= i < t.len() && #[trigger] t[i].0 == n;
            let i2 = if i < k { i } else { i + 1 };
            assert(t[i] == s[i2]);
            assert(s[i2].0 == n);
        }
    }
}

/// The first place at or after `from` whose name does not come before
/// `name`, or the length of the list where there is none.
pub open spec fn first_not_before<V>(s: Seq<(Seq<u8>, V)>, from: int, name: Seq<u8>) -> int
    decreases s.len() - from,
{
    if from < 0 || from >= s.len() {
        s.len() as int
    } else if precedes(s[from].0, name) {
        first_not_before(s, from + 1, name)
    } else {
        from
    }
}

/// The list with `name` given `value`: in place of the value it had, or as
/// a new entry where the name belongs.
pub open spec fn updated<V>(s: Seq<(Seq<u8>, V)>, name: Seq<u8>, value: V) -> Seq<(Seq<u8>, V)> {
    let k = first_not_before(s, 0, name);
    if k < s.len() && s[k].0 == name {
        s.update(k, (name, value))
    } else {
        s.insert(k, (name, value))
    }
}

/// The list without the entry of `name`, if it has one.
pub open spec fn without<V>(s: Seq<(Seq<u8>, V)>, name: Seq<u8>) -> Seq<(Seq<u8>, V)> {
    let k = first_not_before(s, 0, name);
    if k < s.len() && s[k].0 == name {
        s.remove(k)
    } else {
        s
    }
}

/// The place that `first_not_before` gives lies between `from` and the end;
/// the entries passed come before the name and the entry reached does not.
pub proof fn lemma_first_not_before<V>(s: Seq<(Seq<u8>, V)>, from: int, name: Seq<u8>)
    requires
        0 <= from <= s.len(),
    ensures
        from <= first_not_before(s, from, name) <= s.len(),
        forall|i: int|
            from <= i < first_not_before(s, from, name) ==> precedes(#[trigger] s[i].0, name),
        first_not_before(s, from, name) < s.len() ==> !precedes(
            s[first_not_before(s, from, name)].0,
            name,
        ),
    decreases s.len() - from,
{
    if from < s.len() && precedes(s[from].0, name) {
        lemma_first_not_before(s, from + 1, name);
    }
}

/// Giving a name a value keeps an ascending list ascending, makes the name
/// give that value and leaves every other name as it was.
pub proof fn lemma_updated<V>(s: Seq<(Seq<u8>, V)>, name: Seq<u8>, value: V)
    requires
        ascending(s),
    ensures
        ascending(updated(s, name, value)),
        lookup(updated(s, name, value), name) == Some(value),
        forall|n: Seq<u8>| n != name ==> lookup(updated(s, name, value), n) == lookup(s, n),
        updated(s, name, value).len() == s.len() + if holds(s, name) { 0int } else { 1int },
{
    let k = first_not_before(s, 0, name);
    lemma_first_not_before(s, 0, name);
    if k < s.len() && s[k].0 == name {
        lemma_update_entry(s, k, value);
    } else {
        if k < s.len() {
            lemma_precedes_trichotomy(s[k].0, name);
        }
        lemma_insert_entry(s, k, name, value);
        lemma_lookup_gap(s, name, k);
    }
}

/// Giving a value to a name that comes after every name of the list puts
/// the new entry at the end.
pub proof fn lemma_updated_at_end<V>(s: Seq<(Seq<u8>, V)>, name: Seq<u8>, value: V)
    requires
        forall|i: int| 0 <= i < s.len() ==> precedes(#[trigger] s[i].0, name),
    ensures
        updated(s, name, value) == s.push((name, value)),
        first_not_before(s, 0, name) == s.len(),
{
    lemma_first_not_before(s, 0, name);
    let k = first_not_before(s, 0, name);
    if k < s.len() {
        assert(precedes(s[k].0, name));
    }
    assert(s.insert(s.len() as int, (name, value)) =~= s.push((name, value)));
}

/// Taking a name out keeps an ascending list ascending, leaves the name
/// without a value and every other name as it was.
pub proof fn lemma_without<V>(s: Seq<(Seq<u8>, V)>, name: Seq<u8>)
    requires
        ascending(s),
    ensures
        ascending(without(s, name)),
        lookup(without(s, name), name).is_none(),
        forall|n: Seq<u8>| n != name ==> lookup(without(s, name), n) == lookup(s, n),
{
    let k = first_not_before(s, 0, name);
    lemma_first_not_before(s, 0, name);
    if k < s.len() && s[k].0 == name {
        lemma_remove_entry(s, k);
    } else {
        if k < s.len() {
            lemma_precedes_trichotomy(s[k].0, name);
        }
        lemma_lookup_gap(s, name, k);
    }
}

/// A property set: names with their values, kept in ascending order of
/// name.
#[derive(Debug)]
pub struct Props {
    entries: Vec<(Name, Value)>,
}

impl View for Props {
    type V = Seq<(Seq<u8>, ValueView)>;

    /// The entries in the order in which they are kept.
    closed spec fn view(&self) -> Seq<(Seq<u8>, ValueView)> {
        Seq::new(self.entries@.len(), |i: int| (self.entries@[i].0@, self.entries@[i].1@))
    }
}

impl Props {
    /// The names are strictly ascending, so each occurs once.
    pub open spec fn wf(&self) -> bool {
        ascending(self@)
    }

    /// The value that the set gives for a name.
    pub open spec fn value_of(&self, name: Seq<u8>) -> Option<ValueView> {
        lookup(self@, name)
    }

    /// The empty property set.
    pub fn new() -> (r: Props)
        ensures
            r@.len() == 0,
            r.wf(),
    {
        Props { entries: Vec::new() }
    }

    /// The number of entries.
    pub fn len(&self) -> (r: usize)
        ensures
            r == self@.len(),
    {
        self.entries.len()
    }

    /// The name of the entry at a place.
    pub fn name_at(&self, i: usize) -> (r: &Name)
        requires
            i < self@.len(),
        ensures
            r@ == self@[i as int].0,
    {
        &self.entries[i].0
    }

    /// The value of the entry at a place.
    pub fn value_at(&self, i: usize) -> (r: &Value)
        requires
            i < self@.len(),
        ensures
            r@ == self@[i as int].1,
    {
        &self.entries[i].1
    }

    /// The first place whose name does not come before `name`, and whether
    /// the name at that place is `name`.
    pub fn position(&self, name: &Name) -> (r: (usize, bool))
        requires
            self.wf(),
        ensures
            r.0 <= self@.len(),
            forall|i: int| 0 <= i < r.0 ==> precedes(#[trigger] self@[i].0, name@),
            r.1 ==> r.0 < self@.len() && self@[r.0 as int].0 == name@,
            !r.1 && r.0 < self@.len() ==> precedes(name@, self@[r.0 as int].0),
            r.1 == holds(self@, name@),
            r.0 == first_not_before(self@, 0, name@),
    {
        let mut k: usize = 0;
        while k < self.entries.len()
            invariant
                k <= self.entries.len(),
                self.wf(),
                forall|i: int| 0 <= i < k ==> precedes(#[trigger] self@[i].0, name@),
                first_not_before(self@, 0, name@) == first_not_before(self@, k as int, name@),
            decreases self.entries.len() - k,
        {
            match self.entries[k].0.placement(name) {
                Placement::Before => {
                    k += 1;
                },
                Placement::Same => {
                    assert(self@[k as int].0 == name@);
                    proof {
                        lemma_precedes_irreflexive(name@);
                    }
                    return (k, true);
                },
                Placement::After => {
                    proof {
                        lemma_lookup_gap(self@, name@, k as int);
                        lemma_precedes_trichotomy(self@[k as int].0, name@);
                    }
                    return (k, false);
                },
            }
        }
        proof {
            lemma_lookup_gap(self@, name@, k as int);
        }
        (k, false)
    }

    /// The value under a name, if the set has one.
    pub fn get_value(&self, name: &Name) -> (r: Option<Value>)
        requires
            self.wf(),
        ensures
            match r {
                Some(v) => self.value_of(name@) == Some(v@),
                None => self.value_of(name@).is_none(),
            },
    {
        let (k, found) = self.position(name);
        if found {
            proof {
                lemma_lookup_at(self@, k as int);
            }
            Some(self.entries[k].1.duplicate())
        } else {
            None
        }
    }

    /// The value under a name, or the default value where the set has none.
    pub fn get(&self, name: &Name) -> (r: Value)
        requires
            self.wf(),
        ensures
            r@ == match self.value_of(name@) {
                Some(v) => v,
                None => ValueView::Bool(false),
            },
    {
        match self.get_value(name) {
            Some(v) => v,
            None => Value::Bool(false),
        }
    }

    /// Gives a name a value, in place of the one it had if it had one.
    pub fn set(&mut self, name: Name, value: Value)
        requires
            old(self).wf(),
        ensures
            final(self).wf(),
            final(self).value_of(name@) == Some(value@),
            forall|n: Seq<u8>| n != name@ ==> final(self).value_of(n) == old(self).value_of(n),
            final(self)@.len() == old(self)@.len() + if holds(old(self)@, name@) { 0int } else { 1int },
            final(self)@ == updated(old(self)@, name@, value@),
    {
        let (k, found) = self.position(&name);
        let ghost before = self@;
        let ghost n = name@;
        let ghost v = value@;
        if found {
            self.entries.set(k, (name, value));
            proof {
                lemma_update_entry(before, k as int, v);
                assert(self@ =~= before.update(k as int, (n, v)));
            }
        } else {
            self.entries.insert(k, (name, value));
            proof {
                lemma_insert_entry(before, k as int, n, v);
                assert(self@ =~= before.insert(k as int, (n, v)));
            }
        }
    }

    /// The set with a name given a value.
    pub fn with(self, name: Name, value: Value) -> (r: Props)
        requires
            self.wf(),
        ensures
            r.wf(),
            r.value_of(name@) == Some(value@),
            forall|n: Seq<u8>| n != name@ ==> r.value_of(n) == self.value_of(n),
            r@ == updated(self@, name@, value@),
    {
        let mut props = self;
        props.set(name, value);
        props
    }

    /// Takes a name and its value out of the set.
    pub fn remove(&mut self, name: &Name)
        requires
            old(self).wf(),
        ensures
            final(self).wf(),
            final(self).value_of(name@).is_none(),
            forall|n: Seq<u8>| n != name@ ==> final(self).value_of(n) == old(self).value_of(n),
            final(self)@ == without(old(self)@, name@),
    {
        let (k, found) = self.position(name);
        let ghost before = self@;
        if found {
            self.entries.remove(k);
            proof {
                lemma_remove_entry(before, k as int);
                assert(self@ =~= before.remove(k as int));
            }
        }
    }

    /// Empties the set.
    pub fn clear(&mut self)
        ensures
            final(self)@.len() == 0,
            final(self).wf(),
    {
        self.entries.clear();
    }

    /// The names of the set, in ascending order.
    pub fn keys(&self) -> (r: Vec<Name>)
        ensures
            r@.len() == self@.len(),
            forall|i: int| 0 <= i < r@.len() ==> (#[trigger] r@[i])@ == self@[i].0,
    {
        let mut out: Vec<Name> = Vec::new();
        let mut i: usize = 0;
        while i < self.entries.len()
            invariant
                i <= self.entries.len(),
                out@.len() == i,
                forall|j: int| 0 <= j < i ==> (#[trigger] out@[j])@ == self@[j].0,
            decreases self.entries.len() - i,
        {
            out.push(self.entries[i].0.duplicate());
            i += 1;
        }
        out
    }

    /// The values of the set, in ascending order of their names.
    pub fn values(&self) -> (r: Vec<Value>)
        ensures
            r@.len() == self@.len(),
            forall|i: int| 0 <= i < r@.len() ==> (#[trigger] r@[i])@ == self@[i].1,
    {
        let mut out: Vec<Value> = Vec::new();
        let mut i: usize = 0;
        while i < self.entries.len()
            invariant
                i <= self.entries.len(),
                out@.len() == i,
                forall|j: int| 0 <= j < i ==> (#[trigger] out@[j])@ == self@[j].1,
            decreases self.entries.len() - i,
        {
            out.push(self.entries[i].1.duplicate());
            i += 1;
        }
        out
    }

    /// The names of the set, in ascending order, taken out of it.
    pub fn into_keys(self) -> (r: Vec<Name>)
        ensures
            r@.len() == self@.len(),
            forall|i: int| 0 <= i < r@.len() ==> (#[trigger] r@[i])@ == self@[i].0,
    {
        let ghost all = self@;
        let mut entries = self.entries;
        let mut reversed: Vec<Name> = Vec::new();
        while entries.len() > 0
            invariant
                entries@.len() + reversed@.len() == all.len(),
                forall|j: int| 0 <= j < entries@.len() ==> (#[trigger] entries@[j]).0@ == all[j].0,
                forall|i: int|
                    0 <= i < reversed@.len() ==> (#[trigger] reversed@[i])@ == all[all.len() - 1
                        - i].0,
            decreases entries@.len(),
        {
            let entry = entries.pop().unwrap();
            reversed.push(entry.0);
        }
        let mut out: Vec<Name> = Vec::new();
        while reversed.len() > 0
            invariant
                reversed@.len() + out@.len() == all.len(),
                forall|i: int|
                    0 <= i < reversed@.len() ==> (#[trigger] reversed@[i])@ == all[all.len() - 1
                        - i].0,
                forall|i: int| 0 <= i < out@.len() ==> (#[trigger] out@[i])@ == all[i].0,
            decreases reversed@.len(),
        {
            let name = reversed.pop().unwrap();
            out.push(name);
        }
        out
    }

    /// The values of the set, in ascending order of their names, taken out
    /// of it.
    pub fn into_values(self) -> (r: Vec<Value>)
        ensures
            r@.len() == self@.len(),
            forall|i: int| 0 <= i < r@.len() ==> (#[trigger] r@[i])@ == self@[i].1,
    {
        let ghost all = self@;
        let mut entries = self.entries;
        let mut reversed: Vec<Value> = Vec::new();
        while entries.len() > 0
            invariant
                entries@.len() + reversed@.len() == all.len(),
                forall|j: int| 0 <= j < entries@.len() ==> (#[trigger] entries@[j]).1@ == all[j].1,
                forall|i: int|
                    0 <= i < reversed@.len() ==> (#[trigger] reversed@[i])@ == all[all.len() - 1
                        - i].1,
            decreases entries@.len(),
        {
            let entry = entries.pop().unwrap();
            reversed.push(entry.1);
        }
        let mut out: Vec<Value> = Vec::new();
        while reversed.len() > 0
            invariant
                reversed@.len() + out@.len() == all.len(),
                forall|i: int|
                    0 <= i < reversed@.len() ==> (#[trigger] reversed@[i])@ == all[all.len() - 1
                        - i].1,
                forall|i: int| 0 <= i < out@.len() ==> (#[trigger] out@[i])@ == all[i].1,
            decreases reversed@.len(),
        {
            let value = reversed.pop().unwrap();
            out.push(value);
        }
        out
    }

    /// The value under a name, to read and to change; a name without a
    /// value gets the default value first.
    pub fn get_mut(&mut self, name: Name) -> (r: &mut Value)
        requires
            old(self).wf(),
        ensures
            r@ == match old(self).value_of(name@) {
                Some(v) => v,
                None => ValueView::Bool(false),
            },
            final(self)@ == updated(old(self)@, name@, final(r)@),
            final(self).wf(),
    {
        let (k, found) = self.position(&name);
        let ghost before = self@;
        let ghost n = name@;
        if !found {
            self.entries.insert(k, (name, Value::Bool(false)));
            proof {
                lemma_insert_entry(before, k as int, n, ValueView::Bool(false));
                assert(self@ =~= before.insert(k as int, (n, ValueView::Bool(false))));
            }
        } else {
            proof {
                lemma_lookup_at(before, k as int);
            }
        }
        proof {
            assert forall|v: ValueView| ascending(#[trigger] updated(before, n, v)) by {
                lemma_updated(before, n, v);
            }
        }
        &mut self.entries[k].1
    }
}

} // verus!
