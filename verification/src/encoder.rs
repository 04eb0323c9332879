//! The encoder: a growing table that gives every string a number of its own.
use crate::name::Name;
use crate::num;
use crate::value::Value;
use crate::value::ValueView;
use vstd::prelude::*;

verus! {

/// The code of the string that was seen after `i` others: the smallest
/// finite number stepped up `i` times.
pub open spec fn code(i: nat) -> u32
    decreases i,
{
    if i == 0 {
        num::MIN
    } else {
        num::next_up(code((i - 1) as nat))
    }
}

/// The number of strings that get codes below positive infinity. From the
/// next string on the codes stay at positive infinity.
pub open spec fn capacity() -> nat {
    0xfeff_ffff
}

/// Up to the capacity each code lies exactly one step above the one before
/// it.
pub proof fn lemma_code_rank(i: nat)
    requires
        i <= capacity(),
    ensures
        !num::is_nan(code(i)),
        num::rank(code(i)) == num::rank(num::MIN) + i,
    decreases i,
{
    if i > 0 {
        lemma_code_rank((i - 1) as nat);
        num::lemma_next_up_is_successor(code((i - 1) as nat), 0);
    }
}

/// Up to the capacity two strings seen at different times have different
/// codes, as bit patterns and as numbers, and the later one has the greater
/// code.
pub proof fn lemma_codes_differ(i: nat, j: nat)
    requires
        i < j <= capacity(),
    ensures
        code(i) != code(j),
        !num::eq(code(i), code(j)),
        num::lt(code(i), code(j)),
{
    lemma_code_rank(i);
    lemma_code_rank(j);
}

/// The place of a string in the list of the strings seen so far.
pub open spec fn place_of(names: Seq<Seq<u8>>, name: Seq<u8>) -> int {
    choose|i: int| 0 <= i < names.len() && names[i] == name
}

/// No string occurs twice in the list.
pub open spec fn distinct(names: Seq<Seq<u8>>) -> bool {
    forall|i: int, j: int| 0 <= i < j < names.len() ==> names[i] != names[j]
}

/// The code that a list of seen strings gives a string, if it has seen it.
pub open spec fn code_in(names: Seq<Seq<u8>>, name: Seq<u8>) -> Option<u32> {
    if names.contains(name) {
        Some(code(place_of(names, name) as nat))
    } else {
        None
    }
}

/// The number that stands for a value under a list of seen strings:
/// `0.0` or `1.0` for a boolean, a number itself, the code of a string.
pub open spec fn encoded(names: Seq<Seq<u8>>, value: ValueView) -> Option<u32> {
    match value {
        ValueView::Bool(b) => Some(num::of_bool(b)),
        ValueView::Num(n) => Some(n),
        ValueView::Str(s) => code_in(names, s),
    }
}

/// The list of seen strings after one more string has been shown to it.
pub open spec fn after_seeing(names: Seq<Seq<u8>>, name: Seq<u8>) -> Seq<Seq<u8>> {
    if names.contains(name) {
        names
    } else {
        names.push(name)
    }
}

/// The list of seen strings after a value has been shown to it: only a
/// string that is new makes it longer.
pub open spec fn after_seeing_value(names: Seq<Seq<u8>>, value: ValueView) -> Seq<Seq<u8>> {
    match value {
        ValueView::Str(s) => after_seeing(names, s),
        _ => names,
    }
}

/// A string keeps its code when more strings are seen.
pub proof fn lemma_code_stable(names: Seq<Seq<u8>>, more: Seq<Seq<u8>>, name: Seq<u8>)
    requires
        distinct(names + more),
        names.contains(name),
    ensures
        code_in(names + more, name) == code_in(names, name),
{
    let all = names + more;
    let i = place_of(names, name);
    assert(all[i] == name);
    assert(all.contains(name));
    let j = place_of(all, name);
    if i != j {
        if i < j {
            assert(all[i] != all[j]);
        } else {
            assert(all[j] != all[i]);
        }
    }
}

/// Seeing a string that is new keeps the list free of repeats.
pub proof fn lemma_after_seeing_distinct(names: Seq<Seq<u8>>, name: Seq<u8>)
    requires
        distinct(names),
    ensures
        distinct(after_seeing(names, name)),
        after_seeing(names, name).contains(name),
        exists|more: Seq<Seq<u8>>| after_seeing(names, name) == names + more,
{
    let t = after_seeing(names, name);
    if names.contains(name) {
        assert(t == names + Seq::<Seq<u8>>::empty());
    } else {
        assert forall|i: int, j: int| 0 <= i < j < t.len() implies t[i] != t[j] by {
            if j == names.len() {
                assert(names[i] == t[i]);
                if t[i] == name {
                    assert(names.contains(name));
                }
            } else {
                assert(names[i] != names[j]);
            }
        }
        assert(t[names.len() as int] == name);
        assert(t == names + seq![name]);
    }
}

/// Within the capacity two strings with the same code are the same string.
pub proof fn lemma_encoding_injective(names: Seq<Seq<u8>>, a: Seq<u8>, b: Seq<u8>)
    requires
        distinct(names),
        names.len() <= capacity() + 1,
        names.contains(a),
        names.contains(b),
        code_in(names, a) == code_in(names, b),
    ensures
        a == b,
{
    let i = place_of(names, a);
    let j = place_of(names, b);
    if i < j {
        lemma_codes_differ(i as nat, j as nat);
    } else if j < i {
        lemma_codes_differ(j as nat, i as nat);
    }
}

/// The encoder: the strings seen so far, each with its code, and the code
/// that the next new string will get.
#[derive(Debug)]
pub struct Encoder {
    next: u32,
    table: Vec<(Name, u32)>,
}

impl View for Encoder {
    type V = Seq<Seq<u8>>;

    /// The strings seen so far, in the order in which they were first seen.
    closed spec fn view(&self) -> Seq<Seq<u8>> {
        Seq::new(self.table@.len(), |i: int| self.table@[i].0@)
    }
}

impl Default for Encoder {
    /// An encoder that has seen nothing.
    fn default() -> (r: Encoder)
        ensures
            r.wf(),
            r@.len() == 0,
    {
        Encoder { next: num::MIN, table: Vec::new() }
    }
}

impl Encoder {
    /// No string is listed twice, each is stored with the code of its place,
    /// and the code held ready is that of the next place.
    pub closed spec fn wf(&self) -> bool {
        &&& distinct(self@)
        &&& forall|i: int| 0 <= i < self.table@.len() ==> (#[trigger] self.table@[i]).1 == code(i as nat)
        &&& self.next == code(self.table@.len())
    }

    /// The code of a string, if the encoder has seen it.
    pub open spec fn code_of(&self, name: Seq<u8>) -> Option<u32> {
        code_in(self@, name)
    }

    /// A well-formed encoder lists no string twice.
    pub proof fn lemma_wf_distinct(&self)
        requires
            self.wf(),
        ensures
            distinct(self@),
    {
    }

    /// An encoder that has seen nothing.
    pub fn new() -> (r: Encoder)
        ensures
            r.wf(),
            r@.len() == 0,
    {
        Encoder { next: num::MIN, table: Vec::new() }
    }

    /// The number of strings seen so far.
    pub fn len(&self) -> (r: usize)
        ensures
            r == self@.len(),
    {
        self.table.len()
    }

    /// The code of a string that the encoder has seen.
    pub fn find(&self, name: &Name) -> (r: Option<u32>)
        requires
            self.wf(),
        ensures
            r == self.code_of(name@),
    {
        let mut i: usize = 0;
        while i < self.table.len()
            invariant
                i <= self.table.len(),
                self.wf(),
                forall|j: int| 0 <= j < i ==> self@[j] != name@,
            decreases self.table.len() - i,
        {
            if self.table[i].0.same(name) {
                proof {
                    assert(self@[i as int] == name@);
                    assert(self@.contains(name@));
                    let p = place_of(self@, name@);
                    if p < i {
                        assert(self@[p] != name@);
                    } else if i < p {
                        assert(self@[i as int] != self@[p]);
                    }
                }
                return Some(self.table[i].1);
            }
            i += 1;
        }
        proof {
            if self@.contains(name@) {
                let p = place_of(self@, name@);
                assert(self@[p] != name@);
            }
        }
        None
    }

    /// The code of a string: the one it got when it was first seen, or, for
    /// a string that is new, the next code, which is then its own.
    pub fn encode_ustr(&mut self, name: &Name) -> (r: u32)
        requires
            old(self).wf(),
        ensures
            final(self).wf(),
            final(self)@ == after_seeing(old(self)@, name@),
            final(self).code_of(name@) == Some(r),
            old(self)@.contains(name@) ==> old(self).code_of(name@) == Some(r),
    {
        match self.find(name) {
            Some(c) => c,
            None => {
                let ghost before = self@;
                let c = self.next;
                self.table.push((name.duplicate(), c));
                self.next = num::step_up(c);
                proof {
                    assert(self@ =~= before.push(name@));
                    lemma_after_seeing_distinct(before, name@);
                    let p = place_of(self@, name@);
                    assert(self@[before.len() as int] == name@);
                    if p != before.len() {
                        assert(self@[p] != self@[before.len() as int]);
                    }
                }
                c
            },
        }
    }

    /// The number that stands for a value: `0.0` or `1.0` for a boolean, a
    /// number itself, and for a string its code.
    pub fn encode(&mut self, value: &Value) -> (r: u32)
        requires
            old(self).wf(),
        ensures
            final(self).wf(),
            final(self)@ == after_seeing_value(old(self)@, value@),
            encoded(final(self)@, value@) == Some(r),
    {
        match value {
            Value::Bool(b) => num::from_bool(*b),
            Value::Num(n) => *n,
            Value::Str(s) => self.encode_ustr(s),
        }
    }
}

/// Encoding a string twice gives the same code, and the second time the
/// encoder learns nothing.
pub proof fn lemma_encode_idempotent(names: Seq<Seq<u8>>, name: Seq<u8>)
    requires
        distinct(names),
    ensures
        after_seeing(after_seeing(names, name), name) == after_seeing(names, name),
        code_in(after_seeing(after_seeing(names, name), name), name) == code_in(
            after_seeing(names, name),
            name,
        ),
{
    lemma_after_seeing_distinct(names, name);
}

/// A string that the encoder has seen keeps its code whatever string is
/// shown to the encoder next.
pub proof fn lemma_encode_stable(names: Seq<Seq<u8>>, seen: Seq<u8>, next: Seq<u8>)
    requires
        distinct(names),
        names.contains(seen),
    ensures
        code_in(after_seeing(names, next), seen) == code_in(names, seen),
{
    lemma_after_seeing_distinct(names, next);
    let more = choose|more: Seq<Seq<u8>>| after_seeing(names, next) == names + more;
    lemma_code_stable(names, more, seen);
}

} // verus!
