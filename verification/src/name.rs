//! Names of variables, criteria, rules and response groups.
//!
//! A name is a string, held by its UTF-8 bytes. Names are ordered byte by
//! byte, which is the order of the strings themselves.
use vstd::prelude::*;
use vstd::string::*;

verus! {

/// A name: the bytes of a string.
#[derive(Debug)]
pub struct Name {
    pub bytes: Vec<u8>,
}

impl View for Name {
    type V = Seq<u8>;

    open spec fn view(&self) -> Seq<u8> {
        self.bytes@
    }
}

impl PartialEq for Name {
    fn eq(&self, other: &Name) -> (r: bool) {
        self.same(other)
    }
}

impl vstd::std_specs::cmp::PartialEqSpecImpl for Name {
    open spec fn obeys_eq_spec() -> bool {
        true
    }

    open spec fn eq_spec(&self, other: &Name) -> bool {
        self@ == other@
    }
}

impl Eq for Name {

}

/// How two names stand to each other in the order of names.
#[derive(Clone, Copy, Debug, PartialEq, Eq, Structural)]
pub enum Placement {
    Before,
    Same,
    After,
}

/// `a` comes strictly before `b`: at the first place where they differ `a`
/// has the smaller byte, or `a` ends there and `b` goes on.
pub open spec fn precedes(a: Seq<u8>, b: Seq<u8>) -> bool
    decreases a.len(),
{
    if b.len() == 0 {
        false
    } else if a.len() == 0 {
        true
    } else if a[0] != b[0] {
        a[0] < b[0]
    } else {
        precedes(a.drop_first(), b.drop_first())
    }
}

/// `a` comes before `b` or is `b`.
pub open spec fn precedes_or_same(a: Seq<u8>, b: Seq<u8>) -> bool {
    a == b || precedes(a, b)
}

/// No name comes before itself.
pub proof fn lemma_precedes_irreflexive(a: Seq<u8>)
    ensures
        !precedes(a, a),
    decreases a.len(),
{
    if a.len() > 0 {
        lemma_precedes_irreflexive(a.drop_first());
    }
}

/// Of two names exactly one holds: the first comes before the second, they
/// are the same, or the second comes before the first.
pub proof fn lemma_precedes_trichotomy(a: Seq<u8>, b: Seq<u8>)
    ensures
        precedes(a, b) || a == b || precedes(b, a),
        !(precedes(a, b) && precedes(b, a)),
        !(precedes(a, b) && a == b),
    decreases a.len(),
{
    if a.len() == 0 || b.len() == 0 {
        if a.len() == 0 && b.len() == 0 {
            assert(a =~= b);
        }
    } else if a[0] == b[0] {
        lemma_precedes_trichotomy(a.drop_first(), b.drop_first());
        if a.drop_first() == b.drop_first() {
            assert(a =~= seq![a[0]] + a.drop_first());
            assert(b =~= seq![b[0]] + b.drop_first());
        }
        if a == b {
            lemma_precedes_irreflexive(a);
        }
    }
}

/// The order of names is transitive.
pub proof fn lemma_precedes_transitive(a: Seq<u8>, b: Seq<u8>, c: Seq<u8>)
    requires
        precedes(a, b),
        precedes(b, c),
    ensures
        precedes(a, c),
    decreases a.len(),
{
    if a.len() > 0 && a[0] == b[0] && b[0] == c[0] {
        lemma_precedes_transitive(a.drop_first(), b.drop_first(), c.drop_first());
    }
}

/// Two names that agree on their first `n` bytes are ordered as their
/// remainders are.
pub proof fn lemma_precedes_after_common_prefix(a: Seq<u8>, b: Seq<u8>, n: int)
    requires
        0 <= n <= a.len(),
        n <= b.len(),
        forall|j: int| 0 <= j < n ==> a[j] == b[j],
    ensures
        precedes(a, b) == precedes(a.skip(n), b.skip(n)),
    decreases n,
{
    if n == 0 {
        assert(a.skip(0) =~= a);
        assert(b.skip(0) =~= b);
    } else {
        let a1 = a.drop_first();
        let b1 = b.drop_first();
        assert forall|j: int| 0 <= j < n - 1 implies a1[j] == b1[j] by {
            assert(a1[j] == a[j + 1]);
            assert(b1[j] == b[j + 1]);
        }
        lemma_precedes_after_common_prefix(a1, b1, n - 1);
        assert(a1.skip(n - 1) =~= a.skip(n));
        assert(b1.skip(n - 1) =~= b.skip(n));
        assert(a[0] == b[0]);
    }
}

impl Name {
    /// The name that a string spells.
    pub fn new(text: &str) -> (r: Name)
        ensures
            r@ == text.spec_bytes(),
    {
        Name { bytes: text.as_bytes_vec() }
    }

    /// The name made of the given bytes.
    pub fn from_bytes(bytes: Vec<u8>) -> (r: Name)
        ensures
            r@ == bytes@,
    {
        Name { bytes }
    }

    /// The name made of the bytes of a slice.
    pub fn from_slice(bytes: &[u8]) -> (r: Name)
        ensures
            r@ == bytes@,
    {
        let mut copy: Vec<u8> = Vec::new();
        let mut i: usize = 0;
        while i < bytes.len()
            invariant
                i <= bytes.len(),
                copy@ == bytes@.subrange(0, i as int),
            decreases bytes.len() - i,
        {
            copy.push(bytes[i]);
            i += 1;
            assert(copy@ =~= bytes@.subrange(0, i as int));
        }
        assert(bytes@.subrange(0, bytes.len() as int) =~= bytes@);
        Name { bytes: copy }
    }

    /// A copy of the name.
    pub fn duplicate(&self) -> (r: Name)
        ensures
            r@ == self@,
    {
        Name::from_slice(self.bytes.as_slice())
    }

    /// The bytes of the name.
    pub fn as_bytes(&self) -> (r: &[u8])
        ensures
            r@ == self@,
    {
        self.bytes.as_slice()
    }

    /// The number of bytes in the name.
    pub fn len(&self) -> (r: usize)
        ensures
            r == self@.len(),
    {
        self.bytes.len()
    }

    /// Where `self` stands relative to `other` in the order of names.
    pub fn placement(&self, other: &Name) -> (r: Placement)
        ensures
            r == Placement::Before <==> precedes(self@, other@),
            r == Placement::Same <==> self@ == other@,
            r == Placement::After <==> precedes(other@, self@),
    {
        let a = self.bytes.as_slice();
        let b = other.bytes.as_slice();
        let mut i: usize = 0;
        while i < a.len() && i < b.len() && a[i] == b[i]
            invariant
                i <= a.len(),
                i <= b.len(),
                forall|j: int| 0 <= j < i ==> a@[j] == b@[j],
            decreases a.len() - i,
        {
            i += 1;
        }
        proof {
            lemma_precedes_after_common_prefix(a@, b@, i as int);
            lemma_precedes_after_common_prefix(b@, a@, i as int);
            lemma_precedes_trichotomy(a@, b@);
            if i == a.len() && i == b.len() {
                assert(a@ =~= b@);
            }
        }
        if i == a.len() && i == b.len() {
            Placement::Same
        } else if i == a.len() {
            Placement::Before
        } else if i == b.len() {
            Placement::After
        } else if a[i] < b[i] {
            Placement::Before
        } else {
            Placement::After
        }
    }

    /// Whether the two names are the same.
    pub fn same(&self, other: &Name) -> (r: bool)
        ensures
            r == (self@ == other@),
    {
        self.placement(other) == Placement::Same
    }

    /// Whether the name is the given bytes.
    pub fn is(&self, bytes: &[u8]) -> (r: bool)
        ensures
            r == (self@ == bytes@),
    {
        let a = self.bytes.as_slice();
        if a.len() != bytes.len() {
            return false;
        }
        let mut i: usize = 0;
        while i < a.len()
            invariant
                i <= a.len(),
                a.len() == bytes.len(),
                a@ == self@,
                forall|j: int| 0 <= j < i ==> a@[j] == bytes@[j],
            decreases a.len() - i,
        {
            if a[i] != bytes[i] {
                assert(a@[i as int] != bytes@[i as int]);
                return false;
            }
            i += 1;
        }
        assert(a@ =~= bytes@);
        true
    }
}

} // verus!
