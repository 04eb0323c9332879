//! Weakly typed values.
use crate::name::Name;
use crate::name::Placement;
use crate::name::precedes;
use crate::num;
use crate::soft;
use vstd::string::StringSliceAdditionalSpecFns;
use vstd::prelude::*;

verus! {

/// A value: a boolean, a number held by its bit pattern, or a string.
#[derive(Debug)]
pub enum Value {
    Bool(bool),
    Num(u32),
    Str(Name),
}

/// What a value is, with the string as a sequence of bytes.
pub enum ValueView {
    Bool(bool),
    Num(u32),
    Str(Seq<u8>),
}

impl View for Value {
    type V = ValueView;

    open spec fn view(&self) -> ValueView {
        match self {
            Value::Bool(b) => ValueView::Bool(*b),
            Value::Num(n) => ValueView::Num(*n),
            Value::Str(s) => ValueView::Str(s@),
        }
    }
}

impl ValueView {
    /// Two values are equal when they are of the same case and hold equal
    /// contents; numbers are compared as numbers, so a NaN equals nothing.
    pub open spec fn equals(self, other: ValueView) -> bool {
        match (self, other) {
            (ValueView::Bool(a), ValueView::Bool(b)) => a == b,
            (ValueView::Num(a), ValueView::Num(b)) => num::eq(a, b),
            (ValueView::Str(a), ValueView::Str(b)) => a == b,
            _ => false,
        }
    }

    /// How two values of the same case are ordered; values of different
    /// cases, and a NaN with anything, are not ordered.
    pub open spec fn placement(self, other: ValueView) -> Option<Placement> {
        match (self, other) {
            (ValueView::Bool(a), ValueView::Bool(b)) => Some(
                if a == b {
                    Placement::Same
                } else if !a {
                    Placement::Before
                } else {
                    Placement::After
                },
            ),
            (ValueView::Num(a), ValueView::Num(b)) => if num::is_nan(a) || num::is_nan(b) {
                None
            } else if num::rank(a) < num::rank(b) {
                Some(Placement::Before)
            } else if num::rank(a) == num::rank(b) {
                Some(Placement::Same)
            } else {
                Some(Placement::After)
            },
            (ValueView::Str(a), ValueView::Str(b)) => Some(
                if a == b {
                    Placement::Same
                } else if precedes(a, b) {
                    Placement::Before
                } else {
                    Placement::After
                },
            ),
            _ => None,
        }
    }

    /// The number that a value counts as in arithmetic: its own bit pattern
    /// for a number, none otherwise.
    pub open spec fn as_number(self) -> Option<u32> {
        match self {
            ValueView::Num(n) => Some(n),
            _ => None,
        }
    }

    /// The sum of two values: a value that is no number counts as absent.
    pub open spec fn plus(self, other: ValueView) -> ValueView {
        match (self.as_number(), other.as_number()) {
            (Some(a), Some(b)) => ValueView::Num(soft::sum_bits(a, b)),
            (Some(a), None) => ValueView::Num(a),
            (None, Some(b)) => ValueView::Num(b),
            (None, None) => ValueView::Num(num::ZERO),
        }
    }

    /// The difference of two values: a value that is no number counts as
    /// absent.
    pub open spec fn minus(self, other: ValueView) -> ValueView {
        match (self.as_number(), other.as_number()) {
            (Some(a), Some(b)) => ValueView::Num(soft::sum_bits(a, num::negated(b))),
            (Some(a), None) => ValueView::Num(a),
            (None, Some(b)) => ValueView::Num(num::negated(b)),
            (None, None) => ValueView::Num(num::ZERO),
        }
    }

    /// The product of two values: zero unless both are numbers.
    pub open spec fn times(self, other: ValueView) -> ValueView {
        match (self.as_number(), other.as_number()) {
            (Some(a), Some(b)) => ValueView::Num(soft::product_bits(a, b)),
            _ => ValueView::Num(num::ZERO),
        }
    }

    /// The quotient of two values: dividing by a value that is no number
    /// leaves a number as it is, and anything else that is no number gives
    /// zero.
    pub open spec fn over(self, other: ValueView) -> ValueView {
        match (self.as_number(), other.as_number()) {
            (Some(a), Some(b)) => ValueView::Num(soft::quotient_bits(a, b)),
            (Some(a), None) => ValueView::Num(a),
            _ => ValueView::Num(num::ZERO),
        }
    }
}

impl PartialEq for Value {
    fn eq(&self, other: &Value) -> (r: bool) {
        self.equals(other)
    }
}

impl vstd::std_specs::cmp::PartialEqSpecImpl for Value {
    open spec fn obeys_eq_spec() -> bool {
        true
    }

    open spec fn eq_spec(&self, other: &Value) -> bool {
        self@.equals(other@)
    }
}

impl From<bool> for Value {
    fn from(value: bool) -> (r: Value) {
        Value::Bool(value)
    }
}

impl vstd::std_specs::convert::FromSpecImpl<bool> for Value {
    open spec fn obeys_from_spec() -> bool {
        true
    }

    open spec fn from_spec(value: bool) -> Value {
        Value::Bool(value)
    }
}

impl From<Name> for Value {
    fn from(value: Name) -> (r: Value) {
        Value::Str(value)
    }
}

impl vstd::std_specs::convert::FromSpecImpl<Name> for Value {
    open spec fn obeys_from_spec() -> bool {
        true
    }

    open spec fn from_spec(value: Name) -> Value {
        Value::Str(value)
    }
}

impl Default for Value {
    /// The default value is the boolean false.
    fn default() -> (r: Value)
        ensures
            r@ == ValueView::Bool(false),
    {
        Value::Bool(false)
    }
}

impl Value {
    /// The string value that a piece of text spells.
    pub fn text(text: &str) -> (r: Value)
        ensures
            r@ == ValueView::Str(text.spec_bytes()),
    {
        Value::Str(Name::new(text))
    }

    /// A copy of the value.
    pub fn duplicate(&self) -> (r: Value)
        ensures
            r@ == self@,
    {
        match self {
            Value::Bool(b) => Value::Bool(*b),
            Value::Num(n) => Value::Num(*n),
            Value::Str(s) => Value::Str(s.duplicate()),
        }
    }

    /// The boolean in the value, or false where it holds none.
    pub fn as_bool(&self) -> (r: bool)
        ensures
            r == match self@ {
                ValueView::Bool(b) => b,
                _ => false,
            },
    {
        match self {
            Value::Bool(b) => *b,
            _ => false,
        }
    }

    /// The number in the value, or zero where it holds none.
    pub fn as_num(&self) -> (r: u32)
        ensures
            r == match self@ {
                ValueView::Num(n) => n,
                _ => num::ZERO,
            },
    {
        match self {
            Value::Num(n) => *n,
            _ => num::ZERO,
        }
    }

    /// The string in the value, or the empty string where it holds none.
    pub fn as_name(&self) -> (r: Name)
        ensures
            r@ == match self@ {
                ValueView::Str(s) => s,
                _ => Seq::<u8>::empty(),
            },
    {
        match self {
            Value::Str(s) => s.duplicate(),
            _ => Name::from_bytes(Vec::new()),
        }
    }

    /// The boolean in the value, to read and to change; a value that holds
    /// none becomes the boolean false first.
    pub fn as_bool_mut(&mut self) -> (r: &mut bool)
        ensures
            *r == match old(self)@ {
                ValueView::Bool(b) => b,
                _ => false,
            },
            final(self)@ == ValueView::Bool(*final(r)),
    {
        match self {
            Value::Bool(_) => {},
            _ => {
                *self = Value::Bool(false);
            },
        }
        match self {
            Value::Bool(b) => b,
            _ => unreached(),
        }
    }

    /// The number in the value, to read and to change; a value that holds
    /// none becomes zero first.
    pub fn as_num_mut(&mut self) -> (r: &mut u32)
        ensures
            *r == match old(self)@ {
                ValueView::Num(n) => n,
                _ => num::ZERO,
            },
            final(self)@ == ValueView::Num(*final(r)),
    {
        match self {
            Value::Num(_) => {},
            _ => {
                *self = Value::Num(num::ZERO);
            },
        }
        match self {
            Value::Num(n) => n,
            _ => unreached(),
        }
    }

    /// Whether the two values are equal.
    pub fn equals(&self, other: &Value) -> (r: bool)
        ensures
            r == self@.equals(other@),
    {
        match (self, other) {
            (Value::Bool(a), Value::Bool(b)) => *a == *b,
            (Value::Num(a), Value::Num(b)) => num::check_eq(*a, *b),
            (Value::Str(a), Value::Str(b)) => a.same(b),
            _ => false,
        }
    }

    /// How the two values are ordered, where they are.
    pub fn placement(&self, other: &Value) -> (r: Option<Placement>)
        ensures
            r == self@.placement(other@),
    {
        match (self, other) {
            (Value::Bool(a), Value::Bool(b)) => Some(
                if *a == *b {
                    Placement::Same
                } else if !*a {
                    Placement::Before
                } else {
                    Placement::After
                },
            ),
            (Value::Num(a), Value::Num(b)) => {
                if num::check_is_nan(*a) || num::check_is_nan(*b) {
                    None
                } else {
                    let ra = num::rank_of(*a);
                    let rb = num::rank_of(*b);
                    if ra < rb {
                        Some(Placement::Before)
                    } else if ra == rb {
                        Some(Placement::Same)
                    } else {
                        Some(Placement::After)
                    }
                }
            },
            (Value::Str(a), Value::Str(b)) => {
                let p = a.placement(b);
                proof {
                    crate::name::lemma_precedes_trichotomy(a@, b@);
                }
                Some(p)
            },
            _ => None,
        }
    }

    /// The sum of the two values.
    pub fn plus(&self, other: &Value) -> (r: Value)
        ensures
            r@ == self@.plus(other@),
    {
        match (self, other) {
            (Value::Num(a), Value::Num(b)) => Value::Num(soft::add_bits(*a, *b)),
            (Value::Num(a), _) => Value::Num(*a),
            (_, Value::Num(b)) => Value::Num(*b),
            _ => Value::Num(num::ZERO),
        }
    }

    /// The difference of the two values.
    pub fn minus(&self, other: &Value) -> (r: Value)
        ensures
            r@ == self@.minus(other@),
    {
        match (self, other) {
            (Value::Num(a), Value::Num(b)) => Value::Num(soft::add_bits(*a, num::negate(*b))),
            (Value::Num(a), _) => Value::Num(*a),
            (_, Value::Num(b)) => Value::Num(num::negate(*b)),
            _ => Value::Num(num::ZERO),
        }
    }

    /// The product of the two values.
    pub fn times(&self, other: &Value) -> (r: Value)
        ensures
            r@ == self@.times(other@),
    {
        match (self, other) {
            (Value::Num(a), Value::Num(b)) => Value::Num(soft::mul_bits(*a, *b)),
            _ => Value::Num(num::ZERO),
        }
    }

    /// The quotient of the two values.
    pub fn over(&self, other: &Value) -> (r: Value)
        ensures
            r@ == self@.over(other@),
    {
        match (self, other) {
            (Value::Num(a), Value::Num(b)) => Value::Num(soft::div_bits(*a, *b)),
            (Value::Num(a), _) => Value::Num(*a),
            _ => Value::Num(num::ZERO),
        }
    }
}

} // verus!
