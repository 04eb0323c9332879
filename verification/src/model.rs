//! What a script defines: criteria, rules and response groups.
use crate::name::Name;
use crate::table::Table;
use vstd::prelude::*;

verus! {

/// A test on the value of one variable.
#[derive(Debug)]
pub enum Predicate {
    /// The variable is the given boolean.
    BoolEqual(bool),
    /// The variable is the given number.
    NumEqual(u32),
    /// The variable is a number between the bounds, both included; a bound
    /// that is absent is no bound.
    NumRange(Option<u32>, Option<u32>),
    /// The variable is the given string.
    StrEqual(Name),
}

/// A named test: a variable, what is asked of it, and how much it counts.
#[derive(Debug)]
pub struct Criterion {
    pub variable: Name,
    pub predicate: Predicate,
    pub weight: u32,
}

/// A change to a variable.
#[derive(Debug)]
pub enum Operation {
    BoolSet(bool),
    BoolToggle,
    NumSet(u32),
    NumAdd(u32),
    StrSet(Name),
}

/// A change to a variable of the character or, if `global`, of the world.
#[derive(Debug)]
pub struct Instruction {
    pub variable: Name,
    pub global: bool,
    pub operation: Operation,
}

/// A rule: the criteria that must hold, the response groups to answer from,
/// and the changes to make.
#[derive(Debug)]
pub struct Rule {
    pub criteria: Vec<Name>,
    pub response_groups: Vec<Name>,
    pub instructions: Vec<Instruction>,
}

/// How a response group hands out its responses.
#[derive(Clone, Copy, Debug, PartialEq, Eq, Structural)]
pub enum Delivery {
    /// Random order, each response once before any repeats.
    Shuffle,
    /// Random order, repeats allowed.
    Random,
    /// Random order, each response once.
    Deplete,
    /// In order, starting over after the last.
    Loop,
    /// In order, each response once.
    List,
}

/// A response: texts under names.
pub type Response = Table<Vec<u8>>;

/// A response group: a delivery and the responses it chooses from.
#[derive(Debug)]
pub struct ResponseGroup {
    pub delivery: Delivery,
    pub responses: Vec<Response>,
}

/// The kind of value that a variable is used as.
#[derive(Clone, Copy, Debug, PartialEq, Eq, Hash, Structural)]
pub enum Type {
    Bool,
    Num,
    Str,
}

impl Type {
    /// The word for the kind.
    pub fn describe(&self) -> (r: &'static str)
        ensures
            r@ == match self {
                Type::Bool => "boolean"@,
                Type::Num => "number"@,
                Type::Str => "string"@,
            },
    {
        match self {
            Type::Bool => "boolean",
            Type::Num => "number",
            Type::Str => "string",
        }
    }
}

impl Operation {
    /// A copy of the operation.
    pub fn duplicate(&self) -> (r: Operation)
        ensures
            r.same_as(*self),
    {
        match self {
            Operation::BoolSet(b) => Operation::BoolSet(*b),
            Operation::BoolToggle => Operation::BoolToggle,
            Operation::NumSet(n) => Operation::NumSet(*n),
            Operation::NumAdd(n) => Operation::NumAdd(*n),
            Operation::StrSet(s) => Operation::StrSet(s.duplicate()),
        }
    }

    /// The two operations do the same.
    pub open spec fn same_as(self, other: Operation) -> bool {
        match (self, other) {
            (Operation::BoolSet(a), Operation::BoolSet(b)) => a == b,
            (Operation::BoolToggle, Operation::BoolToggle) => true,
            (Operation::NumSet(a), Operation::NumSet(b)) => a == b,
            (Operation::NumAdd(a), Operation::NumAdd(b)) => a == b,
            (Operation::StrSet(a), Operation::StrSet(b)) => a@ == b@,
            _ => false,
        }
    }

    /// The kind of value that the operation makes of its variable.
    pub open spec fn used_as(self) -> Type {
        match self {
            Operation::BoolSet(_) | Operation::BoolToggle => Type::Bool,
            Operation::NumSet(_) | Operation::NumAdd(_) => Type::Num,
            Operation::StrSet(_) => Type::Str,
        }
    }

    /// The kind of value that the operation makes of its variable.
    pub fn kind(&self) -> (r: Type)
        ensures
            r == self.used_as(),
    {
        match self {
            Operation::BoolSet(_) | Operation::BoolToggle => Type::Bool,
            Operation::NumSet(_) | Operation::NumAdd(_) => Type::Num,
            Operation::StrSet(_) => Type::Str,
        }
    }
}

impl Predicate {
    /// The kind of value that the predicate takes its variable for.
    pub open spec fn used_as(self) -> Type {
        match self {
            Predicate::BoolEqual(_) => Type::Bool,
            Predicate::NumEqual(_) | Predicate::NumRange(_, _) => Type::Num,
            Predicate::StrEqual(_) => Type::Str,
        }
    }

    /// The kind of value that the predicate takes its variable for.
    pub fn kind(&self) -> (r: Type)
        ensures
            r == self.used_as(),
    {
        match self {
            Predicate::BoolEqual(_) => Type::Bool,
            Predicate::NumEqual(_) | Predicate::NumRange(_, _) => Type::Num,
            Predicate::StrEqual(_) => Type::Str,
        }
    }
}

} // verus!
