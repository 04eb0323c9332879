//! What parsing gives: definitions, and what is wrong where.
use crate::lexer::LexicalError;
use crate::lexer::Token;
use crate::lexer::TokenView;
use crate::model::Criterion;
use crate::model::Delivery;
use crate::model::Instruction;
use crate::model::Operation;
use crate::model::Predicate;
use crate::model::Response;
use crate::model::ResponseGroup;
use crate::model::Rule;
use crate::name::Name;
use crate::table::viewed;
use vstd::prelude::*;

verus! {

/// A stretch of a script: from the byte at `start` up to, not including,
/// the byte at `end`.
#[derive(Clone, Copy, Debug, PartialEq, Eq, Structural)]
pub struct Span {
    pub start: usize,
    pub end: usize,
}

/// An error with the stretch of the script that it is about.
#[derive(Debug)]
pub struct Spanned<E> {
    pub error: E,
    pub span: Span,
}

impl<E: Default> Default for Spanned<E> {
    /// The default error, about the empty stretch at the start.
    fn default() -> (r: Spanned<E>)
        ensures
            r.span == (Span { start: 0, end: 0 }),
    {
        Spanned { error: E::default(), span: Span { start: 0, end: 0 } }
    }
}

/// A place in one of the modules of a script.
#[derive(Clone, Copy, Debug, PartialEq, Eq, Structural)]
pub struct Location {
    pub file_id: usize,
    pub span: Span,
}

/// What can be wrong with the form of a script.
#[derive(Debug)]
pub enum ParseError {
    /// The script ends in the middle of a definition.
    UnexpectedEof,
    /// A token stands where another kind was expected.
    UnexpectedToken { token: Token, expected: &'static str, hint: Option<&'static str> },
    /// The text of a token is wrong.
    LexError { error: LexicalError },
}

/// What can be wrong with the form of a script, with names and texts as
/// sequences.
pub enum ParseErrorView {
    UnexpectedEof,
    UnexpectedToken { token: TokenView, expected: Seq<char>, hint: Option<Seq<char>> },
    LexError { error: LexicalError },
}

impl View for ParseError {
    type V = ParseErrorView;

    open spec fn view(&self) -> ParseErrorView {
        match self {
            ParseError::UnexpectedEof => ParseErrorView::UnexpectedEof,
            ParseError::UnexpectedToken { token, expected, hint } => {
                ParseErrorView::UnexpectedToken {
                    token: token@,
                    expected: expected@,
                    hint: match hint {
                        Some(h) => Some(h@),
                        None => None,
                    },
                }
            },
            ParseError::LexError { error } => ParseErrorView::LexError { error: *error },
        }
    }
}

/// What is wrong with the form of a script, and from where to where.
pub struct Flaw {
    pub error: ParseErrorView,
    pub start: int,
    pub end: int,
}

impl View for Spanned<ParseError> {
    type V = Flaw;

    open spec fn view(&self) -> Flaw {
        Flaw { error: self.error@, start: self.span.start as int, end: self.span.end as int }
    }
}

/// Attaching to an error the stretch of the script that it is about.
pub trait AddSpan {
    type Result;

    fn span(self, span: Span) -> Self::Result;
}

impl<T> AddSpan for Result<T, ParseError> {
    type Result = Result<T, Spanned<ParseError>>;

    /// A success stays as it is; a failure gets the stretch.
    fn span(self, span: Span) -> (r: Result<T, Spanned<ParseError>>)
        ensures
            match self {
                Ok(value) => r == Ok::<T, Spanned<ParseError>>(value),
                Err(error) => r == Err::<T, Spanned<ParseError>>(Spanned { error, span }),
            },
    {
        match self {
            Ok(value) => Ok(value),
            Err(error) => Err(Spanned { error, span }),
        }
    }
}

impl AddSpan for ParseError {
    type Result = Spanned<ParseError>;

    /// The error with the stretch.
    fn span(self, span: Span) -> (r: Spanned<ParseError>)
        ensures
            r == (Spanned { error: self, span }),
    {
        Spanned { error: self, span }
    }
}

/// A predicate, with its string as a sequence of bytes.
pub enum PredicateView {
    BoolEqual(bool),
    NumEqual(u32),
    NumRange(Option<u32>, Option<u32>),
    StrEqual(Seq<u8>),
}

impl View for Predicate {
    type V = PredicateView;

    open spec fn view(&self) -> PredicateView {
        match self {
            Predicate::BoolEqual(b) => PredicateView::BoolEqual(*b),
            Predicate::NumEqual(n) => PredicateView::NumEqual(*n),
            Predicate::NumRange(low, high) => PredicateView::NumRange(*low, *high),
            Predicate::StrEqual(s) => PredicateView::StrEqual(s@),
        }
    }
}

/// A criterion, with its names as sequences of bytes.
pub struct CriterionView {
    pub variable: Seq<u8>,
    pub predicate: PredicateView,
    pub weight: u32,
}

impl View for Criterion {
    type V = CriterionView;

    open spec fn view(&self) -> CriterionView {
        CriterionView { variable: self.variable@, predicate: self.predicate@, weight: self.weight }
    }
}

/// An operation, with its string as a sequence of bytes.
pub enum OperationView {
    BoolSet(bool),
    BoolToggle,
    NumSet(u32),
    NumAdd(u32),
    StrSet(Seq<u8>),
}

impl View for Operation {
    type V = OperationView;

    open spec fn view(&self) -> OperationView {
        match self {
            Operation::BoolSet(b) => OperationView::BoolSet(*b),
            Operation::BoolToggle => OperationView::BoolToggle,
            Operation::NumSet(n) => OperationView::NumSet(*n),
            Operation::NumAdd(n) => OperationView::NumAdd(*n),
            Operation::StrSet(s) => OperationView::StrSet(s@),
        }
    }
}

/// An instruction, with its names as sequences of bytes.
pub struct InstructionView {
    pub variable: Seq<u8>,
    pub global: bool,
    pub operation: OperationView,
}

impl View for Instruction {
    type V = InstructionView;

    open spec fn view(&self) -> InstructionView {
        InstructionView {
            variable: self.variable@,
            global: self.global,
            operation: self.operation@,
        }
    }
}

/// The names of a list, as sequences of bytes.
pub open spec fn name_views(names: Seq<Name>) -> Seq<Seq<u8>> {
    Seq::new(names.len(), |i: int| names[i]@)
}

/// The instructions of a list, with their names as sequences of bytes.
pub open spec fn instruction_views(instructions: Seq<Instruction>) -> Seq<InstructionView> {
    Seq::new(instructions.len(), |i: int| instructions[i]@)
}

/// A rule, with its names as sequences of bytes.
pub struct RuleView {
    pub criteria: Seq<Seq<u8>>,
    pub response_groups: Seq<Seq<u8>>,
    pub instructions: Seq<InstructionView>,
}

impl View for Rule {
    type V = RuleView;

    open spec fn view(&self) -> RuleView {
        RuleView {
            criteria: name_views(self.criteria@),
            response_groups: name_views(self.response_groups@),
            instructions: instruction_views(self.instructions@),
        }
    }
}

/// A response, with its names and texts as sequences of bytes.
pub open spec fn response_view(response: Response) -> Seq<(Seq<u8>, Seq<u8>)> {
    viewed(response@)
}

/// The responses of a list, with their names and texts as sequences of
/// bytes.
pub open spec fn response_views(responses: Seq<Response>) -> Seq<Seq<(Seq<u8>, Seq<u8>)>> {
    Seq::new(responses.len(), |i: int| response_view(responses[i]))
}

/// A response group, with its names and texts as sequences of bytes.
pub struct ResponseGroupView {
    pub delivery: Delivery,
    pub responses: Seq<Seq<(Seq<u8>, Seq<u8>)>>,
}

impl View for ResponseGroup {
    type V = ResponseGroupView;

    open spec fn view(&self) -> ResponseGroupView {
        ResponseGroupView {
            delivery: self.delivery,
            responses: response_views(self.responses@),
        }
    }
}

/// A definition of a script.
#[derive(Debug)]
pub enum Definition {
    Criterion { name: Name, criterion: Criterion },
    Rule { name: Name, rule: Rule },
    ResponseGroup { name: Name, response_group: ResponseGroup },
}

/// A definition, with its names and texts as sequences of bytes.
pub enum DefinitionView {
    Criterion { name: Seq<u8>, criterion: CriterionView },
    Rule { name: Seq<u8>, rule: RuleView },
    ResponseGroup { name: Seq<u8>, response_group: ResponseGroupView },
}

impl View for Definition {
    type V = DefinitionView;

    open spec fn view(&self) -> DefinitionView {
        match self {
            Definition::Criterion { name, criterion } => DefinitionView::Criterion {
                name: name@,
                criterion: criterion@,
            },
            Definition::Rule { name, rule } => DefinitionView::Rule { name: name@, rule: rule@ },
            Definition::ResponseGroup { name, response_group } => DefinitionView::ResponseGroup {
                name: name@,
                response_group: response_group@,
            },
        }
    }
}

} // verus!
