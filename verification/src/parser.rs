//! The parser: from the tokens of a script to its definitions.
use crate::lexer::lemma_lexeme_at;
use crate::lexer::lexeme_at;
use crate::lexer::next_lexeme;
use crate::lexer::LexemeKind;
use crate::lexer::Token;
use crate::lexer::TokenView;
use crate::model::Criterion;
use crate::model::Delivery;
use crate::model::Instruction;
use crate::model::Operation;
use crate::model::Predicate;
use crate::model::Response;
use crate::model::ResponseGroup;
use crate::model::Rule;
use crate::name::Name;
use crate::num;
use crate::props::updated;
use crate::syntax::instruction_views;
use crate::syntax::name_views;
use crate::syntax::response_view;
use crate::syntax::response_views;
use crate::syntax::Definition;
use crate::table::lemma_viewed_updated;
use crate::table::viewed;
use crate::table::Table;
use crate::syntax::CriterionView;
use crate::syntax::DefinitionView;
use crate::syntax::Flaw;
use crate::syntax::InstructionView;
use crate::syntax::ResponseGroupView;
use crate::syntax::RuleView;
use crate::syntax::OperationView;
use crate::syntax::ParseError;
use crate::syntax::ParseErrorView;
use crate::syntax::PredicateView;
use crate::syntax::Span;
use crate::syntax::Spanned;
use vstd::prelude::*;
use vstd::string::StringSliceAdditionalSpecFns;

verus! {

/// The words that the script language knows.
#[derive(Clone, Copy, Debug, PartialEq, Eq, Structural)]
pub enum Keyword {
    True,
    False,
    In,
    Weight,
    Criterion,
    Rule,
    Response,
    Shuffle,
    Random,
    Deplete,
    Loop,
    List,
}

/// The bytes that spell a keyword.
pub open spec fn spelling(keyword: Keyword) -> Seq<u8> {
    match keyword {
        Keyword::True => seq![116u8, 114u8, 117u8, 101u8],
        Keyword::False => seq![102u8, 97u8, 108u8, 115u8, 101u8],
        Keyword::In => seq![105u8, 110u8],
        Keyword::Weight => seq![119u8, 101u8, 105u8, 103u8, 104u8, 116u8],
        Keyword::Criterion => seq![
            99u8,
            114u8,
            105u8,
            116u8,
            101u8,
            114u8,
            105u8,
            111u8,
            110u8,
        ],
        Keyword::Rule => seq![114u8, 117u8, 108u8, 101u8],
        Keyword::Response => seq![114u8, 101u8, 115u8, 112u8, 111u8, 110u8, 115u8, 101u8],
        Keyword::Shuffle => seq![115u8, 104u8, 117u8, 102u8, 102u8, 108u8, 101u8],
        Keyword::Random => seq![114u8, 97u8, 110u8, 100u8, 111u8, 109u8],
        Keyword::Deplete => seq![100u8, 101u8, 112u8, 108u8, 101u8, 116u8, 101u8],
        Keyword::Loop => seq![108u8, 111u8, 111u8, 112u8],
        Keyword::List => seq![108u8, 105u8, 115u8, 116u8],
    }
}

/// Whether a name spells a keyword.
pub fn is_keyword(name: &Name, keyword: Keyword) -> (r: bool)
    ensures
        r == (name@ == spelling(keyword)),
{
    match keyword {
        Keyword::True => {
            let w: [u8; 4] = [116, 114, 117, 101];
            assert(w@ =~= spelling(keyword));
            name.is(w.as_slice())
        },
        Keyword::False => {
            let w: [u8; 5] = [102, 97, 108, 115, 101];
            assert(w@ =~= spelling(keyword));
            name.is(w.as_slice())
        },
        Keyword::In => {
            let w: [u8; 2] = [105, 110];
            assert(w@ =~= spelling(keyword));
            name.is(w.as_slice())
        },
        Keyword::Weight => {
            let w: [u8; 6] = [119, 101, 105, 103, 104, 116];
            assert(w@ =~= spelling(keyword));
            name.is(w.as_slice())
        },
        Keyword::Criterion => {
            let w: [u8; 9] = [99, 114, 105, 116, 101, 114, 105, 111, 110];
            assert(w@ =~= spelling(keyword));
            name.is(w.as_slice())
        },
        Keyword::Rule => {
            let w: [u8; 4] = [114, 117, 108, 101];
            assert(w@ =~= spelling(keyword));
            name.is(w.as_slice())
        },
        Keyword::Response => {
            let w: [u8; 8] = [114, 101, 115, 112, 111, 110, 115, 101];
            assert(w@ =~= spelling(keyword));
            name.is(w.as_slice())
        },
        Keyword::Shuffle => {
            let w: [u8; 7] = [115, 104, 117, 102, 102, 108, 101];
            assert(w@ =~= spelling(keyword));
            name.is(w.as_slice())
        },
        Keyword::Random => {
            let w: [u8; 6] = [114, 97, 110, 100, 111, 109];
            assert(w@ =~= spelling(keyword));
            name.is(w.as_slice())
        },
        Keyword::Deplete => {
            let w: [u8; 7] = [100, 101, 112, 108, 101, 116, 101];
            assert(w@ =~= spelling(keyword));
            name.is(w.as_slice())
        },
        Keyword::Loop => {
            let w: [u8; 4] = [108, 111, 111, 112];
            assert(w@ =~= spelling(keyword));
            name.is(w.as_slice())
        },
        Keyword::List => {
            let w: [u8; 4] = [108, 105, 115, 116];
            assert(w@ =~= spelling(keyword));
            name.is(w.as_slice())
        },
    }
}

/// A token that was read, with the stretch of the script that it takes.
pub struct Read {
    pub token: TokenView,
    pub start: int,
    pub end: int,
}

/// A token that was read, with the stretch of the script that it takes.
#[derive(Debug)]
pub struct Scanned {
    pub token: Token,
    pub start: usize,
    pub end: usize,
}

impl View for Scanned {
    type V = Read;

    open spec fn view(&self) -> Read {
        Read { token: self.token@, start: self.start as int, end: self.end as int }
    }
}

/// The next token from a place on. The end of the script and a token whose
/// text is wrong are flaws.
pub open spec fn read(s: Seq<u8>, pos: int) -> Result<Read, Flaw> {
    let lexeme = lexeme_at(s, pos);
    match lexeme.kind {
        LexemeKind::End => Err(
            Flaw { error: ParseErrorView::UnexpectedEof, start: lexeme.start, end: lexeme.end },
        ),
        LexemeKind::Error(error) => Err(
            Flaw { error: ParseErrorView::LexError { error }, start: lexeme.start, end: lexeme.end },
        ),
        LexemeKind::Token(token) => Ok(Read { token, start: lexeme.start, end: lexeme.end }),
    }
}

/// The flaw of a token that stands where something else was expected.
pub open spec fn unexpected(found: Read, expected: Seq<char>, hint: Option<Seq<char>>) -> Flaw {
    Flaw {
        error: ParseErrorView::UnexpectedToken { token: found.token, expected, hint },
        start: found.start,
        end: found.end,
    }
}

/// The number of a token that is a number.
pub open spec fn want_number(found: Read) -> Result<u32, Flaw> {
    match found.token {
        TokenView::Number(n) => Ok(n),
        _ => Err(unexpected(found, "a number literal"@, None)),
    }
}

/// The text of a token that is a string.
pub open spec fn want_string(found: Read) -> Result<Seq<u8>, Flaw> {
    match found.token {
        TokenView::String(s) => Ok(s),
        _ => Err(
            unexpected(
                found,
                "a string literal"@,
                Some("string literals must be enclosed in quotes"@),
            ),
        ),
    }
}

/// The word of a token that is a symbol.
pub open spec fn want_symbol(found: Read) -> Result<Seq<u8>, Flaw> {
    match found.token {
        TokenView::Symbol(s) => Ok(s),
        _ => Err(unexpected(found, "a symbol"@, None)),
    }
}

/// A token that is an open parenthesis.
pub open spec fn want_open(found: Read) -> Result<(), Flaw> {
    match found.token {
        TokenView::ParenOpen => Ok(()),
        _ => Err(unexpected(found, "an open parenthesis"@, None)),
    }
}

/// A token that is a closing parenthesis.
pub open spec fn want_close(found: Read) -> Result<(), Flaw> {
    match found.token {
        TokenView::ParenClose => Ok(()),
        _ => Err(unexpected(found, "a closing parenthesis"@, None)),
    }
}

/// Whether a word begins with an upper-case letter.
pub open spec fn begins_upper(word: Seq<u8>) -> bool {
    word.len() > 0 && 65 <= word[0] <= 90
}

/// Whether a word begins with a lower-case letter.
pub open spec fn begins_lower(word: Seq<u8>) -> bool {
    word.len() > 0 && 97 <= word[0] <= 122
}

/// The word of a token that is an identifier: a symbol that begins with an
/// upper-case letter.
pub open spec fn want_ident(found: Read) -> Result<Seq<u8>, Flaw> {
    match found.token {
        TokenView::Symbol(s) => if begins_upper(s) {
            Ok(s)
        } else {
            Err(
                unexpected(
                    found,
                    "an identifier"@,
                    Some("identifiers must begin with an upper-case ascii letter"@),
                ),
            )
        },
        _ => Err(unexpected(found, "a symbol"@, None)),
    }
}

/// The word of a token that is a variable name: a symbol that begins with
/// a lower-case letter.
pub open spec fn want_var(found: Read) -> Result<Seq<u8>, Flaw> {
    match found.token {
        TokenView::Symbol(s) => if begins_lower(s) {
            Ok(s)
        } else {
            Err(
                unexpected(
                    found,
                    "a variable name"@,
                    Some("variable names must begin with a lower-case ascii letter"@),
                ),
            )
        },
        _ => Err(unexpected(found, "a symbol"@, None)),
    }
}

/// The error of a token that stands where something else was expected.
pub fn unexpected_token(
    found: Scanned,
    expected: &'static str,
    hint: Option<&'static str>,
) -> (r: Spanned<ParseError>)
    ensures
        r@ == unexpected(
            found@,
            expected@,
            match hint {
                Some(h) => Some(h@),
                None => None,
            },
        ),
{
    Spanned {
        error: ParseError::UnexpectedToken { token: found.token, expected, hint },
        span: Span { start: found.start, end: found.end },
    }
}

impl Scanned {
    /// The number of the token, if it is one.
    pub fn expect_number(self) -> (r: Result<u32, Spanned<ParseError>>)
        ensures
            match want_number(self@) {
                Ok(n) => r == Ok::<u32, Spanned<ParseError>>(n),
                Err(flaw) => r.is_err() && r.unwrap_err()@ == flaw,
            },
    {
        match self.token {
            Token::Number(n) => Ok(n),
            _ => Err(unexpected_token(self, "a number literal", None)),
        }
    }

    /// The text of the token, if it is a string.
    pub fn expect_string(self) -> (r: Result<Vec<u8>, Spanned<ParseError>>)
        ensures
            match want_string(self@) {
                Ok(s) => r.is_ok() && r.unwrap()@ == s,
                Err(flaw) => r.is_err() && r.unwrap_err()@ == flaw,
            },
    {
        match self.token {
            Token::String(s) => Ok(s),
            token => Err(
                unexpected_token(
                    Scanned { token, start: self.start, end: self.end },
                    "a string literal",
                    Some("string literals must be enclosed in quotes"),
                ),
            ),
        }
    }

    /// The word of the token, if it is a symbol.
    pub fn expect_symbol(self) -> (r: Result<Name, Spanned<ParseError>>)
        ensures
            match want_symbol(self@) {
                Ok(s) => r.is_ok() && r.unwrap()@ == s,
                Err(flaw) => r.is_err() && r.unwrap_err()@ == flaw,
            },
    {
        match self.token {
            Token::Symbol(s) => Ok(s),
            token => Err(
                unexpected_token(
                    Scanned { token, start: self.start, end: self.end },
                    "a symbol",
                    None,
                ),
            ),
        }
    }

    /// Succeeds if the token is an open parenthesis.
    pub fn expect_paren_open(self) -> (r: Result<(), Spanned<ParseError>>)
        ensures
            match want_open(self@) {
                Ok(_) => r.is_ok(),
                Err(flaw) => r.is_err() && r.unwrap_err()@ == flaw,
            },
    {
        match self.token {
            Token::ParenOpen => Ok(()),
            _ => Err(unexpected_token(self, "an open parenthesis", None)),
        }
    }

    /// Succeeds if the token is a closing parenthesis.
    pub fn expect_paren_close(self) -> (r: Result<(), Spanned<ParseError>>)
        ensures
            match want_close(self@) {
                Ok(_) => r.is_ok(),
                Err(flaw) => r.is_err() && r.unwrap_err()@ == flaw,
            },
    {
        match self.token {
            Token::ParenClose => Ok(()),
            _ => Err(unexpected_token(self, "a closing parenthesis", None)),
        }
    }

    /// The word of the token, if it is an identifier.
    pub fn expect_ident(self) -> (r: Result<Name, Spanned<ParseError>>)
        ensures
            match want_ident(self@) {
                Ok(s) => r.is_ok() && r.unwrap()@ == s,
                Err(flaw) => r.is_err() && r.unwrap_err()@ == flaw,
            },
    {
        match self.token {
            Token::Symbol(s) => {
                let upper = s.len() > 0 && s.as_bytes()[0] >= 65 && s.as_bytes()[0] <= 90;
                if upper {
                    Ok(s)
                } else {
                    Err(
                        unexpected_token(
                            Scanned { token: Token::Symbol(s), start: self.start, end: self.end },
                            "an identifier",
                            Some("identifiers must begin with an upper-case ascii letter"),
                        ),
                    )
                }
            },
            token => Err(
                unexpected_token(
                    Scanned { token, start: self.start, end: self.end },
                    "a symbol",
                    None,
                ),
            ),
        }
    }

    /// The word of the token, if it is a variable name.
    pub fn expect_var(self) -> (r: Result<Name, Spanned<ParseError>>)
        ensures
            match want_var(self@) {
                Ok(s) => r.is_ok() && r.unwrap()@ == s,
                Err(flaw) => r.is_err() && r.unwrap_err()@ == flaw,
            },
    {
        match self.token {
            Token::Symbol(s) => {
                let lower = s.len() > 0 && s.as_bytes()[0] >= 97 && s.as_bytes()[0] <= 122;
                if lower {
                    Ok(s)
                } else {
                    Err(
                        unexpected_token(
                            Scanned { token: Token::Symbol(s), start: self.start, end: self.end },
                            "a variable name",
                            Some("variable names must begin with a lower-case ascii letter"),
                        ),
                    )
                }
            },
            token => Err(
                unexpected_token(
                    Scanned { token, start: self.start, end: self.end },
                    "a symbol",
                    None,
                ),
            ),
        }
    }
}

/// A parser over the bytes of a script.
#[derive(Debug)]
pub struct Parser<'src> {
    pub src: &'src [u8],
    pub pos: usize,
}

impl<'src> Parser<'src> {
    /// The place of the parser lies within the script.
    pub open spec fn wf(&self) -> bool {
        self.pos <= self.src@.len()
    }

    /// A parser at the start of a script.
    pub fn new(src: &'src str) -> (r: Parser<'src>)
        ensures
            r.wf(),
            r.src@ == src.spec_bytes(),
            r.pos == 0,
    {
        Parser { src: src.as_bytes(), pos: 0 }
    }

    /// A parser at the start of the bytes of a script.
    pub fn from_bytes(src: &'src [u8]) -> (r: Parser<'src>)
        ensures
            r.wf(),
            r.src@ == src@,
            r.pos == 0,
    {
        Parser { src, pos: 0 }
    }

    /// Reads the next token and moves past it.
    pub fn parse_token(&mut self) -> (r: Result<Scanned, Spanned<ParseError>>)
        requires
            old(self).wf(),
        ensures
            final(self).wf(),
            final(self).src@ == old(self).src@,
            old(self).pos <= final(self).pos,
            match read(old(self).src@, old(self).pos as int) {
                Ok(found) => r.is_ok() && r.unwrap()@ == found && final(self).pos == found.end
                    && old(self).pos < final(self).pos,
                Err(flaw) => r.is_err() && r.unwrap_err()@ == flaw,
            },
    {
        let lexed = next_lexeme(self.src, self.pos);
        self.pos = lexed.end;
        let span = Span { start: lexed.start, end: lexed.end };
        match lexed.item {
            None => Err(Spanned { error: ParseError::UnexpectedEof, span }),
            Some(Err(error)) => Err(Spanned { error: ParseError::LexError { error }, span }),
            Some(Ok(token)) => Ok(Scanned { token, start: lexed.start, end: lexed.end }),
        }
    }
}

/// What is parsed once a closing parenthesis has been read from a place on:
/// the value, and the place after the parenthesis.
pub open spec fn closed<V>(s: Seq<u8>, pos: int, value: V) -> Result<(V, int), Flaw> {
    match read(s, pos) {
        Err(flaw) => Err(flaw),
        Ok(found) => match want_close(found) {
            Err(flaw) => Err(flaw),
            Ok(_) => Ok((value, found.end)),
        },
    }
}

/// The predicate that a word stands for after `==`: a boolean for `true`
/// and `false`, else the string that the word is.
pub open spec fn word_predicate(word: Seq<u8>) -> PredicateView {
    if word == spelling(Keyword::True) {
        PredicateView::BoolEqual(true)
    } else if word == spelling(Keyword::False) {
        PredicateView::BoolEqual(false)
    } else {
        PredicateView::StrEqual(word)
    }
}

/// The upper bound of a range: the number itself where the range includes
/// it, else the greatest number below it.
pub open spec fn upper_bound(high: u32, inclusive: bool) -> u32 {
    if inclusive {
        high
    } else {
        num::next_down(high)
    }
}

/// The range that stands after `in`, up to and including the closing
/// parenthesis: `A..B`, `A..=B`, `A..`, `..B`, `..=B` or `..`.
pub open spec fn range_at(s: Seq<u8>, pos: int) -> Result<(PredicateView, int), Flaw> {
    match read(s, pos) {
        Err(flaw) => Err(flaw),
        Ok(first) => match first.token {
            TokenView::Number(low) => match read(s, first.end) {
                Err(flaw) => Err(flaw),
                Ok(dots) => match dots.token {
                    TokenView::Range(inclusive) => match read(s, dots.end) {
                        Err(flaw) => Err(flaw),
                        Ok(last) => match last.token {
                            TokenView::Number(high) => closed(
                                s,
                                last.end,
                                PredicateView::NumRange(
                                    Some(low),
                                    Some(upper_bound(high, inclusive)),
                                ),
                            ),
                            TokenView::ParenClose => Ok(
                                (PredicateView::NumRange(Some(low), None), last.end),
                            ),
                            _ => Err(
                                unexpected(
                                    last,
                                    "either a numeric literal or a closing parenthesis"@,
                                    None,
                                ),
                            ),
                        },
                    },
                    _ => Err(unexpected(dots, "either of the specifiers '..' or '..='"@, None)),
                },
            },
            TokenView::Range(true) => match read(s, first.end) {
                Err(flaw) => Err(flaw),
                Ok(last) => match want_number(last) {
                    Err(flaw) => Err(flaw),
                    Ok(high) => closed(s, last.end, PredicateView::NumRange(None, Some(high))),
                },
            },
            TokenView::Range(false) => match read(s, first.end) {
                Err(flaw) => Err(flaw),
                Ok(last) => match last.token {
                    TokenView::Number(high) => closed(
                        s,
                        last.end,
                        PredicateView::NumRange(None, Some(num::next_down(high))),
                    ),
                    TokenView::ParenClose => Ok((PredicateView::NumRange(None, None), last.end)),
                    _ => Err(
                        unexpected(
                            last,
                            "either a numeric literal or a closing parenthesis"@,
                            None,
                        ),
                    ),
                },
            },
            _ => Err(
                unexpected(
                    first,
                    "either a numeric literal or either of the specifiers '..' or '..='"@,
                    None,
                ),
            ),
        },
    }
}

/// The predicate that stands at a place, up to and including the closing
/// parenthesis: `== true`, `== false`, `== word`, `== number`, or `in`
/// and a range.
pub open spec fn predicate_at(s: Seq<u8>, pos: int) -> Result<(PredicateView, int), Flaw> {
    match read(s, pos) {
        Err(flaw) => Err(flaw),
        Ok(first) => match first.token {
            TokenView::DoubleEqual => match read(s, first.end) {
                Err(flaw) => Err(flaw),
                Ok(value) => match value.token {
                    TokenView::Symbol(word) => closed(s, value.end, word_predicate(word)),
                    TokenView::Number(n) => closed(s, value.end, PredicateView::NumEqual(n)),
                    _ => Err(
                        unexpected(
                            value,
                            "eeither a boolean literal, a numeric literal, or a symbol"@,
                            None,
                        ),
                    ),
                },
            },
            TokenView::Symbol(word) => if word == spelling(Keyword::In) {
                range_at(s, first.end)
            } else {
                Err(
                    unexpected(
                        first,
                        "either a symbol containing the keyword 'in' or the specifier '=='"@,
                        None,
                    ),
                )
            },
            _ => Err(
                unexpected(
                    first,
                    "either a symbol containing the keyword 'in' or the specifier '=='"@,
                    None,
                ),
            ),
        },
    }
}

/// The operation that a word stands for after `:=`: a boolean for `true`
/// and `false`, else the string that the word is.
pub open spec fn word_operation(word: Seq<u8>) -> OperationView {
    if word == spelling(Keyword::True) {
        OperationView::BoolSet(true)
    } else if word == spelling(Keyword::False) {
        OperationView::BoolSet(false)
    } else {
        OperationView::StrSet(word)
    }
}

/// The operation that stands at a place: `:!`, `:=` and a value, `:+` and
/// a number, or `:-` and a number, which adds the number negated.
pub open spec fn operation_at(s: Seq<u8>, pos: int) -> Result<(OperationView, int), Flaw> {
    match read(s, pos) {
        Err(flaw) => Err(flaw),
        Ok(first) => match first.token {
            TokenView::ColonNegated => Ok((OperationView::BoolToggle, first.end)),
            TokenView::ColonEqual => match read(s, first.end) {
                Err(flaw) => Err(flaw),
                Ok(value) => match value.token {
                    TokenView::Symbol(word) => Ok((word_operation(word), value.end)),
                    TokenView::Number(n) => Ok((OperationView::NumSet(n), value.end)),
                    _ => Err(
                        unexpected(
                            value,
                            "either a boolean literal, a numeric literal, or a symbol"@,
                            None,
                        ),
                    ),
                },
            },
            TokenView::ColonPlus => match read(s, first.end) {
                Err(flaw) => Err(flaw),
                Ok(value) => match want_number(value) {
                    Err(flaw) => Err(flaw),
                    Ok(n) => Ok((OperationView::NumAdd(n), value.end)),
                },
            },
            TokenView::ColonMinus => match read(s, first.end) {
                Err(flaw) => Err(flaw),
                Ok(value) => match want_number(value) {
                    Err(flaw) => Err(flaw),
                    Ok(n) => Ok((OperationView::NumAdd(num::negated(n)), value.end)),
                },
            },
            _ => Err(
                unexpected(first, "one of the operators ':!', ':=', ':+' or ':-'"@, None),
            ),
        },
    }
}

impl<'src> Parser<'src> {
    /// Reads a closing parenthesis.
    pub fn parse_close(&mut self) -> (r: Result<(), Spanned<ParseError>>)
        requires
            old(self).wf(),
        ensures
            final(self).wf(),
            final(self).src@ == old(self).src@,
            old(self).pos <= final(self).pos,
            match closed(old(self).src@, old(self).pos as int, ()) {
                Ok((_, pos)) => r.is_ok() && final(self).pos == pos && old(self).pos
                    < final(self).pos,
                Err(flaw) => r.is_err() && r.unwrap_err()@ == flaw,
            },
    {
        match self.parse_token() {
            Err(e) => Err(e),
            Ok(found) => found.expect_paren_close(),
        }
    }

    /// Parses what stands after `in`.
    fn parse_range(&mut self) -> (r: Result<Predicate, Spanned<ParseError>>)
        requires
            old(self).wf(),
        ensures
            final(self).wf(),
            final(self).src@ == old(self).src@,
            old(self).pos <= final(self).pos,
            match range_at(old(self).src@, old(self).pos as int) {
                Ok((value, pos)) => r.is_ok() && r.unwrap()@ == value && final(self).pos == pos
                    && old(self).pos < final(self).pos,
                Err(flaw) => r.is_err() && r.unwrap_err()@ == flaw,
            },
    {
        let first = match self.parse_token() {
            Err(e) => {
                return Err(e);
            },
            Ok(found) => found,
        };
        match first.token {
            Token::Number(low) => {
                let dots = match self.parse_token() {
                    Err(e) => {
                        return Err(e);
                    },
                    Ok(found) => found,
                };
                let inclusive = match dots.token {
                    Token::Range(inclusive) => inclusive,
                    _ => {
                        return Err(
                            unexpected_token(dots, "either of the specifiers '..' or '..='", None),
                        );
                    },
                };
                let last = match self.parse_token() {
                    Err(e) => {
                        return Err(e);
                    },
                    Ok(found) => found,
                };
                match last.token {
                    Token::Number(high) => {
                        match self.parse_close() {
                            Err(e) => Err(e),
                            Ok(_) => Ok(
                                Predicate::NumRange(
                                    Some(low),
                                    Some(if inclusive { high } else { num::step_down(high) }),
                                ),
                            ),
                        }
                    },
                    Token::ParenClose => Ok(Predicate::NumRange(Some(low), None)),
                    _ => Err(
                        unexpected_token(
                            last,
                            "either a numeric literal or a closing parenthesis",
                            None,
                        ),
                    ),
                }
            },
            Token::Range(true) => {
                let last = match self.parse_token() {
                    Err(e) => {
                        return Err(e);
                    },
                    Ok(found) => found,
                };
                let high = match last.expect_number() {
                    Err(e) => {
                        return Err(e);
                    },
                    Ok(n) => n,
                };
                match self.parse_close() {
                    Err(e) => Err(e),
                    Ok(_) => Ok(Predicate::NumRange(None, Some(high))),
                }
            },
            Token::Range(false) => {
                let last = match self.parse_token() {
                    Err(e) => {
                        return Err(e);
                    },
                    Ok(found) => found,
                };
                match last.token {
                    Token::Number(high) => {
                        match self.parse_close() {
                            Err(e) => Err(e),
                            Ok(_) => Ok(Predicate::NumRange(None, Some(num::step_down(high)))),
                        }
                    },
                    Token::ParenClose => Ok(Predicate::NumRange(None, None)),
                    _ => Err(
                        unexpected_token(
                            last,
                            "either a numeric literal or a closing parenthesis",
                            None,
                        ),
                    ),
                }
            },
            _ => Err(
                unexpected_token(
                    first,
                    "either a numeric literal or either of the specifiers '..' or '..='",
                    None,
                ),
            ),
        }
    }

    /// Parses a predicate, up to and including the closing parenthesis.
    pub fn parse_predicate(&mut self) -> (r: Result<Predicate, Spanned<ParseError>>)
        requires
            old(self).wf(),
        ensures
            final(self).wf(),
            final(self).src@ == old(self).src@,
            old(self).pos <= final(self).pos,
            match predicate_at(old(self).src@, old(self).pos as int) {
                Ok((value, pos)) => r.is_ok() && r.unwrap()@ == value && final(self).pos == pos
                    && old(self).pos < final(self).pos,
                Err(flaw) => r.is_err() && r.unwrap_err()@ == flaw,
            },
    {
        let first = match self.parse_token() {
            Err(e) => {
                return Err(e);
            },
            Ok(found) => found,
        };
        match first.token {
            Token::DoubleEqual => {
                let value = match self.parse_token() {
                    Err(e) => {
                        return Err(e);
                    },
                    Ok(found) => found,
                };
                match value.token {
                    Token::Symbol(word) => {
                        match self.parse_close() {
                            Err(e) => Err(e),
                            Ok(_) => Ok(
                                if is_keyword(&word, Keyword::True) {
                                    Predicate::BoolEqual(true)
                                } else if is_keyword(&word, Keyword::False) {
                                    Predicate::BoolEqual(false)
                                } else {
                                    Predicate::StrEqual(word)
                                },
                            ),
                        }
                    },
                    Token::Number(n) => {
                        match self.parse_close() {
                            Err(e) => Err(e),
                            Ok(_) => Ok(Predicate::NumEqual(n)),
                        }
                    },
                    token => Err(
                        unexpected_token(
                            Scanned { token, start: value.start, end: value.end },
                            "eeither a boolean literal, a numeric literal, or a symbol",
                            None,
                        ),
                    ),
                }
            },
            Token::Symbol(word) => {
                if is_keyword(&word, Keyword::In) {
                    self.parse_range()
                } else {
                    Err(
                        unexpected_token(
                            Scanned { token: Token::Symbol(word), start: first.start, end: first.end },
                            "either a symbol containing the keyword 'in' or the specifier '=='",
                            None,
                        ),
                    )
                }
            },
            token => Err(
                unexpected_token(
                    Scanned { token, start: first.start, end: first.end },
                    "either a symbol containing the keyword 'in' or the specifier '=='",
                    None,
                ),
            ),
        }
    }

    /// Parses an operation.
    pub fn parse_operation(&mut self) -> (r: Result<Operation, Spanned<ParseError>>)
        requires
            old(self).wf(),
        ensures
            final(self).wf(),
            final(self).src@ == old(self).src@,
            old(self).pos <= final(self).pos,
            match operation_at(old(self).src@, old(self).pos as int) {
                Ok((value, pos)) => r.is_ok() && r.unwrap()@ == value && final(self).pos == pos
                    && old(self).pos < final(self).pos,
                Err(flaw) => r.is_err() && r.unwrap_err()@ == flaw,
            },
    {
        let first = match self.parse_token() {
            Err(e) => {
                return Err(e);
            },
            Ok(found) => found,
        };
        match first.token {
            Token::ColonNegated => Ok(Operation::BoolToggle),
            Token::ColonEqual => {
                let value = match self.parse_token() {
                    Err(e) => {
                        return Err(e);
                    },
                    Ok(found) => found,
                };
                match value.token {
                    Token::Symbol(word) => Ok(
                        if is_keyword(&word, Keyword::True) {
                            Operation::BoolSet(true)
                        } else if is_keyword(&word, Keyword::False) {
                            Operation::BoolSet(false)
                        } else {
                            Operation::StrSet(word)
                        },
                    ),
                    Token::Number(n) => Ok(Operation::NumSet(n)),
                    token => Err(
                        unexpected_token(
                            Scanned { token, start: value.start, end: value.end },
                            "either a boolean literal, a numeric literal, or a symbol",
                            None,
                        ),
                    ),
                }
            },
            Token::ColonPlus => {
                let value = match self.parse_token() {
                    Err(e) => {
                        return Err(e);
                    },
                    Ok(found) => found,
                };
                match value.expect_number() {
                    Err(e) => Err(e),
                    Ok(n) => Ok(Operation::NumAdd(n)),
                }
            },
            Token::ColonMinus => {
                let value = match self.parse_token() {
                    Err(e) => {
                        return Err(e);
                    },
                    Ok(found) => found,
                };
                match value.expect_number() {
                    Err(e) => Err(e),
                    Ok(n) => Ok(Operation::NumAdd(num::negate(n))),
                }
            },
            _ => Err(
                unexpected_token(first, "one of the operators ':!', ':=', ':+' or ':-'", None),
            ),
        }
    }
}

/// A token that is read ends after the place it was read from, within the
/// script.
pub proof fn lemma_read(s: Seq<u8>, pos: int)
    requires
        0 <= pos <= s.len(),
    ensures
        match read(s, pos) {
            Ok(found) => pos <= found.start < found.end <= s.len(),
            Err(flaw) => pos <= flaw.start <= flaw.end <= s.len(),
        },
{
    lemma_lexeme_at(s, pos);
}

/// The weight and the end of a criterion: a closing parenthesis, or
/// `weight`, a number and a closing parenthesis. Without a weight the
/// weight is one.
pub open spec fn criterion_end(s: Seq<u8>, pos: int) -> Result<(u32, int), Flaw> {
    match read(s, pos) {
        Err(flaw) => Err(flaw),
        Ok(found) => match found.token {
            TokenView::ParenClose => Ok((num::ONE, found.end)),
            TokenView::Symbol(word) => if word == spelling(Keyword::Weight) {
                match read(s, found.end) {
                    Err(flaw) => Err(flaw),
                    Ok(value) => match want_number(value) {
                        Err(flaw) => Err(flaw),
                        Ok(weight) => match read(s, value.end) {
                            Err(flaw) => Err(flaw),
                            Ok(last) => match last.token {
                                TokenView::ParenClose => Ok((weight, last.end)),
                                _ => Err(
                                    unexpected(
                                        last,
                                        "either a closing parenthesis, or a symbol containing the either of the keywords 'optional' or 'weight'"@,
                                        None,
                                    ),
                                ),
                            },
                        },
                    },
                }
            } else {
                Err(
                    unexpected(
                        found,
                        "either a closing parenthesis, or a symbol containing the either of the keywords 'optional' or 'weight'"@,
                        None,
                    ),
                )
            },
            _ => Err(
                unexpected(
                    found,
                    "either a closing parenthesis, or a symbol containing the either of the keywords 'optional' or 'weight'"@,
                    None,
                ),
            ),
        },
    }
}

/// The criterion that stands at a place, after its name: an open
/// parenthesis, a variable name, a predicate with its closing parenthesis,
/// an optional weight and the closing parenthesis of the definition.
pub open spec fn criterion_at(s: Seq<u8>, pos: int) -> Result<(CriterionView, int), Flaw> {
    match read(s, pos) {
        Err(flaw) => Err(flaw),
        Ok(open) => match want_open(open) {
            Err(flaw) => Err(flaw),
            Ok(_) => match read(s, open.end) {
                Err(flaw) => Err(flaw),
                Ok(word) => match want_var(word) {
                    Err(flaw) => Err(flaw),
                    Ok(variable) => match predicate_at(s, word.end) {
                        Err(flaw) => Err(flaw),
                        Ok((predicate, after)) => match criterion_end(s, after) {
                            Err(flaw) => Err(flaw),
                            Ok((weight, end)) => Ok(
                                (CriterionView { variable, predicate, weight }, end),
                            ),
                        },
                    },
                },
            },
        },
    }
}

/// The identifiers from a place on up to a closing parenthesis, after
/// those already gathered.
pub open spec fn idents_from(s: Seq<u8>, pos: int, gathered: Seq<Seq<u8>>) -> Result<
    (Seq<Seq<u8>>, int),
    Flaw,
>
    decreases s.len() - pos,
    when 0 <= pos <= s.len()
{
    match read(s, pos) {
        Err(flaw) => Err(flaw),
        Ok(found) => match found.token {
            TokenView::ParenClose => Ok((gathered, found.end)),
            _ => match want_ident(found) {
                Err(flaw) => Err(flaw),
                Ok(name) => {
                    proof {
                        lemma_read(s, pos);
                    }
                    idents_from(s, found.end, gathered.push(name))
                },
            },
        },
    }
}

/// The list of identifiers that stands at a place: an open parenthesis,
/// identifiers, a closing parenthesis.
pub open spec fn ident_list_at(s: Seq<u8>, pos: int) -> Result<(Seq<Seq<u8>>, int), Flaw> {
    match read(s, pos) {
        Err(flaw) => Err(flaw),
        Ok(open) => match want_open(open) {
            Err(flaw) => Err(flaw),
            Ok(_) => idents_from(s, open.end, Seq::<Seq<u8>>::empty()),
        },
    }
}

/// An operation ends after the place where it starts, within the script.
pub proof fn lemma_operation_at(s: Seq<u8>, pos: int)
    requires
        0 <= pos <= s.len(),
    ensures
        match operation_at(s, pos) {
            Ok((_, end)) => pos < end <= s.len(),
            Err(_) => true,
        },
{
    lemma_read(s, pos);
    match read(s, pos) {
        Ok(first) => {
            lemma_read(s, first.end);
        },
        Err(_) => {},
    }
}

/// The instructions from a place on up to a closing parenthesis, after
/// those already gathered: each a variable name, with `$` before it for a
/// variable of the world, and an operation.
pub open spec fn instructions_from(s: Seq<u8>, pos: int, gathered: Seq<InstructionView>) -> Result<
    (Seq<InstructionView>, int),
    Flaw,
>
    decreases s.len() - pos,
    when 0 <= pos <= s.len()
{
    match read(s, pos) {
        Err(flaw) => Err(flaw),
        Ok(found) => match found.token {
            TokenView::ParenClose => Ok((gathered, found.end)),
            TokenView::DollarSign => match read(s, found.end) {
                Err(flaw) => Err(flaw),
                Ok(word) => match want_var(word) {
                    Err(flaw) => Err(flaw),
                    Ok(variable) => match operation_at(s, word.end) {
                        Err(flaw) => Err(flaw),
                        Ok((operation, after)) => {
                            proof {
                                lemma_read(s, pos);
                                lemma_read(s, found.end);
                                lemma_operation_at(s, word.end);
                            }
                            instructions_from(
                                s,
                                after,
                                gathered.push(InstructionView { variable, global: true, operation }),
                            )
                        },
                    },
                },
            },
            TokenView::Symbol(_) => match want_var(found) {
                Err(flaw) => Err(flaw),
                Ok(variable) => match operation_at(s, found.end) {
                    Err(flaw) => Err(flaw),
                    Ok((operation, after)) => {
                        proof {
                            lemma_read(s, pos);
                            lemma_operation_at(s, found.end);
                        }
                        instructions_from(
                            s,
                            after,
                            gathered.push(InstructionView { variable, global: false, operation }),
                        )
                    },
                },
            },
            _ => Err(
                unexpected(
                    found,
                    "either a variable name, the '$' variable modifier, or a closing parenthesis"@,
                    None,
                ),
            ),
        },
    }
}

/// The rule that stands at a place, after its name: the list of its
/// criteria, the list of its response groups, its instructions and the
/// closing parenthesis of the definition.
pub open spec fn rule_at(s: Seq<u8>, pos: int) -> Result<(RuleView, int), Flaw> {
    match ident_list_at(s, pos) {
        Err(flaw) => Err(flaw),
        Ok((criteria, after)) => match ident_list_at(s, after) {
            Err(flaw) => Err(flaw),
            Ok((response_groups, then)) => match instructions_from(
                s,
                then,
                Seq::<InstructionView>::empty(),
            ) {
                Err(flaw) => Err(flaw),
                Ok((instructions, end)) => Ok(
                    (RuleView { criteria, response_groups, instructions }, end),
                ),
            },
        },
    }
}

/// The entries of a response from a place on up to a closing parenthesis,
/// after those already gathered: each a symbol and a string. A later entry
/// under the same symbol takes the place of an earlier one.
pub open spec fn entries_from(s: Seq<u8>, pos: int, gathered: Seq<(Seq<u8>, Seq<u8>)>) -> Result<
    (Seq<(Seq<u8>, Seq<u8>)>, int),
    Flaw,
>
    decreases s.len() - pos,
    when 0 <= pos <= s.len()
{
    match read(s, pos) {
        Err(flaw) => Err(flaw),
        Ok(found) => match found.token {
            TokenView::ParenClose => Ok((gathered, found.end)),
            TokenView::Symbol(key) => match read(s, found.end) {
                Err(flaw) => Err(flaw),
                Ok(text) => match want_string(text) {
                    Err(flaw) => Err(flaw),
                    Ok(value) => {
                        proof {
                            lemma_read(s, pos);
                            lemma_read(s, found.end);
                        }
                        entries_from(s, text.end, updated(gathered, key, value))
                    },
                },
            },
            _ => Err(unexpected(found, "either a symbol or a closing parenthesis"@, None)),
        },
    }
}

/// A response ends after the place where it starts, within the script.
pub proof fn lemma_entries_from(s: Seq<u8>, pos: int, gathered: Seq<(Seq<u8>, Seq<u8>)>)
    requires
        0 <= pos <= s.len(),
    ensures
        match entries_from(s, pos, gathered) {
            Ok((_, end)) => pos < end <= s.len(),
            Err(_) => true,
        },
    decreases s.len() - pos,
{
    lemma_read(s, pos);
    match read(s, pos) {
        Ok(found) => {
            lemma_read(s, found.end);
            match found.token {
                TokenView::Symbol(key) => match read(s, found.end) {
                    Ok(text) => match want_string(text) {
                        Ok(value) => {
                            lemma_entries_from(s, text.end, updated(gathered, key, value));
                        },
                        Err(_) => {},
                    },
                    Err(_) => {},
                },
                _ => {},
            }
        },
        Err(_) => {},
    }
}

/// The responses of a group from a token on up to a closing parenthesis,
/// after those already gathered: each an open parenthesis and entries. The
/// group may close only after at least one response.
pub open spec fn responses_from(
    s: Seq<u8>,
    found: Read,
    gathered: Seq<Seq<(Seq<u8>, Seq<u8>)>>,
) -> Result<(Seq<Seq<(Seq<u8>, Seq<u8>)>>, int), Flaw>
    decreases s.len() - found.end,
    when 0 <= found.end <= s.len()
{
    match found.token {
        TokenView::ParenOpen => match entries_from(
            s,
            found.end,
            Seq::<(Seq<u8>, Seq<u8>)>::empty(),
        ) {
            Err(flaw) => Err(flaw),
            Ok((response, after)) => match read(s, after) {
                Err(flaw) => Err(flaw),
                Ok(next) => {
                    proof {
                        lemma_entries_from(s, found.end, Seq::<(Seq<u8>, Seq<u8>)>::empty());
                        lemma_read(s, after);
                    }
                    responses_from(s, next, gathered.push(response))
                },
            },
        },
        TokenView::ParenClose => if gathered.len() > 0 {
            Ok((gathered, found.end))
        } else {
            Err(unexpected(found, "either open parenthesis or a closing parenthesis"@, None))
        },
        _ => Err(unexpected(found, "either open parenthesis or a closing parenthesis"@, None)),
    }
}

/// The delivery that a word names, if it names one.
pub open spec fn delivery_of(word: Seq<u8>) -> Option<Delivery> {
    if word == spelling(Keyword::Shuffle) {
        Some(Delivery::Shuffle)
    } else if word == spelling(Keyword::Random) {
        Some(Delivery::Random)
    } else if word == spelling(Keyword::Deplete) {
        Some(Delivery::Deplete)
    } else if word == spelling(Keyword::Loop) {
        Some(Delivery::Loop)
    } else if word == spelling(Keyword::List) {
        Some(Delivery::List)
    } else {
        None
    }
}

/// The response group that stands at a place, after its name: an optional
/// delivery, which is `shuffle` where it is absent, the responses and the
/// closing parenthesis of the definition. A word that names no delivery is
/// reported at the token after it.
pub open spec fn group_at(s: Seq<u8>, pos: int) -> Result<(ResponseGroupView, int), Flaw> {
    match read(s, pos) {
        Err(flaw) => Err(flaw),
        Ok(first) => match first.token {
            TokenView::Symbol(word) => match read(s, first.end) {
                Err(flaw) => Err(flaw),
                Ok(next) => match delivery_of(word) {
                    None => Err(
                        unexpected(
                            Read { token: first.token, start: next.start, end: next.end },
                            "a symbol containing one of the keywords 'shuffle', 'random', 'deplete', 'loop', or 'list'"@,
                            None,
                        ),
                    ),
                    Some(delivery) => match responses_from(
                        s,
                        next,
                        Seq::<Seq<(Seq<u8>, Seq<u8>)>>::empty(),
                    ) {
                        Err(flaw) => Err(flaw),
                        Ok((responses, end)) => Ok((ResponseGroupView { delivery, responses }, end)),
                    },
                },
            },
            _ => match responses_from(s, first, Seq::<Seq<(Seq<u8>, Seq<u8>)>>::empty()) {
                Err(flaw) => Err(flaw),
                Ok((responses, end)) => Ok(
                    (ResponseGroupView { delivery: Delivery::Shuffle, responses }, end),
                ),
            },
        },
    }
}

/// The definition that stands at a place, after its open parenthesis: a
/// keyword, a name, and what the keyword asks for. A word that is no
/// keyword is reported at the name.
pub open spec fn definition_at(s: Seq<u8>, pos: int) -> Result<(DefinitionView, int), Flaw> {
    match read(s, pos) {
        Err(flaw) => Err(flaw),
        Ok(first) => match want_symbol(first) {
            Err(flaw) => Err(flaw),
            Ok(keyword) => match read(s, first.end) {
                Err(flaw) => Err(flaw),
                Ok(second) => match want_ident(second) {
                    Err(flaw) => Err(flaw),
                    Ok(name) => if keyword == spelling(Keyword::Criterion) {
                        match criterion_at(s, second.end) {
                            Err(flaw) => Err(flaw),
                            Ok((criterion, end)) => Ok(
                                (DefinitionView::Criterion { name, criterion }, end),
                            ),
                        }
                    } else if keyword == spelling(Keyword::Rule) {
                        match rule_at(s, second.end) {
                            Err(flaw) => Err(flaw),
                            Ok((rule, end)) => Ok((DefinitionView::Rule { name, rule }, end)),
                        }
                    } else if keyword == spelling(Keyword::Response) {
                        match group_at(s, second.end) {
                            Err(flaw) => Err(flaw),
                            Ok((response_group, end)) => Ok(
                                (DefinitionView::ResponseGroup { name, response_group }, end),
                            ),
                        }
                    } else {
                        Err(
                            unexpected(
                                Read { token: first.token, start: second.start, end: second.end },
                                "a symbol containing one of the keywords 'criterion', 'rule', or 'response'"@,
                                None,
                            ),
                        )
                    },
                },
            },
        },
    }
}

/// A definition with the stretch of the script that it takes.
pub struct Found {
    pub definition: DefinitionView,
    pub start: int,
    pub end: int,
}

/// What stands at a place between definitions: nothing up to the end of
/// the script, or a definition in parentheses.
#[verifier::opaque]
pub open spec fn maybe_definition_at(s: Seq<u8>, pos: int) -> Result<Option<Found>, Flaw> {
    let lexeme = lexeme_at(s, pos);
    match lexeme.kind {
        LexemeKind::End => Ok(None),
        LexemeKind::Error(error) => Err(
            Flaw { error: ParseErrorView::LexError { error }, start: lexeme.start, end: lexeme.end },
        ),
        LexemeKind::Token(token) => match token {
            TokenView::ParenOpen => match definition_at(s, lexeme.end) {
                Err(flaw) => Err(flaw),
                Ok((definition, end)) => Ok(Some(Found { definition, start: lexeme.start, end })),
            },
            _ => Err(
                unexpected(
                    Read { token, start: lexeme.start, end: lexeme.end },
                    "either an open parenthesis or the end of the file"@,
                    None,
                ),
            ),
        },
    }
}

impl Scanned {
    /// Whether the token is a closing parenthesis.
    pub fn is_close(&self) -> (r: bool)
        ensures
            r == (self@.token is ParenClose),
    {
        match &self.token {
            Token::ParenClose => true,
            _ => false,
        }
    }
}

impl<'src> Parser<'src> {
    /// Parses a criterion, after its name.
    pub fn parse_criterion(&mut self) -> (r: Result<Criterion, Spanned<ParseError>>)
        requires
            old(self).wf(),
        ensures
            final(self).wf(),
            final(self).src@ == old(self).src@,
            old(self).pos <= final(self).pos,
            match criterion_at(old(self).src@, old(self).pos as int) {
                Ok((value, pos)) => r.is_ok() && r.unwrap()@ == value && final(self).pos == pos
                    && old(self).pos < final(self).pos,
                Err(flaw) => r.is_err() && r.unwrap_err()@ == flaw,
            },
    {
        let open = match self.parse_token() {
            Err(e) => {
                return Err(e);
            },
            Ok(found) => found,
        };
        match open.expect_paren_open() {
            Err(e) => {
                return Err(e);
            },
            Ok(_) => {},
        }
        let word = match self.parse_token() {
            Err(e) => {
                return Err(e);
            },
            Ok(found) => found,
        };
        let variable = match word.expect_var() {
            Err(e) => {
                return Err(e);
            },
            Ok(name) => name,
        };
        let predicate = match self.parse_predicate() {
            Err(e) => {
                return Err(e);
            },
            Ok(p) => p,
        };
        let found = match self.parse_token() {
            Err(e) => {
                return Err(e);
            },
            Ok(found) => found,
        };
        match found.token {
            Token::ParenClose => Ok(Criterion { variable, predicate, weight: num::ONE }),
            Token::Symbol(word) => {
                if is_keyword(&word, Keyword::Weight) {
                    let value = match self.parse_token() {
                        Err(e) => {
                            return Err(e);
                        },
                        Ok(found) => found,
                    };
                    let weight = match value.expect_number() {
                        Err(e) => {
                            return Err(e);
                        },
                        Ok(n) => n,
                    };
                    let last = match self.parse_token() {
                        Err(e) => {
                            return Err(e);
                        },
                        Ok(found) => found,
                    };
                    if last.is_close() {
                        Ok(Criterion { variable, predicate, weight })
                    } else {
                        Err(
                            unexpected_token(
                                last,
                                "either a closing parenthesis, or a symbol containing the either of the keywords 'optional' or 'weight'",
                                None,
                            ),
                        )
                    }
                } else {
                    Err(
                        unexpected_token(
                            Scanned { token: Token::Symbol(word), start: found.start, end: found.end },
                            "either a closing parenthesis, or a symbol containing the either of the keywords 'optional' or 'weight'",
                            None,
                        ),
                    )
                }
            },
            token => Err(
                unexpected_token(
                    Scanned { token, start: found.start, end: found.end },
                    "either a closing parenthesis, or a symbol containing the either of the keywords 'optional' or 'weight'",
                    None,
                ),
            ),
        }
    }

    /// Parses a list of identifiers in parentheses.
    pub fn parse_ident_list(&mut self) -> (r: Result<Vec<Name>, Spanned<ParseError>>)
        requires
            old(self).wf(),
        ensures
            final(self).wf(),
            final(self).src@ == old(self).src@,
            old(self).pos <= final(self).pos,
            match ident_list_at(old(self).src@, old(self).pos as int) {
                Ok((value, pos)) => r.is_ok() && name_views(r.unwrap()@) == value
                    && final(self).pos == pos && old(self).pos < final(self).pos,
                Err(flaw) => r.is_err() && r.unwrap_err()@ == flaw,
            },
    {
        let open = match self.parse_token() {
            Err(e) => {
                return Err(e);
            },
            Ok(found) => found,
        };
        match open.expect_paren_open() {
            Err(e) => {
                return Err(e);
            },
            Ok(_) => {},
        }
        let ghost start = self.pos as int;
        let mut list: Vec<Name> = Vec::new();
        assert(name_views(list@) =~= Seq::<Seq<u8>>::empty());
        loop
            invariant
                self.wf(),
                self.src@ == old(self).src@,
                old(self).pos < self.pos,
                ident_list_at(old(self).src@, old(self).pos as int) == idents_from(
                    self.src@,
                    start,
                    Seq::<Seq<u8>>::empty(),
                ),
                idents_from(self.src@, start, Seq::<Seq<u8>>::empty()) == idents_from(
                    self.src@,
                    self.pos as int,
                    name_views(list@),
                ),
            decreases self.src@.len() - self.pos,
        {
            let found = match self.parse_token() {
                Err(e) => {
                    return Err(e);
                },
                Ok(found) => found,
            };
            if found.is_close() {
                return Ok(list);
            }
            let ghost before = name_views(list@);
            match found.expect_ident() {
                Err(e) => {
                    return Err(e);
                },
                Ok(name) => {
                    list.push(name);
                    assert(name_views(list@) =~= before.push(name@));
                },
            }
        }
    }

    /// Parses a rule, after its name.
    pub fn parse_rule(&mut self) -> (r: Result<Rule, Spanned<ParseError>>)
        requires
            old(self).wf(),
        ensures
            final(self).wf(),
            final(self).src@ == old(self).src@,
            old(self).pos <= final(self).pos,
            match rule_at(old(self).src@, old(self).pos as int) {
                Ok((value, pos)) => r.is_ok() && r.unwrap()@ == value && final(self).pos == pos
                    && old(self).pos < final(self).pos,
                Err(flaw) => r.is_err() && r.unwrap_err()@ == flaw,
            },
    {
        let criteria = match self.parse_ident_list() {
            Err(e) => {
                return Err(e);
            },
            Ok(list) => list,
        };
        let response_groups = match self.parse_ident_list() {
            Err(e) => {
                return Err(e);
            },
            Ok(list) => list,
        };
        let ghost start = self.pos as int;
        let mut instructions: Vec<Instruction> = Vec::new();
        assert(instruction_views(instructions@) =~= Seq::<InstructionView>::empty());
        loop
            invariant
                self.wf(),
                self.src@ == old(self).src@,
                old(self).pos < self.pos,
                rule_at(old(self).src@, old(self).pos as int) == match instructions_from(
                    self.src@,
                    start,
                    Seq::<InstructionView>::empty(),
                ) {
                    Err(flaw) => Err::<(RuleView, int), Flaw>(flaw),
                    Ok((listed, end)) => Ok(
                        (
                            RuleView {
                                criteria: name_views(criteria@),
                                response_groups: name_views(response_groups@),
                                instructions: listed,
                            },
                            end,
                        ),
                    ),
                },
                instructions_from(self.src@, start, Seq::<InstructionView>::empty())
                    == instructions_from(
                    self.src@,
                    self.pos as int,
                    instruction_views(instructions@),
                ),
            decreases self.src@.len() - self.pos,
        {
            let found = match self.parse_token() {
                Err(e) => {
                    return Err(e);
                },
                Ok(found) => found,
            };
            let ghost before = instruction_views(instructions@);
            match found.token {
                Token::ParenClose => {
                    return Ok(Rule { criteria, response_groups, instructions });
                },
                Token::DollarSign => {
                    let word = match self.parse_token() {
                        Err(e) => {
                            return Err(e);
                        },
                        Ok(found) => found,
                    };
                    let variable = match word.expect_var() {
                        Err(e) => {
                            return Err(e);
                        },
                        Ok(name) => name,
                    };
                    let operation = match self.parse_operation() {
                        Err(e) => {
                            return Err(e);
                        },
                        Ok(op) => op,
                    };
                    let instruction = Instruction { variable, global: true, operation };
                    instructions.push(instruction);
                    assert(instruction_views(instructions@) =~= before.push(instruction@));
                },
                Token::Symbol(word) => {
                    let again = Scanned {
                        token: Token::Symbol(word),
                        start: found.start,
                        end: found.end,
                    };
                    let variable = match again.expect_var() {
                        Err(e) => {
                            return Err(e);
                        },
                        Ok(name) => name,
                    };
                    let operation = match self.parse_operation() {
                        Err(e) => {
                            return Err(e);
                        },
                        Ok(op) => op,
                    };
                    let instruction = Instruction { variable, global: false, operation };
                    instructions.push(instruction);
                    assert(instruction_views(instructions@) =~= before.push(instruction@));
                },
                token => {
                    return Err(
                        unexpected_token(
                            Scanned { token, start: found.start, end: found.end },
                            "either a variable name, the '$' variable modifier, or a closing parenthesis",
                            None,
                        ),
                    );
                },
            }
        }
    }

    /// Parses a response, after its open parenthesis.
    pub fn parse_response(&mut self) -> (r: Result<Response, Spanned<ParseError>>)
        requires
            old(self).wf(),
        ensures
            final(self).wf(),
            final(self).src@ == old(self).src@,
            old(self).pos <= final(self).pos,
            match entries_from(
                old(self).src@,
                old(self).pos as int,
                Seq::<(Seq<u8>, Seq<u8>)>::empty(),
            ) {
                Ok((value, pos)) => r.is_ok() && response_view(r.unwrap()) == value
                    && r.unwrap().wf() && final(self).pos == pos && old(self).pos
                    < final(self).pos,
                Err(flaw) => r.is_err() && r.unwrap_err()@ == flaw,
            },
    {
        let ghost start = self.pos as int;
        let mut response: Response = Table::new();
        assert(viewed(response@) =~= Seq::<(Seq<u8>, Seq<u8>)>::empty());
        loop
            invariant
                self.wf(),
                self.src@ == old(self).src@,
                old(self).pos <= self.pos,
                start == old(self).pos,
                response.wf(),
                self.pos == old(self).pos ==> viewed(response@) == Seq::<
                    (Seq<u8>, Seq<u8>),
                >::empty(),
                entries_from(self.src@, start, Seq::<(Seq<u8>, Seq<u8>)>::empty()) == entries_from(
                    self.src@,
                    self.pos as int,
                    viewed(response@),
                ),
            decreases self.src@.len() - self.pos,
        {
            let found = match self.parse_token() {
                Err(e) => {
                    return Err(e);
                },
                Ok(found) => found,
            };
            match found.token {
                Token::ParenClose => {
                    assert(response_view(response) =~= viewed(response@));
                    return Ok(response);
                },
                Token::Symbol(key) => {
                    let text = match self.parse_token() {
                        Err(e) => {
                            return Err(e);
                        },
                        Ok(found) => found,
                    };
                    let value = match text.expect_string() {
                        Err(e) => {
                            return Err(e);
                        },
                        Ok(s) => s,
                    };
                    proof {
                        lemma_viewed_updated(response@, key@, value);
                    }
                    response.insert(key, value);
                },
                token => {
                    return Err(
                        unexpected_token(
                            Scanned { token, start: found.start, end: found.end },
                            "either a symbol or a closing parenthesis",
                            None,
                        ),
                    );
                },
            }
        }
    }

    /// Parses a response group, after its name.
    pub fn parse_response_group(&mut self) -> (r: Result<ResponseGroup, Spanned<ParseError>>)
        requires
            old(self).wf(),
        ensures
            final(self).wf(),
            final(self).src@ == old(self).src@,
            old(self).pos <= final(self).pos,
            match group_at(old(self).src@, old(self).pos as int) {
                Ok((value, pos)) => r.is_ok() && r.unwrap()@ == value && r.unwrap().wf()
                    && final(self).pos == pos && old(self).pos < final(self).pos,
                Err(flaw) => r.is_err() && r.unwrap_err()@ == flaw,
            },
    {
        let first = match self.parse_token() {
            Err(e) => {
                return Err(e);
            },
            Ok(found) => found,
        };
        let mut delivery = Delivery::Shuffle;
        let mut token = first;
        let named = match &token.token {
            Token::Symbol(_) => true,
            _ => false,
        };
        if named {
            let next = match self.parse_token() {
                Err(e) => {
                    return Err(e);
                },
                Ok(found) => found,
            };
            let word = match token.token {
                Token::Symbol(word) => word,
                _ => Name::from_bytes(Vec::new()),
            };
            if is_keyword(&word, Keyword::Shuffle) {
                delivery = Delivery::Shuffle;
            } else if is_keyword(&word, Keyword::Random) {
                delivery = Delivery::Random;
            } else if is_keyword(&word, Keyword::Deplete) {
                delivery = Delivery::Deplete;
            } else if is_keyword(&word, Keyword::Loop) {
                delivery = Delivery::Loop;
            } else if is_keyword(&word, Keyword::List) {
                delivery = Delivery::List;
            } else {
                return Err(
                    unexpected_token(
                        Scanned { token: Token::Symbol(word), start: next.start, end: next.end },
                        "a symbol containing one of the keywords 'shuffle', 'random', 'deplete', 'loop', or 'list'",
                        None,
                    ),
                );
            }
            token = next;
        }
        let ghost begin = token@;
        let mut responses: Vec<Response> = Vec::new();
        assert(response_views(responses@) =~= Seq::<Seq<(Seq<u8>, Seq<u8>)>>::empty());
        loop
            invariant
                self.wf(),
                self.src@ == old(self).src@,
                old(self).pos < self.pos,
                token.end == self.pos,
                group_at(old(self).src@, old(self).pos as int) == match responses_from(
                    self.src@,
                    begin,
                    Seq::<Seq<(Seq<u8>, Seq<u8>)>>::empty(),
                ) {
                    Err(flaw) => Err::<(ResponseGroupView, int), Flaw>(flaw),
                    Ok((listed, end)) => Ok(
                        (ResponseGroupView { delivery, responses: listed }, end),
                    ),
                },
                forall|i: int| 0 <= i < responses@.len() ==> (#[trigger] responses@[i]).wf(),
                responses_from(self.src@, begin, Seq::<Seq<(Seq<u8>, Seq<u8>)>>::empty())
                    == responses_from(self.src@, token@, response_views(responses@)),
            decreases self.src@.len() - self.pos,
        {
            let ghost before = response_views(responses@);
            match token.token {
                Token::ParenOpen => {
                    let response = match self.parse_response() {
                        Err(e) => {
                            return Err(e);
                        },
                        Ok(r) => r,
                    };
                    responses.push(response);
                    assert(response_views(responses@) =~= before.push(response_view(response)));
                },
                Token::ParenClose => {
                    if responses.len() > 0 {
                        return Ok(ResponseGroup { delivery, responses });
                    } else {
                        return Err(
                            unexpected_token(
                                Scanned {
                                    token: Token::ParenClose,
                                    start: token.start,
                                    end: token.end,
                                },
                                "either open parenthesis or a closing parenthesis",
                                None,
                            ),
                        );
                    }
                },
                other => {
                    return Err(
                        unexpected_token(
                            Scanned { token: other, start: token.start, end: token.end },
                            "either open parenthesis or a closing parenthesis",
                            None,
                        ),
                    );
                },
            }
            token =
            match self.parse_token() {
                Err(e) => {
                    return Err(e);
                },
                Ok(found) => found,
            };
        }
    }

    /// Parses a definition, after its open parenthesis.
    pub fn parse_definition(&mut self) -> (r: Result<Definition, Spanned<ParseError>>)
        requires
            old(self).wf(),
        ensures
            final(self).wf(),
            final(self).src@ == old(self).src@,
            old(self).pos <= final(self).pos,
            match definition_at(old(self).src@, old(self).pos as int) {
                Ok((value, pos)) => r.is_ok() && r.unwrap()@ == value && definition_wf(r.unwrap())
                    && final(self).pos == pos && old(self).pos < final(self).pos,
                Err(flaw) => r.is_err() && r.unwrap_err()@ == flaw,
            },
    {
        let first = match self.parse_token() {
            Err(e) => {
                return Err(e);
            },
            Ok(found) => found,
        };
        let keyword = match first.expect_symbol() {
            Err(e) => {
                return Err(e);
            },
            Ok(word) => word,
        };
        let second = match self.parse_token() {
            Err(e) => {
                return Err(e);
            },
            Ok(found) => found,
        };
        let start = second.start;
        let end = second.end;
        let name = match second.expect_ident() {
            Err(e) => {
                return Err(e);
            },
            Ok(word) => word,
        };
        if is_keyword(&keyword, Keyword::Criterion) {
            match self.parse_criterion() {
                Err(e) => Err(e),
                Ok(criterion) => Ok(Definition::Criterion { name, criterion }),
            }
        } else if is_keyword(&keyword, Keyword::Rule) {
            match self.parse_rule() {
                Err(e) => Err(e),
                Ok(rule) => Ok(Definition::Rule { name, rule }),
            }
        } else if is_keyword(&keyword, Keyword::Response) {
            match self.parse_response_group() {
                Err(e) => Err(e),
                Ok(response_group) => Ok(Definition::ResponseGroup { name, response_group }),
            }
        } else {
            Err(
                unexpected_token(
                    Scanned { token: Token::Symbol(keyword), start, end },
                    "a symbol containing one of the keywords 'criterion', 'rule', or 'response'",
                    None,
                ),
            )
        }
    }

    /// Parses the next definition of the script, if there is one.
    pub fn maybe_parse_definition(&mut self) -> (r: Result<
        Option<(Definition, Span)>,
        Spanned<ParseError>,
    >)
        requires
            old(self).wf(),
        ensures
            final(self).wf(),
            final(self).src@ == old(self).src@,
            old(self).pos <= final(self).pos,
            match maybe_definition_at(old(self).src@, old(self).pos as int) {
                Ok(Some(found)) => r.is_ok() && r.unwrap().is_some() && r.unwrap().unwrap().0@
                    == found.definition && definition_wf(r.unwrap().unwrap().0)
                    && r.unwrap().unwrap().1.start == found.start && r.unwrap().unwrap().1.end
                    == found.end && final(self).pos == found.end && old(self).pos
                    < final(self).pos,
                Ok(None) => r.is_ok() && r.unwrap().is_none(),
                Err(flaw) => r.is_err() && r.unwrap_err()@ == flaw,
            },
    {
        reveal(maybe_definition_at);
        let lexed = next_lexeme(self.src, self.pos);
        self.pos = lexed.end;
        let span = Span { start: lexed.start, end: lexed.end };
        match lexed.item {
            None => Ok(None),
            Some(Err(error)) => Err(Spanned { error: ParseError::LexError { error }, span }),
            Some(Ok(Token::ParenOpen)) => {
                match self.parse_definition() {
                    Err(e) => Err(e),
                    Ok(definition) => Ok(
                        Some((definition, Span { start: lexed.start, end: self.pos })),
                    ),
                }
            },
            Some(Ok(token)) => Err(
                unexpected_token(
                    Scanned { token, start: lexed.start, end: lexed.end },
                    "either an open parenthesis or the end of the file",
                    None,
                ),
            ),
        }
    }
}

/// The responses of a definition of a response group are well-formed
/// tables.
pub open spec fn definition_wf(definition: Definition) -> bool {
    match definition {
        Definition::ResponseGroup { response_group, .. } => response_group.wf(),
        _ => true,
    }
}

/// Wherever a token is read, it ends after the place it was read from,
/// within the script.
pub proof fn lemma_read_all(s: Seq<u8>)
    ensures
        forall|pos: int|
            0 <= pos <= s.len() ==> match #[trigger] read(s, pos) {
                Ok(found) => pos <= found.start < found.end <= s.len(),
                Err(_) => true,
            },
{
    assert forall|pos: int| 0 <= pos <= s.len() implies match #[trigger] read(s, pos) {
        Ok(found) => pos <= found.start < found.end <= s.len(),
        Err(_) => true,
    } by {
        lemma_read(s, pos);
    }
}

/// A list of identifiers ends after the place where it starts, within the
/// script.
pub proof fn lemma_idents_from(s: Seq<u8>, pos: int, gathered: Seq<Seq<u8>>)
    requires
        0 <= pos <= s.len(),
    ensures
        match idents_from(s, pos, gathered) {
            Ok((_, end)) => pos < end <= s.len(),
            Err(_) => true,
        },
    decreases s.len() - pos,
{
    lemma_read(s, pos);
    match read(s, pos) {
        Ok(found) => match found.token {
            TokenView::ParenClose => {},
            _ => match want_ident(found) {
                Ok(name) => {
                    lemma_idents_from(s, found.end, gathered.push(name));
                },
                Err(_) => {},
            },
        },
        Err(_) => {},
    }
}

/// The instructions of a rule end after the place where they start, within
/// the script.
pub proof fn lemma_instructions_from(s: Seq<u8>, pos: int, gathered: Seq<InstructionView>)
    requires
        0 <= pos <= s.len(),
    ensures
        match instructions_from(s, pos, gathered) {
            Ok((_, end)) => pos < end <= s.len(),
            Err(_) => true,
        },
    decreases s.len() - pos,
{
    lemma_read_all(s);
    match read(s, pos) {
        Ok(found) => match found.token {
            TokenView::DollarSign => match read(s, found.end) {
                Ok(word) => match want_var(word) {
                    Ok(variable) => {
                        lemma_operation_at(s, word.end);
                        match operation_at(s, word.end) {
                            Ok((operation, after)) => {
                                lemma_instructions_from(
                                    s,
                                    after,
                                    gathered.push(
                                        InstructionView { variable, global: true, operation },
                                    ),
                                );
                            },
                            Err(_) => {},
                        }
                    },
                    Err(_) => {},
                },
                Err(_) => {},
            },
            TokenView::Symbol(_) => match want_var(found) {
                Ok(variable) => {
                    lemma_operation_at(s, found.end);
                    match operation_at(s, found.end) {
                        Ok((operation, after)) => {
                            lemma_instructions_from(
                                s,
                                after,
                                gathered.push(
                                    InstructionView { variable, global: false, operation },
                                ),
                            );
                        },
                        Err(_) => {},
                    }
                },
                Err(_) => {},
            },
            _ => {},
        },
        Err(_) => {},
    }
}

/// The responses of a group end after the token where they start, within
/// the script.
pub proof fn lemma_responses_from(
    s: Seq<u8>,
    found: Read,
    gathered: Seq<Seq<(Seq<u8>, Seq<u8>)>>,
)
    requires
        0 <= found.end <= s.len(),
    ensures
        match responses_from(s, found, gathered) {
            Ok((_, end)) => found.end <= end <= s.len(),
            Err(_) => true,
        },
    decreases s.len() - found.end,
{
    match found.token {
        TokenView::ParenOpen => {
            lemma_entries_from(s, found.end, Seq::<(Seq<u8>, Seq<u8>)>::empty());
            match entries_from(s, found.end, Seq::<(Seq<u8>, Seq<u8>)>::empty()) {
                Ok((response, after)) => {
                    lemma_read(s, after);
                    match read(s, after) {
                        Ok(next) => {
                            lemma_responses_from(s, next, gathered.push(response));
                        },
                        Err(_) => {},
                    }
                },
                Err(_) => {},
            }
        },
        _ => {},
    }
}

/// A definition ends after the place where it starts, within the script.
pub proof fn lemma_definition_at(s: Seq<u8>, pos: int)
    requires
        0 <= pos <= s.len(),
    ensures
        match definition_at(s, pos) {
            Ok((_, end)) => pos < end <= s.len(),
            Err(_) => true,
        },
{
    lemma_read_all(s);
    match read(s, pos) {
        Ok(first) => match read(s, first.end) {
            Ok(second) => {
                let at = second.end;
                // A criterion.
                match read(s, at) {
                    Ok(open) => match read(s, open.end) {
                        Ok(word) => {
                            lemma_predicate_at(s, word.end);
                            match predicate_at(s, word.end) {
                                Ok((_, after)) => {
                                    lemma_criterion_end(s, after);
                                },
                                Err(_) => {},
                            }
                        },
                        Err(_) => {},
                    },
                    Err(_) => {},
                }
                // A rule.
                lemma_ident_list_at(s, at);
                match ident_list_at(s, at) {
                    Ok((_, after)) => {
                        lemma_ident_list_at(s, after);
                        match ident_list_at(s, after) {
                            Ok((_, then)) => {
                                lemma_instructions_from(s, then, Seq::<InstructionView>::empty());
                            },
                            Err(_) => {},
                        }
                    },
                    Err(_) => {},
                }
                // A response group.
                match read(s, at) {
                    Ok(head) => {
                        lemma_responses_from(s, head, Seq::<Seq<(Seq<u8>, Seq<u8>)>>::empty());
                        match read(s, head.end) {
                            Ok(next) => {
                                lemma_responses_from(
                                    s,
                                    next,
                                    Seq::<Seq<(Seq<u8>, Seq<u8>)>>::empty(),
                                );
                            },
                            Err(_) => {},
                        }
                    },
                    Err(_) => {},
                }
            },
            Err(_) => {},
        },
        Err(_) => {},
    }
}

/// A list of identifiers in parentheses ends after the place where it
/// starts, within the script.
pub proof fn lemma_ident_list_at(s: Seq<u8>, pos: int)
    requires
        0 <= pos <= s.len(),
    ensures
        match ident_list_at(s, pos) {
            Ok((_, end)) => pos < end <= s.len(),
            Err(_) => true,
        },
{
    lemma_read(s, pos);
    match read(s, pos) {
        Ok(open) => {
            lemma_idents_from(s, open.end, Seq::<Seq<u8>>::empty());
        },
        Err(_) => {},
    }
}

/// A predicate ends after the place where it starts, within the script.
pub proof fn lemma_predicate_at(s: Seq<u8>, pos: int)
    requires
        0 <= pos <= s.len(),
    ensures
        match predicate_at(s, pos) {
            Ok((_, end)) => pos < end <= s.len(),
            Err(_) => true,
        },
{
    lemma_read_all(s);
    match read(s, pos) {
        Ok(first) => match read(s, first.end) {
            Ok(second) => match read(s, second.end) {
                Ok(third) => match read(s, third.end) {
                    Ok(fourth) => match read(s, fourth.end) {
                        Ok(_) => {},
                        Err(_) => {},
                    },
                    Err(_) => {},
                },
                Err(_) => {},
            },
            Err(_) => {},
        },
        Err(_) => {},
    }
}

/// The end of a criterion lies after the place where it starts, within the
/// script.
pub proof fn lemma_criterion_end(s: Seq<u8>, pos: int)
    requires
        0 <= pos <= s.len(),
    ensures
        match criterion_end(s, pos) {
            Ok((_, end)) => pos < end <= s.len(),
            Err(_) => true,
        },
{
    lemma_read_all(s);
    match read(s, pos) {
        Ok(first) => match read(s, first.end) {
            Ok(second) => match read(s, second.end) {
                Ok(_) => {},
                Err(_) => {},
            },
            Err(_) => {},
        },
        Err(_) => {},
    }
}

/// A definition that is found between definitions ends after the place
/// where the search started, within the script.
pub proof fn lemma_maybe_definition_at(s: Seq<u8>, pos: int)
    requires
        0 <= pos <= s.len(),
    ensures
        match maybe_definition_at(s, pos) {
            Ok(Some(found)) => pos <= found.start < found.end <= s.len(),
            _ => true,
        },
{
    reveal(maybe_definition_at);
    lemma_lexeme_at(s, pos);
    lemma_definition_at(s, lexeme_at(s, pos).end);
}

} // verus!
