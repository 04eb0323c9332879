//! The lexer: from the bytes of a script to its tokens.
use crate::literal::digits_end;
use crate::literal::is_decimal_text;
use crate::literal::is_digit;
use crate::literal::lemma_digits_end;
use crate::literal::lemma_digits_end_within;
use crate::literal::sign_len;
use crate::literal::skip_digits;
use crate::name::Name;
use crate::soft;
use vstd::prelude::*;

verus! {

/// A token of the script language.
#[derive(Debug)]
pub enum Token {
    /// A word: a letter followed by letters, digits, `_` and `$`.
    Symbol(Name),
    /// A number, by its bit pattern.
    Number(u32),
    /// The text between two double quotes.
    String(Vec<u8>),
    ParenOpen,
    ParenClose,
    /// `:=`
    ColonEqual,
    /// `:!`
    ColonNegated,
    /// `:+`
    ColonPlus,
    /// `:-`
    ColonMinus,
    /// `==`
    DoubleEqual,
    /// `..`, or `..=` where the flag is set.
    Range(bool),
    /// `$`
    DollarSign,
}

/// A token, with names and texts as sequences of bytes.
pub enum TokenView {
    Symbol(Seq<u8>),
    Number(u32),
    String(Seq<u8>),
    ParenOpen,
    ParenClose,
    ColonEqual,
    ColonNegated,
    ColonPlus,
    ColonMinus,
    DoubleEqual,
    Range(bool),
    DollarSign,
}

impl View for Token {
    type V = TokenView;

    open spec fn view(&self) -> TokenView {
        match self {
            Token::Symbol(s) => TokenView::Symbol(s@),
            Token::Number(n) => TokenView::Number(*n),
            Token::String(s) => TokenView::String(s@),
            Token::ParenOpen => TokenView::ParenOpen,
            Token::ParenClose => TokenView::ParenClose,
            Token::ColonEqual => TokenView::ColonEqual,
            Token::ColonNegated => TokenView::ColonNegated,
            Token::ColonPlus => TokenView::ColonPlus,
            Token::ColonMinus => TokenView::ColonMinus,
            Token::DoubleEqual => TokenView::DoubleEqual,
            Token::Range(b) => TokenView::Range(*b),
            Token::DollarSign => TokenView::DollarSign,
        }
    }
}

/// What can be wrong with the text of a token.
#[derive(Clone, Copy, Debug, PartialEq, Eq, Structural)]
pub enum LexicalError {
    /// The text has the form of a number but denotes none.
    NumericError,
    /// No token starts here.
    LexicalError,
}

impl Default for LexicalError {
    fn default() -> (r: LexicalError)
        ensures
            r == LexicalError::LexicalError,
    {
        LexicalError::LexicalError
    }
}

/// What stands at a place of a script.
pub enum LexemeKind {
    /// Nothing but blanks up to the end.
    End,
    Token(TokenView),
    Error(LexicalError),
}

/// What stands at a place of a script, and from where to where.
pub struct Lexeme {
    pub kind: LexemeKind,
    pub start: int,
    pub end: int,
}

/// Whether a byte is a blank: space, tab, line feed or form feed.
pub open spec fn is_blank(b: u8) -> bool {
    b == 32 || b == 9 || b == 10 || b == 12
}

/// Whether a byte is an ASCII letter.
pub open spec fn is_letter(b: u8) -> bool {
    (65 <= b <= 90) || (97 <= b <= 122)
}

/// Whether a byte may stand inside a word: a letter, a digit, `_` or `$`.
pub open spec fn is_word_byte(b: u8) -> bool {
    is_letter(b) || is_digit(b) || b == 95 || b == 36
}

/// The end of the run of blanks that starts at `from`.
pub open spec fn blanks_end(s: Seq<u8>, from: int) -> int
    decreases s.len() - from,
{
    if 0 <= from < s.len() && is_blank(s[from]) {
        blanks_end(s, from + 1)
    } else {
        from
    }
}

/// The end of the run of word bytes that starts at `from`.
pub open spec fn word_end(s: Seq<u8>, from: int) -> int
    decreases s.len() - from,
{
    if 0 <= from < s.len() && is_word_byte(s[from]) {
        word_end(s, from + 1)
    } else {
        from
    }
}

/// Whether a digit stands at a place.
pub open spec fn digit_at(s: Seq<u8>, at: int) -> bool {
    0 <= at < s.len() && is_digit(s[at])
}

/// The end of the number whose digits start at `from`: a single `0` or a
/// run of digits; then, if a point and a digit follow, the point and the
/// digits; then, if `e` or `E`, an optional sign and a digit follow, those
/// and the digits.
pub open spec fn number_end(s: Seq<u8>, from: int) -> int {
    let whole = if s[from] == 48 {
        from + 1
    } else {
        digits_end(s, from)
    };
    let fraction = if whole < s.len() && s[whole] == 46 && digit_at(s, whole + 1) {
        digits_end(s, whole + 1)
    } else {
        whole
    };
    let exponent = fraction + 1 + sign_len(s, fraction + 1);
    if fraction < s.len() && (s[fraction] == 101 || s[fraction] == 69) && digit_at(s, exponent) {
        digits_end(s, exponent)
    } else {
        fraction
    }
}

/// The end of the string whose opening quote stands before `from`, looking
/// from `at` on: the text runs up to the first quote that no backslash
/// stands before; a quote with a backslash before it ends the text only if
/// no later quote does. `best` is the end found so far.
pub open spec fn string_end(s: Seq<u8>, from: int, at: int, best: Option<int>) -> Option<int>
    decreases s.len() - at,
{
    if at < from || at >= s.len() {
        best
    } else if s[at] != 34 {
        string_end(s, from, at + 1, best)
    } else if at > from && s[at - 1] == 92 {
        string_end(s, from, at + 1, Some(at + 1))
    } else {
        Some(at + 1)
    }
}

/// The token, if any, that starts at a place where no blank stands.
pub open spec fn token_at(s: Seq<u8>, start: int) -> Lexeme {
    let b = s[start];
    let next = if start + 1 < s.len() {
        Some(s[start + 1])
    } else {
        None
    };
    let one = |kind: TokenView| Lexeme { kind: LexemeKind::Token(kind), start, end: start + 1 };
    let two = |kind: TokenView| Lexeme { kind: LexemeKind::Token(kind), start, end: start + 2 };
    let wrong = Lexeme {
        kind: LexemeKind::Error(LexicalError::LexicalError),
        start,
        end: start + 1,
    };
    if is_letter(b) {
        let end = word_end(s, start + 1);
        Lexeme { kind: LexemeKind::Token(TokenView::Symbol(s.subrange(start, end))), start, end }
    } else if is_digit(b) || (b == 45 && digit_at(s, start + 1)) {
        let end = number_end(
            s,
            if b == 45 {
                start + 1
            } else {
                start
            },
        );
        match soft::decimal_bits(s.subrange(start, end)) {
            Some(bits) => Lexeme { kind: LexemeKind::Token(TokenView::Number(bits)), start, end },
            None => Lexeme { kind: LexemeKind::Error(LexicalError::NumericError), start, end },
        }
    } else if b == 34 {
        match string_end(s, start + 1, start + 1, None) {
            Some(end) => Lexeme {
                kind: LexemeKind::Token(TokenView::String(s.subrange(start + 1, end - 1))),
                start,
                end,
            },
            None => wrong,
        }
    } else if b == 40 {
        one(TokenView::ParenOpen)
    } else if b == 41 {
        one(TokenView::ParenClose)
    } else if b == 36 {
        one(TokenView::DollarSign)
    } else if b == 58 && next == Some(61u8) {
        two(TokenView::ColonEqual)
    } else if b == 58 && next == Some(33u8) {
        two(TokenView::ColonNegated)
    } else if b == 58 && next == Some(43u8) {
        two(TokenView::ColonPlus)
    } else if b == 58 && next == Some(45u8) {
        two(TokenView::ColonMinus)
    } else if b == 61 && next == Some(61u8) {
        two(TokenView::DoubleEqual)
    } else if b == 46 && next == Some(46u8) {
        if start + 2 < s.len() && s[start + 2] == 61 {
            Lexeme { kind: LexemeKind::Token(TokenView::Range(true)), start, end: start + 3 }
        } else {
            two(TokenView::Range(false))
        }
    } else {
        wrong
    }
}

/// What stands at or after a place of a script, past any blanks: the end,
/// a token, or an error.
pub open spec fn lexeme_at(s: Seq<u8>, pos: int) -> Lexeme {
    let start = blanks_end(s, pos);
    if start >= s.len() {
        Lexeme { kind: LexemeKind::End, start, end: start }
    } else {
        token_at(s, start)
    }
}

/// The ends of runs lie between their starts and the end of the text.
pub proof fn lemma_run_ends(s: Seq<u8>, from: int)
    requires
        0 <= from <= s.len(),
    ensures
        from <= blanks_end(s, from) <= s.len(),
        from <= word_end(s, from) <= s.len(),
    decreases s.len() - from,
{
    if from < s.len() {
        lemma_run_ends(s, from + 1);
    }
}

/// A string that ends, ends after its opening quote and within the text.
pub proof fn lemma_string_end(s: Seq<u8>, from: int, at: int, best: Option<int>)
    requires
        0 <= from <= at <= s.len(),
        best.is_some() ==> from < best.unwrap() <= s.len(),
    ensures
        string_end(s, from, at, best).is_some() ==> from < string_end(s, from, at, best).unwrap()
            <= s.len(),
    decreases s.len() - at,
{
    if at < s.len() {
        if s[at] != 34 {
            lemma_string_end(s, from, at + 1, best);
        } else if at > from && s[at - 1] == 92 {
            lemma_string_end(s, from, at + 1, Some(at + 1));
        }
    }
}

/// A number ends after its first digit and within the text.
pub proof fn lemma_number_end(s: Seq<u8>, from: int)
    requires
        digit_at(s, from),
    ensures
        from < number_end(s, from) <= s.len(),
{
    lemma_digits_end(s, from);
    let whole = if s[from] == 48 {
        from + 1
    } else {
        digits_end(s, from)
    };
    if whole < s.len() {
        lemma_digits_end(s, whole + 1);
    }
    let fraction = if whole < s.len() && s[whole] == 46 && digit_at(s, whole + 1) {
        digits_end(s, whole + 1)
    } else {
        whole
    };
    let exponent = fraction + 1 + sign_len(s, fraction + 1);
    if exponent <= s.len() {
        lemma_digits_end(s, exponent);
    }
}

/// The text of a number, from its sign or first digit to its end, is a
/// decimal number with an optional sign before it.
pub proof fn lemma_number_text(s: Seq<u8>, start: int, from: int)
    requires
        0 <= start,
        digit_at(s, from),
        from == start || (from == start + 1 && s[start] == 45),
    ensures
        is_decimal_text(s.subrange(start, number_end(s, from))),
{
    lemma_number_end(s, from);
    lemma_digits_end(s, from);
    let end = number_end(s, from);
    let text = s.subrange(start, end);
    let whole = if s[from] == 48 {
        from + 1
    } else {
        digits_end(s, from)
    };
    if whole < s.len() {
        lemma_digits_end(s, whole + 1);
    }
    let pointed = whole < s.len() && s[whole] == 46 && digit_at(s, whole + 1);
    let fraction = if pointed {
        digits_end(s, whole + 1)
    } else {
        whole
    };
    let exponent = fraction + 1 + sign_len(s, fraction + 1);
    if exponent <= s.len() {
        lemma_digits_end(s, exponent);
    }
    let powered = fraction < s.len() && (s[fraction] == 101 || s[fraction] == 69) && digit_at(
        s,
        exponent,
    );
    assert(from < whole <= fraction <= end <= s.len());
    assert(text[0] == s[start]);
    let f = from - start;
    assert(sign_len(text, 0) == f);
    // The digits before the point.
    lemma_digits_end_within(s, start, end, f);
    assert(digits_end(text, f) == whole - start) by {
        if s[from] == 48 {
            if whole < end {
                assert(!is_digit(s[whole]));
                assert(digits_end(s, from + 1) == from + 1);
            }
        }
    }
    // The point and the digits after it.
    if whole < end {
        assert(text[whole - start] == s[whole]);
    }
    if pointed {
        lemma_digits_end_within(s, start, end, whole + 1 - start);
    }
    // The exponent.
    if powered {
        assert(text[fraction - start] == s[fraction]);
        assert(fraction + 1 < end);
        assert(text[fraction + 1 - start] == s[fraction + 1]);
        assert(sign_len(text, fraction + 1 - start) == sign_len(s, fraction + 1));
        lemma_digits_end_within(s, start, end, exponent - start);
    }
}

/// A lexeme lies within the text at or after the place asked for, and a
/// token or an error is not empty.
pub proof fn lemma_lexeme_at(s: Seq<u8>, pos: int)
    requires
        0 <= pos <= s.len(),
    ensures
        pos <= lexeme_at(s, pos).start <= lexeme_at(s, pos).end <= s.len(),
        lexeme_at(s, pos).kind != LexemeKind::End ==> lexeme_at(s, pos).start < lexeme_at(
            s,
            pos,
        ).end,
{
    lemma_run_ends(s, pos);
    let start = blanks_end(s, pos);
    if start < s.len() {
        lemma_run_ends(s, start + 1);
        let b = s[start];
        if is_digit(b) {
            lemma_number_end(s, start);
        } else if b == 45 && digit_at(s, start + 1) {
            lemma_number_end(s, start + 1);
        } else if b == 34 {
            lemma_string_end(s, start + 1, start + 1, None);
        }
    }
}

/// What was read at a place of a script.
#[derive(Debug)]
pub struct Lexed {
    /// Nothing at the end of the script, else the token or what is wrong.
    pub item: Option<Result<Token, LexicalError>>,
    pub start: usize,
    pub end: usize,
}

impl View for Lexed {
    type V = Lexeme;

    open spec fn view(&self) -> Lexeme {
        Lexeme {
            kind: match self.item {
                None => LexemeKind::End,
                Some(Ok(token)) => LexemeKind::Token(token@),
                Some(Err(error)) => LexemeKind::Error(error),
            },
            start: self.start as int,
            end: self.end as int,
        }
    }
}

/// A copy of the bytes from `start` to `end`.
pub fn copy_range(src: &[u8], start: usize, end: usize) -> (r: Vec<u8>)
    requires
        start <= end <= src@.len(),
    ensures
        r@ == src@.subrange(start as int, end as int),
{
    let mut out: Vec<u8> = Vec::new();
    let mut i: usize = start;
    while i < end
        invariant
            start <= i <= end,
            end <= src@.len(),
            out@ == src@.subrange(start as int, i as int),
        decreases end - i,
    {
        out.push(src[i]);
        i += 1;
        assert(out@ =~= src@.subrange(start as int, i as int));
    }
    out
}

/// Reads what stands at or after a place of a script.
pub fn next_lexeme(src: &[u8], pos: usize) -> (r: Lexed)
    requires
        pos <= src@.len(),
    ensures
        r@ == lexeme_at(src@, pos as int),
        pos <= r.start <= r.end <= src@.len(),
        r.item.is_some() ==> r.start < r.end,
{
    proof {
        lemma_lexeme_at(src@, pos as int);
    }
    let n = src.len();
    let mut start: usize = pos;
    while start < n && (src[start] == 32 || src[start] == 9 || src[start] == 10 || src[start] == 12)
        invariant
            pos <= start <= n,
            n == src@.len(),
            blanks_end(src@, pos as int) == blanks_end(src@, start as int),
        decreases n - start,
    {
        start += 1;
    }
    if start >= n {
        return Lexed { item: None, start, end: start };
    }
    let b = src[start];
    let wrong = Lexed { item: Some(Err(LexicalError::LexicalError)), start, end: start + 1 };
    if (b >= 65 && b <= 90) || (b >= 97 && b <= 122) {
        let mut end: usize = start + 1;
        while end < n && ((src[end] >= 65 && src[end] <= 90) || (src[end] >= 97 && src[end] <= 122)
            || (src[end] >= 48 && src[end] <= 57) || src[end] == 95 || src[end] == 36)
            invariant
                start < end <= n,
                n == src@.len(),
                word_end(src@, start + 1) == word_end(src@, end as int),
            decreases n - end,
        {
            end += 1;
        }
        let name = Name::from_bytes(copy_range(src, start, end));
        Lexed { item: Some(Ok(Token::Symbol(name))), start, end }
    } else if (b >= 48 && b <= 57) || (b == 45 && start + 1 < n && src[start + 1] >= 48
        && src[start + 1] <= 57) {
        let from: usize = if b == 45 { start + 1 } else { start };
        proof {
            lemma_number_end(src@, from as int);
            lemma_digits_end(src@, from as int);
        }
        let whole: usize = if src[from] == 48 { from + 1 } else { skip_digits(src, from) };
        let fraction: usize = if whole < n && src[whole] == 46 && whole + 1 < n && src[whole + 1]
            >= 48 && src[whole + 1] <= 57 {
            skip_digits(src, whole + 1)
        } else {
            whole
        };
        let mut end: usize = fraction;
        if fraction < n && (src[fraction] == 101 || src[fraction] == 69) {
            let signed = fraction + 1 < n && (src[fraction + 1] == 43 || src[fraction + 1] == 45);
            let exponent: usize = if signed { fraction + 2 } else { fraction + 1 };
            if exponent < n && src[exponent] >= 48 && src[exponent] <= 57 {
                end = skip_digits(src, exponent);
            }
        }
        let text = copy_range(src, start, end);
        proof {
            lemma_number_text(src@, start as int, from as int);
        }
        match soft::read_decimal(text.as_slice()) {
            Some(bits) => Lexed { item: Some(Ok(Token::Number(bits))), start, end },
            None => Lexed { item: Some(Err(LexicalError::NumericError)), start, end },
        }
    } else if b == 34 {
        let mut at: usize = start + 1;
        let mut best: Option<usize> = None;
        let mut closed = false;
        while at < n && !closed
            invariant
                start < at <= n,
                n == src@.len(),
                best.is_some() ==> start + 1 < best.unwrap() <= n,
                closed ==> best.is_some(),
                string_end(src@, start + 1, start + 1, None) == if closed {
                    Some(best.unwrap() as int)
                } else {
                    string_end(
                        src@,
                        start + 1,
                        at as int,
                        match best {
                            Some(e) => Some(e as int),
                            None => None,
                        },
                    )
                },
            decreases n - at + if closed { 0int } else { 1int },
        {
            if src[at] != 34 {
                at += 1;
            } else if at > start + 1 && src[at - 1] == 92 {
                best = Some(at + 1);
                at += 1;
            } else {
                best = Some(at + 1);
                closed = true;
            }
        }
        match best {
            Some(end) => {
                let text = copy_range(src, start + 1, end - 1);
                Lexed { item: Some(Ok(Token::String(text))), start, end }
            },
            None => wrong,
        }
    } else if b == 40 {
        Lexed { item: Some(Ok(Token::ParenOpen)), start, end: start + 1 }
    } else if b == 41 {
        Lexed { item: Some(Ok(Token::ParenClose)), start, end: start + 1 }
    } else if b == 36 {
        Lexed { item: Some(Ok(Token::DollarSign)), start, end: start + 1 }
    } else if start + 1 < n && b == 58 && src[start + 1] == 61 {
        Lexed { item: Some(Ok(Token::ColonEqual)), start, end: start + 2 }
    } else if start + 1 < n && b == 58 && src[start + 1] == 33 {
        Lexed { item: Some(Ok(Token::ColonNegated)), start, end: start + 2 }
    } else if start + 1 < n && b == 58 && src[start + 1] == 43 {
        Lexed { item: Some(Ok(Token::ColonPlus)), start, end: start + 2 }
    } else if start + 1 < n && b == 58 && src[start + 1] == 45 {
        Lexed { item: Some(Ok(Token::ColonMinus)), start, end: start + 2 }
    } else if start + 1 < n && b == 61 && src[start + 1] == 61 {
        Lexed { item: Some(Ok(Token::DoubleEqual)), start, end: start + 2 }
    } else if start + 1 < n && b == 46 && src[start + 1] == 46 {
        if start + 2 < n && src[start + 2] == 61 {
            Lexed { item: Some(Ok(Token::Range(true))), start, end: start + 3 }
        } else {
            Lexed { item: Some(Ok(Token::Range(false))), start, end: start + 2 }
        }
    } else {
        wrong
    }
}

} // verus!
