//! The text of numbers.
use crate::num;
use crate::soft;
use vstd::prelude::*;

verus! {

/// Whether a byte is an ASCII digit.
pub open spec fn is_digit(b: u8) -> bool {
    48 <= b <= 57
}

/// The end of the run of digits that starts at `from`.
pub open spec fn digits_end(s: Seq<u8>, from: int) -> int
    decreases s.len() - from,
{
    if 0 <= from < s.len() && is_digit(s[from]) {
        digits_end(s, from + 1)
    } else {
        from
    }
}

/// The end of a run of digits lies between its start and the end of the
/// text.
pub proof fn lemma_digits_end(s: Seq<u8>, from: int)
    requires
        0 <= from <= s.len(),
    ensures
        from <= digits_end(s, from) <= s.len(),
        forall|i: int| from <= i < digits_end(s, from) ==> is_digit(#[trigger] s[i]),
        digits_end(s, from) < s.len() ==> !is_digit(s[digits_end(s, from)]),
    decreases s.len() - from,
{
    if from < s.len() && is_digit(s[from]) {
        lemma_digits_end(s, from + 1);
    }
}

/// Moves past the digits that start at `from`.
pub fn skip_digits(s: &[u8], from: usize) -> (r: usize)
    requires
        from <= s@.len(),
    ensures
        r == digits_end(s@, from as int),
        from <= r <= s@.len(),
{
    let mut i: usize = from;
    while i < s.len() && s[i] >= 48 && s[i] <= 57
        invariant
            from <= i <= s@.len(),
            digits_end(s@, from as int) == digits_end(s@, i as int),
        decreases s@.len() - i,
    {
        i += 1;
    }
    i
}

/// The lower-case form of an ASCII letter; any other byte itself.
pub open spec fn lower(b: u8) -> u8 {
    if 65 <= b <= 90 {
        (b + 32) as u8
    } else {
        b
    }
}

/// The text from `from` to its end spells the word, in letters of either
/// case.
pub open spec fn spells(s: Seq<u8>, from: int, word: Seq<u8>) -> bool {
    &&& 0 <= from
    &&& s.len() - from == word.len()
    &&& forall|i: int| 0 <= i < word.len() ==> lower(#[trigger] s[from + i]) == word[i]
}

/// Whether the text from `from` to its end spells the word.
pub fn check_spells(s: &[u8], from: usize, word: &[u8]) -> (r: bool)
    requires
        from <= s@.len(),
    ensures
        r == spells(s@, from as int, word@),
{
    if s.len() - from != word.len() {
        return false;
    }
    let mut i: usize = 0;
    while i < word.len()
        invariant
            i <= word@.len(),
            from <= s@.len(),
            s@.len() - from == word@.len(),
            s@.len() <= usize::MAX,
            forall|j: int| 0 <= j < i ==> lower(#[trigger] s@[from + j]) == word@[j],
        decreases word@.len() - i,
    {
        let b = s[from + i];
        let l: u8 = if b >= 65 && b <= 90 { b + 32 } else { b };
        if l != word[i] {
            assert(lower(s@[from + i]) != word@[i as int]);
            return false;
        }
        i += 1;
    }
    true
}

/// The length of a sign at `at`: one for `+` or `-`, else zero.
pub open spec fn sign_len(s: Seq<u8>, at: int) -> int {
    if 0 <= at < s.len() && (s[at] == 43 || s[at] == 45) {
        1
    } else {
        0
    }
}

/// The text from `from` to its end is a decimal number: digits with at most
/// one point among them, at least one digit in all, and after them
/// optionally `e` or `E`, an optional sign and at least one digit.
pub open spec fn is_decimal_at(s: Seq<u8>, from: int) -> bool {
    let a = digits_end(s, from);
    let pointed = a < s.len() && s[a] == 46;
    let b = if pointed {
        digits_end(s, a + 1)
    } else {
        a
    };
    let digits = if pointed {
        b - from - 1
    } else {
        a - from
    };
    let c = b + 1 + sign_len(s, b + 1);
    &&& 0 <= from <= s.len()
    &&& digits > 0
    &&& b == s.len() || ((s[b] == 101 || s[b] == 69) && digits_end(s, c) > c && digits_end(s, c)
        == s.len())
}

/// The text is a decimal number with an optional sign before it.
pub open spec fn is_decimal_text(text: Seq<u8>) -> bool {
    is_decimal_at(text, sign_len(text, 0))
}

/// The run of digits at a place of a stretch of a text is the run at that
/// place of the text, cut off where the stretch ends.
pub proof fn lemma_digits_end_within(s: Seq<u8>, a: int, b: int, i: int)
    requires
        0 <= a,
        0 <= i,
        a + i <= b <= s.len(),
    ensures
        digits_end(s.subrange(a, b), i) == (if digits_end(s, a + i) < b {
            digits_end(s, a + i)
        } else {
            b
        }) - a,
    decreases b - a - i,
{
    let t = s.subrange(a, b);
    lemma_digits_end(s, a + i);
    if a + i < b {
        assert(t[i] == s[a + i]);
        if is_digit(s[a + i]) {
            lemma_digits_end_within(s, a, b, i + 1);
        }
    }
}

/// Whether the text from `from` to its end is a decimal number.
pub fn check_decimal_at(s: &[u8], from: usize) -> (r: bool)
    requires
        from <= s@.len(),
    ensures
        r == is_decimal_at(s@, from as int),
{
    let a = skip_digits(s, from);
    let pointed = a < s.len() && s[a] == 46;
    let b = if pointed { skip_digits(s, a + 1) } else { a };
    let digits = if pointed { b - from - 1 } else { a - from };
    if digits == 0 {
        return false;
    }
    if b == s.len() {
        return true;
    }
    if s[b] != 101 && s[b] != 69 {
        return false;
    }
    let signed = b + 1 < s.len() && (s[b + 1] == 43 || s[b + 1] == 45);
    let c = if signed { b + 2 } else { b + 1 };
    let d = skip_digits(s, c);
    d > c && d == s.len()
}

/// The bit pattern with the sign bit set or cleared.
pub open spec fn with_sign(bits: u32, negative: bool) -> u32 {
    if negative {
        (num::magnitude(bits) + num::SIGN_BIT) as u32
    } else {
        num::magnitude(bits)
    }
}

/// The number that a text denotes as a weight: after an optional sign,
/// `inf` or `infinity`, `nan`, or a decimal number. Any other text denotes
/// none.
pub open spec fn weight_of(text: Seq<u8>) -> Option<u32> {
    let from = sign_len(text, 0);
    let negative = from == 1 && text[0] == 45;
    if spells(text, from, seq![105u8, 110u8, 102u8]) || spells(
        text,
        from,
        seq![105u8, 110u8, 102u8, 105u8, 110u8, 105u8, 116u8, 121u8],
    ) {
        Some(with_sign(num::INFINITY, negative))
    } else if spells(text, from, seq![110u8, 97u8, 110u8]) {
        Some(with_sign(num::NAN, negative))
    } else if is_decimal_at(text, from) {
        soft::decimal_bits(text)
    } else {
        None
    }
}

/// Reads a text as a weight.
pub fn parse_weight(text: &[u8]) -> (r: Option<u32>)
    ensures
        r == weight_of(text@),
{
    let signed = text.len() > 0 && (text[0] == 43 || text[0] == 45);
    let from: usize = if signed { 1 } else { 0 };
    let negative = signed && text[0] == 45;
    let inf: [u8; 3] = [105, 110, 102];
    let infinity: [u8; 8] = [105, 110, 102, 105, 110, 105, 116, 121];
    let nan: [u8; 3] = [110, 97, 110];
    assert(inf@ =~= seq![105u8, 110u8, 102u8]);
    assert(infinity@ =~= seq![105u8, 110u8, 102u8, 105u8, 110u8, 105u8, 116u8, 121u8]);
    assert(nan@ =~= seq![110u8, 97u8, 110u8]);
    if check_spells(text, from, inf.as_slice()) || check_spells(text, from, infinity.as_slice()) {
        Some(if negative { num::NEG_INFINITY } else { num::INFINITY })
    } else if check_spells(text, from, nan.as_slice()) {
        Some(if negative { num::NAN + num::SIGN_BIT } else { num::NAN })
    } else if check_decimal_at(text, from) {
        soft::read_decimal(text)
    } else {
        None
    }
}

} // verus!
