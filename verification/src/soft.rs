//! Arithmetic on single-precision bit patterns.
//!
//! Rounding a sum, a product or a decimal literal to the nearest
//! representable number is done by a software implementation of IEEE 754
//! that works on bit patterns. What it returns is not derived here: each
//! result has a name, and the rest of the library is proved for whatever
//! those names stand for.
use crate::literal::is_decimal_text;
use rustc_apfloat::ieee::Single;
use rustc_apfloat::Float;
use vstd::prelude::*;

verus! {

/// The bit pattern of the sum of two numbers, rounded to nearest with ties
/// to even.
pub uninterp spec fn sum_bits(a: u32, b: u32) -> u32;

/// The bit pattern of the product of two numbers, rounded to nearest with
/// ties to even.
pub uninterp spec fn product_bits(a: u32, b: u32) -> u32;

/// The bit pattern of the quotient of two numbers, rounded to nearest with
/// ties to even.
pub uninterp spec fn quotient_bits(a: u32, b: u32) -> u32;

/// The bit pattern that a piece of text denotes when read as a number, if it
/// denotes one.
pub uninterp spec fn decimal_bits(text: Seq<u8>) -> Option<u32>;

/// Calls `rustc_apfloat`'s `+` on two `ieee::Single` values made with
/// `Float::from_bits`, and hands back `Float::to_bits` of the value. The
/// contract only names the result.
#[verifier::external_body]
pub(crate) fn add_bits(a: u32, b: u32) -> (r: u32)
    ensures
        r == sum_bits(a, b),
{
    (Single::from_bits(a as u128) + Single::from_bits(b as u128)).value.to_bits() as u32
}

/// Calls `rustc_apfloat`'s `*` on two `ieee::Single` values made with
/// `Float::from_bits`, and hands back `Float::to_bits` of the value. The
/// contract only names the result.
#[verifier::external_body]
pub(crate) fn mul_bits(a: u32, b: u32) -> (r: u32)
    ensures
        r == product_bits(a, b),
{
    (Single::from_bits(a as u128) * Single::from_bits(b as u128)).value.to_bits() as u32
}

/// Calls `rustc_apfloat`'s `/` on two `ieee::Single` values made with
/// `Float::from_bits`, and hands back `Float::to_bits` of the value. The
/// contract only names the result.
#[verifier::external_body]
pub(crate) fn div_bits(a: u32, b: u32) -> (r: u32)
    ensures
        r == quotient_bits(a, b),
{
    (Single::from_bits(a as u128) / Single::from_bits(b as u128)).value.to_bits() as u32
}

/// Calls `rustc_apfloat`'s `FromStr` for `ieee::Single` on a decimal number
/// with an optional sign before it, and hands back `Float::to_bits` of the
/// value; text that is not UTF-8 or that the call rejects gives `None`.
/// The contract only names the result.
#[verifier::external_body]
pub(crate) fn read_decimal(text: &[u8]) -> (r: Option<u32>)
    requires
        is_decimal_text(text@),
    ensures
        r == decimal_bits(text@),
{
    match core::str::from_utf8(text) {
        Ok(s) => match s.parse::<Single>() {
            Ok(value) => Some(value.to_bits() as u32),
            Err(_) => None,
        },
        Err(_) => None,
    }
}

} // verus!
