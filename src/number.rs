//! Numbers of the language: IEEE-754 binary64 values, held as their bit patterns.
use rustc_apfloat::ieee::Double;
use rustc_apfloat::{Float, Round};
use vstd::prelude::*;

verus! {

/// The sign bit of a binary64 bit pattern.
pub const SIGN_BIT: u64 = 0x8000_0000_0000_0000;

/// The bit pattern of positive infinity; a larger magnitude is a NaN.
pub const INFINITY_BITS: u64 = 0x7ff0_0000_0000_0000;

pub open spec fn is_negative(bits: u64) -> bool {
    bits >= SIGN_BIT
}

/// The pattern with its sign bit cleared.
pub open spec fn magnitude(bits: u64) -> int {
    if is_negative(bits) {
        bits - SIGN_BIT
    } else {
        bits as int
    }
}

pub open spec fn is_nan(bits: u64) -> bool {
    magnitude(bits) > INFINITY_BITS
}

/// For every value that is not a NaN, a key whose integer order is the
/// numeric order of binary64 (both zeros get the key 0).
pub open spec fn order_key(bits: u64) -> int {
    if is_negative(bits) {
        -magnitude(bits)
    } else {
        magnitude(bits)
    }
}

/// IEEE-754 equality: NaN equals nothing, and the two zeros are equal.
pub open spec fn num_eq(a: u64, b: u64) -> bool {
    !is_nan(a) && !is_nan(b) && order_key(a) == order_key(b)
}

/// IEEE-754 `a < b`: false as soon as either side is a NaN.
pub open spec fn num_lt(a: u64, b: u64) -> bool {
    !is_nan(a) && !is_nan(b) && order_key(a) < order_key(b)
}

/// IEEE-754 negation: the sign bit flips, nothing else changes.
pub open spec fn num_neg(a: u64) -> u64 {
    if is_negative(a) {
        (a - SIGN_BIT) as u64
    } else {
        (a + SIGN_BIT) as u64
    }
}

/// The binary64 sum of two binary64 values, rounded to nearest, ties to even.
pub uninterp spec fn sum_bits(a: u64, b: u64) -> u64;

/// The binary64 difference `a - b`, rounded to nearest, ties to even.
pub uninterp spec fn difference_bits(a: u64, b: u64) -> u64;

/// The binary64 product, rounded to nearest, ties to even.
pub uninterp spec fn product_bits(a: u64, b: u64) -> u64;

/// The binary64 quotient `a / b`, rounded to nearest, ties to even; a
/// division by zero gives an infinity or a NaN.
pub uninterp spec fn quotient_bits(a: u64, b: u64) -> u64;

/// The binary64 value that `text` reads as, rounded to nearest, ties to
/// even, or `None` where `text` is not UTF-8 or not a number. Besides
/// decimal numerals the reading accepts a sign, an exponent, hexadecimal
/// floats and the words for infinity and NaN; the compiler hands it only
/// the text of number tokens.
pub uninterp spec fn decimal_reading(text: Seq<u8>) -> Option<u64>;

fn magnitude_of(bits: u64) -> (r: u64)
    ensures
        r as int == magnitude(bits),
{
    if bits >= SIGN_BIT {
        bits - SIGN_BIT
    } else {
        bits
    }
}

/// Whether `bits` is a NaN.
pub fn number_is_nan(bits: u64) -> (r: bool)
    ensures
        r == is_nan(bits),
{
    magnitude_of(bits) > INFINITY_BITS
}

/// IEEE-754 equality of two numbers.
pub fn number_equal(a: u64, b: u64) -> (r: bool)
    ensures
        r == num_eq(a, b),
{
    if number_is_nan(a) || number_is_nan(b) {
        return false;
    }
    let ma = magnitude_of(a);
    let mb = magnitude_of(b);
    if ma == 0 && mb == 0 {
        true
    } else {
        a == b
    }
}

/// IEEE-754 `a < b`.
pub fn number_less(a: u64, b: u64) -> (r: bool)
    ensures
        r == num_lt(a, b),
{
    if number_is_nan(a) || number_is_nan(b) {
        return false;
    }
    let ma = magnitude_of(a);
    let mb = magnitude_of(b);
    let na = a >= SIGN_BIT;
    let nb = b >= SIGN_BIT;
    if na && nb {
        mb < ma
    } else if na {
        !(ma == 0 && mb == 0)
    } else if nb {
        false
    } else {
        ma < mb
    }
}

/// IEEE-754 negation.
pub fn number_negate(a: u64) -> (r: u64)
    ensures
        r == num_neg(a),
{
    if a >= SIGN_BIT {
        a - SIGN_BIT
    } else {
        a + SIGN_BIT
    }
}

/// Relies on rustc_apfloat's `Add` for `ieee::Double` (`add_r`, ties to even).
#[verifier::external_body]
pub(crate) fn number_add(a: u64, b: u64) -> (r: u64)
    ensures
        r == sum_bits(a, b),
{
    (Double::from_bits(a as u128) + Double::from_bits(b as u128)).value.to_bits() as u64
}

/// Relies on rustc_apfloat's `Sub` for `ieee::Double` (`sub_r`, ties to even).
#[verifier::external_body]
pub(crate) fn number_sub(a: u64, b: u64) -> (r: u64)
    ensures
        r == difference_bits(a, b),
{
    (Double::from_bits(a as u128) - Double::from_bits(b as u128)).value.to_bits() as u64
}

/// Relies on rustc_apfloat's `Mul` for `ieee::Double` (`mul_r`, ties to even).
#[verifier::external_body]
pub(crate) fn number_mul(a: u64, b: u64) -> (r: u64)
    ensures
        r == product_bits(a, b),
{
    (Double::from_bits(a as u128) * Double::from_bits(b as u128)).value.to_bits() as u64
}

/// Relies on rustc_apfloat's `Div` for `ieee::Double` (`div_r`, ties to even).
#[verifier::external_body]
pub(crate) fn number_div(a: u64, b: u64) -> (r: u64)
    ensures
        r == quotient_bits(a, b),
{
    (Double::from_bits(a as u128) / Double::from_bits(b as u128)).value.to_bits() as u64
}

/// Relies on `core::str::from_utf8` and rustc_apfloat's `Double::from_str_r`
/// (ties to even); `None` where either of them reports an error.
#[verifier::external_body]
pub(crate) fn parse_decimal(text: &[u8]) -> (r: Option<u64>)
    ensures
        r == decimal_reading(text@),
{
    match core::str::from_utf8(text) {
        Ok(s) => match Double::from_str_r(s, Round::NearestTiesToEven) {
            Ok(v) => Some(v.value.to_bits() as u64),
            Err(_) => None,
        },
        Err(_) => None,
    }
}

} // verus!
