//! Numbers as IEEE 754 binary64 bit patterns: which are zero, which are
//! not a number, and how two of them compare.

use vstd::prelude::*;
use core::cmp::Ordering;

verus! {

/// The bit that carries the sign of a binary64 value.
pub const SIGN_BIT: u64 = 0x8000_0000_0000_0000;

/// The magnitude of an infinity: every larger magnitude is a NaN.
pub const INFINITY_MAGNITUDE: u64 = 0x7ff0_0000_0000_0000;

/// The pattern with its sign bit cleared.
pub open spec fn magnitude(bits: u64) -> u64 {
    if bits >= SIGN_BIT {
        (bits - SIGN_BIT) as u64
    } else {
        bits
    }
}

/// The pattern is positive or negative zero.
pub open spec fn spec_is_zero(bits: u64) -> bool {
    magnitude(bits) == 0
}

/// The pattern is not a number.
pub open spec fn spec_is_nan(bits: u64) -> bool {
    magnitude(bits) > INFINITY_MAGNITUDE
}

/// Numeric equality of two patterns: a NaN equals nothing, the two zeros
/// equal each other, and any other value equals only its own pattern.
pub open spec fn spec_same_value(a: u64, b: u64) -> bool {
    &&& !spec_is_nan(a)
    &&& !spec_is_nan(b)
    &&& (a == b || (spec_is_zero(a) && spec_is_zero(b)))
}

/// The place of a pattern that is no NaN on the number line, as an integer
/// that grows with the value: the magnitude, negated under a sign bit. The
/// two zeros share the place 0.
pub open spec fn place(bits: u64) -> int {
    if bits >= SIGN_BIT {
        -(magnitude(bits) as int)
    } else {
        bits as int
    }
}

/// Numeric order of two patterns: none where one is a NaN, otherwise that
/// of their places on the number line.
pub open spec fn order(a: u64, b: u64) -> Option<Ordering> {
    if spec_is_nan(a) || spec_is_nan(b) {
        None
    } else if place(a) < place(b) {
        Some(Ordering::Less)
    } else if place(a) > place(b) {
        Some(Ordering::Greater)
    } else {
        Some(Ordering::Equal)
    }
}

/// Tells whether the pattern is positive or negative zero.
#[verifier::when_used_as_spec(spec_is_zero)]
pub fn is_zero(bits: u64) -> (zero: bool)
    ensures
        zero == spec_is_zero(bits),
{
    bits == 0 || bits == SIGN_BIT
}

/// Tells whether the pattern is not a number.
#[verifier::when_used_as_spec(spec_is_nan)]
pub fn is_nan(bits: u64) -> (nan: bool)
    ensures
        nan == spec_is_nan(bits),
{
    if bits >= SIGN_BIT {
        bits - SIGN_BIT > INFINITY_MAGNITUDE
    } else {
        bits > INFINITY_MAGNITUDE
    }
}

/// Tells whether two patterns are numerically equal.
#[verifier::when_used_as_spec(spec_same_value)]
pub fn same_value(a: u64, b: u64) -> (same: bool)
    ensures
        same == spec_same_value(a, b),
{
    !is_nan(a) && !is_nan(b) && (a == b || (is_zero(a) && is_zero(b)))
}

/// Compares two patterns numerically.
pub fn compare(a: u64, b: u64) -> (outcome: Option<Ordering>)
    ensures
        outcome == order(a, b),
{
    if is_nan(a) || is_nan(b) {
        None
    } else if is_zero(a) && is_zero(b) {
        Some(Ordering::Equal)
    } else if a >= SIGN_BIT && b >= SIGN_BIT {
        if a > b {
            Some(Ordering::Less)
        } else if a < b {
            Some(Ordering::Greater)
        } else {
            Some(Ordering::Equal)
        }
    } else if a >= SIGN_BIT {
        Some(Ordering::Less)
    } else if b >= SIGN_BIT {
        Some(Ordering::Greater)
    } else if a < b {
        Some(Ordering::Less)
    } else if a > b {
        Some(Ordering::Greater)
    } else {
        Some(Ordering::Equal)
    }
}

/// Two patterns are numerically equal exactly where their order is
/// equality.
pub proof fn lemma_same_value_is_equal_order(a: u64, b: u64)
    ensures
        spec_same_value(a, b) <==> order(a, b) == Some(Ordering::Equal),
{
}

} // verus!
