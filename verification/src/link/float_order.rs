//! The order of single-precision floats, from their bit patterns.
//!
//! The pattern of a float is a sign bit and a magnitude, and magnitudes are
//! ordered as the numbers are. Patterns above that of infinity are no numbers
//! and compare with nothing.
use vstd::prelude::*;

verus! {

/// The integer by which a float is ordered, unless it is no number. Both zeros
/// have the integer zero.
pub open spec fn order_key(bits: u32) -> Option<int> {
    let magnitude = bits as int % 0x8000_0000;
    if magnitude > 0x7F80_0000 {
        None
    } else if bits < 0x8000_0000 {
        Some(magnitude)
    } else {
        Some(-magnitude)
    }
}

/// Whether the first float is below the second.
pub open spec fn is_below(a: u32, b: u32) -> bool {
    order_key(a) matches Some(x) && order_key(b) matches Some(y) && x < y
}

/// Whether the first float is the second or above it.
pub open spec fn is_at_least(a: u32, b: u32) -> bool {
    order_key(a) matches Some(x) && order_key(b) matches Some(y) && x >= y
}

/// The integer by which a float is ordered.
pub fn key_of(bits: u32) -> (key: Option<i64>)
    ensures
        match order_key(bits) {
            Some(x) => key matches Some(k) && k == x,
            None => key is None,
        },
{
    let magnitude: u32 = bits % 0x8000_0000;
    if magnitude > 0x7F80_0000 {
        None
    } else if bits < 0x8000_0000 {
        Some(magnitude as i64)
    } else {
        Some(0 - magnitude as i64)
    }
}

/// Whether the first float is below the second.
pub fn below(a: u32, b: u32) -> (r: bool)
    ensures
        r == is_below(a, b),
{
    match (key_of(a), key_of(b)) {
        (Some(x), Some(y)) => x < y,
        _ => false,
    }
}

/// Whether the first float is the second or above it.
pub fn at_least(a: u32, b: u32) -> (r: bool)
    ensures
        r == is_at_least(a, b),
{
    match (key_of(a), key_of(b)) {
        (Some(x), Some(y)) => x >= y,
        _ => false,
    }
}

/// Of two numbers the first is below the second or at least the second, never
/// both. What is no number is neither.
pub proof fn law_order_is_total(a: u32, b: u32)
    ensures
        order_key(a) is Some && order_key(b) is Some ==> is_below(a, b) != is_at_least(a, b),
        order_key(a) is None ==> !is_below(a, b) && !is_at_least(a, b),
        order_key(b) is None ==> !is_below(a, b) && !is_at_least(a, b),
{
}

/// The order is transitive.
pub proof fn law_order_is_transitive(a: u32, b: u32, c: u32)
    ensures
        is_at_least(a, b) && is_at_least(b, c) ==> is_at_least(a, c),
        is_below(a, b) && is_below(b, c) ==> is_below(a, c),
{
}

/// Numbers that are not negative are ordered as their patterns are, negative
/// ones the other way round and below the others, both zeros are one number, and
/// patterns beyond those of the infinities are no numbers.
pub proof fn law_order_of_patterns(a: u32, b: u32)
    ensures
        a <= 0x7F80_0000 && b <= 0x7F80_0000 ==> is_below(a, b) == (a < b) && is_at_least(a, b) == (
        a >= b),
        0x8000_0000 <= a <= 0xFF80_0000 && 0x8000_0000 <= b <= 0xFF80_0000 ==> is_below(a, b) == (a
            > b) && is_at_least(a, b) == (a <= b),
        0x8000_0000 < a <= 0xFF80_0000 && b <= 0x7F80_0000 ==> is_below(a, b) && !is_at_least(a, b)
            && is_at_least(b, a) && !is_below(b, a),
        is_at_least(0x8000_0000, b) == is_at_least(0, b),
        is_at_least(b, 0x8000_0000) == is_at_least(b, 0),
        is_below(0x8000_0000, b) == is_below(0, b),
        is_below(b, 0x8000_0000) == is_below(b, 0),
        0x7F80_0000 < a < 0x8000_0000 || a > 0xFF80_0000 ==> !is_below(a, b) && !is_below(b, a)
            && !is_at_least(a, b) && !is_at_least(b, a),
{
}

} // verus!
