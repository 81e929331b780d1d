//! Doubles as bit patterns.
//!
//! A number is carried by the bits of its IEEE 754 double. Which of them are
//! finite, zero, or greater than another can be told from the bits alone.
use vstd::prelude::*;

verus! {

/// Weight of the lowest exponent bit.
pub const EXPONENT_UNIT: u64 = 0x10_0000_0000_0000;

/// Weight of the sign bit.
pub const SIGN: u64 = 0x8000_0000_0000_0000;

/// The bits of positive infinity.
pub const INFINITY: u64 = 0x7ff0_0000_0000_0000;

/// The exponent is not the one reserved for infinities and not-a-number.
pub open spec fn is_finite(bits: u64) -> bool {
    (bits / EXPONENT_UNIT) % 2048 != 2047
}

pub open spec fn is_nan(bits: u64) -> bool {
    bits % SIGN > INFINITY
}

pub open spec fn is_zero(bits: u64) -> bool {
    bits == 0 || bits == SIGN
}

/// The place of a double on the number line: doubles that are not
/// not-a-number compare as these do.
pub open spec fn place(bits: u64) -> int {
    if bits >= SIGN {
        -(bits - SIGN)
    } else {
        bits as int
    }
}

/// `a > b` on doubles: false as soon as one of them is not-a-number.
pub open spec fn is_greater(a: u64, b: u64) -> bool {
    !is_nan(a) && !is_nan(b) && place(a) > place(b)
}

/// Whether the double is finite.
pub fn finite(bits: u64) -> (r: bool)
    ensures
        r == is_finite(bits),
{
    (bits / EXPONENT_UNIT) % 2048 != 2047
}

/// Whether the double is zero, of either sign.
pub fn zero(bits: u64) -> (r: bool)
    ensures
        r == is_zero(bits),
{
    bits == 0 || bits == SIGN
}

fn placed(bits: u64) -> (r: i128)
    ensures
        r == place(bits),
{
    if bits >= SIGN {
        -((bits - SIGN) as i128)
    } else {
        bits as i128
    }
}

/// Whether the double `a` is greater than the double `b`.
pub fn greater(a: u64, b: u64) -> (r: bool)
    ensures
        r == is_greater(a, b),
{
    a % SIGN <= INFINITY && b % SIGN <= INFINITY && placed(a) > placed(b)
}

// ---------------------------------------------------------------------------
// Laws

/// The doubles below infinity are the finite ones, whatever their sign; at and
/// above it are the infinities and what is not a number.
pub proof fn law_finite_lies_below_infinity(bits: u64)
    requires
        bits < 0x8000_0000_0000_0000,
    ensures
        is_finite(bits) <==> bits < 0x7ff0_0000_0000_0000,
        is_finite((bits + 0x8000_0000_0000_0000) as u64) <==> bits < 0x7ff0_0000_0000_0000,
        is_nan(bits) <==> bits > 0x7ff0_0000_0000_0000,
        is_nan((bits + 0x8000_0000_0000_0000) as u64) <==> bits > 0x7ff0_0000_0000_0000,
        is_zero(bits) <==> bits == 0,
        is_zero((bits + 0x8000_0000_0000_0000) as u64) <==> bits == 0,
{
}

/// Doubles compare as numbers do: without their sign as their bits, every
/// negative one below every positive one, negated the other way round, and the
/// two zeros equal.
pub proof fn law_doubles_compare_as_numbers(a: u64, b: u64)
    requires
        a <= 0x7ff0_0000_0000_0000,
        b <= 0x7ff0_0000_0000_0000,
    ensures
        ({
            let minus_a = (a + 0x8000_0000_0000_0000) as u64;
            let minus_b = (b + 0x8000_0000_0000_0000) as u64;
            &&& is_greater(a, b) <==> a > b
            &&& is_greater(minus_a, minus_b) <==> b > a
            &&& is_greater(a, minus_b) <==> a != 0 || b != 0
            &&& !is_greater(minus_a, b)
        }),
{
}

/// Nothing is greater than what is not a number, and it is greater than
/// nothing.
pub proof fn law_not_a_number_is_never_greater(a: u64, b: u64)
    requires
        0x7ff0_0000_0000_0000 < a < 0x8000_0000_0000_0000 || a > 0xfff0_0000_0000_0000,
    ensures
        !is_greater(a, b),
        !is_greater(b, a),
{
}

} // verus!
