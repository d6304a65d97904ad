//! IEEE 754 binary64 numbers, held as their 64-bit patterns.
//!
//! Every value that the library orders or tests is a double-precision number
//! given by its bits: one sign bit, eleven exponent bits, fifty-two fraction
//! bits. What the library needs of such a number is decided here on the bits
//! alone: whether it is a NaN or a zero, how two numbers compare, where a
//! number stands in the total order, and which integer it truncates to.
use vstd::arithmetic::div_mod::{
    lemma_div_is_ordered_by_denominator, lemma_div_multiples_vanish_quotient,
    lemma_fundamental_div_mod,
};
use vstd::arithmetic::power2::{
    lemma2_to64, lemma2_to64_rest, lemma_pow2_adds, lemma_pow2_pos, lemma_pow2_strictly_increases,
    pow2,
};
use vstd::bits::lemma_u64_shr_is_div;
use vstd::prelude::*;

verus! {

/// The sign bit of a pattern.
pub const SIGN_BIT: u64 = 0x8000_0000_0000_0000;

/// The pattern of positive infinity: every exponent bit set, no fraction bit.
pub const INFINITY: u64 = 0x7ff0_0000_0000_0000;

/// Two to the power 52: the weight of the lowest exponent bit.
pub const HIDDEN_BIT: u64 = 0x10_0000_0000_0000;

/// The pattern without its sign bit.
pub open spec fn magnitude(bits: u64) -> int {
    if bits >= SIGN_BIT {
        bits - SIGN_BIT
    } else {
        bits as int
    }
}

/// The sign bit is set. This holds of negative zero and of half of the NaNs too.
pub open spec fn negative(bits: u64) -> bool {
    bits >= SIGN_BIT
}

/// The pattern is a NaN, quiet or signalling, of either sign.
pub open spec fn nan(bits: u64) -> bool {
    magnitude(bits) > INFINITY
}

/// The pattern is positive or negative zero.
pub open spec fn zero(bits: u64) -> bool {
    magnitude(bits) == 0
}

/// The pattern is neither an infinity nor a NaN.
pub open spec fn finite(bits: u64) -> bool {
    magnitude(bits) < INFINITY
}

/// The place of a number on the number line: the magnitudes of two numbers of
/// one sign stand as the numbers do, so the signed magnitude orders all numbers.
/// Both zeros have rank 0.
pub open spec fn rank(bits: u64) -> int {
    if negative(bits) {
        -magnitude(bits)
    } else {
        magnitude(bits)
    }
}

/// `a < b` as IEEE 754 compares: false as soon as one side is a NaN.
pub open spec fn less(a: u64, b: u64) -> bool {
    !nan(a) && !nan(b) && rank(a) < rank(b)
}

/// `a > b` as IEEE 754 compares.
pub open spec fn greater(a: u64, b: u64) -> bool {
    less(b, a)
}

/// `a >= b` as IEEE 754 compares: false as soon as one side is a NaN.
pub open spec fn at_least(a: u64, b: u64) -> bool {
    !nan(a) && !nan(b) && rank(a) >= rank(b)
}

/// The place of a pattern in the total order of IEEE 754 (`totalOrder`):
/// negative NaNs, negative infinity, the negative numbers, negative zero,
/// positive zero, the positive numbers, positive infinity, positive NaNs.
/// No two patterns share a key.
pub open spec fn total_key(bits: u64) -> int {
    if negative(bits) {
        -magnitude(bits) - 1
    } else {
        magnitude(bits)
    }
}

/// The exponent field, from 0 to 2047.
pub open spec fn exponent(bits: u64) -> int {
    magnitude(bits) / 0x10_0000_0000_0000
}

/// The fraction field, below two to the power 52.
pub open spec fn fraction(bits: u64) -> int {
    magnitude(bits) % 0x10_0000_0000_0000
}

/// The significand of a finite number as an integer: the fraction, with the
/// hidden bit in front of it unless the number is subnormal or zero.
pub open spec fn significand(bits: u64) -> int {
    if exponent(bits) == 0 {
        fraction(bits)
    } else {
        0x10_0000_0000_0000 + fraction(bits)
    }
}

/// How often the significand of a finite number is doubled to give its
/// absolute value in units: not at all for a subnormal number or a zero.
pub open spec fn doublings(bits: u64) -> nat {
    if exponent(bits) == 0 {
        0
    } else {
        (exponent(bits) - 1) as nat
    }
}

/// The absolute value of a finite number, counted in units of 2^-1074, the
/// smallest positive double. Every finite double is a whole number of units.
pub open spec fn absolute_value(bits: u64) -> int {
    significand(bits) * pow2(doublings(bits))
}

/// The value of a finite number, in units of 2^-1074.
pub open spec fn value(bits: u64) -> int {
    if negative(bits) {
        -absolute_value(bits)
    } else {
        absolute_value(bits)
    }
}

/// The integer part of the absolute value of a finite number: as many times
/// 2^1074 units as it holds.
pub open spec fn integer_part(bits: u64) -> int {
    absolute_value(bits) / (pow2(1074) as int)
}

/// A finite number rounded toward zero to an integer.
pub open spec fn truncated(bits: u64) -> int {
    if negative(bits) {
        -integer_part(bits)
    } else {
        integer_part(bits)
    }
}

/// The 32-bit integer that a number converts to: a NaN gives 0, every other
/// number is rounded toward zero and then brought into the range of `i32`.
pub open spec fn saturated_i32(bits: u64) -> int {
    if nan(bits) {
        0
    } else if !finite(bits) {
        if negative(bits) {
            i32::MIN as int
        } else {
            i32::MAX as int
        }
    } else if truncated(bits) < i32::MIN {
        i32::MIN as int
    } else if truncated(bits) > i32::MAX {
        i32::MAX as int
    } else {
        truncated(bits)
    }
}

fn magnitude_of(bits: u64) -> (m: u64)
    ensures
        m == magnitude(bits),
        m < SIGN_BIT,
{
    if bits >= SIGN_BIT {
        bits - SIGN_BIT
    } else {
        bits
    }
}

fn rank_of(bits: u64) -> (r: i64)
    ensures
        r == rank(bits),
{
    let m: u64 = magnitude_of(bits);
    if bits >= SIGN_BIT {
        -(m as i64)
    } else {
        m as i64
    }
}

/// Tells whether a pattern is a NaN.
pub fn is_nan(bits: u64) -> (r: bool)
    ensures
        r == nan(bits),
{
    magnitude_of(bits) > INFINITY
}

/// Tells whether a pattern is one of the two zeros.
pub fn is_zero(bits: u64) -> (r: bool)
    ensures
        r == zero(bits),
{
    magnitude_of(bits) == 0
}

/// `a > b` on two numbers.
pub fn gt(a: u64, b: u64) -> (r: bool)
    ensures
        r == greater(a, b),
{
    !is_nan(a) && !is_nan(b) && rank_of(b) < rank_of(a)
}

/// `a >= b` on two numbers.
pub fn ge(a: u64, b: u64) -> (r: bool)
    ensures
        r == at_least(a, b),
{
    !is_nan(a) && !is_nan(b) && rank_of(a) >= rank_of(b)
}

/// The key of a pattern in the total order, as a machine integer. Comparing
/// two keys with `<` compares the two numbers in the total order.
pub fn total_order_key(bits: u64) -> (key: i64)
    ensures
        key == total_key(bits),
{
    let m: u64 = magnitude_of(bits);
    if bits >= SIGN_BIT {
        -(m as i64) - 1
    } else {
        m as i64
    }
}

/// Converts a number to `i32`: toward zero, saturating at the ends of the
/// range, with 0 for a NaN.
pub fn to_i32(bits: u64) -> (r: i32)
    ensures
        r == saturated_i32(bits),
{
    let m: u64 = magnitude_of(bits);
    if m > INFINITY {
        return 0;
    }
    let e: u64 = m / HIDDEN_BIT;
    let f: u64 = m % HIDDEN_BIT;
    proof {
        lemma_fields(bits);
        lemma_integer_part(bits);
    }
    if e < 1023 {
        0
    } else if e >= 1054 {
        if bits >= SIGN_BIT {
            i32::MIN
        } else {
            i32::MAX
        }
    } else {
        let shift: u64 = 1075 - e;
        let whole: u64 = (HIDDEN_BIT + f) >> shift;
        proof {
            lemma_u64_shr_is_div((HIDDEN_BIT + f) as u64, shift);
        }
        if bits >= SIGN_BIT {
            -(whole as i32)
        } else {
            whole as i32
        }
    }
}

/// The fields of a pattern: the fraction is below two to the power 52, the
/// exponent at most 2047, and the two make up the magnitude; the significand
/// is below two to the power 53, and at least half of that unless the exponent
/// is zero.
proof fn lemma_fields(bits: u64)
    ensures
        0 <= fraction(bits) < 0x10_0000_0000_0000,
        0 <= exponent(bits) <= 2047,
        magnitude(bits) == exponent(bits) * 0x10_0000_0000_0000 + fraction(bits),
        0 <= significand(bits) < 0x20_0000_0000_0000,
        exponent(bits) > 0 ==> significand(bits) >= 0x10_0000_0000_0000,
        pow2(doublings(bits)) > 0,
{
    lemma_fundamental_div_mod(magnitude(bits), 0x10_0000_0000_0000);
    lemma_pow2_pos(doublings(bits));
}

/// The integer part of a number that is no NaN, by the size of its exponent:
/// nothing under exponent 1023, at least two to the power 31 from exponent
/// 1054 on, and in between the significand without its lowest
/// `1075 - exponent` bits, which is below two to the power 31.
proof fn lemma_integer_part(bits: u64)
    requires
        !nan(bits),
    ensures
        exponent(bits) < 1023 ==> integer_part(bits) == 0,
        exponent(bits) >= 1054 ==> integer_part(bits) >= 0x8000_0000,
        1023 <= exponent(bits) < 1054 ==> integer_part(bits) == significand(bits) / (pow2(
            (1075 - exponent(bits)) as nat,
        ) as int) && 0 <= integer_part(bits) < 0x8000_0000,
{
    let e = exponent(bits);
    let s = significand(bits);
    let k = doublings(bits);
    let p = pow2(k) as int;
    let one = pow2(1074) as int;
    lemma_fields(bits);
    lemma2_to64();
    lemma2_to64_rest();
    lemma_pow2_pos(1074);
    if e < 1023 {
        assert(s * p < 0x20_0000_0000_0000 * p) by (nonlinear_arith)
            requires
                0 <= s < 0x20_0000_0000_0000,
                p > 0,
        ;
        lemma_pow2_adds(53, k);
        if 53 + k < 1074 {
            lemma_pow2_strictly_increases(53 + k, 1074);
        }
        assert(s * p / one == 0) by (nonlinear_arith)
            requires
                0 <= s * p < one,
        ;
    } else if e >= 1054 {
        assert(s * p >= 0x10_0000_0000_0000 * p) by (nonlinear_arith)
            requires
                s >= 0x10_0000_0000_0000,
                p > 0,
        ;
        lemma_pow2_adds(52, k);
        if 52 + k > 1105 {
            lemma_pow2_strictly_increases(1105, 52 + k);
        }
        lemma_pow2_adds(31, 1074);
        assert(s * p / one >= 0x8000_0000) by (nonlinear_arith)
            requires
                s * p >= 0x8000_0000 * one,
                one > 0,
        ;
    } else {
        let d = (1075 - e) as nat;
        let q = pow2(d) as int;
        lemma_pow2_pos(d);
        lemma_pow2_adds(k, d);
        lemma_div_multiples_vanish_quotient(p, s, q);
        assert(s * p == p * s) by (nonlinear_arith);
        assert(22 <= d <= 52);
        if d > 22 {
            lemma_pow2_strictly_increases(22, d);
        }
        lemma_div_is_ordered_by_denominator(s, 0x40_0000, q);
        assert(s / 0x40_0000 < 0x8000_0000) by (nonlinear_arith)
            requires
                0 <= s < 0x20_0000_0000_0000,
        ;
        assert(s / q >= 0) by (nonlinear_arith)
            requires
                s >= 0,
                q > 0,
        ;
    }
}

/// Of two finite numbers the one with the greater magnitude has the greater
/// absolute value.
proof fn lemma_absolute_value_increases(a: u64, b: u64)
    requires
        finite(a),
        finite(b),
        magnitude(a) < magnitude(b),
    ensures
        absolute_value(a) < absolute_value(b),
{
    let sa = significand(a);
    let sb = significand(b);
    let pa = pow2(doublings(a)) as int;
    let pb = pow2(doublings(b)) as int;
    lemma_fields(a);
    lemma_fields(b);
    lemma2_to64();
    if exponent(a) == exponent(b) {
        assert(sa * pa < sb * pb) by (nonlinear_arith)
            requires
                sa < sb,
                pa == pb,
                pa > 0,
        ;
    } else {
        assert(exponent(a) < exponent(b)) by (nonlinear_arith)
            requires
                magnitude(a) < magnitude(b),
                magnitude(a) == exponent(a) * 0x10_0000_0000_0000 + fraction(a),
                magnitude(b) == exponent(b) * 0x10_0000_0000_0000 + fraction(b),
                0 <= fraction(a) < 0x10_0000_0000_0000,
                0 <= fraction(b) < 0x10_0000_0000_0000,
                exponent(a) != exponent(b),
        ;
        if exponent(a) == 0 {
            assert(sa * pa < sb * pb) by (nonlinear_arith)
                requires
                    0 <= sa < 0x10_0000_0000_0000,
                    sb >= 0x10_0000_0000_0000,
                    pa == 1,
                    pb >= 1,
            ;
        } else {
            lemma_pow2_adds(doublings(a), 1);
            if doublings(a) + 1 < doublings(b) {
                lemma_pow2_strictly_increases(doublings(a) + 1, doublings(b));
            }
            assert(sa * pa < sb * pb) by (nonlinear_arith)
                requires
                    0 <= sa < 0x20_0000_0000_0000,
                    sb >= 0x10_0000_0000_0000,
                    pa > 0,
                    pb >= pa * 2,
            ;
        }
    }
}

/// Finite numbers compare as their values do: the rank, by which the
/// comparisons go, is the greater where the value is, and two finite numbers of
/// one rank have one value.
pub proof fn lemma_rank_orders_as_value(a: u64, b: u64)
    requires
        finite(a),
        finite(b),
    ensures
        rank(a) < rank(b) <==> value(a) < value(b),
        rank(a) == rank(b) <==> value(a) == value(b),
{
    lemma_fields(a);
    lemma_fields(b);
    lemma_absolute_value_positive(a);
    lemma_absolute_value_positive(b);
    if magnitude(a) < magnitude(b) {
        lemma_absolute_value_increases(a, b);
    } else if magnitude(b) < magnitude(a) {
        lemma_absolute_value_increases(b, a);
    }
}

/// The absolute value of a finite number is zero for the two zeros and
/// positive for every other number.
proof fn lemma_absolute_value_positive(bits: u64)
    requires
        finite(bits),
    ensures
        zero(bits) ==> absolute_value(bits) == 0,
        !zero(bits) ==> absolute_value(bits) > 0,
{
    lemma_fields(bits);
    lemma_fields(0);
    assert(absolute_value(0) == 0) by (nonlinear_arith)
        requires
            absolute_value(0) == significand(0) * pow2(doublings(0)),
            significand(0) == 0,
    ;
    if zero(bits) {
        assert(absolute_value(bits) == 0) by (nonlinear_arith)
            requires
                absolute_value(bits) == significand(bits) * pow2(doublings(bits)),
                significand(bits) == 0,
        ;
    } else {
        lemma_absolute_value_increases(0, bits);
    }
}

/// The integer that a finite number truncates to is the one next to its value
/// on the side of zero: the value lies between it and its neighbour away from
/// zero, that neighbour left out.
pub proof fn lemma_truncated_brackets_value(bits: u64)
    requires
        finite(bits),
    ensures
        !negative(bits) ==> truncated(bits) * pow2(1074) <= value(bits) < (truncated(bits) + 1)
            * pow2(1074),
        negative(bits) ==> (truncated(bits) - 1) * pow2(1074) < value(bits) <= truncated(bits)
            * pow2(1074),
{
    let one = pow2(1074) as int;
    let abs = absolute_value(bits);
    lemma_pow2_pos(1074);
    lemma_absolute_value_positive(bits);
    lemma_fundamental_div_mod(abs, one);
    assert(0 <= abs % one < one) by (nonlinear_arith)
        requires
            one > 0,
    ;
    assert((abs / one + 1) * one == one * (abs / one) + one) by (nonlinear_arith);
    assert((abs / one) * one == one * (abs / one)) by (nonlinear_arith);
    assert((-(abs / one) - 1) * one == -(one * (abs / one)) - one) by (nonlinear_arith);
    assert((-(abs / one)) * one == -(one * (abs / one))) by (nonlinear_arith);
}

/// No two patterns stand at one place of the total order.
pub proof fn lemma_total_key_injective(a: u64, b: u64)
    requires
        total_key(a) == total_key(b),
    ensures
        a == b,
{
}

/// The total order agrees with the comparison of numbers wherever that one
/// decides: if `a < b`, then `a` stands before `b` in the total order.
pub proof fn lemma_total_order_refines_less(a: u64, b: u64)
    requires
        less(a, b),
    ensures
        total_key(a) < total_key(b),
{
}

/// Where the total order puts one number before another, or beside it, the
/// second is at least the first as numbers compare.
pub proof fn lemma_total_order_implies_at_least(a: u64, b: u64)
    requires
        total_key(a) <= total_key(b),
        !nan(a),
        !nan(b),
    ensures
        at_least(b, a),
{
}

/// In the total order a positive NaN stands after every number, and a
/// negative NaN before every number.
pub proof fn lemma_nan_placement(n: u64, x: u64)
    requires
        nan(n),
        !nan(x),
    ensures
        negative(n) ==> total_key(n) < total_key(x),
        !negative(n) ==> total_key(x) < total_key(n),
{
}

} // verus!
