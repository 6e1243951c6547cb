//! From numbers to machine integers: truncation and rounding.

use vstd::prelude::*;
use vstd::arithmetic::div_mod::{
    lemma_basic_div, lemma_breakdown, lemma_div_by_multiple, lemma_div_is_ordered,
    lemma_div_multiples_vanish_quotient, lemma_fundamental_div_mod, lemma_mod_multiples_basic,
    lemma_small_mod, lemma_truncate_middle,
};
use vstd::arithmetic::power2::{
    lemma2_to64, lemma2_to64_rest, lemma_pow2_adds, lemma_pow2_pos, lemma_pow2_strictly_increases,
    pow2,
};
use vstd::bits::{lemma_u64_shl_is_mul, lemma_u64_shr_is_div};
use crate::binary64::{
    binade, exponent_field, magnitude, significand, spec_is_nan, spec_is_negative, spec_lt, units,
    HIDDEN, INFINITE, SIGN, ZERO,
};

verus! {

/// The whole part of the absolute value: the units divided by 2^1074, which
/// is the weight of one.
pub open spec fn whole(x: u64) -> nat {
    units(x) / pow2(1074)
}

/// The number as an unsigned machine integer, rounded toward zero: 0 for a
/// NaN and for anything below one, the largest `usize` for anything beyond it.
pub open spec fn spec_truncate(x: u64) -> usize {
    if spec_is_nan(x) || spec_is_negative(x) {
        0
    } else if whole(x) > usize::MAX {
        usize::MAX
    } else {
        whole(x) as usize
    }
}

/// The whole number nearest to the absolute value; a half goes away from
/// zero.
pub open spec fn nearest(x: u64) -> nat {
    if 2 * (units(x) % pow2(1074)) >= pow2(1074) {
        whole(x) + 1
    } else {
        whole(x)
    }
}

/// The number rounded to the nearest integer, halves away from zero, as far
/// as an `i64` reaches: 0 for a NaN, the nearest end of the range for what
/// lies beyond it.
pub open spec fn spec_round_to_i64(x: u64) -> i64 {
    if spec_is_nan(x) {
        0
    } else if spec_is_negative(x) {
        if nearest(x) > 0x8000_0000_0000_0000 {
            i64::MIN
        } else {
            (-(nearest(x) as int)) as i64
        }
    } else {
        if nearest(x) > i64::MAX {
            i64::MAX
        } else {
            nearest(x) as i64
        }
    }
}

/// A number whose exponent field is below that of one has no whole part.
proof fn lemma_whole_below_one(x: u64)
    requires
        exponent_field(x) < 1023,
    ensures
        whole(x) == 0,
{
    let h = HIDDEN as int;
    let s = significand(x) as int;
    let k = binade(x);
    lemma_fundamental_div_mod(magnitude(x) as int, h);
    lemma2_to64_rest();
    lemma_pow2_pos(k);
    lemma_pow2_adds(53, k);
    assert(s < pow2(53));
    assert(s * pow2(k) < pow2(53) * pow2(k)) by (nonlinear_arith)
        requires
            0 <= s < pow2(53),
            0 < pow2(k),
    ;
    if 53 + k < 1074 {
        lemma_pow2_strictly_increases(53 + k, 1074);
    }
    assert(units(x) < pow2(1074));
    lemma_basic_div(units(x) as int, pow2(1074) as int);
}

/// From one up to 2^52 the whole part drops the low bits of the significand.
proof fn lemma_whole_shifts_right(x: u64, shift: nat)
    requires
        1023 <= exponent_field(x) < 1075,
        shift == 1075 - exponent_field(x),
    ensures
        whole(x) == significand(x) / pow2(shift),
{
    let s = significand(x) as int;
    let k = binade(x);
    lemma_pow2_pos(k);
    lemma_pow2_pos(shift);
    lemma_pow2_adds(k, shift);
    assert(k + shift == 1074);
    lemma_div_multiples_vanish_quotient(pow2(k) as int, s, pow2(shift) as int);
    assert(s * pow2(k) == pow2(k) * s) by (nonlinear_arith);
}

/// From 2^52 on the number is whole: the significand times a power of two.
proof fn lemma_whole_shifts_left(x: u64, shift: nat)
    requires
        1075 <= exponent_field(x),
        shift == exponent_field(x) - 1075,
    ensures
        whole(x) == significand(x) * pow2(shift),
{
    let s = significand(x) as int;
    let k = binade(x);
    lemma_pow2_pos(shift);
    lemma_pow2_pos(1074);
    lemma_pow2_adds(shift, 1074);
    assert(k == shift + 1074);
    assert(s * (pow2(shift) * pow2(1074)) == (s * pow2(shift)) * pow2(1074))
        by (nonlinear_arith);
    assert(0 <= s * pow2(shift)) by (nonlinear_arith)
        requires
            0 <= s,
            0 < pow2(shift),
    ;
    lemma_div_by_multiple(s * pow2(shift), pow2(1074) as int);
}

/// A number below one half rounds to zero.
proof fn lemma_nearest_below_half(x: u64)
    requires
        exponent_field(x) < 1022,
    ensures
        nearest(x) == 0,
{
    let h = HIDDEN as int;
    let s = significand(x) as int;
    let k = binade(x);
    lemma_fundamental_div_mod(magnitude(x) as int, h);
    lemma2_to64_rest();
    lemma_pow2_pos(k);
    lemma_pow2_adds(53, k);
    assert(s * pow2(k) < pow2(53) * pow2(k)) by (nonlinear_arith)
        requires
            0 <= s < pow2(53),
            0 < pow2(k),
    ;
    if 53 + k < 1073 {
        lemma_pow2_strictly_increases(53 + k, 1073);
    }
    lemma_pow2_adds(1073, 1);
    lemma2_to64();
    assert(2 * units(x) < pow2(1074));
    lemma_basic_div(units(x) as int, pow2(1074) as int);
    lemma_small_mod(units(x), pow2(1074));
}

/// From one half up to 2^52 the nearest whole number is the significand
/// without its low bits, plus the highest of those bits.
proof fn lemma_nearest_shifts_right(x: u64, shift: nat)
    requires
        1022 <= exponent_field(x) < 1075,
        shift == 1075 - exponent_field(x),
    ensures
        nearest(x) == significand(x) / pow2(shift) + (significand(x) / pow2((shift - 1) as nat))
            % 2,
{
    let s = significand(x) as int;
    let k = binade(x);
    let p = pow2(k) as int;
    let d = pow2(shift) as int;
    let half = pow2((shift - 1) as nat) as int;
    lemma_pow2_pos(k);
    lemma_pow2_pos(shift);
    lemma_pow2_pos((shift - 1) as nat);
    lemma_pow2_adds(k, shift);
    lemma_pow2_adds((shift - 1) as nat, 1);
    lemma2_to64();
    assert(k + shift == 1074);
    assert(d == half * 2);
    lemma_div_multiples_vanish_quotient(p, s, d);
    lemma_truncate_middle(s, p, d);
    assert(s * p == p * s) by (nonlinear_arith);
    assert(units(x) / pow2(1074) == s / d);
    assert(units(x) % pow2(1074) == p * (s % d));
    lemma_breakdown(s, half, 2);
    let bit = (s / half) % 2;
    let low = s % half;
    assert(s % d == half * bit + low);
    assert(0 <= low < half);
    assert(2 * (p * (s % d)) >= p * d <==> bit == 1) by (nonlinear_arith)
        requires
            s % d == half * bit + low,
            0 <= low < half,
            d == half * 2,
            bit == 0 || bit == 1,
            p > 0,
    ;
}

/// From 2^52 on the number is whole already.
proof fn lemma_nearest_shifts_left(x: u64, shift: nat)
    requires
        1075 <= exponent_field(x),
        shift == exponent_field(x) - 1075,
    ensures
        nearest(x) == significand(x) * pow2(shift),
{
    let s = significand(x) as int;
    lemma_whole_shifts_left(x, shift);
    lemma_pow2_pos(shift);
    lemma_pow2_pos(1074);
    lemma_pow2_adds(shift, 1074);
    assert(s * (pow2(shift) * pow2(1074)) == (s * pow2(shift)) * pow2(1074))
        by (nonlinear_arith);
    lemma_mod_multiples_basic(s * pow2(shift), pow2(1074) as int);
}

/// Zero has no whole part.
pub proof fn lemma_truncate_zero()
    ensures
        spec_truncate(ZERO) == 0,
        spec_round_to_i64(ZERO) == 0,
{
    lemma_whole_below_one(ZERO);
    lemma_nearest_below_half(ZERO);
}

/// Truncation keeps the order: of two numbers the smaller never truncates
/// to more than the larger does.
pub proof fn lemma_truncate_is_monotone(a: u64, b: u64)
    requires
        spec_lt(a, b),
    ensures
        spec_truncate(a) <= spec_truncate(b),
{
    lemma_pow2_pos(1074);
    if !spec_is_negative(a) {
        lemma_div_is_ordered(units(a) as int, units(b) as int, pow2(1074) as int);
    }
}

/// The number as a `usize`, rounded toward zero and saturating: what a
/// conversion of the truncated number to `usize` gives in Rust.
pub fn truncate(x: u64) -> (r: usize)
    ensures
        r == spec_truncate(x),
{
    if x >= SIGN || x > INFINITE {
        return 0;
    }
    let e: u64 = x / HIDDEN;
    let f: u64 = x % HIDDEN;
    if e < 1023 {
        proof {
            lemma_whole_below_one(x);
        }
        return 0;
    }
    let s: u64 = HIDDEN + f;
    assert(s == significand(x));
    let kept: u64 = if e >= 1075 {
        let shift: u64 = e - 1075;
        proof {
            lemma_whole_shifts_left(x, shift as nat);
            lemma2_to64();
            lemma2_to64_rest();
        }
        if shift > 11 {
            proof {
                if shift > 12 {
                    lemma_pow2_strictly_increases(12, shift as nat);
                }
                assert(s * pow2(shift as nat) > usize::MAX) by (nonlinear_arith)
                    requires
                        s >= 0x0010_0000_0000_0000,
                        pow2(shift as nat) >= 0x1000,
                        usize::MAX <= 0xffff_ffff_ffff_ffff,
                ;
            }
            return usize::MAX;
        }
        proof {
            if shift < 11 {
                lemma_pow2_strictly_increases(shift as nat, 11);
            }
            assert(s * pow2(shift as nat) <= u64::MAX) by (nonlinear_arith)
                requires
                    s < 0x0020_0000_0000_0000,
                    pow2(shift as nat) <= 0x800,
            ;
            lemma_u64_shl_is_mul(s, shift);
        }
        s << shift
    } else {
        let shift: u64 = 1075 - e;
        proof {
            lemma_whole_shifts_right(x, shift as nat);
            lemma_u64_shr_is_div(s, shift);
        }
        s >> shift
    };
    assert(kept == whole(x));
    if kept > usize::MAX as u64 {
        usize::MAX
    } else {
        kept as usize
    }
}

/// The number rounded to the nearest integer, halves away from zero, and
/// saturating: what a conversion of the rounded number to `i64` gives in
/// Rust.
pub fn round_to_i64(x: u64) -> (r: i64)
    ensures
        r == spec_round_to_i64(x),
{
    let negative: bool = x >= SIGN;
    let m: u64 = if negative { x - SIGN } else { x };
    if m > INFINITE {
        return 0;
    }
    let e: u64 = m / HIDDEN;
    let f: u64 = m % HIDDEN;
    if e < 1022 {
        proof {
            lemma_nearest_below_half(x);
        }
        return 0;
    }
    let s: u64 = HIDDEN + f;
    assert(s == significand(x));
    let near: u64 = if e >= 1075 {
        let shift: u64 = e - 1075;
        proof {
            lemma_nearest_shifts_left(x, shift as nat);
            lemma2_to64();
        }
        if shift > 10 {
            proof {
                if shift > 11 {
                    lemma_pow2_strictly_increases(11, shift as nat);
                }
                assert(s * pow2(shift as nat) >= 0x8000_0000_0000_0000) by (nonlinear_arith)
                    requires
                        s >= 0x0010_0000_0000_0000,
                        pow2(shift as nat) >= 0x800,
                ;
            }
            return if negative { i64::MIN } else { i64::MAX };
        }
        proof {
            if shift < 10 {
                lemma_pow2_strictly_increases(shift as nat, 10);
            }
            assert(s * pow2(shift as nat) < 0x8000_0000_0000_0000) by (nonlinear_arith)
                requires
                    s < 0x0020_0000_0000_0000,
                    pow2(shift as nat) <= 0x400,
            ;
            lemma_u64_shl_is_mul(s, shift);
        }
        s << shift
    } else {
        let shift: u64 = 1075 - e;
        proof {
            lemma_nearest_shifts_right(x, shift as nat);
            lemma_u64_shr_is_div(s, shift);
            lemma_u64_shr_is_div(s, (shift - 1) as u64);
            lemma_pow2_pos(shift as nat);
            let d = pow2(shift as nat) as int;
            assert(s as int / d <= s) by (nonlinear_arith)
                requires
                    d >= 1,
                    s >= 0,
            ;
        }
        (s >> shift) + (s >> (shift - 1)) % 2
    };
    assert(near == nearest(x));
    assert(near < SIGN);
    if negative {
        -(near as i64)
    } else {
        near as i64
    }
}

} // verus!
