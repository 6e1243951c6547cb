//! From integers to numbers: the conversion that rounds to nearest.

use vstd::prelude::*;
use vstd::arithmetic::div_mod::{
    lemma_div_by_multiple, lemma_div_denominator, lemma_fundamental_div_mod,
    lemma_mod_multiples_basic,
};
use vstd::arithmetic::power2::{
    lemma2_to64, lemma2_to64_rest, lemma_pow2_adds, lemma_pow2_pos, lemma_pow2_strictly_increases,
    pow2,
};
use crate::binary64::whole::{nearest, spec_round_to_i64};
use crate::binary64::{
    canonical, lemma_compose, lemma_pattern_unique, lemma_units_zero, magnitude, pattern_of,
    spec_ge, spec_is_negative, spec_lt, units, value, HIDDEN, INFINITE, SIGN,
};

verus! {

/// How many low bits of `a` do not fit the 53 bits of a significand.
pub open spec fn excess_bits(a: nat) -> nat
    decreases a,
{
    if a < 2 * HIDDEN {
        0
    } else {
        1 + excess_bits(a / 2)
    }
}

/// `a` rounded to 53 significant bits. Of two nearest candidates the one
/// with the even significand is taken.
pub open spec fn round_to_significand(a: nat) -> nat {
    let step = pow2(excess_bits(a));
    let kept = a / step;
    let lost = a % step;
    if 2 * lost > step || (2 * lost == step && kept % 2 == 1) {
        (kept + 1) * step
    } else {
        kept * step
    }
}

/// The integer nearest to `v` that binary64 has: `v` itself if it has at
/// most 53 significant bits, else `v` rounded to that many.
pub open spec fn nearest_integer(v: i64) -> int {
    let rounded = round_to_significand(vstd::math::abs(v as int) as nat) as int;
    if v < 0 {
        -rounded
    } else {
        rounded
    }
}

/// The pattern of the number nearest to the integer `v`.
pub open spec fn spec_from_i64(v: i64) -> u64 {
    pattern_of(nearest_integer(v) * pow2(1074))
}

/// Rounding moves a number by at most half the weight of the last bit that
/// is kept, and what it gives has no bits below that one.
pub proof fn lemma_rounding_is_near(a: nat)
    ensures
        2 * vstd::math::abs(round_to_significand(a) - a) <= pow2(excess_bits(a)),
        round_to_significand(a) % pow2(excess_bits(a)) == 0,
        a < 2 * HIDDEN ==> round_to_significand(a) == a,
{
    let step = pow2(excess_bits(a)) as int;
    let kept = a as int / step;
    let lost = a as int % step;
    lemma_pow2_pos(excess_bits(a));
    lemma_fundamental_div_mod(a as int, step);
    lemma_mod_multiples_basic(kept, step);
    lemma_mod_multiples_basic(kept + 1, step);
    assert((kept + 1) * step - a == step - lost) by (nonlinear_arith)
        requires
            a == step * kept + lost,
    ;
    assert(kept * step - a == -lost) by (nonlinear_arith)
        requires
            a == step * kept + lost,
    ;
    if a < 2 * HIDDEN {
        lemma2_to64();
        assert(excess_bits(a) == 0);
        assert(a as int / 1 == a && a as int % 1 == 0);
    }
}

/// While what is left of `a` after dropping `k` bits still does not fit,
/// one more bit has to go.
proof fn lemma_excess_bits_step(a: nat, k: nat)
    requires
        a / pow2(k) >= 2 * HIDDEN,
    ensures
        excess_bits(a / pow2(k)) == 1 + excess_bits(a / pow2(k + 1)),
{
    lemma2_to64();
    lemma_pow2_pos(k);
    lemma_pow2_adds(k, 1);
    lemma_div_denominator(a as int, pow2(k) as int, 2);
}

/// A number below `2^(53 + spare)` has at most `spare` excess bits, and
/// without them it fits a significand, which it fills if any bit was dropped.
proof fn lemma_excess_bits(a: nat, spare: nat)
    requires
        a < pow2(53 + spare),
    ensures
        excess_bits(a) <= spare,
        a / pow2(excess_bits(a)) < 2 * HIDDEN,
        excess_bits(a) > 0 ==> a / pow2(excess_bits(a)) >= HIDDEN,
    decreases a,
{
    lemma2_to64();
    lemma2_to64_rest();
    if a >= 2 * HIDDEN {
        if spare == 0 {
            assert(false);
        }
        lemma_pow2_adds((53 + spare - 1) as nat, 1);
        lemma_excess_bits(a / 2, (spare - 1) as nat);
        let k = excess_bits(a / 2);
        lemma_pow2_pos(k);
        lemma_pow2_adds(1, k);
        lemma_div_denominator(a as int, 2, pow2(k) as int);
        assert(a / pow2(excess_bits(a)) == (a / 2) / pow2(k));
        if k == 0 {
            assert((a / 2) / 1 == a / 2);
        }
    } else {
        assert(a / 1 == a);
    }
}

/// A significand and an exponent field within reach of the normal numbers
/// make a number that binary64 has.
proof fn lemma_representable(m: nat, e: nat)
    requires
        0 < m < 2 * HIDDEN,
        1 <= e < 2047,
        e < 1075 ==> m >= pow2((1075 - e) as nat),
    ensures
        exists|x: u64| x < INFINITE && #[trigger] units(x) == m * pow2((e - 1) as nat),
    decreases e,
{
    if m >= HIDDEN {
        lemma_compose(e as u64, m as u64);
        let x = (e * HIDDEN + (m - HIDDEN)) as u64;
        assert(x < INFINITE && units(x) == m * pow2((e - 1) as nat));
    } else {
        lemma2_to64();
        lemma2_to64_rest();
        if e <= 1023 {
            if 1075 - e > 52 {
                lemma_pow2_strictly_increases(52, (1075 - e) as nat);
            }
            assert(false);
        }
        if e <= 1075 {
            lemma_pow2_adds((1075 - e) as nat, 1);
        }
        lemma_representable(2 * m, (e - 1) as nat);
        lemma_pow2_adds((e - 2) as nat, 1);
        assert((2 * m) * pow2((e - 2) as nat) == m * (pow2((e - 2) as nat) * 2))
            by (nonlinear_arith);
    }
}

/// Binary64 has the integer nearest to every `i64`: its pattern is
/// canonical and stands for exactly that integer.
pub proof fn lemma_from_i64(v: i64)
    ensures
        canonical(spec_from_i64(v)),
        value(spec_from_i64(v)) == nearest_integer(v) * pow2(1074),
        spec_is_negative(spec_from_i64(v)) == (v < 0),
{
    let a = vstd::math::abs(v as int) as nat;
    let target = nearest_integer(v) * pow2(1074);
    lemma2_to64();
    lemma2_to64_rest();
    lemma_pow2_pos(1074);
    if v == 0 {
        assert(excess_bits(0) == 0);
        assert(round_to_significand(0) == 0);
        assert(0 * pow2(1074) == 0);
        lemma_units_zero(0);
        assert(canonical(0) && value(0) == target);
        lemma_units_zero(spec_from_i64(v));
    } else {
        lemma_pow2_adds(53, 11);
        lemma_excess_bits(a, 11);
        let k = excess_bits(a);
        let step = pow2(k);
        lemma_pow2_pos(k);
        let kept = if 2 * (a % step) > step || (2 * (a % step) == step && (a / step) % 2 == 1) {
            a / step + 1
        } else {
            a / step
        };
        let rounded = round_to_significand(a);
        assert(rounded == kept * step);
        assert(kept >= 1) by {
            if k == 0 {
                assert(a / 1 == a);
            }
        }
        lemma_pow2_adds(k, 1074);
        if kept == 2 * HIDDEN {
            lemma_representable(HIDDEN as nat, 1076 + k);
            lemma_pow2_adds(1, k + 1074);
            assert(HIDDEN * pow2(1075 + k) == (2 * HIDDEN) * step * pow2(1074))
                by (nonlinear_arith)
                requires
                    pow2(1075 + k) == 2 * pow2(k + 1074),
                    pow2(k + 1074) == step * pow2(1074),
            ;
        } else {
            lemma_representable(kept, 1075 + k);
            assert(kept * pow2(1074 + k) == kept * step * pow2(1074)) by (nonlinear_arith)
                requires
                    pow2(1074 + k) == step * pow2(1074),
            ;
        }
        let x = choose|x: u64| x < INFINITE && #[trigger] units(x) == rounded * pow2(1074);
        assert(rounded * pow2(1074) > 0) by (nonlinear_arith)
            requires
                rounded == kept * step,
                kept >= 1,
                step >= 1,
                pow2(1074) > 0,
        ;
        lemma_units_zero(x);
        if v < 0 {
            let y = (x + SIGN) as u64;
            assert(magnitude(y) == x);
            assert(units(y) == units(x));
            assert(-(rounded as int) * pow2(1074) == -(rounded * pow2(1074)))
                by (nonlinear_arith);
            assert(canonical(y) && value(y) == target);
        } else {
            assert(canonical(x) && value(x) == target);
        }
        let found = spec_from_i64(v);
        assert(canonical(found) && value(found) == target);
        assert((v < 0) == (target < 0)) by (nonlinear_arith)
            requires
                target == nearest_integer(v) * pow2(1074),
                nearest_integer(v) != 0,
                (v < 0) == (nearest_integer(v) < 0),
                pow2(1074) > 0,
        ;
    }
}

/// An integer of at most 53 significant bits survives the way to binary64
/// and back.
pub proof fn lemma_round_trip(v: i64)
    requires
        -0x0020_0000_0000_0000 < v < 0x0020_0000_0000_0000,
    ensures
        nearest_integer(v) == v,
        spec_round_to_i64(spec_from_i64(v)) == v,
{
    let a = vstd::math::abs(v as int) as nat;
    let x = spec_from_i64(v);
    lemma2_to64();
    lemma_pow2_pos(1074);
    assert(excess_bits(a) == 0);
    assert(a / 1 == a && a % 1 == 0);
    assert(round_to_significand(a) == a);
    lemma_from_i64(v);
    assert(units(x) == a * pow2(1074)) by (nonlinear_arith)
        requires
            value(x) == v * pow2(1074),
            a == (if v < 0 {
                -v
            } else {
                v as int
            }),
            value(x) == (if x >= SIGN {
                -(units(x) as int)
            } else {
                units(x) as int
            }),
            (x >= SIGN) == (v < 0),
    ;
    lemma_div_by_multiple(a as int, pow2(1074) as int);
    lemma_mod_multiples_basic(a as int, pow2(1074) as int);
    assert(nearest(x) == a);
}

/// Integers of at most 53 significant bits are ordered in binary64 as they
/// are as integers.
pub proof fn lemma_order_of_integers(a: i64, b: i64)
    requires
        -0x0020_0000_0000_0000 < a < 0x0020_0000_0000_0000,
        -0x0020_0000_0000_0000 < b < 0x0020_0000_0000_0000,
    ensures
        spec_lt(spec_from_i64(a), spec_from_i64(b)) == (a < b),
        spec_ge(spec_from_i64(a), spec_from_i64(b)) == (a >= b),
{
    lemma_from_i64(a);
    lemma_from_i64(b);
    lemma_round_trip(a);
    lemma_round_trip(b);
    lemma_pow2_pos(1074);
    let one = pow2(1074) as int;
    assert((a * one < b * one) == (a < b)) by (nonlinear_arith)
        requires
            one > 0,
    ;
}

/// Converts an integer to binary64, as a cast does: exactly if it has at
/// most 53 significant bits, else rounded to the nearest number that has,
/// ties going to the even significand.
pub fn from_i64(v: i64) -> (r: u64)
    ensures
        r == spec_from_i64(v),
        canonical(r),
        value(r) == nearest_integer(v) * pow2(1074),
{
    if v == 0 {
        proof {
            lemma2_to64();
            lemma_units_zero(0);
            lemma_pattern_unique(0);
            assert(excess_bits(0) == 0);
            assert(round_to_significand(0) == 0);
            assert(0 * pow2(1074) == 0);
        }
        return 0;
    }
    let a: u64 = if v < 0 {
        ((-(v + 1)) as u64) + 1
    } else {
        v as u64
    };
    assert(a == vstd::math::abs(v as int));
    // Drop the low bits that a significand has no room for.
    let mut step: u64 = 1;
    let mut dropped: u64 = 0;
    proof {
        lemma2_to64();
    }
    while a / step >= 2 * HIDDEN
        invariant
            1 <= a <= SIGN,
            step == pow2(dropped as nat),
            1 <= step <= 2048,
            dropped <= 11,
            dropped > 0 ==> a / step >= HIDDEN,
            excess_bits(a as nat) == dropped + excess_bits((a / step) as nat),
        decreases 64 - dropped,
    {
        proof {
            lemma_excess_bits_step(a as nat, dropped as nat);
            lemma_fundamental_div_mod(a as int, step as int);
            let q = (a / step) as int;
            let rest = (a % step) as int;
            assert(step <= 1024) by (nonlinear_arith)
                requires
                    a == step * q + rest,
                    rest >= 0,
                    q >= 0x0020_0000_0000_0000,
                    a <= 0x8000_0000_0000_0000,
                    step >= 1,
            ;
            lemma_pow2_adds(dropped as nat, 1);
            lemma2_to64();
            if dropped > 10 {
                lemma_pow2_strictly_increases(10, dropped as nat);
            }
            lemma_div_denominator(a as int, step as int, 2);
        }
        step = step * 2;
        dropped = dropped + 1;
    }
    let mut kept: u64 = a / step;
    let lost: u64 = a % step;
    assert(excess_bits(a as nat) == dropped);
    if 2 * lost > step || (2 * lost == step && kept % 2 == 1) {
        kept = kept + 1;
    }
    let ghost rounded = round_to_significand(a as nat) as int;
    assert(rounded == kept * step);
    assert(rounded > 0) by (nonlinear_arith)
        requires
            rounded == kept * step,
            kept >= 1,
            step >= 1,
    ;
    let mut exponent: u64 = 1075 + dropped;
    proof {
        lemma_pow2_adds(dropped as nat, 1074);
        assert(kept * pow2((exponent - 1) as nat) == rounded * pow2(1074)) by (nonlinear_arith)
            requires
                rounded == kept * step,
                pow2((exponent - 1) as nat) == step * pow2(1074),
        ;
    }
    if kept == 2 * HIDDEN {
        proof {
            lemma_pow2_adds((exponent - 1) as nat, 1);
            assert((2 * HIDDEN) * pow2((exponent - 1) as nat) == HIDDEN * (pow2(
                (exponent - 1) as nat,
            ) * 2)) by (nonlinear_arith);
        }
        kept = HIDDEN;
        exponent = exponent + 1;
    }
    if dropped == 0 {
        proof {
            lemma2_to64();
        }
        while kept < HIDDEN
            invariant
                1 <= kept < 2 * HIDDEN,
                1 <= exponent <= 1075,
                kept >= pow2((1075 - exponent) as nat),
                kept * pow2((exponent - 1) as nat) == rounded * pow2(1074),
            decreases exponent,
        {
            proof {
                lemma2_to64_rest();
                if 1075 - exponent >= 52 {
                    if 1075 - exponent > 52 {
                        lemma_pow2_strictly_increases(52, (1075 - exponent) as nat);
                    }
                    assert(false);
                }
                lemma_pow2_adds((1075 - exponent) as nat, 1);
                lemma_pow2_adds((exponent - 2) as nat, 1);
                lemma2_to64();
                assert((kept * 2) * pow2((exponent - 2) as nat) == kept * (pow2(
                    (exponent - 2) as nat,
                ) * 2)) by (nonlinear_arith);
            }
            kept = kept * 2;
            exponent = exponent - 1;
        }
    }
    proof {
        lemma_compose(exponent, kept);
    }
    let bits: u64 = exponent * HIDDEN + (kept - HIDDEN);
    assert(units(bits) == rounded * pow2(1074));
    proof {
        lemma_units_zero(bits);
        lemma_pow2_pos(1074);
        assert(rounded * pow2(1074) > 0) by (nonlinear_arith)
            requires
                rounded > 0,
                pow2(1074) > 0,
        ;
    }
    let r: u64 = if v < 0 {
        bits + SIGN
    } else {
        bits
    };
    proof {
        assert(magnitude(r) == bits);
        assert(units(r) == units(bits));
        assert((-rounded) * pow2(1074) == -(rounded * pow2(1074))) by (nonlinear_arith);
        lemma_pattern_unique(r);
    }
    r
}

} // verus!
