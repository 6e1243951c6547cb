//! IEEE-754 binary64 numbers, handled through their 64-bit patterns.
//!
//! A pattern is a sign bit, an 11-bit exponent field and a 52-bit fraction.
//! The model below gives every pattern that is not a NaN a position on the
//! number line, counted in units of 2^-1074 (the gap between the smallest
//! magnitudes). The two infinities sit where the next binade would begin, so
//! that they bound every finite number, which is all an ordering needs.
//!
//! This module holds the model and the comparisons. [`whole`] turns numbers
//! into machine integers, and [`integer`] turns integers into numbers.

use vstd::prelude::*;
use vstd::arithmetic::div_mod::{
    lemma_fundamental_div_mod, lemma_fundamental_div_mod_converse_div,
    lemma_fundamental_div_mod_converse_mod,
};
use vstd::arithmetic::mul::{lemma_mul_strict_inequality, lemma_mul_strictly_positive};
use vstd::arithmetic::power2::{
    lemma2_to64, lemma_pow2_adds, lemma_pow2_pos, lemma_pow2_strictly_increases, pow2,
};

pub mod integer;
pub mod whole;

pub use integer::{from_i64, spec_from_i64};
pub use whole::{round_to_i64, spec_round_to_i64, spec_truncate, truncate};

verus! {

/// The sign bit, 2^63.
pub const SIGN: u64 = 0x8000_0000_0000_0000;

/// The weight of the implicit leading bit of a normal significand, 2^52.
pub const HIDDEN: u64 = 0x0010_0000_0000_0000;

/// The magnitude bits of an infinity: exponent field all ones, fraction zero.
pub const INFINITE: u64 = 0x7ff0_0000_0000_0000;

/// The pattern of the number one.
pub const ONE: u64 = 0x3ff0_0000_0000_0000;

/// The pattern of positive zero.
pub const ZERO: u64 = 0;

/// Whether the sign bit is set.
pub open spec fn spec_is_negative(x: u64) -> bool {
    x >= SIGN
}

/// The pattern without its sign bit.
pub open spec fn magnitude(x: u64) -> u64 {
    if x >= SIGN {
        (x - SIGN) as u64
    } else {
        x
    }
}

/// Whether the pattern is a NaN: exponent field all ones, fraction not zero.
pub open spec fn spec_is_nan(x: u64) -> bool {
    magnitude(x) > INFINITE
}

/// The 11-bit exponent field.
pub open spec fn exponent_field(x: u64) -> nat {
    (magnitude(x) / HIDDEN) as nat
}

/// The 52-bit fraction.
pub open spec fn fraction(x: u64) -> nat {
    (magnitude(x) % HIDDEN) as nat
}

/// The significand as an integer: the fraction, with the implicit leading bit
/// unless the exponent field is zero (a zero or a subnormal).
pub open spec fn significand(x: u64) -> nat {
    if exponent_field(x) == 0 {
        fraction(x)
    } else {
        (HIDDEN + fraction(x)) as nat
    }
}

/// The power of two by which the significand is scaled, relative to 2^-1074.
pub open spec fn binade(x: u64) -> nat {
    if exponent_field(x) == 0 {
        0
    } else {
        (exponent_field(x) - 1) as nat
    }
}

/// The absolute value in units of 2^-1074.
pub open spec fn units(x: u64) -> nat {
    significand(x) * pow2(binade(x))
}

/// The signed value in units of 2^-1074. Both zeros have value 0.
pub open spec fn value(x: u64) -> int {
    if spec_is_negative(x) {
        -(units(x) as int)
    } else {
        units(x) as int
    }
}

/// `a < b` as IEEE-754 defines it: false when either side is a NaN.
pub open spec fn spec_lt(a: u64, b: u64) -> bool {
    !spec_is_nan(a) && !spec_is_nan(b) && value(a) < value(b)
}

/// `a >= b` as IEEE-754 defines it: false when either side is a NaN.
pub open spec fn spec_ge(a: u64, b: u64) -> bool {
    !spec_is_nan(a) && !spec_is_nan(b) && value(a) >= value(b)
}

/// A pattern that is the only one for its number: no NaN, and not the
/// negative zero.
pub open spec fn canonical(x: u64) -> bool {
    !spec_is_nan(x) && x != SIGN
}

/// The canonical pattern of the number that is `amount` units of 2^-1074.
pub open spec fn pattern_of(amount: int) -> u64 {
    choose|x: u64| canonical(x) && value(x) == amount
}

/// Magnitudes are ordered as the numbers they encode: a larger magnitude
/// pattern is a larger absolute value.
pub proof fn lemma_units_increase(a: u64, b: u64)
    requires
        magnitude(a) < magnitude(b),
    ensures
        units(a) < units(b),
{
    let ea = exponent_field(a);
    let eb = exponent_field(b);
    let fa = fraction(a);
    let fb = fraction(b);
    let h = HIDDEN as int;
    lemma_fundamental_div_mod(magnitude(a) as int, h);
    lemma_fundamental_div_mod(magnitude(b) as int, h);
    assert(ea <= eb) by (nonlinear_arith)
        requires
            magnitude(a) < magnitude(b),
            ea == magnitude(a) as int / h,
            eb == magnitude(b) as int / h,
            h > 0,
    ;
    lemma_pow2_pos(binade(a));
    lemma_pow2_pos(binade(b));
    if ea == eb {
        assert(fa < fb) by (nonlinear_arith)
            requires
                magnitude(a) as int == h * (ea as int) + fa,
                magnitude(b) as int == h * (ea as int) + fb,
                magnitude(a) < magnitude(b),
        ;
        lemma_mul_strict_inequality(
            significand(a) as int,
            significand(b) as int,
            pow2(binade(a)) as int,
        );
    } else if ea == 0 {
        // A subnormal lies below the first normal binade.
        lemma2_to64();
        let pb = pow2(binade(b)) as int;
        assert(fa * 1 < (h + fb) * pb) by (nonlinear_arith)
            requires
                0 <= fa < h,
                0 <= fb,
                1 <= pb,
        ;
    } else {
        // (2^52 + fa) * 2^(ea-1) < 2^53 * 2^(ea-1) = 2^52 * 2^ea <= 2^52 * 2^(eb-1).
        let pa = pow2(binade(a)) as int;
        let pb = pow2(binade(b)) as int;
        lemma_pow2_adds(binade(a), 1);
        lemma2_to64();
        assert(pow2((binade(a) + 1) as nat) <= pow2(binade(b))) by {
            if binade(a) + 1 < binade(b) {
                lemma_pow2_strictly_increases((binade(a) + 1) as nat, binade(b));
            }
        }
        assert(2 * pa <= pb);
        assert((h + fa) * pa < (h + fb) * pb) by (nonlinear_arith)
            requires
                0 <= fa < h,
                0 <= fb,
                0 < pa,
                2 * pa <= pb,
        ;
    }
}

/// Only the two zeros have absolute value zero.
pub proof fn lemma_units_zero(x: u64)
    ensures
        units(x) == 0 <==> magnitude(x) == 0,
{
    let h = HIDDEN as int;
    lemma_fundamental_div_mod(magnitude(x) as int, h);
    lemma_pow2_pos(binade(x));
    if magnitude(x) == 0 {
        assert(exponent_field(x) == 0);
        assert(fraction(x) == 0);
        assert(units(x) == 0) by (nonlinear_arith)
            requires
                units(x) == 0 * pow2(binade(x)),
        ;
    } else {
        assert(significand(x) > 0) by {
            if exponent_field(x) == 0 {
                assert(magnitude(x) as int == h * 0 + fraction(x));
            }
        }
        lemma_mul_strictly_positive(significand(x) as int, pow2(binade(x)) as int);
    }
}

/// Distinct canonical patterns are distinct numbers, so a canonical pattern
/// is the pattern of its own value.
pub proof fn lemma_pattern_unique(x: u64)
    requires
        canonical(x),
    ensures
        pattern_of(value(x)) == x,
{
    let y = pattern_of(value(x));
    assert(canonical(y) && value(y) == value(x));
    lemma_units_zero(x);
    lemma_units_zero(y);
    if magnitude(x) < magnitude(y) {
        lemma_units_increase(x, y);
    }
    if magnitude(y) < magnitude(x) {
        lemma_units_increase(y, x);
    }
}

/// A normal number put together from its exponent field and significand
/// reads back as `significand * 2^(exponent - 1)` units.
pub proof fn lemma_compose(exponent: u64, significand: u64)
    requires
        1 <= exponent < 2047,
        HIDDEN <= significand < 2 * HIDDEN,
    ensures
        exponent * HIDDEN + (significand - HIDDEN) < INFINITE,
        units((exponent * HIDDEN + (significand - HIDDEN)) as u64) == significand * pow2(
            (exponent - 1) as nat,
        ),
{
    let h = HIDDEN as int;
    let low = significand - HIDDEN;
    assert(exponent * h + low < 2047 * h) by (nonlinear_arith)
        requires
            1 <= exponent < 2047,
            0 <= low < h,
            h > 0,
    ;
    let x = (exponent * HIDDEN + low) as u64;
    assert(magnitude(x) == x);
    lemma_fundamental_div_mod_converse_div(x as int, h, exponent as int, low);
    lemma_fundamental_div_mod_converse_mod(x as int, h, exponent as int, low);
}

/// Whether `x` is a NaN.
pub fn is_nan(x: u64) -> (r: bool)
    ensures
        r == spec_is_nan(x),
{
    let m: u64 = if x >= SIGN { x - SIGN } else { x };
    m > INFINITE
}

/// `a < b` in binary64: false when either side is a NaN, and the two zeros
/// are equal.
pub fn lt(a: u64, b: u64) -> (r: bool)
    ensures
        r == spec_lt(a, b),
{
    if is_nan(a) || is_nan(b) {
        return false;
    }
    let ma: u64 = if a >= SIGN { a - SIGN } else { a };
    let mb: u64 = if b >= SIGN { b - SIGN } else { b };
    proof {
        lemma_units_zero(a);
        lemma_units_zero(b);
        if ma < mb {
            lemma_units_increase(a, b);
        }
        if mb < ma {
            lemma_units_increase(b, a);
        }
    }
    if a >= SIGN {
        if b >= SIGN {
            mb < ma
        } else {
            ma != 0 || mb != 0
        }
    } else {
        if b >= SIGN {
            false
        } else {
            ma < mb
        }
    }
}

/// `a >= b` in binary64: false when either side is a NaN.
pub fn ge(a: u64, b: u64) -> (r: bool)
    ensures
        r == spec_ge(a, b),
{
    if is_nan(a) || is_nan(b) {
        false
    } else {
        !lt(a, b)
    }
}

} // verus!
