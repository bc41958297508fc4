//! The order of double-precision numbers, on their IEEE 754 bits.
use vstd::arithmetic::power2::{
    lemma_pow2_pos, lemma_pow2_strictly_increases, lemma_pow2_unfold, pow2,
};
use vstd::prelude::*;

verus! {

/// The bits of a negative number are at least this.
pub const SIGN: u64 = 0x8000_0000_0000_0000;

/// The bits of positive infinity; above them, up to the sign, lie the values that are not numbers.
pub const INFINITY: u64 = 0x7ff0_0000_0000_0000;

/// The bits without the sign.
pub open spec fn magnitude(bits: u64) -> int {
    if bits >= SIGN {
        bits - SIGN
    } else {
        bits as int
    }
}

/// The bits are not those of a number.
pub open spec fn is_nan(bits: u64) -> bool {
    magnitude(bits) > INFINITY
}

/// A number that orders the bits as the numbers they stand for, both zeros alike.
pub open spec fn rank(bits: u64) -> int {
    if bits >= SIGN {
        -magnitude(bits)
    } else {
        magnitude(bits)
    }
}

/// The first number is less than the second; false where one is not a number.
pub open spec fn less(a: u64, b: u64) -> bool {
    !is_nan(a) && !is_nan(b) && rank(a) < rank(b)
}

/// Whether the first number is less than the second; false where one is not a number.
pub fn is_less(a: u64, b: u64) -> (r: bool)
    ensures
        r == less(a, b),
{
    let a_negative = a >= SIGN;
    let b_negative = b >= SIGN;
    let x: u64 = if a_negative {
        a - SIGN
    } else {
        a
    };
    let y: u64 = if b_negative {
        b - SIGN
    } else {
        b
    };
    if x > INFINITY || y > INFINITY {
        return false;
    }
    if a_negative {
        if b_negative {
            y < x
        } else {
            x > 0 || y > 0
        }
    } else if b_negative {
        false
    } else {
        x < y
    }
}

/// The least magnitude with an exponent: one more than the greatest fraction.
pub const FRACTION: u64 = 0x10_0000_0000_0000;

/// The bits are those of a finite number.
pub open spec fn is_finite(bits: u64) -> bool {
    magnitude(bits) < INFINITY
}

/// The number that a magnitude stands for, counted in the least number above zero (which is two to the
/// power of -1074): the fraction, with its leading one where there is an exponent, scaled by the exponent.
pub open spec fn magnitude_units(m: int) -> int {
    let exponent = m / FRACTION as int;
    let fraction = m % FRACTION as int;
    if exponent == 0 {
        fraction
    } else {
        (FRACTION + fraction) * pow2((exponent - 1) as nat)
    }
}

/// The finite number that the bits stand for, counted in the least number above zero.
pub open spec fn units(bits: u64) -> int {
    if bits >= SIGN {
        -magnitude_units(magnitude(bits))
    } else {
        magnitude_units(magnitude(bits))
    }
}

/// A number, counted in the least number above zero, is less than the one that the bits stand for; false
/// where that is not a number.
pub open spec fn is_below(n: int, bits: u64) -> bool {
    !is_nan(bits) && if is_finite(bits) {
        n < units(bits)
    } else {
        bits < SIGN
    }
}

/// A number, counted in the least number above zero, is greater than the one that the bits stand for;
/// false where that is not a number.
pub open spec fn is_above(n: int, bits: u64) -> bool {
    !is_nan(bits) && if is_finite(bits) {
        n > units(bits)
    } else {
        bits >= SIGN
    }
}

/// A greater magnitude stands for a greater number.
proof fn magnitude_units_increase(a: int, b: int)
    requires
        0 <= a < b,
    ensures
        0 <= magnitude_units(a) < magnitude_units(b),
{
    let f = FRACTION as int;
    let (ea, fa) = (a / f, a % f);
    let (eb, fb) = (b / f, b % f);
    assert(ea <= eb && 0 <= fa < f && 0 <= fb < f);
    if ea >= 1 {
        lemma_pow2_pos((ea - 1) as nat);
    }
    if eb >= 1 {
        lemma_pow2_pos((eb - 1) as nat);
    }
    if ea == eb {
        assert(fa < fb);
        if ea > 0 {
            let q = pow2((ea - 1) as nat) as int;
            assert(0 <= (f + fa) * q && (f + fa) * q < (f + fb) * q) by (nonlinear_arith)
                requires
                    q > 0,
                    0 <= fa < fb,
                    f > 0,
            ;
        }
    } else {
        let q = pow2((eb - 1) as nat) as int;
        assert((f + fb) * q >= f * q) by (nonlinear_arith)
            requires
                q > 0,
                fb >= 0,
        ;
        if ea == 0 {
            assert(f * q >= f) by (nonlinear_arith)
                requires
                    q >= 1,
                    f > 0,
            ;
        } else {
            let p = pow2((ea - 1) as nat) as int;
            lemma_pow2_unfold(ea as nat);
            assert(pow2(ea as nat) == 2 * p);
            if ea < eb - 1 {
                lemma_pow2_strictly_increases(ea as nat, (eb - 1) as nat);
            }
            assert(0 <= (f + fa) * p && (f + fa) * p < f * q) by (nonlinear_arith)
                requires
                    0 <= fa < f,
                    p > 0,
                    q >= 2 * p,
            ;
        }
    }
}

/// Finite numbers are ordered as their ranks.
proof fn units_follow_ranks(a: u64, b: u64)
    ensures
        units(a) < units(b) <==> rank(a) < rank(b),
{
    let x = magnitude(a);
    let y = magnitude(b);
    assert(magnitude_units(0) == 0);
    if x < y {
        magnitude_units_increase(x, y);
    }
    if y < x {
        magnitude_units_increase(y, x);
    }
    if 0 < x {
        magnitude_units_increase(0, x);
    }
    if 0 < y {
        magnitude_units_increase(0, y);
    }
}

/// Comparing bits compares the numbers that they stand for.
pub(crate) proof fn less_compares_numbers(n: int, a: u64, b: u64)
    requires
        is_finite(a),
        units(a) == n,
    ensures
        less(a, b) <==> is_below(n, b),
        less(b, a) <==> is_above(n, b),
{
    units_follow_ranks(a, b);
    units_follow_ranks(b, a);
}

/// A number that is not less than another is not less than what is no greater than that, and a number
/// that is not greater than another is not greater than what is no less than that.
pub(crate) proof fn comparisons_chain(n: int, a: u64, b: u64)
    requires
        !is_nan(a),
    ensures
        !is_below(n, a) && !less(a, b) ==> !is_below(n, b),
        !is_above(n, a) && !less(b, a) ==> !is_above(n, b),
{
    units_follow_ranks(a, b);
    units_follow_ranks(b, a);
}

} // verus!
