//! Doubling numbers: it is exact, and commutes with rounding where digits are kept.
use vstd::prelude::*;

use crate::rounding::{INFINITE, OCTAVE};
use crate::scalar::{zero, Scalar};

verus! {

/// Codes an octave apart stand for a value and its double.
pub(crate) proof fn lemma_octave(code: int)
    requires
        code >= OCTAVE,
    ensures
        crate::rounding::grid(code + OCTAVE) == 2 * crate::rounding::grid(code),
{
    let mantissa = code % OCTAVE as int + OCTAVE;
    let octave = code / OCTAVE as int;
    assert((code + OCTAVE) % OCTAVE as int == code % OCTAVE as int);
    assert((code + OCTAVE) / OCTAVE as int == octave + 1);
    crate::rounding::lemma_p2_step(octave - 1);
    let place = crate::rounding::p2(octave - 1);
    assert(mantissa * (2 * place) == 2 * (mantissa * place)) by (nonlinear_arith);
}

/// Rounding commutes with doubling, away from the ends of the range.
pub(crate) proof fn lemma_double_nearest(num: int, den: int)
    requires
        num >= 0,
        den > 0,
        crate::rounding::nearest(num, den) > OCTAVE,
        crate::rounding::nearest(2 * num, den) < INFINITE,
    ensures
        crate::rounding::nearest(2 * num, den) == crate::rounding::nearest(num, den) + OCTAVE,
{
    let code = crate::rounding::nearest(num, den);
    let last = INFINITE as int - OCTAVE;
    crate::rounding::lemma_nearest_exists(num, den);
    lemma_octave(code - 1);
    lemma_octave(code);
    lemma_octave(code + 1);
    let (down, here, up) = (
        crate::rounding::grid(code - 1),
        crate::rounding::grid(code),
        crate::rounding::grid(code + 1),
    );
    assert((2 * down + 2 * here) * den == 2 * ((down + here) * den)) by (nonlinear_arith);
    assert((2 * here + 2 * up) * den == 2 * ((here + up) * den)) by (nonlinear_arith);
    if code <= last {
        crate::rounding::lemma_nearest_unique(2 * num, den, code + OCTAVE);
    } else {
        lemma_octave(last);
        crate::rounding::lemma_grid_monotone(last, code - 1);
        crate::rounding::lemma_grid_monotone(code - 1, code);
        let top = crate::rounding::grid(last);
        assert((2 * top) * den <= (down + here) * den) by (nonlinear_arith)
            requires
                2 * top <= down + here,
                den > 0,
        ;
        crate::order::lemma_nearest_bounds(2 * num, den, INFINITE as int);
    }
}

/// Rounding a ratio does not depend on how it is reduced.
pub(crate) proof fn lemma_ratio_nearest(num: int, den: int)
    requires
        num >= 0,
        den > 0,
    ensures
        crate::rounding::nearest(2 * num, 2 * den) == crate::rounding::nearest(num, den),
{
    let code = crate::rounding::nearest(num, den);
    crate::rounding::lemma_nearest_exists(num, den);
    let (down, here, up) = (
        crate::rounding::grid(code - 1),
        crate::rounding::grid(code),
        crate::rounding::grid(code + 1),
    );
    assert((down + here) * (2 * den) == 2 * ((down + here) * den)) by (nonlinear_arith);
    assert((here + up) * (2 * den) == 2 * ((here + up) * den)) by (nonlinear_arith);
    crate::rounding::lemma_nearest_unique(2 * num, 2 * den, code);
}

/// `b` is exactly twice `a`.
pub open spec fn twice(a: Scalar, b: Scalar) -> bool {
    &&& a.finite()
    &&& b.finite()
    &&& b.units() == 2 * a.units()
}

/// The smallest number whose double rounds as it does.
pub open spec fn ordinary() -> int {
    2 * OCTAVE
}

pub(crate) proof fn lemma_ordinary(num: int, den: int)
    requires
        num >= ordinary() * den,
        den > 0,
    ensures
        num >= 0,
        crate::rounding::nearest(num, den) > OCTAVE,
{
    crate::rounding::lemma_p2_values();
    vstd::arithmetic::power2::lemma2_to64();
    assert(crate::rounding::grid(2 * OCTAVE) == ordinary()) by {
        lemma_octave(OCTAVE as int);
        crate::rounding::lemma_grid_code(0, OCTAVE as int);
    }
    assert(ordinary() * den >= 0) by (nonlinear_arith)
        requires
            ordinary() >= 0,
            den > 0,
    ;
    crate::order::lemma_nearest_bounds(num, den, 2 * OCTAVE);
}

/// Twice the terms make twice the sum.
pub(crate) proof fn lemma_twice_sum(a: Scalar, b: Scalar, x: Scalar, y: Scalar)
    requires
        twice(a, x),
        twice(b, y),
        a.units() >= 0,
        b.units() >= 0,
    ensures
        x.add(y) == Scalar::signed_infinity(false) || twice(a.add(b), x.add(y)),
        a.add(b).finite() ==> a.add(b).units() >= 0,
{
    let sum = a.units() + b.units();
    crate::order::lemma_sum_bounds(a, b, zero());
    crate::order::lemma_order_of_values(zero(), a.add(b));
    if sum < ordinary() {
        crate::rounding::lemma_p2_values();
        vstd::arithmetic::power2::lemma2_to64();
        assert(sum * 1 == sum && sum * 2 == 2 * sum);
        crate::order::lemma_sum_exact(a, b, sum, 0);
        crate::order::lemma_sum_exact(x, y, sum, 1);
    } else {
        lemma_twice_large_sum(a, b, x, y);
    }
}

proof fn lemma_twice_large_sum(a: Scalar, b: Scalar, x: Scalar, y: Scalar)
    requires
        twice(a, x),
        twice(b, y),
        a.units() + b.units() >= ordinary(),
    ensures
        x.add(y) == Scalar::signed_infinity(false) || twice(a.add(b), x.add(y)),
{
    let sum = a.units() + b.units();
    lemma_ordinary(sum, 1);
    crate::order::lemma_nearest_bounds(sum, 1, 0);
    crate::order::lemma_nearest_bounds(2 * sum, 1, 0);
    if crate::rounding::nearest(2 * sum, 1) < INFINITE {
        lemma_double_nearest(sum, 1);
        lemma_octave(crate::rounding::nearest(sum, 1));
    }
}

/// A factor of twice the size makes twice the product.
pub(crate) proof fn lemma_twice_product(d: Scalar, a: Scalar, x: Scalar)
    requires
        d.finite(),
        d.units() > 0,
        twice(a, x),
        a.units() > 0,
        d.units() * a.units() >= ordinary() * crate::scalar::one_units(),
        d.mul(x).finite(),
    ensures
        twice(d.mul(a), d.mul(x)),
        d.mul(a).units() > 0,
{
    let unit = crate::scalar::one_units();
    crate::rounding::lemma_p2_pos(149);
    crate::scalar::lemma_self_rounding(d);
    crate::scalar::lemma_self_rounding(a);
    crate::scalar::lemma_self_rounding(x);
    let num = d.units() * a.units();
    assert(d.units() * (2 * a.units()) == 2 * num) by (nonlinear_arith)
        requires
            num == d.units() * a.units(),
    ;
    lemma_ordinary(num, unit);
    crate::order::lemma_nearest_bounds(num, unit, 0);
    crate::order::lemma_nearest_bounds(2 * num, unit, 0);
    lemma_double_nearest(num, unit);
    let code = crate::rounding::nearest(num, unit);
    lemma_octave(code);
    crate::rounding::lemma_grid_monotone(0, code);
}

/// A dividend of twice the size makes twice the quotient.
pub(crate) proof fn lemma_twice_quotient(a: Scalar, x: Scalar, n: Scalar)
    requires
        twice(a, x),
        a.units() >= 0,
        n.finite(),
        n.units() > 0,
        a.div(n).magnitude() > OCTAVE,
        !a.div(n).nan(),
        x.div(n).finite(),
    ensures
        twice(a.div(n), x.div(n)),
{
    let unit = crate::scalar::one_units();
    crate::rounding::lemma_p2_pos(149);
    crate::scalar::lemma_self_rounding(a);
    crate::scalar::lemma_self_rounding(x);
    let num = a.size() * unit;
    assert((2 * a.size()) * unit == 2 * num && num >= 0) by (nonlinear_arith)
        requires
            num == a.size() * unit,
            a.size() >= 0,
            unit > 0,
    ;
    if !a.zero() {
        crate::order::lemma_nearest_bounds(num, n.size(), 0);
        crate::order::lemma_nearest_bounds(2 * num, n.size(), 0);
        lemma_double_nearest(num, n.size());
        lemma_octave(crate::rounding::nearest(num, n.size()));
    }
}

/// Twice both makes the same quotient.
pub(crate) proof fn lemma_same_quotient(a: Scalar, x: Scalar, b: Scalar, y: Scalar)
    requires
        twice(a, x),
        twice(b, y),
        a.units() > 0,
        b.units() > 0,
    ensures
        x.div(y) == a.div(b),
{
    let unit = crate::scalar::one_units();
    crate::rounding::lemma_p2_pos(149);
    crate::scalar::lemma_self_rounding(a);
    crate::scalar::lemma_self_rounding(b);
    crate::scalar::lemma_self_rounding(x);
    crate::scalar::lemma_self_rounding(y);
    let num = a.size() * unit;
    assert((2 * a.size()) * unit == 2 * num && num >= 0) by (nonlinear_arith)
        requires
            num == a.size() * unit,
            a.size() >= 0,
            unit > 0,
    ;
    lemma_ratio_nearest(num, b.size());
}

} // verus!
