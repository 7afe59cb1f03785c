//! Laws of single-precision arithmetic.
use vstd::prelude::*;

use crate::rounding::{INFINITE, OCTAVE};
use crate::scalar::{scalar, zero, Scalar};

verus! {

/// The order of a sum's terms does not matter.
pub proof fn lemma_add_commutes(a: Scalar, b: Scalar)
    ensures
        a.add(b) == b.add(a),
{
}

/// The order of a product's factors does not matter.
pub proof fn lemma_mul_commutes(a: Scalar, b: Scalar)
    ensures
        a.mul(b) == b.mul(a),
{
    assert(a.size() * b.size() == b.size() * a.size()) by (nonlinear_arith);
}

/// Numbers compare as their values do.
pub proof fn lemma_order_of_values(a: Scalar, b: Scalar)
    requires
        !a.nan(),
        !b.nan(),
    ensures
        a.lt(b) <==> a.units() < b.units(),
        a.le(b) <==> a.units() <= b.units(),
        a.same(b) <==> a.units() == b.units(),
{
    let (m, n) = (a.magnitude(), b.magnitude());
    crate::rounding::lemma_grid_monotone(0, m);
    crate::rounding::lemma_grid_monotone(0, n);
    if m <= n {
        crate::rounding::lemma_grid_monotone(m, n);
    } else {
        crate::rounding::lemma_grid_monotone(n, m);
    }
}

/// A number moved between two bounds lies between them.
pub proof fn lemma_clamp_between(x: Scalar, low: Scalar, high: Scalar)
    requires
        !x.nan(),
        low.le(high),
    ensures
        low.le(x.clamp(low, high)),
        x.clamp(low, high).le(high),
{
}

/// Rounding keeps to the side of any representable bound.
pub proof fn lemma_nearest_bounds(num: int, den: int, code: int)
    requires
        num >= 0,
        den > 0,
        0 <= code <= INFINITE,
    ensures
        crate::rounding::rounds_to(num, den, crate::rounding::nearest(num, den)),
        num <= crate::rounding::grid(code) * den ==> crate::rounding::nearest(num, den) <= code,
        num >= crate::rounding::grid(code) * den ==> crate::rounding::nearest(num, den) >= code,
{
    let result = crate::rounding::nearest(num, den);
    let exact = crate::rounding::grid(code) * den;
    crate::rounding::lemma_nearest_exists(num, den);
    crate::rounding::lemma_grid_exact(code, den);
    if num <= exact {
        assert(num * den <= exact * den) by (nonlinear_arith)
            requires
                num <= exact,
                den > 0,
        ;
        crate::rounding::lemma_rounding_monotone(num, den, result, exact, den, code);
    }
    if num >= exact {
        assert(exact * den <= num * den) by (nonlinear_arith)
            requires
                num >= exact,
                den > 0,
        ;
        crate::rounding::lemma_rounding_monotone(exact, den, code, num, den, result);
    }
}

/// A rounded value with a sign keeps to the side of any representable bound.
proof fn lemma_rounded_bounds(negative: bool, num: int, den: int, bound: Scalar)
    requires
        num >= 0,
        den > 0,
        !bound.nan(),
    ensures
        !crate::scalar::rounded(negative, num, den).nan(),
        ({
            let value = if negative { -num } else { num };
            let result = crate::scalar::rounded(negative, num, den);
            &&& value <= bound.units() * den ==> result.le(bound)
            &&& value >= bound.units() * den ==> bound.le(result)
        }),
{
    let result = crate::scalar::rounded(negative, num, den);
    lemma_nearest_bounds(num, den, bound.magnitude());
    crate::rounding::lemma_grid_monotone(0, bound.magnitude());
    let size = bound.size();
    assert(size * den >= 0) by (nonlinear_arith)
        requires
            size >= 0,
            den > 0,
    ;
    assert((-size) * den == -(size * den)) by (nonlinear_arith);
    assert(size * den == 0 ==> size == 0) by (nonlinear_arith)
        requires
            den > 0,
    ;
    if size == 0 {
        if bound.magnitude() > 0 {
            crate::rounding::lemma_grid_monotone(0, bound.magnitude());
        }
        if num == 0 {
            lemma_nearest_bounds(num, den, 0);
        }
    }
}

/// A sum lies on the same side of any bound as the exact sum.
pub proof fn lemma_sum_bounds(a: Scalar, b: Scalar, bound: Scalar)
    requires
        a.finite(),
        b.finite(),
        !bound.nan(),
    ensures
        !a.add(b).nan(),
        a.units() + b.units() <= bound.units() ==> a.add(b).le(bound),
        a.units() + b.units() >= bound.units() ==> bound.le(a.add(b)),
{
    let sum = a.units() + b.units();
    assert(bound.units() * 1 == bound.units());
    if sum == 0 {
        lemma_order_of_values(a.add(b), bound);
    } else if sum < 0 {
        lemma_rounded_bounds(true, -sum, 1, bound);
    } else {
        lemma_rounded_bounds(false, sum, 1, bound);
    }
}

/// A product lies on the same side of any bound as the exact product.
pub proof fn lemma_product_bounds(a: Scalar, b: Scalar, bound: Scalar)
    requires
        a.finite(),
        b.finite(),
        !bound.nan(),
    ensures
        !a.mul(b).nan(),
        a.units() * b.units() <= bound.units() * crate::scalar::one_units() ==> a.mul(b).le(bound),
        a.units() * b.units() >= bound.units() * crate::scalar::one_units() ==> bound.le(a.mul(b)),
{
    let one = crate::scalar::one_units();
    crate::rounding::lemma_p2_pos(149);
    crate::scalar::lemma_self_rounding(a);
    crate::scalar::lemma_self_rounding(b);
    let (m, n) = (a.size(), b.size());
    assert((-m) * n == -(m * n) && m * (-n) == -(m * n) && (-m) * (-n) == m * n) by (nonlinear_arith);
    assert(m * n >= 0) by (nonlinear_arith)
        requires
            m >= 0,
            n >= 0,
    ;
    if a.zero() || b.zero() {
        assert(m * n == 0) by (nonlinear_arith)
            requires
                m == 0 || n == 0,
        ;
        let u = bound.units();
        assert((u * one >= 0 ==> u >= 0) && (u * one <= 0 ==> u <= 0)) by (nonlinear_arith)
            requires
                one > 0,
        ;
        lemma_order_of_values(a.mul(b), bound);
    } else {
        lemma_rounded_bounds(a.negative() != b.negative(), m * n, one, bound);
    }
}

/// A quotient by a positive number lies on the same side of any bound as the
/// exact quotient.
pub proof fn lemma_quotient_bounds(a: Scalar, b: Scalar, bound: Scalar)
    requires
        a.finite(),
        b.finite(),
        b.units() > 0,
        !bound.nan(),
    ensures
        !a.div(b).nan(),
        a.units() * crate::scalar::one_units() <= bound.units() * b.units() ==> a.div(b).le(bound),
        a.units() * crate::scalar::one_units() >= bound.units() * b.units() ==> bound.le(a.div(b)),
{
    let one = crate::scalar::one_units();
    crate::rounding::lemma_p2_pos(149);
    crate::scalar::lemma_self_rounding(a);
    crate::scalar::lemma_self_rounding(b);
    let m = a.size();
    assert((-m) * one == -(m * one)) by (nonlinear_arith);
    assert(m * one >= 0) by (nonlinear_arith)
        requires
            m >= 0,
            one > 0,
    ;
    if a.zero() {
        assert(m * one == 0) by (nonlinear_arith)
            requires
                m == 0,
        ;
        let (u, v) = (bound.units(), b.units());
        assert((u * v >= 0 ==> u >= 0) && (u * v <= 0 ==> u <= 0)) by (nonlinear_arith)
            requires
                v > 0,
        ;
        lemma_order_of_values(a.div(b), bound);
    } else {
        lemma_rounded_bounds(a.negative(), m * one, b.size(), bound);
    }
}

/// Rounding keeps the order of values with signs.
proof fn lemma_rounded_monotone(a_negative: bool, a: int, b_negative: bool, b: int, den: int)
    requires
        a >= 0,
        b >= 0,
        den > 0,
        (if a_negative { -a } else { a }) <= (if b_negative { -b } else { b }),
    ensures
        crate::scalar::rounded(a_negative, a, den).le(crate::scalar::rounded(b_negative, b, den)),
{
    let (x, y) = (crate::rounding::nearest(a, den), crate::rounding::nearest(b, den));
    lemma_nearest_bounds(a, den, 0);
    lemma_nearest_bounds(b, den, 0);
    if a <= b {
        assert(a * den <= b * den) by (nonlinear_arith)
            requires
                a <= b,
                den > 0,
        ;
        crate::rounding::lemma_rounding_monotone(a, den, x, b, den, y);
    } else {
        assert(b * den <= a * den) by (nonlinear_arith)
            requires
                b <= a,
                den > 0,
        ;
        crate::rounding::lemma_rounding_monotone(b, den, y, a, den, x);
    }
}

/// Adding the same number keeps order.
pub proof fn lemma_sum_monotone(a: Scalar, b: Scalar, term: Scalar)
    requires
        a.finite(),
        b.finite(),
        term.finite(),
        a.le(b),
    ensures
        a.add(term).le(b.add(term)),
{
    lemma_order_of_values(a, b);
    let (m, n) = (a.units() + term.units(), b.units() + term.units());
    if m == 0 {
        lemma_sum_bounds(b, term, a.add(term));
    } else if n == 0 {
        lemma_sum_bounds(a, term, b.add(term));
    } else {
        lemma_rounded_monotone(
            m < 0,
            if m < 0 { -m } else { m },
            n < 0,
            if n < 0 { -n } else { n },
            1,
        );
    }
}

/// Multiplying by the same number, not below zero, keeps order.
pub proof fn lemma_product_monotone(a: Scalar, b: Scalar, factor: Scalar)
    requires
        a.finite(),
        b.finite(),
        factor.finite(),
        factor.units() >= 0,
        a.le(b),
    ensures
        a.mul(factor).le(b.mul(factor)),
{
    lemma_order_of_values(a, b);
    let one = crate::scalar::one_units();
    crate::rounding::lemma_p2_pos(149);
    crate::scalar::lemma_self_rounding(a);
    crate::scalar::lemma_self_rounding(b);
    crate::scalar::lemma_self_rounding(factor);
    let f = factor.size();
    let (m, n) = (a.size() * f, b.size() * f);
    assert(m >= 0 && n >= 0 && (a.size() <= b.size() ==> m <= n) && (b.size() <= a.size() ==> n <= m)) by (nonlinear_arith)
        requires
            m == a.size() * f,
            n == b.size() * f,
            a.size() >= 0,
            b.size() >= 0,
            f >= 0,
    ;
    if factor.zero() {
    } else if a.zero() {
        assert(b.units() * factor.units() >= 0) by (nonlinear_arith)
            requires
                b.units() >= 0,
                factor.units() >= 0,
        ;
        lemma_product_bounds(b, factor, a.mul(factor));
    } else if b.zero() {
        assert(a.units() * factor.units() <= 0) by (nonlinear_arith)
            requires
                a.units() <= 0,
                factor.units() >= 0,
        ;
        lemma_product_bounds(a, factor, b.mul(factor));
    } else {
        lemma_rounded_monotone(a.negative(), m, b.negative(), n, one);
    }
}

/// Dividing by a positive number keeps order.
pub proof fn lemma_quotient_monotone(a: Scalar, b: Scalar, by: Scalar)
    requires
        a.finite(),
        b.finite(),
        by.finite(),
        by.units() > 0,
        a.le(b),
    ensures
        a.div(by).le(b.div(by)),
{
    lemma_order_of_values(a, b);
    let one = crate::scalar::one_units();
    crate::rounding::lemma_p2_pos(149);
    crate::scalar::lemma_self_rounding(a);
    crate::scalar::lemma_self_rounding(b);
    crate::scalar::lemma_self_rounding(by);
    let (m, n) = (a.size() * one, b.size() * one);
    assert(m >= 0 && n >= 0 && (a.size() <= b.size() ==> m <= n) && (b.size() <= a.size() ==> n <= m)) by (nonlinear_arith)
        requires
            m == a.size() * one,
            n == b.size() * one,
            a.size() >= 0,
            b.size() >= 0,
            one > 0,
    ;
    if a.zero() {
        assert(b.units() * one >= 0) by (nonlinear_arith)
            requires
                b.units() >= 0,
                one > 0,
        ;
        lemma_quotient_bounds(b, by, a.div(by));
    } else if b.zero() {
        assert(a.units() * one <= 0) by (nonlinear_arith)
            requires
                a.units() <= 0,
                one > 0,
        ;
        lemma_quotient_bounds(a, by, b.div(by));
    } else {
        lemma_rounded_monotone(a.negative(), m, b.negative(), n, by.size());
    }
}

/// Rounding down to whole numbers keeps order.
pub proof fn lemma_floor_monotone(a: Scalar, b: Scalar)
    requires
        a.finite(),
        b.finite(),
        a.le(b),
    ensures
        a.floor().le(b.floor()),
{
    lemma_order_of_values(a, b);
    let one = crate::scalar::one_units();
    crate::rounding::lemma_p2_pos(149);
    crate::scalar::lemma_self_rounding(a);
    crate::scalar::lemma_self_rounding(b);
    let up = one - 1;
    let m = if a.negative() { (a.size() + up) / one } else { a.size() / one };
    let n = if b.negative() { (b.size() + up) / one } else { b.size() / one };
    vstd::arithmetic::div_mod::lemma_div_pos_is_pos(a.size(), one);
    vstd::arithmetic::div_mod::lemma_div_pos_is_pos(b.size(), one);
    vstd::arithmetic::div_mod::lemma_div_pos_is_pos(a.size() + up, one);
    vstd::arithmetic::div_mod::lemma_div_pos_is_pos(b.size() + up, one);
    let (p, q) = (m * one, n * one);
    assert(p >= 0 && q >= 0 && (m <= n ==> p <= q) && (n <= m ==> q <= p) && (m == 0 ==> p == 0) && (n == 0 ==> q
        == 0)) by (nonlinear_arith)
        requires
            p == m * one,
            q == n * one,
            m >= 0,
            n >= 0,
            one > 0,
    ;
    if a.negative() && b.negative() {
        vstd::arithmetic::div_mod::lemma_div_is_ordered(b.size() + up, a.size() + up, one);
        assert(n <= m);
    } else if !a.negative() && !b.negative() {
        vstd::arithmetic::div_mod::lemma_div_is_ordered(a.size(), b.size(), one);
        assert(m <= n);
    } else if !a.negative() {
        assert(a.size() == 0 && b.size() == 0);
        vstd::arithmetic::div_mod::lemma_basic_div(0, one);
        vstd::arithmetic::div_mod::lemma_basic_div(up, one);
        assert(m == 0 && n == 0);
    }
    assert((if a.negative() { -p } else { p }) <= (if b.negative() { -q } else { q }));
    lemma_whole_rounded(a.negative(), m);
    lemma_whole_rounded(b.negative(), n);
    lemma_rounded_monotone(a.negative(), p, b.negative(), q, 1);
}

/// A whole number is the rounding of its value, zero included.
proof fn lemma_whole_rounded(negative: bool, count: int)
    requires
        count >= 0,
    ensures
        Scalar::whole(negative, count) == crate::scalar::rounded(negative, count * crate::scalar::one_units(), 1),
{
    if count == 0 {
        assert(count * crate::scalar::one_units() == 0) by (nonlinear_arith)
            requires
                count == 0,
        ;
        crate::rounding::lemma_grid_exact(0, 1);
    }
}

/// Truncating to signed integers keeps order.
pub proof fn lemma_signed_truncation_monotone(a: Scalar, b: Scalar)
    requires
        a.le(b),
    ensures
        a.to_i32() <= b.to_i32(),
{
    lemma_order_of_values(a, b);
    let one = crate::scalar::one_units();
    crate::rounding::lemma_p2_pos(149);
    crate::rounding::lemma_grid_monotone(0, a.magnitude());
    crate::rounding::lemma_grid_monotone(0, b.magnitude());
    vstd::arithmetic::div_mod::lemma_div_pos_is_pos(a.size(), one);
    vstd::arithmetic::div_mod::lemma_div_pos_is_pos(b.size(), one);
    if !a.negative() && !b.negative() {
        vstd::arithmetic::div_mod::lemma_div_is_ordered(a.size(), b.size(), one);
    } else if a.negative() && b.negative() {
        vstd::arithmetic::div_mod::lemma_div_is_ordered(b.size(), a.size(), one);
    } else if !a.negative() {
        vstd::arithmetic::div_mod::lemma_basic_div(0, one);
    }
}

/// The value of a power of two.
pub proof fn lemma_power_of_two(exponent: int)
    requires
        0 <= exponent < 128,
    ensures
        crate::rounding::grid((exponent + 127) * OCTAVE) == crate::rounding::p2(exponent) * crate::scalar::one_units(),
        (exponent + 127) * OCTAVE < INFINITE,
{
    let octave = exponent + 127;
    assert(octave * OCTAVE % OCTAVE as int == 0 && octave * OCTAVE / OCTAVE as int == octave);
    crate::rounding::lemma_p2_values();
    crate::rounding::lemma_p2_adds(23, octave - 1);
    crate::rounding::lemma_p2_adds(exponent, 149);
    assert(crate::rounding::p2(23) * crate::rounding::p2(octave - 1) == OCTAVE * crate::rounding::p2(octave - 1));
}

/// The value of a number written as a whole one.
pub proof fn lemma_whole_value(x: Scalar, n: int, shift: int)
    requires
        x.bits < INFINITE,
        x.bits >= OCTAVE,
        0 <= shift <= 149,
        x.bits as int / OCTAVE as int - 1 + shift == 149,
        x.bits as int % OCTAVE as int + OCTAVE == n * crate::rounding::p2(shift),
    ensures
        x.units() == n * crate::scalar::one_units(),
        x.to_u32() == if n > u32::MAX {
            u32::MAX as int
        } else {
            n
        },
{
    let one = crate::scalar::one_units();
    crate::rounding::lemma_p2_adds(shift, 149 - shift);
    crate::rounding::lemma_p2_pos(149);
    crate::rounding::lemma_p2_pos(shift);
    let (a, b) = (crate::rounding::p2(shift), crate::rounding::p2(149 - shift));
    assert((n * a) * b == n * (a * b)) by (nonlinear_arith);
    assert(n > 0) by (nonlinear_arith)
        requires
            n * a > 0,
            a > 0,
    ;
    vstd::arithmetic::div_mod::lemma_div_multiples_vanish(n, one);
    assert(one * n == n * one) by (nonlinear_arith);
}

/// Truncating keeps order.
pub proof fn lemma_truncation_monotone(a: Scalar, b: Scalar)
    requires
        a.le(b),
    ensures
        a.to_u32() <= b.to_u32(),
{
    lemma_order_of_values(a, b);
    let one = crate::scalar::one_units();
    crate::rounding::lemma_p2_pos(149);
    crate::rounding::lemma_grid_monotone(0, a.magnitude());
    crate::rounding::lemma_grid_monotone(0, b.magnitude());
    vstd::arithmetic::div_mod::lemma_div_pos_is_pos(a.size(), one);
    vstd::arithmetic::div_mod::lemma_div_pos_is_pos(b.size(), one);
    if !a.negative() && !b.negative() {
        vstd::arithmetic::div_mod::lemma_div_is_ordered(a.size(), b.size(), one);
    }
}

/// Rounding down gives nothing larger, rounding up nothing smaller.
pub proof fn lemma_whole_bounds(x: Scalar)
    requires
        !x.nan(),
    ensures
        x.floor().le(x),
        x.le(x.ceil()),
{
    lemma_floor_below(x);
    lemma_floor_below(x.neg());
}

proof fn lemma_floor_below(x: Scalar)
    requires
        !x.nan(),
    ensures
        !x.floor().nan(),
        x.floor().le(x),
{
    if x.finite() {
        let one = crate::scalar::one_units();
        crate::rounding::lemma_p2_pos(149);
        crate::scalar::lemma_self_rounding(x);
        let size = x.size();
        let count = if x.negative() {
            (size + one - 1) / one
        } else {
            size / one
        };
        vstd::arithmetic::div_mod::lemma_fundamental_div_mod(size, one);
        vstd::arithmetic::div_mod::lemma_fundamental_div_mod(size + one - 1, one);
        vstd::arithmetic::div_mod::lemma_mod_bound(size, one);
        vstd::arithmetic::div_mod::lemma_mod_bound(size + one - 1, one);
        assert(one * count == count * one) by (nonlinear_arith);
        vstd::arithmetic::div_mod::lemma_div_pos_is_pos(size, one);
        vstd::arithmetic::div_mod::lemma_div_pos_is_pos(size + one - 1, one);
        if count == 0 {
            assert(count * one == 0) by (nonlinear_arith)
                requires
                    count == 0,
            ;
            lemma_order_of_values(x.floor(), x);
        } else {
            assert(count * one >= 0) by (nonlinear_arith)
                requires
                    count >= 0,
                    one > 0,
            ;
            assert(x.units() * 1 == x.units());
            lemma_rounded_bounds(x.negative(), count * one, 1, x);
        }
    }
}

/// Whole numbers of up to 24 bits are represented exactly.
pub proof fn lemma_small_count(n: u32)
    requires
        n <= 0x100_0000,
    ensures
        Scalar::from_u32(n).units() == n * crate::scalar::one_units(),
        Scalar::from_u32(n).finite(),
        Scalar::from_u32(n).to_u32() == n,
{
    let one = crate::scalar::one_units();
    crate::rounding::lemma_p2_pos(149);
    if n > 0 {
        let code = lemma_on_grid(n as int, 149);
        crate::rounding::lemma_grid_exact(code, 1);
        assert(Scalar::from_u32(n).bits == code);
        vstd::arithmetic::div_mod::lemma_div_multiples_vanish(n as int, one);
        assert(one * n == n * one) by (nonlinear_arith);
    } else {
        assert(n * one == 0) by (nonlinear_arith)
            requires
                n == 0,
        ;
        vstd::arithmetic::div_mod::lemma_small_mod(0, one as nat);
        vstd::arithmetic::div_mod::lemma_basic_div(0, one);
    }
}

/// Up to 24 bits at any place above the last have a code.
pub(crate) proof fn lemma_on_grid(n: int, exponent: int) -> (code: int)
    requires
        0 < n <= 2 * OCTAVE,
        0 <= exponent <= 253,
    ensures
        0 < code <= INFINITE,
        n < 2 * OCTAVE || exponent < 253 ==> code < INFINITE,
        crate::rounding::grid(code) == n * crate::rounding::p2(exponent),
    decreases exponent,
{
    if n >= OCTAVE {
        crate::rounding::lemma_grid_code(exponent, n);
        exponent * OCTAVE + n
    } else if exponent == 0 {
        crate::rounding::lemma_p2_values();
        n
    } else {
        crate::rounding::lemma_p2_step(exponent - 1);
        let half = crate::rounding::p2(exponent - 1);
        assert(n * (2 * half) == (2 * n) * half) by (nonlinear_arith);
        lemma_on_grid(2 * n, exponent - 1)
    }
}

/// A finite magnitude is a number of up to 24 bits at some place.
pub(crate) proof fn lemma_places(x: Scalar) -> (r: (int, int))
    requires
        x.finite(),
    ensures
        0 <= r.0 < 2 * OCTAVE,
        0 <= r.1 <= 253,
        x.size() == r.0 * crate::rounding::p2(r.1),
{
    let code = x.magnitude();
    crate::rounding::lemma_p2_values();
    if code < OCTAVE {
        (code, 0)
    } else {
        (code % OCTAVE as int + OCTAVE, code / OCTAVE as int - 1)
    }
}

/// What a number leaves when it is divided by a power of two is a number.
pub(crate) proof fn lemma_remainder_on_grid(x: Scalar, exponent: int) -> (code: int)
    requires
        x.finite(),
        0 <= exponent,
    ensures
        0 <= code < INFINITE,
        crate::rounding::grid(code) == x.size() % crate::rounding::p2(exponent),
{
    let (m, e) = lemma_places(x);
    let whole = crate::rounding::p2(exponent);
    crate::rounding::lemma_p2_pos(exponent);
    crate::rounding::lemma_p2_pos(e);
    if e >= exponent {
        let up = crate::rounding::p2(e - exponent);
        crate::rounding::lemma_p2_adds(e - exponent, exponent);
        assert(m * (up * whole) == (m * up) * whole) by (nonlinear_arith);
        vstd::arithmetic::div_mod::lemma_mod_multiples_basic(m * up, whole);
        0
    } else {
        let up = crate::rounding::p2(exponent - e);
        let place = crate::rounding::p2(e);
        crate::rounding::lemma_p2_adds(e, exponent - e);
        crate::rounding::lemma_p2_pos(exponent - e);
        vstd::arithmetic::div_mod::lemma_truncate_middle(m, place, up);
        vstd::arithmetic::div_mod::lemma_mod_bound(m, up);
        vstd::arithmetic::div_mod::lemma_mod_decreases(m as nat, up as nat);
        let rest = m % up;
        assert(place * m == m * place && place * rest == rest * place) by (nonlinear_arith);
        if rest == 0 {
            assert(rest * place == 0) by (nonlinear_arith)
                requires
                    rest == 0,
            ;
            0
        } else {
            lemma_on_grid(rest, e)
        }
    }
}

/// Taking the whole part away from a number leaves exactly its fraction.
pub proof fn lemma_fraction_exact(x: Scalar)
    requires
        zero().le(x),
        x.le(scalar(0x4b80_0000)),  // 16777216.0
    ensures
        ({
            let count = x.floor().to_u32();
            let rest = x.sub(Scalar::from_u32(count));
            &&& count == x.units() / crate::scalar::one_units()
            &&& rest.finite()
            &&& rest.units() == x.units() - count * crate::scalar::one_units()
            &&& 0 <= rest.units() < crate::scalar::one_units()
        }),
{
    let one = crate::scalar::one_units();
    let top = scalar(0x4b80_0000);
    crate::rounding::lemma_p2_pos(149);
    vstd::arithmetic::power2::lemma2_to64();
    lemma_power_of_two(24);
    assert(top.units() == 0x100_0000 * one);
    lemma_order_of_values(zero(), x);
    lemma_order_of_values(x, top);
    lemma_order_of_values(zero(), zero());
    crate::scalar::lemma_self_rounding(x);
    let size = x.size();
    let k = size / one;
    vstd::arithmetic::div_mod::lemma_fundamental_div_mod(size, one);
    vstd::arithmetic::div_mod::lemma_mod_bound(size, one);
    vstd::arithmetic::div_mod::lemma_div_pos_is_pos(size, one);
    vstd::arithmetic::div_mod::lemma_div_is_ordered(size, 0x100_0000 * one, one);
    vstd::arithmetic::div_mod::lemma_div_multiples_vanish(0x100_0000, one);
    assert(one * k == k * one && one * 0x100_0000 == 0x100_0000 * one) by (nonlinear_arith);
    lemma_small_count(k as u32);
    if x.negative() {
        assert(size == 0);
        vstd::arithmetic::div_mod::lemma_basic_div(0, one);
        vstd::arithmetic::div_mod::lemma_basic_div(one - 1, one);
    }
    let floor = Scalar::whole(x.negative(), k);
    assert(x.floor() == floor);
    let count = Scalar::from_u32(k as u32);
    if x.negative() {
        assert(floor.to_u32() == 0) by {
            vstd::arithmetic::div_mod::lemma_basic_div(0, one);
        }
    } else {
        assert(floor == count);
    }
    let rest = size % one;
    let code = lemma_remainder_on_grid(x, 149);
    crate::rounding::lemma_grid_exact(code, 1);
    assert(count.neg().units() == -(k * one));
    assert(x.units() + count.neg().units() == rest);
    if rest > 0 {
        assert(x.sub(count) == crate::scalar::rounded(false, rest, 1));
        assert(rest * 1 == rest);
    }
}

/// A sum that takes up to 24 bits is exact.
pub proof fn lemma_sum_exact(a: Scalar, b: Scalar, n: int, exponent: int)
    requires
        a.finite(),
        b.finite(),
        0 <= n <= 2 * OCTAVE,
        0 <= exponent <= 252,
        a.units() + b.units() == n * crate::rounding::p2(exponent) || a.units() + b.units() == -(n
            * crate::rounding::p2(exponent)),
    ensures
        a.add(b).finite(),
        a.add(b).units() == a.units() + b.units(),
{
    let size = n * crate::rounding::p2(exponent);
    if n == 0 {
        assert(size == 0) by (nonlinear_arith)
            requires
                n == 0,
                size == n * crate::rounding::p2(exponent),
        ;
    } else {
        let code = lemma_on_grid(n, exponent);
        crate::rounding::lemma_grid_exact(code, 1);
        assert(size * 1 == size);
        crate::rounding::lemma_grid_monotone(0, code);
    }
}

/// A remainder moved into the range from zero to the divisor lies there.
pub proof fn lemma_rem_euclid_bounds(x: Scalar, by: Scalar)
    requires
        x.finite(),
        by.finite(),
        by.units() > 0,
    ensures
        zero().le(x.rem_euclid(by)),
        x.rem_euclid(by).le(by),
{
    crate::scalar::lemma_self_rounding(x);
    crate::scalar::lemma_self_rounding(by);
    let rest = x.size() % by.size();
    vstd::arithmetic::div_mod::lemma_mod_bound(x.size(), by.size());
    let part = x.rem(by);
    lemma_order_of_values(zero(), by);
    if rest == 0 {
        lemma_order_of_values(part, zero());
    } else {
        assert(by.units() * 1 == by.units() && by.neg().units() * 1 == by.neg().units());
        lemma_rounded_bounds(x.negative(), rest, 1, zero());
        lemma_rounded_bounds(x.negative(), rest, 1, by);
        lemma_rounded_bounds(x.negative(), rest, 1, by.neg());
        assert(by.neg().units() == -by.units());
        lemma_order_of_values(by.neg(), part);
        lemma_order_of_values(part, by);
        lemma_order_of_values(part, zero());
        if part.lt(zero()) {
            lemma_sum_bounds(part, by, zero());
            lemma_sum_bounds(part, by, by);
        }
    }
}

/// The distance of two values.
pub open spec fn gap(a: int, b: int) -> int {
    if a < b {
        b - a
    } else {
        a - b
    }
}

/// Rounding moves a value by at most one part in 2^24 of it, or by half a unit.
pub proof fn lemma_rounding_error(num: int, den: int)
    requires
        num >= 0,
        den > 0,
        crate::rounding::nearest(num, den) < INFINITE,
    ensures
        ({
            let error = gap(crate::rounding::grid(crate::rounding::nearest(num, den)) * den, num);
            0x100_0000 * error <= num || 2 * error <= den
        }),
{
    let code = crate::rounding::nearest(num, den);
    crate::rounding::lemma_nearest_exists(num, den);
    let g = crate::rounding::grid(code);
    let up = crate::rounding::grid(code + 1);
    let exact = g * den;
    assert((g + up) * den == exact + up * den) by (nonlinear_arith)
        requires
            exact == g * den,
    ;
    if code > 0 {
        let down = crate::rounding::grid(code - 1);
        assert((down + g) * den == down * den + exact) by (nonlinear_arith)
            requires
                exact == g * den,
        ;
    }
    if code < 2 * OCTAVE {
        lemma_fine_steps(code);
        assert((g + 1) * den == exact + den && (g - 1) * den == exact - den) by (nonlinear_arith)
            requires
                exact == g * den,
        ;
    } else {
        let (m, e) = (code % OCTAVE as int + OCTAVE, code / OCTAVE as int - 1);
        let step = crate::rounding::p2(e);
        let half = crate::rounding::p2(e - 1);
        crate::rounding::lemma_p2_pos(e - 1);
        crate::rounding::lemma_p2_step(e - 1);
        crate::rounding::lemma_grid_code(e, m);
        crate::rounding::lemma_grid_code(e, m + 1);
        assert(e * OCTAVE + m == code);
        let unit = half * den;
        assert(step * den == 2 * unit && unit > 0) by (nonlinear_arith)
            requires
                unit == half * den,
                step == 2 * half,
                half > 0,
                den > 0,
        ;
        assert((m + 1) * step * den == m * step * den + step * den) by (nonlinear_arith);
        assert(m * step * den == m * (2 * unit)) by (nonlinear_arith)
            requires
                step * den == 2 * unit,
        ;
        assert(m * (2 * unit) >= 0x80_0000 * (2 * unit)) by (nonlinear_arith)
            requires
                m >= 0x80_0000,
                unit > 0,
        ;
        assert(exact == m * step * den);
        if m > OCTAVE {
            crate::rounding::lemma_grid_code(e, m - 1);
            assert((m - 1) * step * den == m * step * den - step * den) by (nonlinear_arith);
            assert(m * (2 * unit) >= 0x80_0001 * (2 * unit)) by (nonlinear_arith)
                requires
                    m >= 0x80_0001,
                    unit > 0,
            ;
        } else {
            crate::rounding::lemma_grid_code(e - 1, 0xff_ffff);
            assert(crate::rounding::grid(code - 1) == 0xff_ffff * half);
            assert(0xff_ffff * half * den == 0xff_ffff * unit) by (nonlinear_arith)
                requires
                    unit == half * den,
            ;
        }
    }
}

/// Near zero the grid has every unit.
proof fn lemma_fine_steps(code: int)
    requires
        0 <= code < 2 * OCTAVE,
    ensures
        crate::rounding::grid(code) == code,
        crate::rounding::grid(code + 1) == code + 1,
        code > 0 ==> crate::rounding::grid(code - 1) == code - 1,
{
    crate::rounding::lemma_p2_values();
    crate::rounding::lemma_grid_code(0, code);
    crate::rounding::lemma_grid_code(0, code + 1);
    if code > 0 {
        crate::rounding::lemma_grid_code(0, code - 1);
    }
}

/// A sum is off by at most one part in 2^24.
pub proof fn lemma_sum_error(a: Scalar, b: Scalar)
    requires
        a.finite(),
        b.finite(),
        a.add(b).finite(),
    ensures
        0x100_0000 * gap(a.add(b).units(), a.units() + b.units()) <= gap(a.units() + b.units(), 0),
{
    let sum = a.units() + b.units();
    if sum != 0 {
        let size = gap(sum, 0);
        lemma_nearest_bounds(size, 1, 0);
        lemma_rounding_error(size, 1);
        let g = crate::rounding::grid(crate::rounding::nearest(size, 1));
        assert(g * 1 == g);
    }
}

/// A product is off by at most one part in 2^24, or by half a unit.
pub proof fn lemma_product_error(a: Scalar, b: Scalar)
    requires
        a.finite(),
        b.finite(),
        a.mul(b).finite(),
    ensures
        ({
            let one = crate::scalar::one_units();
            let error = gap(a.mul(b).units() * one, a.units() * b.units());
            0x100_0000 * error <= gap(a.units() * b.units(), 0) || 2 * error <= one
        }),
{
    let one = crate::scalar::one_units();
    crate::rounding::lemma_p2_pos(149);
    crate::scalar::lemma_self_rounding(a);
    crate::scalar::lemma_self_rounding(b);
    let (m, n) = (a.size(), b.size());
    assert((-m) * n == -(m * n) && m * (-n) == -(m * n) && (-m) * (-n) == m * n) by (nonlinear_arith);
    assert(m * n >= 0) by (nonlinear_arith)
        requires
            m >= 0,
            n >= 0,
    ;
    if a.zero() || b.zero() {
        assert(m * n == 0) by (nonlinear_arith)
            requires
                m == 0 || n == 0,
        ;
        assert(a.mul(b).units() * one == 0) by (nonlinear_arith)
            requires
                a.mul(b).units() == 0,
        ;
    } else {
        lemma_nearest_bounds(m * n, one, 0);
        lemma_rounding_error(m * n, one);
        let g = a.mul(b).size();
        assert((-g) * one == -(g * one)) by (nonlinear_arith);
    }
}

/// A quotient by a positive number is off by at most one part in 2^24, or by half
/// a unit.
pub proof fn lemma_quotient_error(a: Scalar, b: Scalar)
    requires
        a.finite(),
        b.finite(),
        b.units() > 0,
        a.div(b).finite(),
    ensures
        ({
            let exact = a.units() * crate::scalar::one_units();
            let error = gap(a.div(b).units() * b.units(), exact);
            0x100_0000 * error <= gap(exact, 0) || 2 * error <= b.units()
        }),
{
    let one = crate::scalar::one_units();
    crate::rounding::lemma_p2_pos(149);
    crate::scalar::lemma_self_rounding(a);
    crate::scalar::lemma_self_rounding(b);
    let (m, n) = (a.size(), b.size());
    assert((-m) * one == -(m * one)) by (nonlinear_arith);
    assert(m * one >= 0) by (nonlinear_arith)
        requires
            m >= 0,
            one > 0,
    ;
    if a.zero() {
        assert(m * one == 0) by (nonlinear_arith)
            requires
                m == 0,
        ;
        assert(a.div(b).units() * n == 0) by (nonlinear_arith)
            requires
                a.div(b).units() == 0,
        ;
    } else {
        lemma_nearest_bounds(m * one, n, 0);
        lemma_rounding_error(m * one, n);
        let g = a.div(b).size();
        assert((-g) * n == -(g * n)) by (nonlinear_arith);
    }
}

} // verus!
