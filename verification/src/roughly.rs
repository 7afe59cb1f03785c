//! Numbers up to a few roundings of the size of one.
use vstd::prelude::*;

use crate::order::gap;
use crate::scalar::Scalar;

verus! {

/// `x` is `num` over `den`, but for `t` times 2^-24.
pub open spec fn off(x: Scalar, num: int, den: int, t: int) -> bool {
    let unit = crate::scalar::one_units();
    &&& x.finite()
    &&& 0x100_0000 * gap(x.units() * den, num * unit) <= t * (den * unit)
}

/// `x` is from `-m` to `m`.
pub open spec fn bounded(x: Scalar, m: int) -> bool {
    &&& x.finite()
    &&& -(m * crate::scalar::one_units()) <= x.units() <= m * crate::scalar::one_units()
}

pub(crate) proof fn lemma_off_itself(x: Scalar)
    requires
        x.finite(),
    ensures
        off(x, x.units(), crate::scalar::one_units(), 0),
{
    let unit = crate::scalar::one_units();
    assert(0 * (unit * unit) == 0);
}

/// The same fraction with a larger denominator.
pub(crate) proof fn lemma_off_rescaled(x: Scalar, num: int, den: int, t: int, by: int, a: int, b: int)
    requires
        off(x, num, den, t),
        by > 0,
        a == num * by,
        b == den * by,
    ensures
        off(x, a, b, t),
{
    let unit = crate::scalar::one_units();
    let u = x.units();
    let g = gap(u * den, num * unit);
    assert(gap(u * b, a * unit) == g * by) by (nonlinear_arith)
        requires
            a == num * by,
            b == den * by,
            g == if u * den < num * unit { num * unit - u * den } else { u * den - num * unit },
            by > 0,
    ;
    assert(0x100_0000 * (g * by) <= t * (b * unit)) by (nonlinear_arith)
        requires
            0x100_0000 * g <= t * (den * unit),
            b == den * by,
            by > 0,
    ;
}

pub(crate) proof fn lemma_off_sum(x: Scalar, a: int, s: int, y: Scalar, c: int, t: int, den: int, m: u32)
    requires
        off(x, a, den, s),
        off(y, c, den, t),
        den > 0,
        m <= 0x100_0000,
        -(m * crate::scalar::one_units()) <= x.units() + y.units() <= m * crate::scalar::one_units(),
    ensures
        off(x.add(y), a + c, den, s + t + m),
        bounded(x.add(y), m as int),
{
    let unit = crate::scalar::one_units();
    let (most, sum) = (Scalar::from_u32(m), x.add(y));
    crate::rounding::lemma_p2_pos(149);
    crate::order::lemma_small_count(m);
    crate::order::lemma_sum_bounds(x, y, most);
    crate::order::lemma_sum_bounds(x, y, most.neg());
    crate::order::lemma_order_of_values(sum, most);
    crate::order::lemma_order_of_values(most.neg(), sum);
    crate::order::lemma_sum_error(x, y);
    let (u, v, w) = (x.units(), y.units(), sum.units());
    let exact = u + v;
    let g = w - exact;
    assert(w * den == g * den + u * den + v * den) by (nonlinear_arith)
        requires
            g == w - (u + v),
    ;
    assert(0x100_0000 * (g * den) <= (m * unit) * den && 0x100_0000 * (g * den) >= -((m * unit) * den)) by (nonlinear_arith)
        requires
            0x100_0000 * g <= m * unit,
            0x100_0000 * g >= -(m * unit),
            den > 0,
    ;
    assert((a + c) * unit == a * unit + c * unit) by (nonlinear_arith);
    assert((s + t + m) * (den * unit) == s * (den * unit) + t * (den * unit) + (m * unit) * den) by (nonlinear_arith);
}

pub(crate) proof fn lemma_off_product(
    x: Scalar,
    a: int,
    b: int,
    s: int,
    m: int,
    y: Scalar,
    c: int,
    d: int,
    t: int,
    n: int,
    num: int,
    den: int,
)
    requires
        off(x, a, b, s),
        off(y, c, d, t),
        bounded(x, m),
        bounded(y, n),
        b > 0,
        d > 0,
        s >= 0,
        t >= 0,
        m >= 0,
        n >= 0,
        0 <= m * n <= 0x100_0000,
        num == a * c,
        den == b * d,
    ensures
        off(x.mul(y), num, den, s * n + (m + s) * t + m * n + 1),
        bounded(x.mul(y), m * n),
{
    let unit = crate::scalar::one_units();
    let mn = m * n;
    let (most, product) = (Scalar::from_u32(mn as u32), x.mul(y));
    let (u, v, w) = (x.units(), y.units(), product.units());
    crate::rounding::lemma_p2_pos(149);
    crate::rounding::lemma_p2_u128();
    crate::rounding::lemma_p2_monotone(40, 149);
    crate::order::lemma_small_count(mn as u32);
    assert(-((mn * unit) * unit) <= u * v <= (mn * unit) * unit) by (nonlinear_arith)
        requires
            -(m * unit) <= u <= m * unit,
            -(n * unit) <= v <= n * unit,
            mn == m * n,
            m >= 0,
            n >= 0,
            unit > 0,
    ;
    assert((-(mn * unit)) * unit == -((mn * unit) * unit)) by (nonlinear_arith);
    crate::order::lemma_product_bounds(x, y, most);
    crate::order::lemma_product_bounds(x, y, most.neg());
    crate::order::lemma_order_of_values(product, most);
    crate::order::lemma_order_of_values(most.neg(), product);
    crate::order::lemma_product_error(x, y);
    let e = w * unit - u * v;
    assert(unit <= unit * unit && 0x80_0000 * unit <= unit * unit) by (nonlinear_arith)
        requires
            unit >= 0x80_0000,
    ;
    assert(0x100_0000 * e <= (mn * unit) * unit + unit * unit && 0x100_0000 * e >= -((mn * unit) * unit + unit * unit));
    lemma_product_parts(u, a, b, s, m, v, c, d, t, n, e, w);
}

proof fn lemma_product_parts(u: int, a: int, b: int, s: int, m: int, v: int, c: int, d: int, t: int, n: int, e: int, w: int)
    requires
        ({
            let unit = crate::scalar::one_units();
            &&& 0x100_0000 * gap(u * b, a * unit) <= s * (b * unit)
            &&& 0x100_0000 * gap(v * d, c * unit) <= t * (d * unit)
            &&& -(m * unit) <= u <= m * unit
            &&& -(n * unit) <= v <= n * unit
            &&& e == w * unit - u * v
            &&& 0x100_0000 * e <= ((m * n) * unit) * unit + unit * unit
            &&& 0x100_0000 * e >= -(((m * n) * unit) * unit + unit * unit)
        }),
        b > 0,
        d > 0,
        s >= 0,
        t >= 0,
        m >= 0,
        n >= 0,
    ensures
        0x100_0000 * gap(w * (b * d), (a * c) * crate::scalar::one_units()) <= (s * n + (m + s) * t + m * n + 1) * ((b * d)
            * crate::scalar::one_units()),
{
    let unit = crate::scalar::one_units();
    let k = 0x100_0000int;
    crate::rounding::lemma_p2_pos(149);
    let (bd, p, q) = (b * d, u * b - a * unit, v * d - c * unit);
    let square = bd * (unit * unit);
    assert(bd > 0 && square > 0) by (nonlinear_arith)
        requires
            bd == b * d,
            square == bd * (unit * unit),
            b > 0,
            d > 0,
            unit > 0,
    ;
    let vd = v * d;
    assert(-(n * (d * unit)) <= vd <= n * (d * unit)) by (nonlinear_arith)
        requires
            vd == v * d,
            -(n * unit) <= v <= n * unit,
            d > 0,
    ;
    let first = p * vd;
    assert(k * first <= (s * n) * square && k * first >= -((s * n) * square)) by (nonlinear_arith)
        requires
            k * p <= s * (b * unit),
            k * p >= -(s * (b * unit)),
            -(n * (d * unit)) <= vd <= n * (d * unit),
            first == p * vd,
            square == (b * d) * (unit * unit),
            s >= 0,
            n >= 0,
            b > 0,
            d > 0,
            unit > 0,
            k == 0x100_0000,
    ;
    let au = a * unit;
    assert(-((m + s) * (b * unit)) <= au <= (m + s) * (b * unit)) by (nonlinear_arith)
        requires
            au == u * b - p,
            -(m * unit) <= u <= m * unit,
            k * p <= s * (b * unit),
            k * p >= -(s * (b * unit)),
            s >= 0,
            b > 0,
            unit > 0,
            k == 0x100_0000,
    ;
    let second = au * q;
    assert(k * second <= ((m + s) * t) * square && k * second >= -(((m + s) * t) * square)) by (nonlinear_arith)
        requires
            k * q <= t * (d * unit),
            k * q >= -(t * (d * unit)),
            -((m + s) * (b * unit)) <= au <= (m + s) * (b * unit),
            second == au * q,
            square == (b * d) * (unit * unit),
            s >= 0,
            m >= 0,
            t >= 0,
            b > 0,
            d > 0,
            unit > 0,
            k == 0x100_0000,
    ;
    let third = e * bd;
    assert(k * third <= (m * n + 1) * square && k * third >= -((m * n + 1) * square)) by (nonlinear_arith)
        requires
            k * e <= ((m * n) * unit) * unit + unit * unit,
            k * e >= -(((m * n) * unit) * unit + unit * unit),
            third == e * bd,
            square == bd * (unit * unit),
            bd > 0,
            k == 0x100_0000,
    ;
    let ac = a * c;
    let g = w * bd - ac * unit;
    assert((u * v) * bd == (u * b) * vd) by (nonlinear_arith)
        requires
            bd == b * d,
            vd == v * d,
    ;
    assert((u * b) * vd == first + au * vd) by (nonlinear_arith)
        requires
            first == p * vd,
            p == u * b - au,
    ;
    assert(au * vd == second + au * (c * unit)) by (nonlinear_arith)
        requires
            second == au * q,
            q == vd - c * unit,
    ;
    assert(au * (c * unit) == (ac * unit) * unit) by (nonlinear_arith)
        requires
            au == a * unit,
            ac == a * c,
    ;
    assert((w * unit) * bd == third + (u * v) * bd) by (nonlinear_arith)
        requires
            third == e * bd,
            e == w * unit - u * v,
    ;
    assert((w * unit) * bd == (w * bd) * unit) by (nonlinear_arith);
    assert(g * unit == (w * bd) * unit - (ac * unit) * unit) by (nonlinear_arith)
        requires
            g == w * bd - ac * unit,
    ;
    let total = s * n + (m + s) * t + m * n + 1;
    assert(total * square == (s * n) * square + ((m + s) * t) * square + (m * n + 1) * square) by (nonlinear_arith)
        requires
            total == s * n + (m + s) * t + m * n + 1,
    ;
    assert(k * (g * unit) <= total * square && k * (g * unit) >= -(total * square));
    let all = total * (bd * unit);
    assert(total * square == all * unit) by (nonlinear_arith)
        requires
            square == bd * (unit * unit),
            all == total * (bd * unit),
    ;
    assert(k * g <= all && k * g >= -all) by (nonlinear_arith)
        requires
            k * (g * unit) <= all * unit,
            k * (g * unit) >= -(all * unit),
            unit > 0,
    ;
}

/// Division by a number of at least one `n`-th.
pub(crate) proof fn lemma_off_quotient(x: Scalar, a: int, b: int, s: int, m: int, y: Scalar, n: int, num: int, den: int)
    requires
        off(x, a, b, s),
        bounded(x, m),
        y.finite(),
        y.units() > 0,
        crate::scalar::one_units() <= n * y.units(),
        b > 0,
        s >= 0,
        m >= 0,
        n >= 0,
        0 <= m * n <= 0x100_0000,
        num == a * crate::scalar::one_units(),
        den == b * y.units(),
    ensures
        off(x.div(y), num, den, n * (m + s) + 1),
        bounded(x.div(y), m * n),
{
    let unit = crate::scalar::one_units();
    let mn = m * n;
    let (most, quotient) = (Scalar::from_u32(mn as u32), x.div(y));
    let (u, v, w) = (x.units(), y.units(), quotient.units());
    crate::rounding::lemma_p2_pos(149);
    crate::rounding::lemma_p2_u128();
    crate::rounding::lemma_p2_monotone(40, 149);
    crate::order::lemma_small_count(mn as u32);
    assert(-((mn * unit) * v) <= u * unit <= (mn * unit) * v) by (nonlinear_arith)
        requires
            -(m * unit) <= u <= m * unit,
            unit <= n * v,
            mn == m * n,
            m >= 0,
            unit > 0,
    ;
    assert((-(mn * unit)) * v == -((mn * unit) * v)) by (nonlinear_arith);
    crate::order::lemma_quotient_bounds(x, y, most);
    crate::order::lemma_quotient_bounds(x, y, most.neg());
    crate::order::lemma_order_of_values(quotient, most);
    crate::order::lemma_order_of_values(most.neg(), quotient);
    crate::order::lemma_quotient_error(x, y);
    let k = 0x100_0000int;
    let e = w * v - u * unit;
    assert(-((m * unit) * unit) <= u * unit <= (m * unit) * unit) by (nonlinear_arith)
        requires
            -(m * unit) <= u <= m * unit,
            unit > 0,
    ;
    assert(k * v <= v * unit) by (nonlinear_arith)
        requires
            unit >= k,
            v > 0,
    ;
    assert(k * e <= (m * unit) * unit + v * unit && k * e >= -((m * unit) * unit + v * unit));
    let p = u * b - a * unit;
    let (first, second) = (b * e, unit * p);
    let g = w * den - num * unit;
    let ub = u * unit;
    assert(b * (w * v) == w * den) by (nonlinear_arith)
        requires
            den == b * v,
    ;
    assert(first == w * den - b * ub) by (nonlinear_arith)
        requires
            first == b * e,
            e == w * v - ub,
            b * (w * v) == w * den,
    ;
    assert(second == b * ub - num * unit) by (nonlinear_arith)
        requires
            second == unit * p,
            p == u * b - a * unit,
            ub == u * unit,
            num == a * unit,
    ;
    assert(g == first + second);
    let bvu = den * unit;
    let bus = (b * unit) * unit;
    assert(0 <= bus <= n * bvu) by (nonlinear_arith)
        requires
            bus == (b * unit) * unit,
            bvu == (b * v) * unit,
            unit <= n * v,
            b > 0,
            unit > 0,
    ;
    assert(k * first <= m * bus + bvu && k * first >= -(m * bus + bvu)) by (nonlinear_arith)
        requires
            k * e <= (m * unit) * unit + v * unit,
            k * e >= -((m * unit) * unit + v * unit),
            first == b * e,
            bus == (b * unit) * unit,
            bvu == (b * v) * unit,
            b > 0,
            k == 0x100_0000,
    ;
    assert(k * second <= s * bus && k * second >= -(s * bus)) by (nonlinear_arith)
        requires
            k * p <= s * (b * unit),
            k * p >= -(s * (b * unit)),
            second == unit * p,
            bus == (b * unit) * unit,
            unit > 0,
            k == 0x100_0000,
    ;
    assert(m * bus + s * bus <= (n * (m + s)) * bvu) by (nonlinear_arith)
        requires
            0 <= bus <= n * bvu,
            m >= 0,
            s >= 0,
    ;
    assert((n * (m + s) + 1) * bvu == (n * (m + s)) * bvu + bvu) by (nonlinear_arith);
}

} // verus!
