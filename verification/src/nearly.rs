//! Positive numbers up to a few roundings.
use vstd::prelude::*;

use crate::order::gap;
use crate::rounding::OCTAVE;
use crate::scalar::{scalar, zero, Scalar};

verus! {

/// `x` is `num` over `den`, but for `k` parts in 2^24.
pub open spec fn near(x: Scalar, num: int, den: int, k: int) -> bool {
    let unit = crate::scalar::one_units();
    &&& x.finite()
    &&& x.units() > 0
    &&& 0x100_0000 * gap(x.units() * den, num * unit) <= k * (num * unit)
}

/// A number is what it is.
pub(crate) proof fn lemma_near_itself(x: Scalar)
    requires
        x.finite(),
        x.units() > 0,
    ensures
        near(x, x.units(), crate::scalar::one_units(), 0),
{
    assert(0 * (x.units() * crate::scalar::one_units()) == 0);
}

/// A whole number is what it counts.
pub(crate) proof fn lemma_near_count(n: u32)
    requires
        0 < n <= 0x100_0000,
    ensures
        near(Scalar::from_u32(n), n as int, 1, 0),
{
    let unit = crate::scalar::one_units();
    crate::rounding::lemma_p2_pos(149);
    crate::order::lemma_small_count(n);
    assert(n * unit > 0) by (nonlinear_arith)
        requires
            n > 0,
            unit > 0,
    ;
    assert((n * unit) * 1 == n * unit && 0 * (n * unit) == 0);
}

/// A number given by its digits is within one part in 2^24 of a fraction.
pub(crate) proof fn lemma_near_digits(x: Scalar, octave: int, mantissa: int, num: int, den: int)
    requires
        0 <= octave <= 149,
        OCTAVE <= mantissa < 2 * OCTAVE,
        x.bits == octave * OCTAVE + mantissa,
        num > 0,
        0x100_0000 * gap(mantissa * den, num * crate::rounding::p2(149 - octave)) <= num * crate::rounding::p2(
            149 - octave,
        ),
    ensures
        near(x, num, den, 1),
        x.units() == mantissa * crate::rounding::p2(octave),
{
    let (up, place) = (crate::rounding::p2(149 - octave), crate::rounding::p2(octave));
    crate::rounding::lemma_p2_adds(149 - octave, octave);
    crate::rounding::lemma_p2_pos(octave);
    crate::rounding::lemma_grid_code(octave, mantissa);
    assert(mantissa * place > 0) by (nonlinear_arith)
        requires
            mantissa > 0,
            place > 0,
    ;
    let g = gap(mantissa * den, num * up);
    assert(gap((mantissa * place) * den, num * (up * place)) == g * place) by (nonlinear_arith)
        requires
            g == if mantissa * den < num * up { num * up - mantissa * den } else { mantissa * den - num * up },
            place > 0,
    ;
    assert(0x100_0000 * (g * place) <= 1 * (num * (up * place))) by (nonlinear_arith)
        requires
            0x100_0000 * g <= num * up,
            place > 0,
    ;
}

/// What is near stays so when both sides are multiplied.
proof fn lemma_products(a: int, x: int, j: int, b: int, y: int, k: int, s: int)
    requires
        x > 0,
        y > 0,
        0 <= j <= 1000,
        0 <= k <= 1000,
        0x100_0000 * gap(a, x) <= j * x,
        0x100_0000 * gap(b, y) <= k * y,
        0x100_0000 * gap(s, a * b) <= a * b,
    ensures
        0x100_0000 * gap(s, x * y) <= (j + k + 2) * (x * y),
{
    let m = 0x100_0000int;
    let (da, db) = (a - x, b - y);
    let xy = x * y;
    assert(xy > 0) by (nonlinear_arith)
        requires
            xy == x * y,
            x > 0,
            y > 0,
    ;
    assert(0 < b && m * b <= (m + k) * y && b <= 2 * y) by (nonlinear_arith)
        requires
            m * (b - y) <= k * y,
            m * (y - b) <= k * y,
            0 <= k <= 1000,
            y > 0,
            m == 0x100_0000,
    ;
    let (p, q) = (da * b, x * db);
    assert(a * b == xy + p + q) by (nonlinear_arith)
        requires
            a == x + da,
            b == y + db,
            xy == x * y,
            p == da * b,
            q == x * db,
    ;
    assert(m * q <= k * xy && m * q >= -(k * xy)) by (nonlinear_arith)
        requires
            m * db <= k * y,
            m * db >= -(k * y),
            q == x * db,
            xy == x * y,
            x > 0,
    ;
    assert(m * p <= j * (x * b) && m * p >= -(j * (x * b))) by (nonlinear_arith)
        requires
            m * da <= j * x,
            m * da >= -(j * x),
            p == da * b,
            b > 0,
    ;
    assert(m * (x * b) <= (m + k) * xy) by (nonlinear_arith)
        requires
            m * b <= (m + k) * y,
            xy == x * y,
            x > 0,
    ;
    let xb = x * b;
    assert(m * (j * xb) <= (j * m + j * k) * xy) by (nonlinear_arith)
        requires
            m * xb <= (m + k) * xy,
            j >= 0,
    ;
    assert(j * k <= 1_000_000) by (nonlinear_arith)
        requires
            0 <= j <= 1000,
            0 <= k <= 1000,
    ;
    assert((j * m + j * k) * xy <= m * (j * xy) + 1_000_000 * xy) by (nonlinear_arith)
        requires
            j * k <= 1_000_000,
            xy > 0,
    ;
    assert(4 * (j * xb) <= 4 * (j * xy) + xy);
    assert((j + k + 2) * xy == j * xy + k * xy + 2 * xy) by (nonlinear_arith);
    assert(j * xy <= 1000 * xy && k * xy <= 1000 * xy) by (nonlinear_arith)
        requires
            j <= 1000,
            k <= 1000,
            xy > 0,
    ;
}

/// The rounded product of two numbers that are near.
pub(crate) proof fn lemma_near_product(x: Scalar, a: int, b: int, j: int, y: Scalar, c: int, d: int, k: int)
    requires
        near(x, a, b, j),
        near(y, c, d, k),
        a > 0,
        b > 0,
        c > 0,
        d > 0,
        0 <= j <= 1000,
        0 <= k <= 1000,
        x.mul(y).finite(),
        x.units() * y.units() >= 0x100_0000 * crate::scalar::one_units(),
    ensures
        near(x.mul(y), a * c, b * d, j + k + 2),
{
    let unit = crate::scalar::one_units();
    let z = x.mul(y);
    let (u, v, w) = (x.units(), y.units(), z.units());
    crate::rounding::lemma_p2_pos(149);
    crate::order::lemma_product_error(x, y);
    let e = gap(w * unit, u * v);
    assert(0x100_0000 * e <= u * v);
    let (ub, vd) = (u * b, v * d);
    let (ac, bd) = (a * c, b * d);
    assert(ub * vd == (u * v) * bd) by (nonlinear_arith)
        requires
            ub == u * b,
            vd == v * d,
            bd == b * d,
    ;
    assert(bd > 0 && ac > 0 && a * unit > 0 && c * unit > 0) by (nonlinear_arith)
        requires
            bd == b * d,
            ac == a * c,
            a > 0,
            b > 0,
            c > 0,
            d > 0,
            unit > 0,
    ;
    let s = (w * unit) * bd;
    assert(gap(s, (u * v) * bd) == e * bd) by (nonlinear_arith)
        requires
            s == (w * unit) * bd,
            e == if w * unit < u * v { u * v - w * unit } else { w * unit - u * v },
            bd > 0,
    ;
    assert(0x100_0000 * (e * bd) <= (u * v) * bd) by (nonlinear_arith)
        requires
            0x100_0000 * e <= u * v,
            bd > 0,
    ;
    lemma_products(ub, a * unit, j, vd, c * unit, k, s);
    let (g, n) = (gap(w * bd, ac * unit), j + k + 2);
    assert((a * unit) * (c * unit) == (ac * unit) * unit && s == (w * bd) * unit) by (nonlinear_arith)
        requires
            ac == a * c,
            s == (w * unit) * bd,
    ;
    assert(gap((w * bd) * unit, (ac * unit) * unit) == g * unit) by (nonlinear_arith)
        requires
            g == if w * bd < ac * unit { ac * unit - w * bd } else { w * bd - ac * unit },
            unit > 0,
    ;
    assert(0x100_0000 * g <= n * (ac * unit)) by (nonlinear_arith)
        requires
            0x100_0000 * (g * unit) <= n * ((ac * unit) * unit),
            unit > 0,
    ;
    crate::order::lemma_order_of_values(zero(), z);
    assert(w > 0) by (nonlinear_arith)
        requires
            0x100_0000 * (u * v - w * unit) <= u * v,
            u * v >= 0x100_0000 * unit,
            unit > 0,
    ;
}

/// What is near stays so when both sides are divided.
proof fn lemma_quotients(a: int, x: int, j: int, b: int, y: int, k: int, z: int, c: int)
    requires
        x > 0,
        y > 0,
        c > 0,
        0 <= j <= 1000,
        0 <= k <= 1000,
        0x100_0000 * gap(a, x) <= j * x,
        0x100_0000 * gap(b, y) <= k * y,
        0x100_0000 * gap(z * b, c * a) <= c * a,
    ensures
        0x100_0000 * gap(z * y, c * x) <= (j + k + 2) * (c * x),
{
    let m = 0x100_0000int;
    let cx = c * x;
    let t = z * y - cx;
    let r = z * b - c * a;
    let (da, db) = (a - x, b - y);
    assert(cx > 0) by (nonlinear_arith)
        requires
            cx == c * x,
            c > 0,
            x > 0,
    ;
    assert(b > 0 && m * b >= (m - k) * y) by (nonlinear_arith)
        requires
            m * (y - b) <= k * y,
            0 <= k <= 1000,
            y > 0,
            m == 0x100_0000,
    ;
    // The difference, times b.
    let (f, g) = (y * r, c * (y * da - x * db));
    let (zyb, cya, cxb) = ((z * y) * b, c * (y * a), c * (x * b));
    assert(b * t == zyb - cxb) by (nonlinear_arith)
        requires
            t == z * y - cx,
            cx == c * x,
            zyb == (z * y) * b,
            cxb == c * (x * b),
    ;
    assert(f == zyb - cya) by (nonlinear_arith)
        requires
            r == z * b - c * a,
            f == y * r,
            zyb == (z * y) * b,
            cya == c * (y * a),
    ;
    assert(y * da == y * a - y * x && x * db == x * b - y * x) by (nonlinear_arith)
        requires
            da == a - x,
            db == b - y,
    ;
    assert(g == cya - cxb) by (nonlinear_arith)
        requires
            g == c * (y * da - x * db),
            y * da == y * a - y * x,
            x * db == x * b - y * x,
            cya == c * (y * a),
            cxb == c * (x * b),
    ;
    assert(b * t == f + g);
    let cxy = cx * y;
    assert(cxy > 0) by (nonlinear_arith)
        requires
            cxy == cx * y,
            cx > 0,
            y > 0,
    ;
    let h = y * da - x * db;
    let (across, along, xy) = (y * da, x * db, x * y);
    assert(m * across <= j * xy && m * across >= -(j * xy)) by (nonlinear_arith)
        requires
            m * da <= j * x,
            m * da >= -(j * x),
            across == y * da,
            xy == x * y,
            y > 0,
    ;
    assert(m * along <= k * xy && m * along >= -(k * xy)) by (nonlinear_arith)
        requires
            m * db <= k * y,
            m * db >= -(k * y),
            along == x * db,
            xy == x * y,
            x > 0,
    ;
    assert((j + k) * xy == j * xy + k * xy) by (nonlinear_arith);
    assert(m * g <= (j + k) * cxy && m * g >= -((j + k) * cxy)) by (nonlinear_arith)
        requires
            m * h <= (j + k) * (x * y),
            m * h >= -((j + k) * (x * y)),
            g == c * h,
            cxy == (c * x) * y,
            c > 0,
    ;
    assert(m * (c * a) <= (m + j) * cx) by (nonlinear_arith)
        requires
            m * (a - x) <= j * x,
            cx == c * x,
            c > 0,
    ;
    assert(j * cx <= 1000 * cx) by (nonlinear_arith)
        requires
            j <= 1000,
            cx > 0,
    ;
    assert((m + j) * cx == m * cx + j * cx) by (nonlinear_arith);
    assert(8 * (c * a) <= 9 * cx);
    assert(8 * (m * r) <= 9 * cx && 8 * (m * r) >= -(9 * cx));
    assert(8 * (m * f) <= 9 * cxy && 8 * (m * f) >= -(9 * cxy)) by (nonlinear_arith)
        requires
            8 * (m * r) <= 9 * cx,
            8 * (m * r) >= -(9 * cx),
            f == y * r,
            cxy == cx * y,
            y > 0,
    ;
    let n = j + k + 2;
    assert(8 * (m * (b * t)) <= (8 * n - 7) * cxy && 8 * (m * (b * t)) >= -((8 * n - 7) * cxy)) by (nonlinear_arith)
        requires
            b * t == f + g,
            8 * (m * f) <= 9 * cxy,
            8 * (m * f) >= -(9 * cxy),
            m * g <= (j + k) * cxy,
            m * g >= -((j + k) * cxy),
            n == j + k + 2,
    ;
    assert(m * (n * b) >= (n * m - n * k) * y) by (nonlinear_arith)
        requires
            m * b >= (m - k) * y,
            n >= 0,
    ;
    assert(n * k <= 2_002_000) by (nonlinear_arith)
        requires
            0 <= n <= 2002,
            0 <= k <= 1000,
    ;
    assert((n * m - n * k) * y >= (n * m - 2_002_000) * y) by (nonlinear_arith)
        requires
            n * k <= 2_002_000,
            y > 0,
    ;
    assert(8 * (m * (n * b)) >= m * ((8 * n - 7) * y)) by (nonlinear_arith)
        requires
            m * (n * b) >= (n * m - 2_002_000) * y,
            y > 0,
            m == 0x100_0000,
    ;
    assert(8 * (n * b) >= (8 * n - 7) * y);
    assert(8 * ((n * b) * cx) >= (8 * n - 7) * cxy) by (nonlinear_arith)
        requires
            8 * (n * b) >= (8 * n - 7) * y,
            cxy == cx * y,
            cx > 0,
    ;
    let ncx = n * cx;
    assert((n * b) * cx == b * ncx) by (nonlinear_arith)
        requires
            ncx == n * cx,
    ;
    let mt = m * t;
    assert(m * (b * t) == b * mt) by (nonlinear_arith)
        requires
            mt == m * t,
    ;
    assert(mt <= ncx && mt >= -ncx) by (nonlinear_arith)
        requires
            b * mt <= b * ncx,
            b * mt >= -(b * ncx),
            b > 0,
    ;
}

/// The rounded quotient of two numbers that are near.
pub(crate) proof fn lemma_near_quotient(x: Scalar, a: int, b: int, j: int, y: Scalar, c: int, d: int, k: int)
    requires
        near(x, a, b, j),
        near(y, c, d, k),
        a > 0,
        b > 0,
        c > 0,
        d > 0,
        0 <= j <= 1000,
        0 <= k <= 1000,
        x.div(y).finite(),
        x.units() * crate::scalar::one_units() >= 0x100_0000 * y.units(),
    ensures
        near(x.div(y), a * d, b * c, j + k + 2),
{
    let unit = crate::scalar::one_units();
    let z = x.div(y);
    let (u, v, w) = (x.units(), y.units(), z.units());
    crate::rounding::lemma_p2_pos(149);
    crate::order::lemma_quotient_error(x, y);
    let e = gap(w * v, u * unit);
    assert(0x100_0000 * e <= u * unit);
    let (ub, vd, bd) = (u * b, v * d, b * d);
    assert(bd > 0 && a * unit > 0 && c * unit > 0 && d * unit > 0) by (nonlinear_arith)
        requires
            bd == b * d,
            a > 0,
            b > 0,
            c > 0,
            d > 0,
            unit > 0,
    ;
    let (wb, du) = (w * b, d * unit);
    assert(wb * vd == (w * v) * bd && du * ub == (u * unit) * bd) by (nonlinear_arith)
        requires
            wb == w * b,
            vd == v * d,
            du == d * unit,
            ub == u * b,
            bd == b * d,
    ;
    assert(gap((w * v) * bd, (u * unit) * bd) == e * bd) by (nonlinear_arith)
        requires
            e == if w * v < u * unit { u * unit - w * v } else { w * v - u * unit },
            bd > 0,
    ;
    assert(0x100_0000 * (e * bd) <= (u * unit) * bd) by (nonlinear_arith)
        requires
            0x100_0000 * e <= u * unit,
            bd > 0,
    ;
    lemma_quotients(ub, a * unit, j, vd, c * unit, k, wb, du);
    let (ad, bc, n) = (a * d, b * c, j + k + 2);
    let g = gap(w * bc, ad * unit);
    assert(wb * (c * unit) == (w * bc) * unit && du * (a * unit) == (ad * unit) * unit) by (nonlinear_arith)
        requires
            wb == w * b,
            du == d * unit,
            ad == a * d,
            bc == b * c,
    ;
    assert(gap((w * bc) * unit, (ad * unit) * unit) == g * unit) by (nonlinear_arith)
        requires
            g == if w * bc < ad * unit { ad * unit - w * bc } else { w * bc - ad * unit },
            unit > 0,
    ;
    assert(0x100_0000 * g <= n * (ad * unit)) by (nonlinear_arith)
        requires
            0x100_0000 * (g * unit) <= n * ((ad * unit) * unit),
            unit > 0,
    ;
    assert(w > 0) by (nonlinear_arith)
        requires
            0x100_0000 * (u * unit - w * v) <= u * unit,
            u * unit >= 0x100_0000 * v,
            v > 0,
    ;
}

/// `x` is at least 2^-e and at most 2^e.
pub open spec fn sized(x: Scalar, e: int) -> bool {
    &&& x.finite()
    &&& crate::rounding::p2(149 - e) <= x.units() <= crate::rounding::p2(149 + e)
}

/// The power 2^e.
pub open spec fn power(e: int) -> Scalar {
    scalar(((e + 127) * OCTAVE) as u32)
}

pub(crate) proof fn lemma_power(e: int)
    requires
        -126 <= e <= 127,
    ensures
        power(e).finite(),
        power(e).units() == crate::rounding::p2(149 + e),
        power(e).units() > 0,
{
    crate::rounding::lemma_p2_values();
    crate::rounding::lemma_p2_adds(23, e + 126);
    crate::rounding::lemma_p2_pos(149 + e);
    crate::rounding::lemma_grid_code(e + 126, OCTAVE as int);
}

/// Comparisons with powers of two give the size.
pub(crate) proof fn lemma_sized(x: Scalar, e: int)
    requires
        0 <= e <= 126,
        power(-e).le(x),
        x.le(power(e)),
    ensures
        sized(x, e),
        x.units() > 0,
{
    lemma_power(e);
    lemma_power(-e);
    crate::order::lemma_order_of_values(power(-e), x);
    crate::order::lemma_order_of_values(x, power(e));
}

pub(crate) proof fn lemma_sized_count(n: u32)
    requires
        0 < n <= 0x100_0000,
    ensures
        sized(Scalar::from_u32(n), 24),
{
    let unit = crate::scalar::one_units();
    crate::rounding::lemma_p2_values();
    crate::rounding::lemma_p2_pos(149);
    crate::rounding::lemma_p2_adds(24, 149);
    crate::rounding::lemma_p2_monotone(125, 149);
    crate::order::lemma_small_count(n);
    assert(unit <= n * unit <= 0x100_0000 * unit) by (nonlinear_arith)
        requires
            1 <= n <= 0x100_0000,
            unit > 0,
    ;
}

pub(crate) proof fn lemma_sized_product(x: Scalar, i: int, y: Scalar, j: int)
    requires
        sized(x, i),
        sized(y, j),
        i >= 0,
        j >= 0,
        i + j <= 120,
    ensures
        sized(x.mul(y), i + j),
        x.units() * y.units() >= 0x100_0000 * crate::scalar::one_units(),
        x.units() > 0,
        y.units() > 0,
{
    let unit = crate::scalar::one_units();
    let (low, high) = (power(-(i + j)), power(i + j));
    let (u, v) = (x.units(), y.units());
    lemma_power(i + j);
    lemma_power(-(i + j));
    crate::rounding::lemma_p2_values();
    crate::rounding::lemma_p2_pos(149);
    let (a, b, c, d) = (
        crate::rounding::p2(149 - i),
        crate::rounding::p2(149 - j),
        crate::rounding::p2(149 + i),
        crate::rounding::p2(149 + j),
    );
    crate::rounding::lemma_p2_pos(149 - i);
    crate::rounding::lemma_p2_pos(149 - j);
    crate::rounding::lemma_p2_adds(149 - i, 149 - j);
    crate::rounding::lemma_p2_adds(149 - i - j, 149);
    crate::rounding::lemma_p2_adds(149 + i, 149 + j);
    crate::rounding::lemma_p2_adds(149 + i + j, 149);
    crate::rounding::lemma_p2_adds(24, 149);
    crate::rounding::lemma_p2_monotone(173, 298 - i - j);
    assert(a * b <= u * v <= c * d) by (nonlinear_arith)
        requires
            0 < a <= u <= c,
            0 < b <= v <= d,
    ;
    crate::order::lemma_product_bounds(x, y, low);
    crate::order::lemma_product_bounds(x, y, high);
    crate::order::lemma_order_of_values(low, x.mul(y));
    crate::order::lemma_order_of_values(x.mul(y), high);
}

pub(crate) proof fn lemma_sized_quotient(x: Scalar, i: int, y: Scalar, j: int)
    requires
        sized(x, i),
        sized(y, j),
        i >= 0,
        j >= 0,
        i + j <= 120,
    ensures
        sized(x.div(y), i + j),
        x.units() * crate::scalar::one_units() >= 0x100_0000 * y.units(),
        x.units() > 0,
        y.units() > 0,
{
    let unit = crate::scalar::one_units();
    let (low, high) = (power(-(i + j)), power(i + j));
    let (u, v) = (x.units(), y.units());
    lemma_power(i + j);
    lemma_power(-(i + j));
    crate::rounding::lemma_p2_values();
    crate::rounding::lemma_p2_pos(149);
    let (a, b, c, d) = (
        crate::rounding::p2(149 - i),
        crate::rounding::p2(149 - j),
        crate::rounding::p2(149 + i),
        crate::rounding::p2(149 + j),
    );
    crate::rounding::lemma_p2_pos(149 - i);
    crate::rounding::lemma_p2_pos(149 - j);
    crate::rounding::lemma_p2_adds(149 - i, 149);
    crate::rounding::lemma_p2_adds(149 - i - j, 149 + j);
    crate::rounding::lemma_p2_adds(149 + i, 149);
    crate::rounding::lemma_p2_adds(149 + i + j, 149 - j);
    crate::rounding::lemma_p2_adds(24, 149 + j);
    crate::rounding::lemma_p2_monotone(173 + j, 298 - i);
    let (least, most) = (low.units(), high.units());
    assert(least * v <= u * unit <= most * v && u * unit >= a * unit && v <= d) by (nonlinear_arith)
        requires
            0 < a <= u <= c,
            0 < b <= v <= d,
            a * unit == least * d,
            c * unit == most * b,
            least > 0,
            most > 0,
            unit > 0,
    ;
    crate::order::lemma_quotient_bounds(x, y, low);
    crate::order::lemma_quotient_bounds(x, y, high);
    crate::order::lemma_order_of_values(low, x.div(y));
    crate::order::lemma_order_of_values(x.div(y), high);
}

/// `x` is near a positive fraction, and between 2^-e and 2^e.
pub(crate) closed spec fn known(x: Scalar, num: int, den: int, k: int, e: int) -> bool {
    &&& near(x, num, den, k)
    &&& sized(x, e)
    &&& num > 0
    &&& den > 0
    &&& 0 <= k <= 1000
    &&& 0 <= e <= 126
}

pub(crate) proof fn lemma_known_itself(x: Scalar, e: int)
    requires
        0 <= e <= 126,
        power(-e).le(x),
        x.le(power(e)),
    ensures
        known(x, x.units(), crate::scalar::one_units(), 0, e),
{
    crate::rounding::lemma_p2_pos(149);
    lemma_sized(x, e);
    lemma_near_itself(x);
}

pub(crate) proof fn lemma_known_count(n: u32)
    requires
        0 < n <= 0x100_0000,
    ensures
        known(Scalar::from_u32(n), n as int, 1, 0, 24),
{
    lemma_near_count(n);
    lemma_sized_count(n);
}

/// A number given by its digits, compared with powers of two.
pub(crate) proof fn lemma_known_digits(x: Scalar, octave: int, mantissa: int, num: int, den: int, e: int)
    requires
        0 <= octave <= 149,
        OCTAVE <= mantissa < 2 * OCTAVE,
        x.bits == octave * OCTAVE + mantissa,
        num > 0,
        den > 0,
        0x100_0000 * gap(mantissa * den, num * crate::rounding::p2(149 - octave)) <= num * crate::rounding::p2(
            149 - octave,
        ),
        0 <= e <= 126,
        power(-e).le(x),
        x.le(power(e)),
    ensures
        known(x, num, den, 1, e),
{
    lemma_near_digits(x, octave, mantissa, num, den);
    lemma_sized(x, e);
}

pub(crate) proof fn lemma_known_product(
    x: Scalar,
    a: int,
    b: int,
    j: int,
    e: int,
    y: Scalar,
    c: int,
    d: int,
    k: int,
    f: int,
    num: int,
    den: int,
)
    requires
        known(x, a, b, j, e),
        known(y, c, d, k, f),
        j + k + 2 <= 1000,
        e + f <= 120,
        num == a * c,
        den == b * d,
    ensures
        known(x.mul(y), num, den, j + k + 2, e + f),
{
    lemma_sized_product(x, e, y, f);
    lemma_near_product(x, a, b, j, y, c, d, k);
    assert(num > 0 && den > 0) by (nonlinear_arith)
        requires
            num == a * c,
            den == b * d,
            a > 0,
            b > 0,
            c > 0,
            d > 0,
    ;
}

pub(crate) proof fn lemma_known_quotient(
    x: Scalar,
    a: int,
    b: int,
    j: int,
    e: int,
    y: Scalar,
    c: int,
    d: int,
    k: int,
    f: int,
    num: int,
    den: int,
)
    requires
        known(x, a, b, j, e),
        known(y, c, d, k, f),
        j + k + 2 <= 1000,
        e + f <= 120,
        num == a * d,
        den == b * c,
    ensures
        known(x.div(y), num, den, j + k + 2, e + f),
{
    lemma_sized_quotient(x, e, y, f);
    lemma_near_quotient(x, a, b, j, y, c, d, k);
    assert(num > 0 && den > 0) by (nonlinear_arith)
        requires
            num == a * d,
            den == b * c,
            a > 0,
            b > 0,
            c > 0,
            d > 0,
    ;
}

/// The same fraction in other terms.
pub(crate) proof fn lemma_known_rescaled(x: Scalar, a: int, b: int, k: int, e: int, num: int, den: int, by: int)
    requires
        known(x, a, b, k, e),
        a == num * by,
        b == den * by,
        by > 0,
    ensures
        known(x, num, den, k, e),
{
    let unit = crate::scalar::one_units();
    let u = x.units();
    let g = gap(u * den, num * unit);
    assert(gap(u * b, a * unit) == g * by) by (nonlinear_arith)
        requires
            a == num * by,
            b == den * by,
            g == if u * den < num * unit { num * unit - u * den } else { u * den - num * unit },
            by > 0,
    ;
    assert(0x100_0000 * g <= k * (num * unit)) by (nonlinear_arith)
        requires
            0x100_0000 * (g * by) <= k * (a * unit),
            a == num * by,
            by > 0,
    ;
    assert(num > 0 && den > 0) by (nonlinear_arith)
        requires
            num * by > 0,
            den * by > 0,
            by > 0,
    ;
}

pub(crate) proof fn lemma_known(x: Scalar, num: int, den: int, k: int, e: int)
    requires
        known(x, num, den, k, e),
    ensures
        near(x, num, den, k),
        sized(x, e),
        num > 0,
        den > 0,
        x.units() > 0,
{
}

} // verus!
