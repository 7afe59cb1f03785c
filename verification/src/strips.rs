//! Which rows and columns of a matrix panel a view meets.
//!
//! The panel is cut into strips of 30 pixels: the header is strip zero, and type
//! `t` has strip `t + 1`.
use vstd::prelude::*;

use crate::panel::visible_range;
use crate::rounding::OCTAVE;
use crate::scalar::{scalar, zero, Scalar};

verus! {

/// Strips whose edges are represented exactly.
pub open spec fn most_strips() -> int {
    1_118_481
}

/// The distance from a code's value to the next one.
proof fn lemma_spacing(code: int)
    requires
        code >= OCTAVE,
    ensures
        crate::rounding::grid(code + 1) == crate::rounding::grid(code) + crate::rounding::p2(code / OCTAVE as int - 1),
{
    let octave = code / OCTAVE as int - 1;
    let mantissa = code % OCTAVE as int + OCTAVE;
    let place = crate::rounding::p2(octave);
    crate::rounding::lemma_grid_code(octave, mantissa);
    crate::rounding::lemma_grid_code(octave, mantissa + 1);
    assert(octave * OCTAVE + mantissa == code);
    assert((mantissa + 1) * place == mantissa * place + place) by (nonlinear_arith);
}

/// Below sixteen times a value the codes are sixteen times as far apart.
proof fn lemma_coarser(low: int, high: int)
    requires
        low > OCTAVE,
        high > OCTAVE,
        crate::rounding::grid(high) >= 16 * crate::rounding::grid(low),
    ensures
        crate::rounding::grid(low - 1) < crate::rounding::grid(low),
        crate::rounding::grid(high) - crate::rounding::grid(high - 1) >= 16 * (crate::rounding::grid(low)
            - crate::rounding::grid(low - 1)),
{
    let octave = (low - 1) / OCTAVE as int - 1;
    let other = (high - 1) / OCTAVE as int - 1;
    let start = (octave + 1) * OCTAVE;
    let far = (octave + 5) * OCTAVE;
    lemma_spacing(low - 1);
    lemma_spacing(high - 1);
    crate::rounding::lemma_p2_pos(octave);
    crate::rounding::lemma_grid_code(octave, OCTAVE as int);
    crate::rounding::lemma_grid_code(octave + 4, OCTAVE as int);
    crate::rounding::lemma_p2_adds(4, octave);
    vstd::arithmetic::power2::lemma2_to64();
    assert(crate::rounding::p2(octave + 4) == 16 * crate::rounding::p2(octave));
    crate::rounding::lemma_grid_monotone(start, low - 1);
    crate::rounding::lemma_grid_monotone(low - 1, low);
    if high <= far {
        crate::rounding::lemma_grid_monotone(high, far);
    }
    assert(other >= octave + 4);
    crate::rounding::lemma_p2_monotone(octave + 4, other);
}

/// The edge before strip `k`.
proof fn lemma_edge(k: int) -> (edge: Scalar)
    requires
        0 <= k <= most_strips(),
    ensures
        edge.finite(),
        !edge.negative(),
        edge.units() == 30 * k * crate::scalar::one_units(),
{
    if k == 0 {
        assert(30 * k * crate::scalar::one_units() == 0) by (nonlinear_arith)
            requires
                k == 0,
        ;
        zero()
    } else {
        let code = crate::order::lemma_on_grid(15 * k, 150);
        crate::rounding::lemma_p2_step(149);
        let unit = crate::scalar::one_units();
        assert((15 * k) * (2 * unit) == 30 * k * unit) by (nonlinear_arith);
        Scalar { bits: code as u32 }
    }
}

proof fn lemma_thirty()
    ensures
        scalar(0x41f0_0000).finite(),  // 30.0
        scalar(0x41f0_0000).units() == 30 * crate::scalar::one_units(),  // 30.0
        crate::scalar::one_units() > 0,
{
    vstd::arithmetic::power2::lemma2_to64();
    crate::rounding::lemma_p2_pos(149);
    crate::order::lemma_whole_value(scalar(0x41f0_0000), 30, 19);  // 30.0
}

/// A number short of an edge, divided by the width of a strip, stays short of its
/// count.
proof fn lemma_quotient_short(x: Scalar, k: int)
    requires
        x.finite(),
        1 <= k <= most_strips(),
        0 <= x.units() < 30 * k * crate::scalar::one_units(),
    ensures
        x.div(scalar(0x41f0_0000)).finite(),  // 30.0
        0 <= x.div(scalar(0x41f0_0000)).units() < k * crate::scalar::one_units(),  // 30.0
{
    let unit = crate::scalar::one_units();
    let q = x.div(scalar(0x41f0_0000));  // 30.0
    lemma_thirty();
    crate::order::lemma_small_count(k as u32);
    crate::scalar::lemma_self_rounding(x);
    let whole = Scalar::from_u32(k as u32);
    let (a, t) = (x.units(), 30 * unit);
    assert(0 * t == 0 && a * unit >= 0) by (nonlinear_arith)
        requires
            a >= 0,
            unit > 0,
    ;
    assert(a * unit <= (k * unit) * t) by (nonlinear_arith)
        requires
            a < 30 * k * unit,
            t == 30 * unit,
            unit > 0,
    ;
    crate::order::lemma_quotient_bounds(x, scalar(0x41f0_0000), zero());  // 30.0
    crate::order::lemma_quotient_bounds(x, scalar(0x41f0_0000), whole);  // 30.0
    crate::order::lemma_order_of_values(zero(), q);
    crate::order::lemma_order_of_values(q, whole);
    lemma_not_reached(x, k);
}

proof fn lemma_not_reached(x: Scalar, k: int)
    requires
        x.finite(),
        1 <= k <= most_strips(),
        0 <= x.units() < 30 * k * crate::scalar::one_units(),
        x.div(scalar(0x41f0_0000)).finite(),  // 30.0
    ensures
        x.div(scalar(0x41f0_0000)).units() != k * crate::scalar::one_units(),  // 30.0
{
    let unit = crate::scalar::one_units();
    let q = x.div(scalar(0x41f0_0000));  // 30.0
    if q.units() == k * unit {
        let edge = lemma_edge(k);
        lemma_thirty();
        assert(k * unit > 0) by (nonlinear_arith)
            requires
                k >= 1,
                unit > 0,
        ;
        crate::scalar::lemma_self_rounding(x);
        crate::scalar::lemma_self_rounding(q);
        crate::scalar::lemma_self_rounding(edge);
        assert(x.size() > 0 && !x.zero()) by {
            if x.zero() {
                assert(q.units() == 0);
            }
        }
        let (low, high) = (q.magnitude(), edge.magnitude());
        let (g, down) = (crate::rounding::grid(low), crate::rounding::grid(low - 1));
        assert(g == k * unit);
        crate::rounding::lemma_p2_values();
        crate::order::lemma_power_of_two(0);
        if low < 127 * OCTAVE {
            crate::rounding::lemma_grid_monotone(low, 127 * OCTAVE);
            assert(k * unit >= unit) by (nonlinear_arith)
                requires
                    k >= 1,
                    unit > 0,
            ;
        }
        assert(30 * k * unit == 30 * (k * unit)) by (nonlinear_arith);
        if high <= low {
            crate::rounding::lemma_grid_monotone(high, low);
        }
        lemma_coarser(low, high);
        // The number is at most the one before the edge.
        if x.magnitude() >= high {
            crate::rounding::lemma_grid_monotone(high, x.magnitude());
        }
        crate::rounding::lemma_grid_monotone(x.magnitude(), high - 1);
        // It was rounded up from at least the midpoint.
        let a = x.size();
        assert(a * unit >= 0) by (nonlinear_arith)
            requires
                a >= 0,
                unit > 0,
        ;
        crate::rounding::lemma_nearest_exists(a * unit, 30 * unit);
        assert(crate::rounding::nearest(a * unit, 30 * unit) == low);
        assert((down + g) * (30 * unit) <= 2 * (a * unit));
        assert(30 * (down + g) <= 2 * a) by (nonlinear_arith)
            requires
                (down + g) * (30 * unit) <= 2 * (a * unit),
                unit > 0,
        ;
    }
}

/// Rounding a count down.
proof fn lemma_floor_count(q: Scalar)
    requires
        q.finite(),
        0 <= q.units() <= 0x100_0000 * crate::scalar::one_units(),
    ensures
        q.floor().to_u32() == q.units() / crate::scalar::one_units(),
{
    let unit = crate::scalar::one_units();
    crate::rounding::lemma_p2_pos(149);
    crate::scalar::lemma_self_rounding(q);
    let k = q.size() / unit;
    vstd::arithmetic::div_mod::lemma_div_pos_is_pos(q.size(), unit);
    vstd::arithmetic::div_mod::lemma_div_is_ordered(q.size(), 0x100_0000 * unit, unit);
    vstd::arithmetic::div_mod::lemma_div_multiples_vanish(0x100_0000, unit);
    assert(unit * 0x100_0000 == 0x100_0000 * unit) by (nonlinear_arith);
    if q.negative() {
        assert(q.size() == 0);
        vstd::arithmetic::div_mod::lemma_basic_div(unit - 1, unit);
        vstd::arithmetic::div_mod::lemma_basic_div(0, unit);
        assert(q.floor() == Scalar::signed_zero(true));
    } else {
        crate::order::lemma_small_count(k as u32);
        assert(q.floor() == Scalar::from_u32(k as u32));
    }
}

/// Rounding a count up.
proof fn lemma_ceil_count(q: Scalar)
    requires
        q.finite(),
        0 <= q.units() <= 0x80_0000 * crate::scalar::one_units(),
    ensures
        q.ceil().to_u32() == (q.units() + crate::scalar::one_units() - 1) / crate::scalar::one_units(),
{
    let unit = crate::scalar::one_units();
    crate::rounding::lemma_p2_pos(149);
    crate::scalar::lemma_self_rounding(q);
    let all = q.size() + unit - 1;
    let k = all / unit;
    vstd::arithmetic::div_mod::lemma_div_pos_is_pos(all, unit);
    vstd::arithmetic::div_mod::lemma_div_is_ordered(all, 0x80_0001 * unit, unit);
    vstd::arithmetic::div_mod::lemma_div_multiples_vanish(0x80_0001, unit);
    assert(unit * 0x80_0001 == 0x80_0001 * unit) by (nonlinear_arith);
    if q.negative() {
        assert(q.size() == 0);
        vstd::arithmetic::div_mod::lemma_basic_div(unit - 1, unit);
        vstd::arithmetic::div_mod::lemma_basic_div(0, unit);
        assert(q.ceil() == Scalar::signed_zero(true));
    } else {
        let down = q.neg().floor();
        assert(down == Scalar::whole(true, k));
        crate::order::lemma_small_count(k as u32);
        if k == 0 {
            assert(q.ceil() == zero());
        } else {
            assert(k * unit >= 0) by (nonlinear_arith)
                requires
                    k > 0,
                    unit > 0,
            ;
            crate::rounding::lemma_nearest_exists(k * unit, 1);
            assert(q.ceil() == Scalar::from_u32(k as u32));
        }
    }
}

/// The strips that a view reaches past.
proof fn lemma_first_strip(x: Scalar, k: int)
    requires
        x.finite(),
        1 <= k <= most_strips(),
        0 <= x.units() < 30 * k * crate::scalar::one_units(),
    ensures
        x.div(scalar(0x41f0_0000)).floor().to_u32() < k,  // 30.0
{
    let unit = crate::scalar::one_units();
    let q = x.div(scalar(0x41f0_0000));  // 30.0
    lemma_thirty();
    lemma_quotient_short(x, k);
    assert(k * unit <= 0x100_0000 * unit) by (nonlinear_arith)
        requires
            k <= 0x100_0000,
            unit > 0,
    ;
    lemma_floor_count(q);
    vstd::arithmetic::div_mod::lemma_fundamental_div_mod(q.units(), unit);
    vstd::arithmetic::div_mod::lemma_mod_bound(q.units(), unit);
    let n = q.units() / unit;
    assert(n < k) by (nonlinear_arith)
        requires
            unit * n < k * unit,
            unit > 0,
    ;
}

/// A view that reaches edge `k` asks for the strips before it.
proof fn lemma_last_strip(x: Scalar, k: int, edge: Scalar)
    requires
        0 <= k <= most_strips(),
        edge.finite(),
        edge.units() == 30 * k * crate::scalar::one_units(),
        edge.le(x),
    ensures
        x.div(scalar(0x41f0_0000)).ceil().to_u32() >= k,  // 30.0
{
    let unit = crate::scalar::one_units();
    let q = x.div(scalar(0x41f0_0000));  // 30.0
    let whole = Scalar::from_u32(k as u32);
    lemma_thirty();
    crate::order::lemma_small_count(k as u32);
    if x.finite() {
        crate::order::lemma_order_of_values(edge, x);
        let (a, t) = (x.units(), 30 * unit);
        assert(a * unit >= (k * unit) * t) by (nonlinear_arith)
            requires
                a >= 30 * k * unit,
                t == 30 * unit,
                unit > 0,
        ;
        crate::order::lemma_quotient_bounds(x, scalar(0x41f0_0000), whole);  // 30.0
        crate::order::lemma_whole_bounds(q);
        crate::order::lemma_truncation_monotone(whole, q);
        crate::order::lemma_truncation_monotone(q, q.ceil());
    } else {
        crate::scalar::lemma_self_rounding(edge);
        assert(30 * k * unit >= 0) by (nonlinear_arith)
            requires
                k >= 0,
                unit > 0,
        ;
        assert(x == Scalar::signed_infinity(false)) by {
            crate::order::lemma_order_of_values(edge, x);
            if x.negative() {
                crate::rounding::lemma_grid_monotone(0, x.magnitude());
                crate::rounding::lemma_grid_monotone(1, x.magnitude());
            }
        }
        assert(q == Scalar::signed_infinity(false));
        assert(q.ceil() == Scalar::signed_infinity(false));
    }
}

/// Where a view begins, and how long it is.
pub open spec fn view_start(offset: Scalar) -> int {
    if offset.units() > 0 {
        offset.units()
    } else {
        0
    }
}

proof fn lemma_view(x: Scalar)
    requires
        x.finite(),
    ensures
        crate::vector::larger(x, zero()).finite(),
        crate::vector::larger(x, zero()).units() == view_start(x),
{
    crate::order::lemma_order_of_values(zero(), x);
}

/// Every strip that meets the view is among the visible ones: strip `i` reaches
/// from `30 i` to `30 (i + 1)`, the view from the offset on over its size.
pub proof fn lemma_strips_in_view(offset: Scalar, size: Scalar, types: u32, i: int)
    requires
        offset.finite(),
        size.finite(),
        0 <= i <= types,
        i < most_strips(),
        view_start(offset) < 30 * (i + 1) * crate::scalar::one_units(),
        30 * i * crate::scalar::one_units() < view_start(offset) + view_start(size),
    ensures
        visible_range(offset, size, types).0 <= i < visible_range(offset, size, types).1,
{
    let start = crate::vector::larger(offset, zero());
    let length = crate::vector::larger(size, zero());
    lemma_view(offset);
    lemma_view(size);
    lemma_first_strip(start, i + 1);
    let edge = lemma_edge(i);
    crate::order::lemma_sum_bounds(start, length, edge);
    lemma_last_strip(start.add(length), i, edge);
}

/// No more cells are made than the view has room for: as many as its length holds,
/// and two for the strips that its ends cut, whatever the number of types.
pub proof fn lemma_few_strips(offset: Scalar, size: Scalar, types: u32)
    requires
        offset.finite(),
        size.finite(),
        view_start(offset) + view_start(size) <= 30 * most_strips() * crate::scalar::one_units(),
    ensures
        ({
            let width = 30 * crate::scalar::one_units();
            let (first, end) = visible_range(offset, size, types);
            end - first <= (view_start(size) + width - 1) / width + 2
        }),
{
    let unit = crate::scalar::one_units();
    let width = 30 * unit;
    let start = crate::vector::larger(offset, zero());
    let length = crate::vector::larger(size, zero());
    let sum = start.add(length);
    let (s, l) = (view_start(offset), view_start(size));
    lemma_thirty();
    lemma_view(offset);
    lemma_view(size);
    // Rounding up the exact end.
    let n = (s + l + width - 1) / width;
    vstd::arithmetic::div_mod::lemma_fundamental_div_mod(s + l + width - 1, width);
    vstd::arithmetic::div_mod::lemma_mod_bound(s + l + width - 1, width);
    assert(0 <= n <= most_strips()) by (nonlinear_arith)
        requires
            width * n <= s + l + width - 1,
            s + l + width - 1 < width * n + width,
            0 <= s + l <= 30 * most_strips() * unit,
            width == 30 * unit,
            unit > 0,
    ;
    let edge = lemma_edge(n);
    assert(width * n == 30 * n * unit) by (nonlinear_arith)
        requires
            width == 30 * unit,
    ;
    crate::order::lemma_sum_bounds(start, length, edge);
    crate::order::lemma_sum_bounds(start, length, zero());
    crate::order::lemma_order_of_values(sum, edge);
    crate::order::lemma_order_of_values(zero(), sum);
    lemma_end_count(sum, n);
    // Rounding down the start.
    let f = s / width;
    vstd::arithmetic::div_mod::lemma_fundamental_div_mod(s, width);
    vstd::arithmetic::div_mod::lemma_mod_bound(s, width);
    assert(0 <= f <= n) by (nonlinear_arith)
        requires
            width * f <= s,
            s < width * f + width,
            s + l <= width * n,
            0 <= s,
            0 <= l,
            width > 0,
    ;
    lemma_start_count(start, f, n);
    // The two together.
    let m = (l + width - 1) / width;
    vstd::arithmetic::div_mod::lemma_fundamental_div_mod(l + width - 1, width);
    vstd::arithmetic::div_mod::lemma_mod_bound(l + width - 1, width);
    assert(n <= f + 1 + m) by (nonlinear_arith)
        requires
            width * n <= s + l + width - 1,
            s < width * f + width,
            l + width - 1 < width * m + width,
            width > 0,
    ;
    assert(m >= 0) by (nonlinear_arith)
        requires
            l + width - 1 < width * m + width,
            l >= 0,
            width > 0,
    ;
}

proof fn lemma_end_count(x: Scalar, n: int)
    requires
        x.finite(),
        0 <= n <= most_strips(),
        0 <= x.units() <= 30 * n * crate::scalar::one_units(),
    ensures
        x.div(scalar(0x41f0_0000)).ceil().to_u32() <= n,  // 30.0
{
    let unit = crate::scalar::one_units();
    let q = x.div(scalar(0x41f0_0000));  // 30.0
    let whole = Scalar::from_u32(n as u32);
    lemma_thirty();
    crate::order::lemma_small_count(n as u32);
    let (a, t) = (x.units(), 30 * unit);
    assert(a * unit <= (n * unit) * t) by (nonlinear_arith)
        requires
            a <= 30 * n * unit,
            t == 30 * unit,
            unit > 0,
    ;
    assert(0 * t <= a * unit) by (nonlinear_arith)
        requires
            a >= 0,
            unit > 0,
    ;
    crate::order::lemma_quotient_bounds(x, scalar(0x41f0_0000), whole);  // 30.0
    crate::order::lemma_quotient_bounds(x, scalar(0x41f0_0000), zero());  // 30.0
    crate::order::lemma_order_of_values(q, whole);
    crate::order::lemma_order_of_values(zero(), q);
    assert(n * unit <= 0x80_0000 * unit) by (nonlinear_arith)
        requires
            n <= 0x80_0000,
            unit > 0,
    ;
    lemma_ceil_count(q);
    let b = q.units() + unit - 1;
    vstd::arithmetic::div_mod::lemma_fundamental_div_mod(b, unit);
    vstd::arithmetic::div_mod::lemma_mod_bound(b, unit);
    let k = b / unit;
    assert(k <= n) by (nonlinear_arith)
        requires
            unit * k <= n * unit + unit - 1,
            unit > 0,
    ;
}

proof fn lemma_start_count(x: Scalar, f: int, n: int)
    requires
        x.finite(),
        0 <= f <= n <= most_strips(),
        30 * crate::scalar::one_units() * f <= x.units() <= 30 * n * crate::scalar::one_units(),
    ensures
        f <= x.div(scalar(0x41f0_0000)).floor().to_u32(),  // 30.0
{
    let unit = crate::scalar::one_units();
    let q = x.div(scalar(0x41f0_0000));  // 30.0
    let (low, high) = (Scalar::from_u32(f as u32), Scalar::from_u32(n as u32));
    lemma_thirty();
    crate::order::lemma_small_count(f as u32);
    crate::order::lemma_small_count(n as u32);
    let (a, t) = (x.units(), 30 * unit);
    assert(a * unit <= (n * unit) * t) by (nonlinear_arith)
        requires
            a <= 30 * n * unit,
            t == 30 * unit,
            unit > 0,
    ;
    assert((f * unit) * t <= a * unit) by (nonlinear_arith)
        requires
            30 * unit * f <= a,
            t == 30 * unit,
            unit > 0,
    ;
    crate::order::lemma_quotient_bounds(x, scalar(0x41f0_0000), low);  // 30.0
    crate::order::lemma_quotient_bounds(x, scalar(0x41f0_0000), high);  // 30.0
    crate::order::lemma_order_of_values(low, q);
    crate::order::lemma_order_of_values(q, high);
    assert(0 <= f * unit && n * unit <= 0x100_0000 * unit) by (nonlinear_arith)
        requires
            0 <= f,
            n <= 0x100_0000,
            unit > 0,
    ;
    lemma_floor_count(q);
    vstd::arithmetic::div_mod::lemma_fundamental_div_mod(q.units(), unit);
    vstd::arithmetic::div_mod::lemma_mod_bound(q.units(), unit);
    let k = q.units() / unit;
    assert(f <= k) by (nonlinear_arith)
        requires
            f * unit < unit * k + unit,
            unit > 0,
    ;
}

} // verus!
