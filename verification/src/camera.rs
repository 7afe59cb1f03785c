//! Laws of moving the camera: wrapping its pan and zooming at the cursor.
use vstd::prelude::*;

use crate::model::Appearance;
use crate::scalar::{half, one, scalar, two, zero, Scalar};
use crate::vector::Vec2;

verus! {

/// A shifted coordinate below zero is raised by whole periods, exactly.
proof fn lemma_raised(x: Scalar) -> (q: int)
    requires
        x.finite(),
        x.add(one()).rem(two()).units() < 0,
    ensures
        ({
            let unit = crate::scalar::one_units();
            let y = x.add(one());
            let r = y.rem_euclid(two());
            &&& r.finite()
            &&& 0 <= r.units() <= 2 * unit
            &&& r.units() == y.units() + q * (2 * unit)
        }),
{
    let period = 2 * crate::scalar::one_units();
    let place = crate::rounding::p2(126);
    let y = x.add(one());
    let r = y.rem_euclid(two());
    crate::laws::lemma_next_finite(x);
    crate::laws::lemma_period_remainder(y);
    crate::order::lemma_order_of_values(y.rem(two()), zero());
    let k = crate::laws::lemma_shifted_coarse(x);
    assert((-k) * place == -(k * place)) by (nonlinear_arith);
    let steps = crate::laws::lemma_steps_wrap(y, -k);
    crate::rounding::lemma_p2_values();
    crate::rounding::lemma_p2_adds(24, 126);
    crate::rounding::lemma_p2_step(149);
    crate::rounding::lemma_p2_pos(126);
    let turns = (-k - steps) / 0x100_0000;
    assert(-k - steps == turns * 0x100_0000);
    let g = turns * place;
    assert((-k) * place - steps * place == 0x100_0000 * g) by (nonlinear_arith)
        requires
            -k - steps == turns * 0x100_0000,
            g == turns * place,
    ;
    assert((-turns) * period == -(0x100_0000 * g)) by (nonlinear_arith)
        requires
            period == 0x100_0000 * place,
            g == turns * place,
    ;
    assert(0 <= steps * place <= 0x100_0000 * place) by (nonlinear_arith)
        requires
            0 <= steps <= 0x100_0000,
            place > 0,
    ;
    -turns
}

/// A shifted coordinate is wrapped by whole periods, exactly.
proof fn lemma_wrapped_exactly(x: Scalar) -> (q: int)
    requires
        x.finite(),
    ensures
        ({
            let unit = crate::scalar::one_units();
            let y = x.add(one());
            let r = y.rem_euclid(two());
            &&& y.finite()
            &&& r.finite()
            &&& 0 <= r.units() <= 2 * unit
            &&& r.units() == y.units() + q * (2 * unit)
        }),
{
    let period = 2 * crate::scalar::one_units();
    let y = x.add(one());
    let w = y.rem(two());
    crate::laws::lemma_next_finite(x);
    crate::laws::lemma_period_remainder(y);
    crate::order::lemma_order_of_values(w, zero());
    if w.units() < 0 {
        lemma_raised(x)
    } else {
        let turns = y.size() / period;
        crate::rounding::lemma_p2_pos(149);
        vstd::arithmetic::div_mod::lemma_fundamental_div_mod(y.size(), period);
        if y.size() == 0 {
            vstd::arithmetic::div_mod::lemma_basic_div(0, period);
        }
        assert((-turns) * period == -(period * turns)) by (nonlinear_arith);
        assert(turns * period == period * turns) by (nonlinear_arith);
        if y.negative() {
            assert(y.size() % period == 0);
        }
        if y.negative() { turns } else { -turns }
    }
}

/// A camera coordinate, wrapped.
pub open spec fn wrapped(x: Scalar) -> Scalar {
    x.add(one()).rem_euclid(two()).sub(one())
}

/// A coordinate moved by `q` periods, but for the rounding of the two additions
/// that wrapping makes: one part in 2^24 of what each adds up to.
pub open spec fn keeps_phase(before: Scalar, after: Scalar, q: int) -> bool {
    let unit = crate::scalar::one_units();
    0x100_0000 * crate::order::gap(after.units(), before.units() + q * (2 * unit)) <= crate::order::gap(
        before.units(),
        -unit,
    ) + unit
}

pub(crate) proof fn lemma_wrap_error(x: Scalar) -> (q: int)
    requires
        x.finite(),
    ensures
        keeps_phase(x, wrapped(x), q),
{
    let q = lemma_wrapped_exactly(x);
    let r = x.add(one()).rem_euclid(two());
    let minus = one().neg();
    crate::rounding::lemma_p2_values();
    crate::order::lemma_power_of_two(0);
    crate::order::lemma_sum_error(x, one());
    crate::order::lemma_sum_bounds(r, minus, one());
    crate::order::lemma_sum_bounds(r, minus, minus);
    crate::order::lemma_order_of_values(r.sub(one()), one());
    crate::order::lemma_order_of_values(minus, r.sub(one()));
    crate::order::lemma_sum_error(r, minus);
    q
}

/// Wrapping keeps the camera over the same place of the world: every finite pan
/// moves by whole periods, up to rounding.
pub proof fn lemma_wrapping_keeps_phase(a: Appearance)
    requires
        a.pan.finite(),
    ensures
        exists|q: int| keeps_phase(a.pan.x, a.wrapped().pan.x, q),
        exists|q: int| keeps_phase(a.pan.y, a.wrapped().pan.y, q),
        a.wrapped() == (Appearance { pan: a.wrapped().pan, ..a }),
{
    let x = lemma_wrap_error(a.pan.x);
    let y = lemma_wrap_error(a.pan.y);
    assert(keeps_phase(a.pan.x, a.wrapped().pan.x, x));
    assert(keeps_phase(a.pan.y, a.wrapped().pan.y, y));
}

/// Numbers of at least a half are whole multiples of 2^-24.
proof fn lemma_half_coarse(x: Scalar) -> (k: int)
    requires
        x.finite(),
        x.magnitude() >= 0x3f00_0000,
    ensures
        x.size() == k * crate::rounding::p2(125),
{
    let (m, e) = (x.magnitude() % 0x80_0000 + 0x80_0000, x.magnitude() / 0x80_0000 - 1);
    crate::rounding::lemma_p2_adds(e - 125, 125);
    let (up, place) = (crate::rounding::p2(e - 125), crate::rounding::p2(125));
    assert(m * (up * place) == (m * up) * place) by (nonlinear_arith);
    m * up
}

/// Numbers of one value, unless it is zero, are one number.
proof fn lemma_same_number(a: Scalar, b: Scalar)
    requires
        a.finite(),
        b.finite(),
        a.units() == b.units(),
        a.units() != 0,
    ensures
        a == b,
{
    crate::order::lemma_order_of_values(a, b);
    crate::scalar::lemma_self_rounding(a);
    crate::scalar::lemma_self_rounding(b);
}

/// A number from zero up to the period is its own remainder.
proof fn lemma_own_remainder(r: Scalar)
    requires
        r.finite(),
        !r.negative(),
        r.units() < 2 * crate::scalar::one_units(),
    ensures
        r.rem_euclid(two()) == r,
{
    crate::laws::lemma_period_remainder(r);
    crate::scalar::lemma_self_rounding(r);
    crate::rounding::lemma_p2_pos(149);
    vstd::arithmetic::div_mod::lemma_small_mod(r.size() as nat, (2 * crate::scalar::one_units()) as nat);
    let rest = r.rem(two());
    crate::order::lemma_order_of_values(rest, zero());
    if r.size() != 0 {
        lemma_same_number(rest, r);
    }
}

/// From one up, taking one off and adding it again changes nothing.
proof fn lemma_upper_settles(r: Scalar)
    requires
        r.finite(),
        crate::scalar::one_units() <= r.units() < 2 * crate::scalar::one_units(),
    ensures
        wrapped(r.sub(one())) == r.sub(one()),
{
    let unit = crate::scalar::one_units();
    let place = crate::rounding::p2(126);
    crate::rounding::lemma_p2_pos(126);
    crate::rounding::lemma_p2_pos(149);
    crate::rounding::lemma_p2_values();
    crate::rounding::lemma_p2_adds(23, 126);
    crate::order::lemma_power_of_two(0);
    crate::order::lemma_order_of_values(one(), r);
    let k = crate::laws::lemma_coarse(r);
    assert(0x80_0000 <= k < 0x100_0000) by (nonlinear_arith)
        requires
            0x80_0000 * place <= k * place < 0x100_0000 * place,
            place > 0,
    ;
    let n = k - 0x80_0000;
    assert(n * place == k * place - 0x80_0000 * place) by (nonlinear_arith)
        requires
            n == k - 0x80_0000,
    ;
    let w = r.sub(one());
    crate::order::lemma_sum_exact(r, one().neg(), n, 126);
    crate::order::lemma_sum_exact(w, one(), k, 126);
    lemma_same_number(w.add(one()), r);
    lemma_own_remainder(r);
}

/// Below one, what is left after taking one off is a whole number of steps of
/// 2^-24, so that adding one again and taking it off is exact.
proof fn lemma_lower_settles(r: Scalar)
    requires
        r.finite(),
        0 <= r.units() < crate::scalar::one_units(),
    ensures
        wrapped(r.sub(one())) == r.sub(one()),
{
    let unit = crate::scalar::one_units();
    let place = crate::rounding::p2(125);
    let w = r.sub(one());
    let minus = one().neg();
    crate::rounding::lemma_p2_pos(125);
    crate::rounding::lemma_p2_pos(149);
    crate::rounding::lemma_p2_values();
    crate::rounding::lemma_p2_adds(24, 125);
    crate::rounding::lemma_p2_adds(23, 125);
    crate::rounding::lemma_p2_step(148);
    crate::rounding::lemma_grid_code(125, 0x80_0000);
    crate::order::lemma_power_of_two(0);
    assert(2 * half().units() == unit);
    crate::scalar::lemma_self_rounding(r);
    crate::order::lemma_order_of_values(half(), r);
    let k = if r.units() >= half().units() {
        let all = lemma_half_coarse(r);
        let k = 0x100_0000 - all;
        assert(k * place == unit - r.units()) by (nonlinear_arith)
            requires
                k == 0x100_0000 - all,
                r.units() == all * place,
                unit == 0x100_0000 * place,
        ;
        assert(0 < k <= 0x100_0000) by (nonlinear_arith)
            requires
                0 < k * place <= 0x100_0000 * place,
                place > 0,
        ;
        crate::order::lemma_sum_exact(r, minus, k, 125);
        k
    } else {
        crate::order::lemma_sum_bounds(r, minus, half().neg());
        crate::order::lemma_sum_bounds(r, minus, minus);
        crate::order::lemma_order_of_values(w, half().neg());
        crate::order::lemma_order_of_values(minus, w);
        crate::scalar::lemma_self_rounding(w);
        let k = lemma_half_coarse(w);
        assert(0 < k <= 0x100_0000) by (nonlinear_arith)
            requires
                0 < k * place <= 0x100_0000 * place,
                place > 0,
        ;
        k
    };
    assert(w.finite() && w.units() == -(k * place));
    let n = 0x100_0000 - k;
    assert(n * place == unit - k * place) by (nonlinear_arith)
        requires
            n == 0x100_0000 - k,
            unit == 0x100_0000 * place,
    ;
    assert(k * place > 0) by (nonlinear_arith)
        requires
            k > 0,
            place > 0,
    ;
    let y = w.add(one());
    crate::order::lemma_sum_exact(w, one(), n, 125);
    crate::scalar::lemma_self_rounding(y);
    assert(n * place >= 0) by (nonlinear_arith)
        requires
            n >= 0,
            place > 0,
    ;
    assert(!y.negative()) by {
        if w.units() + unit == 0 {
            assert(y == zero());
        }
    }
    lemma_own_remainder(y);
    crate::order::lemma_sum_exact(y, minus, k, 125);
    lemma_same_number(y.sub(one()), w);
}

/// A wrapped coordinate stays where it is when it is wrapped again.
proof fn lemma_coordinate_settles(x: Scalar)
    requires
        x.finite(),
    ensures
        wrapped(wrapped(x)) == wrapped(x),
{
    let r = x.add(one()).rem_euclid(two());
    let q = lemma_wrapped_exactly(x);
    crate::laws::lemma_coordinate_wraps(x);
    crate::rounding::lemma_p2_values();
    crate::rounding::lemma_p2_pos(149);
    crate::order::lemma_power_of_two(0);
    if r.units() >= 2 * crate::scalar::one_units() {
        crate::order::lemma_sum_bounds(r, one().neg(), one());
    }
    if r.units() >= crate::scalar::one_units() {
        lemma_upper_settles(r);
    } else {
        lemma_lower_settles(r);
    }
}

/// Wrapping the camera a second time changes nothing.
pub proof fn lemma_wrapping_settles(a: Appearance)
    requires
        a.pan.finite(),
    ensures
        a.wrapped().wrapped() == a.wrapped(),
{
    lemma_coordinate_settles(a.pan.x);
    lemma_coordinate_settles(a.pan.y);
}


proof fn lemma_product_size(x: int, y: int, a: int, b: int)
    requires
        -a <= x <= a,
        -b <= y <= b,
    ensures
        -(a * b) <= x * y <= a * b,
{
    assert(-(a * b) <= x * y <= a * b) by (nonlinear_arith)
        requires
            -a <= x <= a,
            -b <= y <= b,
    ;
}

/// The reciprocal of a zoom, and how far it is off.
proof fn lemma_zoom_recip(z: Scalar)
    requires
        (scalar(0x3e80_0000)).le(z),  // 0.25
        z.le(scalar(0x41a0_0000)),  // 20.0
    ensures
        z.finite(),
        z.recip().finite(),
        ({
            let unit = crate::scalar::one_units();
            &&& unit <= 4 * z.units()
            &&& z.units() <= 20 * unit
            &&& 0 <= z.recip().units() <= 4 * unit
            &&& 0x100_0000 * crate::order::gap(z.recip().units() * z.units(), unit * unit) <= unit * unit
        }),
{
    let unit = crate::scalar::one_units();
    let four = scalar(0x4080_0000);  // 4.0
    lemma_units_large();
    vstd::arithmetic::power2::lemma2_to64();
    crate::rounding::lemma_p2_values();
    crate::order::lemma_power_of_two(0);
    crate::order::lemma_whole_value(four, 4, 21);
    crate::order::lemma_whole_value(scalar(0x41a0_0000), 20, 19);  // 20.0
    crate::rounding::lemma_p2_step(147);
    crate::rounding::lemma_p2_step(148);
    crate::rounding::lemma_grid_code(124, 0x80_0000);
    crate::rounding::lemma_p2_adds(23, 124);
    crate::order::lemma_order_of_values(scalar(0x3e80_0000), z);  // 0.25
    crate::order::lemma_order_of_values(z, scalar(0x41a0_0000));  // 20.0
    assert(4 * scalar(0x3e80_0000).units() == unit);  // 0.25
    let zu = z.units();
    assert(unit * unit <= (4 * unit) * zu && 0 * zu == 0 && unit * unit >= 0) by (nonlinear_arith)
        requires
            unit <= 4 * zu,
            unit > 0,
    ;
    crate::order::lemma_quotient_bounds(one(), z, four);
    crate::order::lemma_quotient_bounds(one(), z, zero());
    crate::order::lemma_order_of_values(zero(), z.recip());
    crate::order::lemma_order_of_values(z.recip(), four);
    crate::order::lemma_quotient_error(one(), z);
    let error = crate::order::gap(z.recip().units() * zu, unit * unit);
    assert(0x100_0000 * (20 * unit) <= unit * unit) by (nonlinear_arith)
        requires
            unit >= 0x100_0000 * 20,
    ;
}

/// The units in one are many.
proof fn lemma_units_large()
    ensures
        crate::scalar::one_units() >= 0x1_0000_0000_0000,
{
    vstd::arithmetic::power2::lemma2_to64_rest();
    crate::rounding::lemma_p2_monotone(48, 149);
}

/// The change of the reciprocal zoom.
proof fn lemma_zoom_change(r1: Scalar, r2: Scalar)
    requires
        r1.finite(),
        r2.finite(),
        0 <= r1.units() <= 4 * crate::scalar::one_units(),
        0 <= r2.units() <= 4 * crate::scalar::one_units(),
    ensures
        ({
            let unit = crate::scalar::one_units();
            let change = r1.sub(r2);
            &&& change.finite()
            &&& -(4 * unit) <= change.units() <= 4 * unit
            &&& 0x100_0000 * crate::order::gap(change.units(), r1.units() - r2.units()) <= 4 * unit
        }),
{
    let minus = r2.neg();
    let change = r1.sub(r2);
    let four = scalar(0x4080_0000);  // 4.0
    vstd::arithmetic::power2::lemma2_to64();
    crate::order::lemma_whole_value(four, 4, 21);
    crate::order::lemma_sum_bounds(r1, minus, four);
    crate::order::lemma_sum_bounds(r1, minus, four.neg());
    crate::order::lemma_order_of_values(change, four);
    crate::order::lemma_order_of_values(four.neg(), change);
    crate::order::lemma_sum_error(r1, minus);
}

/// The part of the shift that the cursor's offset makes.
proof fn lemma_zoom_part(offset: Scalar, change: Scalar)
    requires
        offset.finite(),
        change.finite(),
        -(4 * crate::scalar::one_units()) <= change.units() <= 4 * crate::scalar::one_units(),
        offset.mul(change).finite(),
    ensures
        ({
            let unit = crate::scalar::one_units();
            let part = offset.mul(change);
            let size = crate::order::gap(offset.units(), 0);
            &&& crate::order::gap(part.units(), 0) <= 5 * size + 1
            &&& 0x100_0000 * crate::order::gap(part.units() * unit, offset.units() * change.units()) <= 4 * (size * unit)
                + 0x80_0000 * unit
        }),
{
    let unit = crate::scalar::one_units();
    let size = crate::order::gap(offset.units(), 0);
    let (o, c, p) = (offset.units(), change.units(), offset.mul(change).units());
    lemma_units_large();
    lemma_product_size(o, c, size, 4 * unit);
    assert(size * (4 * unit) == 4 * (size * unit)) by (nonlinear_arith);
    assert(size * unit >= 0) by (nonlinear_arith)
        requires
            size >= 0,
            unit > 0,
    ;
    crate::order::lemma_product_error(offset, change);
    assert(-(5 * (size * unit) + unit) <= p * unit <= 5 * (size * unit) + unit);
    assert(-(5 * size + 1) <= p <= 5 * size + 1) by (nonlinear_arith)
        requires
            -(5 * (size * unit) + unit) <= p * unit <= 5 * (size * unit) + unit,
            unit > 0,
    ;
}

proof fn lemma_spread(u: int, p: int, e: int, zn: int, o: int, z: int, n: int)
    ensures
        u * ((p + e) * zn + o * u * (z - n)) == (p * u) * zn + (e * u) * zn + o * (u * u) * z - o * (u * u) * n,
{
    let (x, y, v, w) = (p * zn, e * zn, (o * u) * z, (o * u) * n);
    assert((p + e) * zn == x + y) by (nonlinear_arith)
        requires
            x == p * zn,
            y == e * zn,
    ;
    assert((o * u) * (z - n) == v - w) by (nonlinear_arith)
        requires
            v == (o * u) * z,
            w == (o * u) * n,
    ;
    assert(u * (x + y + (v - w)) == u * x + u * y + u * v - u * w) by (nonlinear_arith);
    assert(u * (p * zn) == (p * u) * zn) by (nonlinear_arith);
    assert(u * (e * zn) == (e * u) * zn) by (nonlinear_arith);
    assert(u * ((o * u) * z) == o * (u * u) * z) by (nonlinear_arith);
    assert(u * ((o * u) * n) == o * (u * u) * n) by (nonlinear_arith);
}

/// Exact and computed values of a zoom differ by little: the sum of the errors of
/// its steps.
proof fn lemma_zoom_errors(
    u: int,
    z: int,
    n: int,
    o: int,
    r1: int,
    r2: int,
    c: int,
    p: int,
    e: int,
    rest: int,
)
    requires
        u > 0,
        z > 0,
        n > 0,
        u <= 4 * z,
        u <= 4 * n,
        0x100_0000 * crate::order::gap(r1 * z, u * u) <= u * u,
        0x100_0000 * crate::order::gap(r2 * n, u * u) <= u * u,
        0x100_0000 * crate::order::gap(c, r1 - r2) <= 4 * u,
        0x100_0000 * crate::order::gap(p * u, o * c) <= 4 * (crate::order::gap(o, 0) * u) + 0x80_0000 * u,
        0x100_0000 * crate::order::gap(e, 0) <= rest,
    ensures
        0x100_0000 * crate::order::gap((p + e) * (z * n) + o * u * (z - n), 0) <= (z * n) * (16 * crate::order::gap(o, 0)
            + 0x80_0000 + rest),
{
    let big = 0x100_0000int;
    let size = crate::order::gap(o, 0);
    let (a1, a2) = (r1 * z - u * u, r2 * n - u * u);
    let (ec, ep) = (c - (r1 - r2), p * u - o * c);
    let zn = z * n;
    let t = (p + e) * zn + o * u * (z - n);
    let uu = u * u;
    lemma_spread(u, p, e, zn, o, z, n);
    lemma_gathered_errors(o, r1, r2, ec, ep, c, p * u, zn);
    assert((o * r1) * zn == o * (a1 * n) + o * uu * n) by (nonlinear_arith)
        requires
            r1 * z == a1 + uu,
            zn == z * n,
    ;
    assert((o * r2) * zn == o * (a2 * z) + o * uu * z) by (nonlinear_arith)
        requires
            r2 * n == a2 + uu,
            zn == z * n,
    ;
    assert((o * ec + ep) * zn + (e * u) * zn == (o * ec + ep + e * u) * zn) by (nonlinear_arith);
    assert(u * t == o * (a1 * n) - o * (a2 * z) + (o * ec + ep + e * u) * zn);
    assert(zn > 0) by (nonlinear_arith)
        requires
            zn == z * n,
            z > 0,
            n > 0,
    ;
    // The reciprocals.
    let room = u * zn;
    lemma_recip_share(u, z, n, o, a1);
    lemma_recip_share(u, n, z, o, a2);
    assert(n * z == z * n) by (nonlinear_arith);
    // The rest.
    let other = o * ec + ep + e * u;
    lemma_product_size(o, big * ec, size, 4 * u);
    lemma_product_size(big * e, u, rest, u);
    let (ou, ru) = (size * u, rest * u);
    assert(o * (big * ec) == big * (o * ec)) by (nonlinear_arith);
    assert((big * e) * u == big * (e * u)) by (nonlinear_arith);
    assert(size * (4 * u) == 4 * ou) by (nonlinear_arith)
        requires
            ou == size * u,
    ;
    let cap = 8 * ou + 0x80_0000 * u + ru;
    assert(-cap <= big * other <= cap);
    assert(cap >= 0) by (nonlinear_arith)
        requires
            cap == 8 * (size * u) + 0x80_0000 * u + rest * u,
            size >= 0,
            u > 0,
            rest >= 0,
    ;
    lemma_product_size(big * other, zn, cap, zn);
    assert((big * other) * zn == big * (other * zn)) by (nonlinear_arith);
    let total = (16 * size + 0x80_0000 + rest) * room;
    assert(cap * zn == (8 * size + 0x80_0000 + rest) * room) by (nonlinear_arith)
        requires
            cap == 8 * (size * u) + 0x80_0000 * u + rest * u,
            room == u * zn,
    ;
    assert(total == (8 * size + 0x80_0000 + rest) * room + 2 * (4 * (size * room))) by (nonlinear_arith)
        requires
            total == (16 * size + 0x80_0000 + rest) * room,
    ;
    assert(-total <= big * (u * t) <= total);
    // Cancel one factor.
    let most = zn * (16 * size + 0x80_0000 + rest);
    assert(total == u * most) by (nonlinear_arith)
        requires
            total == (16 * size + 0x80_0000 + rest) * room,
            room == u * zn,
            most == zn * (16 * size + 0x80_0000 + rest),
    ;
    assert(big * (u * t) == u * (big * t)) by (nonlinear_arith);
    assert(-most <= big * t <= most) by (nonlinear_arith)
        requires
            -(u * most) <= u * (big * t) <= u * most,
            u > 0,
    ;
}

proof fn lemma_gathered_errors(o: int, r1: int, r2: int, ec: int, ep: int, c: int, pu: int, zn: int)
    requires
        pu == o * c + ep,
        c == r1 - r2 + ec,
    ensures
        pu * zn == (o * r1) * zn - (o * r2) * zn + (o * ec + ep) * zn,
{
    assert(o * c == o * r1 - o * r2 + o * ec) by (nonlinear_arith)
        requires
            c == r1 - r2 + ec,
    ;
    let (x, y, v) = (o * r1, o * r2, o * ec + ep);
    assert((x - y + v) * zn == x * zn - y * zn + v * zn) by (nonlinear_arith);
}

proof fn lemma_recip_share(u: int, z: int, n: int, o: int, a: int)
    requires
        u > 0,
        z > 0,
        n > 0,
        u <= 4 * z,
        -(u * u) <= 0x100_0000 * a <= u * u,
    ensures
        ({
            let most = 4 * (crate::order::gap(o, 0) * (u * (z * n)));
            -most <= 0x100_0000 * (o * (a * n)) <= most
        }),
{
    let big = 0x100_0000int;
    let size = crate::order::gap(o, 0);
    let uu = u * u;
    lemma_product_size(o, big * a, size, uu);
    let x = o * (big * a);
    let su = size * u;
    let top = 4 * (su * z);
    assert(size * uu <= top) by (nonlinear_arith)
        requires
            uu == u * u,
            top == 4 * ((size * u) * z),
            u <= 4 * z,
            size >= 0,
            u > 0,
    ;
    lemma_product_size(x, n, top, n);
    assert(x * n == big * (o * (a * n))) by (nonlinear_arith)
        requires
            x == o * (big * a),
    ;
    assert(top * n == 4 * (size * (u * (z * n)))) by (nonlinear_arith)
        requires
            top == 4 * ((size * u) * z),
    ;
}

/// The point at `offset` from a camera coordinate moved by `q` periods and by no
/// more than the rounding of the steps that move it, when the coordinate and the
/// zoom changed: (31 |offset| + 3 |coordinate| + 3) / 2^24.
///
/// The point is the camera's coordinate plus the cursor's offset over the zoom;
/// both sides are multiplied by both zooms.
pub open spec fn drifts_little(before: Scalar, after: Scalar, offset: Scalar, z: Scalar, n: Scalar, q: int) -> bool {
    let unit = crate::scalar::one_units();
    let moved = after.units() - before.units() - q * (2 * unit);
    let both = z.units() * n.units();
    0x100_0000 * crate::order::gap(moved * both + offset.units() * unit * (z.units() - n.units()), 0) <= both * (31
        * crate::order::gap(offset.units(), 0) + 3 * crate::order::gap(before.units(), 0) + 3 * unit)
}

/// Where a coordinate ends up finite, so was all that led to it.
proof fn lemma_finite_steps(pan: Scalar, offset: Scalar, change: Scalar)
    requires
        pan.finite(),
        change.finite(),
        wrapped(pan.add(offset.mul(change))).finite(),
    ensures
        offset.finite(),
        offset.mul(change).finite(),
        pan.add(offset.mul(change)).finite(),
{
    let sum = pan.add(offset.mul(change));
    if !sum.finite() {
        let y = sum.add(one());
        assert(!y.finite());
        assert(y.rem(two()).nan());
        assert(y.rem_euclid(two()).nan());
    }
}

/// How far a shifted and wrapped coordinate is from where it should be.
proof fn lemma_shift_error(pan: Scalar, part: Scalar, size: int) -> (q: int)
    requires
        pan.finite(),
        part.finite(),
        pan.add(part).finite(),
        crate::order::gap(part.units(), 0) <= 5 * size + 1,
        size >= 0,
    ensures
        ({
            let unit = crate::scalar::one_units();
            let e = wrapped(pan.add(part)).units() - (pan.units() + part.units()) - q * (2 * unit);
            0x100_0000 * crate::order::gap(e, 0) <= 15 * size + 3 * crate::order::gap(pan.units(), 0) + 2 * unit + 3
        }),
{
    crate::order::lemma_sum_error(pan, part);
    crate::rounding::lemma_p2_pos(149);
    lemma_wrap_error(pan.add(part))
}

proof fn lemma_zoom_axis(pan: Scalar, offset: Scalar, z: Scalar, n: Scalar) -> (q: int)
    requires
        pan.finite(),
        (scalar(0x3e80_0000)).le(z),  // 0.25
        z.le(scalar(0x41a0_0000)),  // 20.0
        (scalar(0x3e80_0000)).le(n),  // 0.25
        n.le(scalar(0x41a0_0000)),  // 20.0
        wrapped(pan.add(offset.mul(z.recip().sub(n.recip())))).finite(),
    ensures
        drifts_little(pan, wrapped(pan.add(offset.mul(z.recip().sub(n.recip())))), offset, z, n, q),
{
    lemma_zoom_recip(z);
    lemma_zoom_recip(n);
    lemma_zoom_change(z.recip(), n.recip());
    lemma_zoom_moves(pan, offset, z.recip(), n.recip(), z, n)
}

proof fn lemma_zoom_moves(pan: Scalar, offset: Scalar, r1: Scalar, r2: Scalar, z: Scalar, n: Scalar) -> (q: int)
    requires
        pan.finite(),
        r1.sub(r2).finite(),
        wrapped(pan.add(offset.mul(r1.sub(r2)))).finite(),
        ({
            let unit = crate::scalar::one_units();
            &&& unit <= 4 * z.units()
            &&& unit <= 4 * n.units()
            &&& 0x100_0000 * crate::order::gap(r1.units() * z.units(), unit * unit) <= unit * unit
            &&& 0x100_0000 * crate::order::gap(r2.units() * n.units(), unit * unit) <= unit * unit
            &&& 0x100_0000 * crate::order::gap(r1.sub(r2).units(), r1.units() - r2.units()) <= 4 * unit
            &&& -(4 * unit) <= r1.sub(r2).units() <= 4 * unit
        }),
    ensures
        drifts_little(pan, wrapped(pan.add(offset.mul(r1.sub(r2)))), offset, z, n, q),
{
    let unit = crate::scalar::one_units();
    let change = r1.sub(r2);
    let part = offset.mul(change);
    let after = wrapped(pan.add(part));
    let (size, far) = (crate::order::gap(offset.units(), 0), crate::order::gap(pan.units(), 0));
    let rest = 15 * size + 3 * far + 2 * unit + 3;
    lemma_units_large();
    lemma_finite_steps(pan, offset, change);
    lemma_zoom_part(offset, change);
    let q = lemma_shift_error(pan, part, size);
    let e = after.units() - (pan.units() + part.units()) - q * (2 * unit);
    lemma_zoom_errors(
        unit,
        z.units(),
        n.units(),
        offset.units(),
        r1.units(),
        r2.units(),
        change.units(),
        part.units(),
        e,
        rest,
    );
    let both = z.units() * n.units();
    assert(both >= 0) by (nonlinear_arith)
        requires
            both == z.units() * n.units(),
            z.units() >= 0,
            n.units() >= 0,
    ;
    lemma_wider(both, 16 * size + 0x80_0000 + rest, 31 * size + 3 * far + 3 * unit);
    q
}

proof fn lemma_wider(both: int, a: int, b: int)
    requires
        both >= 0,
        a <= b,
    ensures
        both * a <= both * b,
{
    assert(both * a <= both * b) by (nonlinear_arith)
        requires
            both >= 0,
            a <= b,
    ;
}

/// Zooming keeps the world under the cursor in place: along each axis the point
/// under it moves by whole periods and a rounding that grows with the cursor's
/// distance from the middle, wherever the camera is and ends up.
pub proof fn lemma_zoom_keeps_cursor_point(a: Appearance, cursor: Vec2, viewport: Vec2, scroll: Scalar, growth: Scalar)
    requires
        (scalar(0x3e80_0000)).le(a.zoom),  // 0.25
        a.zoom.le(scalar(0x41a0_0000)),  // 20.0
        !growth.nan(),
        a.pan.finite(),
        a.zoomed(cursor, viewport, scroll, growth).pan.finite(),
    ensures
        ({
            let after = a.zoomed(cursor, viewport, scroll, growth);
            let offset = a.camera_offset(cursor, viewport);
            &&& exists|q: int| drifts_little(a.pan.x, after.pan.x, offset.x, a.zoom, after.zoom, q)
            &&& exists|q: int| drifts_little(a.pan.y, after.pan.y, offset.y, a.zoom, after.zoom, q)
        }),
{
    let after = a.zoomed(cursor, viewport, scroll, growth);
    let offset = a.camera_offset(cursor, viewport);
    let n = a.grown_zoom(growth);
    crate::laws::lemma_zoom_stays_limited(a, cursor, viewport, scroll, growth);
    if after == a {
        lemma_zoom_recip(a.zoom);
        lemma_units_large();
        lemma_no_drift(a.pan.x, offset.x, a.zoom);
        lemma_no_drift(a.pan.y, offset.y, a.zoom);
    } else {
        let x = lemma_zoom_axis(a.pan.x, offset.x, a.zoom, n);
        let y = lemma_zoom_axis(a.pan.y, offset.y, a.zoom, n);
        assert(drifts_little(a.pan.x, after.pan.x, offset.x, a.zoom, n, x));
        assert(drifts_little(a.pan.y, after.pan.y, offset.y, a.zoom, n, y));
    }
}

proof fn lemma_no_drift(pan: Scalar, offset: Scalar, z: Scalar)
    requires
        z.units() > 0,
    ensures
        drifts_little(pan, pan, offset, z, z, 0),
{
    let unit = crate::scalar::one_units();
    crate::rounding::lemma_p2_pos(149);
    let both = z.units() * z.units();
    let o = offset.units() * unit;
    let room = 31 * crate::order::gap(offset.units(), 0) + 3 * crate::order::gap(pan.units(), 0) + 3 * unit;
    assert(both >= 0 && 0 * both == 0 && o * 0 == 0) by (nonlinear_arith)
        requires
            both == z.units() * z.units(),
    ;
    assert(both * room >= 0) by (nonlinear_arith)
        requires
            both >= 0,
            room >= 0,
    ;
}

} // verus!
