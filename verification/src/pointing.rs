//! Where the pointer points, and what dragging and turning the wheel move.
use vstd::prelude::*;

use crate::camera::drifts_little;
use crate::input::{
    after_input, after_turn, after_turns, dragged, focuses, scroll_delta, scrolls, widened, Pointer, Screen, Turn, Wheel,
};
use crate::interaction::{cursor_world, wrapped_delta, BrushControl, InteractionTools, Tool};
use crate::model::{world, Appearance};
use crate::nearly::{
    lemma_known, lemma_known_digits, lemma_known_itself, lemma_known_product, lemma_known_quotient, near, power,
};
use crate::order::gap;
use crate::roughly::{
    bounded, lemma_off_itself, lemma_off_product, lemma_off_quotient, lemma_off_rescaled, lemma_off_sum, off,
};
use crate::scalar::{half, one, scalar, two, zero, Scalar};
use crate::ui::Controls;
use crate::vector::Vec2;

verus! {

/// Where a coordinate lies in a view, from -1 at one end to 1 at the other.
spec fn normalized(c: Scalar, w: Scalar) -> Scalar {
    c.div(w).mul(two()).sub(one())
}

/// `c` lies in a view that is `w` long.
pub open spec fn in_view(c: Scalar, w: Scalar) -> bool {
    &&& w.finite()
    &&& one().le(w)
    &&& zero().le(c)
    &&& c.le(w)
}

proof fn lemma_normalized(c: Scalar, w: Scalar)
    requires
        in_view(c, w),
    ensures
        off(normalized(c, w), 2 * c.units() - w.units(), w.units(), 6),
        bounded(normalized(c, w), 1),
        w.units() >= crate::scalar::one_units(),
        0 <= c.units() <= w.units(),
{
    let unit = crate::scalar::one_units();
    let (u, v) = (c.units(), w.units());
    let (t, minus) = (c.div(w), one().neg());
    crate::rounding::lemma_p2_pos(149);
    crate::rounding::lemma_p2_values();
    crate::rounding::lemma_p2_u128();
    crate::rounding::lemma_p2_monotone(40, 149);
    crate::order::lemma_power_of_two(0);
    crate::order::lemma_power_of_two(1);
    assert(one().units() == unit && two().units() == 2 * unit);
    crate::order::lemma_order_of_values(one(), w);
    crate::order::lemma_order_of_values(zero(), c);
    crate::order::lemma_order_of_values(c, w);
    assert(0 * v <= u * unit <= unit * v) by (nonlinear_arith)
        requires
            0 <= u <= v,
            unit > 0,
    ;
    crate::order::lemma_quotient_bounds(c, w, zero());
    crate::order::lemma_quotient_bounds(c, w, one());
    crate::order::lemma_order_of_values(zero(), t);
    crate::order::lemma_order_of_values(t, one());
    crate::order::lemma_quotient_error(c, w);
    assert(unit * v == v * unit && 0x100_0000 * v <= v * unit) by (nonlinear_arith)
        requires
            unit >= 0x100_0000,
            v > 0,
    ;
    assert(off(t, u, v, 1));
    assert(off(two(), 2, 1, 0));
    assert(bounded(two(), 2) && bounded(t, 1));
    let d = t.mul(two());
    lemma_off_product(t, u, v, 1, 1, two(), 2, 1, 0, 2, 2 * u, v);
    let p = t.units();
    assert(0 * unit <= p * (2 * unit)) by (nonlinear_arith)
        requires
            p >= 0,
            unit > 0,
    ;
    crate::order::lemma_product_bounds(t, two(), zero());
    crate::order::lemma_order_of_values(zero(), d);
    assert((-unit) * v == (-v) * unit) by (nonlinear_arith);
    assert(off(minus, -v, v, 0));
    lemma_off_sum(d, 2 * u, 5, minus, -v, 0, v, 1);
}

/// A coordinate of the cursor in camera heights from the middle, with the factor of
/// its axis.
proof fn lemma_offset_axis(c: Scalar, w: Scalar, f: Scalar)
    requires
        in_view(c, w),
        bounded(f, 16),
    ensures
        off(normalized(c, w).mul(f), (2 * c.units() - w.units()) * f.units(), w.units() * crate::scalar::one_units(), 113),
        bounded(normalized(c, w).mul(f), 16),
{
    let unit = crate::scalar::one_units();
    crate::rounding::lemma_p2_pos(149);
    lemma_normalized(c, w);
    lemma_off_itself(f);
    lemma_off_product(
        normalized(c, w),
        2 * c.units() - w.units(),
        w.units(),
        6,
        1,
        f,
        f.units(),
        unit,
        0,
        16,
        (2 * c.units() - w.units()) * f.units(),
        w.units() * unit,
    );
}

/// From the middle of the view, the cursor lies as far to the right as its share of half
/// the width, times the aspect ratio, and as far up as its share of half the height:
/// rows are counted downward.
pub proof fn lemma_cursor_offset(view: Appearance, cursor: Vec2, viewport: Vec2)
    requires
        in_view(cursor.x, viewport.x),
        in_view(cursor.y, viewport.y),
        bounded(view.aspect, 16),
    ensures
        ({
            let unit = crate::scalar::one_units();
            let offset = view.camera_offset(cursor, viewport);
            let (w, h) = (viewport.x.units(), viewport.y.units());
            &&& off(offset.x, (2 * cursor.x.units() - w) * view.aspect.units(), w * unit, 113)
            &&& off(offset.y, (h - 2 * cursor.y.units()) * unit, h * unit, 113)
        }),
{
    let unit = crate::scalar::one_units();
    let minus = scalar(0xbf80_0000);  // -1.0
    lemma_minus_one();
    lemma_offset_axis(cursor.x, viewport.x, view.aspect);
    lemma_offset_axis(cursor.y, viewport.y, minus);
    let (h, c) = (viewport.y.units(), cursor.y.units());
    assert((2 * c - h) * (-unit) == (h - 2 * c) * unit) by (nonlinear_arith);
}

proof fn lemma_minus_one()
    ensures
        scalar(0xbf80_0000).units() == -crate::scalar::one_units(),  // -1.0
        bounded(scalar(0xbf80_0000), 16),  // -1.0
{
    crate::rounding::lemma_p2_pos(149);
    crate::rounding::lemma_p2_values();
    crate::order::lemma_power_of_two(0);
    assert(one().neg() == scalar(0xbf80_0000));  // -1.0
}

/// `point`, moved by `q` worlds, is where the camera at `pan` and `zoom` sees coordinate
/// `c` of a view `w` long, up to a part of a world unit: 1024 units for each camera
/// height from the corner of the world.
pub open spec fn points_at(point: Scalar, c: int, w: int, factor: int, pan: int, zoom: int, q: int) -> bool {
    let unit = crate::scalar::one_units();
    let seen = (2 * c - w) * (factor * unit) + (pan + unit) * (w * zoom);
    22 * gap((point.units() - q * (2048 * unit)) * (w * zoom), 1024 * seen) <= (w * zoom) * unit
}

proof fn lemma_cursor_axis(c: Scalar, w: Scalar, f: Scalar, pan: Scalar, zoom: Scalar) -> (q: int)
    requires
        in_view(c, w),
        bounded(f, 16),
        bounded(pan, 1),
        zoom.finite(),
        (scalar(0x3e80_0000)).le(zoom),  // 0.25
    ensures
        points_at(pointed(c, w, f, pan, zoom), c.units(), w.units(), f.units(), pan.units(), zoom.units(), q),
{
    let unit = crate::scalar::one_units();
    reveal(pointed);
    let o = normalized(c, w).mul(f);
    let p = o.div(zoom);
    let g = p.add(pan);
    let h = g.add(one());
    let (u, v, a, b, z) = (c.units(), w.units(), f.units(), pan.units(), zoom.units());
    crate::rounding::lemma_p2_pos(149);
    crate::rounding::lemma_p2_values();
    crate::order::lemma_power_of_two(0);
    assert(one().units() == unit);
    lemma_quarter(zoom);
    lemma_normalized(c, w);
    lemma_offset_axis(c, w, f);
    let (n1, d1) = ((2 * u - v) * a, v * unit);
    assert(d1 > 0) by (nonlinear_arith)
        requires
            d1 == v * unit,
            v > 0,
            unit > 0,
    ;
    let (n2, d2) = (n1 * unit, d1 * z);
    lemma_off_quotient(o, n1, d1, 113, 16, zoom, 4, n2, d2);
    let by = v * z;
    assert(by > 0 && d2 == unit * by) by (nonlinear_arith)
        requires
            by == v * z,
            d1 == v * unit,
            d2 == d1 * z,
            v > 0,
            z > 0,
    ;
    assert(d2 > 0) by (nonlinear_arith)
        requires
            d2 == unit * by,
            unit > 0,
            by > 0,
    ;
    lemma_off_itself(pan);
    lemma_off_rescaled(pan, b, unit, 0, by, b * by, d2);
    lemma_off_sum(p, n2, 517, pan, b * by, 0, d2, 65);
    lemma_off_itself(one());
    lemma_off_rescaled(one(), unit, unit, 0, by, d2, d2);
    lemma_off_sum(g, n2 + b * by, 582, one(), d2, 0, d2, 66);
    let n3 = n2 + b * by + d2;
    let far = world().mul(half());
    lemma_half_world();
    let k = h.mul(far);
    lemma_off_product(h, n3, d2, 648, 66, far, 1024, 1, 0, 1024, 1024 * n3, d2);
    let q = crate::scatter::lemma_world_error(k);
    let point = k.rem_euclid(world());
    let seen = (2 * u - v) * (a * unit) + (b + unit) * by;
    assert(n3 == seen) by (nonlinear_arith)
        requires
            n3 == n2 + b * by + d2,
            n2 == ((2 * u - v) * a) * unit,
            d2 == unit * by,
            seen == (2 * u - v) * (a * unit) + (b + unit) * by,
    ;
    lemma_pointed(point.units(), k.units(), q, by, 1024 * seen);
    q
}

proof fn lemma_pointed(r: int, k: int, q: int, by: int, exact: int)
    requires
        by > 0,
        ({
            let unit = crate::scalar::one_units();
            &&& 0x100_0000 * gap(k * (unit * by), exact * unit) <= 731_137 * ((unit * by) * unit)
            &&& 0x100_0000 * gap(r, k + q * (2048 * unit)) <= 2048 * unit
        }),
    ensures
        22 * gap((r - q * (2048 * crate::scalar::one_units())) * by, exact) <= by * crate::scalar::one_units(),
{
    let unit = crate::scalar::one_units();
    crate::rounding::lemma_p2_pos(149);
    let m = 0x100_0000int;
    let e = r - q * (2048 * unit) - k;
    let g = k * by - exact;
    assert(k * (unit * by) - exact * unit == g * unit) by (nonlinear_arith)
        requires
            g == k * by - exact,
    ;
    assert((unit * by) * unit == (by * unit) * unit) by (nonlinear_arith);
    let all = by * unit;
    assert(m * g <= 731_137 * all && m * g >= -(731_137 * all)) by (nonlinear_arith)
        requires
            m * (g * unit) <= 731_137 * (all * unit),
            m * (g * unit) >= -(731_137 * (all * unit)),
            unit > 0,
    ;
    let eb = e * by;
    assert(m * eb <= 2048 * all && m * eb >= -(2048 * all)) by (nonlinear_arith)
        requires
            m * e <= 2048 * unit,
            m * e >= -(2048 * unit),
            eb == e * by,
            all == by * unit,
            by > 0,
            m == 0x100_0000,
    ;
    assert((r - q * (2048 * unit)) * by == eb + k * by) by (nonlinear_arith)
        requires
            eb == e * by,
            e == r - q * (2048 * unit) - k,
    ;
    assert(all > 0) by (nonlinear_arith)
        requires
            all == by * unit,
            by > 0,
            unit > 0,
    ;
}

pub(crate) proof fn lemma_quarter(zoom: Scalar)
    requires
        zoom.finite(),
        (scalar(0x3e80_0000)).le(zoom),  // 0.25
    ensures
        crate::scalar::one_units() <= 4 * zoom.units(),
        zoom.units() > 0,
{
    crate::rounding::lemma_p2_pos(149);
    crate::nearly::lemma_power(-2);
    crate::rounding::lemma_p2_step(147);
    crate::rounding::lemma_p2_step(148);
    crate::order::lemma_order_of_values(power(-2), zoom);
}

proof fn lemma_side()
    ensures
        world().units() == 2048 * crate::scalar::one_units(),
{
    vstd::arithmetic::power2::lemma2_to64();
    crate::order::lemma_power_of_two(11);
}

proof fn lemma_half_world()
    ensures
        off(world().mul(half()), 1024, 1, 0),
        bounded(world().mul(half()), 1024),
        world().units() == 2048 * crate::scalar::one_units(),
{
    let unit = crate::scalar::one_units();
    let exact = scalar(0x4480_0000);  // 1024.0
    crate::rounding::lemma_p2_pos(149);
    vstd::arithmetic::power2::lemma2_to64();
    crate::order::lemma_power_of_two(10);
    crate::order::lemma_power_of_two(11);
    assert(world().units() == 2048 * unit && exact.units() == 1024 * unit);
    crate::nearly::lemma_power(-1);
    crate::rounding::lemma_p2_step(148);
    assert(power(-1) == half());
    assert(2 * half().units() == unit);
    let x = half().units();
    assert((2048 * unit) * x == (1024 * unit) * unit) by (nonlinear_arith)
        requires
            2 * x == unit,
    ;
    crate::order::lemma_product_bounds(world(), half(), exact);
    crate::order::lemma_order_of_values(world().mul(half()), exact);
    crate::order::lemma_order_of_values(exact, world().mul(half()));
}

/// The cursor points at what the camera shows under it: along each axis the position
/// lies as far from the one in the middle of the view as the cursor does, at the zoom,
/// and upward where the cursor is above the middle.
pub proof fn lemma_cursor_points_at_what_it_covers(view: Appearance, cursor: Vec2, viewport: Vec2)
    requires
        in_view(cursor.x, viewport.x),
        in_view(cursor.y, viewport.y),
        bounded(view.aspect, 16),
        bounded(view.pan.x, 1),
        bounded(view.pan.y, 1),
        view.zoom.finite(),
        (scalar(0x3e80_0000)).le(view.zoom),  // 0.25
    ensures
        ({
            let unit = crate::scalar::one_units();
            let point = cursor_world(&view, cursor, viewport);
            let (w, h, zoom) = (viewport.x.units(), viewport.y.units(), view.zoom.units());
            let down = -unit;
            &&& exists|q: int| points_at(point.x, cursor.x.units(), w, view.aspect.units(), view.pan.x.units(), zoom, q)
            &&& exists|q: int| points_at(point.y, cursor.y.units(), h, down, view.pan.y.units(), zoom, q)
        }),
{
    lemma_cursor_axes(view, cursor, viewport);
    lemma_both_axes(view, cursor, viewport, cursor_world(&view, cursor, viewport));
}

proof fn lemma_both_axes(view: Appearance, cursor: Vec2, viewport: Vec2, point: Vec2)
    requires
        in_view(cursor.x, viewport.x),
        in_view(cursor.y, viewport.y),
        bounded(view.aspect, 16),
        bounded(view.pan.x, 1),
        bounded(view.pan.y, 1),
        view.zoom.finite(),
        (scalar(0x3e80_0000)).le(view.zoom),  // 0.25
        point.x == pointed(cursor.x, viewport.x, view.aspect, view.pan.x, view.zoom),
        point.y == pointed(cursor.y, viewport.y, scalar(0xbf80_0000), view.pan.y, view.zoom),  // -1.0
    ensures
        ({
            let unit = crate::scalar::one_units();
            let (w, h, zoom) = (viewport.x.units(), viewport.y.units(), view.zoom.units());
            let down = -unit;
            &&& exists|q: int| points_at(point.x, cursor.x.units(), w, view.aspect.units(), view.pan.x.units(), zoom, q)
            &&& exists|q: int| points_at(point.y, cursor.y.units(), h, down, view.pan.y.units(), zoom, q)
        }),
{
    let minus = scalar(0xbf80_0000);  // -1.0
    lemma_minus_one();
    let x = lemma_cursor_axis(cursor.x, viewport.x, view.aspect, view.pan.x, view.zoom);
    let y = lemma_cursor_axis(cursor.y, viewport.y, minus, view.pan.y, view.zoom);
    let (w, h, zoom) = (viewport.x.units(), viewport.y.units(), view.zoom.units());
    assert(points_at(point.x, cursor.x.units(), w, view.aspect.units(), view.pan.x.units(), zoom, x));
    let down = minus.units();
    assert(points_at(point.y, cursor.y.units(), h, down, view.pan.y.units(), zoom, y));
}

/// A coordinate of the world under a cursor.
#[verifier::opaque]
spec fn pointed(c: Scalar, w: Scalar, f: Scalar, pan: Scalar, zoom: Scalar) -> Scalar {
    normalized(c, w).mul(f).div(zoom).add(pan).add(one()).mul(world().mul(half())).rem_euclid(world())
}

proof fn lemma_cursor_axes(view: Appearance, cursor: Vec2, viewport: Vec2)
    requires
        viewport.x.finite(),
        one().le(viewport.x),
        viewport.y.finite(),
        one().le(viewport.y),
    ensures
        cursor_world(&view, cursor, viewport).x == pointed(cursor.x, viewport.x, view.aspect, view.pan.x, view.zoom),
        cursor_world(&view, cursor, viewport).y == pointed(
            cursor.y,
            viewport.y,
            scalar(0xbf80_0000),  // -1.0
            view.pan.y,
            view.zoom,
        ),
{
    reveal(pointed);
    lemma_larger(viewport.x);
    lemma_larger(viewport.y);
}

proof fn lemma_larger(w: Scalar)
    requires
        w.finite(),
        one().le(w),
    ensures
        crate::vector::larger(w, one()) == w,
{
}

/// A coordinate moved by `q` periods and by twice the motion over the height of the view
/// and the zoom, up to rounding.
pub open spec fn follows(before: int, after: int, motion: int, height: int, zoom: int, q: int) -> bool {
    let unit = crate::scalar::one_units();
    let (moved, exact) = (after - before - q * (2 * unit), motion * (2 * (unit * unit)));
    0x100_0000 * gap(moved * (height * zoom), exact) <= 13 * gap(exact, 0) + 6 * ((height * zoom) * unit)
}

/// What a pixel of motion comes to in camera heights.
spec fn pixel(height: Scalar, zoom: Scalar) -> Scalar {
    two().div(height.max(one())).div(zoom)
}

proof fn lemma_pixel(height: Scalar, zoom: Scalar)
    requires
        one().le(height),
        height.le(power(20)),
        power(-10).le(zoom),
        zoom.le(power(10)),
    ensures
        near(
            pixel(height, zoom),
            2 * (crate::scalar::one_units() * crate::scalar::one_units()),
            height.units() * zoom.units(),
            5,
        ),
        pixel(height, zoom).units() <= crate::rounding::p2(181),
        height.units() > 0,
        zoom.units() > 0,
{
    let unit = crate::scalar::one_units();
    let (h, z) = (height.units(), zoom.units());
    crate::rounding::lemma_p2_values();
    crate::rounding::lemma_p2_pos(149);
    vstd::arithmetic::power2::lemma2_to64();
    assert(height.max(one()) == height);
    assert(power(-20).le(height));
    lemma_known_digits(two(), 127, 0x80_0000, 2, 1, 2);
    lemma_known_itself(height, 20);
    lemma_known_itself(zoom, 10);
    lemma_known_quotient(two(), 2, 1, 1, 2, height, h, unit, 0, 20, 2 * unit, h);
    assert((2 * unit) * unit == 2 * (unit * unit)) by (nonlinear_arith);
    lemma_known_quotient(two().div(height), 2 * unit, h, 3, 22, zoom, z, unit, 0, 10, 2 * (unit * unit), h * z);
    lemma_known(two().div(height).div(zoom), 2 * (unit * unit), h * z, 5, 32);
    lemma_known(height, h, unit, 0, 20);
    lemma_known(zoom, z, unit, 0, 10);
}

/// A step by a motion, as far as it is rounded.
proof fn lemma_motion(motion: Scalar, scale: Scalar, whole: int)
    requires
        motion.finite(),
        -crate::rounding::p2(169) <= motion.units() <= crate::rounding::p2(169),
        whole > 0,
        near(scale, 2 * (crate::scalar::one_units() * crate::scalar::one_units()), whole, 5),
        scale.units() <= crate::rounding::p2(181),
    ensures
        ({
            let unit = crate::scalar::one_units();
            let (step, exact) = (motion.mul(scale), motion.units() * (2 * (unit * unit)));
            &&& step.finite()
            &&& -crate::rounding::p2(201) <= step.units() <= crate::rounding::p2(201)
            &&& 0x100_0000 * gap(step.units() * whole, exact) <= 7 * gap(exact, 0) + 0x80_0000 * whole
        }),
{
    let unit = crate::scalar::one_units();
    let step = motion.mul(scale);
    let (m, s, t) = (motion.units(), scale.units(), 2 * (unit * unit));
    let most = power(52);
    let (a, b) = (crate::rounding::p2(169), crate::rounding::p2(181));
    crate::rounding::lemma_p2_pos(149);
    crate::rounding::lemma_p2_pos(169);
    crate::rounding::lemma_p2_pos(181);
    crate::rounding::lemma_p2_adds(169, 181);
    crate::rounding::lemma_p2_adds(201, 149);
    crate::nearly::lemma_power(52);
    let c = most.units();
    assert(-(a * b) <= m * s <= a * b) by (nonlinear_arith)
        requires
            -a <= m <= a,
            0 <= s <= b,
            a > 0,
    ;
    assert((-c) * unit == -(c * unit)) by (nonlinear_arith);
    crate::order::lemma_product_bounds(motion, scale, most);
    crate::order::lemma_product_bounds(motion, scale, most.neg());
    crate::order::lemma_order_of_values(step, most);
    crate::order::lemma_order_of_values(most.neg(), step);
    crate::order::lemma_product_error(motion, scale);
    let w = step.units();
    let far = gap(m, 0);
    let k = 0x100_0000int;
    let e = w * unit - m * s;
    let over = s * whole - t * unit;
    let tu = t * unit;
    assert(k * over <= 5 * tu && k * over >= -(5 * tu));
    assert(tu > 0) by (nonlinear_arith)
        requires
            tu == (2 * (unit * unit)) * unit,
            unit > 0,
    ;
    assert(gap(m * s, 0) == far * s) by (nonlinear_arith)
        requires
            far == if m < 0 { -m } else { m },
            s >= 0,
    ;
    let sw = s * whole;
    assert(sw <= 2 * tu);
    let (first, second) = (e * whole, m * over);
    assert(k * e <= far * s + 0x80_0000 * unit && k * e >= -(far * s + 0x80_0000 * unit)) by {
        assert(far * s >= 0) by (nonlinear_arith)
            requires
                far >= 0,
                s >= 0,
        ;
    }
    assert(k * first <= far * sw + (0x80_0000 * unit) * whole && k * first >= -(far * sw + (0x80_0000 * unit) * whole)) by (nonlinear_arith)
        requires
            k * e <= far * s + 0x80_0000 * unit,
            k * e >= -(far * s + 0x80_0000 * unit),
            first == e * whole,
            sw == s * whole,
            whole > 0,
            k == 0x100_0000,
    ;
    let ft = far * t;
    assert(far * sw <= (2 * ft) * unit) by (nonlinear_arith)
        requires
            sw <= 2 * tu,
            tu == t * unit,
            ft == far * t,
            far >= 0,
    ;
    assert(k * second <= (5 * ft) * unit && k * second >= -((5 * ft) * unit)) by (nonlinear_arith)
        requires
            k * over <= 5 * tu,
            k * over >= -(5 * tu),
            second == m * over,
            tu == t * unit,
            ft == far * t,
            far == if m < 0 { -m } else { m },
            k == 0x100_0000,
    ;
    let exact = m * t;
    let g = w * whole - exact;
    assert(g * unit == first + second) by (nonlinear_arith)
        requires
            g == w * whole - exact,
            exact == m * t,
            first == e * whole,
            e == w * unit - m * s,
            second == m * over,
            over == s * whole - t * unit,
    ;
    assert(gap(exact, 0) == ft) by (nonlinear_arith)
        requires
            exact == m * t,
            ft == far * t,
            far == if m < 0 { -m } else { m },
            t >= 0,
    ;
    let all = 7 * ft + 0x80_0000 * whole;
    assert(all * unit == (7 * ft) * unit + (0x80_0000 * unit) * whole) by (nonlinear_arith)
        requires
            all == 7 * ft + 0x80_0000 * whole,
    ;
    assert((7 * ft) * unit == (2 * ft) * unit + (5 * ft) * unit) by (nonlinear_arith);
    assert(k * g <= all && k * g >= -all) by (nonlinear_arith)
        requires
            k * (g * unit) <= all * unit,
            k * (g * unit) >= -(all * unit),
            unit > 0,
    ;
}

/// A coordinate after a drag.
#[verifier::opaque]
spec fn dragged_axis(pan: Scalar, motion: Scalar, height: Scalar, zoom: Scalar) -> Scalar {
    crate::camera::wrapped(pan.add(motion.mul(pixel(height, zoom))))
}

proof fn lemma_drag_axis(pan: Scalar, motion: Scalar, height: Scalar, zoom: Scalar) -> (q: int)
    requires
        one().le(height),
        height.le(power(20)),
        power(-10).le(zoom),
        zoom.le(power(10)),
        bounded(pan, 1),
        motion.finite(),
        -crate::rounding::p2(169) <= motion.units() <= crate::rounding::p2(169),
    ensures
        follows(
            pan.units(),
            dragged_axis(pan, motion, height, zoom).units(),
            motion.units(),
            height.units(),
            zoom.units(),
            q,
        ),
{
    let unit = crate::scalar::one_units();
    let whole = height.units() * zoom.units();
    let step = motion.mul(pixel(height, zoom));
    let exact = motion.units() * (2 * (unit * unit));
    lemma_pixel(height, zoom);
    assert(whole > 0) by (nonlinear_arith)
        requires
            whole == height.units() * zoom.units(),
            height.units() > 0,
            zoom.units() > 0,
    ;
    lemma_motion(motion, pixel(height, zoom), whole);
    let q = lemma_drag_step(pan, step);
    let after = dragged_axis(pan, motion, height, zoom);
    assert(after == crate::camera::wrapped(pan.add(step))) by {
        reveal(dragged_axis);
    }
    lemma_followed(pan.units(), step.units(), pan.add(step).units(), after.units(), q, whole, exact);
    q
}

proof fn lemma_drag_step(pan: Scalar, step: Scalar) -> (q: int)
    requires
        bounded(pan, 1),
        step.finite(),
        -crate::rounding::p2(201) <= step.units() <= crate::rounding::p2(201),
    ensures
        ({
            let unit = crate::scalar::one_units();
            let sum = pan.add(step);
            let after = crate::camera::wrapped(sum);
            &&& 0x100_0000 * gap(sum.units(), pan.units() + step.units()) <= gap(pan.units() + step.units(), 0)
            &&& 0x100_0000 * gap(after.units(), sum.units() + q * (2 * unit)) <= gap(sum.units(), -unit) + unit
        }),
{
    let sum = pan.add(step);
    let most = power(53);
    crate::nearly::lemma_power(53);
    crate::rounding::lemma_p2_pos(149);
    crate::rounding::lemma_p2_step(201);
    crate::rounding::lemma_p2_monotone(149, 201);
    assert(most.units() == 2 * crate::rounding::p2(201));
    crate::order::lemma_sum_bounds(pan, step, most);
    crate::order::lemma_sum_bounds(pan, step, most.neg());
    crate::order::lemma_order_of_values(sum, most);
    crate::order::lemma_order_of_values(most.neg(), sum);
    crate::order::lemma_sum_error(pan, step);
    crate::camera::lemma_wrap_error(sum)
}

proof fn lemma_followed(pan: int, step: int, sum: int, after: int, q: int, whole: int, exact: int)
    requires
        ({
            let unit = crate::scalar::one_units();
            &&& -unit <= pan <= unit
            &&& 0x100_0000 * gap(sum, pan + step) <= gap(pan + step, 0)
            &&& 0x100_0000 * gap(after, sum + q * (2 * unit)) <= gap(sum, -unit) + unit
        }),
        whole > 0,
        0x100_0000 * gap(step * whole, exact) <= 7 * gap(exact, 0) + 0x80_0000 * whole,
    ensures
        0x100_0000 * gap((after - pan - q * (2 * crate::scalar::one_units())) * whole, exact) <= 13 * gap(exact, 0) + 6 * (
        whole * crate::scalar::one_units()),
{
    let unit = crate::scalar::one_units();
    let k = 0x100_0000int;
    crate::rounding::lemma_p2_pos(149);
    crate::rounding::lemma_p2_u128();
    crate::rounding::lemma_p2_monotone(40, 149);
    let far = gap(step, 0);
    let e = after - pan - step - q * (2 * unit);
    assert(k * e <= 5 * unit + 3 * far && k * e >= -(5 * unit + 3 * far));
    let eb = e * whole;
    let (wu, fw) = (whole * unit, far * whole);
    assert(k * eb <= 5 * wu + 3 * fw && k * eb >= -(5 * wu + 3 * fw)) by (nonlinear_arith)
        requires
            k * e <= 5 * unit + 3 * far,
            k * e >= -(5 * unit + 3 * far),
            eb == e * whole,
            wu == whole * unit,
            fw == far * whole,
            whole > 0,
            k == 0x100_0000,
    ;
    assert(gap(step * whole, 0) == fw) by (nonlinear_arith)
        requires
            fw == far * whole,
            far == if step < 0 { -step } else { step },
            whole > 0,
    ;
    assert(fw <= 2 * gap(exact, 0) + whole);
    assert(0x100_0000 * whole <= wu) by (nonlinear_arith)
        requires
            wu == whole * unit,
            unit >= 0x100_0000,
            whole > 0,
    ;
    assert((after - pan - q * (2 * unit)) * whole == eb + step * whole) by (nonlinear_arith)
        requires
            eb == e * whole,
            e == after - pan - step - q * (2 * unit),
    ;
}

/// The world follows the pointer: dragging moves the camera against the motion, by the
/// world under as many pixels at the zoom, and by whole periods.
pub proof fn lemma_drag_follows_pointer(a: Appearance, motion: Vec2, height: Scalar)
    requires
        one().le(height),
        height.le(power(20)),
        power(-10).le(a.zoom),
        a.zoom.le(power(10)),
        bounded(a.pan.x, 1),
        bounded(a.pan.y, 1),
        motion.finite(),
        -crate::rounding::p2(169) <= motion.x.units() <= crate::rounding::p2(169),
        -crate::rounding::p2(169) <= motion.y.units() <= crate::rounding::p2(169),
    ensures
        ({
            let after = dragged(a, motion, height);
            let (h, z, left, up) = (height.units(), a.zoom.units(), -motion.x.units(), motion.y.units());
            &&& exists|q: int| follows(a.pan.x.units(), after.pan.x.units(), left, h, z, q)
            &&& exists|q: int| follows(a.pan.y.units(), after.pan.y.units(), up, h, z, q)
            &&& after.zoom == a.zoom && after.size == a.size && after.glow == a.glow && after.aspect == a.aspect
        }),
{
    lemma_drag_axes(a, motion, height);
    lemma_both_drags(a, motion, height, dragged(a, motion, height).pan);
}

proof fn lemma_drag_axes(a: Appearance, motion: Vec2, height: Scalar)
    ensures
        dragged(a, motion, height).pan.x == dragged_axis(a.pan.x, motion.x.neg(), height, a.zoom),
        dragged(a, motion, height).pan.y == dragged_axis(a.pan.y, motion.y, height, a.zoom),
        dragged(a, motion, height) == (Appearance { pan: dragged(a, motion, height).pan, ..a }),
{
    reveal(dragged_axis);
}

proof fn lemma_both_drags(a: Appearance, motion: Vec2, height: Scalar, after: Vec2)
    requires
        one().le(height),
        height.le(power(20)),
        power(-10).le(a.zoom),
        a.zoom.le(power(10)),
        bounded(a.pan.x, 1),
        bounded(a.pan.y, 1),
        motion.finite(),
        -crate::rounding::p2(169) <= motion.x.units() <= crate::rounding::p2(169),
        -crate::rounding::p2(169) <= motion.y.units() <= crate::rounding::p2(169),
        after.x == dragged_axis(a.pan.x, motion.x.neg(), height, a.zoom),
        after.y == dragged_axis(a.pan.y, motion.y, height, a.zoom),
    ensures
        ({
            let (h, z, left, up) = (height.units(), a.zoom.units(), -motion.x.units(), motion.y.units());
            &&& exists|q: int| follows(a.pan.x.units(), after.x.units(), left, h, z, q)
            &&& exists|q: int| follows(a.pan.y.units(), after.y.units(), up, h, z, q)
        }),
{
    let (h, z, left, up) = (height.units(), a.zoom.units(), -motion.x.units(), motion.y.units());
    lemma_drag_found(a.pan.x, motion.x.neg(), left, height, a.zoom);
    lemma_drag_found(a.pan.y, motion.y, up, height, a.zoom);
    let x = choose|q: int| follows(a.pan.x.units(), after.x.units(), left, h, z, q);
    let y = choose|q: int| follows(a.pan.y.units(), after.y.units(), up, h, z, q);
    assert(follows(a.pan.x.units(), after.x.units(), left, h, z, x));
    assert(follows(a.pan.y.units(), after.y.units(), up, h, z, y));
}

proof fn lemma_drag_found(pan: Scalar, motion: Scalar, m: int, height: Scalar, zoom: Scalar)
    requires
        one().le(height),
        height.le(power(20)),
        power(-10).le(zoom),
        zoom.le(power(10)),
        bounded(pan, 1),
        motion.finite(),
        -crate::rounding::p2(169) <= motion.units() <= crate::rounding::p2(169),
        m == motion.units(),
    ensures
        exists|q: int|
            follows(
                pan.units(),
                dragged_axis(pan, motion, height, zoom).units(),
                m,
                height.units(),
                zoom.units(),
                q,
            ),
{
    let q = lemma_drag_axis(pan, motion, height, zoom);
}

/// A turn of the wheel over the world zooms about the cursor, counted from the corner of
/// the part of the window that shows the world: what lies under it stays there. With a
/// brush in hand and Shift held, the view stays as it is.
pub proof fn lemma_wheel_zooms_about_the_cursor(
    radius: Scalar,
    a: Appearance,
    pointer: Pointer,
    screen: Screen,
    tool: Tool,
    turn: Turn,
    cursor: Vec2,
)
    requires
        pointer.cursor == Some(cursor),
        (scalar(0x3e80_0000)).le(a.zoom),  // 0.25
        a.zoom.le(scalar(0x41a0_0000)),  // 20.0
        !turn.zoom_growth.nan(),
        a.pan.finite(),
        after_turn(radius, a, pointer, screen, tool, turn).1.pan.finite(),
    ensures
        ({
            let (width, after) = after_turn(radius, a, pointer, screen, tool, turn);
            let inside = Vec2 { x: cursor.x.sub(screen.origin.x), y: cursor.y.sub(screen.origin.y) };
            let offset = a.camera_offset(inside, screen.size);
            &&& tool != Tool::Navigate && pointer.shift ==> after == a
            &&& tool == Tool::Navigate || !pointer.shift ==> {
                &&& width == radius
                &&& exists|q: int| drifts_little(a.pan.x, after.pan.x, offset.x, a.zoom, after.zoom, q)
                &&& exists|q: int| drifts_little(a.pan.y, after.pan.y, offset.y, a.zoom, after.zoom, q)
                &&& after.size == a.size && after.glow == a.glow && after.aspect == a.aspect
            }
        }),
{
    let inside = Vec2 { x: cursor.x.sub(screen.origin.x), y: cursor.y.sub(screen.origin.y) };
    assert(cursor.sub(screen.origin) == inside);
    if tool == Tool::Navigate || !pointer.shift {
        crate::camera::lemma_zoom_keeps_cursor_point(a, inside, screen.size, turn.wheel.delta().y, turn.zoom_growth);
    }
}

/// Where nothing stands in the way, a zoom grows by the factor asked for, up to rounding,
/// or to the limit that it would pass.
pub proof fn lemma_zoom_grows_by_factor(a: Appearance, cursor: Vec2, viewport: Vec2, scroll: Scalar, growth: Scalar)
    requires
        (scalar(0x3e80_0000)).le(a.zoom),  // 0.25
        a.zoom.le(scalar(0x41a0_0000)),  // 20.0
        power(-60).le(growth),
        growth.le(power(60)),
        viewport.finite(),
        zero().lt(viewport.x),
        zero().lt(viewport.y),
        cursor.finite(),
        scroll.finite(),
    ensures
        ({
            let unit = crate::scalar::one_units();
            let after = a.zoomed(cursor, viewport, scroll, growth).zoom;
            let exact = a.zoom.units() * growth.units();
            &&& 4 * after.units() >= unit && after.units() <= 20 * unit
            &&& 4 * after.units() > unit && after.units() < 20 * unit ==> near(after, exact, unit * unit, 2)
            &&& 4 * after.units() == unit ==> 4 * (0x100_0000 - 2) * exact <= 0x100_0000 * (unit * unit)
            &&& after.units() == 20 * unit ==> (0x100_0000 + 2) * exact >= 20 * 0x100_0000 * (unit * unit)
        }),
{
    let after = a.zoomed(cursor, viewport, scroll, growth).zoom;
    lemma_grown(a.zoom, growth);
    let kept = a.grown_zoom(growth);
    assert(after == kept || after == a.zoom && kept.same(a.zoom));
    crate::order::lemma_order_of_values(kept, a.zoom);
}

proof fn lemma_grown(zoom: Scalar, growth: Scalar)
    requires
        (scalar(0x3e80_0000)).le(zoom),  // 0.25
        zoom.le(scalar(0x41a0_0000)),  // 20.0
        power(-60).le(growth),
        growth.le(power(60)),
    ensures
        ({
            let unit = crate::scalar::one_units();
            let after = zoom.mul(growth).clamp(scalar(0x3e80_0000), scalar(0x41a0_0000));  // 0.25, 20.0
            let exact = zoom.units() * growth.units();
            &&& after.finite()
            &&& 4 * after.units() >= unit && after.units() <= 20 * unit
            &&& 4 * after.units() > unit && after.units() < 20 * unit ==> near(after, exact, unit * unit, 2)
            &&& 4 * after.units() == unit ==> 4 * (0x100_0000 - 2) * exact <= 0x100_0000 * (unit * unit)
            &&& after.units() == 20 * unit ==> (0x100_0000 + 2) * exact >= 20 * 0x100_0000 * (unit * unit)
        }),
{
    let unit = crate::scalar::one_units();
    let (low, high) = (scalar(0x3e80_0000), scalar(0x41a0_0000));  // 0.25, 20.0
    let grown = zoom.mul(growth);
    let after = grown.clamp(low, high);
    let (z, g) = (zoom.units(), growth.units());
    crate::rounding::lemma_p2_pos(149);
    crate::rounding::lemma_p2_values();
    vstd::arithmetic::power2::lemma2_to64();
    lemma_known_itself(zoom, 10);
    lemma_known_itself(growth, 60);
    lemma_known_product(zoom, z, unit, 0, 10, growth, g, unit, 0, 60, z * g, unit * unit);
    lemma_known(grown, z * g, unit * unit, 2, 70);
    assert(4 * low.units() == unit) by {
        crate::nearly::lemma_power(-2);
        crate::rounding::lemma_p2_step(147);
        crate::rounding::lemma_p2_step(148);
        assert(low == power(-2));
    }
    crate::order::lemma_whole_value(high, 20, 19);
    crate::order::lemma_order_of_values(grown, low);
    crate::order::lemma_order_of_values(high, grown);
    let (p, exact, square) = (grown.units(), z * g, unit * unit);
    if 4 * after.units() == unit {
        assert(4 * (0x100_0000 - 2) * exact <= 0x100_0000 * square) by (nonlinear_arith)
            requires
                0x100_0000 * (exact * unit - p * square) <= 2 * (exact * unit),
                4 * p <= unit,
                square == unit * unit,
                unit > 0,
        ;
    }
    if after.units() == 20 * unit {
        assert((0x100_0000 + 2) * exact >= 20 * 0x100_0000 * square) by (nonlinear_arith)
            requires
                0x100_0000 * (p * square - exact * unit) <= 2 * (exact * unit),
                p >= 20 * unit,
                square == unit * unit,
                unit > 0,
        ;
    }
}

/// The position reported under the pointer is that of the view as the frame leaves it,
/// counted from the corner of the part of the window that shows the world.
pub proof fn lemma_input_reports_the_cursor(
    c: Controls,
    tools: InteractionTools,
    a: Appearance,
    paused: bool,
    pointer: Pointer,
    turns: Seq<Turn>,
)
    ensures
        ({
            let screen = pointer.screen(c.visible);
            let (_, after, view) = after_input(c, tools, a, paused, pointer, turns);
            &&& !pointer.on_background(screen) ==> after.cursor is None && view == a && after.radius == tools.radius
            &&& pointer.on_background(screen) ==> {
                let cursor = pointer.cursor->0;
                let inside = Vec2 { x: cursor.x.sub(screen.origin.x), y: cursor.y.sub(screen.origin.y) };
                after.cursor == Some(cursor_world(&view, inside, screen.size))
            }
            &&& after.tool == tools.tool
            &&& after.strength == tools.strength
            &&& after.rate == tools.rate
        }),
{
}

/// The pointer is on the world where it is in the part of the window that shows it, with
/// nothing in front, while the window has the focus.
pub proof fn lemma_background_is_the_screen(pointer: Pointer, screen: Screen, cursor: Vec2)
    requires
        pointer.cursor == Some(cursor),
        cursor.finite(),
        screen.origin.finite(),
        screen.size.finite(),
        screen.origin.x.add(screen.size.x).units() == screen.origin.x.units() + screen.size.x.units(),
        screen.origin.x.add(screen.size.x).finite(),
    ensures
        pointer.on_background(screen) <==> pointer.focused && !pointer.over_ui && screen.origin.x.units()
            <= cursor.x.units() < screen.origin.x.units() + screen.size.x.units() && 0 <= cursor.y.units()
            < screen.size.y.units(),
{
    crate::rounding::lemma_grid_code(0, 0);
    crate::order::lemma_order_of_values(screen.origin.x, cursor.x);
    crate::order::lemma_order_of_values(zero(), cursor.y);
    crate::order::lemma_order_of_values(cursor.x, screen.origin.x.add(screen.size.x));
    crate::order::lemma_order_of_values(cursor.y, screen.size.y);
}

/// What pressing and letting go of the buttons starts and ends: the left button drags the
/// view or strokes the brush, by the tool, where it goes down on the world; the middle one
/// always drags; a drag by the left one begins more than four pixels from its start.
pub proof fn lemma_buttons_start_and_end(c: Controls, pointer: Pointer, on_background: bool, tool: Tool)
    ensures
        ({
            let after = c.after_buttons(pointer, on_background, tool);
            let (left, middle) = (pointer.left, pointer.middle);
            &&& !left.pressed && !middle.pressed ==> !after.dragging
            &&& left.just_released ==> !after.brushing && after.pointer_start is None
            &&& left.just_pressed && !middle.pressed && left.pressed ==> after.dragging == (on_background && tool
                == Tool::Navigate)
            &&& left.just_pressed && !middle.pressed && !left.just_released ==> after.brushing == (on_background && tool
                != Tool::Navigate)
            &&& middle.just_pressed && middle.pressed ==> after.dragging == on_background && !after.brushing
                && after.pointer_start is None
            &&& !middle.just_pressed && !left.just_pressed && !left.just_released ==> {
                &&& after.brushing == c.brushing
                &&& after.pointer_start == c.pointer_start
                &&& (left.pressed || middle.pressed) ==> after.dragging == c.dragging
                &&& match (c.pointer_start, pointer.cursor) {
                    (Some(start), Some(cursor)) => after.pointer_moved == (c.pointer_moved || scalar(0x4080_0000).lt(  // 4.0
                        cursor.distance(start),
                    )),
                    _ => after.pointer_moved == c.pointer_moved,
                }
            }
            &&& after == (Controls {
                dragging: after.dragging,
                brushing: after.brushing,
                pointer_start: after.pointer_start,
                pointer_moved: after.pointer_moved,
                ..c
            })
        }),
{
}

/// The wheel scrolls the controls the other way around, and with a modifier key the axes
/// change places; a line counts as 24 pixels.
pub proof fn lemma_wheel_scrolls_the_other_way(pointer: Pointer, wheel: Wheel)
    requires
        wheel.turn.finite(),
        bounded(wheel.turn.x, 1024),
        bounded(wheel.turn.y, 1024),
    ensures
        ({
            let (delta, unit) = (scroll_delta(pointer, wheel), crate::scalar::one_units());
            let (along, across) = if pointer.shift || pointer.control {
                (delta.y, delta.x)
            } else {
                (delta.x, delta.y)
            };
            let pixels: int = if wheel.lines { 24 } else { 1 };
            &&& off(along, -(pixels * wheel.turn.x.units()), unit, 24577)
            &&& off(across, -(pixels * wheel.turn.y.units()), unit, 24577)
        }),
{
    lemma_turned_axis(wheel.turn.x, wheel.lines);
    lemma_turned_axis(wheel.turn.y, wheel.lines);
}

proof fn lemma_turned_axis(turn: Scalar, lines: bool)
    requires
        bounded(turn, 1024),
    ensures
        ({
            let pixels: int = if lines { 24 } else { 1 };
            let factor = if lines { scalar(0x41c0_0000) } else { one() };  // 24.0
            off(turn.mul(factor).neg(), -(pixels * turn.units()), crate::scalar::one_units(), 24577)
        }),
{
    let unit = crate::scalar::one_units();
    let pixels: int = if lines { 24 } else { 1 };
    let factor = if lines { scalar(0x41c0_0000) } else { one() };  // 24.0
    crate::rounding::lemma_p2_pos(149);
    crate::rounding::lemma_p2_values();
    vstd::arithmetic::power2::lemma2_to64();
    crate::order::lemma_power_of_two(0);
    crate::order::lemma_whole_value(scalar(0x41c0_0000), 24, 19);  // 24.0
    assert(factor.units() == pixels * unit);
    lemma_off_itself(turn);
    assert(off(factor, pixels, 1, 0) && bounded(factor, 24));
    lemma_off_product(turn, turn.units(), unit, 0, 1024, factor, pixels, 1, 0, 24, turn.units() * pixels, unit);
    let product = turn.mul(factor);
    let (u, p) = (turn.units() * pixels, product.units());
    assert((-p) * unit == -(p * unit) && (-u) * unit == -(u * unit) && turn.units() * pixels == pixels * turn.units()) by (nonlinear_arith)
        requires
            u == turn.units() * pixels,
    ;
}

/// Turns of the wheel take effect one after the other, and off the world each scrolls once,
/// in their order.
pub proof fn lemma_turns_in_order(
    radius: Scalar,
    a: Appearance,
    c: Controls,
    pointer: Pointer,
    screen: Screen,
    tool: Tool,
    turns: Seq<Turn>,
    turn: Turn,
    i: int,
)
    requires
        0 <= i < turns.len(),
    ensures
        ({
            let (width, view) = after_turns(radius, a, pointer, screen, tool, turns);
            &&& after_turns(radius, a, pointer, screen, tool, turns.push(turn)) == after_turn(
                width,
                view,
                pointer,
                screen,
                tool,
                turn,
            )
            &&& after_turns(radius, a, pointer, screen, tool, Seq::empty()) == (radius, a)
        }),
        !pointer.on_background(pointer.screen(c.visible)) ==> scrolls(c, pointer, turns).len() == turns.len() && scrolls(
            c,
            pointer,
            turns,
        )[i] == scroll_delta(pointer, turns[i].wheel),
        pointer.on_background(pointer.screen(c.visible)) ==> scrolls(c, pointer, turns).len() == 0,
{
    assert(turns.push(turn).drop_last() =~= turns);
}

/// A brush acts while the left button, which began its stroke, is held on the world, with
/// no drag by the middle button, in a window with the focus; a paused world takes new
/// particles only.
pub proof fn lemma_brush_acts_while_held(
    c: Controls,
    tools: InteractionTools,
    a: Appearance,
    paused: bool,
    pointer: Pointer,
    turns: Seq<Turn>,
)
    ensures
        ({
            let on_background = pointer.on_background(pointer.screen(c.visible));
            let (controls, after, _) = after_input(c, tools, a, paused, pointer, turns);
            &&& after.active ==> controls.brushing && pointer.left.pressed && !pointer.middle.pressed && on_background
                && pointer.focused && (!paused || tools.tool == Tool::Dump)
            &&& controls.brushing && pointer.left.pressed && !pointer.middle.pressed && on_background && !paused
                ==> after.active
            &&& controls.brushing && pointer.left.pressed && !pointer.middle.pressed && on_background && tools.tool
                == Tool::Dump ==> after.active
            &&& pointer.focused ==> controls == c.after_buttons(pointer, on_background, tools.tool)
        }),
{
}

/// `way` leads where `delta` does, `worlds` around the world less, and is no longer than
/// half of it, up to rounding.
pub open spec fn shortest(delta: Scalar, way: Scalar, worlds: int) -> bool {
    let unit = crate::scalar::one_units();
    let exact = delta.units() - worlds * (2048 * unit);
    &&& way.finite()
    &&& 0x100_0000 * gap(way.units(), exact) <= gap(exact, 0)
    &&& 1000 * gap(exact, 0) <= 1_024_001 * unit
}

/// The shortest way around the world, along one axis.
spec fn around(delta: Scalar) -> Scalar {
    delta.sub(delta.div(world()).round().mul(world()))
}

proof fn lemma_around(delta: Scalar) -> (worlds: int)
    requires
        bounded(delta, 4096),
    ensures
        shortest(delta, around(delta), worlds),
{
    let q = delta.div(world());
    let k = lemma_worlds_counted(delta);
    lemma_whole_worlds(q.negative(), k);
    crate::rounding::lemma_p2_pos(149);
    lemma_way(delta, Scalar::whole(q.negative(), k).mul(world()));
    if q.negative() { -k } else { k }
}

proof fn lemma_way(delta: Scalar, back: Scalar)
    requires
        delta.finite(),
        back.finite(),
        gap(delta.units() - back.units(), 0) <= 2048 * crate::scalar::one_units(),
    ensures
        delta.sub(back).finite(),
        0x100_0000 * gap(delta.sub(back).units(), delta.units() - back.units()) <= gap(delta.units() - back.units(), 0),
{
    let (way, minus, most) = (delta.sub(back), back.neg(), power(11));
    crate::nearly::lemma_power(11);
    vstd::arithmetic::power2::lemma2_to64();
    crate::rounding::lemma_p2_adds(11, 149);
    assert(most.units() == 2048 * crate::scalar::one_units());
    crate::order::lemma_sum_bounds(delta, minus, most);
    crate::order::lemma_sum_bounds(delta, minus, most.neg());
    crate::order::lemma_order_of_values(way, most);
    crate::order::lemma_order_of_values(most.neg(), way);
    crate::order::lemma_sum_error(delta, minus);
}

/// How many times around the world a way is, to the nearest.
proof fn lemma_worlds_counted(delta: Scalar) -> (k: int)
    requires
        bounded(delta, 4096),
    ensures
        ({
            let unit = crate::scalar::one_units();
            let q = delta.div(world());
            let exact = delta.units() - (if q.negative() { -k } else { k }) * (2048 * unit);
            &&& 0 <= k <= 2
            &&& q.round() == Scalar::whole(q.negative(), k)
            &&& 1000 * gap(exact, 0) <= 1_024_001 * unit
        }),
{
    let unit = crate::scalar::one_units();
    let q = delta.div(world());
    lemma_quotient_of_world(delta);
    crate::rounding::lemma_p2_pos(149);
    crate::scalar::lemma_self_rounding(q);
    let size = q.size();
    let k = (2 * size + unit) / (2 * unit);
    vstd::arithmetic::div_mod::lemma_fundamental_div_mod(2 * size + unit, 2 * unit);
    vstd::arithmetic::div_mod::lemma_mod_bound(2 * size + unit, 2 * unit);
    vstd::arithmetic::div_mod::lemma_div_pos_is_pos(2 * size + unit, 2 * unit);
    assert((2 * unit) * k == 2 * (k * unit)) by (nonlinear_arith);
    assert(k <= 2) by (nonlinear_arith)
        requires
            2 * (k * unit) <= 5 * unit,
            unit > 0,
    ;
    let worlds = if q.negative() { -k } else { k };
    assert((-k) * unit == -(k * unit)) by (nonlinear_arith);
    lemma_left_over(delta.units(), q.units(), worlds);
    k
}

proof fn lemma_quotient_of_world(delta: Scalar)
    requires
        bounded(delta, 4096),
    ensures
        ({
            let unit = crate::scalar::one_units();
            let q = delta.div(world());
            &&& q.finite()
            &&& -(2 * unit) <= q.units() <= 2 * unit
            &&& 1000 * gap(q.units() * (2048 * unit), delta.units() * unit) <= unit * unit
        }),
{
    let unit = crate::scalar::one_units();
    let (q, v, side) = (delta.div(world()), delta.units(), 2048 * crate::scalar::one_units());
    let (low, high) = (two().neg(), two());
    crate::rounding::lemma_p2_pos(149);
    crate::rounding::lemma_p2_values();
    crate::rounding::lemma_p2_u128();
    crate::rounding::lemma_p2_monotone(40, 149);
    crate::order::lemma_power_of_two(1);
    lemma_side();
    assert(high.units() == 2 * unit && low.units() == -(2 * unit));
    let square = unit * unit;
    assert(world().units() == side);
    assert(-((2 * unit) * side) <= v * unit <= (2 * unit) * side && (-(2 * unit)) * side == -((2 * unit) * side)) by (nonlinear_arith)
        requires
            -(4096 * unit) <= v <= 4096 * unit,
            side == 2048 * unit,
            unit > 0,
    ;
    crate::order::lemma_quotient_bounds(delta, world(), high);
    crate::order::lemma_quotient_bounds(delta, world(), low);
    crate::order::lemma_order_of_values(q, high);
    crate::order::lemma_order_of_values(low, q);
    crate::order::lemma_quotient_error(delta, world());
    assert(-(4096 * square) <= v * unit <= 4096 * square) by (nonlinear_arith)
        requires
            -(4096 * unit) <= v <= 4096 * unit,
            square == unit * unit,
            unit > 0,
    ;
    assert(1000 * side <= square) by (nonlinear_arith)
        requires
            square == unit * unit,
            side == 2048 * unit,
            unit >= 2_048_000,
    ;
}

proof fn lemma_left_over(v: int, q: int, worlds: int)
    requires
        ({
            let unit = crate::scalar::one_units();
            &&& -unit <= 2 * (q - worlds * unit) <= unit
            &&& 1000 * gap(q * (2048 * unit), v * unit) <= unit * unit
        }),
    ensures
        1000 * gap(v - worlds * (2048 * crate::scalar::one_units()), 0) <= 1_024_001 * crate::scalar::one_units(),
{
    let unit = crate::scalar::one_units();
    let (side, square) = (2048 * unit, unit * unit);
    let (exact, rest, e) = (v - worlds * side, q - worlds * unit, q * side - v * unit);
    crate::rounding::lemma_p2_pos(149);
    assert(exact * unit == rest * side - e) by (nonlinear_arith)
        requires
            exact == v - worlds * side,
            rest == q - worlds * unit,
            e == q * side - v * unit,
    ;
    assert(-(1024 * square) <= rest * side <= 1024 * square) by (nonlinear_arith)
        requires
            -unit <= 2 * rest <= unit,
            side == 2048 * unit,
            square == unit * unit,
            unit > 0,
    ;
    assert(1000 * exact <= 1_024_001 * unit && 1000 * exact >= -(1_024_001 * unit)) by (nonlinear_arith)
        requires
            1000 * (exact * unit) <= 1_024_001 * square,
            1000 * (exact * unit) >= -(1_024_001 * square),
            square == unit * unit,
            unit > 0,
    ;
}

/// Up to two worlds are a number.
proof fn lemma_whole_worlds(negative: bool, k: int)
    requires
        0 <= k <= 2,
    ensures
        ({
            let way = Scalar::whole(negative, k).mul(world());
            &&& way.finite()
            &&& way.units() == (if negative { -k } else { k }) * (2048 * crate::scalar::one_units())
        }),
{
    let unit = crate::scalar::one_units();
    let whole = Scalar::whole(negative, k);
    let way = whole.mul(world());
    let exact = if k == 0 {
        zero()
    } else if k == 1 {
        scalar(0x4500_0000)  // 2048.0
    } else {
        scalar(0x4580_0000)  // 4096.0
    };
    crate::rounding::lemma_p2_pos(149);
    crate::rounding::lemma_grid_code(0, 0);
    vstd::arithmetic::power2::lemma2_to64();
    crate::order::lemma_power_of_two(11);
    crate::order::lemma_power_of_two(12);
    lemma_side();
    crate::order::lemma_small_count(k as u32);
    assert(exact.units() == k * (2048 * unit)) by {
        assert((k == 0 ==> k * (2048 * unit) == 0) && (k == 1 ==> k * (2048 * unit) == 2048 * unit) && (k == 2 ==> k * (2048
            * unit) == 4096 * unit)) by (nonlinear_arith);
    }
    assert(whole.finite() && whole.units() == (if negative { -k } else { k }) * unit) by {
        assert((-k) * unit == -(k * unit)) by (nonlinear_arith);
        if negative && k > 0 {
            assert(k * unit >= 0) by (nonlinear_arith)
                requires
                    k > 0,
                    unit > 0,
            ;
            crate::rounding::lemma_nearest_exists(k * unit, 1);
            assert(whole == Scalar::from_u32(k as u32).neg());
        }
        if k == 0 {
            assert(k * unit == 0) by (nonlinear_arith)
                requires
                    k == 0,
            ;
        }
    }
    let bound = if negative { exact.neg() } else { exact };
    let (u, s) = (whole.units(), 2048 * unit);
    assert(u * s == bound.units() * unit) by (nonlinear_arith)
        requires
            u == (if negative { -k } else { k }) * unit,
            s == 2048 * unit,
            bound.units() == (if negative { -(k * (2048 * unit)) } else { k * (2048 * unit) }),
    ;
    crate::order::lemma_product_bounds(whole, world(), bound);
    crate::order::lemma_order_of_values(way, bound);
    crate::order::lemma_order_of_values(bound, way);
    assert((-k) * s == -(k * s)) by (nonlinear_arith);
}

/// Between two positions the shortest way leads around the world where that is closer.
pub proof fn lemma_shortest_way(delta: Vec2)
    requires
        bounded(delta.x, 4096),
        bounded(delta.y, 4096),
    ensures
        exists|worlds: int| shortest(delta.x, wrapped_delta(delta).x, worlds),
        exists|worlds: int| shortest(delta.y, wrapped_delta(delta).y, worlds),
{
    let x = lemma_around(delta.x);
    let y = lemma_around(delta.y);
    assert(wrapped_delta(delta).x == around(delta.x));
    assert(wrapped_delta(delta).y == around(delta.y));
    assert(shortest(delta.x, wrapped_delta(delta).x, x));
    assert(shortest(delta.y, wrapped_delta(delta).y, y));
}

/// The world takes the focus from the controls where a button goes down on it, and at no
/// other time: not through a control, not without a press, and not by moving or turning.
pub proof fn lemma_focus_taken_by_presses(c: Controls, pointer: Pointer)
    ensures
        focuses(c, pointer) ==> pointer.on_background(pointer.screen(c.visible)),
        pointer.over_ui || !pointer.focused || pointer.cursor is None ==> !focuses(c, pointer),
        !pointer.left.just_pressed && !pointer.middle.just_pressed ==> !focuses(c, pointer),
        pointer.on_background(pointer.screen(c.visible)) && pointer.middle.just_pressed ==> focuses(c, pointer),
        pointer.on_background(pointer.screen(c.visible)) && pointer.left.just_pressed && !pointer.middle.pressed
            ==> focuses(c, pointer),
{
}

/// A turn of the wheel widens the brush by the factor asked for, up to rounding, within the
/// range that its slider has.
pub proof fn lemma_brush_grows_by_factor(radius: Scalar, growth: Scalar)
    requires
        power(-10).le(radius),
        radius.le(power(10)),
        power(-60).le(growth),
        growth.le(power(60)),
    ensures
        ({
            let unit = crate::scalar::one_units();
            let (low, high) = BrushControl::Radius.range();
            let after = widened(radius, growth);
            &&& low.le(after) && after.le(high)
            &&& low.lt(after) && after.lt(high) ==> near(after, radius.units() * growth.units(), unit * unit, 2)
            &&& after == low ==> 0x100_0000 * (radius.units() * growth.units() - low.units() * unit) <= 2 * (
            radius.units() * growth.units())
            &&& after == high ==> 0x100_0000 * (high.units() * unit - radius.units() * growth.units()) <= 2 * (
            radius.units() * growth.units())
        }),
{
    let unit = crate::scalar::one_units();
    let (low, high) = BrushControl::Radius.range();
    let grown = radius.mul(growth);
    let (r, g, p) = (radius.units(), growth.units(), grown.units());
    crate::rounding::lemma_p2_pos(149);
    lemma_known_itself(radius, 10);
    lemma_known_itself(growth, 60);
    lemma_known_product(radius, r, unit, 0, 10, growth, g, unit, 0, 60, r * g, unit * unit);
    lemma_known(grown, r * g, unit * unit, 2, 70);
    crate::order::lemma_order_of_values(grown, low);
    crate::order::lemma_order_of_values(low, grown);
    crate::order::lemma_order_of_values(high, grown);
    crate::order::lemma_order_of_values(grown, high);
    crate::order::lemma_order_of_values(low, high);
    let (exact, square, a, b) = (r * g, unit * unit, low.units(), high.units());
    let after = widened(radius, growth);
    if after == low {
        assert(0x100_0000 * (exact - a * unit) <= 2 * exact) by (nonlinear_arith)
            requires
                0x100_0000 * (exact * unit - p * square) <= 2 * (exact * unit),
                p <= a,
                square == unit * unit,
                unit > 0,
        ;
    }
    if after == high {
        assert(0x100_0000 * (b * unit - exact) <= 2 * exact) by (nonlinear_arith)
            requires
                0x100_0000 * (p * square - exact * unit) <= 2 * (exact * unit),
                p >= b,
                square == unit * unit,
                unit > 0,
        ;
    }
}

/// What e is raised to: a five-hundredth of the scroll for the zoom, and a two hundred and
/// fiftieth for the brush.
pub proof fn lemma_exponents_follow_the_wheel(scroll: Scalar, wheel: Wheel)
    requires
        bounded(scroll, 1024),
        bounded(wheel.delta().y, 1024),
    ensures
        ({
            let unit = crate::scalar::one_units();
            let turned = wheel.delta().y.units();
            &&& off(Appearance::zoom_exponent(scroll), scroll.units(), 500 * unit, 2049)
            &&& off(wheel.zoom_exponent(), turned, 500 * unit, 2049)
            &&& off(wheel.brush_exponent(), turned, 250 * unit, 2049)
        }),
{
    lemma_exponent(scroll, scalar(0x3b03_126f), 500);  // 0.002
    lemma_exponent(wheel.delta().y, scalar(0x3b03_126f), 500);  // 0.002
    lemma_exponent(wheel.delta().y, scalar(0x3b83_126f), 250);  // 0.004
}

proof fn lemma_exponent(x: Scalar, factor: Scalar, share: int)
    requires
        bounded(x, 1024),
        factor == scalar(0x3b03_126f) && share == 500 || factor == scalar(0x3b83_126f) && share == 250,  // 0.002, 0.004
    ensures
        off(x.mul(factor), x.units(), share * crate::scalar::one_units(), 2049),
{
    let unit = crate::scalar::one_units();
    crate::rounding::lemma_p2_pos(149);
    crate::rounding::lemma_p2_values();
    vstd::arithmetic::power2::lemma2_to64();
    if share == 500 {
        crate::nearly::lemma_near_digits(factor, 117, 0x83_126f, 1, 500);
    } else {
        crate::nearly::lemma_near_digits(factor, 118, 0x83_126f, 1, 250);
    }
    assert(off(factor, 1, share, 1));
    assert(bounded(factor, 1)) by {
        crate::order::lemma_power_of_two(0);
        crate::order::lemma_order_of_values(factor, one());
    }
    lemma_off_itself(x);
    lemma_off_product(x, x.units(), unit, 0, 1024, factor, 1, share, 1, 1, x.units(), unit * share);
    assert(unit * share == share * unit) by (nonlinear_arith);
}

} // verus!
