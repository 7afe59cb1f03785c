//! Lengths and what they decide.
use vstd::prelude::*;

use crate::input::Pointer;
use crate::interaction::Tool;
use crate::order::gap;
use crate::roughly::bounded;
use crate::scalar::{scalar, zero, Scalar};
use crate::ui::{viewport_of, Controls};
use crate::vector::{UVec2, Vec2};

verus! {

/// The square of a number, up to rounding.
proof fn lemma_square(x: Scalar)
    requires
        bounded(x, 4096),
    ensures
        ({
            let unit = crate::scalar::one_units();
            let (square, exact) = (x.mul(x), x.units() * x.units());
            &&& square.finite()
            &&& 0 <= square.units() <= 0x100_0000 * unit
            &&& exact >= 0
            &&& 0x100_0000 * gap(square.units() * unit, exact) <= exact + 0x80_0000 * unit
        }),
{
    let unit = crate::scalar::one_units();
    let (v, most) = (x.units(), Scalar::from_u32(0x100_0000));
    crate::rounding::lemma_p2_pos(149);
    crate::rounding::lemma_grid_code(0, 0);
    crate::order::lemma_small_count(0x100_0000);
    assert(0 * unit <= v * v <= (0x100_0000 * unit) * unit) by (nonlinear_arith)
        requires
            -(4096 * unit) <= v <= 4096 * unit,
    ;
    crate::order::lemma_product_bounds(x, x, zero());
    crate::order::lemma_product_bounds(x, x, most);
    crate::order::lemma_order_of_values(zero(), x.mul(x));
    crate::order::lemma_order_of_values(x.mul(x), most);
    crate::order::lemma_product_error(x, x);
}

/// The square of a length is the sum of the squares of both coordinates, up to rounding.
pub proof fn lemma_length_squared(v: Vec2)
    requires
        bounded(v.x, 4096),
        bounded(v.y, 4096),
    ensures
        ({
            let unit = crate::scalar::one_units();
            let (square, exact) = (v.length_squared(), v.x.units() * v.x.units() + v.y.units() * v.y.units());
            &&& square.finite()
            &&& square.units() >= 0
            &&& 0x40_0000 * gap(square.units() * unit, exact) <= exact + 0x80_0000 * unit
        }),
{
    let unit = crate::scalar::one_units();
    let (a, b) = (v.x.mul(v.x), v.y.mul(v.y));
    let (sum, most) = (a.add(b), crate::nearly::power(25));
    crate::rounding::lemma_p2_pos(149);
    crate::rounding::lemma_p2_values();
    crate::rounding::lemma_grid_code(0, 0);
    lemma_square(v.x);
    lemma_square(v.y);
    crate::nearly::lemma_power(25);
    vstd::arithmetic::power2::lemma2_to64();
    crate::rounding::lemma_p2_adds(25, 149);
    assert(most.units() == 0x200_0000 * unit);
    crate::order::lemma_sum_bounds(a, b, zero());
    crate::order::lemma_sum_bounds(a, b, most);
    crate::order::lemma_order_of_values(zero(), sum);
    crate::order::lemma_order_of_values(sum, most);
    crate::order::lemma_sum_error(a, b);
    let (p, q, s) = (a.units(), b.units(), sum.units());
    assert((p + q) * unit == p * unit + q * unit) by (nonlinear_arith);
    assert(0x100_0000 * gap(s * unit, (p + q) * unit) <= (p + q) * unit) by (nonlinear_arith)
        requires
            0x100_0000 * (if s < p + q { p + q - s } else { s - (p + q) }) <= p + q,
            unit > 0,
    ;
}

/// A root is above four where its square is above sixteen, up to rounding.
proof fn lemma_root_above_four(x: Scalar)
    requires
        x.finite(),
        x.units() >= 0,
    ensures
        x.units() <= 16 * crate::scalar::one_units() ==> !(scalar(0x4080_0000)).lt(x.sqrt()),  // 4.0
        1000 * x.units() >= 16_001 * crate::scalar::one_units() ==> (scalar(0x4080_0000)).lt(x.sqrt()),  // 4.0
{
    let unit = crate::scalar::one_units();
    let four = 0x4080_0000int;
    let place = crate::rounding::p2(128);
    crate::rounding::lemma_p2_pos(149);
    crate::rounding::lemma_p2_pos(128);
    crate::rounding::lemma_p2_values();
    vstd::arithmetic::power2::lemma2_to64();
    crate::rounding::lemma_p2_adds(21, 128);
    crate::rounding::lemma_grid_code(128, 0x80_0000);
    crate::rounding::lemma_grid_code(128, 0x80_0001);
    assert(unit == 0x20_0000 * place);
    assert(crate::rounding::grid(four) == 4 * unit && crate::rounding::grid(four + 1) == 4 * unit + place);
    crate::scalar::lemma_self_rounding(x);
    if !x.zero() {
        let n = x.size() * unit;
        assert(n >= 0) by (nonlinear_arith)
            requires
                n == x.size() * unit,
                x.size() >= 0,
                unit > 0,
        ;
        let code = crate::rounding::nearest_root(n);
        crate::rounding::lemma_root_exists(n);
        if code > four {
            let midpoint = crate::rounding::grid(code - 1) + crate::rounding::grid(code);
            crate::rounding::lemma_grid_monotone(four, code - 1);
            crate::rounding::lemma_grid_monotone(four + 1, code);
            assert(midpoint * midpoint > 64 * (unit * unit)) by (nonlinear_arith)
                requires
                    midpoint > 8 * unit,
                    unit > 0,
            ;
            if x.units() <= 16 * unit {
                assert(4 * n <= 64 * (unit * unit)) by (nonlinear_arith)
                    requires
                        n == x.size() * unit,
                        x.size() <= 16 * unit,
                        unit > 0,
                ;
            }
        } else {
            let midpoint = crate::rounding::grid(code) + crate::rounding::grid(code + 1);
            crate::rounding::lemma_grid_monotone(0, code);
            crate::rounding::lemma_grid_monotone(code, four);
            crate::rounding::lemma_grid_monotone(code + 1, four + 1);
            assert(1000 * (midpoint * midpoint) < 64_004 * (unit * unit)) by (nonlinear_arith)
                requires
                    0 <= midpoint <= 8 * unit + place,
                    unit == 0x20_0000 * place,
                    place > 0,
            ;
            if 1000 * x.units() >= 16_001 * unit {
                assert(4000 * n >= 64_004 * (unit * unit)) by (nonlinear_arith)
                    requires
                        n == x.size() * unit,
                        1000 * x.size() >= 16_001 * unit,
                        unit > 0,
                ;
            }
        }
    }
}

/// A difference, squared.
proof fn lemma_difference_squared(d: int, exact: int)
    requires
        0x100_0000 * gap(d, exact) <= gap(exact, 0),
    ensures
        exact * exact >= 0,
        1_000_000 * gap(d * d, exact * exact) <= exact * exact,
{
    let k = 0x100_0000int;
    let (e, far) = (d - exact, gap(exact, 0));
    let square = far * far;
    assert(exact * exact == square && square >= 0) by (nonlinear_arith)
        requires
            far == if exact < 0 { -exact } else { exact },
            square == far * far,
    ;
    let cross = exact * e;
    assert(k * cross <= square && k * cross >= -square) by (nonlinear_arith)
        requires
            k * e <= far,
            k * e >= -far,
            far == if exact < 0 { -exact } else { exact },
            square == far * far,
            cross == exact * e,
            k == 0x100_0000,
    ;
    let small = e * e;
    assert(0 <= small && k * small <= square) by (nonlinear_arith)
        requires
            k * e <= far,
            k * e >= -far,
            far >= 0,
            square == far * far,
            small == e * e,
            k == 0x100_0000,
    ;
    assert(d * d == square + 2 * cross + small) by (nonlinear_arith)
        requires
            e == d - exact,
            cross == exact * e,
            small == e * e,
            exact * exact == square,
    ;
}

/// Whether two points are more than four apart, up to rounding: both coordinates count.
pub proof fn lemma_farther_than_four(a: Vec2, b: Vec2)
    requires
        a.finite(),
        b.finite(),
        gap(a.x.units(), b.x.units()) <= 4000 * crate::scalar::one_units(),
        gap(a.y.units(), b.y.units()) <= 4000 * crate::scalar::one_units(),
    ensures
        ({
            let unit = crate::scalar::one_units();
            let (across, up) = (a.x.units() - b.x.units(), a.y.units() - b.y.units());
            let apart = across * across + up * up;
            &&& 100 * apart <= 1599 * (unit * unit) ==> !(scalar(0x4080_0000)).lt(a.distance(b))  // 4.0
            &&& 100 * apart >= 1601 * (unit * unit) ==> (scalar(0x4080_0000)).lt(a.distance(b))  // 4.0
        }),
{
    let unit = crate::scalar::one_units();
    let d = Vec2 { x: a.x.sub(b.x), y: a.y.sub(b.y) };
    crate::rounding::lemma_p2_pos(149);
    lemma_difference(a.x, b.x);
    lemma_difference(a.y, b.y);
    let (across, up) = (a.x.units() - b.x.units(), a.y.units() - b.y.units());
    lemma_length_squared(d);
    lemma_difference_squared(d.x.units(), across);
    lemma_difference_squared(d.y.units(), up);
    let square = d.length_squared();
    assert(a.distance(b) == square.sqrt());
    lemma_root_above_four(square);
    let apart = across * across + up * up;
    let found = d.x.units() * d.x.units() + d.y.units() * d.y.units();
    assert(1_000_000 * gap(found, apart) <= apart);
    lemma_squares_compared(square.units(), found, apart);
}

proof fn lemma_squares_compared(square: int, found: int, apart: int)
    requires
        apart >= 0,
        found >= 0,
        1_000_000 * gap(found, apart) <= apart,
        0x40_0000 * gap(square * crate::scalar::one_units(), found) <= found + 0x80_0000 * crate::scalar::one_units(),
    ensures
        ({
            let unit = crate::scalar::one_units();
            &&& 100 * apart <= 1599 * (unit * unit) ==> square <= 16 * unit
            &&& 100 * apart >= 1601 * (unit * unit) ==> 1000 * square >= 16_001 * unit
        }),
{
    let unit = crate::scalar::one_units();
    let whole = unit * unit;
    crate::rounding::lemma_p2_pos(149);
    crate::rounding::lemma_p2_u128();
    crate::rounding::lemma_p2_monotone(40, 149);
    assert(0x80_0000 * unit <= whole) by (nonlinear_arith)
        requires
            whole == unit * unit,
            unit >= 0x80_0000,
    ;
    if 100 * apart <= 1599 * whole {
        assert(square * unit <= 16 * whole);
        assert(square <= 16 * unit) by (nonlinear_arith)
            requires
                square * unit <= 16 * (unit * unit),
                unit > 0,
        ;
    }
    if 100 * apart >= 1601 * whole {
        assert(1000 * (square * unit) >= 16_001 * whole);
        assert(1000 * square >= 16_001 * unit) by (nonlinear_arith)
            requires
                1000 * (square * unit) >= 16_001 * (unit * unit),
                unit > 0,
        ;
    }
}

proof fn lemma_difference(a: Scalar, b: Scalar)
    requires
        a.finite(),
        b.finite(),
        gap(a.units(), b.units()) <= 4000 * crate::scalar::one_units(),
    ensures
        bounded(a.sub(b), 4096),
        0x100_0000 * gap(a.sub(b).units(), a.units() - b.units()) <= gap(a.units() - b.units(), 0),
{
    let unit = crate::scalar::one_units();
    let (d, minus, most) = (a.sub(b), b.neg(), Scalar::from_u32(4096));
    crate::rounding::lemma_p2_pos(149);
    crate::order::lemma_small_count(4096);
    crate::order::lemma_sum_bounds(a, minus, most);
    crate::order::lemma_sum_bounds(a, minus, most.neg());
    crate::order::lemma_order_of_values(d, most);
    crate::order::lemma_order_of_values(most.neg(), d);
    crate::order::lemma_sum_error(a, minus);
}

/// A held button drags once the pointer is more than four pixels from where it went down,
/// in whatever direction, and not before.
pub proof fn lemma_drag_begins_beyond_four_pixels(c: Controls, pointer: Pointer, on_background: bool, tool: Tool, start: Vec2, cursor: Vec2)
    requires
        !pointer.left.just_pressed,
        !pointer.left.just_released,
        !pointer.middle.just_pressed,
        c.pointer_start == Some(start),
        pointer.cursor == Some(cursor),
        !c.pointer_moved,
        start.finite(),
        cursor.finite(),
        gap(cursor.x.units(), start.x.units()) <= 4000 * crate::scalar::one_units(),
        gap(cursor.y.units(), start.y.units()) <= 4000 * crate::scalar::one_units(),
    ensures
        ({
            let unit = crate::scalar::one_units();
            let after = c.after_buttons(pointer, on_background, tool);
            let (across, down) = (cursor.x.units() - start.x.units(), cursor.y.units() - start.y.units());
            let apart = across * across + down * down;
            &&& 100 * apart <= 1599 * (unit * unit) ==> !after.pointer_moved
            &&& 100 * apart >= 1601 * (unit * unit) ==> after.pointer_moved
        }),
{
    lemma_farther_than_four(cursor, start);
}

/// A number from zero to a million rounds to the whole number at most a half away.
proof fn lemma_whole_near(x: Scalar) -> (n: u32)
    requires
        x.finite(),
        0 <= x.units() <= 1_000_000 * crate::scalar::one_units(),
    ensures
        n == x.round().max(zero()).to_u32(),
        2 * gap(n * crate::scalar::one_units(), x.units()) <= crate::scalar::one_units(),
{
    let unit = crate::scalar::one_units();
    let size = x.size();
    let k = (2 * size + unit) / (2 * unit);
    crate::rounding::lemma_p2_pos(149);
    crate::rounding::lemma_grid_code(0, 0);
    crate::rounding::lemma_grid_monotone(0, x.magnitude());
    vstd::arithmetic::div_mod::lemma_fundamental_div_mod(2 * size + unit, 2 * unit);
    vstd::arithmetic::div_mod::lemma_mod_bound(2 * size + unit, 2 * unit);
    assert((2 * unit) * k == 2 * (k * unit)) by (nonlinear_arith);
    assert(0 <= k <= 1_000_000) by (nonlinear_arith)
        requires
            2 * (k * unit) <= 2 * size + unit < 2 * (k * unit) + 2 * unit,
            0 <= size <= 1_000_000 * unit,
            unit > 0,
    ;
    crate::order::lemma_small_count(k as u32);
    crate::order::lemma_order_of_values(zero(), Scalar::from_u32(k as u32));
    if x.negative() {
        assert(k == 0) by (nonlinear_arith)
            requires
                2 * (k * unit) <= unit < 2 * (k * unit) + 2 * unit,
                unit > 0,
        ;
        crate::order::lemma_small_count(0);
        let whole = Scalar::whole(true, 0);
        assert(whole.max(zero()).to_u32() == 0) by {
            crate::rounding::lemma_grid_exact(0, 1);
            vstd::arithmetic::div_mod::lemma_basic_div(0, unit);
        }
    }
    k as u32
}

/// A visible sidebar is 360 logical pixels wide, at the scale of the window and to the
/// nearest pixel, unless that is more than half of the window.
pub proof fn lemma_sidebar_scales_with_the_window(size: UVec2, scale: Scalar)
    requires
        size.x >= 1,
        scale.finite(),
        0 <= scale.units() <= 1000 * crate::scalar::one_units(),
    ensures
        ({
            let unit = crate::scalar::one_units();
            let left = viewport_of(size, scale, true).0.x as int;
            let half = (size.x / 2) as int;
            &&& left <= half
            &&& left < half ==> 4 * gap(left * unit, 360 * scale.units()) <= 3 * unit
            &&& left == half ==> 4 * (half * unit) <= 4 * (360 * scale.units()) + 3 * unit
        }),
{
    let unit = crate::scalar::one_units();
    let (logical, most) = (scalar(0x43b4_0000), Scalar::from_u32(360_000));  // 360.0
    let wide = logical.mul(scale);
    crate::rounding::lemma_p2_pos(149);
    crate::rounding::lemma_grid_code(0, 0);
    crate::order::lemma_small_count(360_000);
    lemma_three_hundred_and_sixty();
    let s = scale.units();
    assert((360 * unit) * s == (360 * s) * unit && 0 * unit <= (360 * unit) * s <= (360_000 * unit) * unit) by (nonlinear_arith)
        requires
            0 <= s <= 1000 * unit,
            unit > 0,
    ;
    crate::order::lemma_product_bounds(logical, scale, zero());
    crate::order::lemma_product_bounds(logical, scale, most);
    crate::order::lemma_order_of_values(zero(), wide);
    crate::order::lemma_order_of_values(wide, most);
    crate::order::lemma_product_error(logical, scale);
    let n = lemma_whole_near(wide);
    let w = wide.units();
    crate::rounding::lemma_p2_u128();
    crate::rounding::lemma_p2_monotone(40, 149);
    assert(8 * gap(w, 360 * s) <= unit) by (nonlinear_arith)
        requires
            0x100_0000 * gap(w * unit, (360 * s) * unit) <= (360 * s) * unit || 2 * gap(
                w * unit,
                (360 * s) * unit,
            ) <= unit,
            0 <= 360 * s <= 360_000 * unit,
            unit >= 0x40_0000,
    ;
    let half = (size.x / 2) as int;
    if n < half {
    } else {
        assert(half * unit <= n * unit) by (nonlinear_arith)
            requires
                half <= n,
                unit > 0,
        ;
    }
}

proof fn lemma_three_hundred_and_sixty()
    ensures
        scalar(0x43b4_0000).finite(),  // 360.0
        scalar(0x43b4_0000).units() == 360 * crate::scalar::one_units(),  // 360.0
{
    crate::rounding::lemma_p2_values();
    crate::rounding::lemma_p2_pos(134);
    vstd::arithmetic::power2::lemma2_to64();
    crate::rounding::lemma_p2_adds(15, 134);
    crate::rounding::lemma_grid_code(134, 0xb4_0000);
    assert(crate::rounding::p2(149) == 0x8000 * crate::rounding::p2(134));
    assert(134 * 0x80_0000 + 0xb4_0000 == 0x43b4_0000);
}

} // verus!
