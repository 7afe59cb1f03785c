//! What the constants, the inferred sizes and the numbers on the screen come to.
use vstd::prelude::*;

use crate::creatures::{bond_threshold, held, least_share, outline_of};
use crate::gpu::{dot_pixels, plan_of};
use crate::input::Pointer;
use crate::interaction::BrushControl;
use crate::model::{
    core_fraction, dt, speed_limit, world, Appearance, Behavior, Detection, Evolution, RuleKind, Simulation, Trails,
};
use crate::nearly::{
    lemma_known, lemma_known_count, lemma_known_digits, lemma_known_itself, lemma_known_product, lemma_known_quotient,
    lemma_near_digits, near, power,
};
use crate::order::gap;
use crate::panel::{aspect_ratio, cell_at, panel_side, scroll, shade, shade_color, smoothed};
use crate::roughly::{bounded, off};
use crate::scalar::{half, one, scalar, two, zero, Scalar};
use crate::ui::{Controls, Field};
use crate::vector::{UVec2, Vec2};

verus! {

/// The constants of the simulation: the side of the world, sixty steps a second, the
/// fifth of the radius within which all pairs repel, the fastest speed, and the pull
/// from which on a pair is bonded.
pub proof fn lemma_constants()
    ensures
        near(world(), 2048, 1, 1),
        near(dt(), 1, 60, 1),
        near(core_fraction(), 1, 5, 1),
        near(speed_limit(), 180, 1, 1),
        near(bond_threshold(), 3, 20, 1),
{
    crate::rounding::lemma_p2_values();
    vstd::arithmetic::power2::lemma2_to64();
    lemma_near_digits(world(), 137, 0x800000, 2048, 1);
    lemma_near_digits(dt(), 120, 0x888889, 1, 60);
    lemma_near_digits(core_fraction(), 123, 0xcccccd, 1, 5);
    lemma_near_digits(speed_limit(), 133, 0xb40000, 180, 1);
    lemma_near_digits(bond_threshold(), 123, 0x99999a, 3, 20);
}

/// How far the sliders of the world and of the view reach.
pub proof fn lemma_world_sliders_reach()
    ensures
        near(Field::Speed.range().0, 1, 10, 1),
        near(Field::Speed.range().1, 3, 1, 1),
        near(Field::Radius.range().0, 8, 1, 1),
        near(Field::Radius.range().1, 128, 1, 1),
        Field::Strength.range().0 == zero(),
        near(Field::Strength.range().1, 250, 1, 1),
        near(Field::Damping.range().0, 1, 10, 1),
        near(Field::Damping.range().1, 10, 1, 1),
        near(Field::Size.range().0, 1, 2, 1),
        near(Field::Size.range().1, 8, 1, 1),
        Field::Glow.range().0 == zero(),
        near(Field::Glow.range().1, 1, 1, 1),
{
    crate::rounding::lemma_p2_values();
    vstd::arithmetic::power2::lemma2_to64();
    lemma_near_digits(Field::Speed.range().0, 122, 0xcccccd, 1, 10);
    lemma_near_digits(Field::Speed.range().1, 127, 0xc00000, 3, 1);
    lemma_near_digits(Field::Radius.range().0, 129, 0x800000, 8, 1);
    lemma_near_digits(Field::Radius.range().1, 133, 0x800000, 128, 1);
    lemma_near_digits(Field::Strength.range().1, 133, 0xfa0000, 250, 1);
    lemma_near_digits(Field::Damping.range().0, 122, 0xcccccd, 1, 10);
    lemma_near_digits(Field::Damping.range().1, 129, 0xa00000, 10, 1);
    lemma_near_digits(Field::Size.range().0, 125, 0x800000, 1, 2);
    lemma_near_digits(Field::Size.range().1, 129, 0x800000, 8, 1);
    lemma_near_digits(Field::Glow.range().1, 126, 0x800000, 1, 1);
}

/// How far the sliders of crowding and of ignition reach.
pub proof fn lemma_crowding_sliders_reach()
    ensures
        near(Field::DensityTarget.range().0, 1, 1, 1),
        near(Field::DensityTarget.range().1, 512, 1, 1),
        Field::DensityStrength.range().0 == zero(),
        near(Field::DensityStrength.range().1, 2, 1, 1),
        near(Field::NovaThreshold.range().0, 4, 1, 1),
        near(Field::NovaThreshold.range().1, 256, 1, 1),
        near(Field::NovaRadius.range().0, 1, 20, 1),
        near(Field::NovaRadius.range().1, 1, 1, 1),
        near(Field::NovaImpulse.range().0, 200, 1, 1),
        near(Field::NovaImpulse.range().1, 6000, 1, 1),
        near(Field::NovaDuration.range().0, 1, 20, 1),
        near(Field::NovaDuration.range().1, 1, 1, 1),
{
    crate::rounding::lemma_p2_values();
    vstd::arithmetic::power2::lemma2_to64();
    lemma_near_digits(Field::DensityTarget.range().0, 126, 0x800000, 1, 1);
    lemma_near_digits(Field::DensityTarget.range().1, 135, 0x800000, 512, 1);
    lemma_near_digits(Field::DensityStrength.range().1, 127, 0x800000, 2, 1);
    lemma_near_digits(Field::NovaThreshold.range().0, 128, 0x800000, 4, 1);
    lemma_near_digits(Field::NovaThreshold.range().1, 134, 0x800000, 256, 1);
    lemma_near_digits(Field::NovaRadius.range().0, 121, 0xcccccd, 1, 20);
    lemma_near_digits(Field::NovaRadius.range().1, 126, 0x800000, 1, 1);
    lemma_near_digits(Field::NovaImpulse.range().0, 133, 0xc80000, 200, 1);
    lemma_near_digits(Field::NovaImpulse.range().1, 138, 0xbb8000, 6000, 1);
    lemma_near_digits(Field::NovaDuration.range().0, 121, 0xcccccd, 1, 20);
    lemma_near_digits(Field::NovaDuration.range().1, 126, 0x800000, 1, 1);
}

/// How far the sliders of sampling and of cycling reach.
pub proof fn lemma_cycling_sliders_reach()
    ensures
        near(Field::SampleBudget.range().0, 16, 1, 1),
        near(Field::SampleBudget.range().1, 256, 1, 1),
        near(Field::CycleSeconds.range().0, 1, 2, 1),
        near(Field::CycleSeconds.range().1, 30, 1, 1),
        near(Field::CycleFraction.range().0, 1, 20, 1),
        near(Field::CycleFraction.range().1, 1, 1, 1),
        near(Field::CycleMin.range().0, 1, 1, 1),
        near(Field::CycleMin.range().1, 128, 1, 1),
{
    crate::rounding::lemma_p2_values();
    vstd::arithmetic::power2::lemma2_to64();
    lemma_near_digits(Field::SampleBudget.range().0, 130, 0x800000, 16, 1);
    lemma_near_digits(Field::SampleBudget.range().1, 134, 0x800000, 256, 1);
    lemma_near_digits(Field::CycleSeconds.range().0, 125, 0x800000, 1, 2);
    lemma_near_digits(Field::CycleSeconds.range().1, 130, 0xf00000, 30, 1);
    lemma_near_digits(Field::CycleFraction.range().0, 121, 0xcccccd, 1, 20);
    lemma_near_digits(Field::CycleFraction.range().1, 126, 0x800000, 1, 1);
    lemma_near_digits(Field::CycleMin.range().0, 126, 0x800000, 1, 1);
    lemma_near_digits(Field::CycleMin.range().1, 133, 0x800000, 128, 1);
}

/// How far the sliders of the trails reach.
pub proof fn lemma_trail_sliders_reach()
    ensures
        near(Field::Response.range().0.neg(), 200, 1, 1),
        near(Field::Response.range().1, 200, 1, 1),
        Field::Deposit.range().0 == zero(),
        near(Field::Deposit.range().1, 10, 1, 1),
        near(Field::HalfLife.range().0, 1, 2, 1),
        near(Field::HalfLife.range().1, 30, 1, 1),
        Field::Diffusion.range().0 == zero(),
        near(Field::Diffusion.range().1, 30, 1, 1),
        near(Field::Sensor.range().0, 4, 1, 1),
        near(Field::Sensor.range().1, 96, 1, 1),
        Field::Visibility.range().0 == zero(),
        near(Field::Visibility.range().1, 1, 1, 1),
{
    crate::rounding::lemma_p2_values();
    vstd::arithmetic::power2::lemma2_to64();
    lemma_near_digits(Field::Response.range().0.neg(), 133, 0xc80000, 200, 1);
    lemma_near_digits(Field::Response.range().1, 133, 0xc80000, 200, 1);
    lemma_near_digits(Field::Deposit.range().1, 129, 0xa00000, 10, 1);
    lemma_near_digits(Field::HalfLife.range().0, 125, 0x800000, 1, 2);
    lemma_near_digits(Field::HalfLife.range().1, 130, 0xf00000, 30, 1);
    lemma_near_digits(Field::Diffusion.range().1, 130, 0xf00000, 30, 1);
    lemma_near_digits(Field::Sensor.range().0, 128, 0x800000, 4, 1);
    lemma_near_digits(Field::Sensor.range().1, 132, 0xc00000, 96, 1);
    lemma_near_digits(Field::Visibility.range().1, 126, 0x800000, 1, 1);
}

/// How far the sliders of the rules and of the brushes reach.
pub proof fn lemma_rule_and_brush_sliders_reach()
    ensures
        near(Field::Rule(RuleKind::Attraction).range().0.neg(), 1, 1, 1),
        near(Field::Rule(RuleKind::Attraction).range().1, 1, 1, 1),
        near(Field::Rule(RuleKind::Swirl).range().0.neg(), 1, 1, 1),
        near(Field::Rule(RuleKind::Swirl).range().1, 1, 1, 1),
        near(Field::Rule(RuleKind::Alignment).range().0.neg(), 1, 1, 1),
        near(Field::Rule(RuleKind::Alignment).range().1, 1, 1, 1),
        Field::Rule(RuleKind::Distance).range().0 == zero(),
        near(Field::Rule(RuleKind::Distance).range().1, 19, 20, 1),
        near(BrushControl::Radius.range().0, 8, 1, 1),
        near(BrushControl::Radius.range().1, 512, 1, 1),
        BrushControl::Strength.range().0 == zero(),
        near(BrushControl::Strength.range().1, 5000, 1, 1),
        near(BrushControl::Rate.range().0, 100, 1, 1),
        near(BrushControl::Rate.range().1, 20000, 1, 1),
{
    crate::rounding::lemma_p2_values();
    vstd::arithmetic::power2::lemma2_to64();
    lemma_near_digits(Field::Rule(RuleKind::Attraction).range().0.neg(), 126, 0x800000, 1, 1);
    lemma_near_digits(Field::Rule(RuleKind::Attraction).range().1, 126, 0x800000, 1, 1);
    lemma_near_digits(Field::Rule(RuleKind::Swirl).range().0.neg(), 126, 0x800000, 1, 1);
    lemma_near_digits(Field::Rule(RuleKind::Swirl).range().1, 126, 0x800000, 1, 1);
    lemma_near_digits(Field::Rule(RuleKind::Alignment).range().0.neg(), 126, 0x800000, 1, 1);
    lemma_near_digits(Field::Rule(RuleKind::Alignment).range().1, 126, 0x800000, 1, 1);
    lemma_near_digits(Field::Rule(RuleKind::Distance).range().1, 125, 0xf33333, 19, 20);
    lemma_near_digits(BrushControl::Radius.range().0, 129, 0x800000, 8, 1);
    lemma_near_digits(BrushControl::Radius.range().1, 135, 0x800000, 512, 1);
    lemma_near_digits(BrushControl::Strength.range().1, 138, 0x9c4000, 5000, 1);
    lemma_near_digits(BrushControl::Rate.range().0, 132, 0xc80000, 100, 1);
    lemma_near_digits(BrushControl::Rate.range().1, 140, 0x9c4000, 20000, 1);
}

/// A dot is as many pixels wide as its share of the world, at the zoom, of the height
/// of the picture.
pub proof fn lemma_dots_scale(a: Appearance, height: u32)
    requires
        power(-10).le(a.size),
        a.size.le(power(10)),
        power(-10).le(a.zoom),
        a.zoom.le(power(10)),
        0 < height <= 0x100_0000,
    ensures
        ({
            let unit = crate::scalar::one_units();
            near(dot_pixels(&a, height), (a.size.units() * a.zoom.units()) * height, 2048 * (unit * unit), 7)
        }),
{
    let unit = crate::scalar::one_units();
    let (x, z, n) = (a.size, a.zoom, Scalar::from_u32(height));
    let (u, v, h) = (x.units(), z.units(), height as int);
    crate::rounding::lemma_p2_values();
    vstd::arithmetic::power2::lemma2_to64();
    lemma_known_itself(x, 10);
    lemma_known_itself(z, 10);
    lemma_known_digits(world(), 137, 0x80_0000, 2048, 1, 11);
    lemma_known_count(height);
    let q = x.div(world());
    lemma_known_quotient(x, u, unit, 0, 10, world(), 2048, 1, 1, 11, u, 2048 * unit);
    let p = q.mul(z);
    assert(2048 * (unit * unit) == (2048 * unit) * unit) by (nonlinear_arith);
    lemma_known_product(q, u, 2048 * unit, 3, 21, z, v, unit, 0, 10, u * v, 2048 * (unit * unit));
    lemma_known_product(p, u * v, 2048 * (unit * unit), 5, 31, n, h, 1, 0, 24, (u * v) * h, 2048 * (unit * unit));
    lemma_known(p.mul(n), (u * v) * h, 2048 * (unit * unit), 7, 55);
}

/// Dots below one and a half pixels are splatted, others are drawn: their size decides,
/// up to rounding, and nothing else.
pub proof fn lemma_small_dots_splatted(s: Simulation, a: Appearance, height: u32)
    requires
        power(-10).le(a.size),
        a.size.le(power(10)),
        power(-10).le(a.zoom),
        a.zoom.le(power(10)),
        0 < height <= 0x100_0000,
    ensures
        ({
            let unit = crate::scalar::one_units();
            let (seen, whole) = ((a.size.units() * a.zoom.units()) * height, 2048 * (unit * unit));
            &&& plan_of(s, a, height).splat ==> 2 * (0x100_0000 - 7) * seen <= 3 * 0x100_0000 * whole
            &&& !plan_of(s, a, height).splat ==> 2 * (0x100_0000 + 7) * seen >= 3 * 0x100_0000 * whole
        }),
{
    let unit = crate::scalar::one_units();
    let dot = dot_pixels(&a, height);
    let (seen, whole) = ((a.size.units() * a.zoom.units()) * height, 2048 * (unit * unit));
    let limit = scalar(0x3fc0_0000);  // 1.5
    let d = dot.units();
    crate::rounding::lemma_p2_pos(149);
    crate::rounding::lemma_p2_values();
    lemma_dots_scale(a, height);
    assert(2 * limit.units() == 3 * unit) by {
        crate::rounding::lemma_grid_code(126, 0xc0_0000);
        crate::rounding::lemma_p2_adds(23, 126);
    }
    crate::order::lemma_order_of_values(dot, limit);
    assert(whole > 0) by (nonlinear_arith)
        requires
            whole == 2048 * (unit * unit),
            unit > 0,
    ;
    if plan_of(s, a, height).splat {
        assert((2 * d) * whole <= (3 * unit) * whole) by (nonlinear_arith)
            requires
                2 * d <= 3 * unit,
                whole > 0,
        ;
        assert(2 * (0x100_0000 - 7) * seen <= 3 * 0x100_0000 * whole) by (nonlinear_arith)
            requires
                0x100_0000 * (seen * unit - d * whole) <= 7 * (seen * unit),
                (2 * d) * whole <= (3 * unit) * whole,
                unit > 0,
        ;
    } else {
        assert((2 * d) * whole >= (3 * unit) * whole) by (nonlinear_arith)
            requires
                2 * d >= 3 * unit,
                whole > 0,
        ;
        assert(2 * (0x100_0000 + 7) * seen >= 3 * 0x100_0000 * whole) by (nonlinear_arith)
            requires
                0x100_0000 * (d * whole - seen * unit) <= 7 * (seen * unit),
                (2 * d) * whole >= (3 * unit) * whole,
                unit > 0,
        ;
    }
}

/// The particles of each type that a body must hold at least: a quarter of what its area
/// packs at the spacing, split among its types, rounded down, but never under four.
pub proof fn lemma_share_follows_packing(radius: Scalar, spacing: Scalar, members: u32)
    requires
        power(-13).le(spacing),
        spacing.le(power(18)),
        power(-18).le(radius),
        radius.le(power(18)),
        0 < members <= 0x100_0000,
    ensures
        ({
            let share = least_share(radius, spacing, members);
            let packed = 36276 * (radius.units() * radius.units());
            let each = 40000 * (spacing.units() * spacing.units()) * members;
            &&& share >= 4
            &&& share > 4 ==> 0x100_0000 * (share * each - packed) <= 18 * packed
            &&& share < u32::MAX ==> 0x100_0000 * (packed - (share + 1) * each) <= 18 * packed
        }),
{
    let unit = crate::scalar::one_units();
    let (u, v, n) = (radius.units(), spacing.units(), members as int);
    let estimate = lemma_packing_estimate(radius, spacing, members);
    let four = scalar(0x4080_0000);  // 4.0
    let (packed, each) = (36276 * (u * u), 40000 * (v * v) * n);
    let share = least_share(radius, spacing, members);
    crate::creatures::lemma_share_at_least_four(radius, spacing, members);
    crate::rounding::lemma_p2_pos(149);
    vstd::arithmetic::power2::lemma2_to64();
    crate::order::lemma_whole_value(four, 4, 21);
    crate::order::lemma_order_of_values(estimate, four);
    crate::order::lemma_order_of_values(four, estimate);
    let most = estimate.max(four);
    let t = most.units();
    let k = share as int;
    assert(share == most.to_u32());
    crate::scalar::lemma_self_rounding(most);
    vstd::arithmetic::div_mod::lemma_fundamental_div_mod(t, unit);
    vstd::arithmetic::div_mod::lemma_mod_bound(t, unit);
    assert(!most.negative());
    let e = estimate.units();
    let c = t / unit;
    if share > 4 {
        assert(most == estimate);
        assert(unit * k <= e) by (nonlinear_arith)
            requires
                unit * c <= e,
                k <= c,
                unit > 0,
        ;
        assert(0x100_0000 * (k * each - packed) <= 18 * packed) by (nonlinear_arith)
            requires
                unit * k <= e,
                0x100_0000 * (e * each - packed * unit) <= 18 * (packed * unit),
                each > 0,
                unit > 0,
        ;
    }
    if share < u32::MAX {
        assert(c == k);
        assert(e < unit * (k + 1)) by (nonlinear_arith)
            requires
                e <= t,
                t < unit * k + unit,
        ;
        assert(0x100_0000 * (packed - (k + 1) * each) <= 18 * packed) by (nonlinear_arith)
            requires
                e < unit * (k + 1),
                0x100_0000 * (packed * unit - e * each) <= 18 * (packed * unit),
                each > 0,
                unit > 0,
        ;
    }
}

proof fn lemma_packing_estimate(radius: Scalar, spacing: Scalar, members: u32) -> (estimate: Scalar)
    requires
        power(-13).le(spacing),
        spacing.le(power(18)),
        power(-18).le(radius),
        radius.le(power(18)),
        0 < members <= 0x100_0000,
    ensures
        ({
            let packed = 36276 * (radius.units() * radius.units());
            let each = 40000 * (spacing.units() * spacing.units()) * members;
            &&& near(estimate, packed, each, 18)
            &&& each > 0
        }),
        least_share(radius, spacing, members) == estimate.max(scalar(0x4080_0000)).to_u32(),  // 4.0
{
    let unit = crate::scalar::one_units();
    let least = scalar(0x38d1_b717);  // 0.0001
    let (u, v, n) = (radius.units(), spacing.units(), members as int);
    crate::rounding::lemma_p2_values();
    crate::rounding::lemma_p2_pos(149);
    vstd::arithmetic::power2::lemma2_to64();
    assert(!spacing.lt(least));
    assert(spacing.max(least) == spacing);
    assert(power(-18).le(spacing));
    lemma_known_itself(radius, 18);
    lemma_known_itself(spacing, 18);
    let ratio = radius.div(spacing);
    assert(u * unit == unit * u && unit * v == v * unit) by (nonlinear_arith);
    lemma_known_quotient(radius, u, unit, 0, 18, spacing, v, unit, 0, 18, u * unit, v * unit);
    crate::nearly::lemma_known_rescaled(ratio, u * unit, v * unit, 2, 36, u, v, unit);
    let square = ratio.mul(ratio);
    lemma_known_product(ratio, u, v, 2, 36, ratio, u, v, 2, 36, u * u, v * v);
    let factor = scalar(0x4068_2a99);  // 3.6276
    lemma_known_digits(factor, 127, 0xe8_2a99, 36276, 10000, 2);
    let whole = factor.mul(square);
    lemma_known_product(factor, 36276, 10000, 1, 2, square, u * u, v * v, 6, 72, 36276 * (u * u), 10000 * (v * v));
    let quarter = scalar(0x3e80_0000);  // 0.25
    lemma_known_digits(quarter, 124, 0x80_0000, 1, 4, 2);
    let part = whole.mul(quarter);
    lemma_known_product(
        whole,
        36276 * (u * u),
        10000 * (v * v),
        9,
        74,
        quarter,
        1,
        4,
        1,
        2,
        36276 * (u * u),
        40000 * (v * v),
    );
    lemma_known_count(members);
    let estimate = part.div(Scalar::from_u32(members));
    lemma_known_quotient(
        part,
        36276 * (u * u),
        40000 * (v * v),
        12,
        76,
        Scalar::from_u32(members),
        n,
        1,
        0,
        24,
        36276 * (u * u),
        40000 * (v * v) * n,
    );
    lemma_known(estimate, 36276 * (u * u), 40000 * (v * v) * n, 14, 100);
    assert(14 * ((36276 * (u * u)) * unit) <= 18 * ((36276 * (u * u)) * unit)) by (nonlinear_arith)
        requires
            unit > 0,
    ;
    estimate
}

/// The outline is stamped twice as wide as the spacing, and its level is half the
/// particles that a texel holds at rest: the texel's area over the spacing squared.
pub proof fn lemma_outline_follows_spacing(spacing: Scalar, side: u32)
    requires
        power(-13).le(spacing),
        spacing.le(power(18)),
        0 < side <= 0x100_0000,
    ensures
        ({
            let unit = crate::scalar::one_units();
            let area = 0x40_0000 * (unit * unit);
            let held = (2 * (side * side)) * (spacing.units() * spacing.units());
            &&& near(outline_of(spacing, side).0, 2 * spacing.units(), unit, 3)
            &&& near(outline_of(spacing, side).1, area, held, 15)
        }),
{
    let unit = crate::scalar::one_units();
    let least = scalar(0x38d1_b717);  // 0.0001
    let (v, n) = (spacing.units(), side as int);
    crate::rounding::lemma_p2_values();
    crate::rounding::lemma_p2_pos(149);
    vstd::arithmetic::power2::lemma2_to64();
    assert(spacing.max(least) == spacing);
    assert(power(-18).le(spacing));
    lemma_known_itself(spacing, 18);
    lemma_known_digits(two(), 127, 0x80_0000, 2, 1, 2);
    lemma_known_product(spacing, v, unit, 0, 18, two(), 2, 1, 1, 2, 2 * v, unit);
    lemma_known(spacing.mul(two()), 2 * v, unit, 3, 20);
    lemma_known_digits(world(), 137, 0x80_0000, 2048, 1, 11);
    lemma_known_count(side);
    let texel = world().div(Scalar::from_u32(side));
    lemma_known_quotient(world(), 2048, 1, 1, 11, Scalar::from_u32(side), n, 1, 0, 24, 2048, n);
    let (area, square) = (texel.mul(texel), spacing.mul(spacing));
    lemma_known_product(texel, 2048, n, 3, 35, texel, 2048, n, 3, 35, 0x40_0000, n * n);
    lemma_known_product(spacing, v, unit, 0, 18, spacing, v, unit, 0, 18, v * v, unit * unit);
    let interior = area.div(square);
    lemma_known_quotient(
        area,
        0x40_0000,
        n * n,
        8,
        70,
        square,
        v * v,
        unit * unit,
        2,
        36,
        0x40_0000 * (unit * unit),
        (n * n) * (v * v),
    );
    lemma_known_digits(half(), 125, 0x80_0000, 1, 2, 1);
    assert(((n * n) * (v * v)) * 2 == (2 * (n * n)) * (v * v)) by (nonlinear_arith);
    lemma_known_product(
        interior,
        0x40_0000 * (unit * unit),
        (n * n) * (v * v),
        12,
        106,
        half(),
        1,
        2,
        1,
        1,
        0x40_0000 * (unit * unit),
        (2 * (n * n)) * (v * v),
    );
    lemma_known(interior.mul(half()), 0x40_0000 * (unit * unit), (2 * (n * n)) * (v * v), 15, 107);
}

/// The grid has as many cells a side as the radius fits into the world, from three to
/// 256: with more than three, no cell is narrower than the radius, up to rounding, and
/// with fewer than 256, one more would be.
pub proof fn lemma_cells_hold_the_radius(s: Simulation)
    requires
        s.radius.finite(),
        zero().lt(s.radius),
    ensures
        ({
            let (cells, radius, side) = (s.grid_side(), s.radius.units(), world().units());
            &&& 3 <= cells <= 256
            &&& cells > 3 ==> 0x100_0000 * (cells * radius - side) <= side
            &&& cells < 256 ==> side < (cells + 1) * radius
        }),
{
    let unit = crate::scalar::one_units();
    let (side, radius) = (world(), s.radius);
    let q = side.div(radius);
    let cells = s.grid_side() as int;
    let (w, r) = (side.units(), radius.units());
    crate::rounding::lemma_p2_pos(149);
    crate::rounding::lemma_p2_values();
    crate::rounding::lemma_p2_u128();
    crate::rounding::lemma_p2_monotone(40, 149);
    vstd::arithmetic::power2::lemma2_to64();
    crate::order::lemma_power_of_two(24);
    crate::order::lemma_power_of_two(11);
    assert(w == 2048 * unit);
    crate::order::lemma_order_of_values(zero(), radius);
    let top = scalar(0x4b80_0000);  // 16777216.0
    assert(top.units() == 0x100_0000 * unit);
    crate::order::lemma_quotient_bounds(side, radius, zero());
    assert(0 * r <= w * unit) by (nonlinear_arith)
        requires
            w > 0,
            unit > 0,
    ;
    crate::order::lemma_order_of_values(zero(), q);
    crate::order::lemma_order_of_values(q, top);
    crate::order::lemma_order_of_values(top, q);
    let found = q.floor().to_u32() as int;
    if q.le(top) {
        crate::order::lemma_fraction_exact(q);
        assert(found == q.units() / unit);
        vstd::arithmetic::div_mod::lemma_fundamental_div_mod(q.units(), unit);
        vstd::arithmetic::div_mod::lemma_mod_bound(q.units(), unit);
        assert(unit * found == found * unit && found * unit + unit == (found + 1) * unit) by (nonlinear_arith);
    } else {
        lemma_far_floor(q);
    }
    if cells < 256 {
        let next = Scalar::from_u32((cells + 1) as u32);
        crate::order::lemma_small_count((cells + 1) as u32);
        assert(q.units() < (cells + 1) * unit) by (nonlinear_arith)
            requires
                q.units() < (found + 1) * unit,
                found <= cells,
                unit > 0,
        ;
        if w >= (cells + 1) * r {
            assert(w * unit >= ((cells + 1) * unit) * r) by (nonlinear_arith)
                requires
                    w >= (cells + 1) * r,
                    unit > 0,
            ;
            crate::order::lemma_quotient_bounds(side, radius, next);
            crate::order::lemma_order_of_values(next, q);
        }
    }
    if cells > 3 {
        assert(q.units() >= cells * unit) by {
            if q.le(top) {
                assert(q.units() >= cells * unit) by (nonlinear_arith)
                    requires
                        q.units() >= found * unit,
                        found >= cells,
                        unit > 0,
                ;
            } else {
                assert(0x100_0000 * unit >= cells * unit) by (nonlinear_arith)
                    requires
                        cells <= 256,
                        unit > 0,
                ;
            }
        }
        lemma_cells_wide(radius, cells, q);
    }
}

/// Numbers from 2^24 on stay there when they are rounded down and truncated.
proof fn lemma_far_floor(q: Scalar)
    requires
        (scalar(0x4b80_0000)).le(q),  // 16777216.0
    ensures
        q.floor().to_u32() >= 0x100_0000,
{
    let unit = crate::scalar::one_units();
    let top = scalar(0x4b80_0000);  // 16777216.0
    crate::rounding::lemma_p2_pos(149);
    vstd::arithmetic::power2::lemma2_to64();
    crate::order::lemma_power_of_two(24);
    assert(top.units() == 0x100_0000 * unit);
    crate::order::lemma_fraction_exact(top);
    vstd::arithmetic::div_mod::lemma_div_multiples_vanish(0x100_0000, unit);
    assert(unit * 0x100_0000 == 0x100_0000 * unit);
    if q.finite() {
        crate::order::lemma_floor_monotone(top, q);
        crate::order::lemma_truncation_monotone(top.floor(), q.floor());
    }
}

/// With more than three cells, each is as wide as the radius, up to rounding.
proof fn lemma_cells_wide(radius: Scalar, cells: int, q: Scalar)
    requires
        radius.finite(),
        radius.units() > 0,
        4 <= cells <= 256,
        q == world().div(radius),
        !q.nan(),
        q.units() >= cells * crate::scalar::one_units(),
    ensures
        0x100_0000 * (cells * radius.units() - world().units()) <= world().units(),
{
    let unit = crate::scalar::one_units();
    let side = world();
    let (w, r) = (side.units(), radius.units());
    crate::rounding::lemma_p2_pos(149);
    crate::rounding::lemma_p2_values();
    crate::rounding::lemma_p2_u128();
    crate::rounding::lemma_p2_monotone(40, 149);
    vstd::arithmetic::power2::lemma2_to64();
    crate::order::lemma_power_of_two(0);
    crate::order::lemma_power_of_two(11);
    assert(w == 2048 * unit);
    assert(cells * unit >= 4 * unit) by (nonlinear_arith)
        requires
            cells >= 4,
            unit > 0,
    ;
    if r > w {
        assert(w * unit <= unit * r) by (nonlinear_arith)
            requires
                w <= r,
                unit > 0,
        ;
        crate::order::lemma_quotient_bounds(side, radius, one());
        crate::order::lemma_order_of_values(q, one());
    } else if cells * r > w {
        let count = Scalar::from_u32(cells as u32);
        crate::order::lemma_small_count(cells as u32);
        assert(w * unit <= (cells * unit) * r) by (nonlinear_arith)
            requires
                w <= cells * r,
                unit > 0,
        ;
        crate::order::lemma_quotient_bounds(side, radius, count);
        crate::order::lemma_order_of_values(q, count);
        assert(q.finite() && q.units() == cells * unit);
        crate::order::lemma_quotient_error(side, radius);
        let over = cells * r - w;
        assert((cells * unit) * r - w * unit == over * unit) by (nonlinear_arith)
            requires
                over == cells * r - w,
        ;
        assert(w * unit >= 0) by (nonlinear_arith)
            requires
                w >= 0,
                unit > 0,
        ;
        assert(over * unit >= 0) by (nonlinear_arith)
            requires
                over >= 0,
                unit > 0,
        ;
        if 0x100_0000 * (over * unit) <= w * unit {
            assert(0x100_0000 * over <= w) by (nonlinear_arith)
                requires
                    0x100_0000 * (over * unit) <= w * unit,
                    unit > 0,
            ;
        } else {
            assert(over <= 1024) by (nonlinear_arith)
                requires
                    2 * (over * unit) <= 2048 * unit,
                    unit > 0,
            ;
        }
    }
}

/// A pair that prefers no distance is bonded by its mutual pull alone: both rules together
/// have to be more than the threshold, which decides up to rounding.
pub proof fn lemma_bonded_by_mutual_pull(sim: Simulation, a: int, b: int)
    requires
        sim.preferred(a, b) is None,
        sim.rule(a, b).finite(),
        sim.rule(b, a).finite(),
    ensures
        ({
            let pull = sim.rule(a, b).units() + sim.rule(b, a).units();
            &&& pull <= bond_threshold().units() ==> !sim.bonded(a, b)
            &&& 0x100_0000 * (pull - bond_threshold().units()) > pull ==> sim.bonded(a, b)
        }),
{
    let (x, y, least) = (sim.rule(a, b), sim.rule(b, a), bond_threshold());
    let sum = x.add(y);
    crate::order::lemma_order_of_values(zero(), least);
    crate::order::lemma_sum_bounds(x, y, least);
    crate::order::lemma_order_of_values(least, sum);
    crate::order::lemma_order_of_values(sum, least);
    if sum.finite() {
        crate::order::lemma_sum_error(x, y);
    }
}

/// Where preferred distances are on, a pair of which one side or both keep a distance
/// prefers their mean, each held from a fifth to 0.95 of the radius; a pair of which
/// neither does prefers none, and so does every pair where they are off.
pub proof fn lemma_preferred_is_the_mean(sim: Simulation, a: int, b: int)
    ensures
        ({
            let (there, back) = (sim.separation(a, b), sim.separation(b, a));
            let found = sim.preferred(a, b);
            let (x, y) = (held(there).units(), held(back).units());
            &&& !sim.behavior.preferred_enabled ==> found is None
            &&& sim.behavior.preferred_enabled ==> {
                &&& found is Some <==> zero().lt(there) || zero().lt(back)
                &&& zero().lt(there) && zero().lt(back) ==> 0x100_0000 * gap(2 * found->0.units(), x + y) <= 3 * (x + y)
                &&& zero().lt(there) && !zero().lt(back) ==> found->0.units() == x
                &&& !zero().lt(there) && zero().lt(back) ==> found->0.units() == y
            }
        }),
{
    let (there, back) = (sim.separation(a, b), sim.separation(b, a));
    let (x, y) = (held(there), held(back));
    crate::rounding::lemma_p2_pos(149);
    crate::rounding::lemma_p2_values();
    vstd::arithmetic::power2::lemma2_to64();
    if sim.behavior.preferred_enabled {
        if zero().lt(there) {
            lemma_held_sized(there);
        }
        if zero().lt(back) {
            lemma_held_sized(back);
        }
        if zero().lt(there) && zero().lt(back) {
            lemma_mean_of_two(x, y);
        } else if zero().lt(there) {
            lemma_over_one(x);
        } else if zero().lt(back) {
            lemma_over_one(y);
        }
    }
}

/// A distance is held from a fifth to 0.95, and is itself in between.
pub proof fn lemma_held_between(distance: Scalar)
    requires
        zero().lt(distance),
    ensures
        near(held(scalar(1)), 1, 5, 1),
        near(held(one()), 19, 20, 1),
        distance.le(held(scalar(1))) ==> held(distance) == held(scalar(1)),
        held(one()).le(distance) ==> held(distance) == held(one()),
        held(scalar(1)).lt(distance) && distance.lt(held(one())) ==> held(distance) == distance,
{
    crate::rounding::lemma_p2_values();
    vstd::arithmetic::power2::lemma2_to64();
    let (low, high) = (scalar(0x3e4c_cccd), scalar(0x3f73_3333));  // 0.2, 0.95
    assert(held(scalar(1)) == low);
    assert(held(one()) == high);
    lemma_near_digits(low, 123, 0xcc_cccd, 1, 5);
    lemma_near_digits(high, 125, 0xf3_3333, 19, 20);
}

proof fn lemma_held_sized(distance: Scalar)
    requires
        zero().lt(distance),
    ensures
        power(-3).le(held(distance)),
        held(distance).le(power(3)),
{
}

proof fn lemma_over_one(x: Scalar)
    requires
        power(-3).le(x),
        x.le(power(3)),
    ensures
        x.div(one()).units() == x.units(),
{
    let unit = crate::scalar::one_units();
    let v = x.units();
    crate::rounding::lemma_p2_pos(149);
    crate::rounding::lemma_p2_values();
    crate::order::lemma_power_of_two(0);
    assert(one().units() == unit);
    crate::nearly::lemma_sized(x, 3);
    crate::order::lemma_quotient_bounds(x, one(), x);
    crate::order::lemma_order_of_values(x, x.div(one()));
    crate::order::lemma_order_of_values(x.div(one()), x);
}

proof fn lemma_mean_of_two(x: Scalar, y: Scalar)
    requires
        power(-3).le(x),
        x.le(power(3)),
        power(-3).le(y),
        y.le(power(3)),
    ensures
        0x100_0000 * gap(2 * x.add(y).div(two()).units(), x.units() + y.units()) <= 3 * (x.units() + y.units()),
{
    let unit = crate::scalar::one_units();
    crate::rounding::lemma_p2_pos(149);
    crate::rounding::lemma_p2_values();
    vstd::arithmetic::power2::lemma2_to64();
    crate::nearly::lemma_sized(x, 3);
    crate::nearly::lemma_sized(y, 3);
    crate::nearly::lemma_power(-3);
    crate::nearly::lemma_power(4);
    crate::nearly::lemma_power(-4);
    crate::rounding::lemma_p2_step(152);
    crate::rounding::lemma_p2_monotone(145, 146);
    crate::rounding::lemma_p2_monotone(24, 146);
    let sum = x.add(y);
    crate::order::lemma_sum_bounds(x, y, power(-4));
    crate::order::lemma_sum_bounds(x, y, power(4));
    crate::order::lemma_order_of_values(power(-4), sum);
    crate::order::lemma_order_of_values(sum, power(4));
    crate::order::lemma_sum_error(x, y);
    let t = sum.units();
    crate::order::lemma_power_of_two(1);
    assert(two().units() == 2 * unit);
    crate::nearly::lemma_sized(sum, 4);
    assert(crate::nearly::sized(two(), 1)) by {
        crate::rounding::lemma_p2_step(149);
        crate::rounding::lemma_p2_monotone(148, 149);
    }
    crate::nearly::lemma_sized_quotient(sum, 4, two(), 1);
    crate::order::lemma_quotient_error(sum, two());
    let q = sum.div(two()).units();
    let g = gap(2 * q, t);
    assert(gap(q * (2 * unit), t * unit) == g * unit) by (nonlinear_arith)
        requires
            g == if 2 * q < t { t - 2 * q } else { 2 * q - t },
            unit > 0,
    ;
    assert(t * unit >= 0) by (nonlinear_arith)
        requires
            t >= 0,
            unit > 0,
    ;
    if 0x100_0000 * (g * unit) <= t * unit {
        assert(0x100_0000 * g <= t) by (nonlinear_arith)
            requires
                0x100_0000 * (g * unit) <= t * unit,
                unit > 0,
        ;
    } else {
        assert(g <= 1) by (nonlinear_arith)
            requires
                2 * (g * unit) <= 2 * unit,
                unit > 0,
        ;
    }
}

/// A pair rests at its preferred share of the radius, or at the core fraction of it if it
/// prefers none.
pub proof fn lemma_pairs_rest_at_their_share(sim: Simulation, a: int, b: int)
    requires
        power(-18).le(sim.radius),
        sim.radius.le(power(18)),
    ensures
        ({
            let unit = crate::scalar::one_units();
            let (rest, radius) = (sim.spacing_of_pair(a, b), sim.radius.units());
            &&& sim.preferred(a, b) matches Some(share) ==> near(rest, share.units() * radius, unit * unit, 2)
            &&& sim.preferred(a, b) is None ==> near(rest, radius, 5 * unit, 3)
        }),
{
    let unit = crate::scalar::one_units();
    crate::rounding::lemma_p2_values();
    vstd::arithmetic::power2::lemma2_to64();
    lemma_known_itself(sim.radius, 18);
    let r = sim.radius.units();
    match sim.preferred(a, b) {
        Some(share) => {
            crate::creatures::lemma_preferred_within(sim, a, b);
            lemma_known_itself(share, 3);
            lemma_known_product(share, share.units(), unit, 0, 3, sim.radius, r, unit, 0, 18, share.units() * r, unit * unit);
            lemma_known(share.mul(sim.radius), share.units() * r, unit * unit, 2, 21);
        },
        None => {
            lemma_known_digits(core_fraction(), 123, 0xcc_cccd, 1, 5, 3);
            lemma_known_product(core_fraction(), 1, 5, 1, 3, sim.radius, r, unit, 0, 18, r, 5 * unit);
            lemma_known(core_fraction().mul(sim.radius), r, 5 * unit, 3, 21);
        },
    }
}

/// A length from 2^-18 to 2^18.
pub open spec fn common(x: Scalar) -> bool {
    power(-18).le(x) && x.le(power(18))
}

/// What a distance, at least a fifth, comes to in world units.
pub(crate) proof fn lemma_separation(value: Scalar, radius: Scalar)
    requires
        common(radius),
    ensures
        ({
            let unit = crate::scalar::one_units();
            let least = scalar(0x3e4c_cccd);  // 0.2
            let separation = value.max(least).mul(radius);
            &&& least.le(value) && value.le(one()) ==> near(
                separation,
                value.units() * radius.units(),
                unit * unit,
                2,
            )
            &&& zero().lt(value) && value.le(least) ==> near(separation, radius.units(), 5 * unit, 3)
        }),
{
    let unit = crate::scalar::one_units();
    let least = scalar(0x3e4c_cccd);  // 0.2
    let r = radius.units();
    crate::rounding::lemma_p2_values();
    vstd::arithmetic::power2::lemma2_to64();
    lemma_known_itself(radius, 18);
    if least.le(value) && value.le(one()) {
        assert(value.max(least) == value);
        lemma_known_itself(value, 3);
        lemma_known_product(value, value.units(), unit, 0, 3, radius, r, unit, 0, 18, value.units() * r, unit * unit);
        lemma_known(value.mul(radius), value.units() * r, unit * unit, 2, 21);
    }
    if zero().lt(value) && value.le(least) {
        assert(value.max(least) == least);
        lemma_known_digits(least, 123, 0xcc_cccd, 1, 5, 3);
        lemma_known_product(least, 1, 5, 1, 3, radius, r, unit, 0, 18, r, 5 * unit);
        lemma_known(least.mul(radius), r, 5 * unit, 3, 21);
    }
}

/// The camera sees as far from its middle as the zoom leaves of its height, sideways times
/// the aspect ratio, and a particle more: half of what it sees, and the width of a dot.
pub proof fn lemma_camera_sees(a: Appearance)
    requires
        bounded(a.aspect, 16),
        a.zoom.finite(),
        (scalar(0x3e80_0000)).le(a.zoom),  // 0.25
        power(-10).le(a.size),
        a.size.le(power(10)),
    ensures
        ({
            let unit = crate::scalar::one_units();
            let (z, dot) = (a.zoom.units(), a.size.units() * a.zoom.units());
            &&& off(a.extent().x, 1024 * (a.aspect.units() * unit) + dot, 1024 * (unit * z), 140)
            &&& off(a.extent().y, 1024 * (unit * unit) + dot, 1024 * (unit * z), 140)
        }),
{
    lemma_seen_axes(a);
    lemma_seen_axis(a.aspect, a.zoom, a.size);
    lemma_one();
    lemma_seen_axis(one(), a.zoom, a.size);
}

proof fn lemma_one()
    ensures
        bounded(one(), 16),
        one().units() == crate::scalar::one_units(),
{
    crate::rounding::lemma_p2_pos(149);
    crate::rounding::lemma_p2_values();
    crate::order::lemma_power_of_two(0);
}

/// How far the camera sees along an axis.
#[verifier::opaque]
spec fn seen_axis(f: Scalar, zoom: Scalar, size: Scalar) -> Scalar {
    f.div(zoom).add(size.mul(two()).div(world()))
}

proof fn lemma_seen_axes(a: Appearance)
    ensures
        a.extent().x == seen_axis(a.aspect, a.zoom, a.size),
        a.extent().y == seen_axis(one(), a.zoom, a.size),
{
    reveal(seen_axis);
}

proof fn lemma_seen_axis(f: Scalar, zoom: Scalar, size: Scalar)
    requires
        bounded(f, 16),
        zoom.finite(),
        (scalar(0x3e80_0000)).le(zoom),  // 0.25
        power(-10).le(size),
        size.le(power(10)),
    ensures
        ({
            let unit = crate::scalar::one_units();
            off(
                seen_axis(f, zoom, size),
                1024 * (f.units() * unit) + size.units() * zoom.units(),
                1024 * (unit * zoom.units()),
                140,
            )
        }),
{
    let unit = crate::scalar::one_units();
    let (a, z, s) = (f.units(), zoom.units(), size.units());
    let (part, dot) = (f.div(zoom), size.mul(two()).div(world()));
    reveal(seen_axis);
    crate::rounding::lemma_p2_pos(149);
    crate::rounding::lemma_p2_values();
    vstd::arithmetic::power2::lemma2_to64();
    crate::pointing::lemma_quarter(zoom);
    crate::roughly::lemma_off_itself(f);
    crate::roughly::lemma_off_quotient(f, a, unit, 0, 16, zoom, 4, a * unit, unit * z);
    lemma_known_itself(size, 10);
    lemma_known_digits(two(), 127, 0x80_0000, 2, 1, 2);
    lemma_known_product(size, s, unit, 0, 10, two(), 2, 1, 1, 2, 2 * s, unit);
    lemma_known_digits(world(), 137, 0x80_0000, 2048, 1, 11);
    lemma_known_quotient(size.mul(two()), 2 * s, unit, 3, 12, world(), 2048, 1, 1, 11, 2 * s, 2048 * unit);
    crate::nearly::lemma_known_rescaled(dot, 2 * s, 2048 * unit, 6, 23, s, 1024 * unit, 2);
    lemma_known(dot, s, 1024 * unit, 6, 23);
    crate::nearly::lemma_power(10);
    crate::order::lemma_order_of_values(size, power(10));
    crate::rounding::lemma_p2_adds(10, 149);
    assert(s <= 1024 * unit);
    assert(6 * (s * unit) <= 6 * ((1024 * unit) * unit)) by (nonlinear_arith)
        requires
            s <= 1024 * unit,
            unit > 0,
    ;
    assert(off(dot, s, 1024 * unit, 6));
    let d = dot.units();
    assert(d <= 2 * unit) by (nonlinear_arith)
        requires
            0x100_0000 * (d * (1024 * unit) - s * unit) <= 6 * (s * unit),
            s <= 1024 * unit,
            unit > 0,
    ;
    let den = 1024 * (unit * z);
    assert(den > 0 && den == (unit * z) * 1024 && den == (1024 * unit) * z) by (nonlinear_arith)
        requires
            den == 1024 * (unit * z),
            unit > 0,
            z > 0,
    ;
    crate::roughly::lemma_off_rescaled(part, a * unit, unit * z, 65, 1024, 1024 * (a * unit), den);
    crate::roughly::lemma_off_rescaled(dot, s, 1024 * unit, 6, z, s * z, den);
    crate::roughly::lemma_off_sum(part, 1024 * (a * unit), 65, dot, s * z, 6, den, 66);
    assert(137 * (den * unit) <= 140 * (den * unit)) by (nonlinear_arith)
        requires
            den > 0,
            unit > 0,
    ;
}

/// Bloom is three fifths of the glow.
pub(crate) proof fn lemma_bloom(glow: Scalar)
    requires
        common(glow),
    ensures
        near(glow.mul(scalar(0x3f19_999a)), 3 * glow.units(), 5 * crate::scalar::one_units(), 3),  // 0.6
{
    let unit = crate::scalar::one_units();
    let (factor, g) = (scalar(0x3f19_999a), glow.units());  // 0.6
    crate::rounding::lemma_p2_values();
    vstd::arithmetic::power2::lemma2_to64();
    lemma_known_itself(glow, 18);
    lemma_known_digits(factor, 125, 0x99_999a, 3, 5, 3);
    lemma_known_product(glow, g, unit, 0, 18, factor, 3, 5, 1, 3, 3 * g, 5 * unit);
    lemma_known(glow.mul(factor), 3 * g, 5 * unit, 3, 21);
}

/// A picture is as many times as wide as high as its pixels say.
pub proof fn lemma_aspect_is_width_over_height(size: UVec2)
    requires
        0 < size.x <= 0x100_0000,
        0 < size.y <= 0x100_0000,
    ensures
        near(aspect_ratio(size), size.x as int, size.y as int, 2),
{
    let (w, h) = (size.x as int, size.y as int);
    lemma_known_count(size.x);
    lemma_known_count(size.y);
    lemma_known_quotient(Scalar::from_u32(size.x), w, 1, 0, 24, Scalar::from_u32(size.y), h, 1, 0, 24, w, h);
    lemma_known(aspect_ratio(size), w, h, 2, 48);
}

/// The part of the window that shows the world, in logical pixels: its physical ones over
/// the scale.
pub proof fn lemma_screen_in_logical_pixels(pointer: Pointer, visible: bool)
    requires
        power(-10).le(pointer.scale),
        pointer.scale.le(power(10)),
        pointer.size.x <= 0x100_0000,
        pointer.size.y <= 0x100_0000,
    ensures
        ({
            let unit = crate::scalar::one_units();
            let (origin, size) = crate::ui::viewport_of(pointer.size, pointer.scale, visible);
            let (screen, scale) = (pointer.screen(visible), pointer.scale.units());
            &&& near(screen.size.x, size.x * unit, scale, 2)
            &&& near(screen.size.y, size.y * unit, scale, 2)
            &&& origin.x > 0 ==> near(screen.origin.x, origin.x * unit, scale, 2)
            &&& screen.origin.y.units() == 0
            &&& origin.x == 0 ==> screen.origin.x.units() == 0
        }),
{
    let (origin, size) = crate::ui::viewport_of(pointer.size, pointer.scale, visible);
    crate::ui::lemma_viewport_fills_window(pointer.size, pointer.scale, visible);
    lemma_logical(size.x, pointer.scale);
    lemma_logical(size.y, pointer.scale);
    lemma_logical(origin.x, pointer.scale);
    lemma_logical(0, pointer.scale);
}

/// A scale from 2^-10 to 2^10.
pub open spec fn common_scale(scale: Scalar) -> bool {
    power(-10).le(scale) && scale.le(power(10))
}

pub(crate) proof fn lemma_logical(pixels: u32, scale: Scalar)
    requires
        common_scale(scale),
        pixels <= 0x100_0000,
    ensures
        pixels > 0 ==> near(
            Scalar::from_u32(pixels).div(scale),
            pixels * crate::scalar::one_units(),
            scale.units(),
            2,
        ),
        pixels == 0 ==> Scalar::from_u32(pixels).div(scale).units() == 0,
{
    let unit = crate::scalar::one_units();
    let n = pixels as int;
    lemma_known_itself(scale, 10);
    if pixels > 0 {
        lemma_known_count(pixels);
        lemma_known_quotient(Scalar::from_u32(pixels), n, 1, 0, 24, scale, scale.units(), unit, 0, 10, n * unit, scale.units());
        lemma_known(Scalar::from_u32(pixels).div(scale), n * unit, scale.units(), 2, 34);
    } else {
        crate::rounding::lemma_grid_code(0, 0);
    }
}

/// The frame rate shown moves a twentieth of the way to that of the last frame, which
/// counts as a thousandth of a second at least.
pub proof fn lemma_rate_follows_frames(fps: Scalar, seconds: Scalar)
    requires
        bounded(fps, 1024),
        zero().le(fps),
        (scalar(0x3a83_126f)).le(seconds),  // 0.001
        seconds.le(power(10)),
    ensures
        ({
            let unit = crate::scalar::one_units();
            let (rate, time) = (fps.units(), seconds.units());
            off(smoothed(fps, seconds), 19 * (rate * time) + unit * unit, 20 * (unit * time), 13200)
        }),
        smoothed(fps, zero()) == smoothed(fps, scalar(0x3a83_126f)),  // 0.001
{
    let unit = crate::scalar::one_units();
    let (least, part) = (scalar(0x3a83_126f), scalar(0x3d4c_cccd));  // 0.001, 0.05
    let (f, t) = (fps.units(), seconds.units());
    crate::rounding::lemma_p2_pos(149);
    crate::rounding::lemma_p2_values();
    vstd::arithmetic::power2::lemma2_to64();
    assert(seconds.max(least) == seconds);
    assert(zero().max(least) == least && least.max(least) == least);
    lemma_one();
    lemma_thousandth(seconds);
    let now = one().div(seconds);
    crate::roughly::lemma_off_itself(one());
    assert(bounded(one(), 1));
    crate::roughly::lemma_off_quotient(one(), unit, unit, 0, 1, seconds, 1000, unit * unit, unit * t);
    let d1 = unit * t;
    assert(d1 > 0) by (nonlinear_arith)
        requires
            d1 == unit * t,
            unit > 0,
            t > 0,
    ;
    let minus = fps.neg();
    crate::roughly::lemma_off_itself(minus);
    assert((-f) * t == -(f * t)) by (nonlinear_arith);
    crate::roughly::lemma_off_rescaled(minus, -f, unit, 0, t, -(f * t), d1);
    let gone = now.add(minus);
    crate::roughly::lemma_off_sum(now, unit * unit, 1001, minus, -(f * t), 0, d1, 2024);
    let n2 = unit * unit - f * t;
    lemma_near_digits(part, 121, 0xcc_cccd, 1, 20);
    assert(off(part, 1, 20, 1) && bounded(part, 1)) by {
        crate::order::lemma_order_of_values(part, one());
    }
    let step = gone.mul(part);
    crate::roughly::lemma_off_product(gone, n2, d1, 3025, 2024, part, 1, 20, 1, 1, n2, d1 * 20);
    crate::roughly::lemma_off_itself(fps);
    let d2 = d1 * 20;
    assert(d2 == unit * (20 * t) && f * (20 * t) == 20 * (f * t)) by (nonlinear_arith)
        requires
            d1 == unit * t,
            d2 == d1 * 20,
    ;
    crate::roughly::lemma_off_rescaled(fps, f, unit, 0, 20 * t, 20 * (f * t), d2);
    crate::roughly::lemma_off_sum(fps, 20 * (f * t), 0, step, n2, 10099, d2, 3048);
    assert(13147 * (d2 * unit) <= 13200 * (d2 * unit)) by (nonlinear_arith)
        requires
            d2 > 0,
            unit > 0,
    ;
}

proof fn lemma_thousandth(seconds: Scalar)
    requires
        (scalar(0x3a83_126f)).le(seconds),  // 0.001
        seconds.le(power(10)),
    ensures
        seconds.finite(),
        seconds.units() > 0,
        crate::scalar::one_units() <= 1000 * seconds.units(),
{
    let least = scalar(0x3a83_126f);  // 0.001
    crate::rounding::lemma_p2_pos(149);
    crate::rounding::lemma_p2_pos(116);
    vstd::arithmetic::power2::lemma2_to64();
    vstd::arithmetic::power2::lemma2_to64_rest();
    crate::rounding::lemma_grid_code(116, 0x83_126f);
    crate::rounding::lemma_p2_adds(33, 116);
    assert(least.units() == 0x83_126f * crate::rounding::p2(116));
    let (up, place) = (crate::rounding::p2(33), crate::rounding::p2(116));
    assert(up == 0x2_0000_0000);
    assert(up * place == 0x2_0000_0000 * place);
    assert(crate::scalar::one_units() == 0x2_0000_0000 * place);
    assert(0x2_0000_0000 * place <= 1000 * (0x83_126f * place)) by (nonlinear_arith)
        requires
            place > 0,
    ;
    crate::nearly::lemma_power(10);
    crate::order::lemma_order_of_values(least, seconds);
    crate::order::lemma_order_of_values(seconds, power(10));
    assert(least.units() <= seconds.units());
}

/// A value colors its cell by its size: from 65 for nothing to 180 more for one, toward blue
/// if it is not below zero and toward red if it is.
pub proof fn lemma_shade_follows_value(value: Scalar)
    requires
        value.finite(),
        value.abs().le(one()),
    ensures
        ({
            let unit = crate::scalar::one_units();
            let (size, amount, color) = (value.abs().units(), shade(value) as int, shade_color(value));
            &&& amount <= 180
            &&& 0x100_0000 * (amount * unit - 180 * size) <= 180 * size + 0x100_0000
            &&& 0x100_0000 * (180 * size - (amount + 1) * unit) <= 180 * size + 0x100_0000
            &&& zero().le(value) ==> color.blue == 65 + amount && color.red == 28 && color.green == 55 + amount / 2
            &&& value.lt(zero()) ==> color.red == 65 + amount && color.blue == 40 && color.green == 35 + amount / 3
        }),
{
    let unit = crate::scalar::one_units();
    let (x, most) = (value.abs(), scalar(0x4334_0000));  // 180.0
    let p = x.mul(most);
    crate::rounding::lemma_p2_pos(149);
    crate::rounding::lemma_p2_values();
    vstd::arithmetic::power2::lemma2_to64();
    lemma_one();
    crate::panel::lemma_bounded_rules_have_colors(value);
    crate::order::lemma_whole_value(most, 180, 16);
    crate::order::lemma_order_of_values(x, one());
    crate::scalar::lemma_self_rounding(x);
    let v = x.units();
    assert(v >= 0);
    assert(0 * unit <= v * (180 * unit) <= (180 * unit) * unit) by (nonlinear_arith)
        requires
            0 <= v <= unit,
    ;
    crate::order::lemma_product_bounds(x, most, most);
    crate::order::lemma_product_bounds(x, most, zero());
    crate::order::lemma_order_of_values(p, most);
    crate::order::lemma_order_of_values(zero(), p);
    crate::order::lemma_product_error(x, most);
    crate::scalar::lemma_self_rounding(p);
    let (w, k) = (p.units(), p.to_u32() as int);
    vstd::arithmetic::div_mod::lemma_fundamental_div_mod(p.size(), unit);
    vstd::arithmetic::div_mod::lemma_mod_bound(p.size(), unit);
    vstd::arithmetic::div_mod::lemma_basic_div(0, unit);
    assert(unit * k <= w < unit * k + unit) by {
        if p.negative() {
            assert(p.size() == 0);
            assert(unit * 0 == 0);
        }
    }
    assert(k <= 180) by (nonlinear_arith)
        requires
            unit * k <= 180 * unit,
            unit > 0,
    ;
    let g = gap(w, 180 * v);
    assert(gap(w * unit, v * (180 * unit)) == g * unit) by (nonlinear_arith)
        requires
            g == if w < 180 * v { 180 * v - w } else { w - 180 * v },
            unit > 0,
    ;
    if 0x100_0000 * (g * unit) <= v * (180 * unit) {
        assert(0x100_0000 * g <= 180 * v) by (nonlinear_arith)
            requires
                0x100_0000 * (g * unit) <= v * (180 * unit),
                unit > 0,
        ;
    } else {
        assert(g <= 1) by (nonlinear_arith)
            requires
                2 * (g * unit) <= unit,
                unit > 0,
        ;
    }
    assert(unit * k == k * unit && (k + 1) * unit == k * unit + unit) by (nonlinear_arith);
}

/// Cells are thirty pixels wide, the headers' included, and follow one another; a whole
/// panel holds one more than there are types.
pub proof fn lemma_cells_follow_one_another(s: Simulation, c: Controls, kind: RuleKind, x: u32, y: u32)
    requires
        x <= 0x1_0000,
        y <= 0x1_0000,
        s.types < 0x1_0000,
    ensures
        ({
            let unit = crate::scalar::one_units();
            let cell = cell_at(s, c, kind, x, y);
            &&& cell.left.units() == 30 * x * unit
            &&& cell.top.units() == 30 * y * unit
            &&& panel_side(s.types).units() == 30 * (s.types + 1) * unit
        }),
{
    lemma_thirty(x);
    lemma_thirty(y);
    lemma_thirty((s.types + 1) as u32);
    crate::order::lemma_small_count(s.types);
    crate::spacing::lemma_pair_counted(Scalar::from_u32(s.types), s.types as int);
    lemma_same_product(Scalar::from_u32(s.types).add(one()), (s.types + 1) as u32);
}

proof fn lemma_thirty(n: u32)
    requires
        n <= 0x1_0000,
    ensures
        Scalar::from_u32(n).mul(scalar(0x41f0_0000)).units() == 30 * n * crate::scalar::one_units(),  // 30.0
{
    crate::order::lemma_small_count(n);
    lemma_same_product(Scalar::from_u32(n), n);
}

proof fn lemma_same_product(x: Scalar, n: u32)
    requires
        n <= 0x1_0000,
        x.finite(),
        x.units() == n * crate::scalar::one_units(),
    ensures
        x.mul(scalar(0x41f0_0000)).units() == 30 * n * crate::scalar::one_units(),  // 30.0
{
    let unit = crate::scalar::one_units();
    let (thirty, exact) = (scalar(0x41f0_0000), Scalar::from_u32((30 * n) as u32));  // 30.0
    crate::rounding::lemma_p2_pos(149);
    vstd::arithmetic::power2::lemma2_to64();
    crate::order::lemma_whole_value(thirty, 30, 19);
    crate::order::lemma_small_count((30 * n) as u32);
    assert((n * unit) * (30 * unit) == ((30 * n) * unit) * unit) by (nonlinear_arith);
    crate::order::lemma_product_bounds(x, thirty, exact);
    crate::order::lemma_order_of_values(x.mul(thirty), exact);
    crate::order::lemma_order_of_values(exact, x.mul(thirty));
}

/// A scroll ends where less than a tenth of a pixel of it is left; what is left is what the
/// position did not move by, and goes on to the views around.
pub proof fn lemma_scroll_goes_on_with_the_rest(position: Vec2, delta: Vec2, limit: Vec2, horizontal: bool, vertical: bool)
    ensures
        ({
            let after = scroll(position, delta, limit, horizontal, vertical);
            &&& !horizontal ==> after.position.x == position.x && after.delta.x == delta.x
            &&& !vertical ==> after.position.y == position.y && after.delta.y == delta.y
            &&& horizontal ==> after.position.x == position.x.add(delta.x).clamp(zero(), limit.x)
            &&& vertical ==> after.position.y == position.y.add(delta.y).clamp(zero(), limit.y)
            &&& horizontal ==> after.delta.x == delta.x.sub(after.position.x.sub(position.x))
            &&& vertical ==> after.delta.y == delta.y.sub(after.position.y.sub(position.y))
            &&& after.done <==> after.delta.length_squared().lt(scalar(0x3c23_d70a))  // 0.01
        }),
        near(scalar(0x3c23_d70a), 1, 100, 1),  // 0.01
{
    crate::rounding::lemma_p2_values();
    vstd::arithmetic::power2::lemma2_to64();
    lemma_near_digits(scalar(0x3c23_d70a), 119, 0xa3_d70a, 1, 100);  // 0.01
}

/// What a new world starts with: detection and evolution on, trails and every optional
/// behavior off, and the settings of all of them.
pub proof fn lemma_initial_settings()
    ensures
        Detection::initial().enabled && Detection::initial().promote_steps == 30,
        Evolution::initial().enabled,
        !Trails::initial().enabled,
        !Behavior::initial().preferred_enabled && !Behavior::initial().density_enabled && !Behavior::initial().nova_enabled,
        Behavior::initial().cycle_mode == 0 && Behavior::initial().cycle_min_neighbors == 3,
        Behavior::initial().sample_budget == 100,
        Appearance::initial().pan.x == zero() && Appearance::initial().pan.y == zero(),
        near(Detection::initial().outline, 3, 10, 1),
        near(Evolution::initial().mutation, 3, 25, 1),
        near(Evolution::initial().cull_free_fraction, 1, 50, 1),
        near(Evolution::initial().influence, 1, 1, 1),
        near(Trails::initial().deposit, 1, 5, 1),
        near(Trails::initial().diffusion, 50, 1, 1),
        near(Trails::initial().half_life, 1, 2, 1),
        near(Trails::initial().response, 90, 1, 1),
        near(Trails::initial().sensor_distance, 32, 1, 1),
        near(Trails::initial().visibility, 2, 5, 1),
        near(Behavior::initial().density_target, 430, 1, 1),
        near(Behavior::initial().density_strength, 3, 10, 1),
        near(Behavior::initial().cycle_seconds, 1, 1, 1),
        near(Behavior::initial().cycle_fraction, 7, 20, 1),
        near(Behavior::initial().nova_threshold, 4, 1, 1),
        near(Behavior::initial().nova_radius, 7, 20, 1),
        near(Behavior::initial().nova_impulse, 1800, 1, 1),
        near(Behavior::initial().nova_duration, 3, 10, 1),
        near(Appearance::initial().size, 1, 2, 1),
        near(Appearance::initial().glow, 1, 4, 1),
        near(Appearance::initial().zoom, 1, 1, 1),
        near(Appearance::initial().aspect, 16, 9, 1),
{
    crate::rounding::lemma_p2_values();
    vstd::arithmetic::power2::lemma2_to64();
    lemma_near_digits(Detection::initial().outline, 124, 0x99999a, 3, 10);
    lemma_near_digits(Evolution::initial().mutation, 122, 0xf5c28f, 3, 25);
    lemma_near_digits(Evolution::initial().cull_free_fraction, 120, 0xa3d70a, 1, 50);
    lemma_near_digits(Evolution::initial().influence, 126, 0x800000, 1, 1);
    lemma_near_digits(Trails::initial().deposit, 123, 0xcccccd, 1, 5);
    lemma_near_digits(Trails::initial().diffusion, 131, 0xc80000, 50, 1);
    lemma_near_digits(Trails::initial().half_life, 125, 0x800000, 1, 2);
    lemma_near_digits(Trails::initial().response, 132, 0xb40000, 90, 1);
    lemma_near_digits(Trails::initial().sensor_distance, 131, 0x800000, 32, 1);
    lemma_near_digits(Trails::initial().visibility, 124, 0xcccccd, 2, 5);
    lemma_near_digits(Behavior::initial().density_target, 134, 0xd70000, 430, 1);
    lemma_near_digits(Behavior::initial().density_strength, 124, 0x99999a, 3, 10);
    lemma_near_digits(Behavior::initial().cycle_seconds, 126, 0x800000, 1, 1);
    lemma_near_digits(Behavior::initial().cycle_fraction, 124, 0xb33333, 7, 20);
    lemma_near_digits(Behavior::initial().nova_threshold, 128, 0x800000, 4, 1);
    lemma_near_digits(Behavior::initial().nova_radius, 124, 0xb33333, 7, 20);
    lemma_near_digits(Behavior::initial().nova_impulse, 136, 0xe10000, 1800, 1);
    lemma_near_digits(Behavior::initial().nova_duration, 124, 0x99999a, 3, 10);
    lemma_near_digits(Appearance::initial().size, 125, 0x800000, 1, 2);
    lemma_near_digits(Appearance::initial().glow, 124, 0x800000, 1, 4);
    lemma_near_digits(Appearance::initial().zoom, 126, 0x800000, 1, 1);
    lemma_near_digits(Appearance::initial().aspect, 126, 0xe38e39, 16, 9);
}

} // verus!
