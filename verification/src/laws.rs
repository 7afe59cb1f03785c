//! Laws of the rule matrices and of the camera.
use vstd::prelude::*;

use crate::interaction::{cursor_world, ParticleDump};
use crate::model::{random_distance, random_rule, rule_digits, world, Appearance, RuleKind, Simulation};
use crate::scalar::{half, one, scalar, two, zero, Scalar};
use crate::vector::Vec2;

verus! {

/// A value lies within the bounds of its kind.
pub open spec fn within(kind: RuleKind, value: Scalar) -> bool {
    kind.bounds().0.le(value) && value.le(kind.bounds().1)
}

/// Seeded rules lie between -1 and 1.
pub proof fn lemma_random_rule_bounded(seed: u32, i: u64)
    ensures
        (scalar(0xbf80_0000)).le(random_rule(seed, i)),  // -1.0
        random_rule(seed, i).le(one()),
{
    let unit = crate::scalar::one_units();
    let digits = rule_digits(seed, i);
    let word = crate::model::hash(((i % 0x1_0000_0000) as u32).wrapping_add(seed));
    assert(word & 0xff_ffff <= 0xff_ffff) by (bit_vector);
    let count = Scalar::from_u32(digits);
    let most = scalar(0x4aff_ffff);  // 8388607.5
    crate::rounding::lemma_p2_pos(149);
    crate::rounding::lemma_p2_step(148);
    let place = crate::rounding::p2(148);
    crate::rounding::lemma_grid_code(148, 0xff_ffff);
    crate::order::lemma_small_count(digits);
    crate::order::lemma_power_of_two(0);
    crate::order::lemma_power_of_two(1);
    crate::rounding::lemma_p2_values();
    assert(most.units() == 0xff_ffff * place);
    assert(two().units() == 2 * unit && one().units() == unit);
    let (d, m) = (count.units(), most.units());
    assert(0 <= d * unit <= (2 * unit) * m) by (nonlinear_arith)
        requires
            d == digits * unit,
            digits <= 0xff_ffff,
            m == 0xff_ffff * place,
            unit == 2 * place,
            place > 0,
    ;
    crate::order::lemma_quotient_bounds(count, most, two());
    assert(0 * m == 0) by (nonlinear_arith);
    crate::order::lemma_quotient_bounds(count, most, zero());
    let part = count.div(most);
    crate::order::lemma_order_of_values(part, two());
    crate::order::lemma_order_of_values(zero(), part);
    let minus = one().neg();
    assert(minus == scalar(0xbf80_0000));  // -1.0
    crate::order::lemma_sum_bounds(part, minus, one());
    crate::order::lemma_sum_bounds(part, minus, minus);
}

/// Seeded distances lie between 0.25 and 0.8.
pub proof fn lemma_random_distance_bounded(value: Scalar)
    requires
        (scalar(0xbf80_0000)).le(value),  // -1.0
        value.le(one()),
    ensures
        (scalar(0x3e80_0000)).le(random_distance(value)),  // 0.25
        random_distance(value).le(scalar(0x3f4c_cccd)),  // 0.8
        within(RuleKind::Distance, random_distance(value)),
{
    let unit = crate::scalar::one_units();
    let (factor, most) = (scalar(0x3e8c_cccd), scalar(0x3f0c_cccd));  // 0.275, 0.55
    let (base, top) = (scalar(0x3e80_0000), scalar(0x3f4c_cccd));  // 0.25, 0.8
    crate::rounding::lemma_p2_pos(149);
    crate::order::lemma_power_of_two(0);
    crate::order::lemma_power_of_two(1);
    crate::rounding::lemma_p2_values();
    crate::order::lemma_order_of_values(scalar(0xbf80_0000), value);  // -1.0
    crate::order::lemma_order_of_values(value, one());
    let shifted = value.add(one());
    crate::order::lemma_sum_bounds(value, one(), zero());
    crate::order::lemma_sum_bounds(value, one(), two());
    crate::order::lemma_order_of_values(zero(), shifted);
    crate::order::lemma_order_of_values(shifted, two());
    // The factor is 0x8ccccd places of 2^-25, and twice it one place further up.
    crate::rounding::lemma_p2_step(124);
    crate::rounding::lemma_p2_step(123);
    let place = crate::rounding::p2(124);
    crate::rounding::lemma_p2_pos(124);
    crate::rounding::lemma_p2_pos(123);
    crate::rounding::lemma_grid_code(124, 0x8c_cccd);
    crate::rounding::lemma_grid_code(125, 0x8c_cccd);
    crate::rounding::lemma_grid_code(124, 0x80_0000);
    crate::rounding::lemma_grid_code(125, 0xcc_cccd);
    assert(factor.units() == 0x8c_cccd * place);
    assert(most.units() == 0x8c_cccd * (2 * place));
    assert(base.units() == 0x80_0000 * place);
    assert(top.units() == 0xcc_cccd * (2 * place));
    let (v, f) = (shifted.units(), factor.units());
    assert(0 <= v * f <= (2 * f) * unit) by (nonlinear_arith)
        requires
            0 <= v <= 2 * unit,
            f >= 0,
    ;
    let part = shifted.mul(factor);
    crate::order::lemma_product_bounds(shifted, factor, most);
    assert(0 * unit == 0) by (nonlinear_arith);
    crate::order::lemma_product_bounds(shifted, factor, zero());
    crate::order::lemma_order_of_values(part, most);
    crate::order::lemma_order_of_values(zero(), part);
    crate::order::lemma_sum_bounds(base, part, base);
    crate::order::lemma_sum_bounds(base, part, top);
}

impl Simulation {
    /// Every rule lies within the bounds of its kind.
    pub open spec fn bounded(self) -> bool {
        forall|kind: RuleKind, i: int|
            0 <= i < self.entries(kind).len() ==> within(kind, #[trigger] self.entries(kind)[i])
    }
}

/// Setting a rule to a number keeps every rule within its bounds.
pub proof fn lemma_set_rule_keeps_bounds(
    before: Simulation,
    after: Simulation,
    kind: RuleKind,
    index: int,
    value: Scalar,
)
    requires
        before.bounded(),
        !value.nan(),
        0 <= index < before.entries(kind).len(),
        after.replaces(
            before,
            kind,
            before.entries(kind).update(index, value.clamp(kind.bounds().0, kind.bounds().1)),
        ),
    ensures
        after.bounded(),
{
    crate::order::lemma_clamp_between(value, kind.bounds().0, kind.bounds().1);
    assert forall|other: RuleKind, i: int| 0 <= i < after.entries(other).len() implies within(
        other,
        #[trigger] after.entries(other)[i],
    ) by {
        if other != kind {
            assert(after.entries(other) == before.entries(other));
        }
        assert(other == kind && i == index || within(other, before.entries(other)[i]));
    }
}

/// Randomizing a matrix keeps every rule within its bounds.
pub proof fn lemma_randomizing_keeps_bounds(before: Simulation, after: Simulation, kind: RuleKind)
    requires
        before.bounded(),
        after.replaces(before, kind, before.random_entries(kind)),
    ensures
        after.bounded(),
{
    let seed = before.seed ^ kind.salt();
    assert forall|other: RuleKind, i: int| 0 <= i < after.entries(other).len() implies within(
        other,
        #[trigger] after.entries(other)[i],
    ) by {
        if other != kind {
            assert(after.entries(other) == before.entries(other));
            assert(within(other, before.entries(other)[i]));
        } else {
            lemma_random_rule_bounded(seed, i as u64);
            if kind == RuleKind::Distance {
                lemma_random_distance_bounded(random_rule(seed, i as u64));
            }
        }
    }
}

/// Zeroing a matrix keeps every rule within its bounds.
pub proof fn lemma_clearing_keeps_bounds(before: Simulation, after: Simulation, kind: RuleKind, count: int)
    requires
        before.bounded(),
        count >= 0,
        after.replaces(before, kind, crate::model::uniform(count, zero())),
    ensures
        after.bounded(),
{
    assert forall|other: RuleKind, i: int| 0 <= i < after.entries(other).len() implies within(
        other,
        #[trigger] after.entries(other)[i],
    ) by {
        if other != kind {
            assert(after.entries(other) == before.entries(other));
            assert(within(other, before.entries(other)[i]));
        }
    }
}

/// A world with fresh rules has every rule within its bounds.
pub proof fn lemma_fresh_rules_bounded(s: Simulation, seed: u32)
    requires
        s.rules@ == crate::model::random_matrix(s.types, seed),
        s.swirl@ == crate::model::uniform(s.types * s.types, zero()),
        s.alignment@ == crate::model::uniform(s.types * s.types, zero()),
        s.distance@ == crate::model::uniform(s.types * s.types, half()),
    ensures
        s.wf(),
        s.bounded(),
{
    assert(0 <= s.types * s.types) by (nonlinear_arith);
    assert forall|kind: RuleKind, i: int| 0 <= i < s.entries(kind).len() implies within(
        kind,
        #[trigger] s.entries(kind)[i],
    ) by {
        lemma_random_rule_bounded(seed, i as u64);
    }
}

/// Every matrix of a world within its bounds can be drawn.
pub proof fn lemma_bounded_rules_drawable(s: Simulation, kind: RuleKind)
    requires
        s.bounded(),
    ensures
        s.drawable(kind),
{
    assert forall|i: int| 0 <= i < s.entries(kind).len() implies crate::panel::shade(
        #[trigger] s.entries(kind)[i],
    ) <= 190 by {
        assert(within(kind, s.entries(kind)[i]));
        crate::panel::lemma_bounded_rules_have_colors(s.entries(kind)[i]);
    }
}

/// Randomizing a matrix twice gives the same rules: they follow from the seed.
pub proof fn lemma_randomizing_repeats(first: Simulation, second: Simulation, third: Simulation, kind: RuleKind)
    requires
        second.replaces(first, kind, first.random_entries(kind)),
        third.replaces(second, kind, second.random_entries(kind)),
    ensures
        third.entries(kind) == second.entries(kind),
{
}

/// A zoom between 0.25 and 20 stays there.
pub proof fn lemma_zoom_stays_limited(a: Appearance, cursor: Vec2, viewport: Vec2, scroll: Scalar, growth: Scalar)
    requires
        (scalar(0x3e80_0000)).le(a.zoom),  // 0.25
        a.zoom.le(scalar(0x41a0_0000)),  // 20.0
        !growth.nan(),
    ensures
        (scalar(0x3e80_0000)).le(a.zoomed(cursor, viewport, scroll, growth).zoom),  // 0.25
        a.zoomed(cursor, viewport, scroll, growth).zoom.le(scalar(0x41a0_0000)),  // 20.0
{
    if growth.finite() {
        crate::order::lemma_product_bounds(a.zoom, growth, zero());
    }
    crate::order::lemma_clamp_between(a.zoom.mul(growth), scalar(0x3e80_0000), scalar(0x41a0_0000));  // 0.25, 20.0
}

/// At a limit of the zoom, with an empty viewport, or without a cursor, nothing moves.
pub proof fn lemma_zoom_at_limit_moves_nothing(a: Appearance, cursor: Vec2, viewport: Vec2, scroll: Scalar, growth: Scalar)
    requires
        a.grown_zoom(growth).same(a.zoom) || !viewport.finite() || viewport.x.le(zero()) || viewport.y.le(zero())
            || !cursor.finite() || !scroll.finite(),
    ensures
        a.zoomed(cursor, viewport, scroll, growth) == a,
{
}

/// Numbers of at least one are whole multiples of 2^-23.
pub(crate) proof fn lemma_coarse(x: Scalar) -> (k: int)
    requires
        x.finite(),
        x.magnitude() >= one().magnitude(),
    ensures
        k >= 0,
        x.size() == k * crate::rounding::p2(126),
{
    let (m, e) = (x.magnitude() % 0x80_0000 + 0x80_0000, x.magnitude() / 0x80_0000 - 1);
    crate::rounding::lemma_p2_adds(e - 126, 126);
    crate::rounding::lemma_p2_pos(e - 126);
    let (up, place) = (crate::rounding::p2(e - 126), crate::rounding::p2(126));
    assert(m * (up * place) == (m * up) * place) by (nonlinear_arith);
    assert(m * up >= 0) by (nonlinear_arith)
        requires
            m >= 0,
            up > 0,
    ;
    m * up
}

/// One more than a finite number is finite.
pub(crate) proof fn lemma_next_finite(x: Scalar)
    requires
        x.finite(),
    ensures
        x.add(one()).finite(),
{
    let unit = crate::scalar::one_units();
    let last = crate::rounding::INFINITE - 1;
    let top = crate::rounding::grid(last);
    crate::rounding::lemma_p2_values();
    crate::order::lemma_power_of_two(0);
    crate::rounding::lemma_p2_pos(149);
    crate::scalar::lemma_self_rounding(x);
    crate::rounding::lemma_grid_monotone(x.magnitude(), last);
    let sum = x.units() + one().units();
    if sum < 0 {
        assert(top * 1 == top);
        crate::order::lemma_nearest_bounds(-sum, 1, last);
    } else if sum > 0 {
        let place = crate::rounding::p2(253);
        crate::rounding::lemma_grid_code(253, 0xff_ffff);
        crate::rounding::lemma_grid_code(253, 0xff_fffe);
        crate::rounding::lemma_grid_code(253, 0x100_0000);
        crate::rounding::lemma_p2_step(252);
        crate::rounding::lemma_p2_step(251);
        crate::rounding::lemma_p2_monotone(149, 251);
        assert(top == 0xff_ffff * place);
        assert(crate::rounding::grid(last - 1) == 0xff_fffe * place);
        assert(crate::rounding::grid(last + 1) == 0x100_0000 * place);
        assert(place == 4 * crate::rounding::p2(251) && 0 < unit <= crate::rounding::p2(251));
        let (down, up) = (crate::rounding::grid(last - 1) + top, top + crate::rounding::grid(last + 1));
        assert(down * 1 == down && up * 1 == up);
        assert(down < 2 * (top + unit) && 2 * (top + unit) < up);
        assert(crate::rounding::rounds_to(top + unit, 1, last));
        crate::order::lemma_nearest_bounds(sum, 1, 0);
        crate::rounding::lemma_rounding_monotone(
            sum,
            1,
            crate::rounding::nearest(sum, 1),
            top + unit,
            1,
            last,
        );
    }
}

/// One more than a number, if that is below zero, is a whole multiple of 2^-23.
pub(crate) proof fn lemma_shifted_coarse(x: Scalar) -> (k: int)
    requires
        x.finite(),
        x.add(one()).units() < 0,
    ensures
        k > 0,
        x.add(one()).size() == k * crate::rounding::p2(126),
{
    let unit = crate::scalar::one_units();
    let y = x.add(one());
    let place = crate::rounding::p2(126);
    crate::rounding::lemma_p2_pos(126);
    crate::rounding::lemma_p2_values();
    crate::rounding::lemma_p2_adds(23, 126);
    crate::order::lemma_power_of_two(0);
    lemma_next_finite(x);
    crate::scalar::lemma_self_rounding(y);
    let n = -(x.units() + one().units());
    if n <= 0 {
        crate::order::lemma_sum_bounds(x, one(), zero());
        crate::order::lemma_order_of_values(zero(), y);
    }
    if y.magnitude() >= one().magnitude() {
        let k = lemma_coarse(y);
        assert(k > 0) by (nonlinear_arith)
            requires
                k * place > 0,
                place > 0,
        ;
        k
    } else {
        crate::order::lemma_nearest_bounds(n, 1, one().magnitude());
        assert(n < unit);
        crate::scalar::lemma_self_rounding(x);
        crate::order::lemma_order_of_values(x, one().neg());
        let all = lemma_coarse(x);
        let k = all - 0x80_0000;
        assert(n == k * place) by (nonlinear_arith)
            requires
                n == all * place - unit,
                unit == 0x80_0000 * place,
                k == all - 0x80_0000,
        ;
        assert(0 < k < 0x80_0000) by (nonlinear_arith)
            requires
                0 < k * place < 0x80_0000 * place,
                place > 0,
        ;
        let code = crate::order::lemma_on_grid(k, 126);
        crate::rounding::lemma_grid_exact(code, 1);
        assert(n * 1 == n);
        k
    }
}

/// The remainder of a division by the camera's period is exact.
pub(crate) proof fn lemma_period_remainder(y: Scalar)
    requires
        y.finite(),
    ensures
        ({
            let period = 2 * crate::scalar::one_units();
            &&& two().units() == period
            &&& one().units() == crate::scalar::one_units()
            &&& y.rem(two()).finite()
            &&& y.rem(two()).negative() == y.negative()
            &&& y.rem(two()).size() == y.size() % period
            &&& 0 <= y.size() % period < period
            &&& y.size() == 0 ==> y.size() % period == 0
            &&& y.size() >= 0
        }),
{
    let unit = crate::scalar::one_units();
    let period = 2 * unit;
    crate::rounding::lemma_p2_values();
    crate::rounding::lemma_p2_pos(149);
    crate::rounding::lemma_p2_step(149);
    crate::order::lemma_power_of_two(0);
    crate::order::lemma_power_of_two(1);
    crate::scalar::lemma_self_rounding(y);
    let code = crate::order::lemma_remainder_on_grid(y, 150);
    crate::rounding::lemma_grid_exact(code, 1);
    let rest = y.size() % period;
    vstd::arithmetic::div_mod::lemma_mod_bound(y.size(), period);
    vstd::arithmetic::div_mod::lemma_small_mod(0, period as nat);
    assert(rest * 1 == rest);
    if rest == 0 {
        crate::rounding::lemma_grid_monotone(0, code);
    }
}

/// The largest numbers below two and below one.
proof fn lemma_just_below()
    ensures
        scalar(0x3fff_ffff).units() == 2 * crate::scalar::one_units() - crate::rounding::p2(126),
        scalar(0x3f7f_fffe).units() == crate::scalar::one_units() - crate::rounding::p2(126),
{
    crate::rounding::lemma_p2_values();
    crate::rounding::lemma_p2_adds(23, 126);
    crate::rounding::lemma_p2_step(125);
    crate::rounding::lemma_grid_code(126, 0xff_ffff);
    crate::rounding::lemma_grid_code(125, 0xff_fffe);
}

/// A remainder below zero is at least 2^-23 away from the period.
proof fn lemma_negative_remainder(x: Scalar)
    requires
        x.finite(),
        x.add(one()).rem(two()).units() < 0,
    ensures
        x.add(one()).rem(two()).units() <= -crate::rounding::p2(126),
{
    let unit = crate::scalar::one_units();
    let place = crate::rounding::p2(126);
    let y = x.add(one());
    lemma_next_finite(x);
    lemma_period_remainder(y);
    let k = lemma_shifted_coarse(x);
    crate::rounding::lemma_p2_pos(126);
    crate::rounding::lemma_p2_values();
    crate::rounding::lemma_p2_adds(24, 126);
    crate::rounding::lemma_p2_step(149);
    vstd::arithmetic::div_mod::lemma_truncate_middle(k, place, 0x100_0000);
    let j = k % 0x100_0000;
    assert(place * k == k * place && place * j == j * place && place * 0x100_0000 == 0x100_0000 * place) by (nonlinear_arith);
    assert(2 * unit == 0x100_0000 * place);
    assert(y.size() % (2 * unit) == j * place);
    assert(j * place >= place) by (nonlinear_arith)
        requires
            j * place > 0,
            j >= 0,
            place > 0,
    ;
}

/// A camera coordinate wraps into the range from -1 up to, but not including, 1.
pub proof fn lemma_coordinate_wraps(x: Scalar)
    requires
        x.finite(),
    ensures
        ({
            let wrapped = x.add(one()).rem_euclid(two()).sub(one());
            (scalar(0xbf80_0000)).le(wrapped) && wrapped.lt(one())  // -1.0
        }),
{
    let y = x.add(one());
    let w = y.rem(two());
    let r = y.rem_euclid(two());
    let below_two = scalar(0x3fff_ffff);
    let below_one = scalar(0x3f7f_fffe);
    lemma_next_finite(x);
    lemma_period_remainder(y);
    lemma_just_below();
    crate::order::lemma_order_of_values(w, zero());
    if w.units() < 0 {
        lemma_negative_remainder(x);
        crate::order::lemma_sum_bounds(w, two(), below_two);
        crate::order::lemma_sum_bounds(w, two(), zero());
    } else {
        crate::order::lemma_order_of_values(w, two());
    }
    crate::order::lemma_order_of_values(zero(), r);
    crate::order::lemma_order_of_values(r, below_two);
    let minus = one().neg();
    assert(minus == scalar(0xbf80_0000));  // -1.0
    crate::order::lemma_sum_bounds(r, minus, below_one);
    crate::order::lemma_sum_bounds(r, minus, minus);
}

/// The camera always ends up in the tile around the origin.
pub proof fn lemma_camera_wraps(a: Appearance)
    requires
        a.pan.finite(),
    ensures
        (scalar(0xbf80_0000)).le(a.wrapped().pan.x),  // -1.0
        a.wrapped().pan.x.lt(one()),
        (scalar(0xbf80_0000)).le(a.wrapped().pan.y),  // -1.0
        a.wrapped().pan.y.lt(one()),
{
    lemma_coordinate_wraps(a.pan.x);
    lemma_coordinate_wraps(a.pan.y);
}

/// A whole number of steps of 2^-23 wraps to a whole number of them, exactly.
pub(crate) proof fn lemma_steps_wrap(y: Scalar, steps: int) -> (r: int)
    requires
        y.finite(),
        y.units() == steps * crate::rounding::p2(126),
    ensures
        0 <= r <= 0x100_0000,
        y.rem_euclid(two()).finite(),
        y.rem_euclid(two()).units() == r * crate::rounding::p2(126),
        (steps - r) % 0x100_0000 == 0,
{
    let unit = crate::scalar::one_units();
    let place = crate::rounding::p2(126);
    let w = y.rem(two());
    lemma_period_remainder(y);
    crate::rounding::lemma_p2_pos(126);
    crate::rounding::lemma_p2_values();
    crate::rounding::lemma_p2_adds(24, 126);
    crate::rounding::lemma_p2_step(149);
    let k = if y.negative() { -steps } else { steps };
    assert((-steps) * place == -(steps * place)) by (nonlinear_arith);
    assert(y.size() == k * place);
    assert(k >= 0) by (nonlinear_arith)
        requires
            k * place >= 0,
            place > 0,
    ;
    vstd::arithmetic::div_mod::lemma_truncate_middle(k, place, 0x100_0000);
    let j = k % 0x100_0000;
    assert(place * k == k * place && place * j == j * place && place * 0x100_0000 == 0x100_0000 * place) by (nonlinear_arith);
    assert(w.size() == j * place);
    assert((j == 0 ==> j * place == 0) && (j > 0 ==> j * place > 0)) by (nonlinear_arith)
        requires
            place > 0,
    ;
    crate::order::lemma_order_of_values(w, zero());
    if w.units() < 0 {
        let r = 0x100_0000 - j;
        assert(r * place == 0x100_0000 * place - j * place) by (nonlinear_arith)
            requires
                r == 0x100_0000 - j,
        ;
        crate::order::lemma_sum_exact(w, two(), r, 126);
        r
    } else {
        j
    }
}

/// Wrapping moves a camera coordinate by whole periods, if it is a whole number
/// of steps of 2^-23 and one more than it is represented exactly.
pub proof fn lemma_exact_phase(x: Scalar)
    requires
        x.finite(),
        x.units() % crate::rounding::p2(126) == 0,
        x.add(one()).units() == x.units() + crate::scalar::one_units(),
    ensures
        ({
            let wrapped = x.add(one()).rem_euclid(two()).sub(one());
            (x.units() - wrapped.units()) % (2 * crate::scalar::one_units()) == 0
        }),
{
    let unit = crate::scalar::one_units();
    let period = 2 * unit;
    let place = crate::rounding::p2(126);
    let y = x.add(one());
    lemma_next_finite(x);
    lemma_period_remainder(y);
    crate::rounding::lemma_p2_pos(126);
    crate::rounding::lemma_p2_values();
    crate::rounding::lemma_p2_adds(23, 126);
    let steps = x.units() / place + 0x80_0000;
    vstd::arithmetic::div_mod::lemma_fundamental_div_mod(x.units(), place);
    assert(y.units() == steps * place) by (nonlinear_arith)
        requires
            y.units() == place * (x.units() / place) + 0x80_0000 * place,
            steps == x.units() / place + 0x80_0000,
    ;
    let r = lemma_steps_wrap(y, steps);
    let rest = y.rem_euclid(two());
    let n = r - 0x80_0000;
    assert(n * place == r * place - 0x80_0000 * place && (-n) * place == -(n * place)) by (nonlinear_arith)
        requires
            n == r - 0x80_0000,
    ;
    crate::order::lemma_sum_exact(rest, one().neg(), if n < 0 { -n } else { n }, 126);
    let moved = (steps - r) / 0x100_0000;
    assert(steps - r == moved * 0x100_0000);
    assert(x.units() - rest.sub(one()).units() == moved * period) by (nonlinear_arith)
        requires
            x.units() == steps * place - 0x80_0000 * place,
            rest.sub(one()).units() == r * place - 0x80_0000 * place,
            steps - r == moved * 0x100_0000,
            period == 0x100_0000 * place,
    ;
    vstd::arithmetic::div_mod::lemma_mod_multiples_basic(moved, period);
}

/// A position wraps into the world. It reaches the far edge itself only from
/// less than half a step of the positions near it below a multiple of the side.
pub proof fn lemma_position_wraps(x: Scalar)
    requires
        x.finite(),
    ensures
        zero().le(x.rem_euclid(world())),
        x.rem_euclid(world()).le(world()),
        zero().le(x.rem(world())) || x.rem(world()).lt(scalar(0xb880_0000)) ==> x.rem_euclid(world()).lt(world()),  // -0.00006103515625
{
    let side = world();
    let least = scalar(0xb880_0000);  // -0.00006103515625
    let w = x.rem(side);
    let r = x.rem_euclid(side);
    crate::order::lemma_order_of_values(zero(), side);
    crate::order::lemma_rem_euclid_bounds(x, side);
    crate::order::lemma_power_of_two(11);
    crate::rounding::lemma_p2_values();
    crate::rounding::lemma_p2_adds(11, 149);
    let code = crate::order::lemma_remainder_on_grid(x, 160);
    crate::rounding::lemma_grid_exact(code, 1);
    crate::rounding::lemma_p2_pos(160);
    crate::scalar::lemma_self_rounding(x);
    let rest = x.size() % side.size();
    vstd::arithmetic::div_mod::lemma_mod_bound(x.size(), side.size());
    assert(w.size() == rest && w.finite()) by {
        assert(rest * 1 == rest);
        if rest == 0 {
            crate::rounding::lemma_grid_monotone(0, code);
        }
    }
    crate::order::lemma_order_of_values(w, side);
    crate::order::lemma_order_of_values(w, zero());
    if w.lt(least) {
        crate::order::lemma_order_of_values(w, least);
        crate::order::lemma_order_of_values(least, zero());
        lemma_below_far_edge(w.units() + side.units());
        crate::order::lemma_nearest_bounds(w.units() + side.units(), 1, 0);
        assert(r == w.add(side));
    } else if zero().le(w) {
        assert(r == w);
    }
}

/// What is more than 2^-14 short of the side of the world is not rounded up to it.
proof fn lemma_below_far_edge(sum: int)
    requires
        0 <= sum < world().units() + scalar(0xb880_0000).units(),  // -0.00006103515625
    ensures
        crate::rounding::nearest(sum, 1) < world().magnitude(),
{
    let code = crate::rounding::nearest(sum, 1);
    let far = world().magnitude();
    crate::rounding::lemma_nearest_exists(sum, 1);
    crate::rounding::lemma_p2_values();
    crate::rounding::lemma_grid_code(136, 0xff_ffff);
    crate::rounding::lemma_grid_code(136, 0x100_0000);
    crate::rounding::lemma_grid_code(112, 0x80_0000);
    crate::rounding::lemma_p2_adds(23, 112);
    crate::rounding::lemma_p2_step(135);
    let place = crate::rounding::p2(136);
    assert(crate::rounding::grid(far) == 0x100_0000 * place);
    assert(crate::rounding::grid(far - 1) == 0xff_ffff * place);
    if code >= far {
        crate::rounding::lemma_grid_monotone(far, code);
        crate::rounding::lemma_grid_monotone(far - 1, code - 1);
    }
}

/// New particles start inside the world.
pub proof fn lemma_dumped_particles_inside(dump: ParticleDump, key: u32, direction: Vec2)
    requires
        dump.center.add(direction.scale(dump.distance(key))).finite(),
    ensures
        ({
            let position = dump.position(key, direction);
            &&& zero().le(position.x) && position.x.le(world())
            &&& zero().le(position.y) && position.y.le(world())
        }),
{
    let place = dump.center.add(direction.scale(dump.distance(key)));
    lemma_position_wraps(place.x);
    lemma_position_wraps(place.y);
}

/// The cursor points into the world, as far as the camera's numbers are finite.
pub proof fn lemma_cursor_inside(view: Appearance, cursor: Vec2, viewport: Vec2)
    requires
        ({
            let one = Vec2::splat(one());
            let normalized = cursor.div(viewport.max(one)).scale(two()).sub(one);
            let camera = normalized.mul((Vec2 { x: view.aspect, y: scalar(0xbf80_0000) })).shrink(view.zoom).add(view.pan);  // -1.0
            camera.add(one).scale(world().mul(half())).finite()
        }),
    ensures
        ({
            let point = cursor_world(&view, cursor, viewport);
            &&& zero().le(point.x) && point.x.le(world())
            &&& zero().le(point.y) && point.y.le(world())
        }),
{
    let one = Vec2::splat(one());
    let normalized = cursor.div(viewport.max(one)).scale(two()).sub(one);
    let camera = normalized.mul(Vec2 { x: view.aspect, y: scalar(0xbf80_0000) }).shrink(view.zoom).add(view.pan);  // -1.0
    let place = camera.add(one).scale(world().mul(half()));
    lemma_position_wraps(place.x);
    lemma_position_wraps(place.y);
}

/// The tile of a camera coordinate.
spec fn tile(p: Scalar) -> i32 {
    p.add(one()).mul(half()).floor().to_i32()
}

/// -67108864.0 is a whole number.
proof fn lemma_far_tile()
    ensures
        scalar(0xcc80_0000).floor() == scalar(0xcc80_0000),  // -67108864.0, -67108864.0
        scalar(0xcc80_0000).to_i32() == -67108864,  // -67108864.0
        scalar(0xcc80_0000).units() == -(67108864 * crate::scalar::one_units()),  // -67108864.0
{
    let far = scalar(0xcc80_0000);  // -67108864.0
    let unit = crate::scalar::one_units();
    crate::rounding::lemma_p2_pos(149);
    vstd::arithmetic::power2::lemma2_to64();
    crate::order::lemma_power_of_two(26);
    assert(far.size() == 67108864 * unit);
    crate::scalar::lemma_self_rounding(far);
    vstd::arithmetic::div_mod::lemma_fundamental_div_mod_converse(far.size() + unit - 1, unit, 67108864, unit - 1);
    vstd::arithmetic::div_mod::lemma_fundamental_div_mod_converse(far.size(), unit, 67108864, 0);
}

proof fn lemma_tile_order(p: Scalar, q: Scalar)
    requires
        p.le(q),
        (scalar(0xcc00_0000)).le(p),  // -33554432.0
        q.le(scalar(0x4c00_0000)),  // 33554432.0
    ensures
        -67108864 <= tile(p) <= tile(q),
{
    let unit = crate::scalar::one_units();
    let (low, high) = (scalar(0xcc00_0000), scalar(0x4c00_0000));  // -33554432.0, 33554432.0
    let (far, near) = (scalar(0xcc80_0000), scalar(0x4c80_0000));  // -67108864.0, 67108864.0
    crate::rounding::lemma_p2_pos(149);
    vstd::arithmetic::power2::lemma2_to64();
    crate::order::lemma_power_of_two(0);
    crate::order::lemma_power_of_two(25);
    crate::order::lemma_power_of_two(26);
    crate::rounding::lemma_p2_values();
    assert(one().units() == unit);
    assert(low.units() == -(33554432 * unit) && high.units() == 33554432 * unit);
    assert(near.units() == 67108864 * unit);
    crate::order::lemma_order_of_values(low, p);
    crate::order::lemma_order_of_values(p, q);
    crate::order::lemma_order_of_values(q, high);
    lemma_far_tile();
    let (a, b) = (p.add(one()), q.add(one()));
    crate::order::lemma_sum_monotone(p, q, one());
    crate::order::lemma_sum_bounds(p, one(), far);
    crate::order::lemma_sum_bounds(q, one(), near);
    crate::order::lemma_order_of_values(far, a);
    crate::order::lemma_order_of_values(b, near);
    crate::order::lemma_order_of_values(a, b);
    crate::order::lemma_order_of_values(zero(), half());
    crate::order::lemma_order_of_values(half(), one());
    let (c, d) = (a.mul(half()), b.mul(half()));
    crate::order::lemma_product_monotone(a, b, half());
    let (u, v, h) = (a.units(), b.units(), half().units());
    let w = 67108864 * unit;
    assert(u * h >= (-w) * unit && v * h <= w * unit) by (nonlinear_arith)
        requires
            u >= -w,
            v <= w,
            w >= 0,
            0 <= h <= unit,
    ;
    crate::order::lemma_product_bounds(a, half(), far);
    crate::order::lemma_product_bounds(b, half(), near);
    crate::order::lemma_order_of_values(far, c);
    crate::order::lemma_order_of_values(d, near);
    crate::order::lemma_order_of_values(c, d);
    crate::order::lemma_floor_monotone(c, d);
    crate::order::lemma_floor_monotone(far, c);
    crate::order::lemma_signed_truncation_monotone(c.floor(), d.floor());
    crate::order::lemma_signed_truncation_monotone(far, c.floor());
}

proof fn lemma_tile_span(pan: Scalar, extent: Scalar)
    requires
        (scalar(0xcb80_0000)).le(pan),  // -16777216.0
        pan.le(scalar(0x4b80_0000)),  // 16777216.0
        zero().le(extent),
        extent.le(scalar(0x4b80_0000)),  // 16777216.0
    ensures
        -67108864 <= tile(pan.sub(extent)) <= tile(pan.add(extent)),
{
    let unit = crate::scalar::one_units();
    let (low, high) = (scalar(0xcc00_0000), scalar(0x4c00_0000));  // -33554432.0, 33554432.0
    vstd::arithmetic::power2::lemma2_to64();
    crate::order::lemma_power_of_two(24);
    crate::order::lemma_power_of_two(25);
    assert(low.units() == -(33554432 * unit) && high.units() == 33554432 * unit);
    assert(scalar(0xcb80_0000).units() == -(16777216 * unit));  // -16777216.0
    assert(scalar(0x4b80_0000).units() == 16777216 * unit);  // 16777216.0
    crate::order::lemma_order_of_values(scalar(0xcb80_0000), pan);  // -16777216.0
    crate::order::lemma_order_of_values(pan, scalar(0x4b80_0000));  // 16777216.0
    crate::order::lemma_order_of_values(zero(), extent);
    crate::order::lemma_order_of_values(extent, scalar(0x4b80_0000));  // 16777216.0
    let minus = extent.neg();
    crate::order::lemma_order_of_values(minus, extent);
    crate::order::lemma_sum_monotone(minus, extent, pan);
    crate::order::lemma_add_commutes(minus, pan);
    crate::order::lemma_add_commutes(extent, pan);
    crate::order::lemma_sum_bounds(pan, minus, low);
    crate::order::lemma_sum_bounds(pan, extent, high);
    lemma_tile_order(pan.sub(extent), pan.add(extent));
}

proof fn lemma_span(first: i32, last: i32)
    requires
        -67108864 <= first <= last,
    ensures
        (last - first + 1) % 0x1_0000_0000 == last - first + 1,
{
}

/// The camera sees at least one tile, and the tiles are counted from the first
/// to the last one it sees.
#[verifier::rlimit(40)]
#[verifier::spinoff_prover]
pub proof fn lemma_tiles_counted(a: Appearance)
    requires
        (scalar(0xcb80_0000)).le(a.pan.x),  // -16777216.0
        a.pan.x.le(scalar(0x4b80_0000)),  // 16777216.0
        (scalar(0xcb80_0000)).le(a.pan.y),  // -16777216.0
        a.pan.y.le(scalar(0x4b80_0000)),  // 16777216.0
        zero().le(a.extent().x),
        a.extent().x.le(scalar(0x4b80_0000)),  // 16777216.0
        zero().le(a.extent().y),
        a.extent().y.le(scalar(0x4b80_0000)),  // 16777216.0
    ensures
        ({
            let (first, count) = a.tiles();
            let last = Appearance::tile_of(a.pan.add(a.extent()));
            &&& count.x >= 1 && first.x + count.x - 1 == last.x
            &&& count.y >= 1 && first.y + count.y - 1 == last.y
        }),
{
    let extent = a.extent();
    lemma_tile_span(a.pan.x, extent.x);
    lemma_tile_span(a.pan.y, extent.y);
    lemma_tile_axes(a.pan.sub(extent));
    lemma_tile_axes(a.pan.add(extent));
    lemma_span(tile(a.pan.x.sub(extent.x)), tile(a.pan.x.add(extent.x)));
    lemma_span(tile(a.pan.y.sub(extent.y)), tile(a.pan.y.add(extent.y)));
}

proof fn lemma_tile_axes(point: Vec2)
    ensures
        Appearance::tile_of(point).x == tile(point.x),
        Appearance::tile_of(point).y == tile(point.y),
{
}

/// Rounding down and truncating gives the whole part.
proof fn lemma_floor_value(h: Scalar)
    requires
        h.finite(),
        -(0x100_0000 * crate::scalar::one_units()) <= h.units() <= 0x100_0000 * crate::scalar::one_units(),
    ensures
        ({
            let unit = crate::scalar::one_units();
            let t = h.floor().to_i32();
            t * unit <= h.units() < (t + 1) * unit
        }),
{
    let unit = crate::scalar::one_units();
    crate::rounding::lemma_p2_pos(149);
    crate::scalar::lemma_self_rounding(h);
    let up = unit - 1;
    let size = if h.negative() { h.size() + up } else { h.size() };
    let k = size / unit;
    vstd::arithmetic::div_mod::lemma_fundamental_div_mod(size, unit);
    vstd::arithmetic::div_mod::lemma_mod_bound(size, unit);
    vstd::arithmetic::div_mod::lemma_div_pos_is_pos(size, unit);
    assert(k <= 0x100_0000) by (nonlinear_arith)
        requires
            unit * k <= 0x100_0000 * unit + unit - 1,
            unit > 0,
    ;
    assert(unit * k == k * unit && (k + 1) * unit == k * unit + unit && (-k) * unit == -(k * unit) && (-k + 1) * unit
        == -(k * unit) + unit) by (nonlinear_arith);
    crate::order::lemma_small_count(k as u32);
    let whole = Scalar::from_u32(k as u32);
    let floor = h.floor();
    assert(floor == Scalar::whole(h.negative(), k));
    if h.negative() {
        if k > 0 {
            assert(k * unit >= 0) by (nonlinear_arith)
                requires
                    k > 0,
                    unit > 0,
            ;
            crate::rounding::lemma_nearest_exists(k * unit, 1);
            assert(floor == whole.neg());
        }
        assert(floor.size() == k * unit);
        vstd::arithmetic::div_mod::lemma_div_multiples_vanish(k, unit);
        assert(floor.to_i32() == -k);
    } else {
        assert(floor == whole);
        vstd::arithmetic::div_mod::lemma_div_multiples_vanish(k, unit);
        assert(floor.to_i32() == k);
    }
}

/// Halving a number that is not tiny is exact.
pub(crate) proof fn lemma_halved_exactly(y: Scalar)
    requires
        y.finite(),
        y.magnitude() >= 0x100_0000,
    ensures
        y.mul(half()).finite(),
        2 * y.mul(half()).units() == y.units(),
{
    let unit = crate::scalar::one_units();
    let code = y.magnitude();
    crate::rounding::lemma_p2_values();
    crate::rounding::lemma_p2_pos(149);
    crate::rounding::lemma_p2_step(148);
    crate::rounding::lemma_p2_adds(23, 125);
    crate::rounding::lemma_grid_code(125, 0x80_0000);
    assert(2 * half().size() == unit);
    let (m, e) = (code % 0x80_0000 + 0x80_0000, code / 0x80_0000 - 1);
    crate::rounding::lemma_grid_code(e, m);
    crate::rounding::lemma_grid_code(e - 1, m);
    crate::rounding::lemma_p2_step(e - 1);
    let low = crate::rounding::grid(code - 0x80_0000);
    let place = crate::rounding::p2(e - 1);
    assert(m * (2 * place) == 2 * (m * place)) by (nonlinear_arith);
    assert(y.size() == 2 * low);
    let h = half().size();
    assert(y.size() * h == low * unit) by (nonlinear_arith)
        requires
            y.size() == 2 * low,
            unit == 2 * h,
    ;
    crate::rounding::lemma_grid_exact(code - 0x80_0000, unit);
}

/// The tile of a coordinate reaches from two below to two above it, counted from
/// the shifted coordinate as it is computed.
proof fn lemma_tile_edges(x: Scalar)
    requires
        (scalar(0xcb80_0000)).le(x),  // -16777216.0
        x.le(scalar(0x4b80_0000)),  // 16777216.0
    ensures
        x.add(one()).finite(),
        ({
            let unit = crate::scalar::one_units();
            let y = x.add(one()).units();
            2 * tile(x) * unit <= y < (2 * tile(x) + 2) * unit
        }),
{
    let unit = crate::scalar::one_units();
    let most = scalar(0x4b80_0000);  // 16777216.0
    let y = x.add(one());
    let h = y.mul(half());
    crate::rounding::lemma_p2_pos(149);
    vstd::arithmetic::power2::lemma2_to64();
    crate::rounding::lemma_p2_values();
    crate::order::lemma_power_of_two(0);
    crate::order::lemma_power_of_two(24);
    crate::order::lemma_power_of_two(25);
    assert(most.units() == 0x100_0000 * unit && scalar(0xcb80_0000).units() == -(0x100_0000 * unit));  // -16777216.0
    crate::order::lemma_order_of_values(scalar(0xcb80_0000), x);  // -16777216.0
    crate::order::lemma_order_of_values(x, most);
    lemma_next_finite(x);
    let (low, high) = (scalar(0xcc00_0000), scalar(0x4c00_0000));  // -33554432.0, 33554432.0
    assert(low.units() == -(0x200_0000 * unit) && high.units() == 0x200_0000 * unit);
    crate::order::lemma_sum_bounds(x, one(), low);
    crate::order::lemma_sum_bounds(x, one(), high);
    crate::order::lemma_order_of_values(low, y);
    crate::order::lemma_order_of_values(y, high);
    let t = tile(x) as int;
    if y.magnitude() >= 0x100_0000 {
        lemma_halved_exactly(y);
        lemma_floor_value(h);
        assert(2 * (t * unit) == 2 * t * unit && 2 * ((t + 1) * unit) == (2 * t + 2) * unit) by (nonlinear_arith);
    } else {
        crate::scalar::lemma_self_rounding(y);
        if y.units() < 0 {
            let k = lemma_shifted_coarse(x);
            let place = crate::rounding::p2(126);
            vstd::arithmetic::power2::lemma2_to64_rest();
            crate::rounding::lemma_p2_monotone(48, 126);
            assert(k * place >= place) by (nonlinear_arith)
                requires
                    k >= 1,
                    place > 0,
            ;
            crate::rounding::lemma_grid_monotone(y.magnitude(), 0x100_0000);
            crate::rounding::lemma_grid_code(0, 0x100_0000);
        }
        assert(y.units() >= 0);
        crate::rounding::lemma_grid_monotone(y.magnitude(), one().magnitude());
        assert(y.units() <= unit);
        crate::rounding::lemma_p2_adds(23, 125);
        crate::rounding::lemma_p2_step(148);
        crate::rounding::lemma_grid_code(125, 0x80_0000);
        assert(2 * half().units() == unit);
        let (v, w) = (y.units(), half().units());
        assert(0 <= v * w <= w * unit && 0 * unit == 0) by (nonlinear_arith)
            requires
                0 <= v <= unit,
                w >= 0,
        ;
        crate::order::lemma_product_bounds(y, half(), half());
        crate::order::lemma_product_bounds(y, half(), zero());
        crate::order::lemma_order_of_values(h, half());
        crate::order::lemma_order_of_values(zero(), h);
        lemma_floor_value(h);
        assert(t == 0) by (nonlinear_arith)
            requires
                t * unit <= h.units() < (t + 1) * unit,
                0 <= h.units() < unit,
                unit > 0,
        ;
    }
}

/// Whether `count` tiles from `first` on reach from `left` to `right`, but for the
/// rounding of each edge: neither end of the tiles is farther inside than one part
/// in 2^24 of the edge's distance from -1.
pub open spec fn covers(first: i32, count: u32, left: Scalar, right: Scalar) -> bool {
    let unit = crate::scalar::one_units();
    &&& 0x100_0000 * ((2 * first - 1) * unit - left.units()) <= crate::order::gap(left.units(), -unit)
    &&& 0x100_0000 * (right.units() - (2 * (first + count) - 1) * unit) <= crate::order::gap(right.units(), -unit)
}

/// Whether fewer than `count` tiles from `first` on would not do, but for the same
/// rounding: both the first tile and the last one reach into what is seen.
pub open spec fn needed(first: i32, count: u32, left: Scalar, right: Scalar) -> bool {
    let unit = crate::scalar::one_units();
    &&& 0x100_0000 * (left.units() - (2 * first + 1) * unit) <= crate::order::gap(left.units(), -unit)
    &&& 0x100_0000 * ((2 * (first + count) - 3) * unit - right.units()) <= crate::order::gap(right.units(), -unit)
}

proof fn lemma_axis_covered(pan: Scalar, extent: Scalar)
    requires
        (scalar(0xcb00_0000)).le(pan),  // -8388608.0
        pan.le(scalar(0x4b00_0000)),  // 8388608.0
        zero().le(extent),
        extent.le(scalar(0x4b00_0000)),  // 8388608.0
    ensures
        ({
            let (left, right) = (pan.sub(extent), pan.add(extent));
            &&& -67108864 <= tile(left) <= tile(right)
            &&& covers(tile(left), (tile(right) - tile(left) + 1) as u32, left, right)
            &&& needed(tile(left), (tile(right) - tile(left) + 1) as u32, left, right)
        }),
{
    let unit = crate::scalar::one_units();
    let (left, right) = (pan.sub(extent), pan.add(extent));
    let minus = extent.neg();
    let (low, high) = (scalar(0xcb80_0000), scalar(0x4b80_0000));  // -16777216.0, 16777216.0
    vstd::arithmetic::power2::lemma2_to64();
    crate::rounding::lemma_p2_values();
    crate::order::lemma_power_of_two(0);
    crate::order::lemma_power_of_two(23);
    crate::order::lemma_power_of_two(24);
    assert(scalar(0x4b00_0000).units() == 0x80_0000 * unit && scalar(0xcb00_0000).units() == -(0x80_0000 * unit));  // 8388608.0, -8388608.0
    assert(low.units() == -(0x100_0000 * unit) && high.units() == 0x100_0000 * unit);
    assert(one().units() == unit);
    crate::order::lemma_order_of_values(scalar(0xcb00_0000), pan);  // -8388608.0
    crate::order::lemma_order_of_values(pan, scalar(0x4b00_0000));  // 8388608.0
    crate::order::lemma_order_of_values(zero(), extent);
    crate::order::lemma_order_of_values(extent, scalar(0x4b00_0000));  // 8388608.0
    crate::order::lemma_order_of_values(minus, extent);
    crate::order::lemma_sum_bounds(pan, minus, low);
    crate::order::lemma_sum_bounds(pan, minus, high);
    crate::order::lemma_sum_bounds(pan, extent, low);
    crate::order::lemma_sum_bounds(pan, extent, high);
    lemma_tile_edges(left);
    lemma_tile_edges(right);
    crate::order::lemma_sum_error(left, one());
    crate::order::lemma_sum_error(right, one());
    crate::order::lemma_order_of_values(scalar(0xcb80_0000), scalar(0xcb00_0000));  // -16777216.0, -8388608.0
    crate::order::lemma_order_of_values(scalar(0xcb80_0000), pan);  // -16777216.0
    crate::order::lemma_order_of_values(pan, scalar(0x4b80_0000));  // 16777216.0
    crate::order::lemma_order_of_values(extent, scalar(0x4b80_0000));  // 16777216.0
    lemma_tile_span(pan, extent);
    let (f, l) = (tile(left) as int, tile(right) as int);
    assert((2 * f - 1) * unit == 2 * f * unit - unit) by (nonlinear_arith);
    assert((2 * l + 2) * unit == (2 * l + 1) * unit + unit) by (nonlinear_arith);
    assert((2 * f + 2) * unit == (2 * f + 1) * unit + unit) by (nonlinear_arith);
    assert((2 * l - 1) * unit == 2 * l * unit - unit) by (nonlinear_arith);
}

/// The visible tiles cover what the camera sees, soft edges included, and are no
/// more than that takes.
pub proof fn lemma_tiles_cover(a: Appearance)
    requires
        (scalar(0xcb00_0000)).le(a.pan.x),  // -8388608.0
        a.pan.x.le(scalar(0x4b00_0000)),  // 8388608.0
        (scalar(0xcb00_0000)).le(a.pan.y),  // -8388608.0
        a.pan.y.le(scalar(0x4b00_0000)),  // 8388608.0
        zero().le(a.extent().x),
        a.extent().x.le(scalar(0x4b00_0000)),  // 8388608.0
        zero().le(a.extent().y),
        a.extent().y.le(scalar(0x4b00_0000)),  // 8388608.0
    ensures
        ({
            let (first, count) = a.tiles();
            let (left, right) = (a.pan.sub(a.extent()), a.pan.add(a.extent()));
            &&& covers(first.x, count.x, left.x, right.x)
            &&& covers(first.y, count.y, left.y, right.y)
            &&& needed(first.x, count.x, left.x, right.x)
            &&& needed(first.y, count.y, left.y, right.y)
        }),
{
    let extent = a.extent();
    lemma_axis_covered(a.pan.x, extent.x);
    lemma_axis_covered(a.pan.y, extent.y);
    lemma_tile_axes(a.pan.sub(extent));
    lemma_tile_axes(a.pan.add(extent));
    lemma_span(tile(a.pan.x.sub(extent.x)), tile(a.pan.x.add(extent.x)));
    lemma_span(tile(a.pan.y.sub(extent.y)), tile(a.pan.y.add(extent.y)));
}

} // verus!
