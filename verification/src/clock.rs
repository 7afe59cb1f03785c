//! How the simulation keeps time.
use vstd::prelude::*;

use crate::gpu::GpuState;
use crate::interaction::InteractionTools;
use crate::model::{dt, Simulation};
use crate::order::gap;
use crate::scalar::{one, scalar, zero, Scalar};

verus! {

/// A world that runs: its clock, its speed and the time left over are sensible.
pub open spec fn running(state: GpuState, s: Simulation) -> bool {
    &&& !s.paused
    &&& state.accumulator.finite()
    &&& state.accumulator.units() >= 0
    &&& zero().le(s.frame_dt)
    &&& s.speed.finite()
    &&& zero().le(s.speed)
}

/// The time that a frame counts for: its own, or a tenth of a second if it took longer.
pub open spec fn frame_time(s: Simulation) -> int {
    if s.frame_dt.units() < scalar(0x3dcc_cccd).units() {  // 0.1
        s.frame_dt.units()
    } else {
        scalar(0x3dcc_cccd).units()  // 0.1
    }
}

proof fn lemma_step_length()
    ensures
        dt().finite(),
        dt().units() == 0x88_8889 * crate::rounding::p2(120),
        crate::rounding::p2(120) > 0,
        crate::scalar::one_units() == 0x2000_0000 * crate::rounding::p2(120),
        scalar(0x4080_0000).mul(dt()).finite(),  // 4.0
        scalar(0x4080_0000).mul(dt()).units() == 4 * dt().units(),  // 4.0
{
    crate::rounding::lemma_p2_pos(120);
    crate::rounding::lemma_grid_code(120, 0x88_8889);
    vstd::arithmetic::power2::lemma2_to64();
    crate::rounding::lemma_p2_adds(29, 120);
    crate::gpu::lemma_four_steps_exact();
}

/// A tenth of a second at most, times a rate.
pub(crate) proof fn lemma_time_at_rate(seconds: Scalar, rate: Scalar, exact: int)
    requires
        zero().le(seconds),
        rate.finite(),
        zero().le(rate),
        exact == if seconds.units() < scalar(0x3dcc_cccd).units() {  // 0.1
            seconds.units()
        } else {
            scalar(0x3dcc_cccd).units()  // 0.1
        },
    ensures
        ({
            let unit = crate::scalar::one_units();
            let time = seconds.min(scalar(0x3dcc_cccd));  // 0.1
            let share = time.mul(rate);
            let error = gap(share.units() * unit, exact * rate.units());
            &&& time.finite()
            &&& time.units() == exact
            &&& time.units() >= 0
            &&& share.finite()
            &&& share.units() >= 0
            &&& rate.units() >= 0
            &&& exact * rate.units() >= 0
            &&& 0x100_0000 * error <= exact * rate.units() || 2 * error <= unit
        }),
{
    let unit = crate::scalar::one_units();
    let tenth = scalar(0x3dcc_cccd);  // 0.1
    let time = seconds.min(tenth);
    crate::rounding::lemma_p2_pos(149);
    crate::rounding::lemma_p2_values();
    crate::order::lemma_power_of_two(0);
    crate::order::lemma_order_of_values(tenth, seconds);
    crate::order::lemma_order_of_values(seconds, tenth);
    crate::order::lemma_order_of_values(zero(), seconds);
    crate::order::lemma_order_of_values(zero(), rate);
    crate::order::lemma_order_of_values(zero(), tenth);
    crate::order::lemma_order_of_values(tenth, one());
    let (t, v) = (time.units(), rate.units());
    assert(0 <= t * v <= v * unit && 0 * unit == 0) by (nonlinear_arith)
        requires
            0 <= t <= unit,
            v >= 0,
    ;
    crate::order::lemma_product_bounds(time, rate, rate);
    crate::order::lemma_product_bounds(time, rate, zero());
    crate::order::lemma_order_of_values(zero(), time.mul(rate));
    crate::order::lemma_order_of_values(time.mul(rate), rate);
    crate::order::lemma_product_error(time, rate);
}

/// What a frame's time comes to at the speed of the world.
proof fn lemma_frame_share(state: GpuState, s: Simulation)
    requires
        running(state, s),
    ensures
        ({
            let unit = crate::scalar::one_units();
            let time = s.frame_dt.min(scalar(0x3dcc_cccd));  // 0.1
            let share = time.mul(s.speed);
            let error = gap(share.units() * unit, frame_time(s) * s.speed.units());
            &&& time.finite()
            &&& time.units() == frame_time(s)
            &&& time.units() >= 0
            &&& share.finite()
            &&& share.units() >= 0
            &&& s.speed.units() >= 0
            &&& frame_time(s) * s.speed.units() >= 0
            &&& 0x100_0000 * error <= frame_time(s) * s.speed.units() || 2 * error <= unit
        }),
{
    lemma_time_at_rate(s.frame_dt, s.speed, frame_time(s));
}

/// The particles due grow by the rate times the time of the frame, at most a tenth of a
/// second, up to rounding.
pub proof fn lemma_rate_adds_particles(carried: Scalar, rate: Scalar, seconds: Scalar)
    requires
        carried.finite(),
        carried.units() >= 0,
        zero().le(seconds),
        rate.finite(),
        zero().le(rate),
        InteractionTools::gathered(carried, rate, seconds).finite(),
    ensures
        ({
            let (unit, tenth) = (crate::scalar::one_units(), scalar(0x3dcc_cccd).units());  // 0.1
            let time = if seconds.units() < tenth { seconds.units() } else { tenth };
            let exact = carried.units() * unit + time * rate.units();
            let due = InteractionTools::gathered(carried, rate, seconds).units();
            0x40_0000 * gap(due * unit, exact) <= exact + 0x40_0000 * unit
        }),
{
    let (unit, tenth) = (crate::scalar::one_units(), scalar(0x3dcc_cccd));  // 0.1
    let time = if seconds.units() < tenth.units() { seconds.units() } else { tenth.units() };
    let share = rate.mul(seconds.min(tenth));
    let due = carried.add(share);
    crate::rounding::lemma_p2_pos(149);
    lemma_time_at_rate(seconds, rate, time);
    crate::order::lemma_mul_commutes(rate, seconds.min(tenth));
    crate::order::lemma_sum_error(carried, share);
    let (a, p, n) = (carried.units(), share.units(), due.units());
    assert(a * unit >= 0 && (a + p) * unit == a * unit + p * unit) by (nonlinear_arith)
        requires
            a >= 0,
            unit > 0,
    ;
    assert(0x100_0000 * gap(n * unit, a * unit + p * unit) <= a * unit + p * unit) by (nonlinear_arith)
        requires
            0x100_0000 * (if n < a + p { a + p - n } else { n - (a + p) }) <= a + p,
            unit > 0,
    ;
}

/// While the world runs, a frame adds its time, at most a tenth of a second, times
/// the speed: up to rounding, that is what the time to step through grows by, until
/// it comes to four steps.
pub proof fn lemma_frame_adds_its_time(state: GpuState, s: Simulation)
    requires
        running(state, s),
    ensures
        ({
            let unit = crate::scalar::one_units();
            let after = state.accumulated(s);
            let exact = state.accumulator.units() * unit + frame_time(s) * s.speed.units();
            &&& after.finite()
            &&& 0 <= after.units() <= 4 * dt().units()
            &&& 0x40_0000 * (after.units() * unit - exact) <= exact + 0x40_0000 * unit
            &&& after.units() < 4 * dt().units() ==> 0x40_0000 * gap(after.units() * unit, exact) <= exact + 0x40_0000
                * unit
        }),
{
    let unit = crate::scalar::one_units();
    let (four, start) = (scalar(0x4080_0000), state.accumulator);  // 4.0
    let most = four.mul(dt());
    let share = s.frame_dt.min(scalar(0x3dcc_cccd)).mul(s.speed);  // 0.1
    let sum = start.add(share);
    let after = state.accumulated(s);
    lemma_step_length();
    lemma_frame_share(state, s);
    crate::rounding::lemma_p2_pos(149);
    crate::order::lemma_sum_bounds(start, share, zero());
    crate::order::lemma_sum_bounds(start, share, most);
    crate::order::lemma_order_of_values(zero(), sum);
    crate::order::lemma_order_of_values(most, sum);
    crate::order::lemma_order_of_values(sum, most);
    assert(after.finite());
    let (a, p, n) = (start.units(), share.units(), sum.units());
    let added = frame_time(s) * s.speed.units();
    let e = gap(p * unit, added);
    assert(a * unit >= 0 && (a + p) * unit == a * unit + p * unit) by (nonlinear_arith)
        requires
            a >= 0,
            unit > 0,
    ;
    assert(after.units() * unit <= n * unit) by (nonlinear_arith)
        requires
            after.units() <= n,
            unit > 0,
    ;
    if sum.finite() {
        crate::order::lemma_sum_error(start, share);
        assert(0x100_0000 * gap(n * unit, a * unit + p * unit) <= a * unit + p * unit) by (nonlinear_arith)
            requires
                0x100_0000 * (if n < a + p { a + p - n } else { n - (a + p) }) <= a + p,
                unit > 0,
        ;
    } else {
        assert(after == most);
        assert(after.units() < a + p);
        assert(after.units() * unit <= (a + p) * unit) by (nonlinear_arith)
            requires
                after.units() <= a + p,
                unit > 0,
        ;
    }
}

/// A running world takes as many steps as its time holds, up to rounding.
pub proof fn lemma_steps_fill_the_time(state: GpuState, s: Simulation)
    requires
        running(state, s),
    ensures
        ({
            let (time, step) = (state.accumulated(s).units(), dt().units());
            let steps = state.steps_of(s);
            &&& time < (steps + 1) * step
            &&& 0x100_0000 * (steps * step - time) <= time
        }),
{
    let unit = crate::scalar::one_units();
    let (time, step) = (state.accumulated(s), dt());
    let q = time.div(step);
    let steps = state.steps_of(s);
    let four = scalar(0x4080_0000);  // 4.0
    lemma_step_length();
    lemma_frame_adds_its_time(state, s);
    crate::gpu::lemma_few_steps_per_frame(state, s);
    crate::rounding::lemma_p2_pos(149);
    vstd::arithmetic::power2::lemma2_to64();
    crate::order::lemma_whole_value(four, 4, 21);
    let (t, d) = (time.units(), step.units());
    assert(t * unit <= (4 * unit) * d && 0 * d <= t * unit) by (nonlinear_arith)
        requires
            0 <= t <= 4 * d,
            unit > 0,
    ;
    crate::order::lemma_quotient_bounds(time, step, four);
    crate::order::lemma_quotient_bounds(time, step, zero());
    crate::order::lemma_order_of_values(q, four);
    crate::order::lemma_order_of_values(zero(), q);
    assert(q.finite());
    let next = Scalar::from_u32((steps + 1) as u32);
    crate::order::lemma_small_count((steps + 1) as u32);
    crate::order::lemma_small_count(steps);
    if t >= (steps + 1) * d {
        assert(t * unit >= ((steps + 1) * unit) * d) by (nonlinear_arith)
            requires
                t >= (steps + 1) * d,
                unit > 0,
        ;
        crate::order::lemma_quotient_bounds(time, step, next);
        crate::order::lemma_truncation_monotone(next, q);
    }
    crate::order::lemma_quotient_error(time, step);
    crate::scalar::lemma_self_rounding(q);
    let v = q.units();
    vstd::arithmetic::div_mod::lemma_fundamental_div_mod(q.size(), unit);
    vstd::arithmetic::div_mod::lemma_mod_bound(q.size(), unit);
    vstd::arithmetic::div_mod::lemma_basic_div(0, unit);
    let r = steps as int;
    assert(unit * r <= v) by {
        if q.negative() {
            assert(q.size() == 0);
            assert(unit * 0 == 0);
        }
    }
    let e = gap(v * d, t * unit);
    assert((r * d) * unit <= t * unit + e) by (nonlinear_arith)
        requires
            unit * r <= v,
            v * d <= t * unit + e,
            d > 0,
    ;
    if 0x100_0000 * e <= t * unit {
        assert(0x100_0000 * (r * d - t) <= t) by (nonlinear_arith)
            requires
                (r * d) * unit <= t * unit + e,
                0x100_0000 * e <= t * unit,
                unit > 0,
        ;
    } else {
        let over = r * d - t;
        assert(over * unit == (r * d) * unit - t * unit) by (nonlinear_arith)
            requires
                over == r * d - t,
        ;
        assert(over < 1) by (nonlinear_arith)
            requires
                over * unit < unit,
                unit > 0,
        ;
    }
}

/// The faster a world runs and the longer a frame takes, the more time there is to
/// step through, and never are there fewer steps.
pub proof fn lemma_faster_is_never_fewer(state: GpuState, slow: Simulation, fast: Simulation)
    requires
        running(state, slow),
        running(state, fast),
        slow.speed.le(fast.speed),
        slow.frame_dt.le(fast.frame_dt),
    ensures
        state.accumulated(slow).le(state.accumulated(fast)),
        state.steps_of(slow) <= state.steps_of(fast),
{
    let start = state.accumulator;
    let tenth = scalar(0x3dcc_cccd);  // 0.1
    let (a, b) = (slow.frame_dt.min(tenth), fast.frame_dt.min(tenth));
    let (x, y) = (a.mul(slow.speed), b.mul(fast.speed));
    lemma_step_length();
    lemma_frame_share(state, slow);
    lemma_frame_share(state, fast);
    lemma_frame_adds_its_time(state, slow);
    lemma_frame_adds_its_time(state, fast);
    assert(a.le(b));
    crate::order::lemma_product_monotone(a, b, slow.speed);
    crate::order::lemma_product_monotone(slow.speed, fast.speed, b);
    crate::order::lemma_mul_commutes(slow.speed, b);
    crate::order::lemma_mul_commutes(fast.speed, b);
    assert(x.le(y));
    crate::order::lemma_sum_monotone(x, y, start);
    crate::order::lemma_add_commutes(x, start);
    crate::order::lemma_add_commutes(y, start);
    crate::order::lemma_quotient_monotone(state.accumulated(slow), state.accumulated(fast), dt());
    crate::order::lemma_truncation_monotone(state.accumulated(slow).div(dt()), state.accumulated(fast).div(dt()));
}

/// A product of the length of a step and a small whole number.
proof fn lemma_whole_steps(k: u32)
    requires
        1 <= k <= 4,
    ensures
        ({
            let time = dt().mul(Scalar::from_u32(k));
            &&& time.finite()
            &&& k * dt().units() <= time.units() <= k * dt().units() + crate::rounding::p2(120)
        }),
{
    let unit = crate::scalar::one_units();
    let place = crate::rounding::p2(120);
    let speed = Scalar::from_u32(k);
    let time = dt().mul(speed);
    let d = dt().units();
    lemma_step_length();
    crate::rounding::lemma_p2_pos(149);
    crate::rounding::lemma_p2_step(120);
    crate::rounding::lemma_p2_step(121);
    crate::order::lemma_small_count(k);
    let exact = if k == 1 {
        scalar(0x3c88_8889)
    } else if k == 2 {
        scalar(0x3d08_8889)
    } else if k == 3 {
        scalar(0x3d4c_ccce)
    } else {
        scalar(0x3d88_8889)
    };
    crate::rounding::lemma_grid_code(121, 0x88_8889);
    crate::rounding::lemma_grid_code(122, 0x88_8889);
    crate::rounding::lemma_grid_code(121, 0xcc_ccce);
    crate::rounding::lemma_grid_code(121, 0xcc_cccd);
    crate::rounding::lemma_grid_code(121, 0xcc_cccf);
    let n = k as int;
    assert(d * (n * unit) == (n * d) * unit) by (nonlinear_arith);
    if k == 3 {
        let code = 0x3d4c_ccceint;
        let num = d * (3 * unit);
        let (down, up) = (
            crate::rounding::grid(code - 1) + crate::rounding::grid(code),
            crate::rounding::grid(code) + crate::rounding::grid(code + 1),
        );
        assert(down == 0x199_999b * (2 * place) && up == 0x199_999d * (2 * place));
        assert(num == (0x199_999b * place) * unit) by (nonlinear_arith)
            requires
                num == d * (3 * unit),
                d == 0x88_8889 * place,
        ;
        assert(down * unit == 2 * num && up * unit > 2 * num) by (nonlinear_arith)
            requires
                num == (0x199_999b * place) * unit,
                down == 0x199_999b * (2 * place),
                up == 0x199_999d * (2 * place),
                place > 0,
                unit > 0,
        ;
        assert(crate::rounding::rounds_to(num, unit, code));
        crate::rounding::lemma_nearest_unique(num, unit, code);
        crate::scalar::lemma_self_rounding(speed);
        assert(speed.size() == 3 * unit);
        assert(time == exact);
        assert(n * d == 3 * d) by (nonlinear_arith)
            requires
                n == 3,
        ;
    } else {
        assert((n == 1 ==> n * d == d) && (n == 2 ==> n * d == 2 * d) && (n == 4 ==> n * d == 4 * d)) by (nonlinear_arith);
        assert(exact.units() == n * d);
        crate::order::lemma_product_bounds(dt(), speed, exact);
        crate::order::lemma_order_of_values(time, exact);
        crate::order::lemma_order_of_values(exact, time);
    }
}

/// The time to step through at a whole speed, if none was left over.
proof fn lemma_whole_speed_time(state: GpuState, s: Simulation, k: u32)
    requires
        !s.paused,
        state.accumulator.units() == 0,
        state.accumulator.finite(),
        s.frame_dt == dt(),
        s.speed == Scalar::from_u32(k),
        1 <= k <= 4,
    ensures
        running(state, s),
        state.accumulated(s).finite(),
        k * dt().units() <= state.accumulated(s).units() <= k * dt().units() + crate::rounding::p2(120),
{
    let unit = crate::scalar::one_units();
    let tenth = scalar(0x3dcc_cccd);  // 0.1
    let most = scalar(0x4080_0000).mul(dt());  // 4.0
    let share = dt().mul(s.speed);
    let start = state.accumulator;
    lemma_step_length();
    lemma_whole_steps(k);
    crate::rounding::lemma_p2_pos(149);
    crate::order::lemma_small_count(k);
    assert(dt().lt(tenth));
    assert(zero().le(dt()));
    assert(0 <= k * unit) by (nonlinear_arith)
        requires
            unit > 0,
            k >= 0,
    ;
    crate::order::lemma_order_of_values(zero(), s.speed);
    assert(s.frame_dt.min(tenth) == dt());
    crate::order::lemma_sum_bounds(start, share, share);
    let sum = start.add(share);
    crate::order::lemma_order_of_values(sum, share);
    crate::order::lemma_order_of_values(share, sum);
    crate::order::lemma_order_of_values(most, sum);
    let (n, d) = (k as int, dt().units());
    assert((n <= 3 ==> n * d <= 3 * d) && (n == 4 ==> n * d == 4 * d)) by (nonlinear_arith)
        requires
            d > 0,
    ;
}

/// At a whole speed from one to four, a frame as long as a step makes as many steps
/// due, if none was left over.
pub proof fn lemma_whole_speed_counts_steps(state: GpuState, s: Simulation, k: u32)
    requires
        !s.paused,
        state.accumulator.units() == 0,
        state.accumulator.finite(),
        s.frame_dt == dt(),
        s.speed == Scalar::from_u32(k),
        1 <= k <= 4,
    ensures
        state.steps_of(s) == k,
{
    let place = crate::rounding::p2(120);
    let time = state.accumulated(s);
    lemma_step_length();
    lemma_whole_speed_time(state, s, k);
    lemma_steps_fill_the_time(state, s);
    crate::rounding::lemma_p2_pos(149);
    crate::order::lemma_small_count(k);
    let (r, n, t, d) = (state.steps_of(s) as int, k as int, time.units(), dt().units());
    assert(r + 1 > n) by (nonlinear_arith)
        requires
            n * d <= t,
            t < (r + 1) * d,
            d > 0,
    ;
    assert(r < n + 1) by (nonlinear_arith)
        requires
            0x100_0000 * (r * d - t) <= t,
            t <= n * d + place,
            d == 0x88_8889 * place,
            place > 0,
            1 <= n <= 4,
    ;
}

/// A step takes its length off the time to step through, up to rounding, and never
/// more than there is; a step by hand takes none.
pub proof fn lemma_step_takes_its_time(state: GpuState)
    requires
        state.accumulator.finite(),
        state.accumulator.units() >= 0,
    ensures
        ({
            let (before, after) = (state.accumulator.units(), state.stepped(false).accumulator.units());
            &&& before >= dt().units() ==> 0x100_0000 * gap(after, before - dt().units()) <= before - dt().units()
            &&& before < dt().units() ==> after == 0
        }),
        state.stepped(true).accumulator == state.accumulator,
{
    let (time, minus) = (state.accumulator, dt().neg());
    lemma_step_length();
    let left = time.add(minus);
    crate::order::lemma_sum_bounds(time, minus, zero());
    crate::order::lemma_sum_bounds(time, minus, time);
    crate::order::lemma_order_of_values(left, time);
    crate::order::lemma_order_of_values(left, zero());
    crate::order::lemma_order_of_values(zero(), left);
    if left.finite() {
        crate::order::lemma_sum_error(time, minus);
    }
}

/// A paused world takes the steps asked for since the last frame, at most four of
/// them, and lets no time add up.
pub proof fn lemma_paused_steps_are_asked_for(state: GpuState, s: Simulation, asked: int)
    requires
        s.paused,
        s.step == state.last_step + asked,
    ensures
        asked <= 0 ==> state.steps_of(s) == 0,
        0 <= asked <= 4 ==> state.steps_of(s) == asked,
        asked > 4 ==> state.steps_of(s) == 4,
        state.accumulated(s).units() == 0,
{
    crate::rounding::lemma_grid_code(0, 0);
}

/// Steps asked for are counted once, whether the world runs or not: another frame of the
/// world, paused, takes none of them again. Counting moves no generation.
pub proof fn lemma_steps_counted_once(state: GpuState, s: Simulation, paused: Simulation)
    requires
        paused.paused,
        paused.step == s.step,
    ensures
        state.counted(s).steps_of(paused) == 0,
        state.counted(s).accumulator == state.accumulated(s),
        state.counted(s).generation == state.generation,
        state.counted(s).current == state.current,
        state.counted(s).buffers == state.buffers,
        state.counted(s).report_steps == state.report_steps,
{
}

/// Between two steps the display shows the part of a step that has passed.
pub proof fn lemma_alpha_shows_the_time_left(state: GpuState)
    requires
        state.accumulator.finite(),
        0 <= state.accumulator.units() <= dt().units(),
    ensures
        ({
            let unit = crate::scalar::one_units();
            let (alpha, time) = (state.alpha(false), state.accumulator.units());
            &&& alpha.finite()
            &&& 0x100_0000 * gap(alpha.units() * dt().units(), time * unit) <= time * unit + 0x100_0000 * dt().units()
        }),
        state.alpha(true) == one(),
{
    let unit = crate::scalar::one_units();
    let (time, step) = (state.accumulator, dt());
    let q = time.div(step);
    lemma_step_length();
    crate::rounding::lemma_p2_pos(149);
    crate::rounding::lemma_p2_values();
    crate::order::lemma_power_of_two(0);
    let (t, d) = (time.units(), step.units());
    assert(0 * d <= t * unit <= unit * d) by (nonlinear_arith)
        requires
            0 <= t <= d,
            unit > 0,
    ;
    crate::order::lemma_quotient_bounds(time, step, zero());
    crate::order::lemma_quotient_bounds(time, step, one());
    crate::order::lemma_order_of_values(zero(), q);
    crate::order::lemma_order_of_values(q, one());
    crate::order::lemma_order_of_values(q, zero());
    crate::order::lemma_order_of_values(one(), q);
    assert(state.alpha(false) == q);
    crate::order::lemma_quotient_error(time, step);
}

} // verus!
