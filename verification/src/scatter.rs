//! Where particles that are added by hand land.
use vstd::prelude::*;

use crate::interaction::{fraction, ParticleDump};
use crate::model::{hash, world};
use crate::scalar::{one, scalar, zero, Scalar};
use crate::vector::Vec2;

verus! {

/// A word is between none and all of the words.
proof fn lemma_fraction_range(key: u32)
    ensures
        fraction(key).finite(),
        0 <= fraction(key).units() <= crate::scalar::one_units(),
{
    let unit = crate::scalar::one_units();
    let (whole, share, most) = (Scalar::from_u32(key), scalar(0x2f80_0000), scalar(0x4f80_0000));  // 1.0 / 4294967296.0, 4294967296.0
    let place = crate::rounding::p2(117);
    crate::rounding::lemma_p2_pos(149);
    crate::rounding::lemma_p2_values();
    vstd::arithmetic::power2::lemma2_to64();
    vstd::arithmetic::power2::lemma2_to64_rest();
    crate::order::lemma_power_of_two(0);
    crate::order::lemma_power_of_two(32);
    crate::rounding::lemma_p2_adds(32, 117);
    crate::rounding::lemma_p2_adds(23, 94);
    crate::rounding::lemma_grid_code(94, 0x80_0000);
    assert(share.units() == place && unit == 0x1_0000_0000 * place);
    assert(most.units() == 0x1_0000_0000 * unit);
    // The word, rounded.
    let exact = key * unit;
    assert(0 <= exact <= 0x1_0000_0000 * unit) by (nonlinear_arith)
        requires
            0 <= key <= 0x1_0000_0000,
            exact == key * unit,
            unit > 0,
    ;
    crate::order::lemma_nearest_bounds(exact, 1, 0);
    crate::order::lemma_nearest_bounds(exact, 1, most.magnitude());
    crate::rounding::lemma_grid_monotone(0, whole.magnitude());
    crate::rounding::lemma_grid_monotone(whole.magnitude(), most.magnitude());
    let w = whole.units();
    assert(0 <= w <= 0x1_0000_0000 * unit);
    assert(0 * unit <= w * place <= unit * unit) by (nonlinear_arith)
        requires
            0 <= w <= 0x1_0000_0000 * unit,
            unit == 0x1_0000_0000 * place,
            unit > 0,
            place > 0,
    ;
    crate::order::lemma_product_bounds(whole, share, zero());
    crate::order::lemma_product_bounds(whole, share, one());
    crate::order::lemma_order_of_values(zero(), fraction(key));
    crate::order::lemma_order_of_values(fraction(key), one());
}

/// The root of a number up to one is at most one.
proof fn lemma_root_range(x: Scalar)
    requires
        x.finite(),
        0 <= x.units() <= crate::scalar::one_units(),
    ensures
        x.sqrt().finite(),
        0 <= x.sqrt().units() <= crate::scalar::one_units(),
{
    let unit = crate::scalar::one_units();
    crate::rounding::lemma_p2_pos(149);
    crate::rounding::lemma_p2_values();
    crate::order::lemma_power_of_two(0);
    crate::scalar::lemma_self_rounding(x);
    if !x.zero() {
        let n = x.size() * unit;
        assert(0 <= n <= unit * unit) by (nonlinear_arith)
            requires
                n == x.size() * unit,
                0 <= x.size() <= unit,
                unit > 0,
        ;
        let code = crate::rounding::nearest_root(n);
        let top = one().magnitude();
        crate::rounding::lemma_root_exists(n);
        if code > top {
            let midpoint = crate::rounding::grid(code - 1) + crate::rounding::grid(code);
            crate::rounding::lemma_grid_monotone(top, code - 1);
            crate::rounding::lemma_grid_monotone(top, code);
            assert(midpoint * midpoint > 4 * (unit * unit)) by (nonlinear_arith)
                requires
                    midpoint > 2 * unit,
                    unit > 0,
            ;
        }
        crate::rounding::lemma_grid_monotone(0, code);
        crate::rounding::lemma_grid_monotone(code, top);
    }
}

/// A factor of at most one does not make a number larger.
proof fn lemma_shrunk(factor: Scalar, x: Scalar)
    requires
        factor.finite(),
        x.finite(),
        -crate::scalar::one_units() <= factor.units() <= crate::scalar::one_units(),
        x.units() >= 0,
    ensures
        factor.mul(x).finite(),
        -x.units() <= factor.mul(x).units() <= x.units(),
        factor.units() >= 0 ==> factor.mul(x).units() >= 0,
{
    let unit = crate::scalar::one_units();
    let (f, n) = (factor.units(), x.units());
    crate::rounding::lemma_p2_pos(149);
    crate::scalar::lemma_self_rounding(x);
    assert((-n) * unit <= f * n <= n * unit) by (nonlinear_arith)
        requires
            -unit <= f <= unit,
            n >= 0,
    ;
    assert(f >= 0 ==> f * n >= 0 * unit) by (nonlinear_arith)
        requires
            n >= 0,
    ;
    let product = factor.mul(x);
    crate::order::lemma_product_bounds(factor, x, x);
    crate::order::lemma_product_bounds(factor, x, x.neg());
    crate::order::lemma_product_bounds(factor, x, zero());
    crate::order::lemma_order_of_values(product, x);
    crate::order::lemma_order_of_values(x.neg(), product);
    crate::order::lemma_order_of_values(zero(), product);
}

/// No particle is farther from the center than the radius.
pub proof fn lemma_distance_within_radius(dump: ParticleDump, key: u32)
    requires
        dump.radius.finite(),
        zero().le(dump.radius),
    ensures
        dump.distance(key).finite(),
        0 <= dump.distance(key).units() <= dump.radius.units(),
{
    crate::order::lemma_order_of_values(zero(), dump.radius);
    lemma_fraction_range(hash(key));
    lemma_root_range(fraction(hash(key)));
    lemma_shrunk(fraction(hash(key)).sqrt(), dump.radius);
}

/// Wrapping into the world moves a position by whole sides, but for the rounding
/// of the addition that it may take.
pub(crate) proof fn lemma_world_error(x: Scalar) -> (q: int)
    requires
        x.finite(),
    ensures
        ({
            let side = world().units();
            let r = x.rem_euclid(world());
            &&& r.finite()
            &&& 0x100_0000 * crate::order::gap(r.units(), x.units() + q * side) <= side
        }),
{
    let side = world().units();
    let w = x.rem(world());
    let r = x.rem_euclid(world());
    crate::order::lemma_order_of_values(zero(), world());
    crate::order::lemma_rem_euclid_bounds(x, world());
    crate::order::lemma_order_of_values(zero(), r);
    crate::order::lemma_order_of_values(r, world());
    crate::order::lemma_power_of_two(11);
    crate::rounding::lemma_p2_values();
    crate::rounding::lemma_p2_adds(11, 149);
    crate::rounding::lemma_p2_pos(160);
    let code = crate::order::lemma_remainder_on_grid(x, 160);
    crate::rounding::lemma_grid_exact(code, 1);
    crate::scalar::lemma_self_rounding(x);
    let (rest, turns) = (x.size() % side, x.size() / side);
    vstd::arithmetic::div_mod::lemma_mod_bound(x.size(), side);
    vstd::arithmetic::div_mod::lemma_fundamental_div_mod(x.size(), side);
    assert(w.size() == rest && w.finite() && w.negative() == x.negative()) by {
        assert(rest * 1 == rest);
        if rest == 0 {
            crate::rounding::lemma_grid_monotone(0, code);
        }
    }
    crate::order::lemma_order_of_values(w, zero());
    assert(turns * side == side * turns && (-turns) * side == -(side * turns)) by (nonlinear_arith);
    if w.units() < 0 {
        assert((turns + 1) * side == side * turns + side) by (nonlinear_arith);
        crate::order::lemma_sum_error(w, world());
        turns + 1
    } else if x.negative() {
        turns
    } else {
        -turns
    }
}

/// How far one coordinate of a particle is from where it should be.
proof fn lemma_axis_error(center: Scalar, direction: Scalar, distance: Scalar) -> (q: int)
    requires
        center.finite(),
        direction.finite(),
        distance.finite(),
        -crate::scalar::one_units() <= direction.units() <= crate::scalar::one_units(),
        distance.units() >= 0,
        center.add(direction.mul(distance)).finite(),
    ensures
        ({
            let unit = crate::scalar::one_units();
            let position = center.add(direction.mul(distance)).rem_euclid(world());
            let moved = position.units() - center.units() - q * world().units();
            0x100_0000 * crate::order::gap(moved * unit, direction.units() * distance.units()) <= unit * (
            crate::order::gap(center.units(), 0) + 2 * distance.units() + world().units() + 0x80_0000)
        }),
{
    let unit = crate::scalar::one_units();
    let part = direction.mul(distance);
    let place = center.add(part);
    let position = place.rem_euclid(world());
    crate::rounding::lemma_p2_pos(149);
    lemma_shrunk(direction, distance);
    crate::order::lemma_product_error(direction, distance);
    crate::order::lemma_sum_error(center, part);
    let turns = lemma_world_error(place);
    let side = world().units();
    let (d, n, p) = (direction.units(), distance.units(), part.units());
    let far = crate::order::gap(center.units(), 0);
    assert((-n) * unit <= d * n <= n * unit) by (nonlinear_arith)
        requires
            -unit <= d <= unit,
            n >= 0,
    ;
    assert((-n) * unit == -(n * unit)) by (nonlinear_arith);
    assert(0x100_0000 * crate::order::gap(p * unit, d * n) <= n * unit + 0x80_0000 * unit) by {
        assert(n * unit >= 0) by (nonlinear_arith)
            requires
                n >= 0,
                unit > 0,
        ;
    }
    let e = position.units() - center.units() - p - turns * side;
    let most = far + n + side;
    assert(-most <= 0x100_0000 * e <= most);
    let moved = position.units() - center.units() - turns * side;
    assert(moved * unit == p * unit + e * unit) by (nonlinear_arith)
        requires
            moved == p + e,
    ;
    assert(-(most * unit) <= 0x100_0000 * (e * unit) <= most * unit) by (nonlinear_arith)
        requires
            -most <= 0x100_0000 * e <= most,
            unit > 0,
    ;
    assert(unit * (far + 2 * n + side + 0x80_0000) == most * unit + n * unit + 0x80_0000 * unit) by (nonlinear_arith)
        requires
            most == far + n + side,
    ;
    turns
}

/// The same, with more room.
proof fn lemma_axis_within(center: Scalar, direction: Scalar, distance: Scalar, k: int) -> (q: int)
    requires
        center.finite(),
        direction.finite(),
        distance.finite(),
        -crate::scalar::one_units() <= direction.units() <= crate::scalar::one_units(),
        distance.units() >= 0,
        center.add(direction.mul(distance)).finite(),
        crate::order::gap(center.units(), 0) + 2 * distance.units() + world().units() + 0x80_0000 <= k,
    ensures
        ({
            let unit = crate::scalar::one_units();
            let position = center.add(direction.mul(distance)).rem_euclid(world());
            let moved = position.units() - center.units() - q * world().units();
            crate::order::gap((0x100_0000 * moved) * unit, 0x100_0000 * (direction.units() * distance.units())) <= unit * k
        }),
{
    let unit = crate::scalar::one_units();
    let q = lemma_axis_error(center, direction, distance);
    let position = center.add(direction.mul(distance)).rem_euclid(world());
    let moved = position.units() - center.units() - q * world().units();
    crate::rounding::lemma_p2_pos(149);
    lemma_more(
        unit,
        crate::order::gap(center.units(), 0) + 2 * distance.units() + world().units() + 0x80_0000,
        k,
    );
    assert((0x100_0000 * moved) * unit == 0x100_0000 * (moved * unit)) by (nonlinear_arith);
    q
}

/// How far outside of its circle rounding can put a particle, in parts of 2^23.
pub open spec fn slack(dump: ParticleDump) -> int {
    crate::order::gap(dump.center.x.units(), 0) + crate::order::gap(dump.center.y.units(), 0) + 2 * dump.radius.units()
        + world().units() + 0x80_0000
}

/// `position` is no farther than the radius from the center's copy `x` worlds to
/// the right and `y` worlds up, but for the slack.
pub open spec fn lands_near(dump: ParticleDump, position: Vec2, x: int, y: int) -> bool {
    let side = world().units();
    let (across, up) = (
        position.x.units() - dump.center.x.units() - x * side,
        position.y.units() - dump.center.y.units() - y * side,
    );
    let reach = 0x100_0000 * dump.radius.units() + 2 * slack(dump);
    (0x100_0000 * across) * (0x100_0000 * across) + (0x100_0000 * up) * (0x100_0000 * up) <= reach * reach
}

/// Every particle lands within the radius of the center on the torus, up to
/// rounding, if its direction is no longer than one.
pub proof fn lemma_dumped_near_center(dump: ParticleDump, key: u32, direction: Vec2)
    requires
        dump.center.finite(),
        dump.radius.finite(),
        zero().le(dump.radius),
        direction.finite(),
        direction.x.units() * direction.x.units() + direction.y.units() * direction.y.units()
            <= crate::scalar::one_units() * crate::scalar::one_units(),
        dump.center.add(direction.scale(dump.distance(key))).finite(),
    ensures
        exists|x: int, y: int| lands_near(dump, dump.position(key, direction), x, y),
{
    let unit = crate::scalar::one_units();
    let distance = dump.distance(key);
    let position = dump.position(key, direction);
    let side = world().units();
    crate::rounding::lemma_p2_pos(149);
    lemma_distance_within_radius(dump, key);
    let (a, b, n, r) = (direction.x.units(), direction.y.units(), distance.units(), dump.radius.units());
    lemma_leg(a, b, unit);
    lemma_leg(b, a, unit);
    let k = slack(dump);
    crate::order::lemma_order_of_values(zero(), world());
    let x = lemma_axis_within(dump.center.x, direction.x, distance, k);
    let y = lemma_axis_within(dump.center.y, direction.y, distance, k);
    let across = position.x.units() - dump.center.x.units() - x * side;
    let up = position.y.units() - dump.center.y.units() - y * side;
    lemma_circle(unit, a, b, n, r, 0x100_0000 * across, 0x100_0000 * up, k);
    assert(lands_near(dump, position, x, y));
}

proof fn lemma_more(unit: int, a: int, b: int)
    requires
        unit >= 0,
        a <= b,
    ensures
        unit * a <= unit * b,
{
    assert(unit * a <= unit * b) by (nonlinear_arith)
        requires
            unit >= 0,
            a <= b,
    ;
}

/// A leg is no longer than the hypotenuse.
proof fn lemma_leg(a: int, b: int, c: int)
    requires
        a * a + b * b <= c * c,
        c >= 0,
    ensures
        -c <= a <= c,
{
    assert(b * b >= 0) by (nonlinear_arith);
    assert(-c <= a <= c) by (nonlinear_arith)
        requires
            a * a <= c * c,
            c >= 0,
    ;
}

/// Moving a point in a circle by at most `k` along each axis leaves it in the
/// circle that is larger by twice that.
proof fn lemma_circle(u: int, a: int, b: int, n: int, r: int, x: int, y: int, k: int)
    requires
        u > 0,
        a * a + b * b <= u * u,
        0 <= n <= r,
        k >= 0,
        crate::order::gap(x * u, 0x100_0000 * (a * n)) <= u * k,
        crate::order::gap(y * u, 0x100_0000 * (b * n)) <= u * k,
    ensures
        x * x + y * y <= (0x100_0000 * r + 2 * k) * (0x100_0000 * r + 2 * k),
{
    let big = 0x100_0000int;
    let (v, w) = (big * (a * n), big * (b * n));
    let c = big * r * u;
    let (e, f) = (x * u - v, y * u - w);
    let m = u * k;
    lemma_scaled_circle(u, a, b, n, r);
    lemma_leg(v, w, c);
    lemma_leg(w, v, c);
    lemma_moved_square(v, e, c, m);
    lemma_moved_square(w, f, c, m);
    let (xu, yu) = (x * u, y * u);
    let reach = c + 2 * m;
    assert(reach * reach == c * c + 4 * (c * m) + 4 * (m * m)) by (nonlinear_arith)
        requires
            reach == c + 2 * m,
    ;
    assert(m * m >= 0) by (nonlinear_arith);
    assert(xu * xu + yu * yu <= reach * reach);
    let far = big * r + 2 * k;
    assert(reach == u * far) by (nonlinear_arith)
        requires
            reach == big * r * u + 2 * (u * k),
            far == big * r + 2 * k,
    ;
    assert(xu * xu == (u * u) * (x * x)) by (nonlinear_arith)
        requires
            xu == x * u,
    ;
    assert(yu * yu == (u * u) * (y * y)) by (nonlinear_arith)
        requires
            yu == y * u,
    ;
    assert(reach * reach == (u * u) * (far * far)) by (nonlinear_arith)
        requires
            reach == u * far,
    ;
    let (uu, s, t) = (u * u, x * x + y * y, far * far);
    assert(uu * s == uu * (x * x) + uu * (y * y)) by (nonlinear_arith)
        requires
            s == x * x + y * y,
    ;
    assert(uu > 0) by (nonlinear_arith)
        requires
            uu == u * u,
            u > 0,
    ;
    assert(s <= t) by (nonlinear_arith)
        requires
            uu * s <= uu * t,
            uu > 0,
    ;
}

proof fn lemma_scaled_circle(u: int, a: int, b: int, n: int, r: int)
    requires
        u > 0,
        a * a + b * b <= u * u,
        0 <= n <= r,
    ensures
        ({
            let big = 0x100_0000int;
            let (v, w) = (big * (a * n), big * (b * n));
            let c = big * r * u;
            &&& v * v + w * w <= c * c
            &&& c >= 0
        }),
{
    let big = 0x100_0000int;
    let (v, w) = (big * (a * n), big * (b * n));
    let c = big * r * u;
    let (g, h) = (big * n, big * r);
    assert(v * v == (g * g) * (a * a)) by (nonlinear_arith)
        requires
            v == big * (a * n),
            g == big * n,
    ;
    assert(w * w == (g * g) * (b * b)) by (nonlinear_arith)
        requires
            w == big * (b * n),
            g == big * n,
    ;
    assert(c * c == (h * h) * (u * u)) by (nonlinear_arith)
        requires
            c == h * u,
    ;
    let (gg, hh, s, uu) = (g * g, h * h, a * a + b * b, u * u);
    assert(gg * s == gg * (a * a) + gg * (b * b)) by (nonlinear_arith)
        requires
            s == a * a + b * b,
    ;
    assert(0 <= gg <= hh) by (nonlinear_arith)
        requires
            gg == g * g,
            hh == h * h,
            0 <= g <= h,
    ;
    assert(s >= 0) by (nonlinear_arith)
        requires
            s == a * a + b * b,
    ;
    assert(gg * s <= hh * uu) by (nonlinear_arith)
        requires
            0 <= gg <= hh,
            0 <= s <= uu,
    ;
    assert(c >= 0) by (nonlinear_arith)
        requires
            c == h * u,
            h >= 0,
            u > 0,
    ;
}

proof fn lemma_moved_square(v: int, e: int, c: int, m: int)
    requires
        -c <= v <= c,
        -m <= e <= m,
        c >= 0,
        m >= 0,
    ensures
        (v + e) * (v + e) <= v * v + 2 * (c * m) + m * m,
{
    assert((v + e) * (v + e) == v * v + 2 * (v * e) + e * e) by (nonlinear_arith);
    assert(v * e <= c * m) by (nonlinear_arith)
        requires
            -c <= v <= c,
            -m <= e <= m,
            c >= 0,
            m >= 0,
    ;
    assert(e * e <= m * m) by (nonlinear_arith)
        requires
            -m <= e <= m,
    ;
}

} // verus!
