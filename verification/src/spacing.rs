//! How the inferred sizes follow the interaction radius.
use vstd::prelude::*;

use crate::creatures::{outline_of, CreatureTemplate, PairSums};
use crate::model::{core_fraction, world, Simulation};
use crate::rounding::OCTAVE;
use crate::scalar::{half, one, scalar, two, zero, Scalar};

verus! {

/// The two worlds bond the same types at the same share of their radii.
pub open spec fn same_bonds(sim: Simulation, wide: Simulation) -> bool {
    &&& wide.types == sim.types
    &&& wide.rules@ == sim.rules@
    &&& wide.distance@ == sim.distance@
    &&& wide.behavior.preferred_enabled == sim.behavior.preferred_enabled
}

proof fn lemma_same_pair(sim: Simulation, wide: Simulation, a: int, b: int)
    requires
        same_bonds(sim, wide),
    ensures
        wide.preferred(a, b) == sim.preferred(a, b),
        wide.bonded(a, b) == sim.bonded(a, b),
{
    assert(wide.rule(a, b) == sim.rule(a, b) && wide.rule(b, a) == sim.rule(b, a));
    assert(wide.separation(a, b) == sim.separation(a, b) && wide.separation(b, a) == sim.separation(b, a));
}

proof fn lemma_same_chain(sim: Simulation, wide: Simulation, a: int, b: int, bonds: nat)
    requires
        same_bonds(sim, wide),
        sim.chained(a, b, bonds),
    ensures
        wide.chained(a, b, bonds),
    decreases bonds,
{
    if bonds > 0 {
        let c = choose|c: int|
            0 <= c < sim.types && sim.chained(a, c, (bonds - 1) as nat) && #[trigger] sim.bonded(c, b);
        lemma_same_chain(sim, wide, a, c, (bonds - 1) as nat);
        lemma_same_pair(sim, wide, c, b);
        assert(wide.bonded(c, b));
    }
}

proof fn lemma_same_link(sim: Simulation, wide: Simulation, a: int, b: int)
    requires
        same_bonds(sim, wide),
    ensures
        wide.linked(a, b) == sim.linked(a, b),
{
    if sim.linked(a, b) {
        lemma_same_chain(sim, wide, a, b, choose|bonds: nat| sim.chained(a, b, bonds));
    }
    if wide.linked(a, b) {
        lemma_same_chain(wide, sim, a, b, choose|bonds: nat| wide.chained(a, b, bonds));
    }
}

proof fn lemma_same_members(sim: Simulation, wide: Simulation, a: int, limit: nat)
    requires
        same_bonds(sim, wide),
    ensures
        wide.members(a, limit) == sim.members(a, limit),
    decreases limit,
{
    if limit > 0 {
        lemma_same_members(sim, wide, a, (limit - 1) as nat);
        lemma_same_link(sim, wide, a, limit - 1);
    }
}

/// Which types make a body depends on the bonds alone, not on the radius.
pub proof fn lemma_bodies_without_scale(sim: Simulation, wide: Simulation, limit: nat)
    requires
        same_bonds(sim, wide),
    ensures
        wide.bodies(limit) == sim.bodies(limit),
    decreases limit,
{
    if limit > 0 {
        let a = limit - 1;
        lemma_bodies_without_scale(sim, wide, (limit - 1) as nat);
        lemma_same_members(sim, wide, a, sim.types as nat);
        assert forall|b: int| #![trigger sim.linked(a, b)] #![trigger wide.linked(a, b)] wide.linked(a, b) == sim.linked(
            a,
            b,
        ) by {
            lemma_same_link(sim, wide, a, b);
        }
        assert(wide.leads(a) == sim.leads(a));
    }
}

/// The share of the radius at which a pair rests.
spec fn rest_share(sim: Simulation, a: int, b: int) -> Scalar {
    match sim.preferred(a, b) {
        Some(distance) => distance,
        None => core_fraction(),
    }
}

/// Pairs rest between an eighth of the radius and just short of all of it.
proof fn lemma_share_range(share: Scalar)
    requires
        (scalar(0x3e4c_cccd)).le(share),  // 0.2
        share.le(scalar(0x3f73_3333)),  // 0.95
    ensures
        share.finite(),
        crate::scalar::one_units() <= 8 * share.units(),
        share.units() <= scalar(0x3f73_3333).units(),  // 0.95
        scalar(0x3f73_3333).units() < crate::scalar::one_units(),  // 0.95
{
    let eighth = scalar(0x3e00_0000);  // 0.125
    crate::rounding::lemma_p2_values();
    crate::order::lemma_power_of_two(0);
    crate::rounding::lemma_p2_step(146);
    crate::rounding::lemma_p2_step(147);
    crate::rounding::lemma_p2_step(148);
    crate::rounding::lemma_p2_adds(23, 123);
    crate::rounding::lemma_grid_code(123, OCTAVE as int);
    assert(8 * eighth.units() == crate::scalar::one_units());
    crate::order::lemma_order_of_values(eighth, share);
    crate::order::lemma_order_of_values(share, scalar(0x3f73_3333));  // 0.95
    crate::order::lemma_order_of_values(scalar(0x3f73_3333), one());  // 0.95
}

proof fn lemma_rest_share(sim: Simulation, a: int, b: int)
    ensures
        rest_share(sim, a, b).finite(),
        crate::scalar::one_units() <= 8 * rest_share(sim, a, b).units(),
        rest_share(sim, a, b).units() <= scalar(0x3f73_3333).units(),  // 0.95
        scalar(0x3f73_3333).units() < crate::scalar::one_units(),  // 0.95
        sim.spacing_of_pair(a, b) == rest_share(sim, a, b).mul(sim.radius),
{
    crate::creatures::lemma_preferred_within(sim, a, b);
    lemma_share_range(rest_share(sim, a, b));
}

/// A share of twice the radius is twice that share of the radius.
proof fn lemma_twice_share(d: Scalar, radius: Scalar, wide: Scalar)
    requires
        d.finite(),
        crate::scalar::one_units() <= 8 * d.units(),
        d.units() <= crate::scalar::one_units(),
        crate::doubling::twice(radius, wide),
        (scalar(0x38d1_b717)).le(radius),  // 0.0001
    ensures
        crate::doubling::twice(d.mul(radius), d.mul(wide)),
        d.mul(radius).units() >= crate::doubling::ordinary(),
{
    let unit = crate::scalar::one_units();
    let (low, least) = (scalar(0x3880_0000), scalar(0x0100_0000));  // 0.00006103515625
    vstd::arithmetic::power2::lemma2_to64();
    vstd::arithmetic::power2::lemma2_to64_rest();
    crate::rounding::lemma_p2_values();
    crate::rounding::lemma_p2_adds(14, 135);
    crate::rounding::lemma_p2_adds(23, 112);
    crate::rounding::lemma_p2_monotone(60, 135);
    crate::rounding::lemma_grid_code(112, OCTAVE as int);
    crate::rounding::lemma_p2_pos(149);
    let place = crate::rounding::p2(135);
    assert(low.units() == place && unit == 0x4000 * place);
    crate::order::lemma_order_of_values(low, radius);
    let (u, r, w) = (d.units(), radius.units(), wide.units());
    assert(u * r >= crate::doubling::ordinary() * unit) by (nonlinear_arith)
        requires
            unit <= 8 * u,
            r >= place,
            place >= 0x1000_0000_0000_0000,
            unit == 0x4000 * place,
            crate::doubling::ordinary() == 0x100_0000,
    ;
    assert(0 <= u * w <= w * unit) by (nonlinear_arith)
        requires
            0 <= u <= unit,
            w >= 0,
    ;
    assert(0 * unit == 0);
    crate::order::lemma_product_bounds(d, wide, wide);
    crate::order::lemma_product_bounds(d, wide, zero());
    crate::doubling::lemma_twice_product(d, radius, wide);
    assert(least.units() == crate::doubling::ordinary()) by {
        crate::doubling::lemma_octave(OCTAVE as int);
        crate::rounding::lemma_grid_code(0, OCTAVE as int);
    }
    crate::order::lemma_product_bounds(d, radius, least);
    crate::order::lemma_order_of_values(least, d.mul(radius));
}

/// Doubling the radius doubles the rest separation of every pair.
proof fn lemma_twice_spacing(sim: Simulation, wide: Simulation, a: int, b: int)
    requires
        same_bonds(sim, wide),
        crate::doubling::twice(sim.radius, wide.radius),
        (scalar(0x38d1_b717)).le(sim.radius),  // 0.0001
    ensures
        crate::doubling::twice(sim.spacing_of_pair(a, b), wide.spacing_of_pair(a, b)),
        sim.spacing_of_pair(a, b).units() >= crate::doubling::ordinary(),
{
    lemma_same_pair(sim, wide, a, b);
    lemma_rest_share(sim, a, b);
    lemma_twice_share(rest_share(sim, a, b), sim.radius, wide.radius);
}

/// Sums over the same pairs, one of them in a world of twice the radius.
spec fn doubled(sums: PairSums, wide: PairSums) -> bool {
    &&& wide.pairs == sums.pairs
    &&& wide.total == Scalar::signed_infinity(false) || crate::doubling::twice(sums.total, wide.total) && sums.total.units() >= 0
}

proof fn lemma_doubled_pair(sim: Simulation, wide: Simulation, s: PairSums, w: PairSums, a: int, b: int)
    requires
        same_bonds(sim, wide),
        crate::doubling::twice(sim.radius, wide.radius),
        (scalar(0x38d1_b717)).le(sim.radius),  // 0.0001
        doubled(s, w),
    ensures
        doubled(sim.with_pair(s, a, b), wide.with_pair(w, a, b)),
{
    let (x, y) = (sim.spacing_of_pair(a, b), wide.spacing_of_pair(a, b));
    lemma_same_pair(sim, wide, a, b);
    lemma_twice_spacing(sim, wide, a, b);
    if crate::doubling::twice(s.total, w.total) && s.total.units() >= 0 {
        crate::doubling::lemma_twice_sum(s.total, x, w.total, y);
    }
}

proof fn lemma_doubled_row(
    sim: Simulation,
    wide: Simulation,
    types: Seq<u32>,
    i: int,
    count: nat,
    s: PairSums,
    w: PairSums,
)
    requires
        same_bonds(sim, wide),
        crate::doubling::twice(sim.radius, wide.radius),
        (scalar(0x38d1_b717)).le(sim.radius),  // 0.0001
        doubled(s, w),
    ensures
        doubled(sim.row_sums(types, i, count, s), wide.row_sums(types, i, count, w)),
    decreases count,
{
    if count > 0 {
        lemma_doubled_row(sim, wide, types, i, (count - 1) as nat, s, w);
        lemma_doubled_pair(
            sim,
            wide,
            sim.row_sums(types, i, (count - 1) as nat, s),
            wide.row_sums(types, i, (count - 1) as nat, w),
            types[i] as int,
            types[i + count - 1] as int,
        );
    }
}

proof fn lemma_doubled_sums(sim: Simulation, wide: Simulation, types: Seq<u32>, rows: nat)
    requires
        same_bonds(sim, wide),
        crate::doubling::twice(sim.radius, wide.radius),
        (scalar(0x38d1_b717)).le(sim.radius),  // 0.0001
    ensures
        doubled(sim.pair_sums(types, rows), wide.pair_sums(types, rows)),
    decreases rows,
{
    if rows > 0 {
        lemma_doubled_sums(sim, wide, types, (rows - 1) as nat);
        lemma_doubled_row(
            sim,
            wide,
            types,
            rows - 1,
            (types.len() - rows + 1) as nat,
            sim.pair_sums(types, (rows - 1) as nat),
            wide.pair_sums(types, (rows - 1) as nat),
        );
    }
}

/// Doubling the radius doubles the rest spacing of a body and leaves the packing
/// ratio alone, so the size threshold is free of scale.
///
/// Spacings below 0.0001 are left out, since the packing takes them for that.
pub proof fn lemma_threshold_without_scale(sim: Simulation, wide: Simulation, types: Seq<u32>)
    requires
        same_bonds(sim, wide),
        crate::doubling::twice(sim.radius, wide.radius),
        (scalar(0x38d1_b717)).le(sim.radius),  // 0.0001
        (scalar(0x38d1_b717)).le(sim.rest_spacing(types)),  // 0.0001
        wide.rest_spacing(types).finite(),
    ensures
        crate::doubling::twice(sim.rest_spacing(types), wide.rest_spacing(types)),
        wide.share(types) == sim.share(types),
{
    let least = scalar(0x38d1_b717);  // 0.0001
    let (s, w) = (sim.pair_sums(types, types.len()), wide.pair_sums(types, types.len()));
    let (rest, far) = (sim.rest_spacing(types), wide.rest_spacing(types));
    lemma_doubled_sums(sim, wide, types, types.len());
    if zero().lt(s.pairs) {
        assert(s.pairs.finite());
        assert(w.total != Scalar::signed_infinity(false));
        crate::order::lemma_order_of_values(zero(), s.pairs);
        crate::doubling::lemma_twice_quotient(s.total, w.total, s.pairs);
    } else {
        lemma_share_range(core_fraction());
        lemma_twice_share(core_fraction(), sim.radius, wide.radius);
    }
    crate::order::lemma_order_of_values(zero(), least);
    crate::order::lemma_order_of_values(least, sim.radius);
    crate::order::lemma_order_of_values(least, rest);
    crate::order::lemma_order_of_values(least, far);
    crate::doubling::lemma_same_quotient(sim.radius, wide.radius, rest, far);
}

/// What every pair is apart, at least, with a radius from 0.001 on: 11 / 65536.
spec fn closest() -> Scalar {
    scalar(0x3930_0000)  // 0.0001678466796875
}

/// The value of a number with few digits.
proof fn lemma_few_digits(x: Scalar, m: int, shift: int, octave: int)
    requires
        shift >= 0,
        octave >= 0,
        OCTAVE <= m * crate::rounding::p2(shift) < 2 * OCTAVE,
        x.bits == octave * OCTAVE + m * crate::rounding::p2(shift),
        x.bits < crate::rounding::INFINITE,
    ensures
        x.finite(),
        x.units() == m * crate::rounding::p2(shift + octave),
{
    let (a, b) = (crate::rounding::p2(shift), crate::rounding::p2(octave));
    crate::rounding::lemma_p2_adds(shift, octave);
    crate::rounding::lemma_grid_code(octave, m * a);
    assert((m * a) * b == m * (a * b)) by (nonlinear_arith);
}

proof fn lemma_spacing_above(share: Scalar, radius: Scalar)
    requires
        (scalar(0x3e4c_cccd)).le(share),  // 0.2
        share.le(scalar(0x3f73_3333)),  // 0.95
        radius.finite(),
        (scalar(0x3a83_126f)).le(radius),  // 0.001
    ensures
        share.mul(radius).finite(),
        closest().le(share.mul(radius)),
        closest().units() == 11 * crate::rounding::p2(133),
{
    let unit = crate::scalar::one_units();
    let (part, near) = (scalar(0x3e40_0000), scalar(0x3a80_0000));  // 0.1875, 0.0009765625
    crate::rounding::lemma_p2_values();
    vstd::arithmetic::power2::lemma2_to64();
    crate::rounding::lemma_p2_pos(133);
    crate::rounding::lemma_p2_pos(145);
    crate::rounding::lemma_p2_pos(139);
    lemma_few_digits(part, 3, 22, 123);
    lemma_few_digits(near, 1, 23, 116);
    lemma_few_digits(closest(), 11, 20, 113);
    let (a, b, c) = (crate::rounding::p2(145), crate::rounding::p2(139), crate::rounding::p2(133));
    assert(part.units() == 3 * a && near.units() == b && closest().units() == 11 * c);
    crate::rounding::lemma_p2_adds(145, 139);
    crate::rounding::lemma_p2_adds(133, 149);
    crate::rounding::lemma_p2_adds(2, 282);
    crate::rounding::lemma_p2_pos(282);
    lemma_share_range(share);
    crate::rounding::lemma_p2_pos(149);
    crate::order::lemma_order_of_values(part, share);
    crate::order::lemma_order_of_values(near, radius);
    crate::order::lemma_order_of_values(zero(), radius);
    lemma_share_of_radius(share, radius);
    let (u, r) = (share.units(), radius.units());
    assert(u * r >= (11 * c) * unit) by (nonlinear_arith)
        requires
            u >= 3 * a,
            r >= b,
            a > 0,
            b > 0,
            a * b == 4 * (c * unit),
            c * unit > 0,
    ;
    crate::order::lemma_product_bounds(share, radius, closest());
}

/// Counting stops at 2^24, where one more is lost.
spec fn counted(k: int) -> int {
    if k < 0x100_0000 {
        k
    } else {
        0x100_0000
    }
}

proof fn lemma_counted_on(pairs: Scalar, k: int)
    requires
        pairs.finite(),
        k >= 0,
        pairs.units() == counted(k) * crate::scalar::one_units(),
    ensures
        pairs.add(one()).finite(),
        pairs.add(one()).units() == counted(k + 1) * crate::scalar::one_units(),
{
    let unit = crate::scalar::one_units();
    if k < 0x100_0000 {
        lemma_pair_counted(pairs, k);
    } else {
        let full = 0x4b80_0000int;
        crate::order::lemma_power_of_two(0);
        crate::rounding::lemma_p2_values();
        crate::rounding::lemma_p2_pos(149);
        crate::rounding::lemma_p2_step(149);
        crate::rounding::lemma_grid_code(149, 0xff_ffff);
        crate::rounding::lemma_grid_code(149, 0x100_0000);
        crate::rounding::lemma_grid_code(150, 0x80_0001);
        let sum = 0x100_0001 * unit;
        assert(crate::rounding::grid(full) == 0x100_0000 * unit);
        assert(crate::rounding::grid(full - 1) == 0xff_ffff * unit);
        assert(crate::rounding::grid(full + 1) == 0x100_0002 * unit);
        let (down, up) = (0xff_ffff * unit + 0x100_0000 * unit, 0x100_0000 * unit + 0x100_0002 * unit);
        assert(down * 1 == down && up * 1 == up);
        assert(crate::rounding::rounds_to(sum, 1, full));
        crate::rounding::lemma_nearest_unique(sum, 1, full);
    }
}

/// The sums over `k` pairs that are not too close.
spec fn thick(sums: PairSums, k: int) -> bool {
    &&& k >= 0
    &&& sums.pairs.finite()
    &&& sums.pairs.units() == counted(k) * crate::scalar::one_units()
    &&& k == 0 ==> sums.total == zero()
    &&& k > 0 ==> crate::piles::keeps_up(sums.total, k, closest())
}

proof fn lemma_pair_thick(sim: Simulation, sums: PairSums, k: int, a: int, b: int) -> (after: int)
    requires
        sim.radius.finite(),
        (scalar(0x3a83_126f)).le(sim.radius),  // 0.001
        thick(sums, k),
    ensures
        thick(sim.with_pair(sums, a, b), after),
{
    if sim.bonded(a, b) {
        crate::creatures::lemma_preferred_within(sim, a, b);
        lemma_spacing_above(rest_share(sim, a, b), sim.radius);
        lemma_counted_on(sums.pairs, k);
        if k == 0 {
            crate::piles::lemma_first_term(sim.spacing_of_pair(a, b), closest());
        } else {
            crate::piles::lemma_next_term(sums.total, sim.spacing_of_pair(a, b), k, closest());
        }
        k + 1
    } else {
        k
    }
}

proof fn lemma_row_thick(sim: Simulation, types: Seq<u32>, i: int, count: nat, sums: PairSums, k: int) -> (after: int)
    requires
        sim.radius.finite(),
        (scalar(0x3a83_126f)).le(sim.radius),  // 0.001
        thick(sums, k),
    ensures
        thick(sim.row_sums(types, i, count, sums), after),
    decreases count,
{
    if count == 0 {
        k
    } else {
        let before = lemma_row_thick(sim, types, i, (count - 1) as nat, sums, k);
        lemma_pair_thick(
            sim,
            sim.row_sums(types, i, (count - 1) as nat, sums),
            before,
            types[i] as int,
            types[i + count - 1] as int,
        )
    }
}

proof fn lemma_sums_thick(sim: Simulation, types: Seq<u32>, rows: nat) -> (k: int)
    requires
        sim.radius.finite(),
        (scalar(0x3a83_126f)).le(sim.radius),  // 0.001
    ensures
        thick(sim.pair_sums(types, rows), k),
    decreases rows,
{
    if rows == 0 {
        assert(0 * crate::scalar::one_units() == 0);
        0
    } else {
        let before = lemma_sums_thick(sim, types, (rows - 1) as nat);
        lemma_row_thick(
            sim,
            types,
            rows - 1,
            (types.len() - rows + 1) as nat,
            sim.pair_sums(types, (rows - 1) as nat),
            before,
        )
    }
}

/// With a radius from 0.001 on, no body rests closer than 0.0001.
pub proof fn lemma_rest_not_close(sim: Simulation, types: Seq<u32>)
    requires
        sim.radius.finite(),
        (scalar(0x3a83_126f)).le(sim.radius),  // 0.001
        sim.rest_spacing(types).finite(),
    ensures
        (scalar(0x38d1_b717)).le(sim.rest_spacing(types)),  // 0.0001
{
    let unit = crate::scalar::one_units();
    let sums = sim.pair_sums(types, types.len());
    let k = lemma_sums_thick(sim, types, types.len());
    lemma_spacing_above(core_fraction(), sim.radius);
    crate::order::lemma_order_of_values(zero(), sums.pairs);
    if zero().lt(sums.pairs) {
        assert(k > 0) by {
            if k == 0 {
                assert(0 * unit == 0);
            }
        }
        assert(sums.total.finite());
        crate::piles::lemma_kept_up(sums.total, k, closest());
        lemma_mean_not_close(sums.total, sums.pairs, k);
    }
}

proof fn lemma_mean_not_close(total: Scalar, pairs: Scalar, k: int)
    requires
        k > 0,
        total.finite(),
        pairs.finite(),
        pairs.units() == counted(k) * crate::scalar::one_units(),
        closest().units() == 11 * crate::rounding::p2(133),
        0x80_0000 * (2 * (k * closest().units())) <= 0x180_0001 * total.units() || 0x100_0000 * closest().units()
            <= total.units(),
    ensures
        (scalar(0x38d1_b717)).le(total.div(pairs)),  // 0.0001
{
    let unit = crate::scalar::one_units();
    let least = scalar(0x38e0_0000);  // 0.0001068115234375
    let p = crate::rounding::p2(133);
    let (t, n) = (total.units(), counted(k));
    crate::rounding::lemma_p2_pos(149);
    crate::rounding::lemma_p2_pos(133);
    vstd::arithmetic::power2::lemma2_to64();
    lemma_few_digits(least, 7, 21, 112);
    assert(least.units() == 7 * p);
    let (kp, np) = (k * p, n * p);
    assert(k * (11 * p) == 11 * kp) by (nonlinear_arith)
        requires
            kp == k * p,
    ;
    assert(0 < np <= kp && np <= 0x100_0000 * p) by (nonlinear_arith)
        requires
            np == n * p,
            kp == k * p,
            0 < n <= k,
            n <= 0x100_0000,
            p > 0,
    ;
    assert(7 * np <= t);
    assert(n * unit > 0) by (nonlinear_arith)
        requires
            n > 0,
            unit > 0,
    ;
    assert((7 * p) * (n * unit) <= t * unit) by (nonlinear_arith)
        requires
            7 * (n * p) <= t,
            unit > 0,
    ;
    crate::order::lemma_quotient_bounds(total, pairs, least);
}

/// The templates that a world has.
pub open spec fn templates_of(templates: Seq<CreatureTemplate>, sim: Simulation) -> bool {
    &&& templates.len() == sim.bodies(sim.types as nat).len()
    &&& forall|i: int|
        0 <= i < templates.len() ==> (#[trigger] templates[i]).describes(sim, sim.bodies(sim.types as nat)[i])
}

/// Templates scale with the radius: doubling it, from 0.001 on, leaves their number,
/// their types and the least particles of each type as they are, and doubles all
/// spacings and body radii, as far as those stay finite.
pub proof fn lemma_templates_scale(
    sim: Simulation,
    wide: Simulation,
    templates: Seq<CreatureTemplate>,
    doubled: Seq<CreatureTemplate>,
)
    requires
        same_bonds(sim, wide),
        (scalar(0x3a83_126f)).le(sim.radius),  // 0.001
        wide.radius == sim.radius.mul(two()),
        wide.radius.finite(),
        templates_of(templates, sim),
        templates_of(doubled, wide),
        forall|i: int| 0 <= i < doubled.len() ==> (#[trigger] doubled[i]).spacing.finite(),
    ensures
        doubled.len() == templates.len(),
        forall|i: int|
            #![trigger templates[i]]
            #![trigger doubled[i]]
            0 <= i < templates.len() ==> {
                &&& doubled[i].types@ == templates[i].types@
                &&& doubled[i].min_per_type == templates[i].min_per_type
                &&& crate::doubling::twice(templates[i].spacing, doubled[i].spacing)
                &&& crate::doubling::twice(templates[i].expected_radius, doubled[i].expected_radius)
            },
{
    lemma_radius_doubled(sim.radius);
    lemma_bodies_without_scale(sim, wide, sim.types as nat);
    let bodies = sim.bodies(sim.types as nat);
    assert forall|i: int|
        #![trigger templates[i]]
        #![trigger doubled[i]]
        0 <= i < templates.len() implies {
        &&& doubled[i].types@ == templates[i].types@
        &&& doubled[i].min_per_type == templates[i].min_per_type
        &&& crate::doubling::twice(templates[i].spacing, doubled[i].spacing)
        &&& crate::doubling::twice(templates[i].expected_radius, doubled[i].expected_radius)
    } by {
        assert(templates[i].describes(sim, bodies[i]));
        assert(doubled[i].describes(wide, bodies[i]));
        assert(doubled[i].spacing.finite());
        lemma_rest_finite(sim, wide, bodies[i]);
        lemma_rest_not_close(sim, bodies[i]);
        lemma_threshold_without_scale(sim, wide, bodies[i]);
    }
}

proof fn lemma_radius_doubled(radius: Scalar)
    requires
        (scalar(0x3a83_126f)).le(radius),  // 0.001
        radius.mul(two()).finite(),
    ensures
        radius.finite(),
        crate::doubling::twice(radius, radius.mul(two())),
        (scalar(0x38d1_b717)).le(radius),  // 0.0001
{
    let unit = crate::scalar::one_units();
    assert(radius.finite());
    crate::rounding::lemma_p2_values();
    crate::rounding::lemma_p2_pos(149);
    crate::order::lemma_power_of_two(1);
    crate::scalar::lemma_self_rounding(radius);
    let code = radius.magnitude();
    crate::doubling::lemma_octave(code);
    let n = radius.size();
    assert(n * (2 * unit) == (2 * n) * unit) by (nonlinear_arith);
    if code + OCTAVE <= crate::rounding::INFINITE {
        crate::rounding::lemma_grid_exact(code + OCTAVE, unit);
    } else {
        let full = crate::rounding::INFINITE as int;
        crate::rounding::lemma_grid_monotone(full, code + OCTAVE);
        assert((2 * n) * unit >= crate::rounding::grid(full) * unit) by (nonlinear_arith)
            requires
                2 * n >= crate::rounding::grid(full),
                unit > 0,
        ;
        assert((2 * n) * unit >= 0) by (nonlinear_arith)
            requires
                n >= 0,
                unit > 0,
        ;
        crate::order::lemma_nearest_bounds((2 * n) * unit, unit, full);
    }
}

/// Where the doubled spacing is finite, so is the single one.
proof fn lemma_rest_finite(sim: Simulation, wide: Simulation, types: Seq<u32>)
    requires
        same_bonds(sim, wide),
        crate::doubling::twice(sim.radius, wide.radius),
        (scalar(0x38d1_b717)).le(sim.radius),  // 0.0001
        (scalar(0x3a83_126f)).le(sim.radius),  // 0.001
        wide.rest_spacing(types).finite(),
    ensures
        sim.rest_spacing(types).finite(),
{
    let (s, w) = (sim.pair_sums(types, types.len()), wide.pair_sums(types, types.len()));
    lemma_doubled_sums(sim, wide, types, types.len());
    let k = lemma_sums_thick(sim, types, types.len());
    if zero().lt(s.pairs) {
        crate::order::lemma_order_of_values(zero(), s.pairs);
        assert(w.total != Scalar::signed_infinity(false));
        lemma_quotient_halved(s.total, w.total, s.pairs);
    } else {
        lemma_spacing_above(core_fraction(), sim.radius);
    }
}

proof fn lemma_quotient_halved(t: Scalar, w: Scalar, n: Scalar)
    requires
        crate::doubling::twice(t, w),
        t.units() >= 0,
        n.finite(),
        n.units() > 0,
        w.div(n).finite(),
    ensures
        t.div(n).finite(),
{
    crate::rounding::lemma_p2_pos(149);
    crate::order::lemma_order_of_values(t, w);
    crate::order::lemma_quotient_monotone(t, w, n);
    crate::order::lemma_quotient_bounds(t, n, zero());
    assert(t.units() * crate::scalar::one_units() >= 0 * n.units()) by (nonlinear_arith)
        requires
            t.units() >= 0,
            crate::scalar::one_units() > 0,
    ;
}

/// A world whose rest spacings are averaged without the rounding of the sums
/// adding up to more than the radius leaves room for.
pub open spec fn averages_well(sim: Simulation) -> bool {
    &&& sim.radius.finite()
    &&& zero().le(sim.radius)
    &&& sim.types <= 2640
}

/// Adding a term to a sum of `k` terms keeps it in proportion: what the terms fall
/// short of `high` ten-thousandths of `r` makes up for the rounding.
proof fn lemma_proportion(s: Scalar, x: Scalar, k: int, r: int, low: int, high: int)
    requires
        s.finite(),
        x.finite(),
        s.units() >= 0,
        x.units() >= 0,
        k >= 0,
        r >= 0,
        10_000 * s.units() <= high * (k * r),
        10_000 * x.units() <= low * r,
        high * (k + 1) <= 0x100_0000 * (high - low),
        0 <= low <= high,
    ensures
        s.add(x) == Scalar::signed_infinity(false) || s.add(x).finite() && s.add(x).units() >= 0 && 10_000 * s.add(
            x,
        ).units() <= high * ((k + 1) * r),
{
    let n = s.add(x);
    crate::order::lemma_sum_bounds(s, x, zero());
    crate::order::lemma_order_of_values(zero(), n);
    if n.finite() {
        crate::order::lemma_sum_error(s, x);
        let exact = s.units() + x.units();
        let (kr, most) = (k * r, high * ((k + 1) * r));
        assert(most == high * kr + high * r) by (nonlinear_arith)
            requires
                most == high * ((k + 1) * r),
                kr == k * r,
        ;
        let spare = (high - low) * r;
        assert(spare == high * r - low * r) by (nonlinear_arith)
            requires
                spare == (high - low) * r,
        ;
        assert(most <= 0x100_0000 * spare) by (nonlinear_arith)
            requires
                most == high * ((k + 1) * r),
                spare == (high - low) * r,
                high * (k + 1) <= 0x100_0000 * (high - low),
                r >= 0,
        ;
        assert(low * r <= high * r) by (nonlinear_arith)
            requires
                low <= high,
                r >= 0,
        ;
        assert(10_000 * exact <= most - spare);
        assert(0x100_0000 * n.units() <= 0x100_0001 * exact);
    }
}

/// Small sums are exact.
proof fn lemma_small_sum(s: Scalar, x: Scalar)
    requires
        s.finite(),
        x.finite(),
        s.units() >= 0,
        x.units() >= 0,
        s.units() + x.units() <= 2 * OCTAVE,
    ensures
        s.add(x).finite(),
        s.add(x).units() == s.units() + x.units(),
{
    let n = s.units() + x.units();
    crate::rounding::lemma_p2_values();
    vstd::arithmetic::power2::lemma2_to64();
    assert(n * 1 == n);
    crate::order::lemma_sum_exact(s, x, n, 0);
}

/// How far a share of the radius can be from the radius.
proof fn lemma_share_of_radius(d: Scalar, radius: Scalar)
    requires
        d.finite(),
        0 <= d.units() <= scalar(0x3f73_3333).units(),  // 0.95
        radius.finite(),
        zero().le(radius),
    ensures
        d.mul(radius).finite(),
        0 <= d.mul(radius).units() <= radius.units(),
        0 < radius.units() < 4096 ==> 20 * d.mul(radius).units() < 19 * radius.units() + 10,
        radius.units() >= 4096 ==> 10_000 * d.mul(radius).units() <= 9997 * radius.units(),
{
    let unit = crate::scalar::one_units();
    let place = crate::rounding::p2(125);
    crate::rounding::lemma_p2_values();
    crate::rounding::lemma_p2_pos(125);
    crate::rounding::lemma_p2_adds(24, 125);
    crate::rounding::lemma_grid_code(125, 0xf3_3333);
    assert(scalar(0x3f73_3333).units() == 0xf3_3333 * place && unit == 0x100_0000 * place);  // 0.95
    crate::order::lemma_order_of_values(zero(), radius);
    let (u, r) = (d.units(), radius.units());
    assert(0 <= u * r <= r * unit && 0 * unit == 0) by (nonlinear_arith)
        requires
            0 <= u <= unit,
            0 <= r,
    ;
    crate::order::lemma_product_bounds(d, radius, zero());
    crate::order::lemma_product_bounds(d, radius, radius);
    let product = d.mul(radius);
    crate::order::lemma_order_of_values(zero(), product);
    crate::order::lemma_order_of_values(product, radius);
    crate::order::lemma_product_error(d, radius);
    let p = product.units();
    let exact = 0xf3_3333 * r;
    assert(u * r <= exact * place) by (nonlinear_arith)
        requires
            u <= 0xf3_3333 * place,
            r >= 0,
            exact == 0xf3_3333 * r,
    ;
    assert(p * unit == (0x100_0000 * p) * place) by (nonlinear_arith)
        requires
            unit == 0x100_0000 * place,
    ;
    let q = (0x100_0000 * p) * place;
    if 0x100_0000 * crate::order::gap(p * unit, u * r) <= u * r {
        assert(0x100_0000 * q <= 0x100_0001 * (exact * place));
        assert(0x100_0000 * (0x100_0000 * p) <= 0x100_0001 * exact) by (nonlinear_arith)
            requires
                0x100_0000 * ((0x100_0000 * p) * place) <= 0x100_0001 * (exact * place),
                place > 0,
        ;
    } else {
        assert(2 * q <= 2 * (exact * place) + 0x100_0000 * place);
        assert(2 * (0x100_0000 * p) <= 2 * exact + 0x100_0000) by (nonlinear_arith)
            requires
                2 * ((0x100_0000 * p) * place) <= 2 * (exact * place) + 0x100_0000 * place,
                place > 0,
        ;
    }
}

/// What `k` rest separations add up to.
spec fn fits(sums: PairSums, k: int, r: int) -> bool {
    &&& k >= 0
    &&& sums.pairs.finite()
    &&& sums.pairs.units() == k * crate::scalar::one_units()
    &&& sums.total == Scalar::signed_infinity(false) || sums.total.finite() && sums.total.units() >= 0 && if r < 4096 {
        k > 0 ==> 2 * sums.total.units() < k * (2 * r + 1)
    } else {
        10_000 * sums.total.units() <= 9995 * (k * r)
    }
}

/// A rest spacing, in proportion to the radius.
spec fn modest(rest: Scalar, r: int) -> bool {
    rest == Scalar::signed_infinity(false) || rest.finite() && 0 <= rest.units() <= r && (r >= 4096 ==> 10_000
        * rest.units() <= 9997 * r)
}

proof fn lemma_mean_modest(total: Scalar, pairs: Scalar, k: int, radius: Scalar)
    requires
        fits((PairSums { total, pairs }), k, radius.units()),
        k > 0,
        radius.finite(),
        zero().le(radius),
    ensures
        modest(total.div(pairs), radius.units()),
{
    let unit = crate::scalar::one_units();
    let r = radius.units();
    crate::rounding::lemma_p2_pos(149);
    crate::order::lemma_order_of_values(zero(), radius);
    assert(k * unit > 0) by (nonlinear_arith)
        requires
            k > 0,
            unit > 0,
    ;
    if total.finite() {
        if r < 4096 {
            lemma_small_mean(total, pairs, k, radius);
        } else {
            lemma_large_mean(total, pairs, k, radius);
        }
    }
}

/// Among the smallest numbers, a mean that is less than half a step above the
/// radius is rounded to it or below.
proof fn lemma_small_mean(total: Scalar, pairs: Scalar, k: int, radius: Scalar)
    requires
        total.finite(),
        total.units() >= 0,
        pairs.finite(),
        pairs.units() == k * crate::scalar::one_units(),
        k > 0,
        radius.finite(),
        0 <= radius.units() < 4096,
        2 * total.units() < k * (2 * radius.units() + 1),
    ensures
        total.div(pairs).finite(),
        0 <= total.div(pairs).units() <= radius.units(),
{
    let unit = crate::scalar::one_units();
    let (t, n, r) = (total.units(), pairs.units(), radius.units());
    crate::rounding::lemma_p2_pos(149);
    crate::scalar::lemma_self_rounding(total);
    crate::scalar::lemma_self_rounding(pairs);
    assert(n > 0) by (nonlinear_arith)
        requires
            n == k * unit,
            k > 0,
            unit > 0,
    ;
    if !total.zero() {
        let num = t * unit;
        assert(num >= 0) by (nonlinear_arith)
            requires
                num == t * unit,
                t >= 0,
                unit > 0,
        ;
        assert(2 * num < (2 * r + 1) * n) by (nonlinear_arith)
            requires
                num == t * unit,
                n == k * unit,
                2 * t < k * (2 * r + 1),
                unit > 0,
        ;
        let code = crate::rounding::nearest(num, n);
        crate::rounding::lemma_nearest_exists(num, n);
        crate::rounding::lemma_grid_monotone(0, code);
        if code > r {
            crate::rounding::lemma_grid_monotone(r, code - 1);
            crate::rounding::lemma_grid_monotone(r + 1, code);
            let middle = crate::rounding::grid(code - 1) + crate::rounding::grid(code);
            assert((2 * r + 1) * n <= middle * n) by (nonlinear_arith)
                requires
                    2 * r + 1 <= middle,
                    n > 0,
            ;
        }
    }
}

proof fn lemma_large_mean(total: Scalar, pairs: Scalar, k: int, radius: Scalar)
    requires
        total.finite(),
        total.units() >= 0,
        pairs.finite(),
        pairs.units() == k * crate::scalar::one_units(),
        k > 0,
        radius.finite(),
        radius.units() >= 4096,
        10_000 * total.units() <= 9995 * (k * radius.units()),
    ensures
        total.div(pairs).finite(),
        0 <= total.div(pairs).units() <= radius.units(),
        10_000 * total.div(pairs).units() <= 9997 * radius.units(),
{
    let unit = crate::scalar::one_units();
    let (t, n, r) = (total.units(), pairs.units(), radius.units());
    let kr = k * r;
    crate::rounding::lemma_p2_pos(149);
    assert(kr > 0 && k * unit > 0) by (nonlinear_arith)
        requires
            kr == k * r,
            k > 0,
            r > 0,
            unit > 0,
    ;
    assert(0 * n <= t * unit <= r * n) by (nonlinear_arith)
        requires
            0 <= t <= k * r,
            n == k * unit,
            unit > 0,
    ;
    crate::order::lemma_quotient_bounds(total, pairs, radius);
    crate::order::lemma_quotient_bounds(total, pairs, zero());
    let rest = total.div(pairs);
    crate::order::lemma_order_of_values(zero(), rest);
    crate::order::lemma_order_of_values(rest, radius);
    crate::order::lemma_quotient_error(total, pairs);
    let q = rest.units();
    let qk = q * k;
    assert(q * n == qk * unit) by (nonlinear_arith)
        requires
            n == k * unit,
            qk == q * k,
    ;
    if 0x100_0000 * crate::order::gap(q * n, t * unit) <= crate::order::gap(t * unit, 0) {
        assert(0x100_0000 * qk <= 0x100_0001 * t) by (nonlinear_arith)
            requires
                0x100_0000 * (qk * unit) <= 0x100_0001 * (t * unit),
                unit > 0,
        ;
        assert(10_000 * q <= 9997 * r) by (nonlinear_arith)
            requires
                0x100_0000 * (q * k) <= 0x100_0001 * t,
                10_000 * t <= 9995 * (k * r),
                k > 0,
                r >= 0,
        ;
    } else {
        assert(2 * qk <= 2 * t + k) by (nonlinear_arith)
            requires
                2 * (qk * unit) <= 2 * (t * unit) + k * unit,
                unit > 0,
        ;
        assert(10_000 * q <= 9995 * r + 5000) by (nonlinear_arith)
            requires
                2 * (q * k) <= 2 * t + k,
                10_000 * t <= 9995 * (k * r),
                k > 0,
        ;
    }
}

/// The largest rest separation of a pair.
spec fn widest(radius: Scalar) -> Scalar {
    scalar(0x3f73_3333).mul(radius)  // 0.95
}

proof fn lemma_widest(radius: Scalar)
    requires
        zero().lt(radius),
        radius.le(scalar(0x7180_0000)),  // 1267650600228229401496703205376.0
    ensures
        zero().lt(widest(radius)),
        widest(radius).le(scalar(0x7180_0000)),  // 1267650600228229401496703205376.0
{
    let unit = crate::scalar::one_units();
    let place = crate::rounding::p2(125);
    let share = scalar(0x3f73_3333);  // 0.95
    let (least, high) = (scalar(1), scalar(0x7180_0000));  // 1267650600228229401496703205376.0
    crate::rounding::lemma_p2_values();
    crate::rounding::lemma_p2_pos(125);
    crate::rounding::lemma_p2_pos(149);
    crate::rounding::lemma_p2_adds(24, 125);
    crate::rounding::lemma_grid_code(125, 0xf3_3333);
    assert(share.units() == 0xf3_3333 * place && unit == 0x100_0000 * place);
    crate::order::lemma_order_of_values(radius, high);
    crate::order::lemma_order_of_values(zero(), radius);
    lemma_share_of_radius(share, radius);
    let product = widest(radius);
    crate::order::lemma_order_of_values(product, high);
    crate::order::lemma_product_error(share, radius);
    let (u, r, p) = (share.units(), radius.units(), product.units());
    if p == 0 {
        assert(2 * (u * r) > unit && u * r > 0 && 0 * unit == 0) by (nonlinear_arith)
            requires
                u == 0xf3_3333 * place,
                unit == 0x100_0000 * place,
                r >= 1,
                place > 0,
        ;
    }
    crate::order::lemma_order_of_values(zero(), product);
}

/// The largest rest separation is 0.95 of the radius, rounded.
proof fn lemma_tight_share(radius: Scalar)
    requires
        radius.finite(),
        radius.units() >= 4096,
        widest(radius).finite(),
        widest(radius).units() >= 0,
    ensures
        10_000_000 * widest(radius).units() <= 9_501_221 * radius.units(),
{
    let unit = crate::scalar::one_units();
    let place = crate::rounding::p2(125);
    let share = scalar(0x3f73_3333);  // 0.95
    crate::rounding::lemma_p2_values();
    crate::rounding::lemma_p2_pos(125);
    crate::rounding::lemma_p2_adds(24, 125);
    crate::rounding::lemma_grid_code(125, 0xf3_3333);
    assert(share.units() == 0xf3_3333 * place && unit == 0x100_0000 * place);
    crate::order::lemma_product_error(share, radius);
    let (u, r, p) = (share.units(), radius.units(), widest(radius).units());
    let exact = 0xf3_3333 * r;
    let all = 0x100_0000 * p;
    assert(u * r == exact * place) by (nonlinear_arith)
        requires
            u == 0xf3_3333 * place,
            exact == 0xf3_3333 * r,
    ;
    assert(p * unit == all * place) by (nonlinear_arith)
        requires
            unit == 0x100_0000 * place,
            all == 0x100_0000 * p,
    ;
    assert(exact * place >= 0) by (nonlinear_arith)
        requires
            exact >= 0,
            place > 0,
    ;
    if 0x100_0000 * crate::order::gap(p * unit, u * r) <= u * r {
        assert(0x100_0000 * all <= 0x100_0001 * exact) by (nonlinear_arith)
            requires
                0x100_0000 * (all * place) <= 0x100_0001 * (exact * place),
                place > 0,
        ;
    } else {
        assert(2 * all <= 2 * exact + 0x100_0000) by (nonlinear_arith)
            requires
                2 * (all * place) <= 2 * (exact * place) + 0x100_0000 * place,
                place > 0,
        ;
    }
}

/// The sums over `k` pairs are no more than `k` of the largest separation make.
spec fn piled(sums: PairSums, k: nat, cap: Scalar) -> bool {
    &&& k <= 3_486_120
    &&& sums.pairs.finite()
    &&& sums.pairs.units() == k * crate::scalar::one_units()
    &&& sums.total.finite()
    &&& 0 <= sums.total.units() <= crate::piles::pile(cap, k).units()
}

proof fn lemma_pile_grows(cap: Scalar, k: nat)
    requires
        zero().lt(cap),
        cap.le(scalar(0x7180_0000)),  // 1267650600228229401496703205376.0
        k <= 3_486_120,
    ensures
        crate::piles::pile(cap, k).finite(),
        cap.finite(),
{
    if k > 0 {
        crate::piles::lemma_pile_ahead(cap, k);
    }
}

proof fn lemma_pair_piled(sim: Simulation, sums: PairSums, k: nat, a: int, b: int) -> (after: nat)
    requires
        zero().lt(sim.radius),
        sim.radius.le(scalar(0x7180_0000)),  // 1267650600228229401496703205376.0
        piled(sums, k, widest(sim.radius)),
        k < 3_486_120,
    ensures
        piled(sim.with_pair(sums, a, b), after, widest(sim.radius)),
        k <= after <= k + 1,
{
    let cap = widest(sim.radius);
    if sim.bonded(a, b) {
        lemma_widest(sim.radius);
        lemma_spacing_below(sim, a, b);
        lemma_pile_grows(cap, k);
        lemma_pile_grows(cap, k + 1);
        lemma_added(sums.total, sim.spacing_of_pair(a, b), crate::piles::pile(cap, k), cap);
        lemma_pair_counted(sums.pairs, k as int);
        k + 1
    } else {
        k
    }
}

/// No pair rests farther apart than the widest.
proof fn lemma_spacing_below(sim: Simulation, a: int, b: int)
    requires
        zero().lt(sim.radius),
        sim.radius.finite(),
    ensures
        sim.spacing_of_pair(a, b).finite(),
        sim.spacing_of_pair(a, b).units() >= 0,
        sim.spacing_of_pair(a, b).le(widest(sim.radius)),
{
    let d = rest_share(sim, a, b);
    lemma_rest_share(sim, a, b);
    crate::rounding::lemma_p2_pos(149);
    crate::order::lemma_order_of_values(zero(), sim.radius);
    lemma_share_of_radius(d, sim.radius);
    crate::order::lemma_order_of_values(d, scalar(0x3f73_3333));  // 0.95
    crate::order::lemma_product_monotone(d, scalar(0x3f73_3333), sim.radius);  // 0.95
}

pub(crate) proof fn lemma_pair_counted(pairs: Scalar, k: int)
    requires
        pairs.finite(),
        0 <= k < 0x100_0000,
        pairs.units() == k * crate::scalar::one_units(),
    ensures
        pairs.add(one()).finite(),
        pairs.add(one()).units() == (k + 1) * crate::scalar::one_units(),
{
    let unit = crate::scalar::one_units();
    crate::order::lemma_power_of_two(0);
    crate::rounding::lemma_p2_values();
    assert((k + 1) * unit == k * unit + unit) by (nonlinear_arith);
    crate::order::lemma_sum_exact(pairs, one(), k + 1, 149);
}

/// Smaller terms make a smaller sum.
proof fn lemma_added(s: Scalar, x: Scalar, t: Scalar, y: Scalar)
    requires
        s.finite(),
        x.finite(),
        t.finite(),
        y.finite(),
        s.units() <= t.units(),
        x.le(y),
        s.units() >= 0,
        x.units() >= 0,
        t.add(y).finite(),
    ensures
        s.add(x).finite(),
        0 <= s.add(x).units() <= t.add(y).units(),
{
    crate::order::lemma_order_of_values(s, t);
    crate::order::lemma_sum_monotone(x, y, s);
    crate::order::lemma_add_commutes(x, s);
    crate::order::lemma_add_commutes(y, s);
    crate::order::lemma_sum_monotone(s, t, y);
    crate::order::lemma_sum_bounds(s, x, zero());
    crate::order::lemma_order_of_values(zero(), s.add(x));
    crate::order::lemma_order_of_values(s.add(x), t.add(y));
}

proof fn lemma_row_piled(sim: Simulation, types: Seq<u32>, i: int, count: nat, sums: PairSums, k: nat) -> (after: nat)
    requires
        zero().lt(sim.radius),
        sim.radius.le(scalar(0x7180_0000)),  // 1267650600228229401496703205376.0
        piled(sums, k, widest(sim.radius)),
        k + count <= 3_486_120,
    ensures
        piled(sim.row_sums(types, i, count, sums), after, widest(sim.radius)),
        k <= after <= k + count,
    decreases count,
{
    if count == 0 {
        k
    } else {
        let before = lemma_row_piled(sim, types, i, (count - 1) as nat, sums, k);
        lemma_pair_piled(
            sim,
            sim.row_sums(types, i, (count - 1) as nat, sums),
            before,
            types[i] as int,
            types[i + count - 1] as int,
        )
    }
}

proof fn lemma_sums_piled(sim: Simulation, types: Seq<u32>, rows: nat) -> (k: nat)
    requires
        rows <= types.len() <= 2640,
        zero().lt(sim.radius),
        sim.radius.le(scalar(0x7180_0000)),  // 1267650600228229401496703205376.0
    ensures
        piled(sim.pair_sums(types, rows), k, widest(sim.radius)),
        2 * k <= rows * (2 * types.len() - rows + 1),
    decreases rows,
{
    let len = types.len() as int;
    if rows == 0 {
        assert(0 * crate::scalar::one_units() == 0);
        0
    } else {
        let before = lemma_sums_piled(sim, types, (rows - 1) as nat);
        let n = rows as int;
        assert((n - 1) * (2 * len - (n - 1) + 1) + 2 * (len - n + 1) == n * (2 * len - n + 1)) by (nonlinear_arith);
        assert(n * (2 * len - n + 1) <= 2640 * 2641) by (nonlinear_arith)
            requires
                0 <= n <= len <= 2640,
        ;
        lemma_row_piled(
            sim,
            types,
            rows - 1,
            (types.len() - rows + 1) as nat,
            sim.pair_sums(types, (rows - 1) as nat),
            before,
        )
    }
}

/// What is piled up so fits.
proof fn lemma_piled_fits(sums: PairSums, k: nat, radius: Scalar)
    requires
        zero().lt(radius),
        radius.le(scalar(0x7180_0000)),  // 1267650600228229401496703205376.0
        piled(sums, k, widest(radius)),
    ensures
        fits(sums, k as int, radius.units()),
{
    let cap = widest(radius);
    let (v, r) = (cap.units(), radius.units());
    lemma_widest(radius);
    crate::order::lemma_order_of_values(zero(), radius);
    crate::order::lemma_order_of_values(zero(), cap);
    if k == 0 {
        assert(k * crate::scalar::one_units() == 0 && k * r == 0) by (nonlinear_arith)
            requires
                k == 0,
        ;
        assert(crate::piles::pile(cap, 0) == zero());
    } else {
        crate::piles::lemma_pile_ahead(cap, k);
        let kv = k * v;
        assert(kv * (0x400_0000 + k) <= kv * 70_594_984) by (nonlinear_arith)
            requires
                kv == k * v,
                0 < k <= 3_486_120,
                v > 0,
        ;
        if r >= 4096 {
            lemma_tight_share(radius);
            assert(10_000_000 * kv <= 9_501_221 * (k * r)) by (nonlinear_arith)
                requires
                    10_000_000 * v <= 9_501_221 * r,
                    kv == k * v,
                    k > 0,
            ;
            assert(k * r >= 0) by (nonlinear_arith)
                requires
                    r >= 0,
            ;
        } else {
            lemma_share_range(scalar(0x3f73_3333));  // 0.95
            crate::rounding::lemma_p2_pos(149);
            lemma_share_of_radius(scalar(0x3f73_3333), radius);  // 0.95
            assert(20 * kv <= 19 * (k * r) + 9 * k) by (nonlinear_arith)
                requires
                    20 * v <= 19 * r + 9,
                    kv == k * v,
                    k > 0,
            ;
            assert(k * (2 * r + 1) == 2 * (k * r) + k) by (nonlinear_arith);
        }
    }
}

/// The sums of a body of up to 2640 types fit, whatever the radius, as far as they
/// stay finite: those of a large radius are those of its half, doubled.
proof fn lemma_sums_fit(sim: Simulation, types: Seq<u32>) -> (k: int)
    requires
        sim.radius.finite(),
        zero().lt(sim.radius),
        types.len() <= 2640,
    ensures
        fits(sim.pair_sums(types, types.len()), k, sim.radius.units()),
    decreases sim.radius.bits,
{
    let high = scalar(0x7180_0000);  // 1267650600228229401496703205376.0
    let sums = sim.pair_sums(types, types.len());
    if sim.radius.le(high) {
        let k = lemma_sums_piled(sim, types, types.len());
        lemma_piled_fits(sums, k, sim.radius);
        k as int
    } else {
        let near = Simulation { radius: Scalar { bits: (sim.radius.bits - OCTAVE) as u32 }, ..sim };
        let closer = near.pair_sums(types, types.len());
        assert(sim.radius.magnitude() == near.radius.magnitude() + OCTAVE);
        crate::doubling::lemma_octave(near.radius.magnitude());
        assert(crate::doubling::twice(near.radius, sim.radius));
        assert(zero().lt(near.radius) && (scalar(0x38d1_b717)).le(near.radius));  // 0.0001
        let k = lemma_sums_fit(near, types);
        lemma_doubled_sums(near, sim, types, types.len());
        let (t, r) = (closer.total.units(), near.radius.units());
        assert(k * (2 * r) == 2 * (k * r)) by (nonlinear_arith);
        crate::rounding::lemma_p2_values();
        assert(r >= 4096) by {
            crate::order::lemma_order_of_values(scalar(0x1000), near.radius);
        }
        k
    }
}

/// Without a radius there is no spacing.
proof fn lemma_no_radius(sim: Simulation, types: Seq<u32>, rows: nat)
    requires
        sim.radius.finite(),
        sim.radius.units() == 0,
    ensures
        sim.pair_sums(types, rows).total.finite(),
        sim.pair_sums(types, rows).total.units() == 0,
    decreases rows,
{
    if rows > 0 {
        lemma_no_radius(sim, types, (rows - 1) as nat);
        lemma_no_row(
            sim,
            types,
            rows - 1,
            (types.len() - rows + 1) as nat,
            sim.pair_sums(types, (rows - 1) as nat),
        );
    }
}

proof fn lemma_no_row(sim: Simulation, types: Seq<u32>, i: int, count: nat, sums: PairSums)
    requires
        sim.radius.finite(),
        sim.radius.units() == 0,
        sums.total.finite(),
        sums.total.units() == 0,
    ensures
        sim.row_sums(types, i, count, sums).total.finite(),
        sim.row_sums(types, i, count, sums).total.units() == 0,
    decreases count,
{
    if count > 0 {
        let before = sim.row_sums(types, i, (count - 1) as nat, sums);
        let (a, b) = (types[i] as int, types[i + count - 1] as int);
        lemma_no_row(sim, types, i, (count - 1) as nat, sums);
        lemma_rest_share(sim, a, b);
        crate::rounding::lemma_p2_pos(149);
        crate::order::lemma_order_of_values(zero(), sim.radius);
        lemma_share_of_radius(rest_share(sim, a, b), sim.radius);
        lemma_small_sum(before.total, sim.spacing_of_pair(a, b));
    }
}

proof fn lemma_rest_modest(sim: Simulation, types: Seq<u32>)
    requires
        averages_well(sim),
        types.len() <= sim.types,
    ensures
        modest(sim.rest_spacing(types), sim.radius.units()),
{
    crate::order::lemma_order_of_values(zero(), sim.radius);
    if zero().lt(sim.radius) {
        let k = lemma_sums_fit(sim, types);
        lemma_rest_of_fitting(sim, types, k);
    } else {
        lemma_rest_of_nothing(sim, types);
    }
}

proof fn lemma_rest_of_nothing(sim: Simulation, types: Seq<u32>)
    requires
        sim.radius.finite(),
        sim.radius.units() == 0,
    ensures
        modest(sim.rest_spacing(types), 0),
{
    let sums = sim.pair_sums(types, types.len());
    crate::rounding::lemma_p2_pos(149);
    crate::order::lemma_order_of_values(zero(), sim.radius);
    lemma_no_radius(sim, types, types.len());
    lemma_share_range(core_fraction());
    lemma_share_of_radius(core_fraction(), sim.radius);
    crate::scalar::lemma_self_rounding(sums.total);
    if zero().lt(sums.pairs) {
        crate::rounding::lemma_grid_monotone(0, sums.total.magnitude());
        if sums.total.magnitude() > 0 {
            crate::rounding::lemma_grid_monotone(1, sums.total.magnitude());
        }
        assert(sums.total.zero());
        assert(sums.total.div(sums.pairs).zero());
    }
}

proof fn lemma_rest_of_fitting(sim: Simulation, types: Seq<u32>, k: int)
    requires
        sim.radius.finite(),
        zero().le(sim.radius),
        fits(sim.pair_sums(types, types.len()), k, sim.radius.units()),
    ensures
        modest(sim.rest_spacing(types), sim.radius.units()),
{
    let sums = sim.pair_sums(types, types.len());
    crate::order::lemma_order_of_values(zero(), sums.pairs);
    if zero().lt(sums.pairs) {
        assert(k > 0) by (nonlinear_arith)
            requires
                k * crate::scalar::one_units() > 0,
                k >= 0,
        ;
        lemma_mean_modest(sums.total, sums.pairs, k, sim.radius);
    } else {
        lemma_share_range(core_fraction());
        crate::rounding::lemma_p2_pos(149);
        lemma_share_of_radius(core_fraction(), sim.radius);
    }
}

/// What the first `count` rest spacings add up to.
spec fn gathered(sum: Scalar, count: int, r: int) -> bool {
    sum == Scalar::signed_infinity(false) || sum.finite() && 0 <= sum.units() <= count * r
}

proof fn lemma_gathered_next(sum: Scalar, rest: Scalar, k: int, r: int)
    requires
        gathered(sum, k, r),
        modest(rest, r),
        0 <= k < 2640,
        r >= 0,
    ensures
        gathered(sum.add(rest), k + 1, r),
{
    assert((k + 1) * r == k * r + r) by (nonlinear_arith);
    if sum.finite() && rest.finite() {
        if r < 4096 {
            assert(k * r <= 2640 * 4096) by (nonlinear_arith)
                requires
                    0 <= k <= 2640,
                    0 <= r < 4096,
            ;
            lemma_small_sum(sum, rest);
        } else {
            lemma_proportion(sum, rest, k, r, 9997, 10_000);
        }
    }
}

proof fn lemma_spacings_gathered(sim: Simulation, count: nat)
    requires
        averages_well(sim),
        count <= sim.bodies(sim.types as nat).len(),
    ensures
        gathered(sim.spacing_sum(count), count as int, sim.radius.units()),
    decreases count,
{
    let r = sim.radius.units();
    crate::order::lemma_order_of_values(zero(), sim.radius);
    if count == 0 {
        assert(0 * r == 0);
    } else {
        let k = count - 1;
        let body = sim.bodies(sim.types as nat)[k];
        let (sum, rest) = (sim.spacing_sum(k as nat), sim.rest_spacing(body));
        lemma_spacings_gathered(sim, k as nat);
        crate::creatures::lemma_bodies_fit(sim, sim.types as nat, k);
        crate::creatures::lemma_bodies_few(sim, sim.types as nat);
        lemma_rest_modest(sim, body);
        lemma_gathered_next(sum, rest, k, r);
    }
}

/// The detector's reach holds a body at rest together without merging bodies that
/// never interact: it lies between the mean rest spacing and the interaction radius.
///
/// That holds of up to 2640 types. With 2693 in one body, the rounding of the sum over
/// all its pairs can carry the mean past the radius.
pub proof fn lemma_bond_radius_spans_rest(sim: Simulation)
    requires
        averages_well(sim),
        sim.mean_rest_spacing().finite(),
    ensures
        zero().le(sim.mean_rest_spacing()),
        sim.mean_rest_spacing().le(sim.radius_of_bonds()),
        sim.radius_of_bonds().le(sim.radius),
{
    lemma_mean_within(sim);
    lemma_reach_spans(sim.mean_rest_spacing(), sim.radius);
}

proof fn lemma_mean_within(sim: Simulation)
    requires
        averages_well(sim),
        sim.mean_rest_spacing().finite(),
    ensures
        zero().le(sim.mean_rest_spacing()),
        sim.mean_rest_spacing().le(sim.radius),
{
    let count = sim.bodies(sim.types as nat).len();
    if count == 0 {
        crate::rounding::lemma_p2_pos(149);
        lemma_share_range(core_fraction());
        lemma_share_of_radius(core_fraction(), sim.radius);
        crate::order::lemma_order_of_values(zero(), core_fraction().mul(sim.radius));
        crate::order::lemma_order_of_values(core_fraction().mul(sim.radius), sim.radius);
    } else {
        crate::creatures::lemma_bodies_few(sim, sim.types as nat);
        lemma_spacings_gathered(sim, count);
        lemma_mean_of_gathered(sim.spacing_sum(count), count as int, sim.radius);
    }
}

proof fn lemma_mean_of_gathered(sum: Scalar, count: int, radius: Scalar)
    requires
        0 < count <= 0x100_0000,
        radius.finite(),
        zero().le(radius),
        gathered(sum, count, radius.units()),
        sum.div(Scalar::from_u32(count as u32)).finite(),
    ensures
        zero().le(sum.div(Scalar::from_u32(count as u32))),
        sum.div(Scalar::from_u32(count as u32)).le(radius),
{
    let unit = crate::scalar::one_units();
    let number = Scalar::from_u32(count as u32);
    crate::rounding::lemma_p2_pos(149);
    crate::order::lemma_small_count(count as u32);
    assert(count * unit > 0) by (nonlinear_arith)
        requires
            count > 0,
            unit > 0,
    ;
    assert(sum.finite());
    let (s, n, r) = (sum.units(), number.units(), radius.units());
    assert(0 * n <= s * unit <= r * n) by (nonlinear_arith)
        requires
            0 <= s <= count * r,
            n == count * unit,
            unit > 0,
    ;
    crate::order::lemma_quotient_bounds(sum, number, zero());
    crate::order::lemma_quotient_bounds(sum, number, radius);
}

/// One and a half of a spacing within the radius, cut to the radius, lies between
/// the two.
proof fn lemma_reach_spans(mean: Scalar, radius: Scalar)
    requires
        mean.finite(),
        zero().le(mean),
        mean.le(radius),
    ensures
        mean.le(mean.mul(scalar(0x3fc0_0000)).min(radius)),  // 1.5
        mean.mul(scalar(0x3fc0_0000)).min(radius).le(radius),  // 1.5
{
    let unit = crate::scalar::one_units();
    let more = scalar(0x3fc0_0000);  // 1.5
    crate::order::lemma_power_of_two(0);
    crate::rounding::lemma_p2_values();
    crate::order::lemma_order_of_values(one(), more);
    crate::order::lemma_order_of_values(zero(), mean);
    let m = mean.units();
    assert(m * more.units() >= m * unit) by (nonlinear_arith)
        requires
            m >= 0,
            more.units() >= unit,
    ;
    crate::order::lemma_product_bounds(mean, more, mean);
}

/// A texel of the outline field is half as wide when the field has twice the side.
proof fn lemma_texels(side: u32)
    requires
        0 < side < 0x40_0000,
    ensures
        ({
            let (fine, coarse) = (
                world().div(Scalar::from_u32((2 * side) as u32)),
                world().div(Scalar::from_u32(side)),
            );
            &&& crate::doubling::twice(fine, coarse)
            &&& crate::scalar::one_units() <= 0x1000 * fine.units()
            &&& coarse.units() <= 2048 * crate::scalar::one_units()
        }),
{
    let unit = crate::scalar::one_units();
    let (more, less) = (Scalar::from_u32((2 * side) as u32), Scalar::from_u32(side));
    let (wide, small) = (scalar(0x4580_0000), scalar(0x3980_0000));  // 4096.0, 0.000244140625
    crate::rounding::lemma_p2_pos(149);
    crate::rounding::lemma_p2_values();
    vstd::arithmetic::power2::lemma2_to64();
    crate::order::lemma_small_count(side);
    crate::order::lemma_small_count((2 * side) as u32);
    crate::order::lemma_power_of_two(0);
    crate::order::lemma_power_of_two(11);
    crate::order::lemma_power_of_two(12);
    assert(world().units() == 2048 * unit && wide.units() == 4096 * unit);
    crate::rounding::lemma_p2_adds(12, 137);
    crate::rounding::lemma_p2_adds(23, 114);
    crate::rounding::lemma_grid_code(114, 0x80_0000);
    assert(0x1000 * small.units() == unit);
    let n = side as int;
    assert((2 * side) * unit == 2 * (side * unit)) by (nonlinear_arith);
    assert(n * unit > 0) by (nonlinear_arith)
        requires
            n > 0,
            unit > 0,
    ;
    crate::doubling::lemma_same_quotient(world(), wide, less, more);
    let fine = world().div(more);
    let coarse = world().div(less);
    let (w, m, l) = (world().units(), more.units(), less.units());
    assert(w * unit >= small.units() * m) by (nonlinear_arith)
        requires
            w == 2048 * unit,
            0x1000 * small.units() == unit,
            m == 2 * (n * unit),
            0 < n < 0x40_0000,
            unit > 0,
    ;
    assert(w * unit <= w * l) by (nonlinear_arith)
        requires
            w == 2048 * unit,
            l == n * unit,
            n >= 1,
            unit > 0,
    ;
    assert(w * unit <= w * m) by (nonlinear_arith)
        requires
            w == 2048 * unit,
            m == 2 * (n * unit),
            n >= 1,
            unit > 0,
    ;
    crate::order::lemma_quotient_bounds(world(), more, small);
    crate::order::lemma_quotient_bounds(world(), more, world());
    crate::order::lemma_quotient_bounds(world(), less, world());
    crate::order::lemma_quotient_bounds(world(), less, zero());
    crate::order::lemma_order_of_values(zero(), coarse);
    crate::order::lemma_order_of_values(small, fine);
    crate::order::lemma_order_of_values(fine, world());
    crate::order::lemma_order_of_values(coarse, world());
    assert(w * unit >= 0 * l) by (nonlinear_arith)
        requires
            w == 2048 * unit,
    ;
    crate::doubling::lemma_twice_quotient(world(), wide, more);
}

/// Texels of twice the width have four times the area.
proof fn lemma_areas(fine: Scalar, coarse: Scalar) -> (middle: Scalar)
    requires
        crate::doubling::twice(fine, coarse),
        crate::scalar::one_units() <= 0x1000 * fine.units(),
        coarse.units() <= 2048 * crate::scalar::one_units(),
    ensures
        crate::doubling::twice(fine.mul(fine), middle),
        crate::doubling::twice(middle, coarse.mul(coarse)),
        0 < fine.mul(fine).units(),
        coarse.mul(coarse).units() <= 0x40_0000 * crate::scalar::one_units(),
{
    let unit = crate::scalar::one_units();
    let most = scalar(0x4a80_0000);  // 4194304.0
    let middle = fine.mul(coarse);
    crate::rounding::lemma_p2_pos(149);
    vstd::arithmetic::power2::lemma2_to64();
    vstd::arithmetic::power2::lemma2_to64_rest();
    crate::rounding::lemma_p2_monotone(60, 149);
    crate::order::lemma_power_of_two(22);
    assert(most.units() == 0x40_0000 * unit);
    let (f, c) = (fine.units(), coarse.units());
    assert(f * f >= crate::doubling::ordinary() * unit) by (nonlinear_arith)
        requires
            unit <= 0x1000 * f,
            unit >= 0x1000_0000_0000_0000,
            crate::doubling::ordinary() == 0x100_0000,
    ;
    assert(c * f == 2 * (f * f)) by (nonlinear_arith)
        requires
            c == 2 * f,
    ;
    assert(f * c == c * f) by (nonlinear_arith);
    assert(c * c <= (0x40_0000 * unit) * unit) by (nonlinear_arith)
        requires
            0 <= c <= 2048 * unit,
    ;
    assert(c * f <= (0x40_0000 * unit) * unit) by (nonlinear_arith)
        requires
            0 <= c <= 2048 * unit,
            0 <= f <= 2048 * unit,
    ;
    assert(0 * unit <= c * f && 0 * unit <= c * c) by (nonlinear_arith)
        requires
            0 <= c,
            0 <= f,
    ;
    crate::order::lemma_product_bounds(fine, coarse, most);
    crate::order::lemma_product_bounds(fine, coarse, zero());
    crate::order::lemma_product_bounds(coarse, coarse, most);
    crate::order::lemma_product_bounds(coarse, coarse, zero());
    crate::order::lemma_order_of_values(middle, most);
    crate::order::lemma_order_of_values(zero(), middle);
    crate::order::lemma_order_of_values(coarse.mul(coarse), most);
    crate::order::lemma_order_of_values(zero(), coarse.mul(coarse));
    crate::doubling::lemma_twice_product(fine, fine, coarse);
    crate::order::lemma_mul_commutes(fine, coarse);
    crate::doubling::lemma_twice_product(coarse, fine, coarse);
    middle
}

/// Shares of one area, for areas that are a quarter, a half and all of another.
proof fn lemma_levels(area: Scalar, middle: Scalar, whole: Scalar, packed: Scalar)
    requires
        crate::doubling::twice(area, middle),
        crate::doubling::twice(middle, whole),
        area.units() > 0,
        whole.units() <= 0x40_0000 * crate::scalar::one_units(),
        packed.finite(),
        crate::scalar::one_units() <= 0x4000_0000 * packed.units(),
        scalar(OCTAVE).lt(area.div(packed).mul(half())),
    ensures
        ({
            let (level, other) = (area.div(packed).mul(half()), whole.div(packed).mul(half()));
            &&& level.finite()
            &&& other.finite()
            &&& other.units() == 4 * level.units()
        }),
{
    let unit = crate::scalar::one_units();
    let most = scalar(0x5980_0000);  // 4503599627370496.0
    crate::rounding::lemma_p2_pos(149);
    vstd::arithmetic::power2::lemma2_to64();
    vstd::arithmetic::power2::lemma2_to64_rest();
    crate::order::lemma_power_of_two(52);
    assert(most.units() == 0x10_0000_0000_0000 * unit);
    let (q, p) = (packed.units(), whole.units());
    assert(p * unit <= most.units() * q) by (nonlinear_arith)
        requires
            0 <= p <= 0x40_0000 * unit,
            most.units() == 0x10_0000_0000_0000 * unit,
            unit <= 0x4000_0000 * q,
            unit > 0,
    ;
    lemma_level_bounds(area, whole, packed, most);
    lemma_level_bounds(middle, whole, packed, most);
    lemma_level_bounds(whole, whole, packed, most);
    let (a, b, c) = (area.div(packed), middle.div(packed), whole.div(packed));
    lemma_halved_above(a);
    crate::doubling::lemma_twice_quotient(area, middle, packed);
    crate::order::lemma_order_of_values(a, b);
    crate::doubling::lemma_twice_quotient(middle, whole, packed);
    crate::order::lemma_order_of_values(b, c);
    crate::laws::lemma_halved_exactly(a);
    crate::laws::lemma_halved_exactly(c);
}

/// Half of a number is above the smallest normal one only where the number itself
/// keeps all its digits when it is halved.
proof fn lemma_halved_above(a: Scalar)
    requires
        a.finite(),
        a.units() >= 0,
        scalar(OCTAVE).lt(a.mul(half())),
    ensures
        a.magnitude() >= 0x100_0000,
{
    let unit = crate::scalar::one_units();
    let (least, enough) = (scalar(OCTAVE), scalar(0x0100_0000));
    crate::rounding::lemma_p2_values();
    crate::rounding::lemma_p2_pos(149);
    crate::order::lemma_power_of_two(0);
    crate::rounding::lemma_p2_adds(23, 125);
    crate::rounding::lemma_p2_step(148);
    crate::rounding::lemma_grid_code(125, 0x80_0000);
    crate::rounding::lemma_grid_code(0, OCTAVE as int);
    crate::doubling::lemma_octave(OCTAVE as int);
    assert(2 * half().units() == unit && least.units() == OCTAVE && enough.units() == 2 * OCTAVE);
    crate::order::lemma_order_of_values(enough, a);
    if a.units() < 2 * OCTAVE {
        let (v, h) = (a.units(), half().units());
        assert(v * h <= 0x80_0000 * unit) by (nonlinear_arith)
            requires
                0 <= v < 2 * 0x80_0000,
                2 * h == unit,
                unit > 0,
        ;
        crate::order::lemma_product_bounds(a, half(), least);
    }
}

proof fn lemma_level_bounds(part: Scalar, whole: Scalar, packed: Scalar, most: Scalar)
    requires
        part.finite(),
        whole.finite(),
        0 <= part.units() <= whole.units(),
        packed.finite(),
        packed.units() > 0,
        most.finite(),
        whole.units() * crate::scalar::one_units() <= most.units() * packed.units(),
    ensures
        part.div(packed).finite(),
        part.div(packed).units() >= 0,
{
    let unit = crate::scalar::one_units();
    let (p, w, q) = (part.units(), whole.units(), packed.units());
    crate::rounding::lemma_p2_pos(149);
    assert(0 * q <= p * unit <= w * unit) by (nonlinear_arith)
        requires
            0 <= p <= w,
            unit > 0,
    ;
    crate::order::lemma_quotient_bounds(part, packed, most);
    crate::order::lemma_quotient_bounds(part, packed, zero());
    crate::order::lemma_order_of_values(zero(), part.div(packed));
    crate::order::lemma_order_of_values(part.div(packed), most);
}

/// The area that a particle packs.
proof fn lemma_packed_area(spacing: Scalar)
    requires
        (scalar(0x38d1_b717)).le(spacing),  // 0.0001
        spacing.mul(spacing).finite(),
    ensures
        spacing.finite(),
        crate::scalar::one_units() <= 0x4000_0000 * spacing.mul(spacing).units(),
{
    let unit = crate::scalar::one_units();
    let (low, least) = (scalar(0x3880_0000), scalar(0x3180_0000));  // 0.00006103515625, 0.0000000037252902984619140625
    vstd::arithmetic::power2::lemma2_to64();
    crate::rounding::lemma_p2_values();
    crate::rounding::lemma_p2_pos(149);
    crate::rounding::lemma_p2_pos(135);
    crate::rounding::lemma_p2_adds(14, 135);
    crate::rounding::lemma_p2_adds(23, 112);
    crate::rounding::lemma_grid_code(112, OCTAVE as int);
    crate::rounding::lemma_p2_adds(28, 121);
    crate::rounding::lemma_p2_adds(23, 98);
    crate::rounding::lemma_grid_code(98, OCTAVE as int);
    let place = crate::rounding::p2(135);
    assert(low.units() == place && unit == 0x4000 * place);
    assert(0x1000_0000 * least.units() == unit);
    assert(spacing.finite());
    crate::order::lemma_order_of_values(low, spacing);
    let s = spacing.units();
    assert(s * s >= least.units() * unit) by (nonlinear_arith)
        requires
            s >= place,
            unit == 0x4000 * place,
            0x1000_0000 * least.units() == unit,
            place > 0,
    ;
    crate::order::lemma_product_bounds(spacing, spacing, least);
    crate::order::lemma_order_of_values(least, spacing.mul(spacing));
}

/// The resolution of the outline field changes the level, never the stamp radius:
/// with twice the side, a texel holds a quarter of the particles.
///
/// Levels that lose digits are left out: the finer one is above the smallest normal
/// number, or both are zero.
pub proof fn lemma_outline_resolution(spacing: Scalar, side: u32)
    requires
        0 < side < 0x40_0000,
        scalar(OCTAVE).lt(outline_of(spacing, (2 * side) as u32).1) || outline_of(spacing, side).1.zero(),
    ensures
        outline_of(spacing, (2 * side) as u32).0 == outline_of(spacing, side).0,
        outline_of(spacing, side).1.finite(),
        outline_of(spacing, side).1.units() == 4 * outline_of(spacing, (2 * side) as u32).1.units(),
{
    let rest = spacing.max(scalar(0x38d1_b717));  // 0.0001
    let fine = world().div(Scalar::from_u32((2 * side) as u32));
    let coarse = world().div(Scalar::from_u32(side));
    lemma_texels(side);
    lemma_floored(spacing);
    lemma_outline_levels(rest, fine, coarse);
}

proof fn lemma_floored(spacing: Scalar)
    ensures
        (scalar(0x38d1_b717)).le(spacing.max(scalar(0x38d1_b717))),  // 0.0001, 0.0001
{
}

proof fn lemma_outline_levels(rest: Scalar, fine: Scalar, coarse: Scalar)
    requires
        (scalar(0x38d1_b717)).le(rest),  // 0.0001
        crate::doubling::twice(fine, coarse),
        crate::scalar::one_units() <= 0x1000 * fine.units(),
        coarse.units() <= 2048 * crate::scalar::one_units(),
        scalar(OCTAVE).lt(fine.mul(fine).div(rest.mul(rest)).mul(half())) || coarse.mul(coarse).div(
            rest.mul(rest),
        ).mul(half()).zero(),
    ensures
        ({
            let (level, other) = (
                fine.mul(fine).div(rest.mul(rest)).mul(half()),
                coarse.mul(coarse).div(rest.mul(rest)).mul(half()),
            );
            &&& level.finite()
            &&& other.finite()
            &&& other.units() == 4 * level.units()
        }),
{
    let middle = lemma_areas(fine, coarse);
    lemma_square_defined(rest);
    if coarse.mul(coarse).div(rest.mul(rest)).mul(half()).zero() {
        if rest.mul(rest).finite() {
            lemma_packed_area(rest);
        }
        lemma_zero_levels(fine.mul(fine), coarse.mul(coarse), rest.mul(rest));
    } else {
        lemma_divisor_finite(fine.mul(fine), rest.mul(rest));
        lemma_packed_area(rest);
        lemma_levels(fine.mul(fine), middle, coarse.mul(coarse), rest.mul(rest));
    }
}

/// Where the larger area has no level, the smaller one has none.
proof fn lemma_zero_levels(area: Scalar, whole: Scalar, packed: Scalar)
    requires
        area.finite(),
        whole.finite(),
        0 < area.units() <= whole.units(),
        whole.units() <= 0x40_0000 * crate::scalar::one_units(),
        !packed.nan(),
        packed.finite() ==> crate::scalar::one_units() <= 0x4000_0000 * packed.units(),
        whole.div(packed).mul(half()).zero(),
    ensures
        area.div(packed).mul(half()).finite(),
        area.div(packed).mul(half()).units() == 0,
        whole.div(packed).mul(half()).finite(),
        whole.div(packed).mul(half()).units() == 0,
{
    if packed.infinite() {
        assert(area.div(packed).zero());
        assert(area.div(packed).mul(half()).zero());
    } else {
        let unit = crate::scalar::one_units();
        let most = scalar(0x5980_0000);  // 4503599627370496.0
        crate::rounding::lemma_p2_pos(149);
        vstd::arithmetic::power2::lemma2_to64();
        vstd::arithmetic::power2::lemma2_to64_rest();
        crate::order::lemma_power_of_two(52);
        assert(most.units() == 0x10_0000_0000_0000 * unit);
        let (q, p) = (packed.units(), whole.units());
        assert(p * unit <= most.units() * q) by (nonlinear_arith)
            requires
                0 <= p <= 0x40_0000 * unit,
                most.units() == 0x10_0000_0000_0000 * unit,
                unit <= 0x4000_0000 * q,
                unit > 0,
        ;
        lemma_level_bounds(area, whole, packed, most);
        lemma_level_bounds(whole, whole, packed, most);
        crate::order::lemma_order_of_values(area, whole);
        crate::order::lemma_quotient_monotone(area, whole, packed);
        lemma_zero_half(area.div(packed), whole.div(packed));
    }
}

proof fn lemma_zero_half(a: Scalar, b: Scalar)
    requires
        a.finite(),
        b.finite(),
        a.units() >= 0,
        a.le(b),
        b.mul(half()).zero(),
    ensures
        a.mul(half()).finite(),
        a.mul(half()).units() == 0,
{
    crate::rounding::lemma_p2_pos(149);
    crate::order::lemma_order_of_values(zero(), half());
    crate::order::lemma_product_monotone(a, b, half());
    let (v, h) = (a.units(), half().units());
    assert(0 * crate::scalar::one_units() <= v * h) by (nonlinear_arith)
        requires
            v >= 0,
            h >= 0,
    ;
    crate::order::lemma_product_bounds(a, half(), zero());
    crate::order::lemma_order_of_values(zero(), a.mul(half()));
    crate::order::lemma_order_of_values(a.mul(half()), b.mul(half()));
}

proof fn lemma_square_defined(rest: Scalar)
    requires
        (scalar(0x38d1_b717)).le(rest),  // 0.0001
    ensures
        !rest.mul(rest).nan(),
{
    if rest.finite() {
        crate::order::lemma_product_bounds(rest, rest, zero());
    }
}

/// What divides a number to something above zero is not infinite.
proof fn lemma_divisor_finite(area: Scalar, packed: Scalar)
    requires
        area.finite(),
        !packed.nan(),
        scalar(OCTAVE).lt(area.div(packed).mul(half())),
    ensures
        packed.finite(),
{
    if packed.infinite() {
        assert(area.div(packed).zero());
        assert(area.div(packed).mul(half()).zero());
    }
}

/// A body of up to 2640 types rests at a finite distance, not below zero, if the radius is
/// at most 2^100.
pub proof fn lemma_rest_is_finite(sim: Simulation, types: Seq<u32>)
    requires
        types.len() <= 2640,
        zero().lt(sim.radius),
        sim.radius.le(scalar(0x7180_0000)),  // 1267650600228229401496703205376.0
    ensures
        sim.rest_spacing(types).finite(),
        sim.rest_spacing(types).units() >= 0,
{
    let unit = crate::scalar::one_units();
    let sums = sim.pair_sums(types, types.len());
    let k = lemma_sums_piled(sim, types, types.len());
    crate::rounding::lemma_p2_pos(149);
    crate::order::lemma_order_of_values(zero(), sums.pairs);
    if zero().lt(sums.pairs) {
        let (t, n) = (sums.total.units(), sums.pairs.units());
        assert(k >= 1) by {
            if k == 0 {
                assert(0 * unit == 0);
            }
        }
        assert(unit <= k * unit) by (nonlinear_arith)
            requires
                k >= 1,
                unit > 0,
        ;
        assert(t * unit <= t * n && 0 * n <= t * unit) by (nonlinear_arith)
            requires
                t >= 0,
                0 < unit <= n,
        ;
        crate::order::lemma_quotient_bounds(sums.total, sums.pairs, sums.total);
        crate::order::lemma_quotient_bounds(sums.total, sums.pairs, zero());
        crate::order::lemma_order_of_values(sim.rest_spacing(types), sums.total);
        crate::order::lemma_order_of_values(zero(), sim.rest_spacing(types));
    } else {
        crate::order::lemma_order_of_values(sim.radius, scalar(0x7180_0000));  // 1267650600228229401496703205376.0
        lemma_share_range(core_fraction());
        lemma_share_of_radius(core_fraction(), sim.radius);
    }
}

} // verus!
