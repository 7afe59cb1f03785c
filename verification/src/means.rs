//! Mean spacings lie between the spacings they are taken from.
use vstd::prelude::*;

use crate::creatures::{least_share, CreatureTemplate, PairSums};
use crate::model::{core_fraction, Simulation};
use crate::order::gap;
use crate::scalar::{one, scalar, zero, Scalar};
use crate::spacing::templates_of;

verus! {

/// What `k` terms from `low` to `high` can add up to, with the rounding of each sum.
spec fn spread(total: Scalar, k: int, low: int, high: int) -> bool {
    total == Scalar::signed_infinity(false) || {
        &&& total.finite()
        &&& total.units() >= 0
        &&& low * (0x100_0000 * k - k * k) <= 0x100_0000 * total.units() <= high * (0x100_0000 * k + k * k)
    }
}

proof fn lemma_spread_next(total: Scalar, x: Scalar, k: int, low: int, high: int)
    requires
        spread(total, k, low, high),
        x.finite(),
        0 <= low <= x.units() <= high,
        0 <= k <= 0x100_0000,
    ensures
        spread(total.add(x), k + 1, low, high),
{
    let sum = total.add(x);
    if total.finite() {
        crate::order::lemma_sum_bounds(total, x, zero());
        crate::order::lemma_order_of_values(zero(), sum);
        if sum.finite() {
            crate::order::lemma_sum_error(total, x);
            lemma_spread_grows(total.units(), x.units(), sum.units(), k, low, high);
        }
    }
}

proof fn lemma_spread_grows(t: int, x: int, s: int, k: int, low: int, high: int)
    requires
        t >= 0,
        0 <= low <= x <= high,
        0 <= k <= 0x100_0000,
        low * (0x100_0000 * k - k * k) <= 0x100_0000 * t <= high * (0x100_0000 * k + k * k),
        0x100_0000 * gap(s, t + x) <= t + x,
    ensures
        low * (0x100_0000 * (k + 1) - (k + 1) * (k + 1)) <= 0x100_0000 * s <= high * (0x100_0000 * (k + 1) + (k + 1)
            * (k + 1)),
{
    let m = 0x100_0000int;
    let (up, down) = (m * k + k * k, m * k - k * k);
    assert(m * s <= (m + 1) * (t + x) && m * s >= (m - 1) * (t + x));
    assert(m * (t + x) <= high * (up + m)) by (nonlinear_arith)
        requires
            m * t <= high * up,
            x <= high,
            m > 0,
    ;
    assert(m * (t + x) >= low * (down + m)) by (nonlinear_arith)
        requires
            m * t >= low * down,
            x >= low,
            m > 0,
    ;
    let (next_up, next_down) = (m * (k + 1) + (k + 1) * (k + 1), m * (k + 1) - (k + 1) * (k + 1));
    assert((m + 1) * (up + m) <= m * next_up && (m - 1) * (down + m) >= m * next_down) by (nonlinear_arith)
        requires
            up == m * k + k * k,
            down == m * k - k * k,
            next_up == m * (k + 1) + (k + 1) * (k + 1),
            next_down == m * (k + 1) - (k + 1) * (k + 1),
            0 <= k <= m,
            m == 0x100_0000,
    ;
    assert(m * (m * s) <= (m + 1) * (high * (up + m))) by (nonlinear_arith)
        requires
            m * s <= (m + 1) * (t + x),
            m * (t + x) <= high * (up + m),
            m > 0,
    ;
    assert(m * (m * s) >= (m - 1) * (low * (down + m))) by (nonlinear_arith)
        requires
            m * s >= (m - 1) * (t + x),
            m * (t + x) >= low * (down + m),
            m == 0x100_0000,
    ;
    assert((m + 1) * (high * (up + m)) <= high * (m * next_up)) by (nonlinear_arith)
        requires
            (m + 1) * (up + m) <= m * next_up,
            high >= 0,
    ;
    assert((m - 1) * (low * (down + m)) >= low * (m * next_down)) by (nonlinear_arith)
        requires
            (m - 1) * (down + m) >= m * next_down,
            low >= 0,
    ;
    assert(high * (m * next_up) == m * (high * next_up) && low * (m * next_down) == m * (low * next_down)) by (nonlinear_arith);
}

/// The mean of `k` terms from `low` to `high`, rounded, is between `low` and `high`
/// but for `k` and two parts in 2^24 and the smallest of all numbers.
pub open spec fn between(mean: Scalar, k: int, low: int, high: int) -> bool {
    low * (0x100_0000 - k - 2) - 0x100_0000 <= 0x100_0000 * mean.units() <= high * (0x100_0000 + k + 2) + 0x100_0000
}

proof fn lemma_mean_between(total: Scalar, count: Scalar, k: int, low: int, high: int)
    requires
        spread(total, k, low, high),
        0 <= low <= high,
        0 < k <= 0x100_0000,
        count.finite(),
        count.units() == k * crate::scalar::one_units(),
        total.div(count).finite(),
    ensures
        between(total.div(count), k, low, high),
{
    let unit = crate::scalar::one_units();
    let m = 0x100_0000int;
    let (t, n, q) = (total.units(), count.units(), total.div(count).units());
    crate::rounding::lemma_p2_pos(149);
    assert(n > 0) by (nonlinear_arith)
        requires
            n == k * unit,
            k > 0,
            unit > 0,
    ;
    assert(total.finite());
    crate::order::lemma_quotient_error(total, count);
    let g = gap(q * k, t);
    assert(q * n == (q * k) * unit) by (nonlinear_arith)
        requires
            n == k * unit,
    ;
    assert(gap((q * k) * unit, t * unit) == g * unit) by (nonlinear_arith)
        requires
            g == if q * k < t { t - q * k } else { q * k - t },
            unit > 0,
    ;
    assert(t * unit >= 0) by (nonlinear_arith)
        requires
            t >= 0,
            unit > 0,
    ;
    let (up, down) = (m + k, m - k);
    assert(high * (m * k + k * k) == k * (high * up) && low * (m * k - k * k) == k * (low * down)) by (nonlinear_arith)
        requires
            up == m + k,
            down == m - k,
    ;
    if m * (g * unit) <= t * unit {
        assert(m * g <= t) by (nonlinear_arith)
            requires
                m * (g * unit) <= t * unit,
                unit > 0,
        ;
        assert(m * (m * q) <= (m + 1) * (high * up)) by (nonlinear_arith)
            requires
                m * (q * k - t) <= t,
                m * t <= k * (high * up),
                k > 0,
                m == 0x100_0000,
        ;
        assert(m * (m * q) >= (m - 1) * (low * down)) by (nonlinear_arith)
            requires
                m * (t - q * k) <= t,
                m * t >= k * (low * down),
                k > 0,
                m == 0x100_0000,
        ;
        assert((m + 1) * (high * up) <= m * (high * (m + k + 2))) by (nonlinear_arith)
            requires
                up == m + k,
                0 < k <= m,
                high >= 0,
        ;
        assert((m - 1) * (low * down) >= m * (low * (m - k - 2))) by (nonlinear_arith)
            requires
                down == m - k,
                0 < k <= m,
                low >= 0,
        ;
    } else {
        assert(2 * g <= k) by (nonlinear_arith)
            requires
                2 * (g * unit) <= k * unit,
                unit > 0,
        ;
        assert(2 * (m * q) <= 2 * (high * up) + m) by (nonlinear_arith)
            requires
                2 * (q * k - t) <= k,
                m * t <= k * (high * up),
                k > 0,
                m == 0x100_0000,
        ;
        assert(2 * (m * q) >= 2 * (low * down) - m) by (nonlinear_arith)
            requires
                2 * (t - q * k) <= k,
                m * t >= k * (low * down),
                k > 0,
                m == 0x100_0000,
        ;
        assert(high * up <= high * (m + k + 2) && low * down >= low * (m - k - 2)) by (nonlinear_arith)
            requires
                up == m + k,
                down == m - k,
                low >= 0,
                high >= 0,
        ;
    }
}

/// Every bonded pair among the types rests at a distance from `low` to `high`.
pub open spec fn pairs_rest_between(sim: Simulation, types: Seq<u32>, low: int, high: int) -> bool {
    forall|a: u32, b: u32|
        types.contains(a) && types.contains(b) && sim.bonded(a as int, b as int) ==> low <= (
        #[trigger] sim.spacing_of_pair(a as int, b as int)).units() <= high
}

/// Some pair among the types is bonded.
pub open spec fn has_bond(sim: Simulation, types: Seq<u32>) -> bool {
    exists|a: u32, b: u32| types.contains(a) && types.contains(b) && #[trigger] sim.bonded(a as int, b as int)
}

/// The sums over `k` bonded pairs that rest from `low` to `high` apart.
spec fn gathered(sums: PairSums, k: int, low: int, high: int) -> bool {
    &&& 0 <= k
    &&& sums.pairs.finite()
    &&& sums.pairs.units() == k * crate::scalar::one_units()
    &&& spread(sums.total, k, low, high)
}

proof fn lemma_pair_gathered(sim: Simulation, types: Seq<u32>, sums: PairSums, k: int, i: int, j: int, low: int, high: int) -> (after: int)
    requires
        sim.radius.finite(),
        zero().le(sim.radius),
        pairs_rest_between(sim, types, low, high),
        0 <= low,
        gathered(sums, k, low, high),
        k < 0x100_0000,
        0 <= i < types.len(),
        0 <= j < types.len(),
    ensures
        gathered(sim.with_pair(sums, types[i] as int, types[j] as int), after, low, high),
        after == k + if sim.bonded(types[i] as int, types[j] as int) { 1int } else { 0 },
{
    let (a, b) = (types[i], types[j]);
    assert(types.contains(a) && types.contains(b));
    if sim.bonded(a as int, b as int) {
        let x = sim.spacing_of_pair(a as int, b as int);
        crate::creatures::lemma_spacing_within_radius(sim, a as int, b as int);
        crate::order::lemma_order_of_values(x, sim.radius);
        lemma_spread_next(sums.total, x, k, low, high);
        crate::spacing::lemma_pair_counted(sums.pairs, k);
        k + 1
    } else {
        k
    }
}

proof fn lemma_row_gathered(
    sim: Simulation,
    types: Seq<u32>,
    i: int,
    count: nat,
    sums: PairSums,
    k: int,
    low: int,
    high: int,
) -> (after: int)
    requires
        sim.radius.finite(),
        zero().le(sim.radius),
        pairs_rest_between(sim, types, low, high),
        0 <= low,
        gathered(sums, k, low, high),
        k + count <= 0x100_0000,
        0 <= i < types.len(),
        i + count <= types.len(),
    ensures
        gathered(sim.row_sums(types, i, count, sums), after, low, high),
        k <= after <= k + count,
        after == k <==> forall|j: int| i <= j < i + count ==> !sim.bonded(types[i] as int, (#[trigger] types[j]) as int),
    decreases count,
{
    if count == 0 {
        k
    } else {
        let before = lemma_row_gathered(sim, types, i, (count - 1) as nat, sums, k, low, high);
        let last = i + count - 1;
        let after = lemma_pair_gathered(
            sim,
            types,
            sim.row_sums(types, i, (count - 1) as nat, sums),
            before,
            i,
            last,
            low,
            high,
        );
        if after == k {
            assert forall|j: int| i <= j < i + count implies !sim.bonded(types[i] as int, (#[trigger] types[j]) as int) by {
                assert(j < i + (count - 1) || j == last);
            }
        }
        after
    }
}

proof fn lemma_sums_gathered(sim: Simulation, types: Seq<u32>, rows: nat, low: int, high: int) -> (k: int)
    requires
        sim.radius.finite(),
        zero().le(sim.radius),
        pairs_rest_between(sim, types, low, high),
        0 <= low,
        rows <= types.len() <= 4096,
    ensures
        gathered(sim.pair_sums(types, rows), k, low, high),
        2 * k <= rows * (2 * types.len() - rows + 1),
        k == 0 <==> forall|i: int, j: int|
            0 <= i < rows && i <= j < types.len() ==> !sim.bonded((#[trigger] types[i]) as int, (#[trigger] types[j]) as int),
    decreases rows,
{
    let len = types.len() as int;
    if rows == 0 {
        assert(0 * crate::scalar::one_units() == 0 && low * 0 == 0 && high * 0 == 0);
        0
    } else {
        let before = lemma_sums_gathered(sim, types, (rows - 1) as nat, low, high);
        let n = rows as int;
        assert((n - 1) * (2 * len - (n - 1) + 1) + 2 * (len - n + 1) == n * (2 * len - n + 1)) by (nonlinear_arith);
        assert(n * (2 * len - n + 1) <= 4096 * 4097) by (nonlinear_arith)
            requires
                0 <= n <= len <= 4096,
        ;
        let after = lemma_row_gathered(
            sim,
            types,
            rows - 1,
            (types.len() - rows + 1) as nat,
            sim.pair_sums(types, (rows - 1) as nat),
            before,
            low,
            high,
        );
        if after == 0 {
            assert forall|i: int, j: int| 0 <= i < rows && i <= j < types.len() implies !sim.bonded(
                (#[trigger] types[i]) as int,
                (#[trigger] types[j]) as int,
            ) by {
                assert(i < rows - 1 || i == rows - 1);
            }
        }
        after
    }
}

/// The rest spacing of a body, between those of its bonded pairs.
proof fn lemma_rest_between(sim: Simulation, types: Seq<u32>, low: int, high: int) -> (k: int)
    requires
        sim.radius.finite(),
        zero().le(sim.radius),
        pairs_rest_between(sim, types, low, high),
        0 <= low <= high,
        types.len() <= 4096,
        sim.rest_spacing(types).finite(),
    ensures
        has_bond(sim, types) ==> 0 < k && 2 * k <= types.len() * (types.len() + 1) && between(
            sim.rest_spacing(types),
            k,
            low,
            high,
        ),
        !has_bond(sim, types) ==> sim.rest_spacing(types) == core_fraction().mul(sim.radius),
{
    let unit = crate::scalar::one_units();
    let len = types.len() as int;
    let sums = sim.pair_sums(types, types.len());
    let k = lemma_sums_gathered(sim, types, types.len(), low, high);
    crate::rounding::lemma_p2_pos(149);
    crate::order::lemma_order_of_values(zero(), sums.pairs);
    assert(len * (2 * len - len + 1) == len * (len + 1)) by (nonlinear_arith);
    assert(len * (len + 1) <= 4096 * 4097) by (nonlinear_arith)
        requires
            0 <= len <= 4096,
    ;
    lemma_bond_in_order(sim, types);
    if has_bond(sim, types) {
        assert(k > 0);
        assert(k * unit > 0) by (nonlinear_arith)
            requires
                k > 0,
                unit > 0,
        ;
        lemma_mean_between(sums.total, sums.pairs, k, low, high);
    } else {
        assert(k == 0);
        assert(0 * unit == 0);
    }
    k
}

/// A bonded pair is met in the order of the types.
proof fn lemma_bond_in_order(sim: Simulation, types: Seq<u32>)
    ensures
        !has_bond(sim, types) <==> forall|i: int, j: int|
            0 <= i < types.len() && i <= j < types.len() ==> !sim.bonded((#[trigger] types[i]) as int, (#[trigger] types[j]) as int),
{
    if has_bond(sim, types) {
        let (a, b) = choose|a: u32, b: u32|
            types.contains(a) && types.contains(b) && #[trigger] sim.bonded(a as int, b as int);
        let i = choose|i: int| 0 <= i < types.len() && types[i] == a;
        let j = choose|j: int| 0 <= j < types.len() && types[j] == b;
        crate::creatures::lemma_bonds_mutual(sim, a as int, b as int);
        if i <= j {
            assert(sim.bonded(types[i] as int, types[j] as int));
        } else {
            assert(sim.bonded(types[j] as int, types[i] as int));
        }
    } else {
        assert forall|i: int, j: int| 0 <= i < types.len() && i <= j < types.len() implies !sim.bonded(
            (#[trigger] types[i]) as int,
            (#[trigger] types[j]) as int,
        ) by {
            assert(types.contains(types[i]) && types.contains(types[j]));
        }
    }
}

/// A body rests between the closest and the widest of its bonded pairs: the spacing of
/// its template lies between theirs, up to the rounding of the sum over so many pairs.
/// So where all its pairs rest at one distance, preferred or not, that is its spacing.
pub proof fn lemma_template_between_its_pairs(
    sim: Simulation,
    templates: Seq<CreatureTemplate>,
    i: int,
    low: int,
    high: int,
)
    requires
        sim.radius.finite(),
        zero().le(sim.radius),
        templates_of(templates, sim),
        0 <= i < templates.len(),
        templates[i].types@.len() <= 4096,
        templates[i].spacing.finite(),
        pairs_rest_between(sim, templates[i].types@, low, high),
        0 <= low <= high,
    ensures
        has_bond(sim, templates[i].types@) ==> ({
            let members = templates[i].types@.len() as int;
            let spacing = templates[i].spacing.units();
            let slack = members * (members + 1) + 2;
            low * (0x100_0000 - slack) - 0x100_0000 <= 0x100_0000 * spacing <= high * (0x100_0000 + slack) + 0x100_0000
        }),
        !has_bond(sim, templates[i].types@) ==> templates[i].spacing == core_fraction().mul(sim.radius),
        templates[i].expected_radius == sim.radius,
        templates[i].min_per_type == least_share(sim.radius, templates[i].spacing, templates[i].types@.len() as u32),
{
    let types = templates[i].types@;
    assert(templates[i].describes(sim, sim.bodies(sim.types as nat)[i]));
    let k = lemma_rest_between(sim, types, low, high);
    if has_bond(sim, types) {
        lemma_widened(k, types.len() as int, low, high);
    }
}

proof fn lemma_widened(k: int, n: int, low: int, high: int)
    requires
        n >= 0,
        0 < 2 * k <= n * (n + 1),
        0 <= low <= high,
    ensures
        low * (0x100_0000 - (n * (n + 1) + 2)) <= low * (0x100_0000 - k - 2),
        high * (0x100_0000 + k + 2) <= high * (0x100_0000 + (n * (n + 1) + 2)),
{
    let p = n * (n + 1) + 2;
    assert(low * (0x100_0000 - p) <= low * (0x100_0000 - k - 2)) by (nonlinear_arith)
        requires
            low >= 0,
            k + 2 <= p,
    ;
    assert(high * (0x100_0000 + k + 2) <= high * (0x100_0000 + p)) by (nonlinear_arith)
        requires
            high >= 0,
            k + 2 <= p,
    ;
}

/// Every body rests at a distance from `low` to `high`.
pub open spec fn bodies_rest_between(sim: Simulation, low: int, high: int) -> bool {
    forall|i: int|
        0 <= i < sim.bodies(sim.types as nat).len() ==> {
            let rest = #[trigger] sim.rest_spacing(sim.bodies(sim.types as nat)[i]);
            rest.finite() && low <= rest.units() <= high
        }
}

proof fn lemma_spacings_gathered(sim: Simulation, count: nat, low: int, high: int)
    requires
        bodies_rest_between(sim, low, high),
        0 <= low,
        count <= sim.bodies(sim.types as nat).len(),
        count <= 0x100_0000,
    ensures
        spread(sim.spacing_sum(count), count as int, low, high),
    decreases count,
{
    if count == 0 {
        crate::rounding::lemma_grid_code(0, 0);
        assert(low * 0 == 0 && high * 0 == 0);
    } else {
        lemma_spacings_gathered(sim, (count - 1) as nat, low, high);
        let rest = sim.rest_spacing(sim.bodies(sim.types as nat)[count - 1]);
        lemma_spread_next(sim.spacing_sum((count - 1) as nat), rest, count - 1, low, high);
    }
}

/// The mean spacing lies between the closest and the widest of all bodies, up to the
/// rounding of the sum over so many of them.
pub proof fn lemma_mean_between_bodies(sim: Simulation, low: int, high: int)
    requires
        sim.bodies(sim.types as nat).len() > 0,
        sim.types <= 0x100_0000,
        bodies_rest_between(sim, low, high),
        0 <= low <= high,
        sim.mean_rest_spacing().finite(),
    ensures
        between(sim.mean_rest_spacing(), sim.bodies(sim.types as nat).len() as int, low, high),
{
    let count = sim.bodies(sim.types as nat).len();
    crate::creatures::lemma_bodies_few(sim, sim.types as nat);
    crate::order::lemma_small_count(count as u32);
    lemma_spacings_gathered(sim, count, low, high);
    lemma_mean_between(sim.spacing_sum(count), Scalar::from_u32(count as u32), count as int, low, high);
}

/// The detector reaches half as far again as bodies rest apart on average, up to
/// rounding, or as far as the interaction does, if that is less.
pub proof fn lemma_reach_is_half_as_far_again(sim: Simulation)
    requires
        sim.radius.finite(),
        sim.mean_rest_spacing().finite(),
        zero().le(sim.mean_rest_spacing()),
    ensures
        ({
            let (reach, mean) = (sim.radius_of_bonds().units(), sim.mean_rest_spacing().units());
            &&& sim.radius_of_bonds() != sim.radius ==> 0x100_0000 * gap(2 * reach, 3 * mean) <= 3 * mean + 0x100_0000
            &&& sim.radius_of_bonds() == sim.radius ==> 0x100_0000 * (2 * reach - 3 * mean) <= 3 * mean + 0x100_0000
        }),
{
    let unit = crate::scalar::one_units();
    let (mean, factor) = (sim.mean_rest_spacing(), scalar(0x3fc0_0000));  // 1.5
    let far = mean.mul(factor);
    crate::rounding::lemma_p2_pos(149);
    crate::rounding::lemma_p2_values();
    crate::rounding::lemma_p2_adds(23, 126);
    crate::rounding::lemma_grid_code(126, 0xc0_0000);
    assert(2 * factor.units() == 3 * unit);
    crate::order::lemma_order_of_values(zero(), mean);
    let (v, w, f) = (mean.units(), factor.units(), far.units());
    assert(0 * unit <= v * w) by (nonlinear_arith)
        requires
            v >= 0,
            w >= 0,
    ;
    crate::order::lemma_product_bounds(mean, factor, zero());
    crate::order::lemma_product_bounds(mean, factor, sim.radius);
    crate::order::lemma_order_of_values(zero(), far);
    crate::order::lemma_order_of_values(sim.radius, far);
    assert(2 * (v * w) == (3 * v) * unit) by (nonlinear_arith)
        requires
            2 * w == 3 * unit,
    ;
    if far.finite() {
        crate::order::lemma_product_error(mean, factor);
        let g = gap(2 * f, 3 * v);
        assert(2 * gap(f * unit, v * w) == g * unit) by (nonlinear_arith)
            requires
                g == if 2 * f < 3 * v { 3 * v - 2 * f } else { 2 * f - 3 * v },
                2 * (v * w) == (3 * v) * unit,
                unit > 0,
        ;
        if 0x100_0000 * gap(f * unit, v * w) <= gap(v * w, 0) {
            assert(0x100_0000 * g <= 3 * v) by (nonlinear_arith)
                requires
                    0x100_0000 * (g * unit) <= (3 * v) * unit,
                    unit > 0,
            ;
        } else {
            assert(g <= 1) by (nonlinear_arith)
                requires
                    g * unit <= unit,
                    unit > 0,
            ;
        }
    } else {
        let r = sim.radius.units();
        assert(2 * r <= 3 * v) by (nonlinear_arith)
            requires
                v * w > r * unit,
                2 * (v * w) == (3 * v) * unit,
                unit > 0,
        ;
    }
}

/// What the bonded pairs of member `i` with the `count` members from itself on rest apart,
/// all together, and how many they are.
pub open spec fn row_rest(sim: Simulation, types: Seq<u32>, i: int, count: nat) -> (int, int)
    decreases count,
{
    if count == 0 {
        (0, 0)
    } else {
        let (sum, pairs) = row_rest(sim, types, i, (count - 1) as nat);
        let (a, b) = (types[i] as int, types[i + count - 1] as int);
        if sim.bonded(a, b) {
            (sum + sim.spacing_of_pair(a, b).units(), pairs + 1)
        } else {
            (sum, pairs)
        }
    }
}

/// What all bonded pairs of the first `rows` members with themselves and the later ones
/// rest apart, all together, and how many they are.
pub open spec fn total_rest(sim: Simulation, types: Seq<u32>, rows: nat) -> (int, int)
    decreases rows,
{
    if rows == 0 {
        (0, 0)
    } else {
        let (sum, pairs) = total_rest(sim, types, (rows - 1) as nat);
        let (more, others) = row_rest(sim, types, rows - 1, (types.len() - rows + 1) as nat);
        (sum + more, pairs + others)
    }
}

/// A sum of `k` terms that comes to `exact`, but for rounding.
spec fn adds_up(total: Scalar, exact: int, k: int) -> bool {
    &&& exact >= 0
    &&& total == Scalar::signed_infinity(false) || {
        &&& total.finite()
        &&& total.units() >= 0
        &&& 0x100_0000 * gap(total.units(), exact) <= 2 * (k * exact)
    }
}

proof fn lemma_adds_up_next(total: Scalar, exact: int, k: int, x: Scalar)
    requires
        adds_up(total, exact, k),
        x.finite(),
        x.units() >= 0,
        0 <= k <= 0x80_0000,
    ensures
        adds_up(total.add(x), exact + x.units(), k + 1),
{
    let sum = total.add(x);
    let v = x.units();
    if total.finite() {
        crate::order::lemma_sum_bounds(total, x, zero());
        crate::order::lemma_order_of_values(zero(), sum);
        if sum.finite() {
            crate::order::lemma_sum_error(total, x);
            let (ke, kv) = (k * exact, k * v);
            assert(0 <= ke <= 0x80_0000 * exact && 0 <= kv) by (nonlinear_arith)
                requires
                    ke == k * exact,
                    kv == k * v,
                    0 <= k <= 0x80_0000,
                    exact >= 0,
                    v >= 0,
            ;
            assert((k + 1) * (exact + v) == ke + kv + exact + v) by (nonlinear_arith)
                requires
                    ke == k * exact,
                    kv == k * v,
            ;
        }
    }
}

/// The sums over pairs, against what they come to.
spec fn tallied(sums: PairSums, found: (int, int)) -> bool {
    &&& found.1 >= 0
    &&& sums.pairs.finite()
    &&& sums.pairs.units() == found.1 * crate::scalar::one_units()
    &&& adds_up(sums.total, found.0, found.1)
}

proof fn lemma_row_tallied(sim: Simulation, types: Seq<u32>, i: int, count: nat, sums: PairSums, found: (int, int))
    requires
        sim.radius.finite(),
        zero().le(sim.radius),
        tallied(sums, found),
        found.1 + count <= 0x80_0000,
    ensures
        ({
            let (sum, pairs) = row_rest(sim, types, i, count);
            &&& tallied(sim.row_sums(types, i, count, sums), (found.0 + sum, found.1 + pairs))
            &&& 0 <= pairs <= count
        }),
    decreases count,
{
    if count > 0 {
        let before = (count - 1) as nat;
        lemma_row_tallied(sim, types, i, before, sums, found);
        let (sum, pairs) = row_rest(sim, types, i, before);
        let (a, b) = (types[i] as int, types[i + count - 1] as int);
        let so_far = sim.row_sums(types, i, before, sums);
        if sim.bonded(a, b) {
            let x = sim.spacing_of_pair(a, b);
            crate::creatures::lemma_spacing_within_radius(sim, a, b);
            crate::order::lemma_order_of_values(x, sim.radius);
            crate::order::lemma_order_of_values(zero(), x);
            lemma_adds_up_next(so_far.total, found.0 + sum, found.1 + pairs, x);
            crate::spacing::lemma_pair_counted(so_far.pairs, found.1 + pairs);
        }
    }
}

proof fn lemma_sums_tallied(sim: Simulation, types: Seq<u32>, rows: nat)
    requires
        sim.radius.finite(),
        zero().le(sim.radius),
        rows <= types.len() <= 4095,
    ensures
        tallied(sim.pair_sums(types, rows), total_rest(sim, types, rows)),
        2 * total_rest(sim, types, rows).1 <= rows * (2 * types.len() - rows + 1),
    decreases rows,
{
    let len = types.len() as int;
    if rows == 0 {
        assert(0 * crate::scalar::one_units() == 0);
    } else {
        let n = rows as int;
        let count = (types.len() - rows + 1) as nat;
        lemma_sums_tallied(sim, types, (rows - 1) as nat);
        assert((n - 1) * (2 * len - (n - 1) + 1) + 2 * (len - n + 1) == n * (2 * len - n + 1)) by (nonlinear_arith);
        assert(n * (2 * len - n + 1) <= 4095 * 4096) by (nonlinear_arith)
            requires
                0 <= n <= len <= 4095,
        ;
        let found = total_rest(sim, types, (rows - 1) as nat);
        lemma_row_tallied(sim, types, rows - 1, count, sim.pair_sums(types, (rows - 1) as nat), found);
    }
}

/// A quotient of a sum that comes to `exact` by the number of its terms.
proof fn lemma_quotient_is_mean(total: Scalar, count: Scalar, exact: int, k: int)
    requires
        adds_up(total, exact, k),
        0 < k <= 0x80_0000,
        count.finite(),
        count.units() == k * crate::scalar::one_units(),
        total.div(count).finite(),
    ensures
        0x100_0000 * gap(k * total.div(count).units(), exact) <= (2 * k + 2) * exact + 0x100_0000 * k,
{
    let unit = crate::scalar::one_units();
    let (t, n, q) = (total.units(), count.units(), total.div(count).units());
    crate::rounding::lemma_p2_pos(149);
    assert(n > 0) by (nonlinear_arith)
        requires
            n == k * unit,
            k > 0,
            unit > 0,
    ;
    assert(total.finite());
    crate::order::lemma_quotient_error(total, count);
    let qk = k * q;
    let g = gap(qk, t);
    assert(q * n == qk * unit) by (nonlinear_arith)
        requires
            n == k * unit,
            qk == k * q,
    ;
    assert(gap(qk * unit, t * unit) == g * unit) by (nonlinear_arith)
        requires
            g == if qk < t { t - qk } else { qk - t },
            unit > 0,
    ;
    assert(t * unit >= 0) by (nonlinear_arith)
        requires
            t >= 0,
            unit > 0,
    ;
    if 0x100_0000 * (g * unit) <= t * unit {
        assert(0x100_0000 * g <= t) by (nonlinear_arith)
            requires
                0x100_0000 * (g * unit) <= t * unit,
                unit > 0,
        ;
    } else {
        assert(2 * g <= k) by (nonlinear_arith)
            requires
                2 * (g * unit) <= k * unit,
                unit > 0,
        ;
    }
    let ke = k * exact;
    assert(0 <= ke <= 0x80_0000 * exact) by (nonlinear_arith)
        requires
            ke == k * exact,
            0 <= k <= 0x80_0000,
            exact >= 0,
    ;
    assert((2 * k + 2) * exact == 2 * ke + 2 * exact) by (nonlinear_arith)
        requires
            ke == k * exact,
    ;
}

/// The spacing of a template is the mean of what the bonded pairs of its body rest apart,
/// each type with itself included, up to the rounding of the sum over so many of them.
pub proof fn lemma_template_is_the_mean_of_its_pairs(sim: Simulation, templates: Seq<CreatureTemplate>, i: int)
    requires
        sim.radius.finite(),
        zero().le(sim.radius),
        templates_of(templates, sim),
        0 <= i < templates.len(),
        templates[i].types@.len() <= 4095,
        templates[i].spacing.finite(),
        total_rest(sim, templates[i].types@, templates[i].types@.len()).1 > 0,
    ensures
        ({
            let (sum, pairs) = total_rest(sim, templates[i].types@, templates[i].types@.len());
            0x100_0000 * gap(pairs * templates[i].spacing.units(), sum) <= (2 * pairs + 2) * sum + 0x100_0000 * pairs
        }),
{
    let unit = crate::scalar::one_units();
    let types = templates[i].types@;
    let (len, sums) = (types.len() as int, sim.pair_sums(types, types.len()));
    let (sum, pairs) = total_rest(sim, types, types.len());
    assert(templates[i].describes(sim, sim.bodies(sim.types as nat)[i]));
    lemma_sums_tallied(sim, types, types.len());
    assert(len * (2 * len - len + 1) <= 4095 * 4096) by (nonlinear_arith)
        requires
            0 <= len <= 4095,
    ;
    crate::rounding::lemma_p2_pos(149);
    assert(pairs * unit > 0) by (nonlinear_arith)
        requires
            pairs > 0,
            unit > 0,
    ;
    crate::order::lemma_order_of_values(zero(), sums.pairs);
    lemma_quotient_is_mean(sums.total, sums.pairs, sum, pairs);
}

/// What the first `count` bodies rest apart, all together.
pub open spec fn total_spacing(sim: Simulation, count: nat) -> int
    decreases count,
{
    if count == 0 {
        0
    } else {
        total_spacing(sim, (count - 1) as nat) + sim.rest_spacing(sim.bodies(sim.types as nat)[count - 1]).units()
    }
}

proof fn lemma_spacings_add_up(sim: Simulation, count: nat, high: int)
    requires
        bodies_rest_between(sim, 0, high),
        count <= sim.bodies(sim.types as nat).len(),
        count <= 0x80_0000,
    ensures
        adds_up(sim.spacing_sum(count), total_spacing(sim, count), count as int),
    decreases count,
{
    if count == 0 {
        crate::rounding::lemma_grid_code(0, 0);
    } else {
        let before = (count - 1) as nat;
        lemma_spacings_add_up(sim, before, high);
        let rest = sim.rest_spacing(sim.bodies(sim.types as nat)[count - 1]);
        lemma_adds_up_next(sim.spacing_sum(before), total_spacing(sim, before), before as int, rest);
    }
}

/// The mean spacing is the mean of what all bodies rest apart, up to rounding.
pub proof fn lemma_mean_is_the_mean_of_bodies(sim: Simulation, high: int)
    requires
        sim.bodies(sim.types as nat).len() > 0,
        sim.types <= 0x80_0000,
        bodies_rest_between(sim, 0, high),
        sim.mean_rest_spacing().finite(),
    ensures
        ({
            let count = sim.bodies(sim.types as nat).len();
            let sum = total_spacing(sim, count);
            0x100_0000 * gap(count * sim.mean_rest_spacing().units(), sum) <= (2 * count + 2) * sum + 0x100_0000 * count
        }),
{
    let count = sim.bodies(sim.types as nat).len();
    crate::creatures::lemma_bodies_few(sim, sim.types as nat);
    crate::order::lemma_small_count(count as u32);
    lemma_spacings_add_up(sim, count, high);
    lemma_quotient_is_mean(
        sim.spacing_sum(count),
        Scalar::from_u32(count as u32),
        total_spacing(sim, count),
        count as int,
    );
}

/// Every template of a world of up to 2640 types has a finite spacing.
pub proof fn lemma_template_spacing_finite(sim: Simulation, templates: Seq<CreatureTemplate>, i: int)
    requires
        sim.types <= 2640,
        zero().lt(sim.radius),
        sim.radius.le(scalar(0x7180_0000)),  // 1267650600228229401496703205376.0
        templates_of(templates, sim),
        0 <= i < templates.len(),
    ensures
        templates[i].spacing.finite(),
        templates[i].spacing.units() >= 0,
        templates[i].types@.len() <= sim.types,
{
    let body = sim.bodies(sim.types as nat)[i];
    assert(templates[i].describes(sim, body));
    crate::creatures::lemma_bodies_fit(sim, sim.types as nat, i);
    crate::spacing::lemma_rest_is_finite(sim, body);
}

/// A body of one type rests exactly as far apart as the type does from itself.
pub proof fn lemma_lone_type_rests_at_its_own_spacing(sim: Simulation, templates: Seq<CreatureTemplate>, i: int, a: u32)
    requires
        sim.radius.finite(),
        zero().le(sim.radius),
        templates_of(templates, sim),
        0 <= i < templates.len(),
        templates[i].types@ == seq![a],
        sim.bonded(a as int, a as int),
    ensures
        templates[i].spacing.finite(),
        templates[i].spacing.units() == sim.spacing_of_pair(a as int, a as int).units(),
{
    let (types, x) = (seq![a], sim.spacing_of_pair(a as int, a as int));
    assert(templates[i].describes(sim, sim.bodies(sim.types as nat)[i]));
    let none = PairSums { total: zero(), pairs: zero() };
    let sums = sim.pair_sums(types, types.len());
    assert(sums == sim.with_pair(none, a as int, a as int)) by {
        reveal_with_fuel(Simulation::pair_sums, 2);
        reveal_with_fuel(Simulation::row_sums, 2);
    }
    crate::creatures::lemma_spacing_within_radius(sim, a as int, a as int);
    crate::order::lemma_order_of_values(x, sim.radius);
    crate::order::lemma_order_of_values(zero(), x);
    lemma_mean_of_one(x);
}

proof fn lemma_mean_of_one(x: Scalar)
    requires
        x.finite(),
        x.units() >= 0,
    ensures
        zero().lt(zero().add(one())),
        zero().add(x).div(zero().add(one())).finite(),
        zero().add(x).div(zero().add(one())).units() == x.units(),
{
    let unit = crate::scalar::one_units();
    let (total, count) = (zero().add(x), zero().add(one()));
    crate::rounding::lemma_p2_pos(149);
    crate::rounding::lemma_p2_values();
    crate::rounding::lemma_grid_code(0, 0);
    crate::order::lemma_power_of_two(0);
    crate::order::lemma_sum_bounds(zero(), x, x);
    crate::order::lemma_order_of_values(total, x);
    crate::order::lemma_order_of_values(x, total);
    crate::order::lemma_sum_bounds(zero(), one(), one());
    crate::order::lemma_order_of_values(count, one());
    crate::order::lemma_order_of_values(one(), count);
    crate::order::lemma_order_of_values(zero(), count);
    assert(count.finite() && count.units() == unit && total.finite() && total.units() == x.units());
    lemma_over_one(total, count);
}

proof fn lemma_over_one(total: Scalar, count: Scalar)
    requires
        total.finite(),
        count.finite(),
        count.units() == crate::scalar::one_units(),
    ensures
        total.div(count).finite(),
        total.div(count).units() == total.units(),
{
    crate::rounding::lemma_p2_pos(149);
    crate::order::lemma_quotient_bounds(total, count, total);
    crate::order::lemma_order_of_values(total.div(count), total);
    crate::order::lemma_order_of_values(total, total.div(count));
}

proof fn lemma_least_among(counts: Seq<u32>) -> (j: int)
    requires
        counts.len() > 0,
    ensures
        0 <= j < counts.len(),
        forall|i: int| 0 <= i < counts.len() ==> counts[j] <= #[trigger] counts[i],
    decreases counts.len(),
{
    if counts.len() == 1 {
        0
    } else {
        let shorter = counts.drop_last();
        let j = lemma_least_among(shorter);
        assert forall|i: int| 0 <= i < counts.len() - 1 implies counts[j] <= #[trigger] counts[i] by {
            assert(shorter[j] <= shorter[i]);
        }
        if counts.last() < counts[j] {
            counts.len() - 1
        } else {
            j
        }
    }
}

/// A body that holds the share its own template asks for passes the one bar that is set
/// for all of them, and some template asks for no less than that bar.
pub proof fn lemma_no_body_is_asked_for_more(sim: Simulation)
    ensures
        ({
            let bodies = sim.bodies(sim.types as nat);
            &&& forall|i: int| 0 <= i < bodies.len() ==> sim.smallest_share() <= #[trigger] sim.share(bodies[i])
            &&& bodies.len() > 0 ==> exists|i: int|
                0 <= i < bodies.len() && #[trigger] sim.share(bodies[i]) == sim.smallest_share()
        }),
{
    let bodies = sim.bodies(sim.types as nat);
    if bodies.len() > 0 {
        let counts = Seq::new(bodies.len(), |i: int| sim.share(bodies[i]));
        let j = lemma_least_among(counts);
        assert forall|i: int| 0 <= i < bodies.len() implies sim.share(bodies[j]) <= #[trigger] sim.share(bodies[i]) by {
            assert(counts[j] <= counts[i]);
        }
        assert(sim.least_of_shares(sim.share(bodies[j])));
    }
}

} // verus!
