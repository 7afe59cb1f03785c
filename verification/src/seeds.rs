//! How rules follow from the seed of a world.
use vstd::prelude::*;

use crate::interaction::ParticleDump;
use crate::model::{hash, random_distance, random_matrix, random_rule, rule_digits, GpuStatus, RuleKind, Simulation};
use crate::order::gap;
use crate::scalar::{one, scalar, two, zero, Scalar};
use crate::ui::{Action, Controls};

verus! {

/// The digits of entry `i` are the last 24 of the scrambled sum of seed and `i`, so a
/// seed that is one higher moves every entry up by one.
pub proof fn lemma_digits_of_entry(seed: u32, i: u64)
    ensures
        rule_digits(seed, i) == hash(((seed + i) % 0x1_0000_0000) as u32) % 0x100_0000,
        i < u64::MAX && seed < u32::MAX ==> random_rule((seed + 1) as u32, i) == random_rule(seed, (i + 1) as u64),
{
    lemma_digits(seed, i);
    if i < u64::MAX && seed < u32::MAX {
        lemma_digits((seed + 1) as u32, i);
        lemma_digits(seed, (i + 1) as u64);
    }
}

proof fn lemma_digits(seed: u32, i: u64)
    ensures
        rule_digits(seed, i) == hash(((seed + i) % 0x1_0000_0000) as u32) % 0x100_0000,
{
    let low = (i % 0x1_0000_0000) as u32;
    let sum = low.wrapping_add(seed);
    assert(sum == (seed + i) % 0x1_0000_0000);
    let word = hash(sum);
    assert(word & 0xff_ffff == word % 0x100_0000) by (bit_vector);
}

/// The digits are spread evenly from -1 to 1: up to rounding, an entry is twice its
/// digits over the largest that 24 digits can be, less one.
pub proof fn lemma_rule_spreads_digits(seed: u32, i: u64)
    ensures
        ({
            let unit = crate::scalar::one_units();
            let value = random_rule(seed, i);
            &&& value.finite()
            &&& 0x40_0000 * gap(value.units() * 0xff_ffff, (2 * rule_digits(seed, i) - 0xff_ffff) * unit) <= 0xff_ffff
                * unit
        }),
{
    let unit = crate::scalar::one_units();
    let digits = rule_digits(seed, i);
    let d = digits as int;
    let most = scalar(0x4aff_ffff);  // 8388607.5
    let count = Scalar::from_u32(digits);
    let minus = one().neg();
    lemma_digits(seed, i);
    crate::rounding::lemma_p2_pos(149);
    crate::rounding::lemma_p2_values();
    crate::rounding::lemma_p2_u128();
    crate::rounding::lemma_p2_monotone(40, 149);
    crate::rounding::lemma_p2_step(148);
    crate::rounding::lemma_grid_code(148, 0xff_ffff);
    crate::order::lemma_power_of_two(0);
    crate::order::lemma_power_of_two(1);
    crate::order::lemma_small_count(digits);
    assert(2 * most.units() == 0xff_ffff * unit);
    let (c, m) = (count.units(), most.units());
    assert(0 * m <= c * unit <= (2 * unit) * m) by (nonlinear_arith)
        requires
            c == d * unit,
            0 <= d <= 0xff_ffff,
            2 * m == 0xff_ffff * unit,
            unit > 0,
    ;
    let part = count.div(most);
    crate::order::lemma_quotient_bounds(count, most, zero());
    crate::order::lemma_quotient_bounds(count, most, two());
    crate::order::lemma_order_of_values(zero(), part);
    crate::order::lemma_order_of_values(part, two());
    crate::order::lemma_quotient_error(count, most);
    crate::order::lemma_sum_bounds(part, minus, one());
    crate::order::lemma_sum_bounds(part, minus, minus);
    let value = part.add(minus);
    crate::order::lemma_order_of_values(value, one());
    crate::order::lemma_order_of_values(minus, value);
    crate::order::lemma_sum_error(part, minus);
    let p = part.units();
    let exact = 2 * d * unit;
    let g = gap(p * 0xff_ffff, exact);
    assert(2 * gap(p * m, c * unit) == g * unit) by (nonlinear_arith)
        requires
            2 * m == 0xff_ffff * unit,
            c == d * unit,
            exact == 2 * d * unit,
            g == if p * 0xff_ffff < exact { exact - p * 0xff_ffff } else { p * 0xff_ffff - exact },
            unit > 0,
    ;
    assert(exact <= 2 * 0xff_ffff * unit && 2 * (c * unit) == exact * unit && c * unit >= 0) by (nonlinear_arith)
        requires
            c == d * unit,
            exact == 2 * d * unit,
            0 <= d <= 0xff_ffff,
            unit > 0,
    ;
    if 0x100_0000 * gap(p * m, c * unit) <= c * unit {
        assert(0x100_0000 * g <= exact) by (nonlinear_arith)
            requires
                0x100_0000 * (g * unit) <= exact * unit,
                unit > 0,
        ;
    } else {
        assert(2 * g <= 0xff_ffff) by (nonlinear_arith)
            requires
                2 * (g * unit) <= 0xff_ffff * unit,
                unit > 0,
        ;
    }
    assert((2 * d - 0xff_ffff) * unit == exact - 0xff_ffff * unit) by (nonlinear_arith)
        requires
            exact == 2 * d * unit,
    ;
}

/// Every entry of a randomized matrix follows from the world's own seed, its kind and
/// its place, and from nothing else.
pub proof fn lemma_randomized_by_seed(before: Simulation, after: Simulation, kind: RuleKind, i: int)
    requires
        after.replaces(before, kind, before.random_entries(kind)),
        0 <= i < before.types * before.types,
    ensures
        after.entries(kind).len() == before.types * before.types,
        ({
            let value = random_rule(before.seed ^ kind.salt(), i as u64);
            after.entries(kind)[i] == if kind == RuleKind::Distance {
                random_distance(value)
            } else {
                value
            }
        }),
        after.seed == before.seed,
{
}

/// Attraction is randomized to what a new world of the same seed has.
pub proof fn lemma_attraction_as_in_a_new_world(s: Simulation)
    ensures
        s.random_entries(RuleKind::Attraction) == random_matrix(s.types, s.seed),
{
    let seed = s.seed;
    assert(seed ^ 0 == seed) by (bit_vector);
}

/// The matrices of one seed are seeded apart, and those of two seeds too.
pub proof fn lemma_kinds_seeded_apart(seed: u32, other: u32, kind: RuleKind, another: RuleKind)
    ensures
        kind != another ==> seed ^ kind.salt() != seed ^ another.salt(),
        seed != other ==> seed ^ kind.salt() != other ^ kind.salt(),
{
    let (a, b) = (kind.salt(), another.salt());
    assert(a != b ==> seed ^ a != seed ^ b) by (bit_vector);
    assert(seed != other ==> seed ^ a != other ^ a) by (bit_vector);
}

/// The button takes a new seed first, so that pressing it again goes on to other rules:
/// afterwards the world has the scrambled seed, and the rules that follow from it.
pub proof fn lemma_button_reseeds(before: Simulation, after: Simulation, c: Controls, status: GpuStatus, kind: RuleKind, i: int)
    requires
        Action::Randomize(kind).on_world(before, after, c, status),
        0 <= i < before.types * before.types,
    ensures
        after.seed == hash(before.seed),
        after.types == before.types,
        ({
            let value = random_rule(after.seed ^ kind.salt(), i as u64);
            after.entries(kind)[i] == if kind == RuleKind::Distance {
                random_distance(value)
            } else {
                value
            }
        }),
{
}

/// Distances are spread evenly too, from a quarter to four fifths of the radius: up to
/// rounding, a value from -1 to 1 gives 10 fortieths and 11 more for each one it is
/// above -1.
pub proof fn lemma_distance_spreads_value(value: Scalar)
    requires
        (scalar(0xbf80_0000)).le(value),  // -1.0
        value.le(one()),
    ensures
        ({
            let unit = crate::scalar::one_units();
            let distance = random_distance(value);
            &&& distance.finite()
            &&& 0x10_0000 * gap(40 * distance.units(), 10 * unit + 11 * (value.units() + unit)) <= 40 * unit
        }),
{
    let unit = crate::scalar::one_units();
    let place = crate::rounding::p2(124);
    let (factor, base) = (scalar(0x3e8c_cccd), scalar(0x3e80_0000));  // 0.275, 0.25
    crate::laws::lemma_random_distance_bounded(value);
    crate::rounding::lemma_p2_pos(149);
    crate::rounding::lemma_p2_pos(124);
    crate::rounding::lemma_p2_values();
    crate::rounding::lemma_p2_u128();
    crate::rounding::lemma_p2_monotone(40, 124);
    vstd::arithmetic::power2::lemma2_to64();
    crate::rounding::lemma_p2_adds(25, 124);
    crate::rounding::lemma_grid_code(124, 0x8c_cccd);
    crate::rounding::lemma_grid_code(124, 0x80_0000);
    crate::order::lemma_power_of_two(0);
    crate::order::lemma_power_of_two(1);
    assert(unit == 0x200_0000 * place);
    assert(factor.units() == 0x8c_cccd * place && base.units() == 0x80_0000 * place);
    crate::order::lemma_order_of_values(scalar(0xbf80_0000), value);  // -1.0
    crate::order::lemma_order_of_values(value, one());
    let shifted = value.add(one());
    crate::order::lemma_sum_bounds(value, one(), zero());
    crate::order::lemma_sum_bounds(value, one(), two());
    crate::order::lemma_order_of_values(zero(), shifted);
    crate::order::lemma_order_of_values(shifted, two());
    crate::order::lemma_sum_error(value, one());
    let (s, f) = (shifted.units(), factor.units());
    let part = shifted.mul(factor);
    assert(0 * unit <= s * f <= (2 * unit) * unit) by (nonlinear_arith)
        requires
            0 <= s <= 2 * unit,
            0 <= f <= unit,
    ;
    crate::order::lemma_product_bounds(shifted, factor, zero());
    crate::order::lemma_product_bounds(shifted, factor, two());
    crate::order::lemma_order_of_values(zero(), part);
    crate::order::lemma_order_of_values(part, two());
    crate::order::lemma_product_error(shifted, factor);
    let distance = base.add(part);
    crate::order::lemma_order_of_values(base, distance);
    crate::order::lemma_order_of_values(distance, scalar(0x3f4c_cccd));  // 0.8
    crate::order::lemma_sum_error(base, part);
    let (p, x) = (part.units(), s * f);
    let e = gap(p * unit, x);
    assert(40 * x == (11 * s) * unit + (8 * s) * place) by (nonlinear_arith)
        requires
            x == s * f,
            f == 0x8c_cccd * place,
            unit == 0x200_0000 * place,
    ;
    let over = 40 * p - 11 * s;
    assert(over * unit == 40 * (p * unit) - (11 * s) * unit) by (nonlinear_arith)
        requires
            over == 40 * p - 11 * s,
    ;
    assert(0 <= (8 * s) * place <= (16 * place) * unit) by (nonlinear_arith)
        requires
            0 <= s <= 2 * unit,
            place > 0,
    ;
    assert(x <= (2 * f) * unit) by (nonlinear_arith)
        requires
            x == s * f,
            s <= 2 * unit,
            f >= 0,
    ;
    assert(0x100_0000 * e <= (2 * f) * unit + 0x100_0000 * unit);
    assert((2 * f) * unit <= (0x100_0000 * (2 * place)) * unit) by (nonlinear_arith)
        requires
            f <= 0x100_0000 * place,
            unit > 0,
    ;
    assert(e <= (2 * place) * unit + unit);
    assert(gap(over * unit, 0) <= 40 * ((2 * place) * unit + unit) + (16 * place) * unit);
    assert(gap(over, 0) <= 96 * place + 40) by (nonlinear_arith)
        requires
            over * unit <= 40 * ((2 * place) * unit + unit) + (16 * place) * unit,
            -(over * unit) <= 40 * ((2 * place) * unit + unit) + (16 * place) * unit,
            unit > 0,
    ;
}

/// Multiplying by an odd number can be undone.
proof fn lemma_odd_factor(a: u32, b: u32, factor: u32, inverse: int, turns: int)
    requires
        factor * inverse == 1 + turns * 0x1_0000_0000,
        a.wrapping_mul(factor) == b.wrapping_mul(factor),
    ensures
        a == b,
{
    let n = 0x1_0000_0000int;
    let (x, y, c) = (a as int, b as int, factor as int);
    assert((x * c) % n == (y * c) % n);
    vstd::arithmetic::div_mod::lemma_mul_mod_noop_left(x * c, inverse, n);
    vstd::arithmetic::div_mod::lemma_mul_mod_noop_left(y * c, inverse, n);
    assert((x * c) * inverse == x + n * (x * turns) && (y * c) * inverse == y + n * (y * turns)) by (nonlinear_arith)
        requires
            c * inverse == 1 + turns * n,
    ;
    vstd::arithmetic::div_mod::lemma_mod_multiples_vanish(x * turns, x, n);
    vstd::arithmetic::div_mod::lemma_mod_multiples_vanish(y * turns, y, n);
    vstd::arithmetic::div_mod::lemma_small_mod(x as nat, n as nat);
    vstd::arithmetic::div_mod::lemma_small_mod(y as nat, n as nat);
}

/// Scrambling keeps words apart: no two of them become one.
pub proof fn lemma_scrambled_apart(x: u32, y: u32)
    requires
        x != y,
    ensures
        hash(x) != hash(y),
{
    let (a, b) = (x ^ (x >> 16u32), y ^ (y >> 16u32));
    let (c, d) = (a.wrapping_mul(0x7feb352d), b.wrapping_mul(0x7feb352d));
    let (e, f) = (c ^ (c >> 15u32), d ^ (d >> 15u32));
    let (g, h) = (e.wrapping_mul(0x846ca68b), f.wrapping_mul(0x846ca68b));
    assert(x != y ==> x ^ (x >> 16u32) != y ^ (y >> 16u32)) by (bit_vector);
    assert(c != d) by {
        if c == d {
            lemma_odd_factor(a, b, 0x7feb352d, 0x1d69_e2a5, 246_582_719);
        }
    }
    assert(c != d ==> c ^ (c >> 15u32) != d ^ (d >> 15u32)) by (bit_vector);
    assert(g != h) by {
        if g == h {
            lemma_odd_factor(e, f, 0x846ca68b, 0x4302_1123, 581_534_029);
        }
    }
    assert(g != h ==> g ^ (g >> 16u32) != h ^ (h >> 16u32)) by (bit_vector);
}

/// The particles of a batch are drawn apart, and so are those of two batches or of two
/// worlds: two particles that differ in their place alone, or in the number of their batch
/// alone, or in the seed alone, have two random words.
pub proof fn lemma_particles_drawn_apart(dump: ParticleDump, other: ParticleDump, seed: u32, another: u32, i: u32, j: u32)
    ensures
        i != j ==> dump.key(seed, i) != dump.key(seed, j),
        dump.serial % 0x1_0000_0000 != other.serial % 0x1_0000_0000 ==> dump.key(seed, i) != other.key(seed, i),
        seed != another ==> dump.key(seed, i) != dump.key(another, i),
{
    let (s, t) = ((dump.serial % 0x1_0000_0000) as u32, (other.serial % 0x1_0000_0000) as u32);
    let (a, b) = (s.wrapping_mul(1664525), t.wrapping_mul(1664525));
    assert(i != j ==> seed ^ a ^ i != seed ^ a ^ j) by (bit_vector);
    assert(a != b ==> seed ^ a ^ i != seed ^ b ^ i) by (bit_vector);
    assert(seed != another ==> seed ^ a ^ i != another ^ a ^ i) by (bit_vector);
    if i != j {
        lemma_scrambled_apart(seed ^ a ^ i, seed ^ a ^ j);
    }
    if s != t {
        assert(a != b) by {
            if a == b {
                lemma_odd_factor(s, t, 1664525, 0xfee0_58c5, 1_657_219);
            }
        }
        lemma_scrambled_apart(seed ^ a ^ i, seed ^ b ^ i);
    }
    if seed != another {
        lemma_scrambled_apart(seed ^ a ^ i, another ^ a ^ i);
    }
}

} // verus!
