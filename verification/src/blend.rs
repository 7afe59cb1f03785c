//! How a palette is spread over the types.
use vstd::prelude::*;

use crate::model::{palette_position, type_color, unpack, Rgb, PALETTES};
use crate::order::gap;
use crate::scalar::{scalar, Scalar};

verus! {

/// A color as 0xRRGGBB.
pub open spec fn packed(color: Rgb) -> int {
    color.red * 0x1_0000 + color.green * 0x100 + color.blue
}

/// Unpacking a color loses none of its digits.
pub proof fn lemma_unpacked(hex: u32)
    ensures
        packed(unpack(hex)) == hex % 0x100_0000,
{
}

/// Up to eight types have the anchors themselves, one after the other.
pub proof fn lemma_few_types_have_anchors(palette: usize, index: u32, types: u32)
    requires
        palette < 4,
        types <= 8,
    ensures
        type_color(palette, index, types) is Anchor,
        packed(type_color(palette, index, types)->Anchor_0) == PALETTES[palette as int].1[index as int % 8] % 0x100_0000,
{
    lemma_unpacked(PALETTES[palette as int].1[index as int % 8]);
}

/// Eight times the index, over the number of types, is what the position comes to.
proof fn lemma_position(index: u32, types: u32)
    requires
        index < types <= 0x10_0000,
    ensures
        ({
            let unit = crate::scalar::one_units();
            let q = palette_position(index, types);
            let place = 8 * index / types as int;
            &&& q.finite()
            &&& place * unit <= q.units() < (place + 1) * unit
            &&& 0 <= place < 8
            &&& 0x100_0000 * gap(q.units() * types, 8 * index * unit) <= 8 * index * unit
            &&& 8 * index % types as int == 0 ==> q.units() == place * unit
        }),
{
    let unit = crate::scalar::one_units();
    let (n, i) = (types as int, index as int);
    let place = 8 * i / n;
    let rest = 8 * i % n;
    let eight = scalar(0x4100_0000);  // 8.0
    let (a, b) = (Scalar::from_u32(index), Scalar::from_u32(types));
    let p = a.mul(eight);
    let q = palette_position(index, types);
    crate::rounding::lemma_p2_pos(149);
    crate::rounding::lemma_p2_u128();
    crate::rounding::lemma_p2_monotone(40, 149);
    vstd::arithmetic::power2::lemma2_to64();
    vstd::arithmetic::div_mod::lemma_fundamental_div_mod(8 * i, n);
    vstd::arithmetic::div_mod::lemma_mod_bound(8 * i, n);
    assert(8 * i == place * n + rest) by (nonlinear_arith)
        requires
            8 * i == n * place + rest,
    ;
    assert(0 <= place < 8) by (nonlinear_arith)
        requires
            8 * i == place * n + rest,
            0 <= rest < n,
            0 <= i < n,
    ;
    crate::order::lemma_small_count(index);
    crate::order::lemma_small_count(types);
    crate::order::lemma_small_count((8 * index) as u32);
    crate::order::lemma_small_count(place as u32);
    crate::order::lemma_whole_value(eight, 8, 20);
    let eightfold = Scalar::from_u32((8 * index) as u32);
    let whole = Scalar::from_u32(place as u32);
    assert((i * unit) * (8 * unit) == (8 * i * unit) * unit) by (nonlinear_arith);
    crate::order::lemma_product_bounds(a, eight, eightfold);
    crate::order::lemma_order_of_values(p, eightfold);
    assert(p.finite() && p.units() == 8 * i * unit);
    let (t, d) = (p.units(), b.units());
    assert(d > 0) by (nonlinear_arith)
        requires
            d == n * unit,
            n > 0,
            unit > 0,
    ;
    assert((place * unit) * d <= t * unit <= (8 * unit) * d) by (nonlinear_arith)
        requires
            t == 8 * i * unit,
            d == n * unit,
            place * n <= 8 * i <= 8 * n,
            unit > 0,
    ;
    crate::order::lemma_quotient_bounds(p, b, whole);
    crate::order::lemma_quotient_bounds(p, b, eight);
    crate::order::lemma_order_of_values(whole, q);
    crate::order::lemma_order_of_values(q, eight);
    assert(q.finite());
    if rest == 0 {
        assert(t * unit <= (place * unit) * d) by (nonlinear_arith)
            requires
                t == 8 * i * unit,
                d == n * unit,
                place * n == 8 * i,
                unit > 0,
        ;
        crate::order::lemma_order_of_values(q, whole);
    }
    crate::order::lemma_quotient_error(p, b);
    let v = q.units();
    let exact = 8 * i * unit;
    let g = gap(v * n, exact);
    assert(v * d == (v * n) * unit) by (nonlinear_arith)
        requires
            d == n * unit,
    ;
    assert(gap((v * n) * unit, exact * unit) == g * unit) by (nonlinear_arith)
        requires
            g == if v * n < exact { exact - v * n } else { v * n - exact },
            unit > 0,
    ;
    assert(exact * unit >= 0) by (nonlinear_arith)
        requires
            exact == 8 * i * unit,
            i >= 0,
            unit > 0,
    ;
    if i == 0 {
        assert(g == 0) by (nonlinear_arith)
            requires
                v == place * unit,
                place * n == 8 * i,
                g == if v * n < exact { exact - v * n } else { v * n - exact },
                exact == 8 * i * unit,
                i == 0,
                n > 0,
        ;
    } else if 0x100_0000 * (g * unit) <= exact * unit {
        assert(0x100_0000 * g <= exact) by (nonlinear_arith)
            requires
                0x100_0000 * (g * unit) <= exact * unit,
                unit > 0,
        ;
    } else {
        assert(2 * g <= n) by (nonlinear_arith)
            requires
                2 * (g * unit) <= n * unit,
                unit > 0,
        ;
        assert(exact >= 8 * unit) by (nonlinear_arith)
            requires
                exact == 8 * i * unit,
                i >= 1,
                unit > 0,
        ;
    }
    assert(8 * i < (place + 1) * n) by (nonlinear_arith)
        requires
            8 * i == place * n + rest,
            rest < n,
    ;
    assert(v < (place + 1) * unit) by (nonlinear_arith)
        requires
            0x100_0000 * g <= exact,
            g >= v * n - exact,
            exact == 8 * i * unit,
            8 * i < (place + 1) * n,
            0 <= i < 0x10_0000,
            n > 0,
            unit > 0,
    ;
}

/// Beyond eight types, each is a blend of the anchor that its share of the way around
/// the palette has reached and of the next one. The fraction is what is left of the
/// way from the first of the two: where nothing is left, the type has that anchor's
/// color alone.
pub proof fn lemma_blend_follows_index(palette: usize, index: u32, types: u32)
    requires
        palette < 4,
        8 < types <= 0x10_0000,
        index < types,
    ensures
        ({
            let unit = crate::scalar::one_units();
            let color = type_color(palette, index, types);
            let place = 8 * index / types as int;
            let rest = 8 * index % types as int;
            &&& color is Blend
            &&& packed(color->from) == PALETTES[palette as int].1[place % 8] % 0x100_0000
            &&& packed(color->to) == PALETTES[palette as int].1[(place + 1) % 8] % 0x100_0000
            &&& color->fraction.finite()
            &&& 0 <= color->fraction.units() < unit
            &&& color->fraction.units() == palette_position(index, types).units() - place * unit
            &&& 0x100_0000 * gap(color->fraction.units() * types, rest * unit) <= 8 * index * unit
            &&& rest == 0 ==> color->fraction.units() == 0
        }),
{
    let unit = crate::scalar::one_units();
    let (n, i) = (types as int, index as int);
    let place = 8 * i / n;
    let rest = 8 * i % n;
    let q = palette_position(index, types);
    lemma_position(index, types);
    crate::rounding::lemma_p2_pos(149);
    crate::scalar::lemma_self_rounding(q);
    vstd::arithmetic::power2::lemma2_to64();
    crate::order::lemma_power_of_two(24);
    assert(place * unit >= 0 && (place + 1) * unit <= 8 * unit) by (nonlinear_arith)
        requires
            0 <= place < 8,
            unit > 0,
    ;
    assert(scalar(0x4b80_0000).units() == 0x100_0000 * unit);  // 16777216.0
    vstd::arithmetic::div_mod::lemma_fundamental_div_mod(8 * i, n);
    crate::order::lemma_order_of_values(crate::scalar::zero(), q);
    crate::order::lemma_order_of_values(q, scalar(0x4b80_0000));  // 16777216.0
    crate::order::lemma_fraction_exact(q);
    assert((place + 1) * unit == place * unit + unit) by (nonlinear_arith);
    vstd::arithmetic::div_mod::lemma_fundamental_div_mod_converse(q.units(), unit, place, q.units() - place * unit);
    if q.negative() {
        assert(q.size() == 0);
        assert(place * unit == 0);
        assert(place == 0) by (nonlinear_arith)
            requires
                place * unit == 0,
                unit > 0,
        ;
        vstd::arithmetic::div_mod::lemma_basic_div(0, unit);
        assert(q.trunc() == q);
    } else {
        crate::order::lemma_small_count(place as u32);
        assert(q.trunc() == Scalar::from_u32(place as u32));
    }
    assert(q.to_u32() == place);
    let fraction = q.fract();
    assert(fraction.units() == q.units() - place * unit);
    let f = fraction.units();
    assert(f * n - rest * unit == q.units() * n - 8 * i * unit) by (nonlinear_arith)
        requires
            f == q.units() - place * unit,
            8 * i == n * place + rest,
    ;
    lemma_unpacked(PALETTES[palette as int].1[place % 8]);
    lemma_unpacked(PALETTES[palette as int].1[(place + 1) % 8]);
}

/// Between two anchors, later types are closer to the second.
pub proof fn lemma_blend_grows(palette: usize, first: u32, second: u32, types: u32)
    requires
        palette < 4,
        8 < types <= 0x10_0000,
        first < second < types,
        8 * first / types as int == 8 * second / types as int,
    ensures
        ({
            let (a, b) = (type_color(palette, first, types), type_color(palette, second, types));
            &&& a is Blend && b is Blend
            &&& a->from == b->from
            &&& a->to == b->to
            &&& a->fraction.units() < b->fraction.units()
        }),
{
    let unit = crate::scalar::one_units();
    let (n, i, j) = (types as int, first as int, second as int);
    crate::rounding::lemma_p2_pos(149);
    lemma_blend_follows_index(palette, first, types);
    lemma_blend_follows_index(palette, second, types);
    lemma_position(first, types);
    lemma_position(second, types);
    let (p, q) = (palette_position(first, types).units(), palette_position(second, types).units());
    assert(p < q) by (nonlinear_arith)
        requires
            0x100_0000 * (p * n - 8 * i * unit) <= 8 * i * unit,
            0x100_0000 * (8 * j * unit - q * n) <= 8 * j * unit,
            0 <= i < j < 0x10_0000,
            n > 0,
            unit > 0,
    ;
    crate::order::lemma_order_of_values(palette_position(first, types), palette_position(second, types));
    assert(palette_position(first, types).to_u32() == palette_position(second, types).to_u32()) by {
        lemma_whole_part(first, types);
        lemma_whole_part(second, types);
    }
}

/// The whole part of a position is the anchor that it has reached.
proof fn lemma_whole_part(index: u32, types: u32)
    requires
        index < types <= 0x10_0000,
    ensures
        palette_position(index, types).to_u32() == 8 * index / types as int,
{
    let unit = crate::scalar::one_units();
    let place = 8 * index / types as int;
    let q = palette_position(index, types);
    lemma_position(index, types);
    crate::rounding::lemma_p2_pos(149);
    crate::scalar::lemma_self_rounding(q);
    assert(place * unit >= 0 && (place + 1) * unit == place * unit + unit) by (nonlinear_arith)
        requires
            place >= 0,
            unit > 0,
    ;
    vstd::arithmetic::div_mod::lemma_fundamental_div_mod_converse(q.units(), unit, place, q.units() - place * unit);
    if q.negative() {
        assert(place == 0) by (nonlinear_arith)
            requires
                place * unit <= 0,
                place >= 0,
                unit > 0,
        ;
        vstd::arithmetic::div_mod::lemma_basic_div(0, unit);
    }
}

} // verus!
