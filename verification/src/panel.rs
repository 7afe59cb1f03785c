//! What the sidebar shows: texts, scroll positions and the visible part of the
//! rule matrices.
use vstd::prelude::*;
use vstd::string::StringExecFns;

use crate::interaction::Tool;
use crate::model::{Appearance, Rgb, RuleKind, Simulation, PALETTES};
use crate::scalar::{one, scalar, zero, Scalar};
use crate::text::decimal;
use crate::ui::{viewport_geometry, Action, Controls, Integer};
use crate::vector::{UVec2, Vec2};

verus! {

/// How far content can be scrolled within a view, in logical pixels.
#[verifier::allow_in_spec]
pub fn scroll_limit(content: Vec2, view: Vec2, inverse_scale: Scalar) -> Vec2
    returns
        content.sub(view).scale(inverse_scale).max(Vec2::splat(zero())),
{
    content.sub(view).scale(inverse_scale).max(Vec2::splat(zero()))
}

/// A scroll position, and what is left of a scroll for the views around.
#[derive(Clone, Copy, PartialEq, Eq, Structural, Debug)]
pub struct Scrolled {
    pub position: Vec2,
    pub delta: Vec2,
    /// Too little is left to go on.
    pub done: bool,
}

/// Scrolls along one axis up to its limit: the new position and what is left.
#[verifier::allow_in_spec]
pub fn scroll_axis(position: Scalar, delta: Scalar, limit: Scalar) -> (Scalar, Scalar)
    returns
        ({
            let after = position.add(delta).clamp(zero(), limit);
            (after, delta.sub(after.sub(position)))
        }),
{
    let after: Scalar = position.add(delta).clamp(zero(), limit);
    (after, delta.sub(after.sub(position)))
}

/// Scrolls a view along the axes that scroll.
#[verifier::allow_in_spec]
pub fn scroll(position: Vec2, delta: Vec2, limit: Vec2, horizontal: bool, vertical: bool) -> Scrolled
    returns
        ({
            let x = if horizontal {
                scroll_axis(position.x, delta.x, limit.x)
            } else {
                (position.x, delta.x)
            };
            let y = if vertical {
                scroll_axis(position.y, delta.y, limit.y)
            } else {
                (position.y, delta.y)
            };
            Scrolled {
                position: Vec2 { x: x.0, y: y.0 },
                delta: Vec2 { x: x.1, y: y.1 },
                done: (Vec2 { x: x.1, y: y.1 }).length_squared().lt(scalar(0x3c23_d70a)),  // 0.01
            }
        }),
{
    let x: (Scalar, Scalar) = if horizontal {
        scroll_axis(position.x, delta.x, limit.x)
    } else {
        (position.x, delta.x)
    };
    let y: (Scalar, Scalar) = if vertical {
        scroll_axis(position.y, delta.y, limit.y)
    } else {
        (position.y, delta.y)
    };
    let rest: Vec2 = Vec2 { x: x.1, y: y.1 };
    Scrolled {
        position: Vec2 { x: x.0, y: y.0 },
        delta: rest,
        done: rest.length_squared().lt(scalar(0x3c23_d70a)),  // 0.01
    }
}

/// Scrolling never leaves the content.
pub proof fn lemma_scroll_stays_inside(position: Scalar, delta: Scalar, content: Vec2, view: Vec2, inverse_scale: Scalar)
    requires
        position.finite(),
        delta.finite(),
    ensures
        ({
            let limit = scroll_limit(content, view, inverse_scale);
            &&& zero().le(scroll_axis(position, delta, limit.x).0)
            &&& scroll_axis(position, delta, limit.x).0.le(limit.x)
            &&& zero().le(scroll_axis(position, delta, limit.y).0)
            &&& scroll_axis(position, delta, limit.y).0.le(limit.y)
        }),
{
    crate::order::lemma_sum_bounds(position, delta, zero());
    let limit = scroll_limit(content, view, inverse_scale);
    crate::order::lemma_clamp_between(position.add(delta), zero(), limit.x);
    crate::order::lemma_clamp_between(position.add(delta), zero(), limit.y);
}

/// The cells of a matrix panel along one axis that a view shows, out of the
/// header and one cell per type: the first, and the one after the last.
pub open spec fn visible_range(offset: Scalar, size: Scalar, types: u32) -> (u32, u32) {
    let limit = if types == u32::MAX {
        u32::MAX
    } else {
        (types + 1) as u32
    };
    let start = crate::vector::larger(offset, zero());
    let length = crate::vector::larger(size, zero());
    let first = start.div(scalar(0x41f0_0000)).floor().to_u32();  // 30.0
    let last = start.add(length).div(scalar(0x41f0_0000)).ceil().to_u32();  // 30.0
    (
        if first < limit {
            first
        } else {
            limit
        },
        if last < limit {
            (last + 1) as u32
        } else {
            limit
        },
    )
}

fn visible_axis(offset: Scalar, size: Scalar, types: u32) -> (r: (u32, u32))
    ensures
        r == visible_range(offset, size, types),
{
    let limit: u32 = if types == u32::MAX {
        u32::MAX
    } else {
        types + 1
    };
    let start: Scalar = crate::vector::larger(offset, zero());
    let length: Scalar = crate::vector::larger(size, zero());
    let first: u32 = start.div(scalar(0x41f0_0000)).floor().to_u32();  // 30.0
    let last: u32 = start.add(length).div(scalar(0x41f0_0000)).ceil().to_u32();  // 30.0
    (
        if first < limit {
            first
        } else {
            limit
        },
        if last < limit {
            last + 1
        } else {
            limit
        },
    )
}

/// Inclusive headers at index zero; only cells intersecting the view are made.
pub fn visible_cells(offset: Vec2, size: Vec2, types: u32) -> (r: (UVec2, UVec2))
    ensures
        r.0.x == visible_range(offset.x, size.x, types).0,
        r.1.x == visible_range(offset.x, size.x, types).1,
        r.0.y == visible_range(offset.y, size.y, types).0,
        r.1.y == visible_range(offset.y, size.y, types).1,
{
    let x: (u32, u32) = visible_axis(offset.x, size.x, types);
    let y: (u32, u32) = visible_axis(offset.y, size.y, types);
    (UVec2 { x: x.0, y: y.0 }, UVec2 { x: x.1, y: y.1 })
}

/// The visible cells are a range of existing ones, whatever the scroll position.
pub proof fn lemma_visible_range_exists(offset: Scalar, size: Scalar, types: u32)
    ensures
        visible_range(offset, size, types).0 <= visible_range(offset, size, types).1,
        visible_range(offset, size, types).1 <= types + 1,
{
    let start = crate::vector::larger(offset, zero());
    let length = crate::vector::larger(size, zero());
    let cell = scalar(0x41f0_0000);  // 30.0
    let near = start.div(cell);
    let far = start.add(length).div(cell);
    crate::order::lemma_order_of_values(zero(), start);
    crate::order::lemma_order_of_values(zero(), length);
    crate::order::lemma_order_of_values(zero(), cell);
    if start.finite() && length.finite() {
        let sum = start.add(length);
        crate::order::lemma_sum_bounds(start, length, start);
        crate::order::lemma_order_of_values(start, sum);
        if sum.finite() {
            crate::order::lemma_quotient_monotone(start, sum, cell);
        } else {
            crate::order::lemma_quotient_bounds(start, cell, far);
        }
    } else if start.finite() {
        crate::order::lemma_quotient_bounds(start, cell, far);
    }
    crate::order::lemma_whole_bounds(near);
    crate::order::lemma_whole_bounds(far);
    crate::order::lemma_truncation_monotone(near.floor(), near);
    crate::order::lemma_truncation_monotone(near, far);
    crate::order::lemma_truncation_monotone(far, far.ceil());
}

/// Side of a whole matrix panel, header included.
#[verifier::allow_in_spec]
pub fn panel_side(types: u32) -> Scalar
    returns
        Scalar::from_u32(types).add(one()).mul(scalar(0x41f0_0000)),  // 30.0
{
    Scalar::from_u32(types).add(one()).mul(scalar(0x41f0_0000))  // 30.0
}

/// What a matrix panel was drawn from; it is drawn anew when this changes.
#[derive(Clone, Copy, PartialEq, Eq, Debug)]
pub struct PanelKey {
    pub first: UVec2,
    pub end: UVec2,
    pub rules_revision: u64,
    pub types: u32,
    pub palette: usize,
    pub kind: RuleKind,
    pub selected: (u32, u32),
}

pub fn panel_key(s: &Simulation, c: &Controls, kind: RuleKind, first: UVec2, end: UVec2) -> (r: PanelKey)
    ensures
        r == (PanelKey {
            first,
            end,
            rules_revision: s.rules_revision,
            types: s.types,
            palette: s.palette,
            kind,
            selected: c.selected@[kind.index() as int],
        }),
        r.first == first,
        r.end == end,
        r.rules_revision == s.rules_revision,
        r.types == s.types,
        r.palette == s.palette,
        r.kind == kind,
        r.selected == match kind {
            RuleKind::Attraction => c.selected@[0],
            RuleKind::Swirl => c.selected@[1],
            RuleKind::Alignment => c.selected@[2],
            RuleKind::Distance => c.selected@[3],
        },
{
    PanelKey {
        first,
        end,
        rules_revision: s.rules_revision,
        types: s.types,
        palette: s.palette,
        kind,
        selected: c.selected[kind.index()],
    }
}

/// What a cell of a matrix panel shows.
#[derive(Clone, Copy, PartialEq, Eq, Structural, Debug)]
pub enum CellContent {
    /// The empty cell where the headers meet.
    Corner,
    /// A type, counted from one.
    Header(u32),
    /// The rule that type `row` has for type `column`.
    Entry { row: u32, column: u32, color: Rgb, selected: bool },
}

/// A cell of a matrix panel.
#[derive(Clone, Copy, PartialEq, Eq, Structural, Debug)]
pub struct Cell {
    pub x: u32,
    pub y: u32,
    pub left: Scalar,
    pub top: Scalar,
    pub content: CellContent,
}

/// How strongly a value colors its cell.
#[verifier::allow_in_spec]
pub fn shade(value: Scalar) -> u32
    returns
        ({
            let amount = value.abs().mul(scalar(0x4334_0000)).to_u32();  // 180.0
            if amount < 255 {
                amount
            } else {
                255
            }
        }),
{
    let amount: u32 = value.abs().mul(scalar(0x4334_0000)).to_u32();  // 180.0
    if amount < 255 {
        amount
    } else {
        255
    }
}

/// The color of a value: from dark toward blue for positive ones, toward red for
/// the others.
pub open spec fn shade_color(value: Scalar) -> Rgb {
    if zero().le(value) {
        Rgb { red: 28, green: (55 + shade(value) / 2) as u8, blue: (65 + shade(value)) as u8 }
    } else {
        Rgb { red: (65 + shade(value)) as u8, green: (35 + shade(value) / 3) as u8, blue: 40 }
    }
}

fn value_color(value: Scalar) -> (r: Rgb)
    requires
        shade(value) <= 190,
    ensures
        r == shade_color(value),
{
    let amount: u32 = shade(value);
    if zero().le(value) {
        Rgb { red: 28, green: (55 + amount / 2) as u8, blue: (65 + amount) as u8 }
    } else {
        Rgb { red: (65 + amount) as u8, green: (35 + amount / 3) as u8, blue: 40 }
    }
}

/// Every rule within its bounds has a color.
pub proof fn lemma_bounded_rules_have_colors(value: Scalar)
    requires
        (scalar(0xbf80_0000)).le(value),  // -1.0
        value.le(one()),
    ensures
        shade(value) <= 180,
{
    let most = scalar(0x4334_0000);  // 180.0
    let size = value.abs();
    crate::order::lemma_order_of_values(size, one());
    crate::order::lemma_power_of_two(0);
    crate::rounding::lemma_p2_values();
    let unit = crate::scalar::one_units();
    assert(one().units() == unit);
    crate::order::lemma_order_of_values(zero(), most);
    assert(size.units() * most.units() <= most.units() * unit) by (nonlinear_arith)
        requires
            size.units() <= unit,
            0 <= most.units(),
    ;
    crate::order::lemma_product_bounds(size, most, most);
    crate::order::lemma_truncation_monotone(size.mul(most), most);
    vstd::arithmetic::power2::lemma2_to64();
    crate::order::lemma_whole_value(most, 180, 16);
}

impl Simulation {
    /// Every entry of a matrix has a color.
    pub open spec fn drawable(self, kind: RuleKind) -> bool {
        forall|i: int| 0 <= i < self.entries(kind).len() ==> shade(#[trigger] self.entries(kind)[i]) <= 190
    }

    /// Column `x` and row `y` of a matrix panel show a header, or an entry that exists.
    pub open spec fn cell_exists(self, kind: RuleKind, x: u32, y: u32) -> bool {
        x > 0 && y > 0 ==> (y - 1) * self.types + x - 1 < self.entries(kind).len()
    }

    /// Column `x` and row `y` of a matrix panel show a header, or an entry with a color.
    pub open spec fn cell_drawable(self, kind: RuleKind, x: u32, y: u32) -> bool {
        &&& self.cell_exists(kind, x, y)
        &&& x > 0 && y > 0 ==> shade(self.entries(kind)[(y - 1) * self.types + x - 1]) <= 190
    }
}

/// The cell of a matrix panel at column `x` and row `y`.
pub open spec fn cell_at(s: Simulation, c: Controls, kind: RuleKind, x: u32, y: u32) -> Cell {
    Cell {
        x,
        y,
        left: Scalar::from_u32(x).mul(scalar(0x41f0_0000)),  // 30.0
        top: Scalar::from_u32(y).mul(scalar(0x41f0_0000)),  // 30.0
        content: if x == 0 && y == 0 {
            CellContent::Corner
        } else if x == 0 || y == 0 {
            CellContent::Header(if x > y { x } else { y })
        } else {
            CellContent::Entry {
                row: (y - 1) as u32,
                column: (x - 1) as u32,
                color: shade_color(s.entries(kind)[(y - 1) * s.types + x - 1]),
                selected: c.selected@[kind.index() as int] == ((y - 1) as u32, (x - 1) as u32),
            }
        },
    }
}

pub fn cell(s: &Simulation, c: &Controls, kind: RuleKind, x: u32, y: u32) -> (r: Cell)
    requires
        s.cell_drawable(kind, x, y),
    ensures
        r == cell_at(*s, *c, kind, x, y),
{
    let content: CellContent = if x == 0 && y == 0 {
        CellContent::Corner
    } else if x == 0 || y == 0 {
        CellContent::Header(if x > y {
            x
        } else {
            y
        })
    } else {
        let index: usize = s.place(kind, y - 1, x - 1);
        let value: Scalar = s.matrix(kind)[index];
        let (row, column): (u32, u32) = c.selected[kind.index()];
        assert(s.entries(kind)[index as int] == value);
        CellContent::Entry {
            row: y - 1,
            column: x - 1,
            color: value_color(value),
            selected: row == y - 1 && column == x - 1,
        }
    };
    Cell {
        x,
        y,
        left: Scalar::from_u32(x).mul(scalar(0x41f0_0000)),  // 30.0
        top: Scalar::from_u32(y).mul(scalar(0x41f0_0000)),  // 30.0
        content,
    }
}

/// How many numbers there are from `first` to before `end`.
pub open spec fn span(first: u32, end: u32) -> int {
    if first < end {
        end - first
    } else {
        0
    }
}

/// The cells from `first` to before `end`, row by row.
pub open spec fn cell_grid(s: Simulation, c: Controls, kind: RuleKind, first: UVec2, end: UVec2) -> Seq<Cell> {
    let width = span(first.x, end.x);
    Seq::new(
        (width * span(first.y, end.y)) as nat,
        |i: int| cell_at(s, c, kind, (first.x + i % width) as u32, (first.y + i / width) as u32),
    )
}

pub fn cells(s: &Simulation, c: &Controls, kind: RuleKind, first: UVec2, end: UVec2) -> (r: Vec<Cell>)
    requires
        forall|x: u32, y: u32|
            first.x <= x < end.x && first.y <= y < end.y ==> #[trigger] s.cell_drawable(kind, x, y),
    ensures
        r@ == cell_grid(*s, *c, kind, first, end),
{
    let mut result: Vec<Cell> = Vec::new();
    let ghost width = span(first.x, end.x);
    let ghost height = span(first.y, end.y);
    let ghost all = cell_grid(*s, *c, kind, first, end);
    if first.x >= end.x || first.y >= end.y {
        assert(all =~= Seq::empty()) by {
            assert(width * height == 0) by (nonlinear_arith)
                requires
                    width == 0 || height == 0,
            ;
        }
        return result;
    }
    let mut y: u32 = first.y;
    while y < end.y
        invariant
            forall|x: u32, y: u32|
                first.x <= x < end.x && first.y <= y < end.y ==> #[trigger] s.cell_drawable(kind, x, y),
            first.x < end.x,
            first.y <= y <= end.y,
            width == end.x - first.x,
            height == end.y - first.y,
            all == cell_grid(*s, *c, kind, first, end),
            result@.len() == width * (y - first.y),
            width * (y - first.y) <= width * height,
            result@ == all.take(result@.len() as int),
        decreases end.y - y,
    {
        let mut x: u32 = first.x;
        let ghost done = width * (y - first.y);
        assert(done + width <= width * height && done + width == width * (y + 1 - first.y)) by (nonlinear_arith)
            requires
                width >= 0,
                y + 1 - first.y <= height,
                done == width * (y - first.y),
        ;
        assert(all.len() == width * height);
        while x < end.x
            invariant
                forall|x: u32, y: u32|
                    first.x <= x < end.x && first.y <= y < end.y ==> #[trigger] s.cell_drawable(kind, x, y),
                first.x <= x <= end.x,
                first.x < end.x,
                first.y <= y < end.y,
                width == end.x - first.x,
                height == end.y - first.y,
                all == cell_grid(*s, *c, kind, first, end),
                all.len() == width * height,
                done == width * (y - first.y),
                done + width <= width * height,
                result@.len() == done + (x - first.x),
                result@ == all.take(result@.len() as int),
            decreases end.x - x,
        {
            let ghost before = result@;
            let ghost place = done + (x - first.x);
            proof {
                assert(width * (y - first.y) == (y - first.y) * width) by (nonlinear_arith);
                vstd::arithmetic::div_mod::lemma_fundamental_div_mod_converse(
                    place,
                    width,
                    y - first.y,
                    x - first.x,
                );
                assert(all[place] == cell_at(*s, *c, kind, x, y));
            }
            result.push(cell(s, c, kind, x, y));
            assert(result@ =~= all.take(place + 1));
            x = x + 1;
        }
        y = y + 1;
    }
    assert(result@.len() == width * height);
    assert(all.len() == width * height) by {
        assert(width * height >= 0) by (nonlinear_arith)
            requires
                width >= 0,
                height >= 0,
        ;
    }
    assert(result@ =~= all);
    result
}

/// In a complete world whose entries have colors, every cell of the panel can be drawn.
pub proof fn lemma_panel_drawable(s: Simulation, kind: RuleKind, x: u32, y: u32)
    requires
        s.wf(),
        s.drawable(kind),
        x <= s.types,
        y <= s.types,
    ensures
        s.cell_drawable(kind, x, y),
{
    if x > 0 && y > 0 {
        let (row, column, types) = (y - 1, x - 1, s.types as int);
        assert(0 <= row * types + column < types * types) by (nonlinear_arith)
            requires
                0 <= row < types,
                0 <= column < types,
        ;
        assert(shade(s.entries(kind)[row * types + column]) <= 190);
    }
}

/// The value under the pointer, unless that is a header.
pub fn hovered(s: &Simulation, kind: RuleKind, x: u32, y: u32) -> (r: Option<Scalar>)
    requires
        s.cell_exists(kind, x, y),
    ensures
        r == if x > 0 && y > 0 {
            Some(s.entries(kind)[(y - 1) * s.types + x - 1])
        } else {
            None
        },
{
    if x > 0 && y > 0 {
        Some(s.matrix(kind)[s.place(kind, y - 1, x - 1)])
    } else {
        None
    }
}

/// The selected rule of a matrix.
#[derive(Clone, Copy, PartialEq, Eq, Structural, Debug)]
pub struct Selection {
    /// The types, counted from one.
    pub row: u64,
    pub column: u64,
    pub value: Scalar,
    /// For a distance that is set, what it comes to in world units.
    pub separation: Option<Scalar>,
}

pub fn selection(s: &Simulation, c: &Controls, kind: RuleKind) -> (r: Selection)
    requires
        crate::ui::picks(*s, *c, kind),
    ensures
        ({
            let (row, column) = c.selected@[kind.index() as int];
            let value = s.entries(kind)[crate::ui::selected_entry(*s, *c, kind)];
            r == Selection {
                row: (row + 1) as u64,
                column: (column + 1) as u64,
                value,
                separation: if kind == RuleKind::Distance && zero().lt(value) {
                    Some(value.max(scalar(0x3e4c_cccd)).mul(s.radius))  // 0.2
                } else {
                    None
                },
            }
        }),
        r.separation is Some <==> kind == RuleKind::Distance && zero().lt(r.value),
        kind == RuleKind::Distance && crate::measures::common(s.radius) && (scalar(0x3e4c_cccd)).le(r.value)  // 0.2
            && r.value.le(one()) ==> crate::nearly::near(
            r.separation->0,
            r.value.units() * s.radius.units(),
            crate::scalar::one_units() * crate::scalar::one_units(),
            2,
        ),
        kind == RuleKind::Distance && crate::measures::common(s.radius) && zero().lt(r.value) && r.value.le(
            scalar(0x3e4c_cccd),  // 0.2
        ) ==> crate::nearly::near(r.separation->0, s.radius.units(), 5 * crate::scalar::one_units(), 3),
{
    let (row, column): (u32, u32) = c.selected[kind.index()];
    let value: Scalar = s.matrix(kind)[s.place(kind, row, column)];
    let separation: Option<Scalar> = if kind == RuleKind::Distance && zero().lt(value) {
        Some(value.max(scalar(0x3e4c_cccd)).mul(s.radius))  // 0.2
    } else {
        None
    };
    proof {
        if crate::measures::common(s.radius) {
            crate::measures::lemma_separation(value, s.radius);
        }
    }
    Selection { row: row as u64 + 1, column: column as u64 + 1, value, separation }
}

/// The frame rate, following the last frame by a twentieth of the difference.
#[verifier::allow_in_spec]
pub fn smoothed(fps: Scalar, seconds: Scalar) -> Scalar
    returns
        fps.add(one().div(seconds.max(scalar(0x3a83_126f))).sub(fps).mul(scalar(0x3d4c_cccd))),  // 0.001, 0.05
{
    fps.add(one().div(seconds.max(scalar(0x3a83_126f))).sub(fps).mul(scalar(0x3d4c_cccd)))  // 0.001, 0.05
}

/// Width of the sidebar in logical pixels.
pub fn sidebar_width(size: UVec2, scale: Scalar, visible: bool) -> (r: Scalar)
    ensures
        r == Scalar::from_u32(crate::ui::viewport_of(size, scale, visible).0.x).div(scale),
        crate::measures::common_scale(scale) && !visible ==> r.units() == 0,
        crate::measures::common_scale(scale) && visible && crate::ui::viewport_of(size, scale, true).0.x > 0 && size.x
            <= 0x100_0000 ==> crate::nearly::near(
            r,
            crate::ui::viewport_of(size, scale, true).0.x * crate::scalar::one_units(),
            scale.units(),
            2,
        ),
{
    proof {
        crate::ui::lemma_viewport_fills_window(size, scale, visible);
        if crate::measures::common_scale(scale) && size.x <= 0x100_0000 {
            crate::measures::lemma_logical(crate::ui::viewport_of(size, scale, visible).0.x, scale);
        }
        if crate::measures::common_scale(scale) {
            crate::measures::lemma_logical(0, scale);
        }
    }
    let (origin, _rest): (UVec2, UVec2) = viewport_geometry(size, scale, visible);
    Scalar::from_u32(origin.x).div(scale)
}

/// The numbers that the number fields should show, by their places.
pub fn field_numbers(s: &Simulation, c: &Controls) -> (r: [u32; 3])
    ensures
        r@ == seq![c.count, c.types, s.seed],
{
    [c.count, c.types, s.seed]
}

/// Whether a number field has to be told its number: at first, and when the
/// number is another than before.
pub fn outdated(kind: Integer, last: Option<[u32; 3]>, now: [u32; 3]) -> (r: bool)
    ensures
        r == match last {
            Some(before) => before@[kind.index() as int] != now@[kind.index() as int],
            None => true,
        },
{
    match last {
        Some(before) => before[kind.index()] != now[kind.index()],
        None => true,
    }
}

/// Whether a button is highlighted.
pub fn highlighted(action: Action, s: &Simulation, tool: Tool) -> (r: bool)
    ensures
        r == match action {
            Action::Tool(own) => own == tool,
            Action::Exact(own) => own == s.exact,
            _ => false,
        },
{
    match action {
        Action::Tool(own) => own == tool,
        Action::Exact(own) => own == s.exact,
        _ => false,
    }
}

/// The caption of the button that pauses and resumes.
pub fn play_caption(s: &Simulation) -> (r: &'static str)
    ensures
        r@ == if s.paused {
            "Play"@
        } else {
            "Pause"@
        },
{
    if s.paused {
        "Play"
    } else {
        "Pause"
    }
}

/// How many particles and types the world has.
pub fn active_text(s: &Simulation) -> (r: String)
    ensures
        r@ == "Active: "@ + crate::text::digits(s.count as nat) + " particles · "@ + crate::text::digits(
            s.types as nat,
        ) + " types"@,
{
    let mut text: String = "Active: ".to_owned();
    text.append(decimal(s.count as u64).as_str());
    text.append(" particles · ");
    text.append(decimal(s.types as u64).as_str());
    text.append(" types");
    text
}

/// The palette in use.
pub fn palette_text(s: &Simulation) -> (r: String)
    requires
        s.palette < 4,
    ensures
        r@ == "Palette: "@ + PALETTES[s.palette as int].0@,
        s.palette == 0 ==> r@ == "Palette: "@ + "Aurora"@,
        s.palette == 1 ==> r@ == "Palette: "@ + "Ember"@,
        s.palette == 2 ==> r@ == "Palette: "@ + "Lagoon"@,
        s.palette == 3 ==> r@ == "Palette: "@ + "Pastel"@,
{
    let mut text: String = "Palette: ".to_owned();
    text.append(PALETTES[s.palette].0);
    text
}

pub open spec fn cycle_name(mode: u32) -> Seq<char> {
    if mode == 0 {
        "Off"@
    } else if mode == 1 {
        "Timer"@
    } else if mode == 2 {
        "Neighbors"@
    } else {
        "Either"@
    }
}

/// How types cycle.
pub fn cycle_text(s: &Simulation) -> (r: String)
    requires
        s.behavior.cycle_mode < 4,
    ensures
        r@ == "Type cycling: "@ + cycle_name(s.behavior.cycle_mode),
{
    let mut text: String = "Type cycling: ".to_owned();
    text.append(
        match s.behavior.cycle_mode {
            0 => "Off",
            1 => "Timer",
            2 => "Neighbors",
            _ => "Either",
        },
    );
    text
}

/// What is said of the exact mode.
pub fn exact_text(s: &Simulation) -> (r: &'static str)
    ensures
        r@ == if s.exact {
            "Exact evaluates every nearby particle; dense clusters cost more."@
        } else {
            ""@
        },
{
    if s.exact {
        "Exact evaluates every nearby particle; dense clusters cost more."
    } else {
        ""
    }
}

/// What to do with the place of a control in the order of the Tab key.
#[derive(Clone, Copy, PartialEq, Eq, Structural, Debug)]
pub enum TabChange {
    Keep,
    /// Take the control out of the order, and remember its place.
    Hide(i32),
    /// Put the control back to the remembered place.
    Restore(i32),
}

/// Controls in hidden sections are out of the order until they are shown again.
#[verifier::allow_in_spec]
pub fn tab_change(hidden: bool, index: i32, saved: Option<i32>) -> TabChange
    returns
        (match saved {
            None => if hidden {
                TabChange::Hide(index)
            } else {
                TabChange::Keep
            },
            Some(place) => if hidden {
                TabChange::Keep
            } else {
                TabChange::Restore(place)
            },
        }),
{
    match saved {
        None => if hidden {
            TabChange::Hide(index)
        } else {
            TabChange::Keep
        },
        Some(place) => if hidden {
            TabChange::Keep
        } else {
            TabChange::Restore(place)
        },
    }
}

/// A control that was hidden and is shown again is where it was.
pub proof fn lemma_tab_order_restored(index: i32, meanwhile: i32)
    ensures
        tab_change(true, index, None) == TabChange::Hide(index),
        tab_change(true, meanwhile, Some(index)) == TabChange::Keep,
        tab_change(false, meanwhile, Some(index)) == TabChange::Restore(index),
        tab_change(false, index, None) == TabChange::Keep,
{
}

/// The aspect ratio of a picture.
#[verifier::allow_in_spec]
pub fn aspect_ratio(size: UVec2) -> Scalar
    returns
        Scalar::from_u32(size.x).div(Scalar::from_u32(size.y)),
{
    Scalar::from_u32(size.x).div(Scalar::from_u32(size.y))
}

/// How brightly the picture blooms.
pub fn bloom_intensity(a: &Appearance) -> (r: Scalar)
    ensures
        r == a.glow.mul(scalar(0x3f19_999a)),  // 0.6
        crate::measures::common(a.glow) ==> crate::nearly::near(
            r,
            3 * a.glow.units(),
            5 * crate::scalar::one_units(),
            3,
        ),
{
    proof {
        if crate::measures::common(a.glow) {
            crate::measures::lemma_bloom(a.glow);
        }
    }
    a.glow.mul(scalar(0x3f19_999a))  // 0.6
}

} // verus!
