//! Which setting each control stands for.
use vstd::prelude::*;

use crate::input::Key;
use crate::interaction::{BrushControl, InteractionTools, Tool};
use crate::model::{Appearance, Behavior, GpuStatus, RuleKind, Simulation, Trails};
use crate::panel::{cell_at, cell_grid, shade_color, CellContent};
use crate::scalar::Scalar;
use crate::ui::{picks, selected_entry, Action, Controls, Field, Gate, Toggle};
use crate::vector::UVec2;

verus! {

/// Each slider shows the setting that it is named after.
pub proof fn lemma_sliders_show_their_settings(s: Simulation, a: Appearance, c: Controls)
    ensures
        Field::Speed.reads(s, a, c) == s.speed,
        Field::Radius.reads(s, a, c) == s.radius,
        Field::Strength.reads(s, a, c) == s.strength,
        Field::Damping.reads(s, a, c) == s.damping,
        Field::Size.reads(s, a, c) == a.size,
        Field::Glow.reads(s, a, c) == a.glow,
        Field::DensityTarget.reads(s, a, c) == s.behavior.density_target,
        Field::DensityStrength.reads(s, a, c) == s.behavior.density_strength,
        Field::NovaThreshold.reads(s, a, c) == s.behavior.nova_threshold,
        Field::NovaRadius.reads(s, a, c) == s.behavior.nova_radius,
        Field::NovaImpulse.reads(s, a, c) == s.behavior.nova_impulse,
        Field::NovaDuration.reads(s, a, c) == s.behavior.nova_duration,
        Field::SampleBudget.reads(s, a, c) == Scalar::from_u32(s.behavior.sample_budget),
        Field::CycleSeconds.reads(s, a, c) == s.behavior.cycle_seconds,
        Field::CycleFraction.reads(s, a, c) == s.behavior.cycle_fraction,
        Field::CycleMin.reads(s, a, c) == Scalar::from_u32(s.behavior.cycle_min_neighbors),
        Field::Response.reads(s, a, c) == s.trails.response,
        Field::Deposit.reads(s, a, c) == s.trails.deposit,
        Field::HalfLife.reads(s, a, c) == s.trails.half_life,
        Field::Diffusion.reads(s, a, c) == s.trails.diffusion,
        Field::Sensor.reads(s, a, c) == s.trails.sensor_distance,
        Field::Visibility.reads(s, a, c) == s.trails.visibility,
        ({
            let (row, column) = c.selected@[0];
            Field::Rule(RuleKind::Attraction).reads(s, a, c) == s.rules@[row * s.types + column]
        }),
        ({
            let (row, column) = c.selected@[1];
            Field::Rule(RuleKind::Swirl).reads(s, a, c) == s.swirl@[row * s.types + column]
        }),
        ({
            let (row, column) = c.selected@[2];
            Field::Rule(RuleKind::Alignment).reads(s, a, c) == s.alignment@[row * s.types + column]
        }),
        ({
            let (row, column) = c.selected@[3];
            Field::Rule(RuleKind::Distance).reads(s, a, c) == s.distance@[row * s.types + column]
        }),
{
}

/// The world without the settings that sliders of it stand for.
pub open spec fn same_but_for_sliders(s: Simulation, after: Simulation) -> bool {
    after == Simulation {
        speed: after.speed,
        radius: after.radius,
        strength: after.strength,
        damping: after.damping,
        behavior: Behavior {
            density_target: after.behavior.density_target,
            density_strength: after.behavior.density_strength,
            cycle_seconds: after.behavior.cycle_seconds,
            cycle_fraction: after.behavior.cycle_fraction,
            cycle_min_neighbors: after.behavior.cycle_min_neighbors,
            sample_budget: after.behavior.sample_budget,
            nova_threshold: after.behavior.nova_threshold,
            nova_radius: after.behavior.nova_radius,
            nova_impulse: after.behavior.nova_impulse,
            nova_duration: after.behavior.nova_duration,
            ..s.behavior
        },
        trails: Trails {
            deposit: after.trails.deposit,
            diffusion: after.trails.diffusion,
            half_life: after.trails.half_life,
            response: after.trails.response,
            sensor_distance: after.trails.sensor_distance,
            visibility: after.trails.visibility,
            ..s.trails
        },
        ..s
    }
}

/// Moving a slider moves no other, and nothing that has no slider.
pub proof fn lemma_sliders_move_alone(field: Field, other: Field, value: Scalar, s: Simulation, a: Appearance, c: Controls)
    requires
        field != other,
        !(field is Rule),
    ensures
        other.reads(field.on_world(s, value), field.on_view(a, value), c) == other.reads(s, a, c),
        same_but_for_sliders(s, field.on_world(s, value)),
        field.on_view(a, value).zoom == a.zoom,
        field.on_view(a, value).pan == a.pan,
        field.on_view(a, value).aspect == a.aspect,
{
    let after = field.on_world(s, value);
    assert(after.rules == s.rules && after.swirl == s.swirl && after.alignment == s.alignment && after.distance
        == s.distance && after.types == s.types);
}

/// The slider of a matrix moves its selected entry, and nothing else that a slider
/// stands for.
pub proof fn lemma_rule_slider_moves_one_entry(
    kind: RuleKind,
    value: Scalar,
    s: Simulation,
    after: Simulation,
    a: Appearance,
    c: Controls,
    other: Field,
)
    requires
        picks(s, c, kind),
        after.replaces(s, kind, s.entries(kind).update(selected_entry(s, c, kind), value)),
        !(other is Rule),
    ensures
        other.reads(after, a, c) == other.reads(s, a, c),
        forall|i: int|
            0 <= i < s.entries(kind).len() && i != selected_entry(s, c, kind) ==> #[trigger] after.entries(kind)[i]
                == s.entries(kind)[i],
        forall|another: RuleKind| another != kind ==> #[trigger] after.entries(another) == s.entries(another),
{
    let (row, types) = (c.selected@[kind.index() as int].0, s.types);
    assert(row * types >= 0) by (nonlinear_arith);
}

/// Each box stands for the switch that it is named after.
pub proof fn lemma_boxes_show_their_switches(s: Simulation)
    ensures
        Toggle::Clustered.reads(s) == s.clustered,
        Toggle::Preferred.reads(s) == s.behavior.preferred_enabled,
        Toggle::Density.reads(s) == s.behavior.density_enabled,
        Toggle::Nova.reads(s) == s.behavior.nova_enabled,
        Toggle::Trails.reads(s) == s.trails.enabled,
{
}

/// Checking a box checks no other and moves no slider; the rules, the particles and the
/// clock stay as they are.
pub proof fn lemma_boxes_switch_alone(kind: Toggle, other: Toggle, field: Field, value: bool, s: Simulation, a: Appearance, c: Controls)
    ensures
        other != kind ==> other.reads(kind.on_world(s, value)) == other.reads(s),
        field.reads(kind.on_world(s, value), a, c) == field.reads(s, a, c),
        kind.on_world(s, value) == (Simulation {
            clustered: kind.on_world(s, value).clustered,
            behavior: kind.on_world(s, value).behavior,
            trails: kind.on_world(s, value).trails,
            ..s
        }),
{
    let after = kind.on_world(s, value);
    assert(after.rules == s.rules && after.swirl == s.swirl && after.alignment == s.alignment && after.distance
        == s.distance && after.types == s.types);
}

/// A box makes the sliders of its own behavior usable, and no others.
pub proof fn lemma_boxes_open_their_gates(s: Simulation, value: bool, gate: Gate)
    ensures
        Gate::Density.opens(Toggle::Density.on_world(s, value)) == value,
        Gate::Nova.opens(Toggle::Nova.on_world(s, value)) == value,
        Gate::Trails.opens(Toggle::Trails.on_world(s, value)) == value,
        gate != Gate::Density ==> gate.opens(Toggle::Density.on_world(s, value)) == gate.opens(s),
        gate != Gate::Nova ==> gate.opens(Toggle::Nova.on_world(s, value)) == gate.opens(s),
        gate != Gate::Trails ==> gate.opens(Toggle::Trails.on_world(s, value)) == gate.opens(s),
        gate.opens(Toggle::Clustered.on_world(s, value)) == gate.opens(s),
        gate.opens(Toggle::Preferred.on_world(s, value)) == gate.opens(s),
{
}

/// A mode of cycling makes its sliders usable: any but the first the interval, those that look
/// at neighbors the rest. Single steps are for a paused world.
pub proof fn lemma_modes_open_their_gates(s: Simulation)
    ensures
        Gate::Cycle.opens(s) <==> s.behavior.cycle_mode > 0,
        Gate::Neighbors.opens(s) <==> s.behavior.cycle_mode > 1,
        Gate::Step.opens(s) <==> s.paused,
{
}

/// The sliders of an optional behavior are usable while it is on, all others always.
pub proof fn lemma_sliders_behind_gates(field: Field)
    ensures
        field.gate() == Some(Gate::Density) <==> field is DensityTarget || field is DensityStrength,
        field.gate() == Some(Gate::Nova) <==> field is NovaThreshold || field is NovaRadius || field is NovaImpulse
            || field is NovaDuration,
        field.gate() == Some(Gate::Cycle) <==> field is CycleSeconds,
        field.gate() == Some(Gate::Neighbors) <==> field is CycleFraction || field is CycleMin,
        field.gate() == Some(Gate::Trails) <==> field is Response || field is Deposit || field is HalfLife
            || field is Diffusion || field is Sensor || field is Visibility,
        field.gate() != Some(Gate::Step),
{
}

/// A button changes what it is for, and leaves everything else of the world as it is.
pub proof fn lemma_buttons_keep_to_themselves(action: Action, before: Simulation, after: Simulation, c: Controls, status: GpuStatus)
    requires
        action.on_world(before, after, c, status),
    ensures
        after.paused == if action is Play { !before.paused } else { before.paused },
        action is Step && before.paused && before.step < u64::MAX ==> after.step == before.step + 1,
        !(action is Step && before.paused) ==> after.step == before.step,
        action is Reset && before.epoch < u64::MAX ==> after.epoch == before.epoch + 1,
        !(action is Reset || action is Apply) ==> after.epoch == before.epoch,
        !(action is Apply) ==> after.count == before.count && after.types == before.types,
        !(action is Randomize) ==> after.seed == before.seed,
        !(action is Apply || action is Randomize || action is Zero) ==> after.rules == before.rules && after.swirl
            == before.swirl && after.alignment == before.alignment && after.distance == before.distance
            && after.rules_revision == before.rules_revision,
        action matches Action::Palette(i) ==> after.palette == i,
        !(action is Palette) ==> after.palette == before.palette,
        action matches Action::Exact(exact) ==> after.exact == exact,
        !(action is Exact) ==> after.exact == before.exact,
        action matches Action::Cycle(i) ==> after.behavior.cycle_mode == i,
        !(action is Cycle) ==> after.behavior == before.behavior,
        after.behavior == (Behavior { cycle_mode: after.behavior.cycle_mode, ..before.behavior }),
        !(action is ClearTrails) ==> after.trails == before.trails,
        after.trails == (Trails { clear_revision: after.trails.clear_revision, ..before.trails }),
        after.speed == before.speed,
        after.radius == before.radius,
        after.strength == before.strength,
        after.damping == before.damping,
        after.clustered == before.clustered,
        after.frame_dt == before.frame_dt,
        after.detection == before.detection,
        after.evolution == before.evolution,
{
}

/// A regenerated world has the size entered and the rules that follow from its seed; its
/// epoch is another, and what is set by sliders and boxes stays.
pub proof fn lemma_regenerated_world(before: Simulation, after: Simulation, c: Controls, status: GpuStatus, i: int)
    requires
        Action::Apply.on_world(before, after, c, status),
        !c.any_invalid(),
        crate::model::count_error(c.count, c.types, status) is None,
        before.epoch < u64::MAX,
        0 <= i < c.types * c.types,
    ensures
        after.count == c.count,
        after.types == c.types,
        after.epoch == before.epoch + 1,
        after.rules@[i] == crate::model::random_rule(before.seed, i as u64),
        after.swirl@[i].units() == 0,
        after.alignment@[i].units() == 0,
        2 * after.distance@[i].units() == crate::scalar::one_units(),
{
    crate::rounding::lemma_p2_values();
    crate::rounding::lemma_grid_code(0, 0);
    crate::rounding::lemma_grid_code(125, 0x80_0000);
    crate::rounding::lemma_p2_adds(23, 125);
    crate::rounding::lemma_p2_step(148);
}

/// A button of the view or of the sidebar leaves the rest of both alone.
pub proof fn lemma_view_buttons_keep_to_themselves(action: Action, a: Appearance, tools: InteractionTools)
    ensures
        action.on_view(a).size == a.size,
        action.on_view(a).glow == a.glow,
        action.on_view(a).aspect == a.aspect,
        !(action is ResetView) ==> action.on_view(a) == a,
        action is ResetView ==> action.on_view(a).pan.x.units() == 0 && action.on_view(a).pan.y.units() == 0
            && action.on_view(a).zoom.units() == crate::scalar::one_units(),
        action matches Action::Tool(tool) ==> action.on_tools(tools).tool == tool && !action.on_tools(tools).active,
        !(action is Tool) ==> action.on_tools(tools) == tools,
        action.on_tools(tools) == (InteractionTools {
            tool: action.on_tools(tools).tool,
            active: action.on_tools(tools).active,
            ..tools
        }),
{
    crate::rounding::lemma_p2_values();
    crate::rounding::lemma_grid_code(0, 0);
    crate::order::lemma_power_of_two(0);
}

/// Keys do what their buttons do, or nothing to the world.
pub proof fn lemma_keys_keep_to_themselves(key: Key, s: Simulation, c: Controls, tools: InteractionTools)
    ensures
        !(key is Space || key is Right || key is R) ==> key.on_world(s) == s,
        key.on_controls(c).visible == if key is Tab { !c.visible } else { c.visible },
        !(key is Escape) ==> key.on_tools(tools) == tools,
        key is Escape ==> key.on_tools(tools).tool == Tool::Navigate && !key.on_tools(tools).active && !key.on_controls(
            c,
        ).brushing && !key.on_controls(c).dragging && key.on_controls(c).pointer_start is None,
        key.on_controls(c).count == c.count,
        key.on_controls(c).types == c.types,
        key.on_controls(c).selected == c.selected,
        key.on_controls(c).invalid == c.invalid,
{
}

/// Zeroing a matrix leaves it as large as it was, with zeros alone, and the other matrices
/// as they are; so does randomizing one leave the others.
pub proof fn lemma_matrix_buttons_keep_to_one(
    kind: RuleKind,
    other: RuleKind,
    before: Simulation,
    zeroed: Simulation,
    randomized: Simulation,
    c: Controls,
    status: GpuStatus,
    i: int,
)
    requires
        other != kind,
        Action::Zero(kind).on_world(before, zeroed, c, status),
        Action::Randomize(kind).on_world(before, randomized, c, status),
        0 <= i < before.entries(kind).len(),
    ensures
        zeroed.entries(kind).len() == before.entries(kind).len(),
        zeroed.entries(kind)[i].units() == 0,
        zeroed.entries(other) == before.entries(other),
        randomized.entries(other) == before.entries(other),
{
    crate::rounding::lemma_grid_code(0, 0);
}

/// Each brush slider shows the setting that it is named after and moves no other.
pub proof fn lemma_brush_sliders_move_alone(
    tools: InteractionTools,
    control: BrushControl,
    other: BrushControl,
    value: Scalar,
)
    ensures
        tools.brush(BrushControl::Radius) == tools.radius,
        tools.brush(BrushControl::Strength) == tools.strength,
        tools.brush(BrushControl::Rate) == tools.rate,
        tools.with_brush(control, value).brush(other) == if other == control { value } else { tools.brush(other) },
        ({
            let after = tools.with_brush(control, value);
            after == (InteractionTools { radius: after.radius, strength: after.strength, rate: after.rate, ..tools })
        }),
{
}

/// The cell of a row and a column shows the rule that the one type has for the other, in
/// the color of its value, and is marked where it is the selected one of its own matrix.
/// The cells beside them name the types, counted from one.
pub proof fn lemma_cells_show_their_rules(s: Simulation, c: Controls, kind: RuleKind, row: u32, column: u32)
    requires
        row < u32::MAX,
        column < u32::MAX,
    ensures
        ({
            let chosen = match kind {
                RuleKind::Attraction => c.selected@[0],
                RuleKind::Swirl => c.selected@[1],
                RuleKind::Alignment => c.selected@[2],
                RuleKind::Distance => c.selected@[3],
            };
            let matrix = match kind {
                RuleKind::Attraction => s.rules@,
                RuleKind::Swirl => s.swirl@,
                RuleKind::Alignment => s.alignment@,
                RuleKind::Distance => s.distance@,
            };
            let cell = cell_at(s, c, kind, (column + 1) as u32, (row + 1) as u32);
            &&& cell.x == column + 1
            &&& cell.y == row + 1
            &&& cell.content matches CellContent::Entry { row: shown, column: target, color, selected } && {
                &&& shown == row
                &&& target == column
                &&& color == shade_color(matrix[row * s.types + column])
                &&& selected <==> chosen.0 == row && chosen.1 == column
            }
        }),
        cell_at(s, c, kind, (column + 1) as u32, 0).content == CellContent::Header((column + 1) as u32),
        cell_at(s, c, kind, 0, (row + 1) as u32).content == CellContent::Header((row + 1) as u32),
        cell_at(s, c, kind, 0, 0).content == CellContent::Corner,
{
}

/// A panel has every cell in view, each once: the cell of column `x` and row `y` stands
/// where its row and its column put it.
pub proof fn lemma_panel_holds_each_cell(
    s: Simulation,
    c: Controls,
    kind: RuleKind,
    first: UVec2,
    end: UVec2,
    x: u32,
    y: u32,
)
    requires
        first.x <= x < end.x,
        first.y <= y < end.y,
    ensures
        ({
            let width = end.x - first.x;
            let at = (y - first.y) * width + (x - first.x);
            let shown = cell_grid(s, c, kind, first, end);
            &&& shown.len() == width * (end.y - first.y)
            &&& 0 <= at < shown.len()
            &&& shown[at] == cell_at(s, c, kind, x, y)
        }),
{
    let (width, height) = (end.x - first.x, end.y - first.y);
    let (row, column) = (y - first.y, x - first.x);
    let at = row * width + column;
    assert(0 <= at < width * height) by (nonlinear_arith)
        requires
            0 <= row < height,
            0 <= column < width,
            at == row * width + column,
    ;
    vstd::arithmetic::div_mod::lemma_fundamental_div_mod_converse(at, width, row, column);
}

} // verus!
