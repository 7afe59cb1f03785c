//! What the controls show and what their changes do.
use vstd::prelude::*;

use crate::interaction::{InteractionTools, Tool};
use crate::model::{hash, validate_counts, Appearance, GpuStatus, RuleKind, Simulation};
use crate::scalar::{half, one, scalar, two, zero, Scalar};
use crate::text::parse_whole;
use crate::vector::{UVec2, Vec2};

verus! {

/// The state of the sidebar and of the pointer.
#[derive(Debug)]
pub struct Controls {
    pub count: u32,
    pub types: u32,
    /// Row and column of the selected entry of each rule matrix.
    pub selected: [(u32, u32); 4],
    pub visible: bool,
    pub error: String,
    pub fps: Scalar,
    pub dragging: bool,
    pub pointer_start: Option<Vec2>,
    pub pointer_moved: bool,
    pub brushing: bool,
    /// Which of count, types and seed hold no valid number.
    pub invalid: [bool; 3],
}

impl Default for Controls {
    fn default() -> (r: Self)
        ensures
            r.selected@ == seq![(0u32, 0u32), (0u32, 0u32), (0u32, 0u32), (0u32, 0u32)],
            r.error@ == ""@,
            r.invalid@ == seq![false, false, false],
            r == (Controls {
                count: 100_000,
                types: 8,
                visible: true,
                fps: scalar(0x4270_0000),  // 60.0
                dragging: false,
                pointer_start: None,
                pointer_moved: false,
                brushing: false,
                ..r
            }),
    {
        proof {
            reveal_strlit("");
        }
        Controls {
            count: 100_000,
            types: 8,
            selected: [(0, 0), (0, 0), (0, 0), (0, 0)],
            visible: true,
            error: String::new(),
            fps: scalar(0x4270_0000),  // 60.0
            dragging: false,
            pointer_start: None,
            pointer_moved: false,
            brushing: false,
            invalid: [false, false, false],
        }
    }
}

impl Controls {
    /// The selected entry of every matrix exists.
    pub open spec fn selects(self, sim: Simulation) -> bool {
        forall|k: int|
            0 <= k < 4 ==> (#[trigger] self.selected@[k]).0 < sim.types && self.selected@[k].1 < sim.types
    }

    /// Some number field holds no valid number.
    pub open spec fn spec_any_invalid(&self) -> bool {
        self.invalid@[0] || self.invalid@[1] || self.invalid@[2]
    }

    #[verifier::when_used_as_spec(spec_any_invalid)]
    pub fn any_invalid(&self) -> (r: bool)
        ensures
            r == self.spec_any_invalid(),
    {
        self.invalid[0] || self.invalid[1] || self.invalid[2]
    }
}

/// Physical pixel bounds shared by rendering and pointer conversion: the sidebar
/// takes 360 logical pixels from the left while it is visible, but at most half.
pub open spec fn viewport_of(size: UVec2, scale: Scalar, visible: bool) -> (UVec2, UVec2) {
    let width = if size.x < 1 { 1u32 } else { size.x };
    let height = if size.y < 1 { 1u32 } else { size.y };
    let wanted = if visible {
        scalar(0x43b4_0000).mul(scale).round().max(zero()).to_u32()  // 360.0
    } else {
        0
    };
    let left = if wanted < width / 2 { wanted } else { width / 2 };
    (UVec2 { x: left, y: 0 }, UVec2 { x: (width - left) as u32, y: height })
}

pub fn viewport_geometry(size: UVec2, scale: Scalar, visible: bool) -> (r: (UVec2, UVec2))
    ensures
        r == viewport_of(size, scale, visible),
{
    let width: u32 = if size.x < 1 {
        1
    } else {
        size.x
    };
    let height: u32 = if size.y < 1 {
        1
    } else {
        size.y
    };
    let wanted: u32 = if visible {
        scalar(0x43b4_0000).mul(scale).round().max(zero()).to_u32()  // 360.0
    } else {
        0
    };
    let left: u32 = if wanted < width / 2 {
        wanted
    } else {
        width / 2
    };
    (UVec2 { x: left, y: 0 }, UVec2 { x: width - left, y: height })
}

/// The sidebar and the world share the window: neither overlaps the other, the
/// world keeps at least half, and a hidden sidebar leaves it everything.
pub proof fn lemma_viewport_fills_window(size: UVec2, scale: Scalar, visible: bool)
    ensures
        ({
            let (origin, rest) = viewport_of(size, scale, visible);
            &&& origin.y == 0
            &&& rest.x >= 1 && rest.y >= 1
            &&& origin.x <= rest.x
            &&& size.x >= 1 ==> origin.x + rest.x == size.x
            &&& size.y >= 1 ==> rest.y == size.y
            &&& !visible ==> origin.x == 0
        }),
{
}

/// A number field.
#[derive(Clone, Copy, PartialEq, Eq, Structural, Debug)]
pub enum Integer {
    Count,
    Types,
    Seed,
}

impl Integer {
    /// Place among the number fields.
    #[verifier::allow_in_spec]
    pub fn index(self) -> usize
        returns
            (match self {
                Integer::Count => 0usize,
                Integer::Types => 1usize,
                Integer::Seed => 2usize,
            }),
    {
        match self {
            Integer::Count => 0,
            Integer::Types => 1,
            Integer::Seed => 2,
        }
    }
}

/// A check box.
#[derive(Clone, Copy, PartialEq, Eq, Structural, Debug)]
pub enum Toggle {
    Clustered,
    Preferred,
    Density,
    Nova,
    Trails,
}

/// A condition under which a control is usable.
#[derive(Clone, Copy, PartialEq, Eq, Structural, Debug)]
pub enum Gate {
    Density,
    Nova,
    Cycle,
    Neighbors,
    Trails,
    Step,
}

impl Gate {
    pub open spec fn opens(self, s: Simulation) -> bool {
        match self {
            Gate::Density => s.behavior.density_enabled,
            Gate::Nova => s.behavior.nova_enabled,
            Gate::Cycle => s.behavior.cycle_mode != 0,
            Gate::Neighbors => s.behavior.cycle_mode >= 2,
            Gate::Trails => s.trails.enabled,
            Gate::Step => s.paused,
        }
    }
}

/// Whether the controls behind a gate are usable.
pub fn enabled(gate: Gate, s: &Simulation) -> (r: bool)
    ensures
        r == gate.opens(*s),
{
    match gate {
        Gate::Density => s.behavior.density_enabled,
        Gate::Nova => s.behavior.nova_enabled,
        Gate::Cycle => s.behavior.cycle_mode != 0,
        Gate::Neighbors => s.behavior.cycle_mode >= 2,
        Gate::Trails => s.trails.enabled,
        Gate::Step => s.paused,
    }
}

/// A slider.
#[derive(Clone, Copy, PartialEq, Eq, Structural, Debug)]
pub enum Field {
    Speed,
    Radius,
    Strength,
    Damping,
    Size,
    Glow,
    DensityTarget,
    DensityStrength,
    NovaThreshold,
    NovaRadius,
    NovaImpulse,
    NovaDuration,
    SampleBudget,
    CycleSeconds,
    CycleFraction,
    CycleMin,
    Response,
    Deposit,
    HalfLife,
    Diffusion,
    Sensor,
    Visibility,
    Rule(RuleKind),
}

impl Field {
    pub open spec fn label_text(self) -> Seq<char> {
        match self {
            Field::Speed => "Speed"@,
            Field::Radius => "Interaction radius"@,
            Field::Strength => "Force strength"@,
            Field::Damping => "Damping"@,
            Field::Size => "Particle radius"@,
            Field::Glow => "Glow"@,
            Field::DensityTarget => "Target neighbors"@,
            Field::DensityStrength => "Crowding strength"@,
            Field::NovaThreshold => "Ignition threshold"@,
            Field::NovaRadius => "Ignition radius"@,
            Field::NovaImpulse => "Blast strength"@,
            Field::NovaDuration => "Blast duration (s)"@,
            Field::SampleBudget => "Sample budget"@,
            Field::CycleSeconds => "Interval / cooldown (s)"@,
            Field::CycleFraction => "Next-type fraction"@,
            Field::CycleMin => "Minimum neighbors"@,
            Field::Response => "Follow / avoid"@,
            Field::Deposit => "Deposit rate"@,
            Field::HalfLife => "Half-life (seconds)"@,
            Field::Diffusion => "Diffusion"@,
            Field::Sensor => "Sensing distance"@,
            Field::Visibility => "Trail visibility"@,
            Field::Rule(_) => "Selected rule value"@,
        }
    }

    pub fn label(self) -> (r: &'static str)
        ensures
            r@ == self.label_text(),
    {
        match self {
            Field::Speed => "Speed",
            Field::Radius => "Interaction radius",
            Field::Strength => "Force strength",
            Field::Damping => "Damping",
            Field::Size => "Particle radius",
            Field::Glow => "Glow",
            Field::DensityTarget => "Target neighbors",
            Field::DensityStrength => "Crowding strength",
            Field::NovaThreshold => "Ignition threshold",
            Field::NovaRadius => "Ignition radius",
            Field::NovaImpulse => "Blast strength",
            Field::NovaDuration => "Blast duration (s)",
            Field::SampleBudget => "Sample budget",
            Field::CycleSeconds => "Interval / cooldown (s)",
            Field::CycleFraction => "Next-type fraction",
            Field::CycleMin => "Minimum neighbors",
            Field::Response => "Follow / avoid",
            Field::Deposit => "Deposit rate",
            Field::HalfLife => "Half-life (seconds)",
            Field::Diffusion => "Diffusion",
            Field::Sensor => "Sensing distance",
            Field::Visibility => "Trail visibility",
            Field::Rule(_) => "Selected rule value",
        }
    }

    /// The smallest and the largest value.
    #[verifier::allow_in_spec]
    pub fn range(self) -> (Scalar, Scalar)
        returns
            (match self {
                Field::Speed => (scalar(0x3dcc_cccd), scalar(0x4040_0000)),  // 0.1, 3.0
                Field::Radius => (scalar(0x4100_0000), scalar(0x4300_0000)),  // 8.0, 128.0
                Field::Strength => (zero(), scalar(0x437a_0000)),  // 250.0
                Field::Damping => (scalar(0x3dcc_cccd), scalar(0x4120_0000)),  // 0.1, 10.0
                Field::Size => (half(), scalar(0x4100_0000)),  // 8.0
                Field::Glow => (zero(), one()),
                Field::DensityTarget => (one(), scalar(0x4400_0000)),  // 512.0
                Field::DensityStrength => (zero(), two()),
                Field::NovaThreshold => (scalar(0x4080_0000), scalar(0x4380_0000)),  // 4.0, 256.0
                Field::NovaRadius => (scalar(0x3d4c_cccd), one()),  // 0.05
                Field::NovaImpulse => (scalar(0x4348_0000), scalar(0x45bb_8000)),  // 200.0, 6000.0
                Field::NovaDuration => (scalar(0x3d4c_cccd), one()),  // 0.05
                Field::SampleBudget => (scalar(0x4180_0000), scalar(0x4380_0000)),  // 16.0, 256.0
                Field::CycleSeconds => (half(), scalar(0x41f0_0000)),  // 30.0
                Field::CycleFraction => (scalar(0x3d4c_cccd), one()),  // 0.05
                Field::CycleMin => (one(), scalar(0x4300_0000)),  // 128.0
                Field::Response => (scalar(0xc348_0000), scalar(0x4348_0000)),  // -200.0, 200.0
                Field::Deposit => (zero(), scalar(0x4120_0000)),  // 10.0
                Field::HalfLife => (half(), scalar(0x41f0_0000)),  // 30.0
                Field::Diffusion => (zero(), scalar(0x41f0_0000)),  // 30.0
                Field::Sensor => (scalar(0x4080_0000), scalar(0x42c0_0000)),  // 4.0, 96.0
                Field::Visibility => (zero(), one()),
                Field::Rule(kind) => kind.bounds(),
            }),
    {
        match self {
            Field::Speed => (scalar(0x3dcc_cccd), scalar(0x4040_0000)),  // 0.1, 3.0
            Field::Radius => (scalar(0x4100_0000), scalar(0x4300_0000)),  // 8.0, 128.0
            Field::Strength => (zero(), scalar(0x437a_0000)),  // 250.0
            Field::Damping => (scalar(0x3dcc_cccd), scalar(0x4120_0000)),  // 0.1, 10.0
            Field::Size => (half(), scalar(0x4100_0000)),  // 8.0
            Field::Glow => (zero(), one()),
            Field::DensityTarget => (one(), scalar(0x4400_0000)),  // 512.0
            Field::DensityStrength => (zero(), two()),
            Field::NovaThreshold => (scalar(0x4080_0000), scalar(0x4380_0000)),  // 4.0, 256.0
            Field::NovaRadius => (scalar(0x3d4c_cccd), one()),  // 0.05
            Field::NovaImpulse => (scalar(0x4348_0000), scalar(0x45bb_8000)),  // 200.0, 6000.0
            Field::NovaDuration => (scalar(0x3d4c_cccd), one()),  // 0.05
            Field::SampleBudget => (scalar(0x4180_0000), scalar(0x4380_0000)),  // 16.0, 256.0
            Field::CycleSeconds => (half(), scalar(0x41f0_0000)),  // 30.0
            Field::CycleFraction => (scalar(0x3d4c_cccd), one()),  // 0.05
            Field::CycleMin => (one(), scalar(0x4300_0000)),  // 128.0
            Field::Response => (scalar(0xc348_0000), scalar(0x4348_0000)),  // -200.0, 200.0
            Field::Deposit => (zero(), scalar(0x4120_0000)),  // 10.0
            Field::HalfLife => (half(), scalar(0x41f0_0000)),  // 30.0
            Field::Diffusion => (zero(), scalar(0x41f0_0000)),  // 30.0
            Field::Sensor => (scalar(0x4080_0000), scalar(0x42c0_0000)),  // 4.0, 96.0
            Field::Visibility => (zero(), one()),
            Field::Rule(kind) => kind.bounds(),
        }
    }

    /// What must be on for the slider to be usable.
    #[verifier::allow_in_spec]
    pub fn gate(self) -> Option<Gate>
        returns
            (match self {
                Field::DensityTarget => Some(Gate::Density),
                Field::DensityStrength => Some(Gate::Density),
                Field::NovaThreshold | Field::NovaRadius => Some(Gate::Nova),
                Field::NovaImpulse | Field::NovaDuration => Some(Gate::Nova),
                Field::CycleSeconds => Some(Gate::Cycle),
                Field::CycleFraction => Some(Gate::Neighbors),
                Field::CycleMin => Some(Gate::Neighbors),
                Field::Response => Some(Gate::Trails),
                Field::Deposit => Some(Gate::Trails),
                Field::HalfLife => Some(Gate::Trails),
                Field::Diffusion => Some(Gate::Trails),
                Field::Sensor => Some(Gate::Trails),
                Field::Visibility => Some(Gate::Trails),
                _ => None,
            }),
    {
        match self {
            Field::DensityTarget => Some(Gate::Density),
            Field::DensityStrength => Some(Gate::Density),
            Field::NovaThreshold | Field::NovaRadius => Some(Gate::Nova),
            Field::NovaImpulse | Field::NovaDuration => Some(Gate::Nova),
            Field::CycleSeconds => Some(Gate::Cycle),
            Field::CycleFraction => Some(Gate::Neighbors),
            Field::CycleMin => Some(Gate::Neighbors),
            Field::Response => Some(Gate::Trails),
            Field::Deposit => Some(Gate::Trails),
            Field::HalfLife => Some(Gate::Trails),
            Field::Diffusion => Some(Gate::Trails),
            Field::Sensor => Some(Gate::Trails),
            Field::Visibility => Some(Gate::Trails),
            _ => None,
        }
    }

    /// Decimals the slider shows.
    #[verifier::allow_in_spec]
    pub fn precision(self) -> i32
        returns
            (match self {
                Field::Rule(_) => 3i32,
                Field::CycleMin => 0i32,
                _ => 2i32,
            }),
    {
        match self {
            Field::Rule(_) => 3,
            Field::CycleMin => 0,
            _ => 2,
        }
    }

    /// The value the slider stands for.
    pub open spec fn reads(self, s: Simulation, a: Appearance, c: Controls) -> Scalar {
        match self {
            Field::Speed => s.speed,
            Field::Radius => s.radius,
            Field::Strength => s.strength,
            Field::Damping => s.damping,
            Field::Size => a.size,
            Field::Glow => a.glow,
            Field::DensityTarget => s.behavior.density_target,
            Field::DensityStrength => s.behavior.density_strength,
            Field::NovaThreshold => s.behavior.nova_threshold,
            Field::NovaRadius => s.behavior.nova_radius,
            Field::NovaImpulse => s.behavior.nova_impulse,
            Field::NovaDuration => s.behavior.nova_duration,
            Field::SampleBudget => Scalar::from_u32(s.behavior.sample_budget),
            Field::CycleSeconds => s.behavior.cycle_seconds,
            Field::CycleFraction => s.behavior.cycle_fraction,
            Field::CycleMin => Scalar::from_u32(s.behavior.cycle_min_neighbors),
            Field::Response => s.trails.response,
            Field::Deposit => s.trails.deposit,
            Field::HalfLife => s.trails.half_life,
            Field::Diffusion => s.trails.diffusion,
            Field::Sensor => s.trails.sensor_distance,
            Field::Visibility => s.trails.visibility,
            Field::Rule(kind) => s.entries(kind)[selected_entry(s, c, kind)],
        }
    }

    pub fn value(self, s: &Simulation, a: &Appearance, c: &Controls) -> (r: Scalar)
        requires
            self matches Field::Rule(kind) ==> picks(*s, *c, kind),
        ensures
            r == self.reads(*s, *a, *c),
    {
        match self {
            Field::Speed => s.speed,
            Field::Radius => s.radius,
            Field::Strength => s.strength,
            Field::Damping => s.damping,
            Field::Size => a.size,
            Field::Glow => a.glow,
            Field::DensityTarget => s.behavior.density_target,
            Field::DensityStrength => s.behavior.density_strength,
            Field::NovaThreshold => s.behavior.nova_threshold,
            Field::NovaRadius => s.behavior.nova_radius,
            Field::NovaImpulse => s.behavior.nova_impulse,
            Field::NovaDuration => s.behavior.nova_duration,
            Field::SampleBudget => Scalar::from_u32(s.behavior.sample_budget),
            Field::CycleSeconds => s.behavior.cycle_seconds,
            Field::CycleFraction => s.behavior.cycle_fraction,
            Field::CycleMin => Scalar::from_u32(s.behavior.cycle_min_neighbors),
            Field::Response => s.trails.response,
            Field::Deposit => s.trails.deposit,
            Field::HalfLife => s.trails.half_life,
            Field::Diffusion => s.trails.diffusion,
            Field::Sensor => s.trails.sensor_distance,
            Field::Visibility => s.trails.visibility,
            Field::Rule(kind) => {
                let (row, col): (u32, u32) = c.selected[kind.index()];
                s.matrix(kind)[s.place(kind, row, col)]
            },
        }
    }

    /// The world after the slider moved to `value`.
    pub open spec fn on_world(self, s: Simulation, value: Scalar) -> Simulation {
        match self {
            Field::Speed => Simulation { speed: value, ..s },
            Field::Radius => Simulation { radius: value, ..s },
            Field::Strength => Simulation { strength: value, ..s },
            Field::Damping => Simulation { damping: value, ..s },
            Field::DensityTarget => Simulation {
                behavior: crate::model::Behavior { density_target: value, ..s.behavior },
                ..s
            },
            Field::DensityStrength => Simulation {
                behavior: crate::model::Behavior { density_strength: value, ..s.behavior },
                ..s
            },
            Field::NovaThreshold => Simulation {
                behavior: crate::model::Behavior { nova_threshold: value, ..s.behavior },
                ..s
            },
            Field::NovaRadius => Simulation {
                behavior: crate::model::Behavior { nova_radius: value, ..s.behavior },
                ..s
            },
            Field::NovaImpulse => Simulation {
                behavior: crate::model::Behavior { nova_impulse: value, ..s.behavior },
                ..s
            },
            Field::NovaDuration => Simulation {
                behavior: crate::model::Behavior { nova_duration: value, ..s.behavior },
                ..s
            },
            Field::SampleBudget => Simulation {
                behavior: crate::model::Behavior { sample_budget: value.round().to_u32(), ..s.behavior },
                ..s
            },
            Field::CycleSeconds => Simulation {
                behavior: crate::model::Behavior { cycle_seconds: value, ..s.behavior },
                ..s
            },
            Field::CycleFraction => Simulation {
                behavior: crate::model::Behavior { cycle_fraction: value, ..s.behavior },
                ..s
            },
            Field::CycleMin => Simulation {
                behavior: crate::model::Behavior { cycle_min_neighbors: value.round().to_u32(), ..s.behavior },
                ..s
            },
            Field::Response => Simulation {
                trails: crate::model::Trails { response: value, ..s.trails },
                ..s
            },
            Field::Deposit => Simulation {
                trails: crate::model::Trails { deposit: value, ..s.trails },
                ..s
            },
            Field::HalfLife => Simulation {
                trails: crate::model::Trails { half_life: value, ..s.trails },
                ..s
            },
            Field::Diffusion => Simulation {
                trails: crate::model::Trails { diffusion: value, ..s.trails },
                ..s
            },
            Field::Sensor => Simulation {
                trails: crate::model::Trails { sensor_distance: value, ..s.trails },
                ..s
            },
            Field::Visibility => Simulation {
                trails: crate::model::Trails { visibility: value, ..s.trails },
                ..s
            },
            _ => s,
        }
    }

    /// The view after the slider moved to `value`.
    pub open spec fn on_view(self, a: Appearance, value: Scalar) -> Appearance {
        match self {
            Field::Size => Appearance { size: value, ..a },
            Field::Glow => Appearance { glow: value, ..a },
            _ => a,
        }
    }

    /// Moves the slider to a value, or to the end of its range that is closer.
    pub fn set(self, value: Scalar, s: &mut Simulation, a: &mut Appearance, c: &Controls)
        requires
            self matches Field::Rule(kind) ==> picks(*old(s), *c, kind) && old(s).rules_revision < u64::MAX,
        ensures
            *final(a) == self.on_view(*old(a), value.clamp(self.range().0, self.range().1)),
            match self {
                Field::Rule(kind) => final(s).replaces(
                    *old(s),
                    kind,
                    old(s).entries(kind).update(
                        selected_entry(*old(s), *c, kind),
                        value.clamp(self.range().0, self.range().1),
                    ),
                ),
                _ => *final(s) == self.on_world(*old(s), value.clamp(self.range().0, self.range().1)),
            },
            old(s).wf() ==> final(s).wf(),
    {
        let (low, high): (Scalar, Scalar) = self.range();
        let value: Scalar = value.clamp(low, high);
        match self {
            Field::Speed => {
                s.speed = value;
            },
            Field::Radius => {
                s.radius = value;
            },
            Field::Strength => {
                s.strength = value;
            },
            Field::Damping => {
                s.damping = value;
            },
            Field::Size => {
                a.size = value;
            },
            Field::Glow => {
                a.glow = value;
            },
            Field::DensityTarget => {
                s.behavior.density_target = value;
            },
            Field::DensityStrength => {
                s.behavior.density_strength = value;
            },
            Field::NovaThreshold => {
                s.behavior.nova_threshold = value;
            },
            Field::NovaRadius => {
                s.behavior.nova_radius = value;
            },
            Field::NovaImpulse => {
                s.behavior.nova_impulse = value;
            },
            Field::NovaDuration => {
                s.behavior.nova_duration = value;
            },
            Field::SampleBudget => {
                s.behavior.sample_budget = value.round().to_u32();
            },
            Field::CycleSeconds => {
                s.behavior.cycle_seconds = value;
            },
            Field::CycleFraction => {
                s.behavior.cycle_fraction = value;
            },
            Field::CycleMin => {
                s.behavior.cycle_min_neighbors = value.round().to_u32();
            },
            Field::Response => {
                s.trails.response = value;
            },
            Field::Deposit => {
                s.trails.deposit = value;
            },
            Field::HalfLife => {
                s.trails.half_life = value;
            },
            Field::Diffusion => {
                s.trails.diffusion = value;
            },
            Field::Sensor => {
                s.trails.sensor_distance = value;
            },
            Field::Visibility => {
                s.trails.visibility = value;
            },
            Field::Rule(kind) => {
                let (row, col): (u32, u32) = c.selected[kind.index()];
                let index: usize = s.place(kind, row, col);
                assert(value.clamp(low, high) == value);
                s.set_rule(kind, index, value);
            },
        }
    }
}

/// Where the selected entry of a matrix lies.
pub open spec fn selected_entry(s: Simulation, c: Controls, kind: RuleKind) -> int {
    let (row, column) = c.selected@[kind.index() as int];
    row * s.types + column
}

/// The selection of a matrix is one of its entries.
pub open spec fn picks(s: Simulation, c: Controls, kind: RuleKind) -> bool {
    selected_entry(s, c, kind) < s.entries(kind).len()
}

/// In a complete world, a selection among its types is an entry of every matrix.
pub proof fn lemma_selection_picks(s: Simulation, c: Controls, kind: RuleKind)
    requires
        s.wf(),
        c.selects(s),
    ensures
        picks(s, c, kind),
{
    let (row, column) = c.selected@[kind.index() as int];
    let types = s.types;
    assert(row * types + column < types * types) by (nonlinear_arith)
        requires
            row < types,
            column < types,
    ;
}

/// A button or a menu item.
#[derive(Clone, Copy, PartialEq, Eq, Structural, Debug)]
pub enum Action {
    Tool(Tool),
    Hide,
    Show,
    Play,
    Step,
    Reset,
    Apply,
    ResetView,
    ClearTrails,
    Randomize(RuleKind),
    Zero(RuleKind),
    Palette(usize),
    Cycle(u32),
    Exact(bool),
    Cell(RuleKind, u32, u32),
}

impl Action {
    /// The counters that the action advances have not run out.
    pub open spec fn has_room(self, s: Simulation) -> bool {
        match self {
            Action::Step => s.paused ==> s.step < u64::MAX,
            Action::Reset => s.epoch < u64::MAX,
            Action::Apply => s.epoch < u64::MAX && s.rules_revision < u64::MAX,
            Action::ClearTrails => s.trails.clear_revision < u64::MAX,
            Action::Randomize(_) => s.rules_revision < u64::MAX,
            Action::Zero(_) => s.rules_revision < u64::MAX,
            _ => true,
        }
    }

    /// What the action makes of the world.
    pub open spec fn on_world(self, before: Simulation, after: Simulation, c: Controls, status: GpuStatus) -> bool {
        match self {
            Action::Play => after == (Simulation { paused: !before.paused, ..before }),
            Action::Step => after == if before.paused {
                Simulation { step: (before.step + 1) as u64, ..before }
            } else {
                before
            },
            Action::Reset => after == (Simulation { epoch: (before.epoch + 1) as u64, ..before }),
            Action::Apply => if applies(c, status) {
                regenerated(before, after, c.count, c.types)
            } else {
                after == before
            },
            Action::ClearTrails => after == (Simulation {
                trails: crate::model::Trails {
                    clear_revision: (before.trails.clear_revision + 1) as u64,
                    ..before.trails
                },
                ..before
            }),
            Action::Randomize(kind) => {
                let reseeded = Simulation { seed: hash(before.seed), ..before };
                after.replaces(reseeded, kind, reseeded.random_entries(kind))
            },
            Action::Zero(kind) => after.replaces(
                before,
                kind,
                zeros(before.entries(kind).len() as int),
            ),
            Action::Palette(i) => after == (Simulation { palette: i, ..before }),
            Action::Cycle(i) => after == (Simulation {
                behavior: crate::model::Behavior { cycle_mode: i, ..before.behavior },
                ..before
            }),
            Action::Exact(exact) => after == (Simulation { exact, ..before }),
            _ => after == before,
        }
    }

    /// What the action makes of the view.
    pub open spec fn on_view(self, a: Appearance) -> Appearance {
        match self {
            Action::ResetView => Appearance { pan: Vec2 { x: zero(), y: zero() }, zoom: one(), ..a },
            _ => a,
        }
    }

    /// What the action makes of the tools.
    pub open spec fn on_tools(self, tools: InteractionTools) -> InteractionTools {
        match self {
            Action::Tool(tool) => InteractionTools { tool, active: false, ..tools },
            _ => tools,
        }
    }

    /// What the action makes of the controls.
    pub open spec fn on_controls(self, before: Controls, after: Controls, status: GpuStatus) -> bool {
        match self {
            Action::Tool(_) => after == (Controls { brushing: false, dragging: false, ..before }),
            Action::Hide => after == (Controls { visible: false, ..before }),
            Action::Show => after == (Controls { visible: true, ..before }),
            Action::Apply => {
                &&& after == (Controls { selected: after.selected, error: after.error, ..before })
                &&& if before.any_invalid() {
                    after.selected == before.selected && after.error == before.error
                } else {
                    match crate::model::count_error(before.count, before.types, status) {
                        Some(message) => after.selected == before.selected && after.error@ == message,
                        None => after.selected@ == seq![(0u32, 0u32), (0u32, 0u32), (0u32, 0u32), (0u32, 0u32)]
                            && after.error@ == ""@,
                    }
                }
            },
            Action::Cell(kind, row, column) => {
                &&& after == (Controls { selected: after.selected, ..before })
                &&& after.selected@ == before.selected@.update(kind.index() as int, (row, column))
            },
            _ => after == before,
        }
    }
}

/// The counts entered are valid and fit the device.
pub open spec fn applies(c: Controls, status: GpuStatus) -> bool {
    !c.any_invalid() && crate::model::count_error(c.count, c.types, status) is None
}

/// A new world of the given size with fresh rules from the same seed; everything
/// else stays as it was.
pub open spec fn regenerated(before: Simulation, after: Simulation, count: u32, types: u32) -> bool {
    &&& after == (Simulation {
        count,
        types,
        rules: after.rules,
        swirl: after.swirl,
        alignment: after.alignment,
        distance: after.distance,
        rules_revision: (before.rules_revision + 1) as u64,
        epoch: (before.epoch + 1) as u64,
        ..before
    })
    &&& after.wf()
    &&& after.rules@ == crate::model::random_matrix(types, before.seed)
    &&& after.swirl@ == zeros(types * types)
    &&& after.alignment@ == zeros(types * types)
    &&& after.distance@ == crate::model::uniform(types * types, half())
}

/// A matrix of zeros.
pub open spec fn zeros(count: int) -> Seq<Scalar> {
    crate::model::uniform(count, zero())
}

/// Carries out an action, unless its control is disabled; tells whether the
/// background takes the focus.
#[verifier::rlimit(40)]
#[verifier::spinoff_prover]
pub fn activate(
    action: Action,
    disabled: bool,
    s: &mut Simulation,
    a: &mut Appearance,
    c: &mut Controls,
    tools: &mut InteractionTools,
    status: &GpuStatus,
) -> (focus: bool)
    requires
        disabled || action.has_room(*old(s)),
    ensures
        disabled ==> *final(s) == *old(s) && *final(a) == *old(a) && *final(c) == *old(c)
            && *final(tools) == *old(tools) && !focus,
        !disabled ==> {
            &&& action.on_world(*old(s), *final(s), *old(c), *status)
            &&& *final(a) == action.on_view(*old(a))
            &&& action.on_controls(*old(c), *final(c), *status)
            &&& *final(tools) == action.on_tools(*old(tools))
            &&& focus == (action is Hide || action is Show)
        },
        old(s).wf() ==> final(s).wf(),
{
    if disabled {
        return false;
    }
    match action {
        Action::Tool(tool) => {
            tools.tool = tool;
            tools.active = false;
            c.brushing = false;
            c.dragging = false;
        },
        Action::Hide => {
            c.visible = false;
            return true;
        },
        Action::Show => {
            c.visible = true;
            return true;
        },
        Action::Play => {
            s.paused = !s.paused;
        },
        Action::Step => {
            if s.paused {
                s.step = s.step + 1;
            }
        },
        Action::Reset => {
            s.epoch = s.epoch + 1;
        },
        Action::Apply => {
            apply_counts(s, c, status);
        },
        Action::ResetView => {
            a.pan = Vec2 { x: zero(), y: zero() };
            a.zoom = one();
        },
        Action::ClearTrails => {
            s.trails.clear_revision = s.trails.clear_revision + 1;
        },
        Action::Randomize(kind) => {
            s.seed = hash(s.seed);
            s.randomize_matrix(kind);
        },
        Action::Zero(kind) => {
            s.clear_matrix(kind);
        },
        Action::Palette(i) => {
            s.palette = i;
        },
        Action::Cycle(i) => {
            s.behavior.cycle_mode = i;
        },
        Action::Exact(exact) => {
            s.exact = exact;
        },
        Action::Cell(kind, row, column) => {
            c.selected[kind.index()] = (row, column);
        },
    }
    false
}

/// Regenerates the world with the counts entered, or says why not.
fn apply_counts(s: &mut Simulation, c: &mut Controls, status: &GpuStatus)
    requires
        Action::Apply.has_room(*old(s)),
    ensures
        Action::Apply.on_world(*old(s), *final(s), *old(c), *status),
        Action::Apply.on_controls(*old(c), *final(c), *status),
        old(s).wf() ==> final(s).wf(),
{
    if c.any_invalid() {
        return;
    }
    match validate_counts(c.count, c.types, status) {
        Ok(()) => {
            s.count = c.count;
            s.types = c.types;
            s.randomize();
            s.epoch = s.epoch + 1;
            c.selected = [(0, 0), (0, 0), (0, 0), (0, 0)];
            c.error = String::new();
            proof {
                reveal_strlit("");
                assert(c.error@ =~= ""@);
                assert(c.selected@ =~= seq![(0u32, 0u32), (0u32, 0u32), (0u32, 0u32), (0u32, 0u32)]);
            }
        },
        Err(message) => {
            c.error = message;
        },
    }
}

/// A world is only regenerated at a size that the device can hold; a refused
/// request leaves the world as it was and says why.
pub proof fn lemma_refused_regeneration_changes_nothing(
    before: Simulation,
    after: Simulation,
    c: Controls,
    shown: Controls,
    status: GpuStatus,
)
    requires
        Action::Apply.on_world(before, after, c, status),
        Action::Apply.on_controls(c, shown, status),
        !applies(c, status),
    ensures
        after == before,
        !c.any_invalid() ==> Some(shown.error@) == crate::model::count_error(c.count, c.types, status),
        shown.selected == c.selected,
{
}

/// Whatever regeneration leaves behind, its selected entries exist.
pub proof fn lemma_regeneration_keeps_selection(
    before: Simulation,
    after: Simulation,
    c: Controls,
    shown: Controls,
    status: GpuStatus,
)
    requires
        c.selects(before),
        Action::Apply.on_world(before, after, c, status),
        Action::Apply.on_controls(c, shown, status),
    ensures
        shown.selects(after),
{
}

/// Moves a slider, unless it is disabled or the value is not finite.
pub fn float_change(field: Field, disabled: bool, value: Scalar, s: &mut Simulation, a: &mut Appearance, c: &Controls)
    requires
        !disabled && value.finite() ==> (field matches Field::Rule(kind) ==> picks(*old(s), *c, kind)
            && old(s).rules_revision < u64::MAX),
    ensures
        disabled || !value.finite() ==> *final(s) == *old(s) && *final(a) == *old(a),
        !disabled && value.finite() ==> {
            let moved = value.clamp(field.range().0, field.range().1);
            &&& *final(a) == field.on_view(*old(a), moved)
            &&& match field {
                Field::Rule(kind) => final(s).replaces(
                    *old(s),
                    kind,
                    old(s).entries(kind).update(selected_entry(*old(s), *c, kind), moved),
                ),
                _ => *final(s) == field.on_world(*old(s), moved),
            }
        },
        old(s).wf() ==> final(s).wf(),
{
    if !disabled && value.is_finite() {
        field.set(value, s, a, c);
    }
}

/// A slider shows what it was moved to; those that stand for counts show the
/// nearest count.
pub proof fn lemma_slider_reads_back(
    field: Field,
    value: Scalar,
    before: Simulation,
    after: Simulation,
    a: Appearance,
    c: Controls,
)
    requires
        value.finite(),
        !(field is Rule) ==> after == field.on_world(before, value.clamp(field.range().0, field.range().1)),
        field matches Field::Rule(kind) ==> picks(before, c, kind) && after.replaces(
            before,
            kind,
            before.entries(kind).update(
                selected_entry(before, c, kind),
                value.clamp(field.range().0, field.range().1),
            ),
        ),
    ensures
        ({
            let moved = value.clamp(field.range().0, field.range().1);
            field.reads(after, field.on_view(a, moved), c) == if field == Field::SampleBudget || field
                == Field::CycleMin {
                Scalar::from_u32(moved.round().to_u32())
            } else {
                moved
            }
        }),
{
    if let Field::Rule(kind) = field {
        let (row, column) = c.selected@[kind.index() as int];
        let types = before.types;
        assert(row * types >= 0) by (nonlinear_arith);
    }
}

/// Counts are positive words; a seed may be zero too.
pub open spec fn allowed(value: int, kind: Integer) -> bool {
    (if kind == Integer::Seed { 0int } else { 1int }) <= value <= u32::MAX
}

pub fn valid_integer(value: i64, kind: Integer) -> (r: Option<u32>)
    ensures
        r == if allowed(value as int, kind) {
            Some(value as u32)
        } else {
            None
        },
{
    if value < 0 || value > u32::MAX as i64 {
        return None;
    }
    if value > 0 || kind == Integer::Seed {
        Some(value as u32)
    } else {
        None
    }
}

/// What is said of a number that is not allowed.
pub open spec fn integer_error() -> Seq<char> {
    "Enter an integer within the allowed range: counts 1–4294967295; seed 0–4294967295."@
}

/// Takes over a number that was entered, if it is allowed.
pub fn integer_change(kind: Integer, value: i64, s: &mut Simulation, c: &mut Controls)
    ensures
        *final(s) == if allowed(value as int, kind) && kind == Integer::Seed {
            Simulation { seed: value as u32, ..*old(s) }
        } else {
            *old(s)
        },
        *final(c) == (Controls {
            count: if allowed(value as int, kind) && kind == Integer::Count {
                value as u32
            } else {
                old(c).count
            },
            types: if allowed(value as int, kind) && kind == Integer::Types {
                value as u32
            } else {
                old(c).types
            },
            error: final(c).error,
            ..*old(c)
        }),
        final(c).error@ == if !allowed(value as int, kind) {
            integer_error()
        } else if old(c).any_invalid() {
            old(c).error@
        } else {
            ""@
        },
{
    proof {
        reveal_strlit("");
    }
    match valid_integer(value, kind) {
        Some(v) => {
            match kind {
                Integer::Count => {
                    c.count = v;
                },
                Integer::Types => {
                    c.types = v;
                },
                Integer::Seed => {
                    s.seed = v;
                },
            }
            if !c.any_invalid() {
                c.error = String::new();
            }
        },
        None => {
            c.error = "Enter an integer within the allowed range: counts 1–4294967295; seed 0–4294967295.".to_owned();
        },
    }
}

/// Whether a text denotes an allowed number.
pub open spec fn allowed_text(text: Seq<char>, kind: Integer) -> bool {
    match crate::text::whole_value(text) {
        Some(value) => allowed(value, kind),
        None => false,
    }
}

/// Notes whether the text of a number field denotes an allowed number. Fields
/// report no change for incomplete or overflowing text, so those states are
/// tracked here: regenerating never silently uses a previous, valid count.
pub fn validate_integer_text(kind: Integer, text: &str, c: &mut Controls)
    ensures
        final(c).invalid@ == old(c).invalid@.update(kind.index() as int, !allowed_text(text@, kind)),
        *final(c) == (Controls { invalid: final(c).invalid, error: final(c).error, ..*old(c) }),
        final(c).error@ == if final(c).any_invalid() {
            integer_error()
        } else {
            ""@
        },
{
    proof {
        reveal_strlit("");
    }
    let invalid: bool = match parse_whole(text) {
        Some(value) => valid_integer(value, kind).is_none(),
        None => true,
    };
    c.invalid[kind.index()] = invalid;
    if c.any_invalid() {
        c.error = "Enter an integer within the allowed range: counts 1–4294967295; seed 0–4294967295.".to_owned();
    } else {
        c.error = String::new();
    }
}

/// Every seed, and every count above zero, can be entered.
pub proof fn lemma_every_number_enterable(n: u32)
    ensures
        allowed_text(crate::text::digits(n as nat), Integer::Seed),
        n > 0 ==> allowed_text(crate::text::digits(n as nat), Integer::Count),
        n > 0 ==> allowed_text(crate::text::digits(n as nat), Integer::Types),
{
    crate::text::lemma_digits_read_back(n as nat);
}

/// While a number field holds no allowed number, nothing is regenerated.
pub proof fn lemma_invalid_text_blocks_regeneration(
    kind: Integer,
    text: Seq<char>,
    c: Controls,
    before: Simulation,
    after: Simulation,
    status: GpuStatus,
)
    requires
        !allowed_text(text, kind),
        c.invalid@[kind.index() as int] == !allowed_text(text, kind),
        Action::Apply.on_world(before, after, c, status),
    ensures
        after == before,
{
}

impl Toggle {
    /// Whether the box is checked.
    pub open spec fn reads(self, s: Simulation) -> bool {
        match self {
            Toggle::Clustered => s.clustered,
            Toggle::Preferred => s.behavior.preferred_enabled,
            Toggle::Density => s.behavior.density_enabled,
            Toggle::Nova => s.behavior.nova_enabled,
            Toggle::Trails => s.trails.enabled,
        }
    }

    pub fn value(self, s: &Simulation) -> (r: bool)
        ensures
            r == self.reads(*s),
    {
        match self {
            Toggle::Clustered => s.clustered,
            Toggle::Preferred => s.behavior.preferred_enabled,
            Toggle::Density => s.behavior.density_enabled,
            Toggle::Nova => s.behavior.nova_enabled,
            Toggle::Trails => s.trails.enabled,
        }
    }

    /// The world with the box checked or not. Old trails do not outlive a switch.
    pub open spec fn on_world(self, s: Simulation, value: bool) -> Simulation {
        match self {
            Toggle::Clustered => Simulation { clustered: value, ..s },
            Toggle::Preferred => Simulation {
                behavior: crate::model::Behavior { preferred_enabled: value, ..s.behavior },
                ..s
            },
            Toggle::Density => Simulation {
                behavior: crate::model::Behavior { density_enabled: value, ..s.behavior },
                ..s
            },
            Toggle::Nova => Simulation {
                behavior: crate::model::Behavior { nova_enabled: value, ..s.behavior },
                ..s
            },
            Toggle::Trails => if s.trails.enabled == value {
                s
            } else {
                Simulation {
                    trails: crate::model::Trails {
                        enabled: value,
                        clear_revision: (s.trails.clear_revision + 1) as u64,
                        ..s.trails
                    },
                    ..s
                }
            },
        }
    }
}

/// Checks or unchecks a box.
pub fn bool_change(kind: Toggle, value: bool, s: &mut Simulation)
    requires
        kind == Toggle::Trails && old(s).trails.enabled != value ==> old(s).trails.clear_revision < u64::MAX,
    ensures
        *final(s) == kind.on_world(*old(s), value),
{
    match kind {
        Toggle::Clustered => {
            s.clustered = value;
        },
        Toggle::Preferred => {
            s.behavior.preferred_enabled = value;
        },
        Toggle::Density => {
            s.behavior.density_enabled = value;
        },
        Toggle::Nova => {
            s.behavior.nova_enabled = value;
        },
        Toggle::Trails => {
            if s.trails.enabled != value {
                s.trails.enabled = value;
                s.trails.clear_revision = s.trails.clear_revision + 1;
            }
        },
    }
}

/// A box shows what it was set to, and setting it again changes nothing.
pub proof fn lemma_toggle_settles(kind: Toggle, s: Simulation, value: bool)
    ensures
        kind.reads(kind.on_world(s, value)) == value,
        kind.on_world(kind.on_world(s, value), value) == kind.on_world(s, value),
{
}

} // verus!
