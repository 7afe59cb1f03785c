//! What the GPU is asked to do: buffers, uniforms, and the passes of each frame.
//!
//! Particle data never crosses back during normal use; the display consumes the
//! same buffers.
use vstd::prelude::*;

use crate::creatures::{bond_radius, min_particles, outline_geometry};
use crate::model::{
    core_fraction, dt, speed_limit, type_data, world, Appearance, GpuStatus, LinearColor, RuleKind, Simulation,
    CREATURE_BYTES, CREATURE_TYPES, FIELD_BYTES, FIELD_SIDE, MAX_CREATURES, TRAIL_BYTES, TRAIL_SIDE, validate_counts,
};
use crate::scalar::{one, scalar, zero, Scalar};
use crate::ui::{Action, Controls, Toggle};
use crate::vector::{IVec2, UVec2, UVec4, Vec4};

verus! {

/// Compute entry points, indexed by the constants below. Append new kernels to
/// the end so the existing indices stay valid.
pub const KERNELS: [&'static str; 24] = [
    "init",
    "clear",
    "count",
    "prefix",
    "prefix_blocks",
    "scatter",
    "update",
    "clear_trails",
    "diffuse_trails",
    "commit_trails",
    "clear_creatures",
    "bond",
    "resolve",
    "creature_stats",
    "promote",
    "reset_evolution",
    "progeny",
    "creature_frame",
    "promote_frame",
    "count_free",
    "cull_select",
    "cull_release",
    "pick_split",
    "apply_split",
];

pub const KERNEL_INIT: usize = 0;

pub const KERNEL_GRID: usize = 1;

pub const KERNEL_SCATTER: usize = 5;

pub const KERNEL_UPDATE: usize = 6;

pub const KERNEL_CLEAR_TRAILS: usize = 7;

pub const KERNEL_DIFFUSE_TRAILS: usize = 8;

pub const KERNEL_COMMIT_TRAILS: usize = 9;

pub const KERNEL_CLEAR_CREATURES: usize = 10;

pub const KERNEL_BOND: usize = 11;

pub const KERNEL_RESOLVE: usize = 12;

pub const KERNEL_STATS: usize = 13;

pub const KERNEL_PROMOTE: usize = 14;

pub const KERNEL_RESET_EVOLUTION: usize = 15;

pub const KERNEL_PROGENY: usize = 16;

pub const KERNEL_FRAME: usize = 17;

pub const KERNEL_PROMOTE_FRAME: usize = 18;

pub const KERNEL_COUNT_FREE: usize = 19;

pub const KERNEL_CULL_SELECT: usize = 20;

pub const KERNEL_CULL_RELEASE: usize = 21;

pub const KERNEL_PICK_SPLIT: usize = 22;

pub const KERNEL_APPLY_SPLIT: usize = 23;

/// Pointer-jump passes per step. Each doubles the merge depth that collapses in
/// one step; four covers chains of 16, and anything deeper finishes next step.
pub const RESOLVE_PASSES: usize = 4;

/// Uniforms of the simulation and the display.
#[derive(Clone, Copy, PartialEq, Eq, Structural, Debug)]
pub struct Params {
    pub counts: UVec4,
    pub physics: Vec4,
    pub world: Vec4,
    pub view: Vec4,
    pub timing: Vec4,
    pub flags: UVec4,
    pub trails: Vec4,
    pub trail_view: Vec4,
    pub behavior: Vec4,
    pub cycle: Vec4,
    pub sampling: Vec4,
    pub detect: Vec4,
    pub outline: Vec4,
    pub evolution: Vec4,
}

/// A switch as a number: 1.0 or 0.0.
#[verifier::allow_in_spec]
pub fn switch(on: bool) -> Scalar
    returns
        (if on {
            one()
        } else {
            zero()
        }),
{
    if on {
        one()
    } else {
        zero()
    }
}

impl Params {
    pub open spec fn spec_new(
        s: &Simulation,
        a: &Appearance,
        alpha: Scalar,
        generation: u64,
        detect: Vec4,
        outline: Vec4,
    ) -> Params {
        let (origin, tiles) = a.tiles();
        Params {
            detect,
            outline,
            evolution: Vec4 {
                x: switch(s.evolution.enabled),
                y: s.evolution.mutation,
                z: s.evolution.cull_free_fraction,
                w: s.evolution.influence,
            },
            sampling: Vec4 {
                x: Scalar::from_u32(s.behavior.sample_budget),
                y: Scalar::from_u32(tiles.y),
                z: zero(),
                w: zero(),
            },
            behavior: Vec4 {
                x: switch(s.behavior.preferred_enabled),
                y: if s.behavior.density_enabled {
                    s.behavior.density_strength
                } else {
                    zero()
                },
                z: s.behavior.density_target,
                w: zero(),
            },
            cycle: Vec4 {
                x: Scalar::from_u32(s.behavior.cycle_mode),
                y: s.behavior.cycle_seconds,
                z: s.behavior.cycle_fraction,
                w: Scalar::from_u32(s.behavior.cycle_min_neighbors),
            },
            trails: Vec4 {
                x: switch(s.trails.enabled),
                y: s.trails.deposit,
                z: s.trails.diffusion,
                w: s.trails.half_life,
            },
            trail_view: Vec4 {
                x: s.trails.response,
                y: s.trails.sensor_distance,
                z: s.trails.visibility,
                w: Scalar::from_u32(TRAIL_SIDE),
            },
            counts: UVec4 { x: s.count, y: s.types, z: s.grid_side(), w: s.seed },
            physics: Vec4 { x: dt(), y: s.radius, z: s.strength, w: s.damping },
            world: Vec4 { x: world(), y: core_fraction(), z: speed_limit(), w: a.zoom },
            view: Vec4 { x: a.aspect, y: a.pan.x, z: a.pan.y, w: a.size },
            timing: Vec4 {
                x: alpha,
                y: a.glow,
                z: Scalar::from_i32(origin.x),
                w: Scalar::from_i32(origin.y),
            },
            flags: UVec4 {
                x: if s.exact {
                    1
                } else {
                    0
                },
                y: (generation % 0x1_0000_0000) as u32,
                z: if s.clustered {
                    1
                } else {
                    0
                },
                w: tiles.x,
            },
        }
    }

    /// The uniforms of one pass. `alpha` blends the last two generations.
    #[verifier::when_used_as_spec(spec_new)]
    pub fn new(
        s: &Simulation,
        a: &Appearance,
        alpha: Scalar,
        generation: u64,
        detect: Vec4,
        outline: Vec4,
    ) -> (r: Params)
        ensures
            r == Self::spec_new(s, a, alpha, generation, detect, outline),
            r.detect == detect,
            r.outline == outline,
            r.counts.x == s.count,
            r.counts.y == s.types,
            r.counts.z == s.grid_side(),
            r.counts.w == s.seed,
            r.physics.x == dt(),
            r.physics.y == s.radius,
            r.physics.z == s.strength,
            r.physics.w == s.damping,
            r.world.x == world(),
            r.world.y == core_fraction(),
            r.world.z == speed_limit(),
            r.world.w == a.zoom,
            r.view.x == a.aspect,
            r.view.y == a.pan.x,
            r.view.z == a.pan.y,
            r.view.w == a.size,
            r.timing.x == alpha,
            r.timing.y == a.glow,
            r.timing.z == Scalar::from_i32(a.tiles().0.x),
            r.timing.w == Scalar::from_i32(a.tiles().0.y),
            r.flags.x == 1 <==> s.exact,
            r.flags.x == 0 <==> !s.exact,
            r.flags.y == generation % 0x1_0000_0000,
            r.flags.z == 1 <==> s.clustered,
            r.flags.z == 0 <==> !s.clustered,
            r.flags.w == a.tiles().1.x,
            r.sampling.x == Scalar::from_u32(s.behavior.sample_budget),
            r.sampling.y == Scalar::from_u32(a.tiles().1.y),
            r.sampling.z == zero(),
            r.sampling.w == zero(),
            s.behavior.preferred_enabled ==> r.behavior.x == one(),
            !s.behavior.preferred_enabled ==> r.behavior.x == zero(),
            s.behavior.density_enabled ==> r.behavior.y == s.behavior.density_strength,
            !s.behavior.density_enabled ==> r.behavior.y == zero(),
            r.behavior.z == s.behavior.density_target,
            r.behavior.w == zero(),
            r.cycle.x == Scalar::from_u32(s.behavior.cycle_mode),
            r.cycle.y == s.behavior.cycle_seconds,
            r.cycle.z == s.behavior.cycle_fraction,
            r.cycle.w == Scalar::from_u32(s.behavior.cycle_min_neighbors),
            s.trails.enabled ==> r.trails.x == one(),
            !s.trails.enabled ==> r.trails.x == zero(),
            r.trails.y == s.trails.deposit,
            r.trails.z == s.trails.diffusion,
            r.trails.w == s.trails.half_life,
            r.trail_view.x == s.trails.response,
            r.trail_view.y == s.trails.sensor_distance,
            r.trail_view.z == s.trails.visibility,
            r.trail_view.w == Scalar::from_u32(TRAIL_SIDE),
            s.evolution.enabled ==> r.evolution.x == one(),
            !s.evolution.enabled ==> r.evolution.x == zero(),
            r.evolution.y == s.evolution.mutation,
            r.evolution.z == s.evolution.cull_free_fraction,
            r.evolution.w == s.evolution.influence,
    {
        let (origin, tiles): (IVec2, UVec2) = a.visible_tiles();
        Params {
            detect,
            outline,
            evolution: Vec4 {
                x: switch(s.evolution.enabled),
                y: s.evolution.mutation,
                z: s.evolution.cull_free_fraction,
                w: s.evolution.influence,
            },
            // y carries the vertical tile count; the splat kernel needs both axes,
            // while the raster path infers it from the instance count.
            sampling: Vec4 {
                x: Scalar::from_u32(s.behavior.sample_budget),
                y: Scalar::from_u32(tiles.y),
                z: zero(),
                w: zero(),
            },
            behavior: Vec4 {
                x: switch(s.behavior.preferred_enabled),
                y: if s.behavior.density_enabled {
                    s.behavior.density_strength
                } else {
                    zero()
                },
                z: s.behavior.density_target,
                w: zero(),
            },
            cycle: Vec4 {
                x: Scalar::from_u32(s.behavior.cycle_mode),
                y: s.behavior.cycle_seconds,
                z: s.behavior.cycle_fraction,
                w: Scalar::from_u32(s.behavior.cycle_min_neighbors),
            },
            trails: Vec4 {
                x: switch(s.trails.enabled),
                y: s.trails.deposit,
                z: s.trails.diffusion,
                w: s.trails.half_life,
            },
            trail_view: Vec4 {
                x: s.trails.response,
                y: s.trails.sensor_distance,
                z: s.trails.visibility,
                w: Scalar::from_u32(TRAIL_SIDE),
            },
            counts: UVec4 { x: s.count, y: s.types, z: s.grid_side(), w: s.seed },
            physics: Vec4 { x: dt(), y: s.radius, z: s.strength, w: s.damping },
            world: Vec4 { x: world(), y: core_fraction(), z: speed_limit(), w: a.zoom },
            view: Vec4 { x: a.aspect, y: a.pan.x, z: a.pan.y, w: a.size },
            timing: Vec4 {
                x: alpha,
                y: a.glow,
                z: Scalar::from_i32(origin.x),
                w: Scalar::from_i32(origin.y),
            },
            flags: UVec4 {
                x: if s.exact {
                    1
                } else {
                    0
                },
                y: (generation % 0x1_0000_0000) as u32,
                z: if s.clustered {
                    1
                } else {
                    0
                },
                w: tiles.x,
            },
        }
    }

    /// The uniforms of the display: the target's size stands in components that
    /// the simulation does not read.
    #[verifier::allow_in_spec]
    pub fn for_display(self, size: UVec2) -> Params
        returns
            ({
                let width = Scalar::from_u32(size.x);
                let height = Scalar::from_u32(size.y);
                Params {
                    behavior: Vec4 { w: height, ..self.behavior },
                    sampling: Vec4 { z: width, w: height, ..self.sampling },
                    ..self
                }
            }),
    {
        let width: Scalar = Scalar::from_u32(size.x);
        let height: Scalar = Scalar::from_u32(size.y);
        Params {
            behavior: Vec4 { w: height, ..self.behavior },
            sampling: Vec4 { z: width, w: height, ..self.sampling },
            ..self
        }
    }
}

/// Whether creatures are outlined.
pub open spec fn outlined(s: Simulation) -> bool {
    s.detection.enabled && zero().lt(s.detection.outline)
}

/// What detection and outlines need to know of the rules.
#[derive(Clone, Copy, PartialEq, Eq, Structural, Debug)]
pub struct Inference {
    pub detect: Vec4,
    pub outline: Vec4,
    pub outlines: bool,
}

/// Derived from the rule matrices, so computed only as often as the frame. Stamp
/// radius and isolevel both derive from the inferred rest spacing, so the outline
/// tracks the rule set instead of a tuned constant.
pub open spec fn inferred(s: Simulation) -> Inference {
    let (stamp, isolevel) = crate::creatures::outline_of(s.mean_rest_spacing(), FIELD_SIDE);
    Inference {
        detect: Vec4 {
            x: s.radius_of_bonds(),
            y: Scalar::from_u32(s.smallest_share()),
            z: Scalar::from_u32(s.detection.promote_steps),
            w: switch(s.detection.enabled),
        },
        outline: Vec4 {
            x: stamp,
            y: isolevel,
            z: if outlined(s) {
                s.detection.outline
            } else {
                zero()
            },
            w: Scalar::from_u32(FIELD_SIDE),
        },
        outlines: outlined(s),
    }
}

pub fn inference(s: &Simulation) -> (r: Inference)
    requires
        s.wf(),
    ensures
        r == inferred(*s),
        r.detect.x == s.radius_of_bonds(),
        r.detect.y == Scalar::from_u32(s.smallest_share()),
        r.detect.z == Scalar::from_u32(s.detection.promote_steps),
        s.detection.enabled ==> r.detect.w == one(),
        !s.detection.enabled ==> r.detect.w == zero(),
        r.outline.x == crate::creatures::outline_of(s.mean_rest_spacing(), 512).0,
        r.outline.y == crate::creatures::outline_of(s.mean_rest_spacing(), 512).1,
        r.outlines <==> s.detection.enabled && zero().lt(s.detection.outline),
        r.outlines ==> r.outline.z == s.detection.outline,
        !r.outlines ==> r.outline.z == zero(),
        r.outline.w == Scalar::from_u32(512),
{
    let (stamp, isolevel): (Scalar, Scalar) = outline_geometry(s, FIELD_SIDE);
    let outlines: bool = s.detection.enabled && zero().lt(s.detection.outline);
    Inference {
        detect: Vec4 {
            x: bond_radius(s),
            y: Scalar::from_u32(min_particles(s)),
            z: Scalar::from_u32(s.detection.promote_steps),
            w: switch(s.detection.enabled),
        },
        outline: Vec4 {
            x: stamp,
            y: isolevel,
            z: if outlines {
                s.detection.outline
            } else {
                zero()
            },
            w: Scalar::from_u32(FIELD_SIDE),
        },
        outlines,
    }
}

/// Workgroups of 256 that cover `n` invocations.
#[verifier::allow_in_spec]
pub fn groups(n: u32) -> u32
    returns
        ((n / 256 + if n % 256 > 0 {
            1int
        } else {
            0int
        }) as u32),
{
    n / 256 + if n % 256 > 0 {
        1
    } else {
        0
    }
}

/// The passes of one step, in order, with their workgroups. Detection lands
/// between the grid build and the force pass, because that pass writes the
/// resolved creature id into each particle.
///
/// Births, frame measurement and culling all need the same step's counts and
/// centroid, so they stack behind the promotion. The order is load-bearing:
/// lineage is fed while a dissolved parent still reads as tracked, which is what
/// lets a merge pass its line on; promotion sets the centroid that the frame pass
/// consumes; frame promotion consumes both the frame and the lineage. Elongated
/// bodies then birth a child that clears and re-tracks on its own, before the free
/// pool is audited.
pub open spec fn passes(s: Simulation) -> Seq<(usize, u32)> {
    let cells = groups((s.grid_side() * s.grid_side()) as u32);
    let particles = groups(s.count);
    let creatures = groups(MAX_CREATURES);
    let trails = groups((TRAIL_SIDE * TRAIL_SIDE) as u32);
    let evolves = s.detection.enabled && s.evolution.enabled;
    let grid = seq![(1usize, cells), (2usize, particles), (3usize, cells), (4usize, 1u32), (5usize, particles)];
    let detection = seq![
        (KERNEL_CLEAR_CREATURES, creatures),
        (KERNEL_BOND, particles),
        (KERNEL_RESOLVE, creatures),
        (KERNEL_RESOLVE, creatures),
        (KERNEL_RESOLVE, creatures),
        (KERNEL_RESOLVE, creatures),
    ];
    let selection = seq![
        (KERNEL_FRAME, particles),
        (KERNEL_PROMOTE_FRAME, creatures),
        (KERNEL_PICK_SPLIT, creatures),
        (KERNEL_APPLY_SPLIT, particles),
        (KERNEL_COUNT_FREE, particles),
        (KERNEL_CULL_SELECT, creatures),
        (KERNEL_CULL_RELEASE, particles),
    ];
    let field = seq![(KERNEL_DIFFUSE_TRAILS, trails), (KERNEL_COMMIT_TRAILS, trails)];
    grid + when(s.detection.enabled, detection) + seq![(KERNEL_UPDATE, particles)] + when(
        s.detection.enabled,
        seq![(KERNEL_STATS, particles)],
    ) + when(evolves, seq![(KERNEL_PROGENY, particles)]) + when(
        s.detection.enabled,
        seq![(KERNEL_PROMOTE, creatures)],
    ) + when(evolves, selection) + when(s.trails.enabled, field)
}

/// The passes if they take place.
pub open spec fn when(on: bool, passes: Seq<(usize, u32)>) -> Seq<(usize, u32)> {
    if on {
        passes
    } else {
        Seq::empty()
    }
}

pub fn schedule(s: &Simulation) -> (r: Vec<(usize, u32)>)
    ensures
        r@ == passes(*s),
{
    let side: u32 = s.grid_side();
    assert(side * side <= 256 * 256) by (nonlinear_arith)
        requires
            side <= 256,
    ;
    let cells: u32 = groups(side * side);
    let particles: u32 = groups(s.count);
    let creatures: u32 = groups(MAX_CREATURES);
    let mut passes: Vec<(usize, u32)> = Vec::new();
    let mut stage: usize = KERNEL_GRID;
    while stage <= KERNEL_SCATTER
        invariant
            1 <= stage <= 6,
            passes@ == seq![
                (1usize, cells),
                (2usize, particles),
                (3usize, cells),
                (4usize, 1u32),
                (5usize, particles),
            ].take(stage - 1),
        decreases 6 - stage,
    {
        let count: u32 = match stage {
            1 | 3 => cells,
            4 => 1,
            _ => particles,
        };
        passes.push((stage, count));
        stage = stage + 1;
    }
    if s.detection.enabled {
        passes.push((KERNEL_CLEAR_CREATURES, creatures));
        passes.push((KERNEL_BOND, particles));
        let mut pass: usize = 0;
        let ghost before = passes@;
        while pass < RESOLVE_PASSES
            invariant
                pass <= 4,
                passes@ == before + Seq::new(pass as nat, |i: int| (KERNEL_RESOLVE, creatures)),
            decreases 4 - pass,
        {
            passes.push((KERNEL_RESOLVE, creatures));
            pass = pass + 1;
        }
    }
    passes.push((KERNEL_UPDATE, particles));
    if s.detection.enabled {
        passes.push((KERNEL_STATS, particles));
        if s.evolution.enabled {
            passes.push((KERNEL_PROGENY, particles));
        }
        passes.push((KERNEL_PROMOTE, creatures));
        if s.evolution.enabled {
            passes.push((KERNEL_FRAME, particles));
            passes.push((KERNEL_PROMOTE_FRAME, creatures));
            passes.push((KERNEL_PICK_SPLIT, creatures));
            passes.push((KERNEL_APPLY_SPLIT, particles));
            passes.push((KERNEL_COUNT_FREE, particles));
            passes.push((KERNEL_CULL_SELECT, creatures));
            passes.push((KERNEL_CULL_RELEASE, particles));
        }
    }
    if s.trails.enabled {
        let trails: u32 = groups(TRAIL_SIDE * TRAIL_SIDE);
        passes.push((KERNEL_DIFFUSE_TRAILS, trails));
        passes.push((KERNEL_COMMIT_TRAILS, trails));
    }
    assert(passes@ =~= crate::gpu::passes(*s));
    passes
}

/// Each pass comes after those whose results it consumes, and the force pass
/// takes place exactly once.
pub proof fn lemma_passes_in_order(s: Simulation, i: int, j: int)
    requires
        0 <= i < passes(s).len(),
        0 <= j < passes(s).len(),
    ensures
        passes(s)[i].0 < 24,
        passes(s)[i].0 == KERNEL_UPDATE && passes(s)[j].0 == KERNEL_UPDATE ==> i == j,
        passes(s)[i].0 == KERNEL_SCATTER && passes(s)[j].0 == KERNEL_BOND ==> i < j,
        passes(s)[i].0 == KERNEL_BOND && passes(s)[j].0 == KERNEL_RESOLVE ==> i < j,
        passes(s)[i].0 == KERNEL_RESOLVE && passes(s)[j].0 == KERNEL_UPDATE ==> i < j,
        passes(s)[i].0 == KERNEL_UPDATE && passes(s)[j].0 == KERNEL_STATS ==> i < j,
        passes(s)[i].0 == KERNEL_PROGENY && passes(s)[j].0 == KERNEL_PROMOTE ==> i < j,
        passes(s)[i].0 == KERNEL_PROMOTE && passes(s)[j].0 == KERNEL_FRAME ==> i < j,
        passes(s)[i].0 == KERNEL_FRAME && passes(s)[j].0 == KERNEL_PROMOTE_FRAME ==> i < j,
        passes(s)[i].0 == KERNEL_APPLY_SPLIT && passes(s)[j].0 == KERNEL_COUNT_FREE ==> i < j,
{
}

/// Sizes in bytes of the storage buffers of a world.
#[derive(Clone, Copy, PartialEq, Eq, Structural, Debug)]
pub struct BufferSizes {
    /// Each of the two generations of particles.
    pub particles: u64,
    pub cells: u64,
    pub neighbors: u64,
    pub sorted: u64,
    pub blocks: u64,
    pub types: u64,
    pub chemicals: u64,
    /// Sized on first use from the display target; storage buffers may not be
    /// zero-length.
    pub accumulation: u64,
    pub creatures: u64,
    /// One pair (ratio, orientation) per creature per interaction kind.
    pub genomes: u64,
    /// One marker and id per creature id for the split pass.
    pub births: u64,
    pub field: u64,
}

impl BufferSizes {
    pub open spec fn of(s: Simulation) -> BufferSizes {
        BufferSizes {
            particles: (s.count * 32) as u64,
            cells: (s.grid_side() * s.grid_side() * 16) as u64,
            neighbors: (s.count * 16) as u64,
            sorted: (s.count * 32) as u64,
            blocks: (256 * 4) as u64,
            types: upload_bytes(s) as u64,
            chemicals: TRAIL_BYTES,
            accumulation: 16,
            creatures: (MAX_CREATURES * CREATURE_BYTES) as u64,
            genomes: (MAX_CREATURES * CREATURE_TYPES * 8) as u64,
            births: (MAX_CREATURES * 8) as u64,
            field: FIELD_BYTES,
        }
    }

    pub open spec fn total(self) -> int {
        2 * self.particles + self.cells + self.neighbors + self.sorted + self.blocks + self.types + self.chemicals
            + self.accumulation + self.creatures + self.genomes + self.births + self.field
    }

    pub open spec fn largest_within(self, limit: int) -> bool {
        &&& self.particles <= limit
        &&& self.cells <= limit
        &&& self.neighbors <= limit
        &&& self.sorted <= limit
        &&& self.blocks <= limit
        &&& self.types <= limit
        &&& self.chemicals <= limit
        &&& self.accumulation <= limit
        &&& self.creatures <= limit
        &&& self.genomes <= limit
        &&& self.births <= limit
        &&& self.field <= limit
    }
}

/// Bytes of the spatial grid.
pub fn cell_bytes(s: &Simulation) -> (r: u64)
    ensures
        r == s.grid_side() * s.grid_side() * 16,
{
    let side: u32 = s.grid_side();
    assert(side * side <= 256 * 256) by (nonlinear_arith)
        requires
            side <= 256,
    ;
    (side * side) as u64 * 16
}

/// Bytes of the colors of all types and of the matrices as they are.
pub open spec fn upload_bytes(s: Simulation) -> int {
    4 * (4 * s.types + s.rules@.len() + s.swirl@.len() + s.alignment@.len() + s.distance@.len())
}

/// Bytes of the colors and matrices.
pub fn type_bytes(s: &Simulation) -> (r: u64)
    requires
        upload_bytes(*s) <= u64::MAX,
    ensures
        r == upload_bytes(*s),
{
    let entries: u128 = s.rules.len() as u128 + s.swirl.len() as u128 + s.alignment.len() as u128 + s.distance.len() as u128;
    ((entries + s.types as u128 * 4) * 4) as u64
}

/// Complete matrices take what a world of so many types is accounted for.
pub proof fn lemma_complete_upload(s: Simulation)
    requires
        s.wf(),
    ensures
        upload_bytes(s) == crate::model::rule_bytes(s.types),
{
}

pub fn buffer_sizes(s: &Simulation) -> (r: BufferSizes)
    requires
        upload_bytes(*s) <= u64::MAX,
    ensures
        r == BufferSizes::of(*s),
{
    let n: u64 = s.count as u64;
    BufferSizes {
        particles: n * 32,
        cells: cell_bytes(s),
        neighbors: n * 16,
        sorted: n * 32,
        blocks: 256 * 4,
        types: type_bytes(s),
        chemicals: TRAIL_BYTES,
        accumulation: 16,
        creatures: MAX_CREATURES as u64 * CREATURE_BYTES,
        genomes: MAX_CREATURES as u64 * CREATURE_TYPES as u64 * 8,
        births: MAX_CREATURES as u64 * 8,
        field: FIELD_BYTES,
    }
}

/// A world whose counts were found valid has buffers that the device can bind,
/// and dispatches that it can make.
pub proof fn lemma_valid_world_fits_device(s: Simulation, status: GpuStatus)
    requires
        s.wf(),
        crate::model::count_error(s.count, s.types, status) is None,
    ensures
        BufferSizes::of(s).largest_within(status.limit()),
        groups(s.count) <= status.max_dispatch,
        groups(s.count) >= 1,
{
    let side = s.grid_side() as int;
    assert(0 <= side * side <= 256 * 256) by (nonlinear_arith)
        requires
            0 <= side <= 256,
    ;
}

/// With a grid of at most 217 cells a side, the buffers of a world whose counts
/// were found valid stay within the memory budget.
pub proof fn lemma_valid_world_within_budget(s: Simulation, status: GpuStatus)
    requires
        s.wf(),
        crate::model::count_error(s.count, s.types, status) is None,
        s.grid_side() <= 217,
    ensures
        BufferSizes::of(s).total() <= crate::model::SIMULATION_BUDGET,
{
    let side = s.grid_side() as int;
    assert(0 <= side * side <= 217 * 217) by (nonlinear_arith)
        requires
            0 <= side <= 217,
    ;
    let (n, each) = (s.count as int, crate::model::PARTICLE_BYTES as int);
    assert(n * each == n * 112) by (nonlinear_arith)
        requires
            each == 112,
    ;
    assert(s.count * 32 == s.count as int * 32);
}

/// What the buffers on the GPU were made from.
#[derive(Clone, Copy, PartialEq, Eq, Structural, Debug)]
pub struct Buffers {
    pub epoch: u64,
    pub grid_side: u32,
    pub rules_revision: u64,
    pub palette: usize,
    pub type_bytes: u64,
    pub trail_revision: u64,
    pub evolution_revision: u64,
    pub accumulation_pixels: u32,
}

impl Buffers {
    /// New buffers, to which no rules were written yet.
    pub open spec fn fresh(s: Simulation) -> Buffers {
        Buffers {
            epoch: s.epoch,
            grid_side: s.grid_side(),
            rules_revision: 0,
            palette: usize::MAX,
            type_bytes: upload_bytes(s) as u64,
            trail_revision: s.trails.clear_revision,
            evolution_revision: 0,
            accumulation_pixels: 0,
        }
    }

    /// The buffers once they match the world.
    pub open spec fn matching(self, s: Simulation) -> Buffers {
        Buffers {
            grid_side: s.grid_side(),
            rules_revision: s.rules_revision,
            palette: s.palette,
            type_bytes: if self.outdated_types(s) {
                upload_bytes(s) as u64
            } else {
                self.type_bytes
            },
            trail_revision: s.trails.clear_revision,
            evolution_revision: s.evolution.evolution_revision,
            ..self
        }
    }

    /// The colors or rules on the GPU are not those of the world.
    pub open spec fn outdated_types(self, s: Simulation) -> bool {
        self.rules_revision != s.rules_revision || self.palette != s.palette
    }
}

/// Everything between frames.
#[derive(Clone, Copy, PartialEq, Eq, Structural, Debug)]
pub struct GpuState {
    pub buffers: Option<Buffers>,
    /// Which of the two generations of particles is the present one.
    pub current: usize,
    pub generation: u64,
    /// Simulated seconds not yet stepped through.
    pub accumulator: Scalar,
    pub last_step: u64,
    /// Steps since the last report.
    pub report_steps: u32,
}

impl Default for GpuState {
    fn default() -> (r: Self)
        ensures
            r == (GpuState {
                buffers: None,
                current: 0,
                generation: 0,
                accumulator: zero(),
                last_step: 0,
                report_steps: 0,
            }),
    {
        GpuState {
            buffers: None,
            current: 0,
            generation: 0,
            accumulator: zero(),
            last_step: 0,
            report_steps: 0,
        }
    }
}

/// What has to be done before a frame's steps, in this order.
#[derive(Clone, Copy, PartialEq, Eq, Structural, Debug)]
pub struct Preparation {
    /// Make all buffers anew.
    pub reset: bool,
    /// Make the grid buffer anew, with so many bytes.
    pub resize_cells: Option<u64>,
    /// Make the buffer of colors and rules anew, with so many bytes.
    pub resize_types: Option<u64>,
    /// Write colors and rules.
    pub upload_types: bool,
    /// Clear the chemical field.
    pub clear_trails: bool,
    /// Scatter the particles and reset every genome.
    pub scatter: bool,
    /// Reset every genome.
    pub reset_genomes: bool,
}

impl GpuState {
    pub open spec fn wf(self) -> bool {
        self.current < 2
    }

    /// The world is another one than the buffers hold.
    pub open spec fn stale(self, s: Simulation) -> bool {
        match self.buffers {
            Some(buffers) => buffers.epoch != s.epoch,
            None => true,
        }
    }

    /// The buffers that a frame starts from.
    pub open spec fn base(self, s: Simulation) -> Buffers {
        if self.stale(s) {
            Buffers::fresh(s)
        } else {
            self.buffers->0
        }
    }

    pub open spec fn preparation(self, s: Simulation) -> Preparation {
        let base = self.base(s);
        let bytes = upload_bytes(s) as u64;
        Preparation {
            reset: self.stale(s),
            resize_cells: if base.grid_side != s.grid_side() {
                Some((s.grid_side() * s.grid_side() * 16) as u64)
            } else {
                None
            },
            resize_types: if base.outdated_types(s) && base.type_bytes != bytes {
                Some(bytes)
            } else {
                None
            },
            upload_types: base.outdated_types(s),
            clear_trails: self.stale(s) || base.trail_revision != s.trails.clear_revision,
            scatter: self.stale(s),
            reset_genomes: base.evolution_revision != s.evolution.evolution_revision,
        }
    }

    /// The state once the frame is prepared.
    pub open spec fn prepared(self, s: Simulation) -> GpuState {
        let buffers = Some(self.base(s).matching(s));
        if self.stale(s) {
            GpuState {
                buffers,
                current: 0,
                generation: 0,
                accumulator: zero(),
                last_step: s.step,
                ..self
            }
        } else {
            GpuState { buffers, ..self }
        }
    }

    /// Brings the buffers up to date with the world: says what that takes.
    pub fn begin(&mut self, s: &Simulation) -> (r: Preparation)
        requires
            upload_bytes(*s) <= u64::MAX,
        ensures
            r == old(self).preparation(*s),
            *final(self) == old(self).prepared(*s),
    {
        let side: u32 = s.grid_side();
        let bytes: u64 = type_bytes(s);
        let fresh: Buffers = Buffers {
            epoch: s.epoch,
            grid_side: side,
            rules_revision: 0,
            palette: usize::MAX,
            type_bytes: bytes,
            trail_revision: s.trails.clear_revision,
            evolution_revision: 0,
            accumulation_pixels: 0,
        };
        let (reset, base): (bool, Buffers) = match self.buffers {
            Some(buffers) => if buffers.epoch != s.epoch {
                (true, fresh)
            } else {
                (false, buffers)
            },
            None => (true, fresh),
        };
        if reset {
            self.current = 0;
            self.generation = 0;
            self.accumulator = zero();
            self.last_step = s.step;
        }
        let mut buffers: Buffers = base;
        let mut resize_cells: Option<u64> = None;
        if buffers.grid_side != side {
            buffers.grid_side = side;
            resize_cells = Some(cell_bytes(s));
        }
        let upload_types: bool = buffers.rules_revision != s.rules_revision || buffers.palette != s.palette;
        let mut resize_types: Option<u64> = None;
        if upload_types {
            if buffers.type_bytes != bytes {
                buffers.type_bytes = bytes;
                resize_types = Some(bytes);
            }
            buffers.rules_revision = s.rules_revision;
            buffers.palette = s.palette;
        }
        let clear_trails: bool = reset || buffers.trail_revision != s.trails.clear_revision;
        buffers.trail_revision = s.trails.clear_revision;
        let reset_genomes: bool = buffers.evolution_revision != s.evolution.evolution_revision;
        buffers.evolution_revision = s.evolution.evolution_revision;
        self.buffers = Some(buffers);
        Preparation { reset, resize_cells, resize_types, upload_types, clear_trails, scatter: reset, reset_genomes }
    }

    /// Starts a frame: a world whose counts are refused leaves everything as it is,
    /// and the message says why; any other is prepared for.
    pub fn start_frame(&mut self, s: &Simulation, status: &GpuStatus) -> (r: Result<Preparation, String>)
        requires
            crate::model::count_error(s.count, s.types, *status) is None ==> upload_bytes(*s) <= u64::MAX,
        ensures
            match crate::model::count_error(s.count, s.types, *status) {
                Some(message) => r is Err && r->Err_0@ == message && *final(self) == *old(self),
                None => r == Ok::<Preparation, String>(old(self).preparation(*s)) && *final(self) == old(self).prepared(*s),
            },
    {
        match validate_counts(s.count, s.types, status) {
            Ok(()) => Ok(self.begin(s)),
            Err(message) => Err(message),
        }
    }

    /// Simulated seconds to step through in this frame.
    pub open spec fn accumulated(self, s: Simulation) -> Scalar {
        if s.paused {
            zero()
        } else {
            self.accumulator.add(s.frame_dt.min(scalar(0x3dcc_cccd)).mul(s.speed)).min(scalar(0x4080_0000).mul(dt()))  // 0.1, 4.0
        }
    }

    /// Steps to take in this frame: a paused world takes those asked for by hand,
    /// at most four; a running one as many as fit the accumulated time.
    pub open spec fn steps_of(self, s: Simulation) -> u32 {
        if s.paused {
            let asked = s.step - self.last_step;
            if asked <= 0 {
                0
            } else if asked < 4 {
                asked as u32
            } else {
                4
            }
        } else {
            self.accumulated(s).div(dt()).to_u32()
        }
    }

    /// The state once the steps of a frame are counted.
    pub open spec fn counted(self, s: Simulation) -> GpuState {
        GpuState { accumulator: self.accumulated(s), last_step: s.step, ..self }
    }

    pub fn steps_due(&mut self, s: &Simulation) -> (r: u32)
        ensures
            r == old(self).steps_of(*s),
            *final(self) == old(self).counted(*s),
            *final(self) == (GpuState {
                accumulator: old(self).accumulated(*s),
                last_step: s.step,
                ..*old(self)
            }),
    {
        let asked: u64 = if s.step > self.last_step {
            s.step - self.last_step
        } else {
            0
        };
        let manual: u32 = if asked < 4 {
            asked as u32
        } else {
            4
        };
        self.last_step = s.step;
        if s.paused {
            self.accumulator = zero();
            manual
        } else {
            self.accumulator = self.accumulator.add(s.frame_dt.min(scalar(0x3dcc_cccd)).mul(s.speed)).min(scalar(0x4080_0000).mul(dt()));  // 0.1, 4.0
            self.accumulator.div(dt()).to_u32()
        }
    }

    /// The state after one step: the generations change places.
    pub open spec fn stepped(self, paused: bool) -> GpuState {
        GpuState {
            current: (1 - self.current) as usize,
            generation: (self.generation + 1) as u64,
            accumulator: if paused {
                self.accumulator
            } else {
                self.accumulator.sub(dt()).max(zero())
            },
            ..self
        }
    }

    pub fn finish_step(&mut self, paused: bool)
        requires
            old(self).wf(),
            old(self).generation < u64::MAX,
        ensures
            *final(self) == old(self).stepped(paused),
            final(self).wf(),
    {
        self.current = 1 - self.current;
        self.generation = self.generation + 1;
        if !paused {
            self.accumulator = self.accumulator.sub(dt()).max(zero());
        }
    }

    /// How far the display is from the last generation to the present one.
    #[verifier::allow_in_spec]
    pub fn alpha(&self, paused: bool) -> Scalar
        returns
            (if paused {
                one()
            } else {
                self.accumulator.div(dt()).clamp(zero(), one())
            }),
    {
        if paused {
            one()
        } else {
            self.accumulator.div(dt()).clamp(zero(), one())
        }
    }

    /// Fits the splat accumulator to the display target: its size in bytes if it
    /// has to be made anew. Three words per pixel, accumulated with atomics.
    pub fn fit_target(&mut self, size: UVec2) -> (r: Option<u64>)
        requires
            old(self).buffers is Some,
            size.x * size.y <= u32::MAX,
        ensures
            ({
                let pixels = size.x * size.y;
                &&& r == if old(self).buffers->0.accumulation_pixels == pixels {
                    None
                } else {
                    Some((pixels * 12) as u64)
                }
                &&& *final(self) == (GpuState {
                    buffers: Some(
                        Buffers { accumulation_pixels: pixels as u32, ..old(self).buffers->0 },
                    ),
                    ..*old(self)
                })
            }),
    {
        let pixels: u32 = size.x * size.y;
        if let Some(buffers) = self.buffers {
            if buffers.accumulation_pixels != pixels {
                let mut fitted: Buffers = buffers;
                fitted.accumulation_pixels = pixels;
                self.buffers = Some(fitted);
                return Some(pixels as u64 * 12);
            }
        }
        None
    }

    /// Counts the steps taken, and after a second or more gives their rate.
    pub fn report(&mut self, steps: u32, elapsed: Scalar) -> (r: Option<Scalar>)
        requires
            old(self).report_steps + steps <= u32::MAX,
        ensures
            ({
                let count = (old(self).report_steps + steps) as u32;
                let due = one().le(elapsed);
                &&& r == if due {
                    Some(Scalar::from_u32(count).div(elapsed))
                } else {
                    None
                }
                &&& *final(self) == (GpuState {
                    report_steps: if due {
                        0
                    } else {
                        count
                    },
                    ..*old(self)
                })
            }),
    {
        self.report_steps = self.report_steps + steps;
        if one().le(elapsed) {
            let rate: Scalar = Scalar::from_u32(self.report_steps).div(elapsed);
            self.report_steps = 0;
            Some(rate)
        } else {
            None
        }
    }
}

/// A frame never takes more than four steps.
pub proof fn lemma_few_steps_per_frame(state: GpuState, s: Simulation)
    ensures
        state.steps_of(s) <= 4,
{
    if !s.paused {
        let unit = crate::scalar::one_units();
        let (four, step) = (scalar(0x4080_0000), dt());  // 4.0
        let most = four.mul(step);
        let time = state.accumulated(s);
        let quarter = time.div(step);
        vstd::arithmetic::power2::lemma2_to64();
        crate::rounding::lemma_p2_pos(149);
        crate::order::lemma_whole_value(four, 4, 21);
        lemma_four_steps_exact();
        crate::order::lemma_order_of_values(zero(), step);
        crate::order::lemma_order_of_values(time, most);
        if time.finite() {
            let (t, d) = (time.units(), step.units());
            assert(t * unit <= (4 * unit) * d) by (nonlinear_arith)
                requires
                    t <= 4 * d,
                    unit > 0,
            ;
            crate::order::lemma_quotient_bounds(time, step, four);
            crate::order::lemma_truncation_monotone(quarter, four);
        }
    }
}

/// Four times the length of a step is represented exactly.
pub(crate) proof fn lemma_four_steps_exact()
    ensures
        scalar(0x4080_0000).mul(dt()).finite(),  // 4.0
        scalar(0x4080_0000).mul(dt()).units() == 4 * dt().units(),  // 4.0
{
    let unit = crate::scalar::one_units();
    let (four, step) = (scalar(0x4080_0000), dt());  // 4.0
    let exact = scalar(0x3d88_8889);  // 4.0 / 60.0
    vstd::arithmetic::power2::lemma2_to64();
    crate::rounding::lemma_p2_pos(149);
    crate::order::lemma_whole_value(four, 4, 21);
    crate::rounding::lemma_p2_step(120);
    crate::rounding::lemma_p2_step(121);
    let place = crate::rounding::p2(120);
    assert(step.units() == 0x88_8889 * place);
    assert(exact.units() == 0x88_8889 * (2 * (2 * place)));
    let d = step.units();
    assert((4 * unit) * d == (4 * d) * unit) by (nonlinear_arith);
    crate::order::lemma_product_bounds(four, step, exact);
    crate::order::lemma_order_of_values(four.mul(step), exact);
}

/// The display lies between the last generation and the present one.
pub proof fn lemma_alpha_between(state: GpuState, paused: bool)
    requires
        state.accumulator.finite(),
    ensures
        zero().le(state.alpha(paused)),
        state.alpha(paused).le(one()),
{
    let step = dt();
    crate::order::lemma_order_of_values(zero(), step);
    crate::order::lemma_quotient_bounds(state.accumulator, step, zero());
    crate::order::lemma_clamp_between(state.accumulator.div(step), zero(), one());
}

/// A frame of a paused world that was not asked to step leaves the particles as
/// they are.
pub proof fn lemma_pause_freezes(state: GpuState, s: Simulation)
    requires
        s.paused,
        s.step <= state.last_step,
    ensures
        state.steps_of(s) == 0,
        state.accumulated(s) == zero(),
        state.alpha(s.paused) == one(),
{
}

/// Once a frame is prepared, preparing another for the same world has nothing
/// left to do.
pub proof fn lemma_preparation_settles(state: GpuState, s: Simulation)
    ensures
        state.prepared(s).preparation(s) == (Preparation {
            reset: false,
            resize_cells: None,
            resize_types: None,
            upload_types: false,
            clear_trails: false,
            scatter: false,
            reset_genomes: false,
        }),
        state.prepared(s).prepared(s) == state.prepared(s),
{
}

/// Switching the trails on or off, and clearing them by hand, clears the chemical
/// field and leaves the particles alone, paused or not.
pub proof fn lemma_trails_cleared_alone(state: GpuState, s: Simulation)
    requires
        s.trails.clear_revision < u64::MAX,
    ensures
        ({
            let switched = Toggle::Trails.on_world(s, !s.trails.enabled);
            let plan = state.prepared(s).preparation(switched);
            plan.clear_trails && !plan.reset && !plan.scatter
        }),
        forall|after: Simulation, c: Controls, status: GpuStatus| #[trigger]
            Action::ClearTrails.on_world(s, after, c, status) ==> {
                let plan = state.prepared(s).preparation(after);
                plan.clear_trails && !plan.reset && !plan.scatter
            },
{
}

/// Resetting the world makes everything anew: particles, genomes and trails.
pub proof fn lemma_reset_starts_over(state: GpuState, s: Simulation, after: Simulation, c: Controls, status: GpuStatus)
    requires
        s.epoch < u64::MAX,
        Action::Reset.on_world(s, after, c, status),
    ensures
        ({
            let plan = state.prepared(s).preparation(after);
            plan.reset && plan.scatter && plan.clear_trails
        }),
        state.prepared(s).prepared(after).generation == 0,
{
}

/// A changed rule reaches the GPU with the next frame.
pub proof fn lemma_changed_rules_uploaded(state: GpuState, before: Simulation, after: Simulation, kind: RuleKind, entries: Seq<Scalar>)
    requires
        before.rules_revision < u64::MAX,
        after.replaces(before, kind, entries),
    ensures
        state.prepared(before).preparation(after).upload_types,
{
}

/// Two steps bring the generations of particles back to their places.
pub proof fn lemma_generations_alternate(state: GpuState, paused: bool)
    requires
        state.wf(),
    ensures
        state.stepped(paused).current != state.current,
        state.stepped(paused).stepped(paused).current == state.current,
{
}

/// How a frame is drawn.
#[derive(Clone, Copy, PartialEq, Eq, Structural, Debug)]
pub struct DrawPlan {
    /// Dots are splatted by a compute pass rather than drawn as quads.
    pub splat: bool,
    /// Quads to draw: one per particle and visible tile, if they can be counted.
    pub instances: Option<u32>,
}

/// The quad half-extent in pixels.
#[verifier::allow_in_spec]
pub fn dot_pixels(a: &Appearance, height: u32) -> Scalar
    returns
        a.size.div(world()).mul(a.zoom).mul(Scalar::from_u32(height)),
{
    a.size.div(world()).mul(a.zoom).mul(Scalar::from_u32(height))
}

pub open spec fn plan_of(s: Simulation, a: Appearance, height: u32) -> DrawPlan {
    let tiles = a.tiles().1;
    DrawPlan {
        splat: dot_pixels(&a, height).lt(scalar(0x3fc0_0000)),  // 1.5
        instances: if s.count * tiles.x <= u32::MAX && s.count * tiles.x * tiles.y <= u32::MAX {
            Some((s.count * tiles.x * tiles.y) as u32)
        } else {
            None
        },
    }
}

/// Below about a pixel the rasterizer drops dots that miss a pixel center, and
/// pays six vertices per tile copy to do it, so the splat path is both cheaper and
/// more correct.
pub fn draw_plan(s: &Simulation, a: &Appearance, height: u32) -> (r: DrawPlan)
    ensures
        r == plan_of(*s, *a, height),
{
    let (_origin, tiles): (IVec2, UVec2) = a.visible_tiles();
    let instances: Option<u32> = match s.count.checked_mul(tiles.x) {
        Some(row) => row.checked_mul(tiles.y),
        None => None,
    };
    DrawPlan { splat: dot_pixels(a, height).lt(scalar(0x3fc0_0000)), instances }  // 1.5
}

/// The four bytes of a word, the lowest first or last.
pub open spec fn word_bytes(word: u32, lowest_first: bool) -> Seq<u8> {
    let bytes = seq![
        (word % 256) as u8,
        (word / 0x100 % 256) as u8,
        (word / 0x1_0000 % 256) as u8,
        (word / 0x100_0000) as u8,
    ];
    if lowest_first {
        bytes
    } else {
        bytes.reverse()
    }
}

/// Words in memory, one after the other.
pub open spec fn memory(words: Seq<u32>, lowest_first: bool) -> Seq<u8>
    decreases words.len(),
{
    if words.len() == 0 {
        Seq::empty()
    } else {
        memory(words.drop_last(), lowest_first) + word_bytes(words.last(), lowest_first)
    }
}

/// `bytemuck::cast_slice` from words to bytes. The bytes are those of the words in
/// memory, in order; which byte of a word comes first is the same for all words,
/// and is up to the machine. It does not fail: bytes have no alignment, and a
/// whole number of them makes up every word.
#[verifier::external_body]
fn cast_words(words: &Vec<u32>) -> (r: Vec<u8>)
    ensures
        r@ == memory(words@, true) || r@ == memory(words@, false),
{
    bytemuck::cast_slice::<u32, u8>(words.as_slice()).to_vec()
}

/// The bit patterns of numbers.
pub open spec fn patterns(numbers: Seq<Scalar>) -> Seq<u32> {
    numbers.map_values(|x: Scalar| x.bits)
}

/// The colors of all types, in linear light, and the matrices, as the bytes that
/// are written to the GPU.
pub fn type_upload(s: &Simulation, colors: &Vec<LinearColor>) -> (r: Vec<u8>)
    ensures
        ({
            let words = patterns(crate::model::type_words(*s, colors@));
            r@ == memory(words, true) || r@ == memory(words, false)
        }),
{
    let data: Vec<Scalar> = type_data(s, colors);
    let mut words: Vec<u32> = Vec::new();
    let mut i: usize = 0;
    while i < data.len()
        invariant
            i <= data@.len(),
            words@ == patterns(data@.take(i as int)),
        decreases data@.len() - i,
    {
        words.push(data[i].bits);
        i = i + 1;
        assert(words@ =~= patterns(data@.take(i as int)));
    }
    assert(data@.take(i as int) =~= data@);
    cast_words(&words)
}

proof fn lemma_memory_length(words: Seq<u32>, lowest_first: bool)
    ensures
        memory(words, lowest_first).len() == 4 * words.len(),
    decreases words.len(),
{
    if words.len() > 0 {
        lemma_memory_length(words.drop_last(), lowest_first);
    }
}

/// The bytes written are as many as the buffer of colors and rules holds.
pub proof fn lemma_upload_fills_buffer(s: Simulation, colors: Seq<LinearColor>, lowest_first: bool)
    requires
        colors.len() == s.types,
    ensures
        memory(patterns(crate::model::type_words(s, colors)), lowest_first).len() == upload_bytes(s),
{
    lemma_memory_length(patterns(crate::model::type_words(s, colors)), lowest_first);
}

} // verus!
