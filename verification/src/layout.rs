//! What the GPU finds where: the words of colors and rules, the dots to draw, and
//! the worlds that fit a device.
use vstd::prelude::*;

use crate::gpu::{
    passes, plan_of, BufferSizes, GpuState, KERNELS, KERNEL_APPLY_SPLIT, KERNEL_BOND, KERNEL_CLEAR_CREATURES,
    KERNEL_CLEAR_TRAILS, KERNEL_COMMIT_TRAILS, KERNEL_COUNT_FREE, KERNEL_CULL_RELEASE, KERNEL_CULL_SELECT,
    KERNEL_DIFFUSE_TRAILS, KERNEL_FRAME, KERNEL_GRID, KERNEL_INIT, KERNEL_PICK_SPLIT, KERNEL_PROGENY, KERNEL_PROMOTE,
    KERNEL_PROMOTE_FRAME, KERNEL_RESET_EVOLUTION, KERNEL_RESOLVE, KERNEL_SCATTER, KERNEL_STATS, KERNEL_UPDATE, Params,
};
use crate::model::{
    color_words, count_error, rule_bytes, type_words, Appearance, GpuStatus, LinearColor, RuleKind, Simulation,
};
use crate::scalar::{one, zero, Scalar};
use crate::vector::{UVec2, Vec2, Vec4};

verus! {

/// Color `t` takes the four words from the fourfold of `t` on: red, green, blue,
/// and full opacity.
pub proof fn lemma_colors_in_place(sim: Simulation, colors: Seq<LinearColor>, t: int)
    requires
        0 <= t < colors.len(),
    ensures
        type_words(sim, colors)[4 * t] == colors[t].red,
        type_words(sim, colors)[4 * t + 1] == colors[t].green,
        type_words(sim, colors)[4 * t + 2] == colors[t].blue,
        type_words(sim, colors)[4 * t + 3] == one(),
{
    let words = color_words(colors);
    assert(type_words(sim, colors)[4 * t] == words[4 * t]);
    assert(type_words(sim, colors)[4 * t + 1] == words[4 * t + 1]);
    assert(type_words(sim, colors)[4 * t + 2] == words[4 * t + 2]);
    assert(type_words(sim, colors)[4 * t + 3] == words[4 * t + 3]);
}

/// The matrices follow the colors, whole and in the order of their kinds: the rule
/// of `row` for `column` has its place in its own matrix and in no other.
pub proof fn lemma_rules_in_place(sim: Simulation, colors: Seq<LinearColor>, kind: RuleKind, row: int, column: int)
    requires
        sim.wf(),
        colors.len() == sim.types,
        0 <= row < sim.types,
        0 <= column < sim.types,
    ensures
        ({
            let types = sim.types as int;
            let earlier: int = match kind {
                RuleKind::Attraction => 0,
                RuleKind::Swirl => 1,
                RuleKind::Alignment => 2,
                RuleKind::Distance => 3,
            };
            let at = 4 * types + earlier * (types * types) + row * types + column;
            &&& type_words(sim, colors).len() == 4 * types + 4 * (types * types)
            &&& 0 <= at < type_words(sim, colors).len()
            &&& type_words(sim, colors)[at] == match kind {
                RuleKind::Attraction => sim.rules@[row * types + column],
                RuleKind::Swirl => sim.swirl@[row * types + column],
                RuleKind::Alignment => sim.alignment@[row * types + column],
                RuleKind::Distance => sim.distance@[row * types + column],
            }
        }),
{
    let types = sim.types as int;
    assert(0 <= row * types + column < types * types) by (nonlinear_arith)
        requires
            0 <= row < types,
            0 <= column < types,
    ;
}

/// Exactly those worlds are accepted whose particles, matrices and trails the device
/// can bind and dispatch, and which all together stay within the budget.
pub proof fn lemma_accepted_worlds(count: u32, types: u32, status: GpuStatus)
    ensures
        count_error(count, types, status) is None <==> {
            let rules = 16 * (types * types + types);
            let trails = 512int * 512 * 64;
            &&& count > 0 && types > 0
            &&& 32 * count <= status.max_storage && 32 * count <= status.max_buffer
            &&& rules <= status.max_storage && rules <= status.max_buffer
            &&& trails <= status.max_storage && trails <= status.max_buffer
            &&& count <= 256 * status.max_dispatch
            &&& (32 + 32 + 32 + 16) * count + rules + trails + 4_000_000 <= 512 * 1024 * 1024
        },
{
    let (t, n, each) = (types as int, count as int, crate::model::PARTICLE_BYTES as int);
    assert(0 <= t * t) by (nonlinear_arith);
    assert(n * each == 112 * n) by (nonlinear_arith)
        requires
            each == 112,
    ;
    assert(rule_bytes(types) == 16 * (t * t + t));
}

/// Every dot is drawn once in every visible tile, if the dots can be counted.
pub proof fn lemma_dots_per_tile(s: Simulation, a: Appearance, height: u32)
    ensures
        ({
            let (across, up) = (a.tiles().1.x as int, a.tiles().1.y as int);
            let dots = s.count * across * up;
            match plan_of(s, a, height).instances {
                Some(drawn) => drawn == dots,
                None => s.count * across > u32::MAX || dots > u32::MAX,
            }
        }),
{
    let (count, across, up) = (s.count as int, a.tiles().1.x as int, a.tiles().1.y as int);
    assert(0 <= count * across && 0 <= (count * across) * up) by (nonlinear_arith)
        requires
            count >= 0,
            across >= 0,
            up >= 0,
    ;
}

/// A new world starts from its first generation with no time or step left over
/// from the one before: the first frame of a paused one takes no step.
pub proof fn lemma_new_world_starts_still(state: GpuState, s: Simulation)
    requires
        state.stale(s),
    ensures
        ({
            let started = state.prepared(s);
            &&& started.current == 0
            &&& started.generation == 0
            &&& started.accumulator == zero()
            &&& s.paused ==> started.steps_of(s) == 0
        }),
{
}

/// A world that stays the same keeps its generations and its time.
pub proof fn lemma_same_world_goes_on(state: GpuState, s: Simulation)
    requires
        state.buffers is Some,
        state.buffers->0.epoch == s.epoch,
    ensures
        ({
            let going = state.prepared(s);
            &&& going.current == state.current
            &&& going.generation == state.generation
            &&& going.accumulator == state.accumulator
            &&& going.last_step == state.last_step
        }),
{
}

/// What the buffers of a world hold: for each particle 32 bytes in either generation and
/// when sorted, and 16 among its neighbors; 16 for each cell of the grid; the colors and
/// rules; and fields, creatures, genomes and births of fixed numbers.
pub proof fn lemma_buffers_hold_the_world(s: Simulation)
    requires
        s.wf(),
        s.types <= 0xffff,
    ensures
        ({
            let sizes = BufferSizes::of(s);
            let (n, side, types) = (s.count as int, s.grid_side() as int, s.types as int);
            &&& sizes.particles == 32 * n
            &&& sizes.sorted == 32 * n
            &&& sizes.neighbors == 16 * n
            &&& sizes.cells == 16 * (side * side)
            &&& sizes.types == 16 * (types * types + types)
            &&& sizes.blocks == 4 * 256
            &&& sizes.chemicals == 64 * (512 * 512)
            &&& sizes.field == 8 * (512 * 512)
            &&& sizes.creatures == 144 * 4096
            &&& sizes.genomes == 8 * 16 * 4096
            &&& sizes.births == 8 * 4096
            &&& sizes.accumulation > 0
        }),
{
    let (side, types) = (s.grid_side() as int, s.types as int);
    assert(0 <= side * side <= 256 * 256) by (nonlinear_arith)
        requires
            0 <= side <= 256,
    ;
    assert(0 <= types * types <= 0xffff * 0xffff) by (nonlinear_arith)
        requires
            0 <= types <= 0xffff,
    ;
}

/// The names under which the kernels are found.
pub proof fn lemma_kernels_by_name()
    ensures
        KERNELS[KERNEL_INIT as int]@ == "init"@,
        KERNELS[KERNEL_GRID as int]@ == "clear"@,
        KERNELS[KERNEL_GRID as int + 1]@ == "count"@,
        KERNELS[KERNEL_GRID as int + 2]@ == "prefix"@,
        KERNELS[KERNEL_GRID as int + 3]@ == "prefix_blocks"@,
        KERNELS[KERNEL_SCATTER as int]@ == "scatter"@,
        KERNELS[KERNEL_UPDATE as int]@ == "update"@,
        KERNELS[KERNEL_CLEAR_TRAILS as int]@ == "clear_trails"@,
        KERNELS[KERNEL_DIFFUSE_TRAILS as int]@ == "diffuse_trails"@,
        KERNELS[KERNEL_COMMIT_TRAILS as int]@ == "commit_trails"@,
        KERNELS[KERNEL_CLEAR_CREATURES as int]@ == "clear_creatures"@,
        KERNELS[KERNEL_BOND as int]@ == "bond"@,
        KERNELS[KERNEL_RESOLVE as int]@ == "resolve"@,
        KERNELS[KERNEL_STATS as int]@ == "creature_stats"@,
        KERNELS[KERNEL_PROMOTE as int]@ == "promote"@,
        KERNELS[KERNEL_RESET_EVOLUTION as int]@ == "reset_evolution"@,
        KERNELS[KERNEL_PROGENY as int]@ == "progeny"@,
        KERNELS[KERNEL_FRAME as int]@ == "creature_frame"@,
        KERNELS[KERNEL_PROMOTE_FRAME as int]@ == "promote_frame"@,
        KERNELS[KERNEL_COUNT_FREE as int]@ == "count_free"@,
        KERNELS[KERNEL_CULL_SELECT as int]@ == "cull_select"@,
        KERNELS[KERNEL_CULL_RELEASE as int]@ == "cull_release"@,
        KERNELS[KERNEL_PICK_SPLIT as int]@ == "pick_split"@,
        KERNELS[KERNEL_APPLY_SPLIT as int]@ == "apply_split"@,
{
}

/// While the world stays the same, a frame prepares exactly what differs from the buffers:
/// the grid by its side, the rules and colors by revision and palette, the trails and the
/// genomes by their revisions. Nothing is made anew or scattered.
pub proof fn lemma_frames_prepare_what_differs(state: GpuState, s: Simulation)
    requires
        state.buffers is Some,
        state.buffers->0.epoch == s.epoch,
        s.wf(),
        s.types <= 0xffff,
    ensures
        ({
            let (held, plan) = (state.buffers->0, state.preparation(s));
            let (side, bytes) = (s.grid_side() as int, 16 * (s.types * s.types + s.types));
            let differs = held.rules_revision != s.rules_revision || held.palette != s.palette;
            &&& !plan.reset && !plan.scatter
            &&& plan.resize_cells is Some <==> held.grid_side != side
            &&& plan.resize_cells matches Some(cells) ==> cells == 16 * (side * side)
            &&& plan.upload_types <==> differs
            &&& plan.resize_types is Some <==> differs && held.type_bytes != bytes
            &&& plan.resize_types matches Some(types) ==> types == bytes
            &&& plan.clear_trails <==> held.trail_revision != s.trails.clear_revision
            &&& plan.reset_genomes <==> held.evolution_revision != s.evolution.evolution_revision
        }),
{
    lemma_buffers_hold_the_world(s);
    let (side, types) = (s.grid_side() as int, s.types as int);
    assert(0 <= side * side <= 256 * 256) by (nonlinear_arith)
        requires
            0 <= side <= 256,
    ;
    assert(0 <= types * types <= 0xffff * 0xffff) by (nonlinear_arith)
        requires
            0 <= types <= 0xffff,
    ;
}

/// A new world is made from nothing: all buffers, particles and trails. Its rules are
/// uploaded, if it ever had any.
pub proof fn lemma_new_world_prepared_anew(state: GpuState, s: Simulation)
    requires
        state.stale(s),
    ensures
        ({
            let plan = state.preparation(s);
            &&& plan.reset && plan.scatter && plan.clear_trails
            &&& s.rules_revision > 0 ==> plan.upload_types
            &&& s.evolution.evolution_revision > 0 ==> plan.reset_genomes
            &&& plan.resize_cells is None
            &&& plan.resize_types is None
        }),
        state.buffers is None ==> state.stale(s),
        state.buffers matches Some(held) ==> held.epoch != s.epoch,
{
}

/// Just enough workgroups of 256 for `n` invocations.
pub open spec fn just_enough(groups: u32, n: int) -> bool {
    n <= 256 * groups < n + 256
}

/// What a kernel works on, one invocation each: particles, creatures, cells of the grid,
/// cells of the chemical field, or the blocks of the grid.
pub open spec fn invocations(s: Simulation, kernel: usize) -> int {
    if kernel == KERNEL_CLEAR_CREATURES || kernel == KERNEL_RESOLVE || kernel == KERNEL_PROMOTE || kernel
        == KERNEL_PROMOTE_FRAME || kernel == KERNEL_CULL_SELECT || kernel == KERNEL_PICK_SPLIT {
        4096
    } else if kernel == KERNEL_GRID || kernel == KERNEL_GRID + 2 {
        s.grid_side() * s.grid_side()
    } else if kernel == KERNEL_GRID + 3 {
        256
    } else if kernel == KERNEL_DIFFUSE_TRAILS || kernel == KERNEL_COMMIT_TRAILS {
        0x4_0000
    } else {
        s.count as int
    }
}

/// Every pass has just enough workgroups for what its kernel works on.
pub proof fn lemma_passes_cover_their_work(s: Simulation, i: int)
    requires
        0 <= i < passes(s).len(),
    ensures
        just_enough(passes(s)[i].1, invocations(s, passes(s)[i].0)),
{
    let side = s.grid_side() as int;
    assert(0 <= side * side <= 256 * 256) by (nonlinear_arith)
        requires
            0 <= side <= 256,
    ;
}

/// A step builds the grid and moves the particles; detection takes eight more passes,
/// evolution within it another eight, and trails two.
pub proof fn lemma_passes_counted(s: Simulation)
    ensures
        passes(s).len() == 6 + (if s.detection.enabled { 8int } else { 0 }) + (if s.detection.enabled
            && s.evolution.enabled { 8int } else { 0 }) + (if s.trails.enabled { 2int } else { 0 }),
{
}

/// The camera reaches the shaders axis by axis: across in the second component of the
/// view, up in the third. Moving it along one axis leaves the other where it was, and
/// moving it leaves all that the simulation reads alone.
pub proof fn lemma_camera_reaches_the_shaders(
    s: Simulation,
    a: Appearance,
    pan: Vec2,
    alpha: Scalar,
    generation: u64,
    detect: Vec4,
    outline: Vec4,
)
    ensures
        ({
            let before = Params::new(&s, &a, alpha, generation, detect, outline);
            let after = Params::new(&s, &(Appearance { pan, ..a }), alpha, generation, detect, outline);
            &&& after.view.y == pan.x
            &&& after.view.z == pan.y
            &&& pan.x == a.pan.x ==> after.view.y == before.view.y
            &&& pan.y == a.pan.y ==> after.view.z == before.view.z
            &&& after.view.x == before.view.x
            &&& after.view.w == before.view.w
            &&& after.counts == before.counts
            &&& after.physics == before.physics
            &&& after.world == before.world
            &&& after.behavior == before.behavior
            &&& after.cycle == before.cycle
            &&& after.trails == before.trails
            &&& after.trail_view == before.trail_view
            &&& after.evolution == before.evolution
            &&& after.detect == before.detect
            &&& after.outline == before.outline
            &&& after.sampling.x == before.sampling.x
            &&& after.timing.x == before.timing.x
            &&& after.timing.y == before.timing.y
        }),
{
}

/// The display knows the size of its target, across and up, and everything else that
/// the simulation knows.
pub proof fn lemma_display_knows_its_size(params: Params, size: UVec2)
    requires
        size.x <= 0x100_0000,
        size.y <= 0x100_0000,
    ensures
        ({
            let (unit, shown) = (crate::scalar::one_units(), params.for_display(size));
            &&& shown.sampling.z.units() == size.x * unit
            &&& shown.sampling.w.units() == size.y * unit
            &&& shown.behavior.w.units() == size.y * unit
            &&& shown == (Params {
                behavior: Vec4 { w: shown.behavior.w, ..params.behavior },
                sampling: Vec4 { z: shown.sampling.z, w: shown.sampling.w, ..params.sampling },
                ..params
            })
        }),
{
    crate::order::lemma_small_count(size.x);
    crate::order::lemma_small_count(size.y);
}

} // verus!
