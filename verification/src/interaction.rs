//! Direct particle brushes and queued additions to the GPU population.
use vstd::prelude::*;
use vstd::string::StringExecFns;

use crate::model::{hash, validate_counts, world, Appearance, GpuStatus, Simulation};
use crate::scalar::{half, one, scalar, two, zero, Scalar};

use crate::ui::Controls;
use crate::vector::Vec2;

verus! {

/// What the left mouse button does on the background.
#[derive(Clone, Copy, PartialEq, Eq, Structural, Debug)]
pub enum Tool {
    Navigate,
    Attract,
    Repel,
    Dump,
}

impl Default for Tool {
    fn default() -> (r: Self)
        ensures
            r == Tool::Navigate,
    {
        Tool::Navigate
    }
}

impl Tool {
    /// The direction in which the brush moves particles: 1.0 toward the cursor,
    /// -1.0 away from it, 0.0 not at all.
    #[verifier::allow_in_spec]
    pub fn brush_sign(self) -> Scalar
        returns
            (match self {
                Tool::Attract => one(),
                Tool::Repel => scalar(0xbf80_0000),  // -1.0
                Tool::Navigate => zero(),
                Tool::Dump => zero(),
            }),
    {
        match self {
            Tool::Attract => one(),
            Tool::Repel => scalar(0xbf80_0000),  // -1.0
            Tool::Navigate => zero(),
            Tool::Dump => zero(),
        }
    }

    pub open spec fn hint_text(self) -> Seq<char> {
        match self {
            Tool::Navigate => "Drag to pan · wheel to zoom · middle drag works with every tool"@,
            Tool::Attract => "Hold left to attract · Shift + wheel changes radius"@,
            Tool::Repel => "Hold left to repel · Shift + wheel changes radius"@,
            Tool::Dump => "Hold left to add particles · mixed types · Shift + wheel changes radius"@,
        }
    }

    /// How to use the tool.
    pub fn hint(self) -> (r: &'static str)
        ensures
            r@ == self.hint_text(),
    {
        match self {
            Tool::Navigate => "Drag to pan · wheel to zoom · middle drag works with every tool",
            Tool::Attract => "Hold left to attract · Shift + wheel changes radius",
            Tool::Repel => "Hold left to repel · Shift + wheel changes radius",
            Tool::Dump => "Hold left to add particles · mixed types · Shift + wheel changes radius",
        }
    }
}

/// A word as a fraction of all words: the number nearest to `key` over 2^32.
#[verifier::allow_in_spec]
pub fn fraction(key: u32) -> Scalar
    returns
        Scalar::from_u32(key).mul(scalar(0x2f80_0000)),  // 1.0 / 4294967296.0
{
    Scalar::from_u32(key).mul(scalar(0x2f80_0000))  // 1.0 / 4294967296.0
}

/// A resting particle that belongs to no creature: its position, no velocity, its
/// type, and three empty words.
pub open spec fn particle_words(position: Vec2, kind: u32) -> Seq<u32> {
    seq![position.x.bits, position.y.bits, 0, 0, kind, 0, 0, 0]
}

fn push_particle(words: &mut Vec<u32>, position: Vec2, kind: u32)
    ensures
        final(words)@ == old(words)@ + particle_words(position, kind),
{
    words.push(position.x.bits);
    words.push(position.y.bits);
    words.push(0);
    words.push(0);
    words.push(kind);
    words.push(0);
    words.push(0);
    words.push(0);
    assert(words@ =~= old(words)@ + particle_words(position, kind));
}

/// A batch of particles to add.
#[derive(Clone, Copy, PartialEq, Eq, Structural, Debug)]
pub struct ParticleDump {
    pub serial: u64,
    pub start: u32,
    pub count: u32,
    pub center: Vec2,
    pub radius: Scalar,
}

impl ParticleDump {
    /// The random word of particle `i`.
    #[verifier::allow_in_spec]
    pub fn key(self, seed: u32, i: u32) -> u32
        returns
            hash(seed ^ ((self.serial % 0x1_0000_0000) as u32).wrapping_mul(1664525) ^ i),
    {
        hash(seed ^ ((self.serial % 0x1_0000_0000) as u32).wrapping_mul(1664525) ^ i)
    }

    /// The direction of particle `i` from the center, as an angle.
    #[verifier::allow_in_spec]
    pub fn angle(self, seed: u32, i: u32) -> Scalar
        returns
            fraction(self.key(seed, i)).mul(scalar(0x40c9_0fdb)),  // 6.283185307179586
    {
        fraction(self.key(seed, i)).mul(scalar(0x40c9_0fdb))  // 6.283185307179586
    }

    /// The distance of a particle from the center.
    #[verifier::allow_in_spec]
    pub fn distance(self, key: u32) -> Scalar
        returns
            fraction(hash(key)).sqrt().mul(self.radius),
    {
        fraction(hash(key)).sqrt().mul(self.radius)
    }

    /// Where a particle in the given direction from the center starts.
    #[verifier::allow_in_spec]
    pub fn position(self, key: u32, direction: Vec2) -> Vec2
        returns
            self.center.add(direction.scale(self.distance(key))).rem_euclid(Vec2::splat(world())),
    {
        self.center.add(direction.scale(self.distance(key))).rem_euclid(Vec2::splat(world()))
    }

    /// The type of a particle.
    pub open spec fn kind(key: u32, types: u32) -> u32 {
        hash(key ^ 0x9134abcd) % types
    }

    /// The words of particle `i`: position, rest, type, no creature.
    pub open spec fn words(self, seed: u32, types: u32, i: u32, direction: Vec2) -> Seq<u32> {
        let key = self.key(seed, i);
        let position = self.position(key, direction);
        particle_words(position, Self::kind(key, types))
    }

    /// The words of the first `count` particles.
    pub open spec fn all_words(self, seed: u32, types: u32, directions: Seq<Vec2>, count: nat) -> Seq<u32>
        decreases count,
    {
        if count == 0 {
            Seq::empty()
        } else {
            self.all_words(seed, types, directions, (count - 1) as nat) + self.words(
                seed,
                types,
                (count - 1) as u32,
                directions[count - 1],
            )
        }
    }

    /// The angles of all particles.
    pub fn angles(&self, seed: u32) -> (r: Vec<Scalar>)
        ensures
            r@ == Seq::new(self.count as nat, |i: int| self.angle(seed, i as u32)),
    {
        let mut angles: Vec<Scalar> = Vec::new();
        let mut i: u32 = 0;
        while i < self.count
            invariant
                i <= self.count,
                angles@ == Seq::new(i as nat, |i: int| self.angle(seed, i as u32)),
            decreases self.count - i,
        {
            angles.push(self.angle(seed, i));
            i = i + 1;
            assert(angles@ =~= Seq::new(i as nat, |i: int| self.angle(seed, i as u32)));
        }
        angles
    }

    /// The words of all particles; `directions` are the cosine and the sine of
    /// each of the `angles`.
    pub fn particles(&self, seed: u32, types: u32, directions: &Vec<Vec2>) -> (r: Vec<u32>)
        requires
            self.count > 0 ==> types > 0,
            directions@.len() == self.count,
        ensures
            r@ == self.all_words(seed, types, directions@, self.count as nat),
    {
        let mut words: Vec<u32> = Vec::new();
        let mut i: u32 = 0;
        while i < self.count
            invariant
                i <= self.count,
                self.count > 0 ==> types > 0,
                directions@.len() == self.count,
                words@ == self.all_words(seed, types, directions@, i as nat),
            decreases self.count - i,
        {
            let key: u32 = self.key(seed, i);
            let position: Vec2 = self.position(key, directions[i as usize]);
            push_particle(&mut words, position, hash(key ^ 0x9134abcd) % types);
            i = i + 1;
        }
        words
    }
}

/// Each particle of a batch takes eight words: a position, no velocity, one of the
/// world's types, and nothing else.
pub proof fn lemma_particle_layout(dump: ParticleDump, seed: u32, types: u32, directions: Seq<Vec2>, count: nat, i: int)
    requires
        types > 0,
        0 <= i < count <= dump.count,
    ensures
        dump.all_words(seed, types, directions, count).len() == 8 * count,
        ({
            let words = dump.all_words(seed, types, directions, count).subrange(8 * i, 8 * i + 8);
            let position = dump.position(dump.key(seed, i as u32), directions[i]);
            &&& words == dump.words(seed, types, i as u32, directions[i])
            &&& words[0] == position.x.bits
            &&& words[1] == position.y.bits
            &&& words[2] == 0 && words[3] == 0
            &&& words[4] < types
            &&& words[5] == 0 && words[6] == 0 && words[7] == 0
        }),
    decreases count,
{
    let all = dump.all_words(seed, types, directions, count);
    let before = dump.all_words(seed, types, directions, (count - 1) as nat);
    let last = dump.words(seed, types, (count - 1) as u32, directions[count - 1]);
    if count > 1 {
        lemma_particle_layout(dump, seed, types, directions, (count - 1) as nat, if i < count - 1 { i } else { 0 });
    }
    assert(before.len() == 8 * (count - 1));
    if i < count - 1 {
        assert(all.subrange(8 * i, 8 * i + 8) =~= before.subrange(8 * i, 8 * i + 8));
    } else {
        assert(all.subrange(8 * i, 8 * i + 8) =~= last);
    }
}

/// The brushes and the batches on their way to the GPU.
#[derive(Debug)]
pub struct InteractionTools {
    pub tool: Tool,
    pub radius: Scalar,
    pub strength: Scalar,
    pub cursor: Option<Vec2>,
    pub active: bool,
    pub rate: Scalar,
    pub pending: Vec<ParticleDump>,
    pub serial: u64,
    pub epoch: u64,
    pub error: String,
}

impl Default for InteractionTools {
    fn default() -> (r: Self)
        ensures
            r.pending@ == Seq::<ParticleDump>::empty(),
            r.error@ == ""@,
            r == (InteractionTools {
                tool: Tool::Navigate,
                radius: scalar(0x4280_0000),  // 64.0
                strength: scalar(0x4496_0000),  // 1200.0
                cursor: None,
                active: false,
                rate: scalar(0x44fa_0000),  // 2000.0
                serial: 0,
                epoch: 0,
                ..r
            }),
    {
        proof {
            reveal_strlit("");
        }
        InteractionTools {
            tool: Tool::Navigate,
            radius: scalar(0x4280_0000),  // 64.0
            strength: scalar(0x4496_0000),  // 1200.0
            cursor: None,
            active: false,
            rate: scalar(0x44fa_0000),  // 2000.0
            pending: Vec::new(),
            serial: 0,
            epoch: 0,
            error: String::new(),
        }
    }
}

/// The shortest way around the world.
#[verifier::allow_in_spec]
pub fn wrapped_delta(delta: Vec2) -> Vec2
    returns
        delta.sub(delta.shrink(world()).round().scale(world())),
{
    delta.sub(delta.shrink(world()).round().scale(world()))
}

/// The world position under a cursor.
#[verifier::allow_in_spec]
pub fn cursor_world(view: &Appearance, cursor: Vec2, viewport: Vec2) -> Vec2
    returns
        ({
            let one = Vec2::splat(one());
            let normalized = cursor.div(viewport.max(one)).scale(two()).sub(one);
            let camera = normalized.mul((Vec2 { x: view.aspect, y: scalar(0xbf80_0000) })).shrink(view.zoom).add(  // -1.0
                view.pan,
            );
            camera.add(one).scale(world().mul(half())).rem_euclid(Vec2::splat(world()))
        }),
{
    let one: Vec2 = Vec2::splat(one());
    let normalized: Vec2 = cursor.div(viewport.max(one)).scale(two()).sub(one);
    let camera: Vec2 = normalized.mul(Vec2 { x: view.aspect, y: scalar(0xbf80_0000) }).shrink(view.zoom).add(  // -1.0
        view.pan,
    );
    camera.add(one).scale(world().mul(half())).rem_euclid(Vec2::splat(world()))
}

/// A setting of the brushes.
#[derive(Clone, Copy, PartialEq, Eq, Structural, Debug)]
pub enum BrushControl {
    Radius,
    Strength,
    Rate,
}

impl BrushControl {
    /// The smallest and the largest value.
    #[verifier::allow_in_spec]
    pub fn range(self) -> (Scalar, Scalar)
        returns
            (match self {
                BrushControl::Radius => (scalar(0x4100_0000), scalar(0x4400_0000)),  // 8.0, 512.0
                BrushControl::Strength => (zero(), scalar(0x459c_4000)),  // 5000.0
                BrushControl::Rate => (scalar(0x42c8_0000), scalar(0x469c_4000)),  // 100.0, 20000.0
            }),
    {
        match self {
            BrushControl::Radius => (scalar(0x4100_0000), scalar(0x4400_0000)),  // 8.0, 512.0
            BrushControl::Strength => (zero(), scalar(0x459c_4000)),  // 5000.0
            BrushControl::Rate => (scalar(0x42c8_0000), scalar(0x469c_4000)),  // 100.0, 20000.0
        }
    }
}

impl InteractionTools {
    pub open spec fn spec_brush(&self, control: BrushControl) -> Scalar {
        match control {
            BrushControl::Radius => self.radius,
            BrushControl::Strength => self.strength,
            BrushControl::Rate => self.rate,
        }
    }

    /// The value of a brush setting.
    #[verifier::when_used_as_spec(spec_brush)]
    pub fn brush(&self, control: BrushControl) -> (r: Scalar)
        ensures
            r == self.spec_brush(control),
    {
        match control {
            BrushControl::Radius => self.radius,
            BrushControl::Strength => self.strength,
            BrushControl::Rate => self.rate,
        }
    }

    /// The tools with one brush setting replaced.
    pub open spec fn with_brush(self, control: BrushControl, value: Scalar) -> InteractionTools {
        match control {
            BrushControl::Radius => InteractionTools { radius: value, ..self },
            BrushControl::Strength => InteractionTools { strength: value, ..self },
            BrushControl::Rate => InteractionTools { rate: value, ..self },
        }
    }

    /// The hint of the tool in hand, and what went wrong on a line of its own.
    pub fn hint(&self) -> (r: String)
        ensures
            r@ == if self.error@.len() == 0 {
                self.tool.hint_text()
            } else {
                self.tool.hint_text() + "\n"@ + self.error@
            },
    {
        let mut text: String = self.tool.hint().to_owned();
        if !self.error.as_str().is_empty() {
            text.append("\n");
            text.append(self.error.as_str());
        }
        text
    }
}

/// Moves a brush setting to a value within its range; a value that is not finite
/// changes nothing.
pub fn brush_change(tools: &mut InteractionTools, control: BrushControl, value: Scalar)
    ensures
        *final(tools) == if value.finite() {
            old(tools).with_brush(control, value.clamp(control.range().0, control.range().1))
        } else {
            *old(tools)
        },
{
    if !value.is_finite() {
        return;
    }
    let (low, high): (Scalar, Scalar) = control.range();
    let value: Scalar = value.clamp(low, high);
    match control {
        BrushControl::Radius => {
            tools.radius = value;
        },
        BrushControl::Strength => {
            tools.strength = value;
        },
        BrushControl::Rate => {
            tools.rate = value;
        },
    }
}

/// The batches of `pending` that came after the last one taken over.
pub open spec fn unacknowledged(pending: Seq<ParticleDump>, last: u64) -> Seq<ParticleDump> {
    pending.filter(|batch: ParticleDump| batch.serial > last)
}

/// The batches still on their way: none of an earlier world, and none that was
/// taken over.
pub open spec fn outstanding(tools: InteractionTools, epoch: u64, ack: (u64, u64)) -> Seq<ParticleDump> {
    let own = if tools.epoch == epoch {
        tools.pending@
    } else {
        Seq::empty()
    };
    if ack.0 == epoch {
        unacknowledged(own, ack.1)
    } else {
        own
    }
}

/// What comes of holding the button for one frame; what is left of the rate for
/// the next frame stands beside it.
#[derive(Clone, Copy, PartialEq, Eq, Structural, Debug)]
pub enum DumpStep {
    /// Nothing is being added.
    Rest,
    /// The cursor is not on the world.
    Wait,
    /// Too many batches are on their way.
    Stall,
    /// Less than one particle is due.
    Gather(Scalar),
    /// The particles could not be counted.
    Overflow(Scalar),
    /// The world would not fit the device.
    Refuse(Scalar),
    /// So many particles are added.
    Add(Scalar, u32),
}

impl DumpStep {
    /// What is carried over to the next frame.
    pub open spec fn carry(self, carried: Scalar) -> Scalar {
        match self {
            DumpStep::Rest => zero(),
            DumpStep::Wait => carried,
            DumpStep::Stall => carried,
            DumpStep::Gather(rest) => rest,
            DumpStep::Overflow(rest) => rest,
            DumpStep::Refuse(rest) => rest,
            DumpStep::Add(rest, _) => rest,
        }
    }

    /// The particles added.
    pub open spec fn added(self) -> int {
        match self {
            DumpStep::Add(_, due) => due as int,
            _ => 0,
        }
    }
}

/// Decides what comes of holding the button for one frame, with `queued` batches
/// on their way.
pub open spec fn dump_step(
    tools: InteractionTools,
    active: bool,
    queued: nat,
    carried: Scalar,
    seconds: Scalar,
    sim: Simulation,
    status: GpuStatus,
) -> DumpStep {
    let gathered = InteractionTools::gathered(carried, tools.rate, seconds);
    let due = gathered.floor().to_u32();
    let rest = gathered.sub(Scalar::from_u32(due));
    if tools.tool != Tool::Dump || !active {
        DumpStep::Rest
    } else if tools.cursor is None {
        DumpStep::Wait
    } else if queued >= 120 {
        DumpStep::Stall
    } else if due == 0 {
        DumpStep::Gather(gathered)
    } else if sim.count + due > u32::MAX {
        DumpStep::Overflow(rest)
    } else if crate::model::count_error((sim.count + due) as u32, sim.types, status) is Some {
        DumpStep::Refuse(rest)
    } else {
        DumpStep::Add(rest, due)
    }
}

/// What is said of a frame's outcome.
pub open spec fn dump_message(
    step: DumpStep,
    tools: InteractionTools,
    carried: Scalar,
    seconds: Scalar,
    sim: Simulation,
    status: GpuStatus,
) -> Seq<char> {
    let due = InteractionTools::gathered(carried, tools.rate, seconds).floor().to_u32();
    match step {
        DumpStep::Stall => "Waiting for the GPU to catch up."@,
        DumpStep::Overflow(_) => "Particle count limit reached."@,
        DumpStep::Refuse(_) => crate::model::count_error((sim.count + due) as u32, sim.types, status)->0,
        DumpStep::Add(_, _) => ""@,
        _ => if tools.epoch == sim.epoch {
            tools.error@
        } else {
            ""@
        },
    }
}

/// The next batch of `due` particles.
pub open spec fn next_batch(tools: InteractionTools, sim: Simulation, due: int) -> ParticleDump {
    ParticleDump {
        serial: (tools.serial + 1) as u64,
        start: sim.count,
        count: due as u32,
        center: tools.cursor->0,
        radius: tools.radius,
    }
}

impl InteractionTools {
    /// The particles due after another frame, whole and in part.
    #[verifier::allow_in_spec]
    pub fn gathered(carried: Scalar, rate: Scalar, seconds: Scalar) -> Scalar
        returns
            carried.add(rate.mul(seconds.min(scalar(0x3dcc_cccd)))),  // 0.1
    {
        carried.add(rate.mul(seconds.min(scalar(0x3dcc_cccd))))  // 0.1
    }

    /// The batches on their way follow one another: each starts where the one
    /// before it ends, and the last one ends at the world's count. Their serial
    /// numbers ascend.
    pub open spec fn queued(self, count: u32) -> bool {
        &&& self.pending@.len() <= 120
        &&& forall|i: int| 0 <= i < self.pending@.len() ==> (#[trigger] self.pending@[i]).serial <= self.serial
            && self.pending@[i].count > 0
        &&& forall|i: int, j: int|
            0 <= i < j < self.pending@.len() ==> (#[trigger] self.pending@[i]).serial < (
            #[trigger] self.pending@[j]).serial
        &&& forall|i: int, j: int|
            0 <= i && j == i + 1 && j < self.pending@.len() ==> (#[trigger] self.pending@[i]).start
                + self.pending@[i].count == (#[trigger] self.pending@[j]).start
        &&& self.pending@.len() > 0 ==> self.pending@.last().start + self.pending@.last().count == count
    }

    /// Forgets the batches of an earlier world.
    fn enter(&mut self, epoch: u64) -> (fresh: bool)
        ensures
            fresh == (old(self).epoch != epoch),
            *final(self) == (InteractionTools {
                pending: final(self).pending,
                error: final(self).error,
                epoch,
                active: old(self).active && !fresh,
                ..*old(self)
            }),
            final(self).pending@ == if fresh {
                Seq::empty()
            } else {
                old(self).pending@
            },
            final(self).error@ == if fresh {
                ""@
            } else {
                old(self).error@
            },
    {
        proof {
            reveal_strlit("");
        }
        if self.epoch == epoch {
            return false;
        }
        self.pending = Vec::new();
        self.epoch = epoch;
        self.active = false;
        self.error = String::new();
        true
    }

    /// Forgets the batches taken over.
    fn acknowledge(&mut self, last: u64)
        ensures
            *final(self) == (InteractionTools { pending: final(self).pending, ..*old(self) }),
            final(self).pending@ == unacknowledged(old(self).pending@, last),
    {
        let mut kept: Vec<ParticleDump> = Vec::new();
        let mut i: usize = 0;
        let ghost later = |batch: ParticleDump| batch.serial > last;
        assert(self.pending@.take(0).filter(later) =~= Seq::empty()) by {
            reveal(Seq::filter);
        }
        while i < self.pending.len()
            invariant
                i <= self.pending@.len(),
                later == (|batch: ParticleDump| batch.serial > last),
                kept@ == self.pending@.take(i as int).filter(later),
            decreases self.pending@.len() - i,
        {
            let batch: ParticleDump = self.pending[i];
            proof {
                reveal(Seq::filter);
                assert(self.pending@.take(i + 1).drop_last() =~= self.pending@.take(i as int));
                assert(self.pending@.take(i + 1).last() == batch);
            }
            if batch.serial > last {
                kept.push(batch);
            }
            i = i + 1;
        }
        assert(self.pending@.take(i as int) =~= self.pending@);
        self.pending = kept;
    }
}

/// The step that a frame takes, given what came before it.
pub open spec fn frame_step(
    tools: InteractionTools,
    sim: Simulation,
    remainder: Scalar,
    seconds: Scalar,
    status: GpuStatus,
) -> DumpStep {
    let fresh = tools.epoch != sim.epoch;
    dump_step(
        tools,
        tools.active && !fresh,
        outstanding(tools, sim.epoch, status.dump_ack).len(),
        if fresh { zero() } else { remainder },
        seconds,
        sim,
        status,
    )
}

/// What one frame makes of the tools, the world, the controls and the part of a
/// particle due.
pub open spec fn dumped(
    before: (InteractionTools, Simulation, Controls, Scalar),
    after: (InteractionTools, Simulation, Controls, Scalar),
    seconds: Scalar,
    status: GpuStatus,
) -> bool {
    let (tools, sim, controls, remainder) = before;
    let fresh = tools.epoch != sim.epoch;
    let queue = outstanding(tools, sim.epoch, status.dump_ack);
    let carried = if fresh { zero() } else { remainder };
    let step = frame_step(tools, sim, remainder, seconds, status);
    let adds = step is Add;
    &&& after.0.pending@ == if adds {
        queue.push(next_batch(tools, sim, step.added()))
    } else {
        queue
    }
    &&& after.0.error@ == dump_message(step, tools, carried, seconds, sim, status)
    &&& after.0 == (InteractionTools {
        pending: after.0.pending,
        error: after.0.error,
        epoch: sim.epoch,
        active: tools.active && !fresh,
        serial: if adds { (tools.serial + 1) as u64 } else { tools.serial },
        ..tools
    })
    &&& after.1 == (Simulation { count: (sim.count + step.added()) as u32, ..sim })
    &&& after.2 == if adds {
        Controls { count: (sim.count + step.added()) as u32, ..controls }
    } else {
        controls
    }
    &&& after.3 == step.carry(carried)
}

/// Adds the particles that one frame of holding the button asks for to the world
/// and to the batches on their way; `remainder` is the part of a particle due.
pub fn update_dumps(
    seconds: Scalar,
    status: &GpuStatus,
    tools: &mut InteractionTools,
    sim: &mut Simulation,
    controls: &mut Controls,
    remainder: &mut Scalar,
)
    requires
        frame_step(*old(tools), *old(sim), *old(remainder), seconds, *status) is Add ==> old(tools).serial
            < u64::MAX,
    ensures
        dumped(
            (*old(tools), *old(sim), *old(controls), *old(remainder)),
            (*final(tools), *final(sim), *final(controls), *final(remainder)),
            seconds,
            *status,
        ),
{
    let fresh: bool = tools.enter(sim.epoch);
    if fresh {
        *remainder = zero();
    }
    if status.dump_ack.0 == sim.epoch {
        tools.acknowledge(status.dump_ack.1);
    }
    if tools.tool != Tool::Dump || !tools.active {
        *remainder = zero();
        return;
    }
    let center: Vec2 = match tools.cursor {
        Some(center) => center,
        None => {
            return;
        },
    };
    if tools.pending.len() >= 120 {
        tools.error = "Waiting for the GPU to catch up.".to_owned();
        return;
    }
    *remainder = InteractionTools::gathered(*remainder, tools.rate, seconds);
    let due: u32 = remainder.floor().to_u32();
    if due == 0 {
        return;
    }
    *remainder = remainder.sub(Scalar::from_u32(due));
    let next: u32 = match sim.count.checked_add(due) {
        Some(next) => next,
        None => {
            tools.error = "Particle count limit reached.".to_owned();
            return;
        },
    };
    match validate_counts(next, sim.types, status) {
        Ok(()) => {},
        Err(message) => {
            tools.error = message;
            return;
        },
    }
    proof {
        reveal_strlit("");
    }
    tools.error = String::new();
    assert(tools.error@ =~= ""@);
    tools.serial = tools.serial + 1;
    tools.pending.push(
        ParticleDump { serial: tools.serial, start: sim.count, count: due, center, radius: tools.radius },
    );
    sim.count = next;
    controls.count = next;
}

/// Of batches in order, those after the last one taken over are the rest of them.
proof fn lemma_unacknowledged_rest(pending: Seq<ParticleDump>, last: u64) -> (k: int)
    requires
        forall|i: int, j: int|
            0 <= i < j < pending.len() ==> (#[trigger] pending[i]).serial < (#[trigger] pending[j]).serial,
    ensures
        0 <= k <= pending.len(),
        unacknowledged(pending, last) == pending.skip(k),
    decreases pending.len(),
{
    reveal(Seq::filter);
    if pending.len() == 0 {
        assert(unacknowledged(pending, last) =~= pending.skip(0));
        0
    } else {
        let shorter = pending.drop_last();
        let k = lemma_unacknowledged_rest(shorter, last);
        if pending.last().serial > last {
            assert(unacknowledged(pending, last) =~= pending.skip(k));
            k
        } else {
            assert(unacknowledged(shorter, last).len() == 0) by {
                if k < shorter.len() {
                    let kept = unacknowledged(shorter, last);
                    assert(kept[0] == shorter[k]);
                    shorter.lemma_filter_pred(|batch: ParticleDump| batch.serial > last, 0);
                    assert(pending[k].serial < pending[pending.len() - 1].serial);
                }
            }
            assert(unacknowledged(pending, last) =~= pending.skip(pending.len() as int));
            pending.len() as int
        }
    }
}

/// Batches stay in order, whole and without gaps up to the world's count, however
/// long the button is held and however many are taken over.
pub proof fn lemma_batches_stay_queued(
    before: (InteractionTools, Simulation, Controls, Scalar),
    after: (InteractionTools, Simulation, Controls, Scalar),
    seconds: Scalar,
    status: GpuStatus,
)
    requires
        dumped(before, after, seconds, status),
        frame_step(before.0, before.1, before.3, seconds, status) is Add ==> before.0.serial < u64::MAX,
        before.0.epoch == before.1.epoch ==> before.0.queued(before.1.count),
    ensures
        after.0.epoch == after.1.epoch,
        after.0.queued(after.1.count),
{
    let (tools, sim, _, remainder) = before;
    let queue = outstanding(tools, sim.epoch, status.dump_ack);
    let own = if tools.epoch == sim.epoch {
        tools.pending@
    } else {
        Seq::empty()
    };
    let k = if status.dump_ack.0 == sim.epoch {
        lemma_unacknowledged_rest(own, status.dump_ack.1)
    } else {
        0
    };
    assert(queue =~= own.skip(k));
    let step = frame_step(tools, sim, remainder, seconds, status);
    let pending = after.0.pending@;
    assert forall|i: int, j: int| 0 <= i && j == i + 1 && j < pending.len() implies (
    #[trigger] pending[i]).start + pending[i].count == (#[trigger] pending[j]).start by {
        if j < queue.len() {
            assert(pending[i] == own[i + k] && pending[j] == own[j + k]);
        } else {
            assert(pending[i] == own[own.len() - 1]);
        }
    }
    assert forall|i: int, j: int| 0 <= i < j < pending.len() implies (#[trigger] pending[i]).serial < (
    #[trigger] pending[j]).serial by {
        assert(pending[i] == own[i + k]);
        if j < queue.len() {
            assert(pending[j] == own[j + k]);
        }
    }
}

/// Nothing of the rate is lost: what is added and what is carried over are
/// together what was due, and less than one particle is carried over.
pub proof fn lemma_rate_accounted(
    tools: InteractionTools,
    sim: Simulation,
    remainder: Scalar,
    seconds: Scalar,
    status: GpuStatus,
)
    requires
        tools.epoch == sim.epoch,
        ({
            let gathered = InteractionTools::gathered(remainder, tools.rate, seconds);
            zero().le(gathered) && gathered.le(scalar(0x4b80_0000))  // 16777216.0
        }),
        ({
            let step = frame_step(tools, sim, remainder, seconds, status);
            step is Gather || step is Add
        }),
    ensures
        ({
            let step = frame_step(tools, sim, remainder, seconds, status);
            let due = InteractionTools::gathered(remainder, tools.rate, seconds);
            let rest = step.carry(remainder);
            &&& step.added() * crate::scalar::one_units() + rest.units() == due.units()
            &&& rest.finite()
            &&& 0 <= rest.units() < crate::scalar::one_units()
        }),
{
    crate::order::lemma_fraction_exact(InteractionTools::gathered(remainder, tools.rate, seconds));
}

/// Added particles never take the world past what the device can hold.
pub proof fn lemma_added_particles_fit(
    tools: InteractionTools,
    sim: Simulation,
    remainder: Scalar,
    seconds: Scalar,
    status: GpuStatus,
)
    requires
        frame_step(tools, sim, remainder, seconds, status) is Add,
    ensures
        ({
            let added = frame_step(tools, sim, remainder, seconds, status).added();
            &&& added > 0
            &&& sim.count + added <= u32::MAX
            &&& crate::model::count_error((sim.count + added) as u32, sim.types, status) is None
        }),
{
}

} // verus!
