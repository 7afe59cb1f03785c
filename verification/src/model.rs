//! The world's settings, its rule matrices and the camera.
use vstd::prelude::*;

use crate::scalar::{half, one, scalar, two, zero, Scalar};
use crate::vector::{IVec2, UVec2, Vec2};

verus! {

/// Cells along each side of the chemical field.
pub const TRAIL_SIDE: u32 = 512;

/// Bytes of the chemical field.
pub const TRAIL_BYTES: u64 = 512 * 512 * 64;

/// Creature id 0 means "unassigned", so ids run 1..MAX_CREATURES.
pub const MAX_CREATURES: u32 = 4096;

/// Side of the world-space occupancy field the outline contours. A texel is four
/// world units at the default radius, against a rest spacing near five, so the
/// Gaussian stamp rather than the resolution is what smooths the body.
pub const FIELD_SIDE: u32 = 512;

/// Bytes of the occupancy field.
pub const FIELD_BYTES: u64 = 512 * 512 * 8;

/// Types whose per-creature particle count the cluster detector tracks. Mirrors
/// the rule-cache capacity in the simulation shader; kinds above this are not
/// enumerated by the per-type minimum check.
pub const CREATURE_TYPES: u32 = 16;

/// Bytes per creature record in the simulation shader: a base of twelve words,
/// the per-type counts, and a tail of eight words that keeps the record at a
/// multiple of 16 bytes.
pub const CREATURE_BYTES: u64 = (12 + 16 + 8) * 4;

/// Bytes of GPU storage each particle occupies across every simulation buffer:
/// two 32-byte ping-pong copies, the 32-byte cell-sorted copy, and the 16-byte
/// packed neighbor record. Cluster labels ride in the sorted copy's spare field.
pub const PARTICLE_BYTES: u64 = 32 + 32 + 32 + 16;

/// Working-set ceiling, in addition to actual device binding limits. Leaves room
/// for render targets, the splat accumulator, the desktop, and in-flight old
/// buffers on a 4 GB card.
pub const SIMULATION_BUDGET: u64 = 512 * 1024 * 1024;

/// Names and anchor colors, as 0xRRGGBB.
pub const PALETTES: [(&'static str, [u32; 8]); 4] = [
    (
        "Aurora",
        [0x70e1ce, 0xa8f0b0, 0x80b9ff, 0xb49aff, 0xef9cda, 0xffcc9c, 0xffedaf, 0x77d2ed],
    ),
    (
        "Ember",
        [0xff725e, 0xffaa70, 0xffd493, 0xe897b2, 0xc78bcc, 0x9da4e0, 0xe8be9b, 0xffe8bb],
    ),
    (
        "Lagoon",
        [0x55cbbb, 0x78e5d5, 0x63b9dc, 0x809ce8, 0xa6b9ed, 0xc3dfce, 0xe6dca8, 0x92d6a0],
    ),
    (
        "Pastel",
        [0xf5a9b8, 0xf5c69b, 0xf1e6a5, 0xb6dba6, 0x9edbd5, 0xa9c7ef, 0xc5b1e9, 0xe2b2d6],
    ),
];

/// Side of the toroidal world: 2048.0.
#[verifier::allow_in_spec]
pub fn world() -> Scalar
    returns
        scalar(0x4500_0000),  // 2048.0
{
    scalar(0x4500_0000)  // 2048.0
}

/// Simulated seconds per step: 1.0 / 60.0.
#[verifier::allow_in_spec]
pub fn dt() -> Scalar
    returns
        scalar(0x3c88_8889),  // 1.0 / 60.0
{
    scalar(0x3c88_8889)  // 1.0 / 60.0
}

/// Fraction of the interaction radius below which every pair repels, regardless
/// of its rule: 0.2. The force of the simulation shader crosses zero exactly
/// here, so it is also the rest separation of a bonded pair.
#[verifier::allow_in_spec]
pub fn core_fraction() -> Scalar
    returns
        scalar(0x3e4c_cccd),  // 0.2
{
    scalar(0x3e4c_cccd)  // 0.2
}

/// Fastest a particle may move: 180.0.
#[verifier::allow_in_spec]
pub fn speed_limit() -> Scalar
    returns
        scalar(0x4334_0000),  // 180.0
{
    scalar(0x4334_0000)  // 180.0
}

/// Cluster detection: finds bodies the rules hold together and tracks them.
#[derive(Clone, Copy, PartialEq, Eq, Structural, Debug)]
pub struct Detection {
    pub enabled: bool,
    /// Steps a cluster must hold its size before it counts as a creature rather
    /// than a momentary crowd. Higher values trade responsiveness for stability.
    pub promote_steps: u32,
    pub outline: Scalar,
}

impl Detection {
    /// The settings of a new world.
    pub open spec fn initial() -> Detection {
        Detection { enabled: true, promote_steps: 30, outline: scalar(0x3e99_999a) }  // 0.3
    }
}

impl Default for Detection {
    fn default() -> (r: Self)
        ensures
            r == Detection::initial(),
    {
        Detection { enabled: true, promote_steps: 30, outline: scalar(0x3e99_999a) }  // 0.3
    }
}

/// Per-creature genomes and the selection pressure that reshapes them.
#[derive(Clone, Copy, PartialEq, Eq, Structural, Debug)]
pub struct Evolution {
    pub enabled: bool,
    /// How strongly a child's per-kind ratios and orientations wander from its
    /// parent's at birth.
    pub mutation: Scalar,
    /// Fraction of the particle budget that may be free before the weakest
    /// tracked creature is dissolved back into free material.
    pub cull_free_fraction: Scalar,
    /// How strongly creature genomes warp the shared rules: 0 keeps the rules
    /// exactly as written, 1 applies the fully mutated kernel.
    pub influence: Scalar,
    /// Bumped to ask the GPU to reset every genome to a fresh isotropic state.
    pub evolution_revision: u64,
}

impl Evolution {
    /// The settings of a new world.
    pub open spec fn initial() -> Evolution {
        Evolution {
            enabled: true,
            mutation: scalar(0x3df5_c28f),  // 0.12
            cull_free_fraction: scalar(0x3ca3_d70a),  // 0.02
            influence: one(),
            evolution_revision: 0,
        }
    }
}

impl Default for Evolution {
    fn default() -> (r: Self)
        ensures
            r == Evolution::initial(),
    {
        Evolution {
            enabled: true,
            mutation: scalar(0x3df5_c28f),  // 0.12
            cull_free_fraction: scalar(0x3ca3_d70a),  // 0.02
            influence: one(),
            evolution_revision: 0,
        }
    }
}

/// A shared, toroidal chemical field. Disabled by default to preserve worlds.
#[derive(Clone, Copy, PartialEq, Eq, Structural, Debug)]
pub struct Trails {
    pub enabled: bool,
    pub deposit: Scalar,
    pub diffusion: Scalar,
    pub half_life: Scalar,
    pub response: Scalar,
    pub sensor_distance: Scalar,
    pub visibility: Scalar,
    pub clear_revision: u64,
}

impl Trails {
    /// The settings of a new world.
    pub open spec fn initial() -> Trails {
        Trails {
            enabled: false,
            deposit: scalar(0x3e4c_cccd),  // 0.2
            diffusion: scalar(0x4248_0000),  // 50.0
            half_life: half(),
            response: scalar(0x42b4_0000),  // 90.0
            sensor_distance: scalar(0x4200_0000),  // 32.0
            visibility: scalar(0x3ecc_cccd),  // 0.4
            clear_revision: 0,
        }
    }
}

impl Default for Trails {
    fn default() -> (r: Self)
        ensures
            r == Trails::initial(),
    {
        Trails {
            enabled: false,
            deposit: scalar(0x3e4c_cccd),  // 0.2
            diffusion: scalar(0x4248_0000),  // 50.0
            half_life: half(),
            response: scalar(0x42b4_0000),  // 90.0
            sensor_distance: scalar(0x4200_0000),  // 32.0
            visibility: scalar(0x3ecc_cccd),  // 0.4
            clear_revision: 0,
        }
    }
}

/// Optional behaviors; all of them are initially off.
#[derive(Clone, Copy, PartialEq, Eq, Structural, Debug)]
pub struct Behavior {
    pub preferred_enabled: bool,
    pub density_enabled: bool,
    pub density_target: Scalar,
    pub density_strength: Scalar,
    /// 0 off, 1 timer, 2 neighbors, 3 either.
    pub cycle_mode: u32,
    pub cycle_seconds: Scalar,
    pub cycle_fraction: Scalar,
    pub cycle_min_neighbors: u32,
    /// Neighbors sampled per particle per step. The force estimator's variance
    /// scales as 1/budget regardless of local density, but the visible effect of
    /// that noise shrinks as neighbor counts rise, so dense worlds tolerate far
    /// fewer samples. Lowering this is the cheapest way to buy particle count.
    pub sample_budget: u32,
    pub nova_enabled: bool,
    pub nova_threshold: Scalar,
    pub nova_radius: Scalar,
    pub nova_impulse: Scalar,
    pub nova_duration: Scalar,
}

impl Behavior {
    /// The settings of a new world.
    pub open spec fn initial() -> Behavior {
        Behavior {
            preferred_enabled: false,
            density_enabled: false,
            density_target: scalar(0x43d7_0000),  // 430.0
            density_strength: scalar(0x3e99_999a),  // 0.30
            cycle_mode: 0,
            cycle_seconds: one(),
            cycle_fraction: scalar(0x3eb3_3333),  // 0.35
            cycle_min_neighbors: 3,
            sample_budget: 100,
            nova_enabled: false,
            nova_threshold: scalar(0x4080_0000),  // 4.0
            nova_radius: scalar(0x3eb3_3333),  // 0.35
            nova_impulse: scalar(0x44e1_0000),  // 1800.0
            nova_duration: scalar(0x3e99_999a),  // 0.3
        }
    }
}

impl Default for Behavior {
    fn default() -> (r: Self)
        ensures
            r == Behavior::initial(),
    {
        Behavior {
            preferred_enabled: false,
            density_enabled: false,
            density_target: scalar(0x43d7_0000),  // 430.0
            density_strength: scalar(0x3e99_999a),  // 0.30
            cycle_mode: 0,
            cycle_seconds: one(),
            cycle_fraction: scalar(0x3eb3_3333),  // 0.35
            cycle_min_neighbors: 3,
            sample_budget: 100,
            nova_enabled: false,
            nova_threshold: scalar(0x4080_0000),  // 4.0
            nova_radius: scalar(0x3eb3_3333),  // 0.35
            nova_impulse: scalar(0x44e1_0000),  // 1800.0
            nova_duration: scalar(0x3e99_999a),  // 0.3
        }
    }
}

/// Every matrix is directional: row is the affected type, column its neighbor.
#[derive(Clone, Copy, PartialEq, Eq, Structural, Debug)]
pub enum RuleKind {
    Attraction,
    Swirl,
    Alignment,
    Distance,
}

impl Default for RuleKind {
    fn default() -> (r: Self)
        ensures
            r == RuleKind::Attraction,
    {
        RuleKind::Attraction
    }
}

impl RuleKind {
    pub const ALL: [RuleKind; 4] = [
        RuleKind::Attraction,
        RuleKind::Swirl,
        RuleKind::Alignment,
        RuleKind::Distance,
    ];

    /// Place in the list of all kinds.
    #[verifier::allow_in_spec]
    pub fn index(self) -> usize
        returns
            (match self {
                RuleKind::Attraction => 0usize,
                RuleKind::Swirl => 1usize,
                RuleKind::Alignment => 2usize,
                RuleKind::Distance => 3usize,
            }),
    {
        match self {
            RuleKind::Attraction => 0,
            RuleKind::Swirl => 1,
            RuleKind::Alignment => 2,
            RuleKind::Distance => 3,
        }
    }

    pub fn label(self) -> (r: &'static str)
        ensures
            r@ == match self {
                RuleKind::Attraction => "Attraction"@,
                RuleKind::Swirl => "Swirl"@,
                RuleKind::Alignment => "Alignment"@,
                RuleKind::Distance => "Distance"@,
            },
    {
        match self {
            RuleKind::Attraction => "Attraction",
            RuleKind::Swirl => "Swirl",
            RuleKind::Alignment => "Alignment",
            RuleKind::Distance => "Distance",
        }
    }

    pub fn hint(self) -> (r: &'static str)
        ensures
            r@ == match self {
                RuleKind::Attraction => "− repel · + attract"@,
                RuleKind::Swirl => "− clockwise · + counterclockwise"@,
                RuleKind::Alignment => "− oppose neighbor velocity · + match neighbor velocity"@,
                RuleKind::Distance =>
                    "Fraction of interaction radius · zero uses the original attraction rule"@,
            },
    {
        match self {
            RuleKind::Attraction => "− repel · + attract",
            RuleKind::Swirl => "− clockwise · + counterclockwise",
            RuleKind::Alignment => "− oppose neighbor velocity · + match neighbor velocity",
            RuleKind::Distance =>
                "Fraction of interaction radius · zero uses the original attraction rule",
        }
    }

    /// Keeps the matrices of one seed apart.
    #[verifier::allow_in_spec]
    pub fn salt(self) -> u32
        returns
            (match self {
                RuleKind::Attraction => 0u32,
                RuleKind::Swirl => 0x91e10da5u32,
                RuleKind::Alignment => 0xd192ed03u32,
                RuleKind::Distance => 0x7a2c9b41u32,
            }),
    {
        match self {
            RuleKind::Attraction => 0,
            RuleKind::Swirl => 0x91e10da5,
            RuleKind::Alignment => 0xd192ed03,
            RuleKind::Distance => 0x7a2c9b41,
        }
    }

    /// The values an entry of this kind may have: distances from 0.0 to 0.95,
    /// everything else from -1.0 to 1.0.
    #[verifier::allow_in_spec]
    pub fn bounds(self) -> (Scalar, Scalar)
        returns
            (if self == RuleKind::Distance {
                (zero(), scalar(0x3f73_3333))  // 0.95
            } else {
                (scalar(0xbf80_0000), one())  // -1.0
            }),
    {
        if self == RuleKind::Distance {
            (zero(), scalar(0x3f73_3333))  // 0.95
        } else {
            (scalar(0xbf80_0000), one())  // -1.0
        }
    }
}

/// Scrambles a word.
#[verifier::allow_in_spec]
pub fn hash(x: u32) -> u32
    returns
        ({
            let a = (x ^ (x >> 16u32)).wrapping_mul(0x7feb352d);
            let b = (a ^ (a >> 15u32)).wrapping_mul(0x846ca68b);
            b ^ (b >> 16u32)
        }),
{
    let a: u32 = (x ^ (x >> 16u32)).wrapping_mul(0x7feb352d);
    let b: u32 = (a ^ (a >> 15u32)).wrapping_mul(0x846ca68b);
    b ^ (b >> 16u32)
}

/// The 24 random digits behind entry `i` of a seeded matrix.
#[verifier::allow_in_spec]
pub fn rule_digits(seed: u32, i: u64) -> u32
    returns
        (hash(((i % 0x1_0000_0000) as u32).wrapping_add(seed)) & 0xff_ffff),
{
    hash(((i % 0x1_0000_0000) as u32).wrapping_add(seed)) & 0xff_ffff
}

/// Entry `i` of a seeded matrix: the digits spread over the range from -1 to 1.
#[verifier::allow_in_spec]
pub fn random_rule(seed: u32, i: u64) -> Scalar
    returns
        Scalar::from_u32(rule_digits(seed, i)).div(scalar(0x4aff_ffff)).sub(one()),  // 8388607.5
{
    Scalar::from_u32(rule_digits(seed, i)).div(scalar(0x4aff_ffff)).sub(one())  // 8388607.5
}

/// A matrix of seeded random rules.
pub fn random_rules(types: u32, seed: u32) -> (r: Vec<Scalar>)
    ensures
        r@ == random_matrix(types, seed),
{
    let size: u64 = square(types);
    let mut rules: Vec<Scalar> = Vec::new();
    let mut i: u64 = 0;
    while i < size
        invariant
            i <= size,
            size == types * types,
            rules@ == random_matrix(types, seed).take(i as int),
        decreases size - i,
    {
        rules.push(random_rule(seed, i));
        i = i + 1;
        assert(rules@ =~= random_matrix(types, seed).take(i as int));
    }
    assert(rules@ =~= random_matrix(types, seed));
    rules
}

/// The entries of a matrix of seeded random rules.
pub open spec fn random_matrix(types: u32, seed: u32) -> Seq<Scalar> {
    Seq::new((types * types) as nat, |i: int| random_rule(seed, i as u64))
}

/// A sequence of one repeated value.
pub open spec fn uniform(count: int, value: Scalar) -> Seq<Scalar> {
    Seq::new(count as nat, |i: int| value)
}

/// Entries of a square matrix.
fn square(types: u32) -> (r: u64)
    ensures
        r == types * types,
{
    assert(types * types <= 0xffff_ffff * 0xffff_ffff) by (nonlinear_arith)
        requires
            types <= 0xffff_ffff,
    ;
    types as u64 * types as u64
}

fn filled(count: u64, value: Scalar) -> (r: Vec<Scalar>)
    ensures
        r@ == uniform(count as int, value),
{
    let mut values: Vec<Scalar> = Vec::new();
    let mut i: u64 = 0;
    while i < count
        invariant
            i <= count,
            values@ == uniform(i as int, value),
        decreases count - i,
    {
        values.push(value);
        i = i + 1;
        assert(values@ =~= uniform(i as int, value));
    }
    values
}

/// Everything that shapes the world.
#[derive(Clone, Debug)]
pub struct Simulation {
    pub count: u32,
    pub types: u32,
    pub seed: u32,
    pub epoch: u64,
    pub rules_revision: u64,
    pub rules: Vec<Scalar>,
    pub swirl: Vec<Scalar>,
    pub alignment: Vec<Scalar>,
    pub distance: Vec<Scalar>,
    pub behavior: Behavior,
    pub palette: usize,
    pub paused: bool,
    pub step: u64,
    pub speed: Scalar,
    pub radius: Scalar,
    pub strength: Scalar,
    pub damping: Scalar,
    pub exact: bool,
    pub clustered: bool,
    pub frame_dt: Scalar,
    pub trails: Trails,
    pub detection: Detection,
    pub evolution: Evolution,
}

impl Default for Simulation {
    fn default() -> (r: Self)
        ensures
            r.wf(),
            r.rules@ == random_matrix(32, 64),
            r.swirl@ == uniform(1024, zero()),
            r.alignment@ == uniform(1024, zero()),
            r.distance@ == uniform(1024, half()),
            r == (Simulation {
                count: 60_000,
                types: 32,
                seed: 42,
                epoch: 1,
                rules_revision: 1,
                behavior: Behavior::initial(),
                palette: 0,
                paused: false,
                step: 0,
                speed: one(),
                radius: scalar(0x41c0_0000),  // 24.0
                strength: scalar(0x42b4_0000),  // 90.0
                damping: two(),
                exact: false,
                clustered: true,
                frame_dt: dt(),
                trails: Trails::initial(),
                detection: Detection::initial(),
                evolution: Evolution::initial(),
                ..r
            }),
    {
        Simulation {
            count: 60_000,
            types: 32,
            seed: 42,
            epoch: 1,
            rules_revision: 1,
            rules: random_rules(32, 64),
            swirl: filled(1024, zero()),
            alignment: filled(1024, zero()),
            distance: filled(1024, half()),
            behavior: Behavior::default(),
            palette: 0,
            paused: false,
            step: 0,
            speed: one(),
            radius: scalar(0x41c0_0000),  // 24.0
            strength: scalar(0x42b4_0000),  // 90.0
            damping: two(),
            exact: false,
            clustered: true,
            frame_dt: dt(),
            trails: Trails::default(),
            detection: Detection::default(),
            evolution: Evolution::default(),
        }
    }
}

impl Simulation {
    /// Every matrix has an entry for each pair of types.
    pub open spec fn wf(self) -> bool {
        &&& self.rules@.len() == self.types * self.types
        &&& self.swirl@.len() == self.types * self.types
        &&& self.alignment@.len() == self.types * self.types
        &&& self.distance@.len() == self.types * self.types
    }

    /// The entries of one matrix.
    pub open spec fn entries(self, kind: RuleKind) -> Seq<Scalar> {
        match kind {
            RuleKind::Attraction => self.rules@,
            RuleKind::Swirl => self.swirl@,
            RuleKind::Alignment => self.alignment@,
            RuleKind::Distance => self.distance@,
        }
    }

    /// The world differs from `before` in the entries of its matrices at most,
    /// and says so by one more revision.
    pub open spec fn revises(self, before: Simulation) -> bool {
        self == (Simulation {
            rules: self.rules,
            swirl: self.swirl,
            alignment: self.alignment,
            distance: self.distance,
            rules_revision: (before.rules_revision + 1) as u64,
            ..before
        })
    }

    /// `revises`, and only the matrix of `kind` differs, being `entries` now.
    pub open spec fn replaces(self, before: Simulation, kind: RuleKind, entries: Seq<Scalar>) -> bool {
        &&& self.revises(before)
        &&& self.entries(kind) == entries
        &&& forall|other: RuleKind| other != kind ==> #[trigger] self.entries(other) == before.entries(other)
    }

    /// Where the entry of a pair of types lies in every matrix.
    pub fn entry(&self, a: u32, b: u32) -> (r: usize)
        requires
            self.wf(),
            a < self.types,
            b < self.types,
        ensures
            r == a * self.types + b,
            r < self.types * self.types,
    {
        let types: u32 = self.types;
        assert(a * types + b < types * types && a * types >= 0) by (nonlinear_arith)
            requires
                a < types,
                b < types,
        ;
        self.place(RuleKind::Attraction, a, b)
    }

    /// Where an entry of the matrix of `kind` lies.
    pub fn place(&self, kind: RuleKind, a: u32, b: u32) -> (r: usize)
        requires
            a * self.types + b < self.entries(kind).len(),
        ensures
            r == a * self.types + b,
    {
        assert(self.rules.len() <= usize::MAX && self.swirl.len() <= usize::MAX);
        assert(self.alignment.len() <= usize::MAX && self.distance.len() <= usize::MAX);
        a as usize * self.types as usize + b as usize
    }

    /// Fresh seeded attraction; no swirl, no alignment, middling distances.
    pub fn randomize(&mut self)
        requires
            old(self).rules_revision < u64::MAX,
        ensures
            final(self).revises(*old(self)),
            final(self).wf(),
            final(self).rules@ == random_matrix(old(self).types, old(self).seed),
            final(self).swirl@ == uniform(old(self).types * old(self).types, zero()),
            final(self).alignment@ == uniform(old(self).types * old(self).types, zero()),
            final(self).distance@ == uniform(old(self).types * old(self).types, half()),
    {
        let size: u64 = square(self.types);
        self.rules = random_rules(self.types, self.seed);
        self.swirl = filled(size, zero());
        self.alignment = filled(size, zero());
        self.distance = filled(size, half());
        self.rules_revision = self.rules_revision + 1;
    }

    pub fn matrix(&self, kind: RuleKind) -> (r: &Vec<Scalar>)
        ensures
            r@ == self.entries(kind),
    {
        match kind {
            RuleKind::Attraction => &self.rules,
            RuleKind::Swirl => &self.swirl,
            RuleKind::Alignment => &self.alignment,
            RuleKind::Distance => &self.distance,
        }
    }

    fn put_matrix(&mut self, kind: RuleKind, values: Vec<Scalar>)
        requires
            old(self).rules_revision < u64::MAX,
        ensures
            final(self).replaces(*old(self), kind, values@),
    {
        match kind {
            RuleKind::Attraction => {
                self.rules = values;
            },
            RuleKind::Swirl => {
                self.swirl = values;
            },
            RuleKind::Alignment => {
                self.alignment = values;
            },
            RuleKind::Distance => {
                self.distance = values;
            },
        }
        self.rules_revision = self.rules_revision + 1;
    }

    /// Sets one entry, moved into the bounds of its kind.
    pub fn set_rule(&mut self, kind: RuleKind, index: usize, value: Scalar)
        requires
            index < old(self).entries(kind).len(),
            old(self).rules_revision < u64::MAX,
        ensures
            final(self).replaces(
                *old(self),
                kind,
                old(self).entries(kind).update(
                    index as int,
                    value.clamp(kind.bounds().0, kind.bounds().1),
                ),
            ),
            old(self).wf() ==> final(self).wf(),
    {
        let (low, high): (Scalar, Scalar) = kind.bounds();
        let value: Scalar = value.clamp(low, high);
        match kind {
            RuleKind::Attraction => {
                self.rules.set(index, value);
            },
            RuleKind::Swirl => {
                self.swirl.set(index, value);
            },
            RuleKind::Alignment => {
                self.alignment.set(index, value);
            },
            RuleKind::Distance => {
                self.distance.set(index, value);
            },
        }
        self.rules_revision = self.rules_revision + 1;
        proof {
            if old(self).wf() {
                let entries = old(self).entries(kind).update(index as int, value);
                lemma_replaced_complete(*self, *old(self), kind, entries);
            }
        }
    }

    /// The entries that randomizing one matrix gives: seeded by the kind, and
    /// for distances moved into the range from 0.25 to 0.8.
    pub open spec fn random_entries(self, kind: RuleKind) -> Seq<Scalar> {
        let plain = random_matrix(self.types, self.seed ^ kind.salt());
        if kind == RuleKind::Distance {
            plain.map_values(|v: Scalar| random_distance(v))
        } else {
            plain
        }
    }

    pub fn randomize_matrix(&mut self, kind: RuleKind)
        requires
            old(self).rules_revision < u64::MAX,
        ensures
            final(self).replaces(*old(self), kind, old(self).random_entries(kind)),
            final(self).entries(kind).len() == old(self).types * old(self).types,
            forall|i: int|
                0 <= i < final(self).entries(kind).len() ==> {
                    let value = random_rule(old(self).seed ^ kind.salt(), i as u64);
                    #[trigger] final(self).entries(kind)[i] == if kind == RuleKind::Distance {
                        random_distance(value)
                    } else {
                        value
                    }
                },
            old(self).wf() ==> final(self).wf(),
    {
        let mut values: Vec<Scalar> = random_rules(self.types, self.seed ^ kind.salt());
        let ghost plain = values@;
        if kind == RuleKind::Distance {
            let mut i: usize = 0;
            while i < values.len()
                invariant
                    i <= values@.len(),
                    values@.len() == plain.len(),
                    forall|j: int| 0 <= j < i ==> values@[j] == random_distance(plain[j]),
                    forall|j: int| i <= j < plain.len() ==> values@[j] == plain[j],
                decreases values@.len() - i,
            {
                let value: Scalar = random_distance(values[i]);
                values.set(i, value);
                i = i + 1;
            }
            assert(values@ =~= plain.map_values(|v: Scalar| random_distance(v)));
        }
        self.put_matrix(kind, values);
        proof {
            if old(self).wf() {
                lemma_replaced_complete(*self, *old(self), kind, old(self).random_entries(kind));
            }
        }
    }

    /// Sets every entry of one matrix to zero.
    pub fn clear_matrix(&mut self, kind: RuleKind)
        requires
            old(self).rules_revision < u64::MAX,
        ensures
            final(self).replaces(
                *old(self),
                kind,
                uniform(old(self).entries(kind).len() as int, zero()),
            ),
            old(self).wf() ==> final(self).wf(),
    {
        let size: usize = self.matrix(kind).len();
        self.put_matrix(kind, filled(size as u64, zero()));
        proof {
            if old(self).wf() {
                lemma_replaced_complete(*self, *old(self), kind, uniform(size as int, zero()));
            }
        }
    }

    /// Cells along each side of the spatial grid: as many as fit, at least 3
    /// and at most 256.
    #[verifier::allow_in_spec]
    pub fn grid_side(&self) -> u32
        returns
            ({
                let cells = world().div(self.radius).floor().to_u32();
                if cells < 3 {
                    3u32
                } else if cells > 256 {
                    256u32
                } else {
                    cells
                }
            }),
    {
        let cells: u32 = world().div(self.radius).floor().to_u32();
        if cells < 3 {
            3
        } else if cells > 256 {
            256
        } else {
            cells
        }
    }
}

/// Replacing the entries of one matrix by as many keeps the world complete.
pub proof fn lemma_replaced_complete(after: Simulation, before: Simulation, kind: RuleKind, entries: Seq<Scalar>)
    requires
        before.wf(),
        after.replaces(before, kind, entries),
        entries.len() == before.types * before.types,
    ensures
        after.wf(),
{
    assert(after.entries(RuleKind::Attraction).len() == before.types * before.types);
    assert(after.entries(RuleKind::Swirl).len() == before.types * before.types);
    assert(after.entries(RuleKind::Alignment).len() == before.types * before.types);
    assert(after.entries(RuleKind::Distance).len() == before.types * before.types);
}

/// Moves a value between -1 and 1 into the range from 0.25 to 0.8.
#[verifier::allow_in_spec]
pub fn random_distance(value: Scalar) -> Scalar
    returns
        scalar(0x3e80_0000).add(value.add(one()).mul(scalar(0x3e8c_cccd))),  // 0.25, 0.275
{
    scalar(0x3e80_0000).add(value.add(one()).mul(scalar(0x3e8c_cccd)))  // 0.25, 0.275
}

/// How particles are drawn and where the camera looks.
#[derive(Clone, Copy, PartialEq, Eq, Structural, Debug)]
pub struct Appearance {
    pub size: Scalar,
    pub glow: Scalar,
    pub zoom: Scalar,
    pub pan: Vec2,
    pub aspect: Scalar,
}

impl Default for Appearance {
    fn default() -> (r: Self)
        ensures
            r == Appearance::initial(),
    {
        Appearance {
            size: half(),
            glow: scalar(0x3e80_0000),  // 0.25
            zoom: one(),
            pan: Vec2 { x: zero(), y: zero() },
            aspect: scalar(0x3fe3_8e39),  // 16.0 / 9.0
        }
    }
}

impl Appearance {
    pub open spec fn initial() -> Appearance {
        Appearance {
            size: half(),
            glow: scalar(0x3e80_0000),  // 0.25
            zoom: one(),
            pan: Vec2 { x: zero(), y: zero() },
            aspect: scalar(0x3fe3_8e39),  // 16.0 / 9.0
        }
    }

    /// What a scroll is raised to e by before it multiplies the zoom.
    #[verifier::allow_in_spec]
    pub fn zoom_exponent(scroll: Scalar) -> Scalar
        returns
            scroll.mul(scalar(0x3b03_126f)),  // 0.002
    {
        scroll.mul(scalar(0x3b03_126f))  // 0.002
    }

    /// Where a cursor lies from the middle of a viewport, in camera heights.
    #[verifier::allow_in_spec]
    pub fn camera_offset(self, cursor: Vec2, viewport: Vec2) -> Vec2
        returns
            cursor.div(viewport).scale(two()).sub(Vec2::splat(one())).mul(
                (Vec2 { x: self.aspect, y: scalar(0xbf80_0000) }),  // -1.0
            ),
    {
        cursor.div(viewport).scale(two()).sub(Vec2::splat(one())).mul(
            Vec2 { x: self.aspect, y: scalar(0xbf80_0000) },  // -1.0
        )
    }

    /// The zoom after growing by a factor, which stays between 0.25 and 20.
    #[verifier::allow_in_spec]
    pub fn grown_zoom(self, growth: Scalar) -> Scalar
        returns
            self.zoom.mul(growth).clamp(scalar(0x3e80_0000), scalar(0x41a0_0000)),  // 0.25, 20.0
    {
        self.zoom.mul(growth).clamp(scalar(0x3e80_0000), scalar(0x41a0_0000))  // 0.25, 20.0
    }

    /// The camera after a zoom, or as it was if the viewport is empty, something
    /// is not finite, or the zoom is at its limit.
    pub open spec fn zoomed(self, cursor: Vec2, viewport: Vec2, scroll: Scalar, growth: Scalar) -> Appearance {
        let zoom = self.grown_zoom(growth);
        let least = if viewport.x.lt(viewport.y) { viewport.x } else { viewport.y };
        if !viewport.finite() || least.le(zero()) || !cursor.finite() || !scroll.finite() || zoom.same(
            self.zoom,
        ) {
            self
        } else {
            let change = self.zoom.recip().sub(zoom.recip());
            let pan = self.pan.add(self.camera_offset(cursor, viewport).scale(change));
            Appearance { zoom, pan, ..self }.wrapped()
        }
    }

    /// Zooms about the cursor; `growth` is e to the power of the scroll's
    /// `zoom_exponent`. Cursor and viewport size must use the same units (logical
    /// pixels in the UI).
    pub fn zoom_at_cursor(&mut self, cursor: Vec2, viewport: Vec2, scroll: Scalar, growth: Scalar)
        ensures
            *final(self) == old(self).zoomed(cursor, viewport, scroll, growth),
    {
        let least: Scalar = if viewport.x.lt(viewport.y) {
            viewport.x
        } else {
            viewport.y
        };
        if !viewport.is_finite() || least.le(zero()) || !cursor.is_finite() || !scroll.is_finite() {
            return;
        }
        let zoom: Scalar = self.grown_zoom(growth);
        if zoom.same(self.zoom) {
            return;
        }
        let change: Scalar = self.zoom.recip().sub(zoom.recip());
        self.pan = self.pan.add(self.camera_offset(cursor, viewport).scale(change));
        self.zoom = zoom;
        self.wrap_pan();
    }

    /// The camera moved by whole periods into the tile around the origin.
    pub open spec fn wrapped(self) -> Appearance {
        let one = Vec2::splat(one());
        Appearance { pan: self.pan.add(one).rem_euclid(Vec2::splat(two())).sub(one), ..self }
    }

    /// Camera coordinates have period two, matching the shader's [-1, 1] world.
    pub fn wrap_pan(&mut self)
        ensures
            *final(self) == old(self).wrapped(),
    {
        let one: Vec2 = Vec2::splat(one());
        self.pan = self.pan.add(one).rem_euclid(Vec2::splat(two())).sub(one);
    }

    /// Half of what the camera sees, with a margin of one particle.
    #[verifier::allow_in_spec]
    pub fn extent(self) -> Vec2
        returns
            (Vec2 { x: self.aspect, y: one() }).shrink(self.zoom).add(
                Vec2::splat(self.size.mul(two()).div(world())),
            ),
    {
        Vec2 { x: self.aspect, y: one() }.shrink(self.zoom).add(
            Vec2::splat(self.size.mul(two()).div(world())),
        )
    }

    /// The world tile that holds a camera coordinate.
    #[verifier::allow_in_spec]
    pub fn tile_of(point: Vec2) -> IVec2
        returns
            point.add(Vec2::splat(one())).scale(half()).floor().to_ivec2(),
    {
        point.add(Vec2::splat(one())).scale(half()).floor().to_ivec2()
    }

    /// First visible tile and the number of tiles along each axis.
    pub open spec fn tiles(self) -> (IVec2, UVec2) {
        let first = Self::tile_of(self.pan.sub(self.extent()));
        let last = Self::tile_of(self.pan.add(self.extent()));
        (
            first,
            UVec2 {
                x: ((last.x - first.x + 1) % 0x1_0000_0000) as u32,
                y: ((last.y - first.y + 1) % 0x1_0000_0000) as u32,
            },
        )
    }

    /// First visible tile and the number of tiles along each axis. Includes the
    /// particle radius so soft discs crossing a seam remain intact.
    pub fn visible_tiles(&self) -> (r: (IVec2, UVec2))
        ensures
            r == self.tiles(),
    {
        let extent: Vec2 = self.extent();
        let first: IVec2 = Self::tile_of(self.pan.sub(extent));
        let last: IVec2 = Self::tile_of(self.pan.add(extent));
        (first, UVec2 { x: span(first.x, last.x), y: span(first.y, last.y) })
    }
}

/// Numbers from `first` to `last`, both included.
fn span(first: i32, last: i32) -> (r: u32)
    ensures
        r == (last - first + 1) % 0x1_0000_0000,
{
    let count: i64 = last as i64 - first as i64 + 1;
    if count < 0 {
        (count + 0x1_0000_0000) as u32
    } else if count == 0x1_0000_0000 {
        0
    } else {
        count as u32
    }
}

/// What the GPU last reported.
#[derive(Debug)]
pub struct GpuStatus {
    pub adapter: String,
    pub message: String,
    pub max_storage: u64,
    pub max_buffer: u64,
    pub max_dispatch: u32,
    pub generation: u64,
    pub steps_per_second: Scalar,
    /// Epoch and serial of the last batch of particles taken over.
    pub dump_ack: (u64, u64),
}

impl Default for GpuStatus {
    fn default() -> (r: Self)
        ensures
            r.adapter@ == ""@,
            r.message@ == ""@,
            r == (GpuStatus {
                adapter: r.adapter,
                message: r.message,
                max_storage: 0,
                max_buffer: 0,
                max_dispatch: 0,
                generation: 0,
                steps_per_second: zero(),
                dump_ack: (0, 0),
            }),
    {
        proof {
            reveal_strlit("");
        }
        GpuStatus {
            adapter: String::new(),
            message: String::new(),
            max_storage: 0,
            max_buffer: 0,
            max_dispatch: 0,
            generation: 0,
            steps_per_second: zero(),
            dump_ack: (0, 0),
        }
    }
}

impl GpuStatus {
    /// The largest buffer the device can bind.
    pub open spec fn limit(self) -> int {
        if self.max_storage < self.max_buffer {
            self.max_storage as int
        } else {
            self.max_buffer as int
        }
    }
}

/// Bytes of the colors and the four matrices.
pub open spec fn rule_bytes(types: u32) -> int {
    (types * types * 4 + types * 4) * 4
}

/// Bytes of all simulation buffers together. The flat allocation covers the
/// creature registry and the per-creature genome array.
pub open spec fn world_bytes(count: u32, types: u32) -> int {
    count * PARTICLE_BYTES + rule_bytes(types) + TRAIL_BYTES + 4_000_000
}

/// Why a world of this size cannot run on this device, if it cannot.
pub open spec fn count_error(count: u32, types: u32, status: GpuStatus) -> Option<Seq<char>> {
    if count == 0 || types == 0 {
        Some("Particle and type counts must be positive."@)
    } else if rule_bytes(types) > u64::MAX {
        Some("Type matrix size overflows the allocation limit."@)
    } else if status.limit() == 0 {
        Some("Waiting for the GPU to initialize."@)
    } else if count * 32 > status.limit() || rule_bytes(types) > status.limit() || TRAIL_BYTES
        > status.limit() || (count + 255) / 256 > status.max_dispatch {
        Some("Requested counts exceed this GPU's buffer or dispatch limits."@)
    } else if world_bytes(count, types) > SIMULATION_BUDGET {
        Some("Requested world exceeds the simulation memory budget. Reduce particles or types."@)
    } else {
        None
    }
}

/// Whether a world fits: a conservative working-set budget, in addition to the
/// device's binding limits. This leaves room for render targets, the desktop,
/// and in-flight old buffers.
pub fn validate_counts(count: u32, types: u32, status: &GpuStatus) -> (r: Result<(), String>)
    ensures
        r is Ok <==> count_error(count, types, *status) is None,
        r matches Err(message) ==> count_error(count, types, *status) == Some(message@),
{
    if count == 0 || types == 0 {
        return Err("Particle and type counts must be positive.".to_owned());
    }
    let entries: u128 = square(types) as u128;
    let rules: u128 = (entries * 4 + types as u128 * 4) * 4;
    if rules > u64::MAX as u128 {
        return Err("Type matrix size overflows the allocation limit.".to_owned());
    }
    let limit: u128 = if status.max_storage < status.max_buffer {
        status.max_storage as u128
    } else {
        status.max_buffer as u128
    };
    if limit == 0 {
        return Err("Waiting for the GPU to initialize.".to_owned());
    }
    if count as u128 * 32 > limit || rules > limit || TRAIL_BYTES as u128 > limit || (count as u64
        + 255) / 256 > status.max_dispatch as u64 {
        return Err("Requested counts exceed this GPU's buffer or dispatch limits.".to_owned());
    }
    let particles: u128 = PARTICLE_BYTES as u128;
    assert(count * particles <= 0xffff_ffff * 112) by (nonlinear_arith)
        requires
            count <= 0xffff_ffff,
            particles == 112,
    ;
    if count as u128 * particles + rules + TRAIL_BYTES as u128 + 4_000_000
        > SIMULATION_BUDGET as u128 {
        return Err(
            "Requested world exceeds the simulation memory budget. Reduce particles or types.".to_owned(),
        );
    }
    Ok(())
}

/// A color of eight bits per channel.
#[derive(Clone, Copy, PartialEq, Eq, Structural, Debug)]
pub struct Rgb {
    pub red: u8,
    pub green: u8,
    pub blue: u8,
}

/// The color of a type before conversion to linear light: an anchor of the
/// palette, or a perceptual blend of two neighboring anchors.
#[derive(Clone, Copy, PartialEq, Eq, Structural, Debug)]
pub enum PaletteColor {
    Anchor(Rgb),
    Blend { from: Rgb, to: Rgb, fraction: Scalar },
}

/// Splits 0xRRGGBB into channels.
#[verifier::allow_in_spec]
pub fn unpack(hex: u32) -> Rgb
    returns
        (Rgb {
            red: (hex / 0x1_0000 % 256) as u8,
            green: (hex / 0x100 % 256) as u8,
            blue: (hex % 256) as u8,
        }),
{
    Rgb {
        red: (hex / 0x1_0000 % 256) as u8,
        green: (hex / 0x100 % 256) as u8,
        blue: (hex % 256) as u8,
    }
}

/// The color of anchor `index`, counted around the palette.
pub open spec fn anchor(palette: usize, index: int) -> Rgb {
    unpack(PALETTES[palette as int].1[index % 8])
}

/// Where type `index` lies on a palette stretched over all types.
#[verifier::allow_in_spec]
pub fn palette_position(index: u32, types: u32) -> Scalar
    returns
        Scalar::from_u32(index).mul(scalar(0x4100_0000)).div(Scalar::from_u32(types)),  // 8.0
{
    Scalar::from_u32(index).mul(scalar(0x4100_0000)).div(Scalar::from_u32(types))  // 8.0
}

/// The color of a type. Up to eight types use the anchors themselves; more are
/// spread evenly around the palette.
pub open spec fn type_color(palette: usize, index: u32, types: u32) -> PaletteColor {
    if types <= 8 {
        PaletteColor::Anchor(anchor(palette, index as int))
    } else {
        let t = palette_position(index, types);
        PaletteColor::Blend {
            from: anchor(palette, t.to_u32() as int),
            to: anchor(palette, t.to_u32() + 1),
            fraction: t.fract(),
        }
    }
}

pub fn palette_color(palette: usize, index: u32, types: u32) -> (r: PaletteColor)
    requires
        palette < 4,
    ensures
        r == type_color(palette, index, types),
{
    let anchors: [u32; 8] = PALETTES[palette].1;
    if types <= 8 {
        return PaletteColor::Anchor(unpack(anchors[index as usize % 8]));
    }
    let t: Scalar = palette_position(index, types);
    let place: u32 = t.to_u32();
    PaletteColor::Blend {
        from: unpack(anchors[(place % 8) as usize]),
        to: unpack(anchors[((place as u64 + 1) % 8) as usize]),
        fraction: t.fract(),
    }
}

/// The colors of all types of a world.
pub fn type_colors(sim: &Simulation) -> (r: Vec<PaletteColor>)
    requires
        sim.palette < 4,
    ensures
        r@ == Seq::new(sim.types as nat, |i: int| type_color(sim.palette, i as u32, sim.types)),
{
    let mut colors: Vec<PaletteColor> = Vec::new();
    let mut i: u32 = 0;
    let ghost all = Seq::new(sim.types as nat, |i: int| type_color(sim.palette, i as u32, sim.types));
    while i < sim.types
        invariant
            i <= sim.types,
            sim.palette < 4,
            all == Seq::new(sim.types as nat, |i: int| type_color(sim.palette, i as u32, sim.types)),
            colors@ == all.take(i as int),
        decreases sim.types - i,
    {
        colors.push(palette_color(sim.palette, i, sim.types));
        i = i + 1;
        assert(colors@ =~= all.take(i as int));
    }
    assert(colors@ =~= all);
    colors
}

/// A color in linear light.
#[derive(Clone, Copy, PartialEq, Eq, Structural, Debug)]
pub struct LinearColor {
    pub red: Scalar,
    pub green: Scalar,
    pub blue: Scalar,
}

impl LinearColor {
    /// The color without what blending took below zero.
    #[verifier::allow_in_spec]
    pub fn clipped(self) -> LinearColor
        returns
            (LinearColor {
                red: self.red.max(zero()),
                green: self.green.max(zero()),
                blue: self.blue.max(zero()),
            }),
    {
        LinearColor {
            red: self.red.max(zero()),
            green: self.green.max(zero()),
            blue: self.blue.max(zero()),
        }
    }
}

/// The light of a palette color, given its conversion to linear light: an anchor
/// as it is, a blend clipped.
#[verifier::allow_in_spec]
pub fn palette_light(color: PaletteColor, converted: LinearColor) -> LinearColor
    returns
        (match color {
            PaletteColor::Anchor(_) => converted,
            PaletteColor::Blend { .. } => converted.clipped(),
        }),
{
    match color {
        PaletteColor::Anchor(_) => converted,
        PaletteColor::Blend { .. } => converted.clipped(),
    }
}

/// No blend gives negative light, whatever the conversion gave.
pub proof fn lemma_blends_not_negative(color: PaletteColor, converted: LinearColor)
    requires
        color is Blend,
    ensures
        ({
            let light = palette_light(color, converted);
            zero().le(light.red) && zero().le(light.green) && zero().le(light.blue)
        }),
{
}

/// Colors as opaque RGBA, one after the other.
pub open spec fn color_words(colors: Seq<LinearColor>) -> Seq<Scalar> {
    Seq::new(
        4 * colors.len(),
        |i: int|
            {
                let color = colors[i / 4];
                if i % 4 == 0 {
                    color.red
                } else if i % 4 == 1 {
                    color.green
                } else if i % 4 == 2 {
                    color.blue
                } else {
                    one()
                }
            },
    )
}

/// GPU layout: RGBA colors, then attraction, swirl, alignment, distance matrices.
pub open spec fn type_words(sim: Simulation, colors: Seq<LinearColor>) -> Seq<Scalar> {
    color_words(colors) + sim.rules@ + sim.swirl@ + sim.alignment@ + sim.distance@
}

/// The colors of all types, in linear light, and the matrices as the GPU reads them.
pub fn type_data(sim: &Simulation, colors: &Vec<LinearColor>) -> (r: Vec<Scalar>)
    ensures
        r@ == type_words(*sim, colors@),
{
    let mut data: Vec<Scalar> = Vec::new();
    let mut i: usize = 0;
    while i < colors.len()
        invariant
            i <= colors@.len(),
            data@ == color_words(colors@.take(i as int)),
        decreases colors@.len() - i,
    {
        let color: LinearColor = colors[i];
        data.push(color.red);
        data.push(color.green);
        data.push(color.blue);
        data.push(one());
        i = i + 1;
        assert(data@ =~= color_words(colors@.take(i as int)));
    }
    assert(colors@.take(i as int) =~= colors@);
    copy_onto(&mut data, &sim.rules);
    copy_onto(&mut data, &sim.swirl);
    copy_onto(&mut data, &sim.alignment);
    copy_onto(&mut data, &sim.distance);
    data
}

fn copy_onto(data: &mut Vec<Scalar>, more: &Vec<Scalar>)
    ensures
        final(data)@ == old(data)@ + more@,
{
    let mut i: usize = 0;
    let ghost before = data@;
    while i < more.len()
        invariant
            i <= more@.len(),
            data@ == before + more@.take(i as int),
        decreases more@.len() - i,
    {
        data.push(more[i]);
        i = i + 1;
        assert(data@ =~= before + more@.take(i as int));
    }
    assert(more@.take(i as int) =~= more@);
}

} // verus!
