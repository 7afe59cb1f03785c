//! Infers what creatures the current rule set should be able to hold together.
//!
//! Nothing here reads the simulation. It reads the rule matrices and derives the
//! geometry a stable body would have to have, which gives the detector its
//! thresholds (bond radius, minimum size) and the outline its stamp radius and
//! isosurface level. Treat the sizes as priors that scale the detector, not as a
//! forecast of what the simulation will actually produce.
use vstd::prelude::*;

use crate::model::{core_fraction, world, Simulation};
use crate::scalar::{half, one, scalar, two, zero, Scalar};

verus! {

/// A set of types the rules let cohere, plus the geometry implied by that set.
#[derive(Clone, Debug)]
pub struct CreatureTemplate {
    /// Types that bond into one body, ascending.
    pub types: Vec<u32>,
    /// Rest separation of a bonded pair, in world units.
    pub spacing: Scalar,
    /// Characteristic body radius, in world units.
    pub expected_radius: Scalar,
    /// Per-type minimum: every member type of the body must hold at least this
    /// many particles or the cluster is treated as debris rather than a creature.
    pub min_per_type: u32,
}

/// Mutual attraction up to this is treated as no bond: 0.15. Rule values span
/// [-1, 1] and a pair contributes both directions, so this is a deliberately low
/// bar: the detector would rather over-group and be filtered by size than miss a
/// body.
#[verifier::allow_in_spec]
pub fn bond_threshold() -> Scalar
    returns
        scalar(0x3e19_999a),  // 0.15
{
    scalar(0x3e19_999a)  // 0.15
}

impl Simulation {
    /// Attraction that type `a` feels toward type `b`.
    pub open spec fn rule(self, a: int, b: int) -> Scalar {
        self.rules@[a * self.types + b]
    }

    /// Distance that type `a` keeps from type `b`.
    pub open spec fn separation(self, a: int, b: int) -> Scalar {
        self.distance@[a * self.types + b]
    }

    pub open spec fn strength_of_bond(self, a: int, b: int) -> Scalar {
        self.rule(a, b).add(self.rule(b, a))
    }

    /// The preferred separation for a pair as a fraction of the interaction radius,
    /// if preferred distances are enabled and either direction sets one.
    pub open spec fn preferred(self, a: int, b: int) -> Option<Scalar> {
        let there = self.separation(a, b);
        let back = self.separation(b, a);
        if !self.behavior.preferred_enabled {
            None
        } else if zero().lt(there) && zero().lt(back) {
            Some(held(there).add(held(back)).div(two()))
        } else if zero().lt(there) {
            Some(held(there).div(one()))
        } else if zero().lt(back) {
            Some(held(back).div(one()))
        } else {
            None
        }
    }

    /// Whether a pair holds together at rest.
    pub open spec fn bonded(self, a: int, b: int) -> bool {
        self.preferred(a, b) is Some || bond_threshold().lt(self.strength_of_bond(a, b))
    }

    pub open spec fn spacing_of_pair(self, a: int, b: int) -> Scalar {
        match self.preferred(a, b) {
            Some(distance) => distance.mul(self.radius),
            None => core_fraction().mul(self.radius),
        }
    }
}

/// A distance as the force uses it: at least 0.2, at most 0.95.
#[verifier::allow_in_spec]
pub fn held(distance: Scalar) -> Scalar
    returns
        distance.clamp(scalar(0x3e4c_cccd), scalar(0x3f73_3333)),  // 0.2, 0.95
{
    distance.clamp(scalar(0x3e4c_cccd), scalar(0x3f73_3333))  // 0.2, 0.95
}

/// Every matrix is directional — row is the affected type, column its neighbor —
/// so a bond needs both directions to pull. A pair where one side attracts and the
/// other flees is a chase relationship: it produces motion, not a body, and
/// summing the two directions is what rejects it.
pub fn bond_strength(sim: &Simulation, a: u32, b: u32) -> (r: Scalar)
    requires
        sim.wf(),
        a < sim.types,
        b < sim.types,
    ensures
        r == sim.strength_of_bond(a as int, b as int),
{
    sim.rules[sim.entry(a, b)].add(sim.rules[sim.entry(b, a)])
}

/// Whether a pair holds together at rest.
///
/// Preferred distances override the attraction curve entirely: the preferred
/// force is attractive above its zero whatever the attraction coefficient says, so
/// an active preferred distance bonds the pair on its own.
pub fn bonds(sim: &Simulation, a: u32, b: u32) -> (r: bool)
    requires
        sim.wf(),
        a < sim.types,
        b < sim.types,
    ensures
        r == sim.bonded(a as int, b as int),
{
    if preferred_distance(sim, a, b).is_some() {
        return true;
    }
    bond_threshold().lt(bond_strength(sim, a, b))
}

/// The preferred separation for a pair.
///
/// The two directions can disagree, in which case no single separation satisfies
/// both and the body settles between them; the mean is the best cheap estimate.
pub fn preferred_distance(sim: &Simulation, a: u32, b: u32) -> (r: Option<Scalar>)
    requires
        sim.wf(),
        a < sim.types,
        b < sim.types,
    ensures
        r == sim.preferred(a as int, b as int),
{
    if !sim.behavior.preferred_enabled {
        return None;
    }
    let there: Scalar = sim.distance[sim.entry(a, b)];
    let back: Scalar = sim.distance[sim.entry(b, a)];
    if zero().lt(there) {
        if zero().lt(back) {
            Some(held(there).add(held(back)).div(two()))
        } else {
            Some(held(there).div(one()))
        }
    } else if zero().lt(back) {
        Some(held(back).div(one()))
    } else {
        None
    }
}

/// Rest separation of a bonded pair, in world units.
///
/// The force is repulsive below the core fraction and attractive above it, and
/// crosses zero exactly at the boundary, so an attraction-only pair rests there.
/// This is exact rather than a numerical solve. An active preferred distance
/// moves the zero to its own separation.
pub fn pair_spacing(sim: &Simulation, a: u32, b: u32) -> (r: Scalar)
    requires
        sim.wf(),
        a < sim.types,
        b < sim.types,
    ensures
        r == sim.spacing_of_pair(a as int, b as int),
{
    match preferred_distance(sim, a, b) {
        Some(distance) => distance.mul(sim.radius),
        None => core_fraction().mul(sim.radius),
    }
}

impl Simulation {
    /// A chain of `bonds` many bonds leads from type `a` to type `b`.
    pub open spec fn chained(self, a: int, b: int, bonds: nat) -> bool
        decreases bonds,
    {
        if bonds == 0 {
            a == b
        } else {
            exists|c: int| 0 <= c < self.types && self.chained(a, c, (bonds - 1) as nat) && #[trigger] self.bonded(c, b)
        }
    }

    /// Some chain of bonds leads from type `a` to type `b`.
    pub open spec fn linked(self, a: int, b: int) -> bool {
        exists|bonds: nat| self.chained(a, b, bonds)
    }

    /// No type linked to `a` comes before it.
    pub open spec fn leads(self, a: int) -> bool {
        forall|b: int| 0 <= b < a ==> !self.linked(a, b)
    }

    /// The types below `limit` that are linked to `a`, ascending.
    pub open spec fn members(self, a: int, limit: nat) -> Seq<u32>
        decreases limit,
    {
        if limit == 0 {
            Seq::empty()
        } else if self.linked(a, limit - 1) {
            self.members(a, (limit - 1) as nat).push((limit - 1) as u32)
        } else {
            self.members(a, (limit - 1) as nat)
        }
    }

    /// All members of every body whose first type is below `limit`.
    pub open spec fn bodies(self, limit: nat) -> Seq<Seq<u32>>
        decreases limit,
    {
        if limit == 0 {
            Seq::empty()
        } else if self.leads(limit - 1) {
            self.bodies((limit - 1) as nat).push(self.members(limit - 1, self.types as nat))
        } else {
            self.bodies((limit - 1) as nat)
        }
    }
}

/// Bonds are mutual.
pub proof fn lemma_bonds_mutual(sim: Simulation, a: int, b: int)
    ensures
        sim.bonded(a, b) == sim.bonded(b, a),
        sim.preferred(a, b) == sim.preferred(b, a),
        sim.strength_of_bond(a, b) == sim.strength_of_bond(b, a),
        sim.spacing_of_pair(a, b) == sim.spacing_of_pair(b, a),
{
    crate::order::lemma_add_commutes(sim.rule(a, b), sim.rule(b, a));
    crate::order::lemma_add_commutes(held(sim.separation(a, b)), held(sim.separation(b, a)));
}

proof fn lemma_chain_joined(sim: Simulation, a: int, b: int, c: int, first: nat, second: nat)
    requires
        0 <= b < sim.types,
        sim.chained(a, b, first),
        sim.chained(b, c, second),
    ensures
        sim.chained(a, c, first + second),
    decreases second,
{
    if second > 0 {
        let d = choose|d: int|
            0 <= d < sim.types && sim.chained(b, d, (second - 1) as nat) && #[trigger] sim.bonded(d, c);
        lemma_chain_joined(sim, a, b, d, first, (second - 1) as nat);
        assert(sim.chained(a, d, (first + second - 1) as nat));
    }
}

proof fn lemma_chain_reversed(sim: Simulation, a: int, b: int, bonds: nat)
    requires
        0 <= a < sim.types,
        0 <= b < sim.types,
        sim.chained(a, b, bonds),
    ensures
        sim.chained(b, a, bonds),
    decreases bonds,
{
    if bonds > 0 {
        let c = choose|c: int|
            0 <= c < sim.types && sim.chained(a, c, (bonds - 1) as nat) && #[trigger] sim.bonded(c, b);
        lemma_chain_reversed(sim, a, c, (bonds - 1) as nat);
        lemma_bonds_mutual(sim, c, b);
        assert(sim.chained(b, b, 0));
        assert(sim.chained(b, c, 1)) by {
            assert(sim.chained(b, b, (1 - 1) as nat));
        }
        lemma_chain_joined(sim, b, c, a, 1, (bonds - 1) as nat);
    }
}

/// Being linked is an equivalence: bodies neither overlap nor leave a type out.
pub proof fn lemma_linked_equivalence(sim: Simulation, a: int, b: int, c: int)
    requires
        0 <= a < sim.types,
        0 <= b < sim.types,
        0 <= c < sim.types,
    ensures
        sim.linked(a, a),
        sim.linked(a, b) ==> sim.linked(b, a),
        sim.linked(a, b) && sim.linked(b, c) ==> sim.linked(a, c),
        sim.bonded(a, b) ==> sim.linked(a, b),
{
    assert(sim.chained(a, a, 0));
    if sim.linked(a, b) {
        let first = choose|bonds: nat| sim.chained(a, b, bonds);
        lemma_chain_reversed(sim, a, b, first);
        if sim.linked(b, c) {
            let second = choose|bonds: nat| sim.chained(b, c, bonds);
            lemma_chain_joined(sim, a, b, c, first, second);
        }
    }
    if sim.bonded(a, b) {
        assert(sim.chained(a, a, (1 - 1) as nat));
        assert(sim.chained(a, b, 1));
    }
}

/// Where the pointers from `x` end.
spec fn top(parent: Seq<u32>, x: int) -> int
    decreases x,
{
    if 0 <= x < parent.len() && parent[x] < x {
        top(parent, parent[x] as int)
    } else {
        x
    }
}

/// A forest whose pointers lead down, along links only.
spec fn forest(sim: Simulation, parent: Seq<u32>) -> bool {
    &&& parent.len() == sim.types
    &&& forall|x: int| 0 <= x < parent.len() ==> #[trigger] parent[x] <= x && sim.linked(x, parent[x] as int)
}

proof fn lemma_top(sim: Simulation, parent: Seq<u32>, x: int)
    requires
        forest(sim, parent),
        0 <= x < parent.len(),
    ensures
        0 <= top(parent, x) <= x,
        parent[top(parent, x)] == top(parent, x),
        sim.linked(x, top(parent, x)),
    decreases x,
{
    if parent[x] < x {
        lemma_top(sim, parent, parent[x] as int);
        lemma_linked_equivalence(sim, x, parent[x] as int, top(parent, x));
    } else {
        lemma_linked_equivalence(sim, x, x, x);
    }
}

/// Shortening a path moves no end.
proof fn lemma_halved(sim: Simulation, parent: Seq<u32>, x: int)
    requires
        forest(sim, parent),
        0 <= x < parent.len(),
    ensures
        forest(sim, parent.update(x, parent[parent[x] as int])),
        forall|y: int| 0 <= y < parent.len() ==> #[trigger] top(parent.update(x, parent[parent[x] as int]), y) == top(parent, y),
{
    let next = parent[x] as int;
    let after = parent.update(x, parent[next]);
    assert(parent[next] <= next);
    lemma_linked_equivalence(sim, x, next, parent[next] as int);
    assert forall|y: int| 0 <= y < parent.len() implies #[trigger] top(after, y) == top(parent, y) by {
        lemma_halved_at(sim, parent, x, y);
    }
}

proof fn lemma_halved_at(sim: Simulation, parent: Seq<u32>, x: int, y: int)
    requires
        forest(sim, parent),
        0 <= x < parent.len(),
        0 <= y < parent.len(),
    ensures
        top(parent.update(x, parent[parent[x] as int]), y) == top(parent, y),
    decreases y,
{
    let next = parent[x] as int;
    let after = parent.update(x, parent[next]);
    assert(parent[next] <= next);
    assert(parent[y] <= y);
    assert(after[y] <= y);
    reveal_with_fuel(top, 3);
    if after[y] < y {
        lemma_halved_at(sim, parent, x, after[y] as int);
    }
}

/// Pointing one end at another joins the two trees and no others.
proof fn lemma_joined(sim: Simulation, parent: Seq<u32>, high: int, low: int)
    requires
        forest(sim, parent),
        0 <= low < high < parent.len(),
        parent[high] == high,
        parent[low] == low,
        sim.linked(high, low),
    ensures
        forest(sim, parent.update(high, low as u32)),
        forall|y: int|
            0 <= y < parent.len() ==> #[trigger] top(parent.update(high, low as u32), y) == if top(parent, y) == high {
                low
            } else {
                top(parent, y)
            },
{
    let after = parent.update(high, low as u32);
    assert forall|y: int| 0 <= y < parent.len() implies #[trigger] top(after, y) == if top(parent, y) == high {
        low
    } else {
        top(parent, y)
    } by {
        lemma_joined_at(sim, parent, high, low, y);
    }
}

proof fn lemma_joined_at(sim: Simulation, parent: Seq<u32>, high: int, low: int, y: int)
    requires
        forest(sim, parent),
        0 <= low < high < parent.len(),
        parent[high] == high,
        parent[low] == low,
        0 <= y < parent.len(),
    ensures
        top(parent.update(high, low as u32), y) == if top(parent, y) == high {
            low
        } else {
            top(parent, y)
        },
    decreases y,
{
    let after = parent.update(high, low as u32);
    assert(parent[y] <= y);
    reveal_with_fuel(top, 3);
    if y != high && parent[y] < y {
        lemma_joined_at(sim, parent, high, low, parent[y] as int);
    }
}

/// The end of the pointers from `x`; every pointer passed on the way skips its
/// successor from now on.
fn root(parent: &mut Vec<u32>, x: u32, Ghost(sim): Ghost<Simulation>) -> (r: u32)
    requires
        forest(sim, old(parent)@),
        x < old(parent)@.len(),
    ensures
        r == top(old(parent)@, x as int),
        forest(sim, final(parent)@),
        forall|y: int| 0 <= y < old(parent)@.len() ==> #[trigger] top(final(parent)@, y) == top(old(parent)@, y),
{
    let ghost before = parent@;
    let mut x: u32 = x;
    let ghost start = x as int;
    while parent[x as usize] != x
        invariant
            forest(sim, parent@),
            parent@.len() == before.len(),
            x < parent@.len(),
            top(before, start) == top(parent@, x as int),
            forall|y: int| 0 <= y < before.len() ==> #[trigger] top(parent@, y) == top(before, y),
        decreases x,
    {
        let ghost now = parent@;
        let next: u32 = parent[x as usize];
        assert(now[x as int] <= x && now[next as int] <= next);
        let skip: u32 = parent[next as usize];
        proof {
            lemma_halved(sim, now, x as int);
            lemma_top(sim, now, x as int);
        }
        parent.set(x as usize, skip);
        proof {
            reveal_with_fuel(top, 2);
            assert(top(now, x as int) == top(now, next as int));
            assert(top(now, next as int) == top(now, skip as int));
            assert(top(parent@, skip as int) == top(now, skip as int));
        }
        x = skip;
    }
    x
}

/// Every bonded pair that comes before the pair `a`, `b` is in one tree.
spec fn settled(sim: Simulation, parent: Seq<u32>, a: int, b: int) -> bool {
    forall|i: int, j: int|
        0 <= i <= j < sim.types && (i < a || (i == a && j < b)) && #[trigger] sim.bonded(i, j)
            ==> top(parent, i) == top(parent, j)
}

/// Once every bond is in its tree, the trees are the bodies.
proof fn lemma_trees_are_bodies(sim: Simulation, parent: Seq<u32>, x: int, y: int)
    requires
        forest(sim, parent),
        settled(sim, parent, sim.types as int, 0),
        0 <= x < sim.types,
        0 <= y < sim.types,
    ensures
        sim.linked(x, y) <==> top(parent, x) == top(parent, y),
{
    if top(parent, x) == top(parent, y) {
        lemma_top(sim, parent, x);
        lemma_top(sim, parent, y);
        lemma_linked_equivalence(sim, y, top(parent, y), y);
        lemma_linked_equivalence(sim, x, top(parent, x), y);
    }
    if sim.linked(x, y) {
        let bonds = choose|bonds: nat| sim.chained(x, y, bonds);
        lemma_chain_in_tree(sim, parent, x, y, bonds);
    }
}

proof fn lemma_chain_in_tree(sim: Simulation, parent: Seq<u32>, x: int, y: int, bonds: nat)
    requires
        settled(sim, parent, sim.types as int, 0),
        0 <= x < sim.types,
        0 <= y < sim.types,
        sim.chained(x, y, bonds),
    ensures
        top(parent, x) == top(parent, y),
    decreases bonds,
{
    if bonds > 0 {
        let z = choose|z: int|
            0 <= z < sim.types && sim.chained(x, z, (bonds - 1) as nat) && #[trigger] sim.bonded(z, y);
        lemma_chain_in_tree(sim, parent, x, z, (bonds - 1) as nat);
        lemma_bonds_mutual(sim, z, y);
    }
}

/// Puts two linked types into one tree, whose root is the lower of the two roots.
fn join(parent: &mut Vec<u32>, a: u32, b: u32, Ghost(sim): Ghost<Simulation>)
    requires
        forest(sim, old(parent)@),
        a < sim.types,
        b < sim.types,
        sim.linked(a as int, b as int),
    ensures
        forest(sim, final(parent)@),
        top(final(parent)@, a as int) == top(final(parent)@, b as int),
        forall|x: int, y: int|
            0 <= x < sim.types && 0 <= y < sim.types && top(old(parent)@, x) == top(old(parent)@, y)
                ==> #[trigger] top(final(parent)@, x) == #[trigger] top(final(parent)@, y),
{
    let ra: u32 = root(parent, a, Ghost(sim));
    let rb: u32 = root(parent, b, Ghost(sim));
    if ra != rb {
        proof {
            let (x, y) = (a as int, b as int);
            let (rx, ry) = (ra as int, rb as int);
            lemma_top(sim, parent@, x);
            lemma_top(sim, parent@, y);
            lemma_linked_equivalence(sim, x, rx, x);
            lemma_linked_equivalence(sim, rx, x, y);
            lemma_linked_equivalence(sim, rx, y, ry);
            lemma_linked_equivalence(sim, rx, ry, rx);
            if ra < rb {
                lemma_joined(sim, parent@, ry, rx);
            } else {
                lemma_joined(sim, parent@, rx, ry);
            }
        }
        if ra < rb {
            parent.set(rb as usize, ra);
        } else {
            parent.set(ra as usize, rb);
        }
    }
}

/// Joins every bonded pair.
fn bond_forest(sim: &Simulation) -> (parent: Vec<u32>)
    requires
        sim.wf(),
    ensures
        forest(*sim, parent@),
        settled(*sim, parent@, sim.types as int, 0),
{
    let types: u32 = sim.types;
    let mut parent: Vec<u32> = Vec::new();
    let mut x: u32 = 0;
    while x < types
        invariant
            x <= types,
            types == sim.types,
            parent@.len() == x,
            forall|y: int| 0 <= y < x ==> parent@[y] == y,
        decreases types - x,
    {
        parent.push(x);
        x = x + 1;
    }
    proof {
        assert forall|y: int| 0 <= y < parent@.len() implies #[trigger] parent@[y] <= y && sim.linked(
            y,
            parent@[y] as int,
        ) by {
            lemma_linked_equivalence(*sim, y, y, y);
        }
    }
    let mut a: u32 = 0;
    while a < types
        invariant
            a <= types,
            types == sim.types,
            sim.wf(),
            forest(*sim, parent@),
            settled(*sim, parent@, a as int, 0),
        decreases types - a,
    {
        let mut b: u32 = a;
        while b < types
            invariant
                a <= b <= types,
                a < types,
                types == sim.types,
                sim.wf(),
                forest(*sim, parent@),
                settled(*sim, parent@, a as int, b as int),
            decreases types - b,
        {
            if bonds(sim, a, b) {
                proof {
                    lemma_linked_equivalence(*sim, a as int, b as int, b as int);
                }
                join(&mut parent, a, b, Ghost(*sim));
            }
            b = b + 1;
        }
        a = a + 1;
    }
    parent
}

/// The roots of the trees are the first types of the bodies.
proof fn lemma_roots_lead(sim: Simulation, parent: Seq<u32>, x: int)
    requires
        forest(sim, parent),
        settled(sim, parent, sim.types as int, 0),
        0 <= x < sim.types,
    ensures
        sim.leads(x) <==> top(parent, x) == x,
{
    lemma_top(sim, parent, x);
    assert forall|b: int| 0 <= b < x && top(parent, x) == x implies !sim.linked(x, b) by {
        lemma_top(sim, parent, b);
        lemma_trees_are_bodies(sim, parent, x, b);
    }
}

/// Type sets the bond graph connects, as ascending lists.
pub fn compositions(sim: &Simulation) -> (r: Vec<Vec<u32>>)
    requires
        sim.wf(),
    ensures
        r@.map_values(|g: Vec<u32>| g@) == sim.bodies(sim.types as nat),
{
    let types: u32 = sim.types;
    let mut parent: Vec<u32> = bond_forest(sim);
    let mut groups: Vec<Vec<u32>> = Vec::new();
    let mut x: u32 = 0;
    while x < types
        invariant
            x <= types,
            groups@.len() == x,
            forall|g: int| 0 <= g < x ==> (#[trigger] groups@[g])@ == Seq::<u32>::empty(),
        decreases types - x,
    {
        groups.push(Vec::new());
        x = x + 1;
    }
    let mut a: u32 = 0;
    while a < types
        invariant
            a <= types,
            types == sim.types,
            forest(*sim, parent@),
            settled(*sim, parent@, types as int, 0),
            groups@.len() == types,
            forall|g: int|
                0 <= g < types ==> (#[trigger] groups@[g])@ == if sim.leads(g) {
                    sim.members(g, a as nat)
                } else {
                    Seq::empty()
                },
        decreases types - a,
    {
        let ghost before = groups@;
        let ghost trees = parent@;
        let r: u32 = root(&mut parent, a, Ghost(*sim));
        proof {
            assert forall|i: int, j: int|
                0 <= i <= j < sim.types && #[trigger] sim.bonded(i, j) implies top(parent@, i) == top(
                parent@,
                j,
            ) by {
                assert(top(trees, i) == top(trees, j));
            }
            lemma_top(*sim, trees, a as int);
        }
        groups[r as usize].push(a);
        proof {
            assert forall|g: int| 0 <= g < types implies (#[trigger] groups@[g])@ == if sim.leads(g) {
                sim.members(g, (a + 1) as nat)
            } else {
                Seq::empty()
            } by {
                lemma_roots_lead(*sim, trees, g);
                lemma_top(*sim, trees, g);
                lemma_trees_are_bodies(*sim, trees, g, a as int);
                assert(before[g]@ == if sim.leads(g) {
                    sim.members(g, a as nat)
                } else {
                    Seq::empty()
                });
            }
        }
        a = a + 1;
    }
    let ghost all = groups@;
    let mut i: usize = 0;
    let ghost mut seen: int = 0;
    while i < groups.len()
        invariant
            types == sim.types,
            0 <= seen <= types,
            all.len() == types,
            i <= groups@.len(),
            i <= seen,
            groups@.skip(i as int) == all.skip(seen),
            groups@.take(i as int).map_values(|g: Vec<u32>| g@) == sim.bodies(seen as nat),
            forall|g: int|
                0 <= g < types ==> (#[trigger] all[g])@ == if sim.leads(g) {
                    sim.members(g, types as nat)
                } else {
                    Seq::empty()
                },
        decreases groups@.len() - i,
    {
        let ghost before = groups@;
        proof {
            assert(groups@.skip(i as int).len() == groups@.len() - i);
            assert(all.skip(seen).len() == types - seen);
            assert(groups@[i as int] == groups@.skip(i as int)[0]);
            assert(all[seen] == all.skip(seen)[0]);
        }
        if groups[i].len() == 0 {
            let removed: Vec<u32> = groups.remove(i);
            proof {
                if sim.leads(seen) {
                    lemma_member_of_itself(*sim, seen, types as nat);
                }
                assert(groups@.take(i as int) =~= before.take(i as int));
                assert(groups@.skip(i as int) =~= before.skip(i as int).skip(1));
                assert(all.skip(seen).skip(1) =~= all.skip(seen + 1));
            }
        } else {
            i = i + 1;
            proof {
                assert(groups@.take(i as int).map_values(|g: Vec<u32>| g@)
                    =~= before.take(i - 1).map_values(|g: Vec<u32>| g@).push(all[seen]@));
                assert(groups@.skip(i as int) =~= before.skip(i - 1).skip(1));
                assert(all.skip(seen).skip(1) =~= all.skip(seen + 1));
            }
        }
        proof {
            seen = seen + 1;
        }
    }
    proof {
        assert(groups@.skip(i as int).len() == 0);
        assert(all.skip(seen).len() == types - seen);
        assert(groups@.take(i as int) =~= groups@);
    }
    groups
}

proof fn lemma_member_of_itself(sim: Simulation, a: int, limit: nat)
    requires
        0 <= a < sim.types,
        a < limit,
    ensures
        sim.members(a, limit).len() > 0,
    decreases limit,
{
    if a == limit - 1 {
        lemma_linked_equivalence(sim, a, a, a);
    } else {
        lemma_member_of_itself(sim, a, (limit - 1) as nat);
    }
}

/// The spacings of the bonded pairs met so far, and how many they are.
#[derive(Clone, Copy, PartialEq, Eq, Structural, Debug)]
pub struct PairSums {
    pub total: Scalar,
    pub pairs: Scalar,
}

impl Simulation {
    /// `sums` and what the pair `a`, `b` adds to them.
    pub open spec fn with_pair(self, sums: PairSums, a: int, b: int) -> PairSums {
        if self.bonded(a, b) {
            PairSums { total: sums.total.add(self.spacing_of_pair(a, b)), pairs: sums.pairs.add(one()) }
        } else {
            sums
        }
    }

    /// `sums` and what the pairs of member `i` with the `count` members from
    /// itself on add to them.
    pub open spec fn row_sums(self, types: Seq<u32>, i: int, count: nat, sums: PairSums) -> PairSums
        decreases count,
    {
        if count == 0 {
            sums
        } else {
            self.with_pair(
                self.row_sums(types, i, (count - 1) as nat, sums),
                types[i] as int,
                types[i + count - 1] as int,
            )
        }
    }

    /// What the pairs of the first `rows` members with the members from each on add up to.
    pub open spec fn pair_sums(self, types: Seq<u32>, rows: nat) -> PairSums
        decreases rows,
    {
        if rows == 0 {
            PairSums { total: zero(), pairs: zero() }
        } else {
            self.row_sums(
                types,
                rows - 1,
                (types.len() - rows + 1) as nat,
                self.pair_sums(types, (rows - 1) as nat),
            )
        }
    }

    /// The mean rest separation of the bonded pairs of a body, self-pairs included.
    pub open spec fn rest_spacing(self, types: Seq<u32>) -> Scalar {
        let sums = self.pair_sums(types, types.len());
        if zero().lt(sums.pairs) {
            sums.total.div(sums.pairs)
        } else {
            core_fraction().mul(self.radius)
        }
    }

    /// The particles of each member type that a body of this spacing must hold.
    pub open spec fn share(self, types: Seq<u32>) -> u32 {
        least_share(self.radius, self.rest_spacing(types), types.len() as u32)
    }
}

impl CreatureTemplate {
    /// The template of the body made of `types`.
    pub open spec fn describes(self, sim: Simulation, types: Seq<u32>) -> bool {
        &&& self.types@ == types
        &&& self.spacing == sim.rest_spacing(types)
        &&& self.expected_radius == sim.radius
        &&& self.min_per_type == sim.share(types)
    }
}

/// Hexagonal packing puts 2*pi/sqrt(3) particles per unit area in units of the
/// spacing squared. A saturated body of k types carries roughly k equal shares, so
/// a quarter-saturated body leaves each type a quarter of that, over k. The body
/// counts only if every member type clears that bar -- a mostly-one-kind blob with
/// a sprinkle of another is an accidental crowd, not the mixed body the rules call
/// for. Never trust the estimate down past a handful: the share is at least four.
#[verifier::allow_in_spec]
pub fn least_share(radius: Scalar, spacing: Scalar, members: u32) -> u32
    returns
        ({
            let ratio = radius.div(spacing.max(scalar(0x38d1_b717)));  // 0.0001
            let packed = scalar(0x4068_2a99).mul(ratio.mul(ratio));  // 3.6276
            packed.mul(scalar(0x3e80_0000)).div(Scalar::from_u32(at_least_one(members))).max(scalar(0x4080_0000)).to_u32()  // 0.25, 4.0
        }),
{
    let ratio: Scalar = radius.div(spacing.max(scalar(0x38d1_b717)));  // 0.0001
    let packed: Scalar = scalar(0x4068_2a99).mul(ratio.mul(ratio));  // 3.6276
    packed.mul(scalar(0x3e80_0000)).div(Scalar::from_u32(at_least_one(members))).max(scalar(0x4080_0000)).to_u32()  // 0.25, 4.0
}

#[verifier::allow_in_spec]
pub fn at_least_one(members: u32) -> u32
    returns
        (if members < 1 {
            1u32
        } else {
            members
        }),
{
    if members < 1 {
        1
    } else {
        members
    }
}

/// Every member type of a creature needs at least four particles.
pub proof fn lemma_share_at_least_four(radius: Scalar, spacing: Scalar, members: u32)
    ensures
        least_share(radius, spacing, members) >= 4,
{
    let ratio = radius.div(spacing.max(scalar(0x38d1_b717)));  // 0.0001
    let estimate = scalar(0x4068_2a99).mul(ratio.mul(ratio)).mul(scalar(0x3e80_0000)).div(Scalar::from_u32(at_least_one(members)));  // 3.6276, 0.25
    let four = scalar(0x4080_0000);  // 4.0
    crate::order::lemma_truncation_monotone(four, estimate.max(four));
    vstd::arithmetic::power2::lemma2_to64();
    crate::order::lemma_whole_value(four, 4, 21);
}

proof fn lemma_members_fit(sim: Simulation, a: int, limit: nat)
    requires
        limit <= sim.types,
    ensures
        sim.members(a, limit).len() <= limit,
        forall|i: int| 0 <= i < sim.members(a, limit).len() ==> (#[trigger] sim.members(a, limit)[i]) < limit,
    decreases limit,
{
    if limit > 0 {
        lemma_members_fit(sim, a, (limit - 1) as nat);
    }
}

pub(crate) proof fn lemma_bodies_fit(sim: Simulation, limit: nat, i: int)
    requires
        limit <= sim.types,
        0 <= i < sim.bodies(limit).len(),
    ensures
        sim.bodies(limit)[i].len() <= sim.types,
        forall|j: int| 0 <= j < sim.bodies(limit)[i].len() ==> (#[trigger] sim.bodies(limit)[i][j]) < sim.types,
    decreases limit,
{
    if limit > 0 {
        if sim.leads(limit - 1) && i == sim.bodies(limit).len() - 1 {
            lemma_members_fit(sim, limit - 1, sim.types as nat);
        } else {
            lemma_bodies_fit(sim, (limit - 1) as nat, i);
        }
    }
}

/// The template of one body.
fn template(sim: &Simulation, types: Vec<u32>) -> (r: CreatureTemplate)
    requires
        sim.wf(),
        types@.len() <= sim.types,
        forall|i: int| 0 <= i < types@.len() ==> #[trigger] types@[i] < sim.types,
    ensures
        r.describes(*sim, types@),
{
    // Average over the bonded pairs inside the group, self-pairs included: a single
    // cohesive type is the most common body there is.
    let mut total: Scalar = zero();
    let mut pairs: Scalar = zero();
    let count: usize = types.len();
    let mut i: usize = 0;
    while i < count
        invariant
            i <= count,
            count == types@.len(),
            sim.wf(),
            forall|i: int| 0 <= i < types@.len() ==> #[trigger] types@[i] < sim.types,
            (PairSums { total, pairs }) == sim.pair_sums(types@, i as nat),
        decreases count - i,
    {
        let mut j: usize = i;
        let ghost start = PairSums { total, pairs };
        while j < count
            invariant
                i <= j <= count,
                i < count,
                count == types@.len(),
                sim.wf(),
                forall|i: int| 0 <= i < types@.len() ==> #[trigger] types@[i] < sim.types,
                (PairSums { total, pairs }) == sim.row_sums(types@, i as int, (j - i) as nat, start),
            decreases count - j,
        {
            let a: u32 = types[i];
            let b: u32 = types[j];
            if bonds(sim, a, b) {
                total = total.add(pair_spacing(sim, a, b));
                pairs = pairs.add(one());
            }
            j = j + 1;
            assert((j - i - 1) as nat == (j - i) as nat - 1);
        }
        i = i + 1;
    }
    let spacing: Scalar = if zero().lt(pairs) {
        total.div(pairs)
    } else {
        core_fraction().mul(sim.radius)
    };
    // Particles cannot feel each other past the interaction radius, so a body
    // cannot stay cohesive much wider than that; it is the natural scale for a
    // saturated blob.
    let expected_radius: Scalar = sim.radius;
    let min_per_type: u32 = least_share(expected_radius, spacing, count as u32);
    CreatureTemplate { types, spacing, expected_radius, min_per_type }
}

/// Templates for every composition the current rules support.
pub fn templates(sim: &Simulation) -> (r: Vec<CreatureTemplate>)
    requires
        sim.wf(),
    ensures
        r@.len() == sim.bodies(sim.types as nat).len(),
        forall|i: int| 0 <= i < r@.len() ==> (#[trigger] r@[i]).describes(*sim, sim.bodies(sim.types as nat)[i]),
{
    let mut groups: Vec<Vec<u32>> = compositions(sim);
    let ghost all = groups@;
    let ghost bodies = sim.bodies(sim.types as nat);
    let mut result: Vec<CreatureTemplate> = Vec::new();
    assert(all.map_values(|g: Vec<u32>| g@).len() == all.len());
    assert forall|i: int| 0 <= i < all.len() implies (#[trigger] all[i])@ == bodies[i] by {
        assert(all.map_values(|g: Vec<u32>| g@)[i] == bodies[i]);
    }
    while groups.len() > 0
        invariant
            sim.wf(),
            bodies == sim.bodies(sim.types as nat),
            all.len() == bodies.len(),
            forall|i: int| 0 <= i < all.len() ==> (#[trigger] all[i])@ == bodies[i],
            result@.len() <= all.len(),
            groups@ == all.skip(result@.len() as int),
            forall|i: int| 0 <= i < result@.len() ==> (#[trigger] result@[i]).describes(*sim, bodies[i]),
        decreases groups@.len(),
    {
        let ghost done = result@.len() as int;
        let ghost before = groups@;
        let types: Vec<u32> = groups.remove(0);
        proof {
            assert(before[0] == all[done]);
            lemma_bodies_fit(*sim, sim.types as nat, done);
            assert(groups@ =~= all.skip(done + 1));
        }
        result.push(template(sim, types));
    }
    assert(all.skip(result@.len() as int).len() == 0);
    result
}

impl Simulation {
    /// The sum of the rest spacings of the first `count` bodies. It starts from
    /// the zero that leaves every number as it is when it is added.
    pub open spec fn spacing_sum(self, count: nat) -> Scalar
        decreases count,
    {
        if count == 0 {
            scalar(0x8000_0000)  // -0.0
        } else {
            self.spacing_sum((count - 1) as nat).add(
                self.rest_spacing(self.bodies(self.types as nat)[count - 1]),
            )
        }
    }

    pub open spec fn mean_rest_spacing(self) -> Scalar {
        let count = self.bodies(self.types as nat).len();
        if count == 0 {
            core_fraction().mul(self.radius)
        } else {
            self.spacing_sum(count).div(Scalar::from_u32(count as u32))
        }
    }

    pub open spec fn radius_of_bonds(self) -> Scalar {
        self.mean_rest_spacing().mul(scalar(0x3fc0_0000)).min(self.radius)  // 1.5
    }
}

pub(crate) proof fn lemma_bodies_few(sim: Simulation, limit: nat)
    ensures
        sim.bodies(limit).len() <= limit,
    decreases limit,
{
    if limit > 0 {
        lemma_bodies_few(sim, (limit - 1) as nat);
    }
}

/// Rest separation averaged over every inferred template.
pub fn mean_spacing(sim: &Simulation) -> (r: Scalar)
    requires
        sim.wf(),
    ensures
        r == sim.mean_rest_spacing(),
{
    let templates: Vec<CreatureTemplate> = templates(sim);
    proof {
        lemma_bodies_few(*sim, sim.types as nat);
    }
    if templates.len() == 0 {
        return core_fraction().mul(sim.radius);
    }
    let mut sum: Scalar = scalar(0x8000_0000);  // -0.0
    let mut i: usize = 0;
    while i < templates.len()
        invariant
            i <= templates@.len(),
            templates@.len() == sim.bodies(sim.types as nat).len(),
            forall|i: int|
                0 <= i < templates@.len() ==> (#[trigger] templates@[i]).describes(
                    *sim,
                    sim.bodies(sim.types as nat)[i],
                ),
            sum == sim.spacing_sum(i as nat),
        decreases templates@.len() - i,
    {
        assert(templates@[i as int].describes(*sim, sim.bodies(sim.types as nat)[i as int]));
        sum = sum.add(templates[i].spacing);
        i = i + 1;
    }
    sum.div(Scalar::from_u32(templates.len() as u32))
}

/// Distance within which the detector treats two particles as bonded. Wider than
/// the rest separation so a body under strain stays one cluster, but far short of
/// the interaction radius so distinct bodies do not merge.
pub fn bond_radius(sim: &Simulation) -> (r: Scalar)
    requires
        sim.wf(),
    ensures
        r == sim.radius_of_bonds(),
{
    mean_spacing(sim).mul(scalar(0x3fc0_0000)).min(sim.radius)  // 1.5
}

/// Stamp radius (world units) and isolevel (particles per texel) for the outline
/// field. Both follow from the inferred rest spacing, which is what ties the
/// drawn outline back to the rule set rather than to a hand-tuned constant.
///
/// A body at rest packs one particle per spacing squared of area, so a texel holds
/// texel squared over spacing squared of them; half that is the natural edge of
/// the body.
pub fn outline_geometry(sim: &Simulation, field_side: u32) -> (r: (Scalar, Scalar))
    requires
        sim.wf(),
    ensures
        r == outline_of(sim.mean_rest_spacing(), field_side),
{
    outline_of(mean_spacing(sim), field_side)
}

/// The outline for a given rest spacing.
#[verifier::allow_in_spec]
pub fn outline_of(spacing: Scalar, field_side: u32) -> (Scalar, Scalar)
    returns
        ({
            let spacing = spacing.max(scalar(0x38d1_b717));  // 0.0001
            let texel = world().div(Scalar::from_u32(field_side));
            let interior = texel.mul(texel).div(spacing.mul(spacing));
            (spacing.mul(two()), interior.mul(half()))
        }),
{
    let spacing: Scalar = spacing.max(scalar(0x38d1_b717));  // 0.0001
    let texel: Scalar = world().div(Scalar::from_u32(field_side));
    let interior: Scalar = texel.mul(texel).div(spacing.mul(spacing));
    (spacing.mul(two()), interior.mul(half()))
}

impl Simulation {
    /// `least` is the smallest share any body asks for, or four if there is none.
    pub open spec fn least_of_shares(self, least: u32) -> bool {
        let bodies = self.bodies(self.types as nat);
        &&& bodies.len() == 0 ==> least == 4
        &&& bodies.len() > 0 ==> exists|i: int| 0 <= i < bodies.len() && least == #[trigger] self.share(bodies[i])
        &&& forall|i: int| 0 <= i < bodies.len() ==> least <= #[trigger] self.share(bodies[i])
    }
}

impl Simulation {
    /// The smallest share any body asks for, or four if there is none.
    pub open spec fn smallest_share(self) -> u32 {
        choose|least: u32| self.least_of_shares(least)
    }
}

proof fn lemma_smallest_share(sim: Simulation, least: u32)
    requires
        sim.least_of_shares(least),
    ensures
        sim.smallest_share() == least,
{
    let other = sim.smallest_share();
    let bodies = sim.bodies(sim.types as nat);
    assert(sim.least_of_shares(other));
    if bodies.len() > 0 {
        let i = choose|i: int| 0 <= i < bodies.len() && least == #[trigger] sim.share(bodies[i]);
        let j = choose|j: int| 0 <= j < bodies.len() && other == #[trigger] sim.share(bodies[j]);
        assert(other <= sim.share(bodies[i]));
        assert(least <= sim.share(bodies[j]));
    }
}

/// Smallest per-type count any inferred template accepts. The detector applies a
/// single threshold to each type present in a cluster, so the most permissive
/// template sets it.
pub fn min_particles(sim: &Simulation) -> (r: u32)
    requires
        sim.wf(),
    ensures
        sim.least_of_shares(r),
        r == sim.smallest_share(),
        r >= 4,
{
    let templates: Vec<CreatureTemplate> = templates(sim);
    let ghost bodies = sim.bodies(sim.types as nat);
    if templates.len() == 0 {
        proof {
            lemma_smallest_share(*sim, 4);
        }
        return 4;
    }
    assert(templates@[0].describes(*sim, bodies[0]));
    let mut least: u32 = templates[0].min_per_type;
    let mut i: usize = 1;
    while i < templates.len()
        invariant
            1 <= i <= templates@.len(),
            bodies == sim.bodies(sim.types as nat),
            templates@.len() == bodies.len(),
            forall|i: int| 0 <= i < templates@.len() ==> (#[trigger] templates@[i]).describes(*sim, bodies[i]),
            exists|j: int| 0 <= j < i && least == #[trigger] sim.share(bodies[j]),
            forall|j: int| 0 <= j < i ==> least <= #[trigger] sim.share(bodies[j]),
        decreases templates@.len() - i,
    {
        assert(templates@[i as int].describes(*sim, bodies[i as int]));
        if templates[i].min_per_type < least {
            least = templates[i].min_per_type;
        }
        i = i + 1;
    }
    proof {
        let j = choose|j: int| 0 <= j < i && least == #[trigger] sim.share(bodies[j]);
        lemma_share_at_least_four(sim.radius, sim.rest_spacing(bodies[j]), bodies[j].len() as u32);
        lemma_smallest_share(*sim, least);
    }
    if least < 4 {
        4
    } else {
        least
    }
}

/// Bodies that never feel each other are never merged: the detector's reach is at
/// most the interaction radius.
pub proof fn lemma_bond_radius_within_reach(sim: Simulation)
    requires
        !sim.radius.nan(),
    ensures
        sim.radius_of_bonds().le(sim.radius),
{
}

/// The first type of body `i`.
spec fn leader(sim: Simulation, limit: nat, i: int) -> int
    decreases limit,
{
    if limit == 0 {
        0
    } else if sim.leads(limit - 1) && i == sim.bodies(limit).len() - 1 {
        limit - 1
    } else {
        leader(sim, (limit - 1) as nat, i)
    }
}

proof fn lemma_leader(sim: Simulation, limit: nat, i: int)
    requires
        0 <= i < sim.bodies(limit).len(),
    ensures
        0 <= leader(sim, limit, i) < limit,
        sim.leads(leader(sim, limit, i)),
        sim.bodies(limit)[i] == sim.members(leader(sim, limit, i), sim.types as nat),
    decreases limit,
{
    if !(sim.leads(limit - 1) && i == sim.bodies(limit).len() - 1) {
        lemma_leader(sim, (limit - 1) as nat, i);
    }
}

proof fn lemma_leaders_ascend(sim: Simulation, limit: nat, i: int, j: int)
    requires
        0 <= i < j < sim.bodies(limit).len(),
    ensures
        leader(sim, limit, i) < leader(sim, limit, j),
    decreases limit,
{
    if sim.leads(limit - 1) && j == sim.bodies(limit).len() - 1 {
        lemma_leader(sim, (limit - 1) as nat, i);
    } else {
        lemma_leaders_ascend(sim, (limit - 1) as nat, i, j);
    }
}

/// The body that type `a` leads.
proof fn lemma_led_body(sim: Simulation, limit: nat, a: int) -> (i: int)
    requires
        0 <= a < limit,
        sim.leads(a),
    ensures
        0 <= i < sim.bodies(limit).len(),
        sim.bodies(limit)[i] == sim.members(a, sim.types as nat),
    decreases limit,
{
    if a == limit - 1 {
        sim.bodies(limit).len() - 1
    } else {
        lemma_led_body(sim, (limit - 1) as nat, a)
    }
}

proof fn lemma_members(sim: Simulation, a: int, limit: nat, b: u32)
    requires
        limit <= sim.types,
    ensures
        sim.members(a, limit).contains(b) <==> b < limit && sim.linked(a, b as int),
    decreases limit,
{
    if limit > 0 {
        let shorter = sim.members(a, (limit - 1) as nat);
        lemma_members(sim, a, (limit - 1) as nat, b);
        if sim.linked(a, limit - 1) {
            let last = (limit - 1) as u32;
            assert(sim.members(a, limit) == shorter.push(last));
            if b == last {
                assert(sim.members(a, limit)[shorter.len() as int] == b);
            }
            if shorter.contains(b) {
                let k = choose|k: int| 0 <= k < shorter.len() && shorter[k] == b;
                assert(sim.members(a, limit)[k] == b);
            }
            if sim.members(a, limit).contains(b) && b != last {
                let k = choose|k: int|
                    0 <= k < sim.members(a, limit).len() && sim.members(a, limit)[k] == b;
                assert(shorter[k] == b);
            }
        }
    }
}

/// The least type linked to `a`, among those from `low` on.
proof fn lemma_first_linked(sim: Simulation, a: int, low: int) -> (b: int)
    requires
        0 <= low <= a < sim.types,
        forall|c: int| 0 <= c < low ==> !sim.linked(a, c),
    ensures
        0 <= b <= a,
        sim.linked(a, b),
        sim.leads(b),
    decreases a - low,
{
    if sim.linked(a, low) {
        assert forall|c: int| 0 <= c < low implies !sim.linked(low, c) by {
            lemma_linked_equivalence(sim, a, low, c);
        }
        low
    } else {
        lemma_linked_equivalence(sim, a, a, a);
        lemma_first_linked(sim, a, low + 1)
    }
}

/// Every type lands in exactly one body.
pub proof fn lemma_bodies_partition(sim: Simulation, a: u32)
    requires
        a < sim.types,
    ensures
        exists|i: int|
            0 <= i < sim.bodies(sim.types as nat).len() && #[trigger] sim.bodies(sim.types as nat)[i].contains(a),
        forall|i: int, j: int|
            0 <= i < sim.bodies(sim.types as nat).len() && 0 <= j < sim.bodies(sim.types as nat).len()
                && #[trigger] sim.bodies(sim.types as nat)[i].contains(a)
                && #[trigger] sim.bodies(sim.types as nat)[j].contains(a) ==> i == j,
{
    let types = sim.types as nat;
    let first = lemma_first_linked(sim, a as int, 0);
    let i = lemma_led_body(sim, types, first);
    lemma_linked_equivalence(sim, a as int, first, first);
    lemma_members(sim, first, types, a);
    assert(sim.bodies(types)[i].contains(a));
    assert forall|i: int, j: int|
        0 <= i < sim.bodies(types).len() && 0 <= j < sim.bodies(types).len()
            && #[trigger] sim.bodies(types)[i].contains(a) && #[trigger] sim.bodies(types)[j].contains(
            a,
        ) implies i == j by {
        let (x, y) = (leader(sim, types, i), leader(sim, types, j));
        lemma_leader(sim, types, i);
        lemma_leader(sim, types, j);
        lemma_members(sim, x, types, a);
        lemma_members(sim, y, types, a);
        lemma_linked_equivalence(sim, y, a as int, y);
        lemma_linked_equivalence(sim, x, a as int, y);
        lemma_linked_equivalence(sim, x, y, x);
        if i < j {
            lemma_leaders_ascend(sim, types, i, j);
        } else if j < i {
            lemma_leaders_ascend(sim, types, j, i);
        }
    }
}

/// Two types share a body exactly when a chain of bonds links them.
pub proof fn lemma_bodies_hold_the_linked(sim: Simulation, i: int, a: u32, b: u32)
    requires
        0 <= i < sim.bodies(sim.types as nat).len(),
        sim.bodies(sim.types as nat)[i].contains(a),
        a < sim.types,
        b < sim.types,
    ensures
        sim.bodies(sim.types as nat)[i].contains(b) <==> sim.linked(a as int, b as int),
{
    let types = sim.types as nat;
    let x = leader(sim, types, i);
    lemma_leader(sim, types, i);
    lemma_members(sim, x, types, a);
    lemma_members(sim, x, types, b);
    lemma_linked_equivalence(sim, x, a as int, b as int);
    lemma_linked_equivalence(sim, a as int, x, b as int);
}

/// Bodies list their types in ascending order, and none is empty.
pub proof fn lemma_bodies_ascend(sim: Simulation, i: int)
    requires
        0 <= i < sim.bodies(sim.types as nat).len(),
    ensures
        sim.bodies(sim.types as nat)[i].len() > 0,
        forall|j: int, k: int|
            0 <= j < k < sim.bodies(sim.types as nat)[i].len()
                ==> #[trigger] sim.bodies(sim.types as nat)[i][j] < #[trigger] sim.bodies(sim.types as nat)[i][k],
{
    let types = sim.types as nat;
    lemma_leader(sim, types, i);
    lemma_member_of_itself(sim, leader(sim, types, i), types);
    lemma_members_ascend(sim, leader(sim, types, i), types);
}

proof fn lemma_members_ascend(sim: Simulation, a: int, limit: nat)
    requires
        limit <= sim.types,
    ensures
        forall|j: int, k: int|
            0 <= j < k < sim.members(a, limit).len() ==> #[trigger] sim.members(a, limit)[j]
                < #[trigger] sim.members(a, limit)[k],
    decreases limit,
{
    if limit > 0 {
        lemma_members_ascend(sim, a, (limit - 1) as nat);
        lemma_members_fit(sim, a, (limit - 1) as nat);
    }
}

/// A chase is no bond: where one side flees as strongly as the other pursues, the
/// pair does not hold together by attraction.
pub proof fn lemma_chase_is_no_bond(sim: Simulation, a: int, b: int)
    requires
        !sim.behavior.preferred_enabled,
        sim.rule(a, b).finite(),
        sim.rule(b, a) == sim.rule(a, b).neg(),
    ensures
        !sim.bonded(a, b),
        !sim.bonded(b, a),
{
    lemma_bonds_mutual(sim, a, b);
}

/// A preferred distance bonds a pair whatever its attraction says.
pub proof fn lemma_preferred_distance_bonds(sim: Simulation, a: int, b: int)
    requires
        sim.behavior.preferred_enabled,
        zero().lt(sim.separation(a, b)) || zero().lt(sim.separation(b, a)),
    ensures
        sim.bonded(a, b),
        sim.bonded(b, a),
{
    lemma_bonds_mutual(sim, a, b);
}

/// The values of the bounds that distances are held to, and of twice each.
proof fn lemma_held_bounds()
    ensures
        0 < scalar(0x3e4c_cccd).units() < scalar(0x3f73_3333).units() < crate::scalar::one_units(),  // 0.2, 0.95
        scalar(0x3ecc_cccd).units() == 2 * scalar(0x3e4c_cccd).units(),  // 0.4, 0.2
        scalar(0x3ff3_3333).units() == 2 * scalar(0x3f73_3333).units(),  // 1.9, 0.95
        one().units() == crate::scalar::one_units(),
        two().units() == 2 * crate::scalar::one_units(),
{
    crate::rounding::lemma_p2_values();
    crate::order::lemma_power_of_two(0);
    crate::order::lemma_power_of_two(1);
    crate::rounding::lemma_p2_step(123);
    crate::rounding::lemma_p2_step(125);
    crate::rounding::lemma_grid_code(123, 0xcc_cccd);
    crate::rounding::lemma_grid_code(124, 0xcc_cccd);
    crate::rounding::lemma_grid_code(125, 0xf3_3333);
    crate::rounding::lemma_grid_code(126, 0xf3_3333);
    crate::order::lemma_order_of_values(zero(), scalar(0x3e4c_cccd));  // 0.2
    crate::order::lemma_order_of_values(scalar(0x3e4c_cccd), scalar(0x3f73_3333));  // 0.2, 0.95
    crate::order::lemma_order_of_values(scalar(0x3f73_3333), one());  // 0.95
}

proof fn lemma_held_within(distance: Scalar)
    requires
        zero().lt(distance),
    ensures
        held(distance).finite(),
        scalar(0x3e4c_cccd).units() <= held(distance).units() <= scalar(0x3f73_3333).units(),  // 0.2, 0.95
{
    crate::order::lemma_clamp_between(distance, scalar(0x3e4c_cccd), scalar(0x3f73_3333));  // 0.2, 0.95
    crate::order::lemma_order_of_values(scalar(0x3e4c_cccd), held(distance));  // 0.2
    crate::order::lemma_order_of_values(held(distance), scalar(0x3f73_3333));  // 0.95
}

/// Whatever distances are set, a pair prefers between 0.2 and 0.95 of the radius.
pub proof fn lemma_preferred_within(sim: Simulation, a: int, b: int)
    ensures
        sim.preferred(a, b) matches Some(d) ==> (scalar(0x3e4c_cccd)).le(d) && d.le(scalar(0x3f73_3333)),  // 0.2, 0.95
{
    let unit = crate::scalar::one_units();
    let (low, high) = (scalar(0x3e4c_cccd), scalar(0x3f73_3333));  // 0.2, 0.95
    let (there, back) = (sim.separation(a, b), sim.separation(b, a));
    lemma_held_bounds();
    if zero().lt(there) {
        lemma_held_within(there);
    }
    if zero().lt(back) {
        lemma_held_within(back);
    }
    let (l, h) = (low.units(), high.units());
    if zero().lt(there) && zero().lt(back) {
        let sum = held(there).add(held(back));
        crate::order::lemma_sum_bounds(held(there), held(back), scalar(0x3ecc_cccd));  // 0.4
        crate::order::lemma_sum_bounds(held(there), held(back), scalar(0x3ff3_3333));  // 1.9
        crate::order::lemma_order_of_values(scalar(0x3ecc_cccd), sum);  // 0.4
        crate::order::lemma_order_of_values(sum, scalar(0x3ff3_3333));  // 1.9
        let s = sum.units();
        assert(l * (2 * unit) <= s * unit <= h * (2 * unit)) by (nonlinear_arith)
            requires
                2 * l <= s <= 2 * h,
                unit > 0,
        ;
        crate::order::lemma_quotient_bounds(sum, two(), low);
        crate::order::lemma_quotient_bounds(sum, two(), high);
    } else if zero().lt(there) {
        lemma_alone_within(held(there));
    } else if zero().lt(back) {
        lemma_alone_within(held(back));
    }
}

proof fn lemma_alone_within(d: Scalar)
    requires
        d.finite(),
        scalar(0x3e4c_cccd).units() <= d.units() <= scalar(0x3f73_3333).units(),  // 0.2, 0.95
    ensures
        (scalar(0x3e4c_cccd)).le(d.div(one())),  // 0.2
        d.div(one()).le(scalar(0x3f73_3333)),  // 0.95
{
    let unit = crate::scalar::one_units();
    let (l, h, s) = (scalar(0x3e4c_cccd).units(), scalar(0x3f73_3333).units(), d.units());  // 0.2, 0.95
    lemma_held_bounds();
    assert(l * unit <= s * unit <= h * unit) by (nonlinear_arith)
        requires
            l <= s <= h,
            unit > 0,
    ;
    crate::order::lemma_quotient_bounds(d, one(), scalar(0x3e4c_cccd));  // 0.2
    crate::order::lemma_quotient_bounds(d, one(), scalar(0x3f73_3333));  // 0.95
}

/// A pair rests within the interaction radius.
pub proof fn lemma_spacing_within_radius(sim: Simulation, a: int, b: int)
    requires
        sim.radius.finite(),
        zero().le(sim.radius),
    ensures
        zero().le(sim.spacing_of_pair(a, b)),
        sim.spacing_of_pair(a, b).le(sim.radius),
{
    let unit = crate::scalar::one_units();
    let d = match sim.preferred(a, b) {
        Some(d) => d,
        None => core_fraction(),
    };
    lemma_held_bounds();
    lemma_preferred_within(sim, a, b);
    crate::order::lemma_order_of_values(scalar(0x3e4c_cccd), d);  // 0.2
    crate::order::lemma_order_of_values(d, scalar(0x3f73_3333));  // 0.95
    crate::order::lemma_order_of_values(zero(), sim.radius);
    let (u, r) = (d.units(), sim.radius.units());
    assert(0 <= u * r <= r * unit && 0 * unit == 0) by (nonlinear_arith)
        requires
            0 <= u <= unit,
            0 <= r,
    ;
    crate::order::lemma_product_bounds(d, sim.radius, zero());
    crate::order::lemma_product_bounds(d, sim.radius, sim.radius);
}

} // verus!
