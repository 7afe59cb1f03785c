use particle_life::creatures::{
    bond_radius, bond_strength, bonds, compositions, least_share, mean_spacing, min_particles, outline_geometry,
    pair_spacing, preferred_distance, templates,
};
use particle_life::model::{core_fraction, Simulation, FIELD_SIDE};
use particle_life::scalar::Scalar;

fn s(x: f32) -> Scalar {
    Scalar { bits: x.to_bits() }
}

fn f(x: Scalar) -> f32 {
    f32::from_bits(x.bits)
}

fn all(values: &[f32]) -> Vec<Scalar> {
    values.iter().map(|x| s(*x)).collect()
}

/// Types, attraction matrix; everything else default.
fn sim(types: u32, rules: Vec<f32>) -> Simulation {
    let zeros = vec![0.0; (types * types) as usize];
    Simulation {
        types,
        rules: all(&rules),
        swirl: all(&zeros),
        alignment: all(&zeros),
        distance: all(&zeros),
        ..Simulation::default()
    }
}

#[test]
fn one_sided_attraction_is_a_chase_not_a_bond() {
    // 0 chases 1, 1 flees 0. Summing the directions cancels them out.
    let w = sim(2, vec![0.0, 1.0, -1.0, 0.0]);
    assert!(!bonds(&w, 0, 1), "a chase must not read as a body");
    assert_eq!(compositions(&w).len(), 2, "chase leaves two compositions");
    // Mutual attraction on the same pair does bond.
    let w = sim(2, vec![0.0, 1.0, 1.0, 0.0]);
    assert!(bonds(&w, 0, 1));
    assert_eq!(compositions(&w), vec![vec![0, 1]]);
}

#[test]
fn compositions_group_transitively_and_cover_every_type() {
    // 0-1 bond, 2 is isolated, 3 is self-cohesive only.
    let mut rules = vec![0.0; 16];
    rules[1] = 1.0;
    rules[4] = 1.0; // 0 <-> 1
    rules[15] = 1.0; // 3 self
    let w = sim(4, rules);
    let groups = compositions(&w);
    assert_eq!(groups, vec![vec![0, 1], vec![2], vec![3]]);
    let covered: usize = groups.iter().map(Vec::len).sum();
    assert_eq!(covered, 4, "every type lands in exactly one composition");
}

/// The shader's force curve, so the inferred rest separation is checked
/// against the real thing rather than against a restatement of itself.
fn shader_force(r: f32, coefficient: f32) -> f32 {
    let core = f(core_fraction());
    if r < core {
        return r / core - 1.0;
    }
    coefficient * (1.0 - (2.0 * r - 1.0 - core).abs() / (1.0 - core))
}

fn shader_preferred_force(r: f32, separation: f32) -> f32 {
    let d = separation.clamp(0.2, 0.95);
    if r < d {
        return (r - d) / d;
    }
    4.0 * (r - d) * (1.0 - r) / ((1.0 - d) * (1.0 - d))
}

#[test]
fn inferred_spacing_sits_on_the_force_curve_zero() {
    let w = sim(2, vec![1.0; 4]);
    let spacing = f(pair_spacing(&w, 0, 1));
    let r = spacing / f(w.radius);
    assert!(
        shader_force(r, 1.0).abs() < 1e-6,
        "attraction-only rest separation must be a zero of force()"
    );
    // Stable, not just stationary: repel below, attract above.
    assert!(shader_force(r - 0.05, 1.0) < 0.0);
    assert!(shader_force(r + 0.05, 1.0) > 0.0);
}

#[test]
fn preferred_distance_moves_the_zero_and_overrides_attraction() {
    let mut w = sim(2, vec![-1.0; 4]); // every pair repels
    w.behavior.preferred_enabled = true;
    w.distance = all(&[0.6; 4]);
    assert!(bonds(&w, 0, 1), "preferred distance bonds despite repulsive attraction");
    let r = f(pair_spacing(&w, 0, 1)) / f(w.radius);
    assert!((r - 0.6).abs() < 1e-6);
    assert!(shader_preferred_force(r, 0.6).abs() < 1e-6);
    // Disabling the behavior falls back to the core fraction.
    w.behavior.preferred_enabled = false;
    assert!((f(pair_spacing(&w, 0, 1)) / f(w.radius) - f(core_fraction())).abs() < 1e-6);
}

#[test]
fn disagreeing_directions_settle_between_them() {
    let mut w = sim(2, vec![0.0; 4]);
    w.behavior.preferred_enabled = true;
    let mut d = vec![0.0; 4];
    d[1] = 0.4; // 0 wants 0.4 from 1
    d[2] = 0.8; // 1 wants 0.8 from 0
    w.distance = all(&d);
    let r = f(pair_spacing(&w, 0, 1)) / f(w.radius);
    assert!((r - 0.6).abs() < 1e-6, "mean of the two demands");
}

#[test]
fn templates_scale_with_radius_and_stay_sane() {
    let w = sim(2, vec![1.0; 4]);
    let t = &templates(&w)[0];
    assert_eq!(t.types, vec![0, 1]);
    assert!((f(t.spacing) - f(core_fraction()) * f(w.radius)).abs() < 1e-6);
    assert!(t.min_per_type >= 4);
    // Doubling the radius doubles spacing but leaves the packing ratio alone,
    // so the size threshold is scale free.
    let mut wide = w.clone();
    wide.radius = s(f(w.radius) * 2.0);
    let v = &templates(&wide)[0];
    assert!((f(v.spacing) - 2.0 * f(t.spacing)).abs() < 1e-4);
    assert_eq!(v.min_per_type, t.min_per_type);
}

#[test]
fn per_type_minimum_splits_across_types_and_floors_at_four() {
    // A single cohesive type carries the whole body-size estimate, so it is
    // gated on real mass rather than a token handful.
    let w = sim(1, vec![1.0]);
    let t = &templates(&w)[0];
    assert_eq!(t.types, vec![0]);
    assert!(t.min_per_type > 4, "single-type bodies need a real mass");
    // Eight mutually bonded types split the same estimate eight ways, which
    // collapses the share to the four-particle floor.
    let w = sim(8, vec![1.0; 64]);
    let t = &templates(&w)[0];
    assert_eq!(t.types.len(), 8);
    assert_eq!(t.min_per_type, 4, "every member type needs at least four");
    // The detector threshold follows the same most-permissive, floored rule.
    assert!(min_particles(&w) >= 4);
}

#[test]
fn bond_radius_sits_between_the_spacing_and_the_interaction_radius() {
    for preferred in [false, true] {
        let mut w = sim(3, vec![1.0; 9]);
        w.behavior.preferred_enabled = preferred;
        w.distance = all(&[0.9; 9]);
        let r = f(bond_radius(&w));
        let spacing = f(templates(&w)[0].spacing);
        assert!(r >= spacing, "must not split a body at rest");
        assert!(r <= f(w.radius), "must not merge bodies that never interact");
    }
}

#[test]
fn bonds_add_both_directions_and_need_more_than_the_threshold() {
    let w = sim(2, vec![0.0, 0.25, 0.5, 0.0]);
    assert_eq!(f(bond_strength(&w, 0, 1)), 0.75);
    assert_eq!(f(bond_strength(&w, 1, 0)), 0.75);
    assert!(!bonds(&sim(1, vec![0.075]), 0, 0), "the threshold itself is no bond");
    assert!(bonds(&sim(1, vec![0.0751]), 0, 0));
    assert!(!bonds(&sim(1, vec![f32::NAN]), 0, 0));
}

#[test]
fn preferred_distances_are_held_and_averaged() {
    let mut w = sim(2, vec![0.0; 4]);
    w.distance = all(&[0.1, 0.0, 0.99, 0.5]);
    assert!(preferred_distance(&w, 0, 0).is_none());
    w.behavior.preferred_enabled = true;
    assert_eq!(preferred_distance(&w, 0, 0).map(f), Some(0.2));
    assert_eq!(preferred_distance(&w, 0, 1).map(f), Some(0.95));
    assert_eq!(preferred_distance(&w, 1, 0).map(f), Some(0.95));
    assert_eq!(preferred_distance(&w, 1, 1).map(f), Some(0.5));
    for (a, b) in [(0, 0), (0, 1), (1, 1)] {
        assert!(f(pair_spacing(&w, a, b)) <= f(w.radius), "pairs rest within reach");
        assert_eq!(pair_spacing(&w, a, b), pair_spacing(&w, b, a));
    }
    w.distance = all(&[0.0; 4]);
    assert!(preferred_distance(&w, 1, 1).is_none());
}

#[test]
fn compositions_follow_long_chains_back_to_the_first_type() {
    // Bonds 3-5, 1-5, 0-4, 4-2: bodies {0, 2, 4} and {1, 3, 5}, and 6 alone.
    let types = 7;
    let mut rules = vec![0.0; types * types];
    for (a, b) in [(3, 5), (1, 5), (0, 4), (4, 2)] {
        rules[a * types + b] = 1.0;
        rules[b * types + a] = 1.0;
    }
    let w = sim(types as u32, rules);
    assert_eq!(compositions(&w), vec![vec![0, 2, 4], vec![1, 3, 5], vec![6]]);
    assert!(compositions(&sim(0, vec![])).is_empty());
}

#[test]
fn mean_spacing_and_minimum_span_all_templates() {
    let w = sim(2, vec![1.0, 0.0, 0.0, 0.0]);
    assert_eq!(templates(&w).len(), 2);
    let spacing = 0.2_f32 * 24.0;
    assert_eq!(f(mean_spacing(&w)), (spacing + spacing) / 2.0);
    assert_eq!(f(bond_radius(&w)), (spacing + spacing) / 2.0 * 1.5);
    // A radius of five spacings packs 3.6276 * 25 particles, a quarter of which is 22.67.
    assert_eq!(min_particles(&w), 22);
    // Without types, the core fraction of the radius and the floor remain.
    let empty = sim(0, vec![]);
    assert_eq!(f(mean_spacing(&empty)), spacing);
    assert_eq!(min_particles(&empty), 4);
}

#[test]
fn shares_follow_the_packing_estimate() {
    assert_eq!(least_share(s(24.0), s(4.8), 1), 22);
    assert_eq!(least_share(s(24.0), s(4.8), 2), 11);
    assert_eq!(least_share(s(24.0), s(4.8), 100), 4);
    assert_eq!(least_share(s(f32::NAN), s(4.8), 1), 4);
    assert_eq!(least_share(s(24.0), s(0.0), 0), u32::MAX);
}

#[test]
fn outlines_follow_the_spacing() {
    let w = sim(1, vec![1.0]);
    let spacing = 0.2_f32 * 24.0;
    let (stamp, isolevel) = outline_geometry(&w, FIELD_SIDE);
    assert_eq!(f(stamp), spacing * 2.0);
    assert_eq!(f(isolevel), (4.0 * 4.0) / (spacing * spacing) * 0.5);
}

#[test]
fn a_finer_outline_field_quarters_the_level_only() {
    let s = sim(2, vec![1.0; 4]);
    for side in [1u32, 100, 512, 4_194_303] {
        let (stamp, level) = outline_geometry(&s, side);
        let (same, quarter) = outline_geometry(&s, 2 * side);
        assert_eq!(stamp, same);
        assert_eq!(f(level), 4.0 * f(quarter));
    }
}

#[test]
fn all_templates_double_with_the_radius() {
    let mut w = sim(5, (0..25).map(|i| ((i * 7) % 11) as f32 / 5.0 - 1.0).collect());
    w.behavior.preferred_enabled = true;
    w.distance = all(&(0..25).map(|i| if i % 3 == 0 { 0.1 * (i % 10) as f32 } else { 0.0 }).collect::<Vec<f32>>());
    for radius in [0.001f32, 0.37, 24.0, 1.0e30] {
        w.radius = s(radius);
        let narrow = templates(&w);
        w.radius = s(radius * 2.0);
        let wide = templates(&w);
        assert_eq!(narrow.len(), wide.len());
        for (a, b) in narrow.iter().zip(&wide) {
            assert_eq!(a.types, b.types);
            assert_eq!(a.min_per_type, b.min_per_type);
            assert_eq!(2.0 * f(a.spacing), f(b.spacing));
            assert_eq!(2.0 * f(a.expected_radius), f(b.expected_radius));
        }
    }
}

#[test]
fn outlines_of_a_huge_spacing_have_no_level() {
    let mut w = sim(1, vec![1.0]);
    w.radius = s(1.0e38);
    assert_eq!(f(outline_geometry(&w, 8).1), 0.0);
    assert_eq!(f(outline_geometry(&w, 16).1), 0.0);
}
