use bevy::color::{Color, LinearRgba, Mix, Oklaba};
use particle_life::model::{
    hash, palette_color, palette_light, random_rules, type_colors, type_data, unpack, validate_counts, world, Appearance, GpuStatus,
    LinearColor, PaletteColor, Rgb, RuleKind, Simulation, PALETTES,
};
use particle_life::scalar::Scalar;
use particle_life::vector::Vec2;

fn s(x: f32) -> Scalar {
    Scalar { bits: x.to_bits() }
}

fn f(x: Scalar) -> f32 {
    f32::from_bits(x.bits)
}

fn v(x: f32, y: f32) -> Vec2 {
    Vec2 { x: s(x), y: s(y) }
}

fn floats(values: &[Scalar]) -> Vec<f32> {
    values.iter().map(|x| f(*x)).collect()
}

fn srgb(color: Rgb) -> Color {
    Color::srgb_u8(color.red, color.green, color.blue)
}

/// A palette color in linear light.
fn linear(color: PaletteColor) -> [f32; 3] {
    let c = match color {
        PaletteColor::Anchor(color) => srgb(color).to_linear(),
        PaletteColor::Blend { from, to, fraction } => {
            LinearRgba::from(Oklaba::from(srgb(from)).mix(&Oklaba::from(srgb(to)), f(fraction)))
        }
    };
    let converted = LinearColor { red: s(c.red), green: s(c.green), blue: s(c.blue) };
    let light = palette_light(color, converted);
    [f(light.red), f(light.green), f(light.blue)]
}

fn colors(sim: &Simulation) -> Vec<LinearColor> {
    type_colors(sim)
        .into_iter()
        .map(|color| {
            let [red, green, blue] = linear(color);
            LinearColor { red: s(red), green: s(green), blue: s(blue) }
        })
        .collect()
}

fn data(sim: &Simulation) -> Vec<f32> {
    floats(&type_data(sim, &colors(sim)))
}

#[test]
fn new_rules_are_opt_in_and_gpu_layout_matches_type_count() {
    let mut sim = Simulation::default();
    assert!(sim.swirl.iter().chain(sim.alignment.iter()).all(|x| f(*x) == 0.0));
    sim.set_rule(RuleKind::Swirl, 1, s(0.75));
    sim.set_rule(RuleKind::Alignment, 8, s(-0.5));
    let words = data(&sim);
    let colors = sim.types as usize * 4;
    let matrix = sim.types as usize * sim.types as usize;
    assert_eq!(words.len(), colors + RuleKind::ALL.len() * matrix);
    assert_eq!(words[colors..colors + matrix], floats(&sim.rules));
    assert_eq!(words[colors + matrix + 1], 0.75);
    assert_eq!(words[colors + 2 * matrix + 8], -0.5);
    assert_eq!(words[colors + matrix + 8], 0.0);
    sim.types = 13;
    sim.randomize();
    assert_eq!(data(&sim).len(), 13 * 4 + RuleKind::ALL.len() * 13 * 13);
    assert!(sim.swirl.iter().chain(sim.alignment.iter()).all(|x| f(*x) == 0.0));
}

#[test]
fn editing_and_randomizing_matrices_are_independent() {
    let mut sim = Simulation::default();
    let old_snapshot = sim.clone();
    sim.randomize_matrix(RuleKind::Swirl);
    assert_eq!(sim.rules, old_snapshot.rules);
    assert_eq!(sim.alignment, old_snapshot.alignment);
    assert_ne!(sim.swirl, old_snapshot.swirl);
    let first = sim.swirl.clone();
    sim.randomize_matrix(RuleKind::Swirl);
    assert_eq!(first, sim.swirl);
    sim.randomize_matrix(RuleKind::Alignment);
    assert_ne!(sim.swirl, sim.alignment);
    sim.set_rule(RuleKind::Swirl, 0, s(-0.25));
    assert_eq!(f(old_snapshot.swirl[0]), 0.0);
    let alignment = sim.alignment.clone();
    sim.clear_matrix(RuleKind::Swirl);
    assert!(sim.swirl.iter().all(|x| f(*x) == 0.0));
    assert_eq!(sim.alignment, alignment);
    assert!(sim.rules_revision > old_snapshot.rules_revision);
}

#[test]
fn distance_rules_and_optional_behaviors() {
    let mut sim = Simulation::default();
    assert!(!sim.behavior.preferred_enabled && !sim.behavior.density_enabled);
    assert_eq!(sim.behavior.cycle_mode, 0);
    sim.randomize_matrix(RuleKind::Distance);
    assert!(sim.distance.iter().all(|v| (0.25..=0.8).contains(&f(*v))));
    sim.set_rule(RuleKind::Distance, 0, s(-1.0));
    assert_eq!(f(sim.distance[0]), 0.0);
    sim.set_rule(RuleKind::Distance, 1, s(1.0));
    assert_eq!(f(sim.distance[1]), 0.95);
    let words = data(&sim);
    assert_eq!(
        words[sim.types as usize * 4 + sim.rules.len() * 3..],
        floats(&sim.distance)
    );
}

#[test]
fn seeded_directional_rules() {
    let a = random_rules(8, 42);
    assert_eq!(a, random_rules(8, 42));
    assert_ne!(a, random_rules(8, 43));
    assert_ne!(a[1], a[8]);
    assert!(a.iter().all(|x| (-1.0..=1.0).contains(&f(*x))));
}

#[test]
fn allocation_validation() {
    let status = GpuStatus {
        max_storage: 128 << 20,
        max_buffer: 256 << 20,
        max_dispatch: 65535,
        ..GpuStatus::default()
    };
    assert!(validate_counts(200_000, 8, &status).is_ok());
    assert!(validate_counts(1_000_000, 8, &status).is_ok(), "1M must fit");
    assert!(
        validate_counts(8_000_000, 8, &status).is_err(),
        "oversized worlds still rejected"
    );
    for (n, t) in [(0, 8), (1, 0), (u32::MAX, 8), (100_000, u32::MAX)] {
        assert!(validate_counts(n, t, &status).is_err());
    }
}

#[test]
fn evolution_defaults_are_sane_and_revision_bumps() {
    let mut sim = Simulation::default();
    assert!(sim.evolution.enabled);
    assert_eq!(f(sim.evolution.mutation), 0.12);
    assert_eq!(f(sim.evolution.cull_free_fraction), 0.02);
    assert_eq!(f(sim.evolution.influence), 1.0);
    let revision = sim.evolution.evolution_revision;
    sim.evolution.evolution_revision += 1;
    assert_ne!(sim.evolution.evolution_revision, revision);
}

#[test]
fn extended_palettes_are_finite() {
    for p in 0..4 {
        for i in 0..129 {
            assert!(linear(palette_color(p, i, 129)).iter().all(|v| v.is_finite() && *v >= 0.0));
        }
    }
}

#[test]
fn wrapping_camera_preserves_world_phase() {
    for (x, y) in [(103.25, -88.75), (-1.001, 1.001), (1.0, 1.0)] {
        let mut view = Appearance { pan: v(x, y), ..Appearance::default() };
        view.wrap_pan();
        let mut squares: f32 = 0.0;
        for (before, after) in [(x, f(view.pan.x)), (y, f(view.pan.y))] {
            assert!(after >= -1.0);
            assert!(after < 1.0);
            let periods: f32 = (before - after) / 2.0;
            squares += (periods - periods.round()).powi(2);
        }
        assert!(squares.sqrt() < 0.00001);
        let once = view.pan;
        view.wrap_pan();
        assert_eq!(view.pan, once);
    }
}

#[test]
fn wrapped_pans_have_exact_values() {
    for ((x, y), (a, b)) in [((103.25, -88.75), (-0.75, -0.75)), ((1.0, 1.0), (-1.0, -1.0)), ((0.5, -0.0), (0.5, 0.0))] {
        let mut view = Appearance { pan: v(x, y), ..Appearance::default() };
        view.wrap_pan();
        assert_eq!((f(view.pan.x), f(view.pan.y)), (a, b));
    }
}

#[test]
fn tiles_cover_the_viewport_including_soft_edges() {
    for zoom in [0.25, 1.0, 20.0] {
        for aspect in [0.4, 1.0, 16.0 / 9.0, 4.0] {
            for (x, y) in [(0.0, 0.0), (-0.999, 0.999)] {
                let view = Appearance {
                    zoom: s(zoom),
                    aspect: s(aspect),
                    pan: v(x, y),
                    ..Appearance::default()
                };
                let (first, count) = view.visible_tiles();
                let margin = f(view.size) * 2.0 / f(world());
                for (pan, half, first, count) in
                    [(x, aspect / zoom, first.x, count.x), (y, 1.0 / zoom, first.y, count.y)]
                {
                    let extent = half + margin;
                    let left = first as f32 * 2.0 - 1.0;
                    let right = (first as f32 + count as f32) * 2.0 - 1.0;
                    assert!(left <= pan - extent);
                    assert!(right >= pan + extent);
                    assert!(count > 0);
                }
            }
        }
    }
}

fn zoom(view: &mut Appearance, cursor: Vec2, viewport: Vec2, scroll: f32) {
    let growth = f(Appearance::zoom_exponent(s(scroll))).exp();
    view.zoom_at_cursor(cursor, viewport, s(scroll), s(growth));
}

#[test]
fn cursor_world_point_is_fixed_modulo_wrapping() {
    for (width, height) in [(1600.0, 900.0), (600.0, 1000.0)] {
        for scale in [1.0, 1.5, 2.0] {
            for (fx, fy) in [(0.0, 0.0), (1.0, 1.0), (0.5, 0.5), (0.2, 0.8)] {
                for scroll in [-800.0, 400.0] {
                    let mut view = Appearance {
                        pan: v(0.99, -0.99),
                        aspect: s(width / height),
                        ..Appearance::default()
                    };
                    let point = |view: &Appearance| {
                        let offset = ((fx * 2.0 - 1.0) * f(view.aspect), (fy * 2.0 - 1.0) * -1.0);
                        (
                            f(view.pan.x) + offset.0 / f(view.zoom),
                            f(view.pan.y) + offset.1 / f(view.zoom),
                        )
                    };
                    let before = point(&view);
                    zoom(
                        &mut view,
                        v(fx * width / scale, fy * height / scale),
                        v(width / scale, height / scale),
                        scroll,
                    );
                    let after = point(&view);
                    let dx = (after.0 - before.0 + 1.0f32).rem_euclid(2.0) - 1.0;
                    let dy = (after.1 - before.1 + 1.0f32).rem_euclid(2.0) - 1.0;
                    assert!((dx * dx + dy * dy).sqrt() < 0.00001, "cursor moved: {dx} {dy}");
                }
            }
        }
    }
}

#[test]
fn zoom_limits_and_invalid_viewports_do_not_move_camera() {
    for (start, scroll) in [(0.25, -100.0), (20.0, 100.0), (1.0, 0.0)] {
        let mut view = Appearance {
            zoom: s(start),
            pan: v(0.25, -0.75),
            ..Appearance::default()
        };
        let before = view;
        zoom(&mut view, v(20.0, 90.0), v(100.0, 100.0), scroll);
        assert_eq!(view.pan, before.pan);
        assert_eq!(view.zoom, before.zoom);
    }
    let mut view = Appearance::default();
    zoom(&mut view, v(1.0, 1.0), v(0.0, 0.0), 100.0);
    assert_eq!(f(view.zoom), 1.0);
    assert_eq!(view.pan, v(0.0, 0.0));
    for (cursor, viewport, scroll) in [
        (v(f32::NAN, 1.0), v(100.0, 100.0), 50.0),
        (v(1.0, 1.0), v(f32::INFINITY, 100.0), 50.0),
        (v(1.0, 1.0), v(100.0, -1.0), 50.0),
        (v(1.0, 1.0), v(100.0, 100.0), f32::INFINITY),
    ] {
        zoom(&mut view, cursor, viewport, scroll);
        assert_eq!(view, Appearance::default());
    }
}

#[test]
fn zoom_stays_between_its_limits() {
    let mut view = Appearance::default();
    for _ in 0..100 {
        zoom(&mut view, v(10.0, 20.0), v(400.0, 300.0), 240.0);
    }
    assert_eq!(f(view.zoom), 20.0);
    for _ in 0..100 {
        zoom(&mut view, v(10.0, 20.0), v(400.0, 300.0), -240.0);
    }
    assert_eq!(f(view.zoom), 0.25);
}

#[test]
fn each_refusal_says_why() {
    let status = GpuStatus {
        max_storage: 128 << 20,
        max_buffer: 256 << 20,
        max_dispatch: 65535,
        ..GpuStatus::default()
    };
    let message = |count, types, status: &GpuStatus| validate_counts(count, types, status).unwrap_err();
    assert_eq!(message(0, 8, &status), "Particle and type counts must be positive.");
    assert_eq!(message(8, 0, &status), "Particle and type counts must be positive.");
    assert_eq!(
        message(1, u32::MAX, &status),
        "Type matrix size overflows the allocation limit."
    );
    assert_eq!(message(1, 1, &GpuStatus::default()), "Waiting for the GPU to initialize.");
    assert_eq!(
        message(u32::MAX, 8, &status),
        "Requested counts exceed this GPU's buffer or dispatch limits."
    );
    let slow = GpuStatus { max_dispatch: 3, ..status };
    assert!(validate_counts(768, 8, &slow).is_ok());
    assert_eq!(
        message(769, 8, &slow),
        "Requested counts exceed this GPU's buffer or dispatch limits."
    );
    let large = GpuStatus { max_storage: 1 << 40, max_buffer: 1 << 40, max_dispatch: 65535, ..GpuStatus::default() };
    assert_eq!(
        message(8_000_000, 8, &large),
        "Requested world exceeds the simulation memory budget. Reduce particles or types."
    );
}

#[test]
fn hashes_and_rules_have_known_values() {
    fn plain(mut x: u32) -> u32 {
        x = (x ^ (x >> 16)).wrapping_mul(0x7feb352d);
        x = (x ^ (x >> 15)).wrapping_mul(0x846ca68b);
        x ^ (x >> 16)
    }
    for x in [0, 1, 42, 0xdead_beef, u32::MAX] {
        assert_eq!(hash(x), plain(x));
    }
    for (i, value) in random_rules(5, u32::MAX - 7).into_iter().enumerate() {
        let digits = plain((i as u32).wrapping_add(u32::MAX - 7)) & 0xff_ffff;
        assert_eq!(f(value), digits as f32 / 8388607.5 - 1.0);
    }
}

#[test]
fn rules_are_moved_into_their_bounds() {
    let mut sim = Simulation::default();
    for kind in [RuleKind::Attraction, RuleKind::Swirl, RuleKind::Alignment] {
        sim.set_rule(kind, 3, s(2.5));
        assert_eq!(f(sim.matrix(kind)[3]), 1.0);
        sim.set_rule(kind, 3, s(f32::NEG_INFINITY));
        assert_eq!(f(sim.matrix(kind)[3]), -1.0);
        sim.set_rule(kind, 3, s(-0.125));
        assert_eq!(f(sim.matrix(kind)[3]), -0.125);
    }
}

#[test]
fn regenerated_rules_follow_the_seed_alone() {
    let mut sim = Simulation::default();
    sim.types = 3;
    sim.seed = 7;
    sim.randomize();
    assert_eq!(sim.rules, random_rules(3, 7));
    assert!(sim.distance.iter().all(|d| f(*d) == 0.5));
    assert_eq!(sim.distance.len(), 9);
    let revision = sim.rules_revision;
    sim.randomize();
    assert_eq!(sim.rules, random_rules(3, 7));
    assert_eq!(sim.rules_revision, revision + 1);
}

#[test]
fn the_grid_keeps_between_its_limits() {
    let mut sim = Simulation::default();
    for (radius, side) in [(24.0, 85), (8.0, 256), (1.0, 256), (1000.0, 3), (0.0, 256), (f32::NAN, 3)] {
        sim.radius = s(radius);
        assert_eq!(sim.grid_side(), side);
    }
}

#[test]
fn palettes_give_anchors_first_and_blends_beyond_eight() {
    assert_eq!(unpack(0x70e1ce), Rgb { red: 0x70, green: 0xe1, blue: 0xce });
    assert_eq!(PALETTES[1].0, "Ember");
    assert_eq!(palette_color(0, 9, 8), PaletteColor::Anchor(unpack(0xa8f0b0)));
    // Type 3 of 16 lies halfway from anchor 1 to anchor 2.
    assert_eq!(
        palette_color(0, 3, 16),
        PaletteColor::Blend { from: unpack(0xa8f0b0), to: unpack(0x80b9ff), fraction: s(0.5) }
    );
    // The last types lead around to the first anchor.
    assert_eq!(
        palette_color(3, 15, 16),
        PaletteColor::Blend { from: unpack(0xe2b2d6), to: unpack(0xf5a9b8), fraction: s(0.5) }
    );
    let sim = Simulation { palette: 2, ..Simulation::default() };
    let all = type_colors(&sim);
    assert_eq!(all.len(), 32);
    assert_eq!(all[5], palette_color(2, 5, 32));
}

#[test]
fn blends_are_clipped_and_anchors_are_not() {
    let dark = LinearColor { red: s(-0.25), green: s(f32::NAN), blue: s(0.5) };
    let blend = PaletteColor::Blend { from: unpack(0), to: unpack(0), fraction: s(0.5) };
    assert_eq!(
        palette_light(blend, dark),
        LinearColor { red: s(0.0), green: s(0.0), blue: s(0.5) }
    );
    assert_eq!(palette_light(PaletteColor::Anchor(unpack(0)), dark), dark);
}

#[test]
fn labels_and_hints_name_their_kinds() {
    assert_eq!(RuleKind::ALL.map(RuleKind::label), ["Attraction", "Swirl", "Alignment", "Distance"]);
    assert_eq!(RuleKind::Attraction.hint(), "− repel · + attract");
    assert_eq!(
        RuleKind::Distance.hint(),
        "Fraction of interaction radius · zero uses the original attraction rule"
    );
    for (i, kind) in RuleKind::ALL.into_iter().enumerate() {
        assert_eq!(kind.index(), i);
    }
}
