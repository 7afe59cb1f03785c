use particle_life::gpu::{
    buffer_sizes, draw_plan, groups, inference, schedule, type_upload, GpuState, Params, Preparation, KERNELS,
    KERNEL_PROGENY, KERNEL_PROMOTE, KERNEL_UPDATE,
};
use particle_life::model::{
    dt, type_data, validate_counts, Appearance, GpuStatus, LinearColor, RuleKind, Simulation, SIMULATION_BUDGET,
};
use particle_life::scalar::Scalar;
use particle_life::ui::{bool_change, Toggle};
use particle_life::vector::{UVec2, UVec4, Vec4};

fn s(x: f32) -> Scalar {
    Scalar { bits: x.to_bits() }
}

fn f(x: Scalar) -> f32 {
    f32::from_bits(x.bits)
}

fn four(v: Vec4) -> [f32; 4] {
    [f(v.x), f(v.y), f(v.z), f(v.w)]
}

const NONE: Vec4 = Vec4 {
    x: Scalar { bits: 0 },
    y: Scalar { bits: 0 },
    z: Scalar { bits: 0 },
    w: Scalar { bits: 0 },
};

#[test]
fn uniforms_carry_the_settings() {
    let mut sim = Simulation::default();
    sim.behavior.density_enabled = true;
    sim.trails.enabled = true;
    sim.exact = true;
    let view = Appearance::default();
    let p = Params::new(&sim, &view, s(0.25), 0x1_0000_0007, NONE, NONE);
    assert_eq!(p.counts, UVec4 { x: 60_000, y: 32, z: 85, w: 42 });
    assert_eq!(four(p.physics), [1.0 / 60.0, 24.0, 90.0, 2.0]);
    assert_eq!(four(p.world), [2048.0, 0.2, 180.0, 1.0]);
    assert_eq!(four(p.view), [16.0 / 9.0, 0.0, 0.0, 0.5]);
    assert_eq!(four(p.timing), [0.25, 0.25, -1.0, -1.0]);
    assert_eq!(p.flags, UVec4 { x: 1, y: 7, z: 1, w: 3 });
    assert_eq!(four(p.behavior), [0.0, 0.3, 430.0, 0.0]);
    assert_eq!(four(p.cycle), [0.0, 1.0, 0.35, 3.0]);
    assert_eq!(four(p.trails), [1.0, 0.2, 50.0, 0.5]);
    assert_eq!(four(p.trail_view), [90.0, 32.0, 0.4, 512.0]);
    assert_eq!(four(p.sampling), [100.0, 3.0, 0.0, 0.0]);
    assert_eq!(four(p.evolution), [1.0, 0.12, 0.02, 1.0]);
    let display = p.for_display(UVec2 { x: 1080, y: 900 });
    assert_eq!(four(display.behavior), [0.0, 0.3, 430.0, 900.0]);
    assert_eq!(four(display.sampling), [100.0, 3.0, 1080.0, 900.0]);
    assert_eq!(display.counts, p.counts);
}

#[test]
fn detection_and_outlines_follow_the_rules() {
    let one = vec![s(1.0)];
    let zero = vec![s(0.0)];
    let mut sim = Simulation {
        types: 1,
        rules: one,
        swirl: zero.clone(),
        alignment: zero.clone(),
        distance: zero,
        ..Simulation::default()
    };
    let spacing = 0.2f32 * 24.0;
    let found = inference(&sim);
    assert_eq!(four(found.detect), [spacing * 1.5, 22.0, 30.0, 1.0]);
    assert_eq!(four(found.outline), [spacing * 2.0, 16.0 / (spacing * spacing) * 0.5, 0.3, 512.0]);
    assert!(found.outlines);
    sim.detection.outline = s(0.0);
    assert!(!inference(&sim).outlines);
    sim.detection.outline = s(0.3);
    sim.detection.enabled = false;
    let hidden = inference(&sim);
    assert!(!hidden.outlines && f(hidden.outline.z) == 0.0 && f(hidden.detect.w) == 0.0);
}

#[test]
fn steps_run_their_passes_in_order() {
    let mut sim = Simulation::default();
    sim.detection.enabled = false;
    let grid = (85u32 * 85).div_ceil(256);
    let particles = 60_000u32.div_ceil(256);
    let build = [(1, grid), (2, particles), (3, grid), (4, 1), (5, particles)];
    let mut expected = build.to_vec();
    expected.push((6, particles));
    assert_eq!(schedule(&sim), expected);
    sim.trails.enabled = true;
    expected.extend([(8, 1024), (9, 1024)]);
    assert_eq!(schedule(&sim), expected);
    sim.detection.enabled = true;
    sim.evolution.enabled = false;
    let mut expected = build.to_vec();
    expected.extend([(10, 16), (11, particles), (12, 16), (12, 16), (12, 16), (12, 16), (6, particles)]);
    expected.extend([(13, particles), (14, 16), (8, 1024), (9, 1024)]);
    assert_eq!(schedule(&sim), expected);
    sim.evolution.enabled = true;
    let passes = schedule(&sim);
    let names: Vec<_> = passes.iter().map(|(kernel, _)| KERNELS[*kernel]).collect();
    assert_eq!(
        names[11..],
        [
            "update", "creature_stats", "progeny", "promote", "creature_frame", "promote_frame", "pick_split",
            "apply_split", "count_free", "cull_select", "cull_release", "diffuse_trails", "commit_trails",
        ]
    );
    let place = |kernel| passes.iter().position(|(k, _)| *k == kernel).unwrap();
    assert!(place(KERNEL_UPDATE) < place(KERNEL_PROGENY) && place(KERNEL_PROGENY) < place(KERNEL_PROMOTE));
    assert_eq!([0, 1, 256, 257, u32::MAX].map(groups), [0, 1, 1, 2, 1 << 24]);
}

#[test]
fn refused_counts_leave_a_frame_alone() {
    let mut sim = Simulation::default();
    let mut state = GpuState::default();
    let mut status = GpuStatus::default();
    let before = state;
    let message = validate_counts(sim.count, sim.types, &status).unwrap_err();
    assert_eq!(state.start_frame(&sim, &status), Err(message));
    assert_eq!(state, before);
    status.max_storage = 256 << 20;
    status.max_buffer = 256 << 20;
    status.max_dispatch = 65535;
    let mut other = state;
    assert_eq!(state.start_frame(&sim, &status), Ok(other.begin(&sim)));
    assert_eq!(state, other);
    sim.count = 0;
    let started = state;
    assert_eq!(
        state.start_frame(&sim, &status),
        Err("Particle and type counts must be positive.".to_owned())
    );
    assert_eq!(state, started);
}

#[test]
fn incomplete_matrices_are_uploaded_as_they_are() {
    let mut sim = Simulation { types: 2, ..Simulation::default() };
    sim.rules = vec![Scalar { bits: 0 }; 3];
    sim.swirl = vec![];
    sim.alignment = vec![Scalar { bits: 0 }; 5];
    sim.distance = vec![Scalar { bits: 0 }; 1];
    assert_eq!(buffer_sizes(&sim).types, (2 * 4 + 3 + 5 + 1) * 4);
    let mut state = GpuState::default();
    state.begin(&sim);
    assert_eq!(state.buffers.unwrap().type_bytes, (2 * 4 + 3 + 5 + 1) * 4);
    let colors = vec![LinearColor { red: Scalar { bits: 1 }, green: Scalar { bits: 2 }, blue: Scalar { bits: 3 } }; 2];
    assert_eq!(type_upload(&sim, &colors).len() as u64, buffer_sizes(&sim).types);
}

#[test]
fn buffers_hold_the_world_and_fit_the_budget() {
    let mut sim = Simulation::default();
    let sizes = buffer_sizes(&sim);
    assert_eq!(sizes.particles, 60_000 * 32);
    assert_eq!(sizes.cells, 85 * 85 * 16);
    assert_eq!(sizes.neighbors, 60_000 * 16);
    assert_eq!(sizes.types, (32 * 32 * 4 + 32 * 4) * 4);
    assert_eq!(sizes.creatures, 4096 * 144);
    assert_eq!(sizes.genomes, 4096 * 16 * 8);
    assert_eq!((sizes.blocks, sizes.accumulation, sizes.births, sizes.field), (1024, 16, 32768, 2097152));
    let status = GpuStatus {
        max_storage: 256 << 20,
        max_buffer: 256 << 20,
        max_dispatch: 65535,
        ..GpuStatus::default()
    };
    // The largest world that is accepted.
    let (mut low, mut high) = (1u32, 8_000_000u32);
    while low + 1 < high {
        let middle = (low + high) / 2;
        if validate_counts(middle, sim.types, &status).is_ok() {
            low = middle;
        } else {
            high = middle;
        }
    }
    sim.count = low;
    let z = buffer_sizes(&sim);
    let total = 2 * z.particles + z.cells + z.neighbors + z.sorted + z.blocks + z.types + z.chemicals + z.accumulation
        + z.creatures + z.genomes + z.births + z.field;
    assert!(total <= SIMULATION_BUDGET);
    assert!(z.particles <= 256 << 20);
}

#[test]
fn frames_prepare_only_what_changed() {
    let mut sim = Simulation::default();
    let mut state = GpuState::default();
    let first = state.begin(&sim);
    assert_eq!(
        first,
        Preparation {
            reset: true,
            resize_cells: None,
            resize_types: None,
            upload_types: true,
            clear_trails: true,
            scatter: true,
            reset_genomes: false,
        }
    );
    let nothing = Preparation {
        reset: false,
        resize_cells: None,
        resize_types: None,
        upload_types: false,
        clear_trails: false,
        scatter: false,
        reset_genomes: false,
    };
    assert_eq!(state.begin(&sim), nothing);
    sim.radius = s(48.0);
    assert_eq!(state.begin(&sim), Preparation { resize_cells: Some(42 * 42 * 16), ..nothing });
    sim.set_rule(RuleKind::Swirl, 0, s(0.5));
    assert_eq!(state.begin(&sim), Preparation { upload_types: true, ..nothing });
    sim.palette = 1;
    assert_eq!(state.begin(&sim), Preparation { upload_types: true, ..nothing });
    sim.trails.clear_revision += 1;
    assert_eq!(state.begin(&sim), Preparation { clear_trails: true, ..nothing });
    sim.evolution.evolution_revision += 1;
    assert_eq!(state.begin(&sim), Preparation { reset_genomes: true, ..nothing });
    sim.types = 4;
    sim.randomize();
    assert_eq!(
        state.begin(&sim),
        Preparation { upload_types: true, resize_types: Some((16 * 4 + 16) * 4), ..nothing }
    );
    state.generation = 9;
    state.current = 1;
    sim.epoch += 1;
    let again = state.begin(&sim);
    assert!(again.reset && again.scatter && again.clear_trails && again.upload_types && again.reset_genomes);
    assert_eq!((state.generation, state.current), (0, 0));
}

#[test]
fn switching_and_clearing_trails_clears_the_field_alone() {
    let mut sim = Simulation::default();
    let mut state = GpuState::default();
    state.begin(&sim);
    bool_change(Toggle::Trails, true, &mut sim);
    let plan = state.begin(&sim);
    assert!(plan.clear_trails && !plan.reset && !plan.scatter);
    bool_change(Toggle::Trails, true, &mut sim);
    assert!(!state.begin(&sim).clear_trails);
    bool_change(Toggle::Trails, false, &mut sim);
    assert!(state.begin(&sim).clear_trails);
}

#[test]
fn steps_follow_the_clock_but_never_more_than_four() {
    let mut sim = Simulation::default();
    let mut state = GpuState::default();
    sim.frame_dt = s(0.02);
    assert_eq!(state.steps_due(&sim), 1);
    assert_eq!(f(state.accumulator), 0.02);
    state.finish_step(false);
    assert_eq!(f(state.accumulator), 0.02 - f(dt()));
    assert_eq!((state.current, state.generation), (1, 1));
    assert_eq!(f(state.alpha(false)), (0.02 - f(dt())) / f(dt()));
    for frame in [0.1, 5.0, f32::INFINITY, f32::NAN] {
        sim.frame_dt = s(frame);
        sim.speed = s(3.0);
        assert_eq!(state.steps_due(&sim), 4);
    }
    for _ in 0..4 {
        state.finish_step(false);
    }
    assert_eq!((state.current, state.generation), (1, 5));
    assert!(f(state.accumulator) < 1e-6);
}

#[test]
fn a_paused_world_takes_the_steps_asked_for() {
    let mut sim = Simulation::default();
    let mut state = GpuState::default();
    state.accumulator = s(0.03);
    sim.paused = true;
    assert_eq!(state.steps_due(&sim), 0);
    assert_eq!((f(state.accumulator), f(state.alpha(true))), (0.0, 1.0));
    sim.step = 3;
    assert_eq!(state.steps_due(&sim), 3);
    assert_eq!(state.steps_due(&sim), 0);
    sim.step = 50;
    assert_eq!(state.steps_due(&sim), 4);
    sim.step = 2;
    assert_eq!(state.steps_due(&sim), 0);
    assert_eq!(state.last_step, 2);
}

#[test]
fn small_dots_are_splatted() {
    let sim = Simulation::default();
    let mut view = Appearance::default();
    let plan = draw_plan(&sim, &view, 900);
    assert!(plan.splat);
    assert_eq!(plan.instances, Some(60_000 * 9));
    view.size = s(8.0);
    assert!(!draw_plan(&sim, &view, 900).splat);
    let crowd = Simulation { count: 1_000_000_000, ..sim };
    assert_eq!(draw_plan(&crowd, &view, 900).instances, None);
}

#[test]
fn targets_and_reports_are_kept_up_to_date() {
    let sim = Simulation::default();
    let mut state = GpuState::default();
    state.begin(&sim);
    let size = UVec2 { x: 100, y: 50 };
    assert_eq!(state.fit_target(size), Some(60_000));
    assert_eq!(state.fit_target(size), None);
    assert_eq!(state.fit_target(UVec2 { x: 50, y: 100 }), None);
    assert_eq!(state.fit_target(UVec2 { x: 51, y: 100 }), Some(61_200));
    assert_eq!(state.report(30, s(0.5)), None);
    assert_eq!(state.report(33, s(1.25)), Some(s(63.0 / 1.25)));
    assert_eq!(state.report(2, s(1.0)), Some(s(2.0)));
}

#[test]
fn uploads_are_the_numbers_in_memory() {
    let mut sim = Simulation::default();
    sim.types = 2;
    sim.randomize();
    let colors = vec![
        LinearColor { red: s(0.25), green: s(0.5), blue: s(0.75) },
        LinearColor { red: s(1.0), green: s(0.0), blue: s(0.125) },
    ];
    let expected: Vec<u8> = type_data(&sim, &colors).iter().flat_map(|x| f(*x).to_ne_bytes()).collect();
    let bytes = type_upload(&sim, &colors);
    assert_eq!(bytes, expected);
    assert_eq!(bytes.len() as u64, buffer_sizes(&sim).types);
    assert_eq!(bytes[..4], 0.25f32.to_ne_bytes());
    assert_eq!(bytes[12..16], 1.0f32.to_ne_bytes());
}
