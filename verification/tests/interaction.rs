use particle_life::interaction::{
    brush_change, cursor_world, fraction, update_dumps, wrapped_delta, BrushControl, InteractionTools, ParticleDump,
    Tool,
};
use particle_life::model::{hash, world, Appearance, GpuStatus, Simulation};
use particle_life::scalar::Scalar;
use particle_life::ui::Controls;
use particle_life::vector::Vec2;

fn s(x: f32) -> Scalar {
    Scalar { bits: x.to_bits() }
}

fn f(x: Scalar) -> f32 {
    f32::from_bits(x.bits)
}

fn v(x: f32, y: f32) -> Vec2 {
    Vec2 { x: s(x), y: s(y) }
}

fn length(p: Vec2) -> f32 {
    (f(p.x) * f(p.x) + f(p.y) * f(p.y)).sqrt()
}

#[test]
fn pointer_coordinates_match_camera_and_wrap() {
    let mut view = Appearance { aspect: s(2.0), ..Appearance::default() };
    let middle = f(world()) / 2.0;
    assert_eq!(
        cursor_world(&view, v(200.0, 100.0), v(400.0, 200.0)),
        v(middle, middle)
    );
    view.pan = v(0.9, -0.4);
    view.zoom = s(3.0);
    let cursor = v(390.0, 20.0);
    let size = v(400.0, 200.0);
    let before = cursor_world(&view, cursor, size);
    let growth = f(Appearance::zoom_exponent(s(24.0))).exp();
    view.zoom_at_cursor(cursor, size, s(24.0), s(growth));
    assert!(length(wrapped_delta(cursor_world(&view, cursor, size).sub(before))) < 0.001);
}

fn directions(dump: &ParticleDump, seed: u32) -> Vec<Vec2> {
    dump.angles(seed).into_iter().map(|angle| v(f(angle).cos(), f(angle).sin())).collect()
}

#[test]
fn dumped_particles_wrap_and_start_unassigned() {
    let side = f(world());
    let dump = ParticleDump {
        serial: 3,
        start: 50,
        count: 1000,
        center: v(side - 1.0, 1.0),
        radius: s(20.0),
    };
    let particles = dump.particles(42, 7, &directions(&dump, 42));
    assert_eq!(particles.len(), 8000);
    for particle in particles.chunks_exact(8) {
        let position = v(f32::from_bits(particle[0]), f32::from_bits(particle[1]));
        for at in [f(position.x), f(position.y)] {
            assert!(at >= 0.0 && at < side);
        }
        assert!(length(wrapped_delta(position.sub(dump.center))) <= f(dump.radius) + 0.001);
        assert!(particle[4] < 7);
        assert_eq!(&particle[5..], &[0, 0, 0]);
        assert_eq!(&particle[2..4], &[0, 0]);
    }
}

#[test]
fn particles_match_machine_arithmetic() {
    let dump = ParticleDump { serial: 9, start: 0, count: 200, center: v(1000.0, 37.5), radius: s(64.0) };
    let words = dump.particles(1234, 5, &directions(&dump, 1234));
    for i in 0..200u32 {
        let key = hash(1234 ^ 9u32.wrapping_mul(1664525) ^ i);
        let angle = (key as f64 / 4294967296.0) as f32 * std::f32::consts::TAU;
        let radius = ((hash(key) as f64 / 4294967296.0) as f32).sqrt() * 64.0;
        let x = (1000.0 + angle.cos() * radius).rem_euclid(2048.0);
        let y = (37.5 + angle.sin() * radius).rem_euclid(2048.0);
        let at = i as usize * 8;
        assert_eq!(words[at..at + 5], [x.to_bits(), y.to_bits(), 0, 0, hash(key ^ 0x9134abcd) % 5]);
    }
}

#[test]
fn fractions_match_the_machine() {
    for key in [0, 1, 2, 0xff_ffff, 0x100_0001, 0x8000_0000, 0xffff_ff7f, 0xffff_ff80, u32::MAX] {
        assert_eq!(f(fraction(key)), (key as f64 / 4294967296.0) as f32);
    }
}

#[test]
fn brushes_pull_push_or_rest() {
    assert_eq!(
        [Tool::Navigate, Tool::Attract, Tool::Repel, Tool::Dump].map(|tool| f(tool.brush_sign())),
        [0.0, 1.0, -1.0, 0.0]
    );
    assert_eq!(Tool::default(), Tool::Navigate);
}

#[test]
fn brush_settings_stay_in_range() {
    let mut tools = InteractionTools::default();
    for (control, low, high) in [
        (BrushControl::Radius, 8.0, 512.0),
        (BrushControl::Strength, 0.0, 5000.0),
        (BrushControl::Rate, 100.0, 20000.0),
    ] {
        brush_change(&mut tools, control, s(1e9));
        assert_eq!(f(tools.brush(control)), high);
        brush_change(&mut tools, control, s(-1e9));
        assert_eq!(f(tools.brush(control)), low);
        brush_change(&mut tools, control, s(200.0));
        assert_eq!(f(tools.brush(control)), 200.0);
        for invalid in [f32::NAN, f32::INFINITY, f32::NEG_INFINITY] {
            brush_change(&mut tools, control, s(invalid));
            assert_eq!(f(tools.brush(control)), 200.0);
        }
    }
}

#[test]
fn hints_carry_the_error_on_a_line_of_its_own() {
    let mut tools = InteractionTools::default();
    assert_eq!(tools.hint(), "Drag to pan · wheel to zoom · middle drag works with every tool");
    tools.tool = Tool::Repel;
    tools.error = "Particle count limit reached.".to_owned();
    assert_eq!(
        tools.hint(),
        "Hold left to repel · Shift + wheel changes radius\nParticle count limit reached."
    );
}

struct Session {
    tools: InteractionTools,
    sim: Simulation,
    controls: Controls,
    status: GpuStatus,
    remainder: Scalar,
}

impl Session {
    fn new() -> Session {
        Session {
            tools: InteractionTools {
                tool: Tool::Dump,
                active: true,
                cursor: Some(v(10.0, 20.0)),
                epoch: 1,
                ..InteractionTools::default()
            },
            sim: Simulation::default(),
            controls: Controls::default(),
            status: GpuStatus {
                max_storage: 256 << 20,
                max_buffer: 256 << 20,
                max_dispatch: 65535,
                ..GpuStatus::default()
            },
            remainder: s(0.0),
        }
    }

    fn frame(&mut self, seconds: f32) {
        update_dumps(
            s(seconds),
            &self.status,
            &mut self.tools,
            &mut self.sim,
            &mut self.controls,
            &mut self.remainder,
        );
    }
}

#[test]
fn held_button_adds_the_rate_and_carries_the_rest() {
    let mut session = Session::new();
    session.tools.rate = s(100.0);
    // 100 a second for 1/64 of a second: 1.5625 particles are due.
    session.frame(0.015625);
    assert_eq!(session.sim.count, 60_001);
    assert_eq!(session.controls.count, 60_001);
    assert_eq!(f(session.remainder), 0.5625);
    assert_eq!(session.tools.pending.len(), 1);
    assert_eq!(session.tools.serial, 1);
    let batch = session.tools.pending[0];
    assert_eq!((batch.serial, batch.start, batch.count), (1, 60_000, 1));
    assert_eq!((batch.center, batch.radius), (v(10.0, 20.0), s(64.0)));
    // Less than one particle is due: nothing is added, nothing lost.
    session.frame(0.00390625);
    assert_eq!(session.sim.count, 60_001);
    assert_eq!(f(session.remainder), 0.953125);
    session.frame(0.015625);
    assert_eq!(session.sim.count, 60_003);
    assert_eq!(f(session.remainder), 0.515625);
    assert_eq!(session.tools.pending[1].start, 60_001);
    // A long frame counts as a tenth of a second.
    session.remainder = s(0.0);
    session.frame(10.0);
    assert_eq!(session.sim.count, 60_013);
}

#[test]
fn letting_go_drops_the_part_of_a_particle() {
    let mut session = Session::new();
    session.remainder = s(0.5);
    session.tools.active = false;
    session.frame(0.1);
    assert_eq!((f(session.remainder), session.sim.count), (0.0, 60_000));
    session.remainder = s(0.5);
    session.tools.active = true;
    session.tools.tool = Tool::Attract;
    session.frame(0.1);
    assert_eq!((f(session.remainder), session.sim.count), (0.0, 60_000));
    // Off the world the button may still be held: the part stays.
    session.remainder = s(0.5);
    session.tools.tool = Tool::Dump;
    session.tools.cursor = None;
    session.frame(0.1);
    assert_eq!((f(session.remainder), session.sim.count), (0.5, 60_000));
}

#[test]
fn batches_wait_for_the_gpu_and_leave_once_taken_over() {
    let mut session = Session::new();
    for _ in 0..120 {
        session.frame(0.01);
    }
    assert_eq!(session.tools.pending.len(), 120);
    let count = session.sim.count;
    session.frame(0.01);
    assert_eq!(session.sim.count, count);
    assert_eq!(session.tools.error, "Waiting for the GPU to catch up.");
    // An acknowledgement of another world is none.
    session.status.dump_ack = (2, 100);
    session.frame(0.01);
    assert_eq!(session.tools.pending.len(), 120);
    session.status.dump_ack = (1, 100);
    session.frame(0.01);
    assert_eq!(session.tools.pending.len(), 21);
    assert_eq!(session.tools.pending[0].serial, 101);
    assert_eq!(session.tools.error, "");
    for pair in session.tools.pending.windows(2) {
        assert_eq!(pair[0].start + pair[0].count, pair[1].start);
        assert!(pair[0].serial < pair[1].serial);
    }
    let last = session.tools.pending[20];
    assert_eq!(last.start + last.count, session.sim.count);
    // A new world forgets them all.
    session.sim.epoch = 2;
    session.frame(0.01);
    assert!(session.tools.pending.is_empty() && !session.tools.active);
    assert_eq!(session.tools.epoch, 2);
}

#[test]
fn dumps_stop_at_the_limits_and_say_why() {
    let mut session = Session::new();
    session.sim.count = u32::MAX - 5;
    session.frame(0.1);
    assert_eq!(session.sim.count, u32::MAX - 5);
    assert_eq!(session.tools.error, "Particle count limit reached.");
    session.sim.count = 4_620_000;
    session.frame(0.1);
    assert_eq!(session.sim.count, 4_620_000);
    assert_eq!(
        session.tools.error,
        "Requested world exceeds the simulation memory budget. Reduce particles or types."
    );
    assert!(session.tools.pending.is_empty());
}
