use particle_life::input::{input, shortcut, Button, Key, Pointer, Turn, Wheel};
use particle_life::interaction::{InteractionTools, Tool};
use particle_life::model::{Appearance, GpuStatus, Rgb, RuleKind, Simulation};
use particle_life::panel::{
    active_text, aspect_ratio, bloom_intensity, cell, cells, cycle_text, exact_text, field_numbers, highlighted,
    hovered, outdated, palette_text, panel_key, panel_side, play_caption, scroll, scroll_limit, selection,
    sidebar_width, smoothed, tab_change, visible_cells, Cell, CellContent, TabChange,
};
use particle_life::scalar::Scalar;
use particle_life::text::{decimal, parse_whole};
use particle_life::ui::{
    activate, bool_change, enabled, float_change, integer_change, valid_integer, validate_integer_text,
    viewport_geometry, Action, Controls, Field, Gate, Integer, Toggle,
};
use particle_life::vector::{UVec2, Vec2};

fn s(x: f32) -> Scalar {
    Scalar { bits: x.to_bits() }
}

fn f(x: Scalar) -> f32 {
    f32::from_bits(x.bits)
}

fn v(x: f32, y: f32) -> Vec2 {
    Vec2 { x: s(x), y: s(y) }
}

fn u(x: u32, y: u32) -> UVec2 {
    UVec2 { x, y }
}

/// Everything the controls act on.
struct Desk {
    s: Simulation,
    a: Appearance,
    c: Controls,
    tools: InteractionTools,
    status: GpuStatus,
}

impl Desk {
    fn new() -> Desk {
        Desk {
            s: Simulation::default(),
            a: Appearance::default(),
            c: Controls::default(),
            tools: InteractionTools::default(),
            status: GpuStatus {
                max_storage: 256 * 1024 * 1024,
                max_buffer: 256 * 1024 * 1024,
                max_dispatch: 65535,
                ..GpuStatus::default()
            },
        }
    }

    fn activate(&mut self, action: Action) -> bool {
        activate(
            action,
            false,
            &mut self.s,
            &mut self.a,
            &mut self.c,
            &mut self.tools,
            &self.status,
        )
    }

    fn slide(&mut self, field: Field, disabled: bool, value: f32) {
        float_change(field, disabled, s(value), &mut self.s, &mut self.a, &self.c);
    }
}

#[test]
fn playback_and_trail_actions_preserve_semantics() {
    let mut desk = Desk::new();
    desk.activate(Action::Step);
    assert_eq!(desk.s.step, 0);
    desk.activate(Action::Play);
    desk.activate(Action::Step);
    assert_eq!(desk.s.step, 1);
    let before = desk.s.trails.clear_revision;
    let value = !desk.s.trails.enabled;
    for _ in 0..2 {
        bool_change(Toggle::Trails, value, &mut desk.s);
    }
    assert_eq!(desk.s.trails.clear_revision, before + 1);
    let before = desk.s.trails.response;
    desk.slide(Field::Response, true, 100.0);
    assert_eq!(desk.s.trails.response, before);
}

#[test]
fn regeneration_validates_before_mutating_the_world() {
    let mut desk = Desk::new();
    let before = desk.s.epoch;
    desk.c.types = u32::MAX;
    desk.activate(Action::Apply);
    assert_eq!(desk.s.epoch, before);
    assert!(!desk.c.error.is_empty());
    desk.c.count = 1000;
    desk.c.types = 4;
    desk.c.invalid[0] = true;
    desk.activate(Action::Apply);
    assert_eq!(desk.s.epoch, before);
    desk.c.invalid[0] = false;
    desk.activate(Action::Apply);
    assert_eq!((desk.s.count, desk.s.types, desk.s.epoch), (1000, 4, before + 1));
    assert_eq!(desk.c.selected, [(0, 0); 4]);
}

#[test]
fn sidebar_bounds_follow_dpi_and_visibility() {
    assert_eq!(viewport_geometry(u(1440, 900), s(1.0), true), (u(360, 0), u(1080, 900)));
    assert_eq!(viewport_geometry(u(2880, 1800), s(2.0), true), (u(720, 0), u(2160, 1800)));
    assert_eq!(viewport_geometry(u(400, 300), s(1.5), true), (u(200, 0), u(200, 300)));
    assert_eq!(viewport_geometry(u(1440, 900), s(1.0), false), (u(0, 0), u(1440, 900)));
    assert_eq!(viewport_geometry(u(0, 0), s(2.0), true), (u(0, 0), u(1, 1)));
}

#[test]
fn sidebar_zoom_keeps_world_point_under_cursor() {
    for scale in [1.0f32, 1.5, 2.0] {
        let window = u((1440.0 * scale) as u32, (900.0 * scale) as u32);
        let (origin, size) = viewport_geometry(window, s(scale), true);
        let size = (size.x as f32 / scale, size.y as f32 / scale);
        let left = (origin.x as f32 / scale, origin.y as f32 / scale);
        let cursor = (left.0 + size.0 * 0.37, left.1 + size.1 * 0.62);
        let relative = (cursor.0 - left.0, cursor.1 - left.1);
        let mut view = Appearance { aspect: s(size.0 / size.1), ..Appearance::default() };
        let offset = (
            (relative.0 / size.0 * 2.0 - 1.0) * f(view.aspect),
            (relative.1 / size.1 * 2.0 - 1.0) * -1.0,
        );
        let point = |view: &Appearance| {
            (f(view.pan.x) + offset.0 / f(view.zoom), f(view.pan.y) + offset.1 / f(view.zoom))
        };
        let before = point(&view);
        let growth = f(Appearance::zoom_exponent(s(24.0))).exp();
        view.zoom_at_cursor(v(relative.0, relative.1), v(size.0, size.1), s(24.0), s(growth));
        let after = point(&view);
        let (dx, dy) = (before.0 - after.0, before.1 - after.1);
        assert!((dx * dx + dy * dy).sqrt() < 1e-5);
    }
}

#[test]
fn integer_entry_preserves_full_unsigned_range() {
    assert_eq!(valid_integer(4_294_967_295, Integer::Seed), Some(u32::MAX));
    assert_eq!(valid_integer(16_777_217, Integer::Count), Some(16_777_217));
    assert_eq!(valid_integer(0, Integer::Seed), Some(0));
    for value in [-1, 4_294_967_296, i64::MAX] {
        assert_eq!(valid_integer(value, Integer::Count), None);
    }
    assert_eq!(valid_integer(0, Integer::Types), None);
}

#[test]
fn matrix_virtualization_is_bounded_and_clamps_edges() {
    let (first, end) = visible_cells(v(9000.0, 12000.0), v(320.0, 220.0), 100_000);
    assert_eq!(first, u(300, 400));
    assert!((end.x - first.x) * (end.y - first.y) <= 12 * 10);
    assert_eq!(visible_cells(v(0.0, 0.0), v(320.0, 220.0), 1), (u(0, 0), u(2, 2)));
    assert_eq!(
        visible_cells(v(10000.0, 10000.0), v(100.0, 100.0), 8),
        (u(9, 9), u(9, 9))
    );
}

#[test]
fn rule_panels_edit_and_clear_only_their_own_matrix() {
    let mut desk = Desk::new();
    for (index, kind) in RuleKind::ALL.into_iter().enumerate() {
        desk.activate(Action::Cell(kind, index as u32, 1));
        desk.slide(Field::Rule(kind), false, 0.1 * (index + 1) as f32);
    }
    for (index, kind) in RuleKind::ALL.into_iter().enumerate() {
        assert_eq!(desk.c.selected[index], (index as u32, 1));
        assert_eq!(
            f(Field::Rule(kind).value(&desk.s, &Appearance::default(), &desk.c)),
            0.1 * (index + 1) as f32
        );
    }
    let before: Vec<_> = RuleKind::ALL.into_iter().map(|kind| desk.s.matrix(kind).to_vec()).collect();
    desk.activate(Action::Zero(RuleKind::Swirl));
    assert!(desk.s.matrix(RuleKind::Swirl).iter().all(|v| f(*v) == 0.0));
    desk.activate(Action::Randomize(RuleKind::Swirl));
    assert!(desk.s.matrix(RuleKind::Swirl).iter().any(|v| f(*v) != 0.0));
    for kind in [RuleKind::Attraction, RuleKind::Alignment, RuleKind::Distance] {
        assert_eq!(desk.s.matrix(kind).as_slice(), before[kind.index()].as_slice());
    }
}

#[test]
fn rules_edit_selected_matrix_and_keep_distance_nonnegative() {
    let mut sim = Simulation::default();
    let mut a = Appearance::default();
    let c = Controls { selected: [(1, 2); 4], ..Controls::default() };
    let revision = sim.rules_revision;
    let selected = c.selected[RuleKind::Distance.index()];
    let index = (selected.0 * sim.types + selected.1) as usize;
    Field::Rule(RuleKind::Distance).set(s(-0.5), &mut sim, &mut a, &c);
    assert_eq!(f(sim.matrix(RuleKind::Distance)[index]), 0.0);
    assert_eq!(sim.rules_revision, revision + 1);
    Field::Rule(RuleKind::Distance).set(s(1.0), &mut sim, &mut a, &c);
    assert_eq!(f(sim.matrix(RuleKind::Distance)[index]), 0.95);
}

const FIELDS: [Field; 22] = [
    Field::Speed,
    Field::Radius,
    Field::Strength,
    Field::Damping,
    Field::Size,
    Field::Glow,
    Field::DensityTarget,
    Field::DensityStrength,
    Field::NovaThreshold,
    Field::NovaRadius,
    Field::NovaImpulse,
    Field::NovaDuration,
    Field::SampleBudget,
    Field::CycleSeconds,
    Field::CycleFraction,
    Field::CycleMin,
    Field::Response,
    Field::Deposit,
    Field::HalfLife,
    Field::Diffusion,
    Field::Sensor,
    Field::Visibility,
];

#[test]
fn sliders_read_back_and_stop_at_the_ends_of_their_ranges() {
    let mut desk = Desk::new();
    for field in FIELDS {
        let (low, high) = field.range();
        desk.slide(field, false, 1e9);
        assert_eq!(field.value(&desk.s, &desk.a, &desk.c), high, "{}", field.label());
        desk.slide(field, false, -1e9);
        assert_eq!(field.value(&desk.s, &desk.a, &desk.c), low, "{}", field.label());
        desk.slide(field, false, f32::NAN);
        assert_eq!(field.value(&desk.s, &desk.a, &desk.c), low, "{}", field.label());
    }
    // Counts take the nearest whole number.
    desk.slide(Field::SampleBudget, false, 99.5);
    assert_eq!(desk.s.behavior.sample_budget, 100);
    desk.slide(Field::CycleMin, false, 2.4);
    assert_eq!(desk.s.behavior.cycle_min_neighbors, 2);
}

#[test]
fn sliders_know_their_ranges_labels_and_gates() {
    let range = |field: Field| (f(field.range().0), f(field.range().1));
    assert_eq!(range(Field::Speed), (0.1, 3.0));
    assert_eq!(range(Field::Response), (-200.0, 200.0));
    assert_eq!(range(Field::Diffusion), (0.0, 30.0));
    assert_eq!(range(Field::Rule(RuleKind::Swirl)), (-1.0, 1.0));
    assert_eq!(range(Field::Rule(RuleKind::Distance)), (0.0, 0.95));
    assert_eq!(Field::HalfLife.label(), "Half-life (seconds)");
    assert_eq!(Field::Rule(RuleKind::Swirl).label(), "Selected rule value");
    assert_eq!(Field::NovaImpulse.gate(), Some(Gate::Nova));
    assert_eq!(Field::CycleMin.gate(), Some(Gate::Neighbors));
    assert_eq!(Field::Speed.gate(), None);
    assert_eq!(
        (Field::Rule(RuleKind::Swirl).precision(), Field::CycleMin.precision(), Field::Glow.precision()),
        (3, 0, 2)
    );
}

#[test]
fn gates_open_with_their_behaviors() {
    let mut sim = Simulation::default();
    for gate in [Gate::Density, Gate::Nova, Gate::Cycle, Gate::Neighbors, Gate::Trails, Gate::Step] {
        assert!(!enabled(gate, &sim));
    }
    sim.behavior.cycle_mode = 1;
    assert!(enabled(Gate::Cycle, &sim) && !enabled(Gate::Neighbors, &sim));
    sim.behavior.cycle_mode = 2;
    assert!(enabled(Gate::Neighbors, &sim));
    sim.paused = true;
    assert!(enabled(Gate::Step, &sim));
    for toggle in [Toggle::Clustered, Toggle::Preferred, Toggle::Density, Toggle::Nova, Toggle::Trails] {
        for value in [true, false, true] {
            bool_change(toggle, value, &mut sim);
            assert_eq!(toggle.value(&sim), value);
        }
    }
    assert!(enabled(Gate::Density, &sim) && enabled(Gate::Nova, &sim) && enabled(Gate::Trails, &sim));
}

#[test]
fn buttons_do_what_they_say() {
    let mut desk = Desk::new();
    assert!(desk.activate(Action::Hide) && !desk.c.visible);
    assert!(desk.activate(Action::Show) && desk.c.visible);
    desk.c.brushing = true;
    desk.c.dragging = true;
    desk.tools.active = true;
    assert!(!desk.activate(Action::Tool(Tool::Dump)));
    assert_eq!(desk.tools.tool, Tool::Dump);
    assert!(!desk.tools.active && !desk.c.brushing && !desk.c.dragging);
    let epoch = desk.s.epoch;
    desk.activate(Action::Reset);
    assert_eq!(desk.s.epoch, epoch + 1);
    desk.a.pan = v(0.5, -0.5);
    desk.a.zoom = s(7.0);
    desk.activate(Action::ResetView);
    assert_eq!((desk.a.pan, f(desk.a.zoom)), (v(0.0, 0.0), 1.0));
    desk.activate(Action::ClearTrails);
    assert_eq!(desk.s.trails.clear_revision, 1);
    desk.activate(Action::Palette(2));
    desk.activate(Action::Cycle(3));
    desk.activate(Action::Exact(true));
    assert_eq!((desk.s.palette, desk.s.behavior.cycle_mode, desk.s.exact), (2, 3, true));
    let seed = desk.s.seed;
    desk.activate(Action::Randomize(RuleKind::Alignment));
    assert_eq!(desk.s.seed, particle_life::model::hash(seed));
    // A disabled control does nothing.
    let paused = desk.s.paused;
    let focus = activate(
        Action::Hide,
        true,
        &mut desk.s,
        &mut desk.a,
        &mut desk.c,
        &mut desk.tools,
        &desk.status,
    );
    assert!(!focus && desk.c.visible && desk.s.paused == paused);
}

#[test]
fn refused_counts_say_why_and_keep_the_selection() {
    let mut desk = Desk::new();
    desk.c.selected = [(3, 4); 4];
    desk.c.count = 0;
    desk.activate(Action::Apply);
    assert_eq!(desk.c.error, "Particle and type counts must be positive.");
    assert_eq!(desk.c.selected, [(3, 4); 4]);
    desk.c.count = 500;
    desk.c.types = 5;
    desk.activate(Action::Apply);
    assert_eq!(desk.c.error, "");
    assert_eq!(desk.s.rules.len(), 25);
    assert!(desk.s.distance.iter().all(|d| f(*d) == 0.5));
}

#[test]
fn numbers_are_taken_over_or_refused() {
    const ERROR: &str = "Enter an integer within the allowed range: counts 1–4294967295; seed 0–4294967295.";
    let mut desk = Desk::new();
    integer_change(Integer::Count, 5, &mut desk.s, &mut desk.c);
    integer_change(Integer::Types, 6, &mut desk.s, &mut desk.c);
    integer_change(Integer::Seed, 0, &mut desk.s, &mut desk.c);
    assert_eq!((desk.c.count, desk.c.types, desk.s.seed), (5, 6, 0));
    integer_change(Integer::Count, 0, &mut desk.s, &mut desk.c);
    assert_eq!((desk.c.count, desk.c.error.as_str()), (5, ERROR));
    // Another field's invalid text keeps the message.
    desk.c.invalid[2] = true;
    integer_change(Integer::Count, 7, &mut desk.s, &mut desk.c);
    assert_eq!((desk.c.count, desk.c.error.as_str()), (7, ERROR));
    desk.c.invalid[2] = false;
    integer_change(Integer::Count, 8, &mut desk.s, &mut desk.c);
    assert_eq!((desk.c.count, desk.c.error.as_str()), (8, ""));
    for text in ["", "-", "+", "12x", " 1", "1.5", "4294967296", "99999999999999999999", "-1"] {
        validate_integer_text(Integer::Seed, text, &mut desk.c);
        assert_eq!(desk.c.invalid, [false, false, true], "{text}");
        assert_eq!(desk.c.error, ERROR);
    }
    for text in ["0", "+7", "-0", "007", "4294967295"] {
        validate_integer_text(Integer::Seed, text, &mut desk.c);
        assert_eq!(desk.c.invalid, [false; 3], "{text}");
        assert_eq!(desk.c.error, "");
    }
    validate_integer_text(Integer::Count, "0", &mut desk.c);
    validate_integer_text(Integer::Types, "3", &mut desk.c);
    assert_eq!(desk.c.invalid, [true, false, false]);
    let epoch = desk.s.epoch;
    desk.activate(Action::Apply);
    assert_eq!(desk.s.epoch, epoch, "invalid text blocks regeneration");
}

#[test]
fn whole_numbers_parse_and_print_like_the_machine() {
    for text in [
        "0", "-0", "+0", "9223372036854775807", "9223372036854775808", "-9223372036854775808",
        "-9223372036854775809", "00012", "1 ", "_1", "--1", "+-1", "abc", "", "+", "-", "٣", "1_000",
    ] {
        assert_eq!(parse_whole(text), text.parse::<i64>().ok(), "{text}");
    }
    for n in [0, 9, 10, 99, 100, 12345, u32::MAX as u64, u64::MAX] {
        assert_eq!(decimal(n), n.to_string());
        assert_eq!(parse_whole(&decimal(n)), n.to_string().parse::<i64>().ok());
    }
}

const UP: Button = Button { pressed: false, just_pressed: false, just_released: false };
const DOWN: Button = Button { pressed: true, just_pressed: true, just_released: false };
const HELD: Button = Button { pressed: true, just_pressed: false, just_released: false };
const RELEASED: Button = Button { pressed: false, just_pressed: false, just_released: true };

fn pointer(x: f32, y: f32) -> Pointer {
    Pointer {
        size: u(1440, 900),
        scale: s(1.0),
        focused: true,
        cursor: Some(v(x, y)),
        over_ui: false,
        left: UP,
        middle: UP,
        shift: false,
        control: false,
        motion: v(0.0, 0.0),
    }
}

fn turn(y: f32, lines: bool) -> Turn {
    let wheel = Wheel { turn: v(0.0, y), lines };
    Turn {
        wheel,
        zoom_growth: s(f(wheel.zoom_exponent()).exp()),
        brush_growth: s(f(wheel.brush_exponent()).exp()),
    }
}

impl Desk {
    fn input(&mut self, pointer: Pointer, turns: Vec<Turn>) -> particle_life::input::Response {
        input(pointer, &turns, self.s.paused, &mut self.c, &mut self.tools, &mut self.a)
    }
}

#[test]
fn dragging_pans_once_the_pointer_has_moved() {
    let mut desk = Desk::new();
    let response = desk.input(Pointer { left: DOWN, ..pointer(700.0, 300.0) }, vec![]);
    assert!(response.focus && desk.c.dragging && !desk.c.brushing);
    // A jitter of a few pixels is no drag yet.
    let jitter = Pointer { left: HELD, motion: v(3.0, 0.0), ..pointer(703.0, 300.0) };
    desk.input(jitter, vec![]);
    assert_eq!(desk.a.pan, v(0.0, 0.0));
    let drag = Pointer { left: HELD, motion: v(45.0, -90.0), ..pointer(750.0, 210.0) };
    desk.input(drag, vec![]);
    let scale = 2.0f32 / 900.0;
    let wrapped = |x: f32| (x + 1.0).rem_euclid(2.0) - 1.0;
    assert_eq!(
        (f(desk.a.pan.x), f(desk.a.pan.y)),
        (wrapped(-45.0 * scale), wrapped(-90.0 * scale))
    );
    desk.input(Pointer { left: RELEASED, ..pointer(750.0, 210.0) }, vec![]);
    assert!(!desk.c.dragging && desk.c.pointer_start.is_none());
    // The middle button drags at once, with every tool.
    desk.tools.tool = Tool::Attract;
    let pan = desk.a.pan;
    let middle = Pointer { middle: DOWN, motion: v(10.0, 0.0), ..pointer(750.0, 210.0) };
    assert!(desk.input(middle, vec![]).focus);
    assert_ne!(desk.a.pan, pan);
}

#[test]
fn brushes_act_on_the_world_only() {
    let mut desk = Desk::new();
    desk.tools.tool = Tool::Repel;
    desk.input(Pointer { left: DOWN, ..pointer(900.0, 450.0) }, vec![]);
    assert!(desk.c.brushing && desk.tools.active && !desk.c.dragging);
    assert_eq!(desk.tools.cursor, Some(v(1024.0, 1024.0)));
    // Over the sidebar nothing is brushed.
    desk.input(Pointer { left: HELD, ..pointer(100.0, 450.0) }, vec![]);
    assert!(!desk.tools.active && desk.tools.cursor.is_none());
    desk.input(Pointer { left: HELD, over_ui: true, ..pointer(900.0, 450.0) }, vec![]);
    assert!(!desk.tools.active);
    // A paused world is not brushed, but takes new particles.
    desk.s.paused = true;
    desk.input(Pointer { left: HELD, ..pointer(900.0, 450.0) }, vec![]);
    assert!(!desk.tools.active);
    desk.tools.tool = Tool::Dump;
    desk.input(Pointer { left: HELD, ..pointer(900.0, 450.0) }, vec![]);
    assert!(desk.tools.active);
    // Losing the focus lets go.
    desk.input(Pointer { left: HELD, focused: false, ..pointer(900.0, 450.0) }, vec![]);
    assert!(!desk.tools.active && !desk.c.brushing && desk.c.pointer_start.is_none());
}

#[test]
fn the_wheel_zooms_widens_or_scrolls() {
    let mut desk = Desk::new();
    let response = desk.input(pointer(900.0, 450.0), vec![turn(1.0, true), turn(-12.0, false)]);
    assert!(response.scrolls.is_empty() && !response.focus);
    assert_eq!(f(desk.a.zoom), 1.0 * (24.0f32 * 0.002).exp() * (-12.0f32 * 0.002).exp());
    let zoom = desk.a.zoom;
    desk.tools.tool = Tool::Attract;
    desk.input(Pointer { shift: true, ..pointer(900.0, 450.0) }, vec![turn(2.0, true)]);
    assert_eq!(desk.a.zoom, zoom);
    assert_eq!(f(desk.tools.radius), 64.0 * (48.0f32 * 0.004).exp());
    for _ in 0..100 {
        desk.input(Pointer { shift: true, ..pointer(900.0, 450.0) }, vec![turn(2.0, true)]);
    }
    assert_eq!(f(desk.tools.radius), 512.0);
    let over = Pointer { over_ui: true, ..pointer(100.0, 450.0) };
    assert_eq!(desk.input(over, vec![turn(2.0, true)]).scrolls, vec![v(-0.0, -48.0)]);
    let sideways = Pointer { control: true, ..over };
    assert_eq!(desk.input(sideways, vec![turn(2.0, false)]).scrolls, vec![v(-2.0, -0.0)]);
    assert_eq!(desk.a.zoom, zoom);
}

#[test]
fn keys_act_once_per_press() {
    let mut desk = Desk::new();
    let mut press = |desk: &mut Desk, key, pressed, repeat| {
        shortcut(key, pressed, repeat, &mut desk.c, &mut desk.tools, &mut desk.s)
    };
    press(&mut desk, Key::Tab, true, false);
    assert!(!desk.c.visible);
    press(&mut desk, Key::Tab, false, false);
    press(&mut desk, Key::Tab, true, true);
    assert!(!desk.c.visible);
    press(&mut desk, Key::Tab, true, false);
    assert!(desk.c.visible);
    press(&mut desk, Key::Right, true, false);
    assert_eq!(desk.s.step, 0);
    press(&mut desk, Key::Space, true, false);
    press(&mut desk, Key::Right, true, false);
    assert_eq!((desk.s.paused, desk.s.step), (true, 1));
    let epoch = desk.s.epoch;
    press(&mut desk, Key::R, true, false);
    assert_eq!(desk.s.epoch, epoch + 1);
    desk.tools.tool = Tool::Dump;
    desk.tools.active = true;
    desk.c.brushing = true;
    desk.c.pointer_start = Some(v(1.0, 2.0));
    press(&mut desk, Key::Escape, true, false);
    assert_eq!(desk.tools.tool, Tool::Navigate);
    assert!(!desk.tools.active && !desk.c.brushing && desk.c.pointer_start.is_none());
    assert!(press(&mut desk, Key::F11, true, false));
    assert!(!press(&mut desk, Key::F11, true, true));
    assert!(!press(&mut desk, Key::Other, true, false));
}

#[test]
fn scrolling_stops_at_the_content_and_hands_on_the_rest() {
    let limit = scroll_limit(v(600.0, 400.0), v(200.0, 500.0), s(0.5));
    assert_eq!(limit, v(200.0, 0.0));
    let both = scroll(v(150.0, 0.0), v(80.0, 30.0), limit, true, true);
    assert_eq!((both.position, both.delta, both.done), (v(200.0, 0.0), v(30.0, 30.0), false));
    let inside = scroll(v(150.0, 0.0), v(-80.0, 0.0), limit, true, true);
    assert_eq!((inside.position, inside.delta, inside.done), (v(70.0, 0.0), v(0.0, 0.0), true));
    let fixed = scroll(v(150.0, 0.0), v(-80.0, 5.0), limit, false, true);
    assert_eq!((fixed.position, fixed.delta, fixed.done), (v(150.0, 0.0), v(-80.0, 5.0), false));
}

#[test]
fn matrix_cells_show_headers_values_and_the_selection() {
    let mut sim = Simulation::default();
    let mut c = Controls::default();
    let at = |sim: &Simulation, c: &Controls, x, y| cell(sim, c, RuleKind::Attraction, x, y).content;
    assert_eq!(at(&sim, &c, 0, 0), CellContent::Corner);
    assert_eq!(at(&sim, &c, 7, 0), CellContent::Header(7));
    assert_eq!(at(&sim, &c, 0, 32), CellContent::Header(32));
    c.selected[0] = (2, 5);
    sim.set_rule(RuleKind::Attraction, 2 * 32 + 5, s(0.5));
    assert_eq!(
        at(&sim, &c, 6, 3),
        CellContent::Entry {
            row: 2,
            column: 5,
            color: Rgb { red: 28, green: 55 + 45, blue: 65 + 90 },
            selected: true,
        }
    );
    sim.set_rule(RuleKind::Attraction, 2 * 32 + 5, s(-1.0));
    c.selected[0] = (5, 2);
    assert_eq!(
        at(&sim, &c, 6, 3),
        CellContent::Entry {
            row: 2,
            column: 5,
            color: Rgb { red: 65 + 180, green: 35 + 60, blue: 40 },
            selected: false,
        }
    );
    let some = cells(&sim, &c, RuleKind::Attraction, u(3, 0), u(5, 3));
    let places: Vec<_> = some.iter().map(|cell: &Cell| (cell.x, cell.y)).collect();
    assert_eq!(places, [(3, 0), (4, 0), (3, 1), (4, 1), (3, 2), (4, 2)]);
    assert_eq!((f(some[3].left), f(some[3].top)), (120.0, 30.0));
    assert!(cells(&sim, &c, RuleKind::Attraction, u(33, 33), u(33, 33)).is_empty());
    assert_eq!(f(panel_side(32)), 990.0);
    assert_eq!(hovered(&sim, RuleKind::Attraction, 6, 3), Some(s(-1.0)));
    assert_eq!(hovered(&sim, RuleKind::Attraction, 6, 0), None);
}

#[test]
fn panels_are_drawn_anew_when_something_changes() {
    let mut sim = Simulation::default();
    let mut c = Controls::default();
    let key = |sim: &Simulation, c: &Controls| panel_key(sim, c, RuleKind::Swirl, u(0, 0), u(3, 3));
    let before = key(&sim, &c);
    c.selected[0] = (1, 1);
    assert_eq!(key(&sim, &c), before);
    c.selected[1] = (1, 1);
    assert_ne!(key(&sim, &c), before);
    let before = key(&sim, &c);
    sim.set_rule(RuleKind::Swirl, 0, s(0.5));
    assert_ne!(key(&sim, &c), before);
}

#[test]
fn the_selected_rule_is_described() {
    let mut sim = Simulation::default();
    let c = Controls { selected: [(1, 2); 4], ..Controls::default() };
    sim.set_rule(RuleKind::Distance, 34, s(0.1));
    let shown = selection(&sim, &c, RuleKind::Distance);
    assert_eq!((shown.row, shown.column, f(shown.value)), (2, 3, 0.1));
    assert_eq!(shown.separation.map(f), Some(0.2 * 24.0));
    sim.set_rule(RuleKind::Distance, 34, s(0.0));
    assert_eq!(selection(&sim, &c, RuleKind::Distance).separation, None);
    assert_eq!(selection(&sim, &c, RuleKind::Attraction).separation, None);
}

#[test]
fn texts_follow_the_world() {
    let mut sim = Simulation::default();
    assert_eq!(active_text(&sim), "Active: 60000 particles · 32 types");
    assert_eq!(palette_text(&sim), "Palette: Aurora");
    for (mode, text) in ["Off", "Timer", "Neighbors", "Either"].into_iter().enumerate() {
        sim.behavior.cycle_mode = mode as u32;
        assert_eq!(cycle_text(&sim), format!("Type cycling: {text}"));
    }
    assert_eq!((play_caption(&sim), exact_text(&sim)), ("Pause", ""));
    sim.paused = true;
    sim.exact = true;
    assert_eq!(play_caption(&sim), "Play");
    assert_eq!(exact_text(&sim), "Exact evaluates every nearby particle; dense clusters cost more.");
    assert!(highlighted(Action::Exact(true), &sim, Tool::Navigate));
    assert!(!highlighted(Action::Exact(false), &sim, Tool::Navigate));
    assert!(highlighted(Action::Tool(Tool::Dump), &sim, Tool::Dump));
    assert!(!highlighted(Action::Tool(Tool::Dump), &sim, Tool::Repel));
    assert!(!highlighted(Action::Play, &sim, Tool::Repel));
}

#[test]
fn numbers_shown_follow_the_numbers_kept() {
    let sim = Simulation::default();
    let c = Controls::default();
    let now = field_numbers(&sim, &c);
    assert_eq!(now, [100_000, 8, 42]);
    assert!(outdated(Integer::Seed, None, now));
    assert!(!outdated(Integer::Seed, Some(now), now));
    assert!(outdated(Integer::Types, Some([100_000, 9, 42]), now));
    assert_eq!(f(smoothed(s(60.0), s(0.01))), 60.0 + (1.0 / 0.01 - 60.0) * 0.05);
    assert_eq!(f(smoothed(s(60.0), s(0.0))), 60.0 + (1.0f32 / 0.001 - 60.0) * 0.05);
    assert_eq!(f(sidebar_width(u(2880, 1800), s(2.0), true)), 360.0);
    assert_eq!(f(aspect_ratio(u(1080, 900))), 1.2);
    assert_eq!(f(bloom_intensity(&Appearance::default())), 0.25 * 0.6);
}

#[test]
fn hidden_controls_leave_the_tab_order_and_return() {
    assert_eq!(tab_change(true, 4, None), TabChange::Hide(4));
    assert_eq!(tab_change(true, -1, Some(4)), TabChange::Keep);
    assert_eq!(tab_change(false, -1, Some(4)), TabChange::Restore(4));
    assert_eq!(tab_change(false, 4, None), TabChange::Keep);
}
