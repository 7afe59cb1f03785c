//! What the mouse does to the view and the tools, frame by frame.
use vstd::prelude::*;

use crate::interaction::{cursor_world, InteractionTools, Tool};
use crate::model::{Appearance, GpuStatus, Simulation};
use crate::scalar::{one, scalar, two, zero, Scalar};
use crate::ui::{viewport_geometry, Action, Controls};
use crate::vector::{UVec2, Vec2};

verus! {

/// A turn of the mouse wheel.
#[derive(Clone, Copy, PartialEq, Eq, Structural, Debug)]
pub struct Wheel {
    pub turn: Vec2,
    /// The turn counts lines rather than pixels.
    pub lines: bool,
}

impl Wheel {
    /// The turn in pixels; a line is 24 of them.
    #[verifier::allow_in_spec]
    pub fn delta(self) -> Vec2
        returns
            self.turn.scale(if self.lines {
                scalar(0x41c0_0000)  // 24.0
            } else {
                one()
            }),
    {
        self.turn.scale(if self.lines {
            scalar(0x41c0_0000)  // 24.0
        } else {
            one()
        })
    }

    /// What e is raised to for the factor by which the wheel zooms.
    #[verifier::allow_in_spec]
    pub fn zoom_exponent(self) -> Scalar
        returns
            Appearance::zoom_exponent(self.delta().y),
    {
        Appearance::zoom_exponent(self.delta().y)
    }

    /// What e is raised to for the factor by which the wheel widens the brush.
    #[verifier::allow_in_spec]
    pub fn brush_exponent(self) -> Scalar
        returns
            self.delta().y.mul(scalar(0x3b83_126f)),  // 0.004
    {
        self.delta().y.mul(scalar(0x3b83_126f))  // 0.004
    }
}

/// A turn of the mouse wheel and the powers of e it asks for.
#[derive(Clone, Copy, PartialEq, Eq, Structural, Debug)]
pub struct Turn {
    pub wheel: Wheel,
    /// e to the power of the `zoom_exponent`.
    pub zoom_growth: Scalar,
    /// e to the power of the `brush_exponent`.
    pub brush_growth: Scalar,
}

/// A mouse button during one frame.
#[derive(Clone, Copy, PartialEq, Eq, Structural, Debug)]
pub struct Button {
    pub pressed: bool,
    pub just_pressed: bool,
    pub just_released: bool,
}

/// The window, the mouse and the modifier keys during one frame.
#[derive(Clone, Copy, PartialEq, Eq, Structural, Debug)]
pub struct Pointer {
    /// Physical size of the window.
    pub size: UVec2,
    pub scale: Scalar,
    pub focused: bool,
    /// In logical pixels.
    pub cursor: Option<Vec2>,
    pub over_ui: bool,
    pub left: Button,
    pub middle: Button,
    pub shift: bool,
    pub control: bool,
    pub motion: Vec2,
}

/// The part of the window that shows the world, in logical pixels.
#[derive(Clone, Copy, PartialEq, Eq, Structural, Debug)]
pub struct Screen {
    pub origin: Vec2,
    pub size: Vec2,
}

impl Pointer {
    pub open spec fn spec_screen(self, visible: bool) -> Screen {
        let (origin, size) = crate::ui::viewport_of(self.size, self.scale, visible);
        Screen { origin: origin.to_vec2().shrink(self.scale), size: size.to_vec2().shrink(self.scale) }
    }

    #[verifier::when_used_as_spec(spec_screen)]
    pub fn screen(self, visible: bool) -> (r: Screen)
        ensures
            r == self.spec_screen(visible),
    {
        let (origin, size): (UVec2, UVec2) = viewport_geometry(self.size, self.scale, visible);
        Screen { origin: origin.to_vec2().shrink(self.scale), size: size.to_vec2().shrink(self.scale) }
    }

    /// Whether the cursor is on the world, in a focused window, with no control
    /// in between.
    #[verifier::allow_in_spec]
    pub fn on_background(self, screen: Screen) -> bool
        returns
            ((match self.cursor {
                Some(p) => screen.origin.x.le(p.x) && zero().le(p.y) && p.x.lt(
                    screen.origin.x.add(screen.size.x),
                ) && p.y.lt(screen.size.y),
                None => false,
            }) && !self.over_ui && self.focused),
    {
        (match self.cursor {
            Some(p) => screen.origin.x.le(p.x) && zero().le(p.y) && p.x.lt(
                screen.origin.x.add(screen.size.x),
            ) && p.y.lt(screen.size.y),
            None => false,
        }) && !self.over_ui && self.focused
    }
}

impl Controls {
    /// The controls after the buttons went down or up.
    pub open spec fn after_buttons(self, pointer: Pointer, on_background: bool, tool: Tool) -> Controls {
        let middle = if pointer.middle.just_pressed {
            Controls { dragging: on_background, brushing: false, pointer_start: None, ..self }
        } else {
            self
        };
        let left = if pointer.left.just_pressed && !pointer.middle.pressed {
            Controls {
                pointer_start: if on_background {
                    pointer.cursor
                } else {
                    None
                },
                pointer_moved: false,
                brushing: on_background && tool != Tool::Navigate,
                dragging: on_background && tool == Tool::Navigate,
                ..middle
            }
        } else {
            middle
        };
        let moved = match (left.pointer_start, pointer.cursor) {
            (Some(start), Some(cursor)) => Controls {
                pointer_moved: left.pointer_moved || scalar(0x4080_0000).lt(cursor.distance(start)),  // 4.0
                ..left
            },
            _ => left,
        };
        let released = if pointer.left.just_released {
            Controls { pointer_start: None, brushing: false, ..moved }
        } else {
            moved
        };
        if !pointer.left.pressed && !pointer.middle.pressed {
            Controls { dragging: false, ..released }
        } else {
            released
        }
    }

    fn press(&mut self, pointer: Pointer, on_background: bool, tool: Tool)
        ensures
            *final(self) == old(self).after_buttons(pointer, on_background, tool),
    {
        if pointer.middle.just_pressed {
            self.dragging = on_background;
            self.brushing = false;
            self.pointer_start = None;
        }
        if pointer.left.just_pressed && !pointer.middle.pressed {
            self.pointer_start = if on_background {
                pointer.cursor
            } else {
                None
            };
            self.pointer_moved = false;
            self.brushing = on_background && tool != Tool::Navigate;
            self.dragging = on_background && tool == Tool::Navigate;
        }
        if let Some(start) = self.pointer_start {
            if let Some(cursor) = pointer.cursor {
                self.pointer_moved = self.pointer_moved || scalar(0x4080_0000).lt(cursor.distance(start));  // 4.0
            }
        }
        if pointer.left.just_released {
            self.pointer_start = None;
            self.brushing = false;
        }
        if !pointer.left.pressed && !pointer.middle.pressed {
            self.dragging = false;
        }
    }
}

/// The brush radius after a turn of the wheel.
#[verifier::allow_in_spec]
pub fn widened(radius: Scalar, growth: Scalar) -> Scalar
    returns
        radius.mul(growth).clamp(scalar(0x4100_0000), scalar(0x4400_0000)),  // 8.0, 512.0
{
    radius.mul(growth).clamp(scalar(0x4100_0000), scalar(0x4400_0000))  // 8.0, 512.0
}

/// What the wheel scrolls the controls by: the other way around, and sideways
/// with a modifier key.
#[verifier::allow_in_spec]
pub fn scroll_delta(pointer: Pointer, wheel: Wheel) -> Vec2
    returns
        (if pointer.shift || pointer.control {
            Vec2 { x: wheel.delta().y.neg(), y: wheel.delta().x.neg() }
        } else {
            wheel.delta().neg()
        }),
{
    if pointer.shift || pointer.control {
        Vec2 { x: wheel.delta().y.neg(), y: wheel.delta().x.neg() }
    } else {
        wheel.delta().neg()
    }
}

/// The brush radius and the view after a turn of the wheel over the world: with
/// a brush in hand and Shift held it widens the brush, otherwise it zooms.
pub open spec fn after_turn(
    radius: Scalar,
    a: Appearance,
    pointer: Pointer,
    screen: Screen,
    tool: Tool,
    turn: Turn,
) -> (Scalar, Appearance) {
    match pointer.cursor {
        Some(cursor) => if tool != Tool::Navigate && pointer.shift {
            (widened(radius, turn.brush_growth), a)
        } else {
            (
                radius,
                a.zoomed(cursor.sub(screen.origin), screen.size, turn.wheel.delta().y, turn.zoom_growth),
            )
        },
        None => (radius, a),
    }
}

/// The brush radius and the view after all turns.
pub open spec fn after_turns(
    radius: Scalar,
    a: Appearance,
    pointer: Pointer,
    screen: Screen,
    tool: Tool,
    turns: Seq<Turn>,
) -> (Scalar, Appearance)
    decreases turns.len(),
{
    if turns.len() == 0 {
        (radius, a)
    } else {
        let before = after_turns(radius, a, pointer, screen, tool, turns.drop_last());
        after_turn(before.0, before.1, pointer, screen, tool, turns.last())
    }
}

/// The view after a drag by the motion of the mouse.
#[verifier::allow_in_spec]
pub fn dragged(a: Appearance, motion: Vec2, height: Scalar) -> Appearance
    returns
        (Appearance {
            pan: a.pan.add(
                (Vec2 { x: motion.x.neg(), y: motion.y }).scale(
                    two().div(height.max(one())).div(a.zoom),
                ),
            ),
            ..a
        }).wrapped(),
{
    let scale: Scalar = two().div(height.max(one())).div(a.zoom);
    let mut after: Appearance = a;
    after.pan = a.pan.add(Vec2 { x: motion.x.neg(), y: motion.y }.scale(scale));
    after.wrap_pan();
    after
}

/// Everything one frame of input makes of the controls, the tools and the view.
pub open spec fn after_input(
    c: Controls,
    tools: InteractionTools,
    a: Appearance,
    paused: bool,
    pointer: Pointer,
    turns: Seq<Turn>,
) -> (Controls, InteractionTools, Appearance) {
    let screen = pointer.screen(c.visible);
    let on_background = pointer.on_background(screen);
    let pressed = c.after_buttons(pointer, on_background, tools.tool);
    let (radius, zoomed) = if on_background {
        after_turns(tools.radius, a, pointer, screen, tools.tool, turns)
    } else {
        (tools.radius, a)
    };
    let view = if pressed.dragging && on_background && (pointer.middle.pressed || pressed.pointer_moved) {
        dragged(zoomed, pointer.motion, screen.size.y)
    } else {
        zoomed
    };
    let cursor = match pointer.cursor {
        Some(cursor) => if on_background {
            Some(cursor_world(&view, cursor.sub(screen.origin), screen.size))
        } else {
            None
        },
        None => None,
    };
    let active = pressed.brushing && pointer.left.pressed && !pointer.middle.pressed && on_background && (!paused
        || tools.tool == Tool::Dump);
    let settled = if pointer.focused {
        pressed
    } else {
        Controls { dragging: false, brushing: false, pointer_start: None, ..pressed }
    };
    (
        settled,
        InteractionTools { radius, cursor, active: active && pointer.focused, ..tools },
        view,
    )
}

/// The scrolls of the controls that one frame of input asks for.
pub open spec fn scrolls(c: Controls, pointer: Pointer, turns: Seq<Turn>) -> Seq<Vec2> {
    if pointer.on_background(pointer.screen(c.visible)) {
        Seq::empty()
    } else {
        turns.map_values(|turn: Turn| scroll_delta(pointer, turn.wheel))
    }
}

/// Whether the background takes the focus: a button goes down on it.
pub open spec fn focuses(c: Controls, pointer: Pointer) -> bool {
    pointer.on_background(pointer.screen(c.visible)) && (pointer.middle.just_pressed || pointer.left.just_pressed
        && !pointer.middle.pressed)
}

/// What the frame of input leaves to be done outside.
#[derive(Debug)]
pub struct Response {
    /// The background takes the focus.
    pub focus: bool,
    /// One bubbling scroll for the control under the pointer, per turn.
    pub scrolls: Vec<Vec2>,
}

/// Takes in one frame of input.
pub fn input(
    pointer: Pointer,
    turns: &Vec<Turn>,
    paused: bool,
    c: &mut Controls,
    tools: &mut InteractionTools,
    a: &mut Appearance,
) -> (r: Response)
    ensures
        (*final(c), *final(tools), *final(a)) == after_input(
            *old(c),
            *old(tools),
            *old(a),
            paused,
            pointer,
            turns@,
        ),
        r.scrolls@ == scrolls(*old(c), pointer, turns@),
        r.focus == focuses(*old(c), pointer),
        r.focus == (pointer.on_background(pointer.screen(old(c).visible)) && (pointer.middle.just_pressed
            || pointer.left.just_pressed && !pointer.middle.pressed)),
{
    let screen: Screen = pointer.screen(c.visible);
    let on_background: bool = pointer.on_background(screen);
    let focus: bool = on_background && (pointer.middle.just_pressed || pointer.left.just_pressed
        && !pointer.middle.pressed);
    let tool: Tool = tools.tool;
    c.press(pointer, on_background, tool);
    let scrolls: Vec<Vec2> = if on_background {
        let (radius, view): (Scalar, Appearance) = turned(tools.radius, *a, pointer, screen, tool, turns);
        tools.radius = radius;
        *a = view;
        Vec::new()
    } else {
        all_scrolls(pointer, turns)
    };
    if c.dragging && on_background && (pointer.middle.pressed || c.pointer_moved) {
        *a = dragged(*a, pointer.motion, screen.size.y);
    }
    tools.cursor = match pointer.cursor {
        Some(cursor) => if on_background {
            Some(cursor_world(a, cursor.sub(screen.origin), screen.size))
        } else {
            None
        },
        None => None,
    };
    tools.active = c.brushing && pointer.left.pressed && !pointer.middle.pressed && on_background && (!paused
        || tool == Tool::Dump);
    if !pointer.focused {
        c.dragging = false;
        c.brushing = false;
        c.pointer_start = None;
        tools.active = false;
    }
    Response { focus, scrolls }
}

fn turned(
    radius: Scalar,
    a: Appearance,
    pointer: Pointer,
    screen: Screen,
    tool: Tool,
    turns: &Vec<Turn>,
) -> (r: (Scalar, Appearance))
    ensures
        r == after_turns(radius, a, pointer, screen, tool, turns@),
{
    let mut width: Scalar = radius;
    let mut view: Appearance = a;
    let mut i: usize = 0;
    while i < turns.len()
        invariant
            i <= turns@.len(),
            (width, view) == after_turns(radius, a, pointer, screen, tool, turns@.take(i as int)),
        decreases turns@.len() - i,
    {
        let turn: Turn = turns[i];
        proof {
            assert(turns@.take(i + 1).drop_last() =~= turns@.take(i as int));
            assert(turns@.take(i + 1).last() == turn);
        }
        if let Some(cursor) = pointer.cursor {
            if tool != Tool::Navigate && pointer.shift {
                width = widened(width, turn.brush_growth);
            } else {
                view.zoom_at_cursor(
                    cursor.sub(screen.origin),
                    screen.size,
                    turn.wheel.delta().y,
                    turn.zoom_growth,
                );
            }
        }
        i = i + 1;
    }
    assert(turns@.take(i as int) =~= turns@);
    (width, view)
}

fn all_scrolls(pointer: Pointer, turns: &Vec<Turn>) -> (r: Vec<Vec2>)
    ensures
        r@ == turns@.map_values(|turn: Turn| scroll_delta(pointer, turn.wheel)),
{
    let mut deltas: Vec<Vec2> = Vec::new();
    let mut i: usize = 0;
    while i < turns.len()
        invariant
            i <= turns@.len(),
            deltas@ == turns@.take(i as int).map_values(|turn: Turn| scroll_delta(pointer, turn.wheel)),
        decreases turns@.len() - i,
    {
        deltas.push(scroll_delta(pointer, turns[i].wheel));
        i = i + 1;
        assert(deltas@ =~= turns@.take(i as int).map_values(|turn: Turn| scroll_delta(pointer, turn.wheel)));
    }
    assert(turns@.take(i as int) =~= turns@);
    deltas
}

/// Leaving the window ends every drag and every brush stroke.
pub proof fn lemma_lost_focus_lets_go(
    c: Controls,
    tools: InteractionTools,
    a: Appearance,
    paused: bool,
    pointer: Pointer,
    turns: Seq<Turn>,
)
    requires
        !pointer.focused,
    ensures
        ({
            let (controls, after, view) = after_input(c, tools, a, paused, pointer, turns);
            &&& !controls.dragging && !controls.brushing && controls.pointer_start is None
            &&& !after.active && after.cursor is None
            &&& view == a && after.radius == tools.radius
        }),
{
}

/// Controls in front of the world catch the mouse: nothing is zoomed, dragged or
/// brushed through them, and every turn of the wheel scrolls.
pub proof fn lemma_controls_catch_the_mouse(
    c: Controls,
    tools: InteractionTools,
    a: Appearance,
    paused: bool,
    pointer: Pointer,
    turns: Seq<Turn>,
)
    requires
        pointer.over_ui,
    ensures
        ({
            let (controls, after, view) = after_input(c, tools, a, paused, pointer, turns);
            &&& view == a
            &&& after.radius == tools.radius
            &&& !after.active && after.cursor is None
            &&& scrolls(c, pointer, turns).len() == turns.len()
        }),
{
}

/// A paused world is not brushed, but still takes new particles.
pub proof fn lemma_pause_stops_brushes(
    c: Controls,
    tools: InteractionTools,
    a: Appearance,
    pointer: Pointer,
    turns: Seq<Turn>,
)
    requires
        tools.tool != Tool::Dump,
    ensures
        !after_input(c, tools, a, true, pointer, turns).1.active,
{
}

/// A key with a meaning on the background.
#[derive(Clone, Copy, PartialEq, Eq, Structural, Debug)]
pub enum Key {
    Escape,
    Tab,
    Space,
    Right,
    R,
    F11,
    Other,
}

impl Key {
    /// What the key makes of the controls.
    pub open spec fn on_controls(self, c: Controls) -> Controls {
        match self {
            Key::Escape => Controls { brushing: false, dragging: false, pointer_start: None, ..c },
            Key::Tab => Controls { visible: !c.visible, ..c },
            _ => c,
        }
    }

    /// What the key makes of the tools.
    pub open spec fn on_tools(self, tools: InteractionTools) -> InteractionTools {
        match self {
            Key::Escape => InteractionTools { tool: Tool::Navigate, active: false, ..tools },
            _ => tools,
        }
    }

    /// What the key makes of the world.
    pub open spec fn on_world(self, s: Simulation) -> Simulation {
        match self {
            Key::Space => Simulation { paused: !s.paused, ..s },
            Key::Right => if s.paused {
                Simulation { step: (s.step + 1) as u64, ..s }
            } else {
                s
            },
            Key::R => Simulation { epoch: (s.epoch + 1) as u64, ..s },
            _ => s,
        }
    }
}

/// Takes in a key while the background has the focus; releases and repeats do
/// nothing. Tells whether the window changes between full screen and windowed.
pub fn shortcut(
    key: Key,
    pressed: bool,
    repeat: bool,
    c: &mut Controls,
    tools: &mut InteractionTools,
    s: &mut Simulation,
) -> (fullscreen: bool)
    requires
        pressed && !repeat && key == Key::Right && old(s).paused ==> old(s).step < u64::MAX,
        pressed && !repeat && key == Key::R ==> old(s).epoch < u64::MAX,
    ensures
        pressed && !repeat ==> {
            &&& *final(c) == key.on_controls(*old(c))
            &&& *final(tools) == key.on_tools(*old(tools))
            &&& *final(s) == key.on_world(*old(s))
            &&& fullscreen == (key == Key::F11)
        },
        !pressed || repeat ==> *final(c) == *old(c) && *final(tools) == *old(tools) && *final(s) == *old(s)
            && !fullscreen,
{
    if !pressed || repeat {
        return false;
    }
    match key {
        Key::Escape => {
            tools.tool = Tool::Navigate;
            tools.active = false;
            c.brushing = false;
            c.dragging = false;
            c.pointer_start = None;
        },
        Key::Tab => {
            c.visible = !c.visible;
        },
        Key::Space => {
            s.paused = !s.paused;
        },
        Key::Right => {
            if s.paused {
                s.step = s.step + 1;
            }
        },
        Key::R => {
            s.epoch = s.epoch + 1;
        },
        Key::F11 => {
            return true;
        },
        Key::Other => {},
    }
    false
}

/// Keys and buttons that stand for the same thing do the same thing.
pub proof fn lemma_shortcuts_match_buttons(before: Simulation, after: Simulation, c: Controls, status: GpuStatus)
    ensures
        Action::Play.on_world(before, after, c, status) <==> after == Key::Space.on_world(before),
        Action::Step.on_world(before, after, c, status) <==> after == Key::Right.on_world(before),
        Action::Reset.on_world(before, after, c, status) <==> after == Key::R.on_world(before),
{
}

} // verus!
