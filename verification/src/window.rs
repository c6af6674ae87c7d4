//! The state one window keeps between host events: whether its surface is
//! gone, how many frames it drew and what the last one showed, which pointer
//! button is held, whether the on-screen keyboard was asked for, and whether
//! a renderer failure was already reported.

use vstd::prelude::*;
use crate::keyboard::MouseButton;

verus! {

/// What to do with a frame.
#[derive(Clone, Copy, Debug, PartialEq, Eq, Structural)]
pub enum FramePlan {
    /// Draw nothing: the scene is the one on screen.
    Skip,
    /// Draw frame number `frame`, logging a summary when `log` is set.
    Draw { frame: u64, log: bool },
}

/// A window's state.
pub struct WindowState {
    closed: bool,
    frame_count: u64,
    last_scene: Option<u64>,
    pressed: Option<MouseButton>,
    keyboard_visible: bool,
    failure_reported: bool,
}

pub struct WindowStateView {
    pub closed: bool,
    pub frame_count: u64,
    pub last_scene: Option<u64>,
    pub pressed: Option<MouseButton>,
    pub keyboard_visible: bool,
    pub failure_reported: bool,
}

impl View for WindowState {
    type V = WindowStateView;

    closed spec fn view(&self) -> WindowStateView {
        WindowStateView {
            closed: self.closed,
            frame_count: self.frame_count,
            last_scene: self.last_scene,
            pressed: self.pressed,
            keyboard_visible: self.keyboard_visible,
            failure_reported: self.failure_reported,
        }
    }
}

/// The frame plan for a scene with identity `scene`, and the state after
/// it: a scene identical to the last one drawn is skipped unless the
/// benchmark forces a frame; otherwise the frame is counted, the scene
/// remembered, and every 120th frame from the first logged.
pub open spec fn spec_plan_frame(v: WindowStateView, scene: u64, benchmark: bool) -> (FramePlan, WindowStateView) {
    if !benchmark && v.last_scene == Some(scene) {
        (FramePlan::Skip, v)
    } else {
        let frame = (v.frame_count + 1) as u64;
        (
            FramePlan::Draw { frame, log: frame % 120 == 1 },
            WindowStateView { frame_count: frame, last_scene: Some(scene), ..v },
        )
    }
}

impl WindowState {
    /// A window that has drawn nothing, with no button held and the
    /// keyboard not asked for.
    pub fn new() -> (state: Self)
        ensures
            state@ == (WindowStateView {
                closed: false,
                frame_count: 0,
                last_scene: None,
                pressed: None,
                keyboard_visible: false,
                failure_reported: false,
            }),
    {
        WindowState {
            closed: false,
            frame_count: 0,
            last_scene: None,
            pressed: None,
            keyboard_visible: false,
            failure_reported: false,
        }
    }

    /// The host destroyed the window's surface.
    pub fn mark_closed(&mut self)
        ensures
            final(self)@ == (WindowStateView { closed: true, ..old(self)@ }),
    {
        self.closed = true;
    }

    pub fn is_closed(&self) -> (closed: bool)
        ensures
            closed == self@.closed,
    {
        self.closed
    }

    /// How many frames the window has drawn.
    pub fn frame_count(&self) -> (count: u64)
        ensures
            count == self@.frame_count,
    {
        self.frame_count
    }

    /// Whether the window has drawn at least one frame.
    pub fn has_rendered(&self) -> (rendered: bool)
        ensures
            rendered == (self@.frame_count > 0),
    {
        self.frame_count > 0
    }

    /// Whether a frame can be drawn at all: the surface is there and the
    /// renderer is ready. Only then is a benchmark frame taken and the
    /// scene's plan made.
    pub fn can_draw(&self, renderer_ready: bool) -> (can: bool)
        ensures
            can == (!self@.closed && renderer_ready),
    {
        !self.closed && renderer_ready
    }

    /// Plan the frame for a scene with identity `scene`; see
    /// `spec_plan_frame`.
    pub fn plan_frame(&mut self, scene: u64, benchmark: bool) -> (plan: FramePlan)
        requires
            old(self)@.frame_count < u64::MAX,
        ensures
            (plan, final(self)@) == spec_plan_frame(old(self)@, scene, benchmark),
    {
        let same = match self.last_scene {
            Some(last) => last == scene,
            None => false,
        };
        if !benchmark && same {
            return FramePlan::Skip;
        }
        let frame = self.frame_count + 1;
        self.frame_count = frame;
        self.last_scene = Some(scene);
        FramePlan::Draw { frame, log: frame % 120 == 1 }
    }

    /// A button went down: it is the one held.
    pub fn press(&mut self, button: MouseButton)
        ensures
            final(self)@ == (WindowStateView { pressed: Some(button), ..old(self)@ }),
    {
        self.pressed = Some(button);
    }

    /// A button went up: none is held.
    pub fn release(&mut self)
        ensures
            final(self)@ == (WindowStateView { pressed: None, ..old(self)@ }),
    {
        self.pressed = None;
    }

    /// The button held while the pointer moves.
    pub fn pressed_button(&self) -> (button: Option<MouseButton>)
        ensures
            button == self@.pressed,
    {
        self.pressed
    }

    /// The application asks for the on-screen keyboard to be shown or
    /// hidden; the answer is whether the input method has to be told, which
    /// it has only when the request differs from the last one (showing it
    /// again would reset a composition).
    pub fn request_keyboard(&mut self, visible: bool) -> (changed: bool)
        ensures
            changed == (old(self)@.keyboard_visible != visible),
            final(self)@ == (WindowStateView { keyboard_visible: visible, ..old(self)@ }),
    {
        let changed = self.keyboard_visible != visible;
        self.keyboard_visible = visible;
        changed
    }

    /// The renderer could not be made; the answer is whether to report it,
    /// which happens once per window.
    pub fn renderer_failed(&mut self) -> (report: bool)
        ensures
            report == !old(self)@.failure_reported,
            final(self)@ == (WindowStateView { failure_reported: true, ..old(self)@ }),
    {
        let report = !self.failure_reported;
        self.failure_reported = true;
        report
    }
}

/// An unchanged scene is drawn once: planning the same scene twice, with no
/// benchmark frame, skips the second.
pub proof fn same_scene_is_drawn_once(v: WindowStateView, scene: u64)
    requires
        v.frame_count < u64::MAX,
    ensures
        spec_plan_frame(spec_plan_frame(v, scene, false).1, scene, false).0 == FramePlan::Skip,
        spec_plan_frame(spec_plan_frame(v, scene, false).1, scene, false).1 == spec_plan_frame(v, scene, false).1,
{
}

/// The edge a window is resized from.
#[derive(Clone, Copy, Debug, PartialEq, Eq, Structural)]
pub enum ResizeEdge {
    Top,
    TopRight,
    Right,
    BottomRight,
    Bottom,
    BottomLeft,
    Left,
    TopLeft,
}

/// The host's name for a resize edge.
pub open spec fn spec_edge_name(edge: ResizeEdge) -> Seq<char> {
    match edge {
        ResizeEdge::Top => "top"@,
        ResizeEdge::TopRight => "top-right"@,
        ResizeEdge::Right => "right"@,
        ResizeEdge::BottomRight => "bottom-right"@,
        ResizeEdge::Bottom => "bottom"@,
        ResizeEdge::BottomLeft => "bottom-left"@,
        ResizeEdge::Left => "left"@,
        ResizeEdge::TopLeft => "top-left"@,
    }
}

pub fn edge_name(edge: ResizeEdge) -> (name: &'static str)
    ensures
        name@ == spec_edge_name(edge),
{
    match edge {
        ResizeEdge::Top => "top",
        ResizeEdge::TopRight => "top-right",
        ResizeEdge::Right => "right",
        ResizeEdge::BottomRight => "bottom-right",
        ResizeEdge::Bottom => "bottom",
        ResizeEdge::BottomLeft => "bottom-left",
        ResizeEdge::Left => "left",
        ResizeEdge::TopLeft => "top-left",
    }
}

/// The argument that toggles fullscreen: "0" to leave it, "1" to enter it.
pub fn fullscreen_toggle(fullscreen: bool) -> (arg: &'static str)
    ensures
        arg@ == if fullscreen { "0"@ } else { "1"@ },
{
    if fullscreen { "0" } else { "1" }
}

/// A corner is named by the two edges that meet in it, the horizontal one
/// first, joined by "-"; the edges are named for the side they are on.
pub proof fn corners_join_their_edges()
    ensures
        spec_edge_name(ResizeEdge::Top) == "top"@,
        spec_edge_name(ResizeEdge::Bottom) == "bottom"@,
        spec_edge_name(ResizeEdge::Left) == "left"@,
        spec_edge_name(ResizeEdge::Right) == "right"@,
        spec_edge_name(ResizeEdge::TopLeft) == spec_edge_name(ResizeEdge::Top) + "-"@ + spec_edge_name(ResizeEdge::Left),
        spec_edge_name(ResizeEdge::TopRight) == spec_edge_name(ResizeEdge::Top) + "-"@ + spec_edge_name(ResizeEdge::Right),
        spec_edge_name(ResizeEdge::BottomLeft) == spec_edge_name(ResizeEdge::Bottom) + "-"@ + spec_edge_name(ResizeEdge::Left),
        spec_edge_name(ResizeEdge::BottomRight) == spec_edge_name(ResizeEdge::Bottom) + "-"@ + spec_edge_name(ResizeEdge::Right),
{
    reveal_strlit("top");
    reveal_strlit("bottom");
    reveal_strlit("left");
    reveal_strlit("right");
    reveal_strlit("-");
    reveal_strlit("top-left");
    reveal_strlit("top-right");
    reveal_strlit("bottom-left");
    reveal_strlit("bottom-right");
    assert("top-left"@ =~= "top"@ + "-"@ + "left"@);
    assert("top-right"@ =~= "top"@ + "-"@ + "right"@);
    assert("bottom-left"@ =~= "bottom"@ + "-"@ + "left"@);
    assert("bottom-right"@ =~= "bottom"@ + "-"@ + "right"@);
}

} // verus!
