//! Decisions of the window-state manager: what to do with a loaded record on
//! startup, what to persist when the window closes, how to react to window
//! events, and the debounce of rapid saves.
//!
//! The manager itself talks to the windowing toolkit and the filesystem, and
//! turns the persisted file into a record with its JSON deserializer; every
//! choice it then makes is computed here from the plain values handed in.

use vstd::prelude::*;

use crate::state::default_state;
use crate::state::valid_state;
use crate::state::WindowState;

verus! {

/// What the windowing layer is told to do with the window.
#[derive(Clone, Copy, Debug, PartialEq, Eq, Structural)]
pub enum WindowAction {
    /// Maximize; any remembered geometry is ignored.
    Maximize,
    /// Apply this exact outer size and position.
    SetGeometry { width: u32, height: u32, x: i32, y: i32 },
    /// Center the window on the current screen.
    Center,
}

/// How a stored record is applied to a window: a maximized record maximizes,
/// whatever its geometry; a plausible record is applied verbatim; an
/// implausible one falls back to the default geometry.
pub open spec fn apply_action_of(st: WindowState) -> WindowAction {
    if st.maximized {
        WindowAction::Maximize
    } else if valid_state(st) {
        WindowAction::SetGeometry { width: st.width, height: st.height, x: st.x, y: st.y }
    } else {
        WindowAction::SetGeometry {
            width: default_state().width,
            height: default_state().height,
            x: default_state().x,
            y: default_state().y,
        }
    }
}

/// What restoration does: a loaded record is applied as `apply_action_of`
/// says; with nothing loaded the window is centered instead of being placed
/// at the default's fixed offset.  The window is revealed afterwards in
/// every case.
pub open spec fn restore_action_of(loaded: Option<WindowState>) -> WindowAction {
    match loaded {
        Some(st) => apply_action_of(st),
        None => WindowAction::Center,
    }
}

/// Decide how to apply a record to a window.
pub fn apply_decision(st: &WindowState) -> (r: WindowAction)
    ensures
        r == apply_action_of(*st),
        st.maximized ==> r == WindowAction::Maximize,
        !st.maximized && valid_state(*st) ==> r == (WindowAction::SetGeometry {
            width: st.width,
            height: st.height,
            x: st.x,
            y: st.y,
        }),
        !st.maximized && !valid_state(*st) ==> r == (WindowAction::SetGeometry {
            width: 1200,
            height: 800,
            x: 100,
            y: 100,
        }),
{
    if st.maximized {
        WindowAction::Maximize
    } else if st.is_valid() {
        WindowAction::SetGeometry { width: st.width, height: st.height, x: st.x, y: st.y }
    } else {
        let d = WindowState::default();
        WindowAction::SetGeometry { width: d.width, height: d.height, x: d.x, y: d.y }
    }
}

/// Decide what restoration does with what was loaded.
pub fn restore_decision(loaded: Option<WindowState>) -> (r: WindowAction)
    ensures
        r == restore_action_of(loaded),
        loaded is None ==> r == WindowAction::Center,
{
    match loaded {
        Some(st) => apply_decision(&st),
        None => WindowAction::Center,
    }
}

/// What the close handler does with the outcome of the synchronous capture.
#[derive(Clone, Copy, Debug, PartialEq, Eq, Structural)]
pub enum CloseAction {
    /// The capture succeeded: hand this record to a background write.
    SaveRecord(WindowState),
    /// The capture failed (the window may already be gone): skip the save
    /// rather than persist partial data.
    SkipSave,
}

/// The close-time rule: persist exactly what was captured, and nothing when
/// the capture failed.
pub open spec fn close_action_of(captured: Option<WindowState>) -> CloseAction {
    match captured {
        Some(st) => CloseAction::SaveRecord(st),
        None => CloseAction::SkipSave,
    }
}

/// Decide what to persist when the window is closing, given the outcome of
/// the capture (`None` when the geometry could not be read).
pub fn close_decision(captured: Option<WindowState>) -> (r: CloseAction)
    ensures
        r == close_action_of(captured),
        captured matches Some(st) ==> r == CloseAction::SaveRecord(st),
        captured is None ==> r == CloseAction::SkipSave,
{
    match captured {
        Some(st) => CloseAction::SaveRecord(st),
        None => CloseAction::SkipSave,
    }
}

/// The name of the persisted file under the per-user local data directory.
pub fn store_file_name() -> (r: String)
    ensures
        r@ == "window_state.json"@,
{
    "window_state.json".to_owned()
}

/// A window event the manager reacts to.
#[derive(Clone, Copy, Debug, PartialEq, Eq, Structural)]
pub enum WindowEventKind {
    /// The user asked to close the window.
    CloseRequested,
    /// The window was resized.
    Resized,
    /// The window was moved.
    Moved,
    /// Anything else.
    Other,
}

/// The manager's reaction to a window event.
#[derive(Clone, Copy, Debug, PartialEq, Eq, Structural)]
pub enum EventResponse {
    /// Capture the geometry now, before the process may exit, and hand the
    /// record to a background write.
    CaptureAndSave,
    /// Restart the debounce timer; a save fires only after a quiet period.
    ScheduleDebouncedSave,
    /// Nothing to do.
    Ignore,
}

/// The manager's event table: a close request captures and saves at once;
/// a resize or move only restarts the debounce timer; everything else is
/// ignored.
pub open spec fn response_of(e: WindowEventKind) -> EventResponse {
    match e {
        WindowEventKind::CloseRequested => EventResponse::CaptureAndSave,
        WindowEventKind::Resized => EventResponse::ScheduleDebouncedSave,
        WindowEventKind::Moved => EventResponse::ScheduleDebouncedSave,
        WindowEventKind::Other => EventResponse::Ignore,
    }
}

/// Decide the reaction to one window event.
pub fn event_response(e: WindowEventKind) -> (r: EventResponse)
    ensures
        r == response_of(e),
{
    match e {
        WindowEventKind::CloseRequested => EventResponse::CaptureAndSave,
        WindowEventKind::Resized | WindowEventKind::Moved => EventResponse::ScheduleDebouncedSave,
        WindowEventKind::Other => EventResponse::Ignore,
    }
}

/// The delay, in milliseconds, after the last resize or move before the
/// debounced save fires.
pub fn debounce_delay_ms() -> (r: u64)
    ensures
        r == 300,
{
    300
}

/// The generation counter behind the debounce: every trigger hands out a new
/// token and stales every earlier one, so of all saves scheduled during a
/// burst only the one holding the latest token fires.
#[derive(Clone, Copy, Debug, PartialEq, Eq, Structural)]
pub struct Debouncer {
    /// The token handed out by the most recent trigger.
    pub generation: u64,
}

/// The token fires exactly when it is the one the latest trigger handed out.
pub open spec fn fires(d: Debouncer, token: u64) -> bool {
    token == d.generation
}

impl Debouncer {
    /// A fresh debouncer with no trigger seen yet.
    pub fn new() -> (r: Self)
        ensures
            r.generation == 0,
    {
        Debouncer { generation: 0 }
    }

    /// Record one resize or move: stale every earlier token and hand out the
    /// token of this trigger.
    pub fn trigger(&mut self) -> (token: u64)
        requires
            old(self).generation < u64::MAX,
        ensures
            final(self).generation == old(self).generation + 1,
            token == final(self).generation,
            fires(*final(self), token),
            forall|t: u64| t <= old(self).generation ==> !fires(*final(self), t),
    {
        self.generation = self.generation + 1;
        self.generation
    }

    /// Whether the save holding `token` may still fire.
    pub fn should_fire(&self, token: u64) -> (r: bool)
        ensures
            r == fires(*self, token),
    {
        token == self.generation
    }
}

/// At most one pending save fires per quiet period: two saves holding
/// different tokens can never both fire on the same debouncer state.
pub proof fn lemma_debounce_single_fire(d: Debouncer, t1: u64, t2: u64)
    requires
        t1 != t2,
    ensures
        !(fires(d, t1) && fires(d, t2)),
{
}

} // verus!
