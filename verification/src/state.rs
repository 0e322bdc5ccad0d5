//! The window-state record, its default value, and the validator.

use vstd::prelude::*;

verus! {

/// Snapshot of a window's geometry and maximized flag.
///
/// A record is constructed by reading live window geometry, by decoding the
/// persisted file, or as the default; it is only ever replaced whole, never
/// partially updated.
#[derive(Clone, Copy, Debug, PartialEq, Eq, Structural)]
pub struct WindowState {
    /// Outer width in pixels.
    pub width: u32,
    /// Outer height in pixels.
    pub height: u32,
    /// Horizontal screen coordinate of the outer position.
    pub x: i32,
    /// Vertical screen coordinate of the outer position.
    pub y: i32,
    /// Whether the window is maximized; geometry fields are ignored then.
    pub maximized: bool,
}

/// The geometry applied when no trustworthy record is available.
pub open spec fn default_state() -> WindowState {
    WindowState { width: 1200, height: 800, x: 100, y: 100, maximized: false }
}

/// A record is plausible when its size and position lie in ranges that keep
/// the window on a realistic screen.
pub open spec fn valid_state(s: WindowState) -> bool {
    &&& 400 <= s.width <= 4000
    &&& 300 <= s.height <= 3000
    &&& -100 <= s.x <= 2000
    &&& -100 <= s.y <= 2000
}

impl Default for WindowState {
    /// The fixed fallback geometry: 1200 x 800 at (100, 100), not maximized.
    fn default() -> (r: Self)
        ensures
            r == default_state(),
    {
        WindowState { width: 1200, height: 800, x: 100, y: 100, maximized: false }
    }
}

impl WindowState {
    /// Build a record from plain geometry values, as read from a live window.
    pub fn from_geometry(width: u32, height: u32, x: i32, y: i32, maximized: bool) -> (r: Self)
        ensures
            r == (WindowState { width, height, x, y, maximized }),
    {
        WindowState { width, height, x, y, maximized }
    }

    /// Decide whether the record is physically plausible: true exactly when
    /// 400 <= width <= 4000, 300 <= height <= 3000, -100 <= x <= 2000 and
    /// -100 <= y <= 2000.
    pub fn is_valid(&self) -> (r: bool)
        ensures
            r == valid_state(*self),
    {
        if self.width < 400 || self.height < 300 || self.width > 4000 || self.height > 3000 {
            return false;
        }
        if self.x < -100 || self.y < -100 || self.x > 2000 || self.y > 2000 {
            return false;
        }
        true
    }
}

} // verus!
