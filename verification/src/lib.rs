//! Window-geometry persistence: capture, validate, persist, and restore a
//! window's size, position and maximized flag, with debounced saving.
//!
//! The persisted file holds one state record encoded as pretty-printed JSON.
//! The canonical form of that file is verified here down to the byte, and so
//! is every decision taken on a record: validation, restoration, the close
//! and event rules, and the debounce.  Reading and writing the file, turning
//! arbitrary JSON renditions of it into a record, and talking to the
//! windowing toolkit happen outside the library, which takes and returns
//! plain values.

pub mod codec;
pub mod digits;
pub mod events;
pub mod manager;
pub mod state;

use vstd::prelude::*;

verus! {

} // verus!
