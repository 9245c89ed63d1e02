//! Device actions: the vocabulary of commands the library plans for the
//! unverified actuator driver to perform.
//!
//! The library never touches hardware itself. Every function that the
//! original control flow would have ended in a mouse or keyboard primitive
//! instead appends one of these actions to a plan; the driver outside the
//! library performs them in order.

use vstd::prelude::*;

verus! {

/// One primitive command for the actuator driver.
///
/// Coordinates are absolute screen pixels; durations are milliseconds.
#[derive(PartialEq, Eq, Structural, Clone, Copy, Debug)]
pub enum DeviceAction {
    /// Move the pointer to `(x, y)` over `ms` milliseconds.
    MoveTo { x: i64, y: i64, ms: u64 },
    /// Single left click at the current pointer position.
    Click,
    /// Double left click at the current pointer position.
    DoubleClick,
    /// Press and release a key once.
    KeyClick { key: char },
    /// Press a key and leave it held.
    KeyDown { key: char },
    /// Release the currently held key.
    KeyUp,
    /// Hold a key down for `ms` milliseconds.
    KeyHold { key: char, ms: u64 },
    /// Scroll the mouse wheel by `delta` (negative scrolls down/away).
    Scroll { delta: i64 },
    /// Let the application settle for `ms` milliseconds.
    Wait { ms: u64 },
}

} // verus!
