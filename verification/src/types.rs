//! Shared data types of the pipeline: debounced key events and keymap
//! actions.

use vstd::prelude::*;

verus! {

/// A confirmed state change of one matrix switch, addressed by
/// (row, column). Produced by the debouncer once per electrical
/// transition that has settled, consumed by the layout engine.
#[derive(Clone, Copy, Debug, PartialEq, Eq, Structural)]
pub enum KeyEvent {
    Press(usize, usize),
    Release(usize, usize),
}

/// What one keymap cell does when its switch is pressed.
#[derive(Clone, Copy, Debug, PartialEq, Eq, Structural)]
pub enum Action {
    /// Fall through to the next lower active layer.
    Transparent,
    /// Report a HID keyboard usage code while held.
    Keycode(u8),
    /// Push the given layer onto the active-layer stack while held.
    LayerShift(usize),
    /// An out-of-band action (e.g. a reset request), surfaced through
    /// the engine's per-tick custom-event channel on release.
    Custom(u8),
}

impl KeyEvent {
    /// Row of the switch this event speaks of.
    pub open spec fn row(self) -> int {
        match self {
            KeyEvent::Press(r, _) => r as int,
            KeyEvent::Release(r, _) => r as int,
        }
    }

    /// Column of the switch this event speaks of.
    pub open spec fn col(self) -> int {
        match self {
            KeyEvent::Press(_, c) => c as int,
            KeyEvent::Release(_, c) => c as int,
        }
    }
}

} // verus!
