//! Settings that the logic of the views depends on.

use vstd::prelude::*;

verus! {

/// A mouse button that drags something.
#[derive(Clone, Copy, Debug, PartialEq, Eq, Structural)]
pub struct DragButton {
    pub button: u16,
    /// Whether the button has to be held down while dragging. Otherwise, it is
    /// pressed once to start dragging and once more to stop.
    pub hold: bool,
}

/// The mouse buttons of a file view.
#[derive(Clone, Copy, Debug, PartialEq, Eq, Structural)]
pub struct ViewButtons {
    pub grab_button: DragButton,
    pub scrollbar_button: DragButton,
    pub slide_button: DragButton,
    pub select_button: u16,
}

} // verus!
