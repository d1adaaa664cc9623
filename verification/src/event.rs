//! Input events, as far as meshes react to them.

use vstd::prelude::*;

verus! {

/// Whether a button or key went down or up.
#[derive(Clone, Copy, Debug, PartialEq, Eq, Structural)]
pub enum ElementState {
    Pressed,
    Released,
}

/// A button of the mouse.
#[derive(Clone, Copy, Debug, PartialEq, Eq, Structural)]
pub enum MouseButton {
    Left,
    Right,
    Middle,
    Other(u16),
}

/// A key of the keyboard, by its meaning.
#[derive(Clone, Copy, Debug, PartialEq, Eq, Structural)]
pub enum VirtualKeyCode {
    G,
    Other,
}

/// An input event. A key without a known meaning comes without a key code.
#[derive(Clone, Copy, Debug, PartialEq, Eq, Structural)]
pub enum Event {
    MouseInput(ElementState, MouseButton),
    KeyboardInput(ElementState, Option<VirtualKeyCode>),
    Other,
}

/// What became of an event.
#[derive(Clone, Copy, Debug, PartialEq, Eq, Structural)]
pub enum EventResponse {
    /// The event was taken, and later handlers see it too.
    Continue,
    /// The event means nothing to the handler.
    NotHandled,
}

} // verus!
