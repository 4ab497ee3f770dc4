//! Input events and the messages widgets emit.

use vstd::prelude::*;

verus! {

/// A platform input event, one per dispatch pass.
#[derive(Clone, Copy, PartialEq, Eq, Structural, Debug)]
pub enum Event {
    /// The pointer moved to `(x, y)`.
    PointerMoved { x: u32, y: u32 },
    /// A pointer button went down at `(x, y)`.
    PointerPressed { x: u32, y: u32 },
    /// A pointer button came up at `(x, y)`.
    PointerReleased { x: u32, y: u32 },
    /// Tab, or Shift-Tab when `shift` is set: cycle keyboard focus.
    TabPressed { shift: bool },
    /// A character was typed; goes to the focused text input.
    TextEntered { c: char },
    /// The window was resized.
    Resized { width: u32, height: u32 },
}

/// What a widget reported about an event it handled.
#[derive(Clone, Copy, PartialEq, Eq, Structural, Debug)]
pub enum MessageKind {
    /// The widget was pressed.
    Pressed,
    /// A press on the widget was released.
    Released,
    /// The focused text input accepted a character.
    Edited,
}

/// A message emitted by widget event handling, delivered to the
/// application in the order the emitting widgets were visited.
#[derive(Clone, Copy, PartialEq, Eq, Structural, Debug)]
pub struct Message {
    /// The application-chosen id of the emitting widget.
    pub source: u64,
    /// What happened.
    pub kind: MessageKind,
}

} // verus!
