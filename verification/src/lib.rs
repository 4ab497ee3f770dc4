//! A retained-tree user-interface runtime.
//!
//! Applications declare a fresh widget tree every frame; the runtime keeps a
//! persistent state tree alive across frames, reconciles it positionally with
//! each new widget tree, lays the tree out, hit-tests pointer events, cycles
//! keyboard focus, and reports whether a redraw is needed.

pub mod border;
pub mod command;
pub mod dispatch;
pub mod event;
pub mod focus;
pub mod geometry;
pub mod hit;
pub mod layout;
pub mod state;
pub mod ui;
pub mod widget;
