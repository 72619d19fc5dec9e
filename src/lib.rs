//! Interaction state machine for UI widgets and typed data-binding systems.
use vstd::prelude::*;

pub mod bind;
pub mod buttons;
pub mod frame;
pub mod mask;

verus! {

/// Opaque identifier of an entity of the host store.
#[derive(Clone, Copy, Debug, PartialEq, Eq, Hash, Structural)]
pub struct Entity(pub u64);

/// A physical pointer button.
#[derive(Clone, Copy, Debug, PartialEq, Eq, Hash, Structural)]
pub enum MouseButton {
    Left,
    Right,
    Middle,
    Other(u16),
}

} // verus!
