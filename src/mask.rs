//! The set of physical buttons that may trigger a widget.
use smallvec::SmallVec;
use vstd::prelude::*;

use crate::MouseButton;

verus! {

/// Restricts which physical buttons trigger a widget; a widget without one
/// reacts to the left button only. The buttons are kept in a small inline
/// vector, which Verus sees only through `mask_buttons`.
#[verifier::external_body]
pub struct MouseButtonMask {
    buttons: SmallVec<[MouseButton; 2]>,
}

/// The buttons a mask holds, in order.
pub uninterp spec fn mask_buttons(m: MouseButtonMask) -> Seq<MouseButton>;

/// Relies on `SmallVec::from_slice`: the new vector holds the slice's items in order.
#[verifier::external_body]
fn mask_from_slice(s: &[MouseButton]) -> (r: MouseButtonMask)
    ensures
        mask_buttons(r) == s@,
{
    MouseButtonMask { buttons: SmallVec::from_slice(s) }
}

/// Relies on `SmallVec::as_slice`: the slice shows the vector's items in order.
#[verifier::external_body]
fn mask_as_slice(m: &MouseButtonMask) -> (r: &[MouseButton])
    ensures
        r@ == mask_buttons(*m),
{
    m.buttons.as_slice()
}

impl View for MouseButtonMask {
    type V = Seq<MouseButton>;

    open spec fn view(&self) -> Seq<MouseButton> {
        mask_buttons(*self)
    }
}

impl MouseButtonMask {
    /// A mask holding exactly the given buttons.
    pub fn new(value: &[MouseButton]) -> (r: Self)
        ensures
            r@ == value@,
    {
        mask_from_slice(value)
    }

    /// Whether `button` is one of the mask's buttons.
    pub fn contains(&self, button: &MouseButton) -> (r: bool)
        ensures
            r == self@.contains(*button),
    {
        let items = mask_as_slice(self);
        let mut i: usize = 0;
        while i < items.len()
            invariant
                i <= items@.len(),
                items@ == self@,
                forall|k: int| 0 <= k < i ==> items@[k] != *button,
            decreases items@.len() - i,
        {
            if items[i] == *button {
                return true;
            }
            i = i + 1;
        }
        false
    }
}

} // verus!
