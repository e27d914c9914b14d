//! The two decisions of the presentation surface: whether a new size can be
//! drawn to, and which of the two synchronisation modes follows the other.

use vstd::prelude::*;

verus! {

/// How frames are presented: waiting for the display, or not.
#[derive(Clone, Copy, Debug, PartialEq, Eq, Structural)]
pub enum Vsync {
    On,
    Off,
}

impl Vsync {
    /// The other mode.
    pub fn toggled(self) -> (r: Self)
        ensures
            r != self,
    {
        match self {
            Vsync::On => Vsync::Off,
            Vsync::Off => Vsync::On,
        }
    }
}

/// Whether a viewport of the given size has any pixel.
pub fn has_area(width: u32, height: u32) -> (r: bool)
    requires
        width * height <= u32::MAX,
    ensures
        r == (width > 0 && height > 0),
{
    assert(width * height > 0 <==> width > 0 && height > 0) by (nonlinear_arith);
    width * height > 0
}

} // verus!
