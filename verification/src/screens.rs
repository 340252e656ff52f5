use vstd::prelude::*;

verus! {

/// The ordinary in-dungeon view; drawing is done by the rendering layer.
#[derive(Clone, Copy, PartialEq, Eq, Structural, Debug)]
pub struct ScreenMapGeneric {}

impl ScreenMapGeneric {
    pub fn new() -> (r: ScreenMapGeneric)
        ensures
            r == (ScreenMapGeneric {}),
    {
        ScreenMapGeneric {}
    }
}

/// The victory view shown when the player leaves the dungeon with the
/// objective; drawing is done by the rendering layer.
#[derive(Clone, Copy, PartialEq, Eq, Structural, Debug)]
pub struct ScreenSuccess {}

impl ScreenSuccess {
    pub fn new() -> (r: ScreenSuccess)
        ensures
            r == (ScreenSuccess {}),
    {
        ScreenSuccess {}
    }
}

} // verus!
