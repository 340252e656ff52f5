use vstd::prelude::*;

verus! {

/// A thing that can catch fire; once alight it burns for a limited number of
/// turns.
#[derive(Clone, Copy, PartialEq, Eq, Structural, Debug)]
pub struct Flammable {
    pub turns_remaining: u8,
}

impl Flammable {
    /// One turn of burning: the fire subsystem decrements the remaining
    /// turns of everything that is both flammable and on fire.
    pub fn burn(&mut self)
        requires
            old(self).turns_remaining > 0,
        ensures
            final(self).turns_remaining == old(self).turns_remaining - 1,
    {
        self.turns_remaining = self.turns_remaining - 1;
    }
}

/// Marker: the entity can be grabbed and dragged by the player.
#[derive(Clone, Copy, PartialEq, Eq, Structural, Debug, Default)]
pub struct Grabbable {}

/// Marker: the entity is currently burning.
#[derive(Clone, Copy, PartialEq, Eq, Structural, Debug, Default)]
pub struct OnFire {}

/// Marker: the entity is the player.
#[derive(Clone, Copy, PartialEq, Eq, Structural, Debug, Default)]
pub struct Player {}

/// Marker: the entity wants to let go of whatever it grabbed.
#[derive(Clone, Copy, PartialEq, Eq, Structural, Debug, Default)]
pub struct WantsToReleaseGrabbed {}

/// Camera offset of the monster-turn view relative to the player.
#[derive(Clone, Copy, PartialEq, Eq, Structural, Debug)]
pub struct MonsterState {
    pub offset_x: i32,
    pub offset_y: i32,
}

} // verus!
