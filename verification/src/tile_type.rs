use vstd::prelude::*;

verus! {

/// Terrain of a single tile. Fixed once generation finishes, except for the
/// Door <-> Floor transition made by the door subsystem.
#[derive(Clone, Copy, PartialEq, Eq, Structural, Debug)]
pub enum TileType {
    Wall,
    Floor,
    Door,
    StairsUp,
    StairsDown,
    Exit,
}

impl TileType {
    /// A tile that a path may cross: any terrain but solid wall.
    pub open spec fn is_walkable(self) -> bool {
        self != TileType::Wall
    }
}

} // verus!
