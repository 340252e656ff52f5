use vstd::prelude::*;
use crate::rect::Rect;

verus! {

/// The flavour a room was dealt during generation; it decides how the room
/// is decorated and stocked.
#[derive(Clone, Copy, PartialEq, Eq, Structural, Debug)]
pub enum RoomType {
    Collapsed,
    TreasureRoom,
    StoreRoom,
}

/// A semantic part a stamp cell can call for, from bare terrain to the
/// furniture the spawning pass turns into entities.
#[derive(Clone, Copy, PartialEq, Eq, Structural, Debug)]
pub enum RoomPart {
    Floor,
    Wall,
    Door,
    Debris,
    Bed,
    BedsideTable,
    Chair,
    Desk,
    Dresser,
    Armoire,
    Shelf,
    Table,
    Chest,
    Barrel,
    Stove,
    Counter,
    Cupboard,
    WeaponRack,
    TowelRack,
    Throne,
    Podium,
    Sconce,
}

/// One cell of a stamp: either it stamps a part onto the room, or it is
/// transparent and leaves whatever is underneath untouched.
#[derive(Clone, Copy, PartialEq, Eq, Structural, Debug)]
pub enum StampPart {
    Use(RoomPart),
    Transparent,
}

/// A symbolic 2D pattern describing room contents before concrete entities
/// are spawned. Rows are stored top to bottom, cells left to right.
#[derive(Clone, PartialEq, Eq, Debug)]
pub struct Stamp {
    pub pattern: Vec<Vec<StampPart>>,
}

impl Stamp {
    pub open spec fn spec_height(self) -> int {
        self.pattern@.len() as int
    }

    pub open spec fn spec_width(self) -> int {
        if self.pattern@.len() == 0 {
            0
        } else {
            self.pattern@[0]@.len() as int
        }
    }

    /// Every row has the same width.
    pub open spec fn well_formed(self) -> bool {
        forall|y: int|
            0 <= y < self.pattern@.len() ==> (#[trigger] self.pattern@[y])@.len()
                == self.spec_width()
    }

    pub open spec fn cell(self, x: int, y: int) -> StampPart {
        self.pattern@[y]@[x]
    }

    pub fn new(pattern: Vec<Vec<StampPart>>) -> (r: Stamp)
        ensures
            r == (Stamp { pattern }),
    {
        Stamp { pattern }
    }

    pub fn height(&self) -> (r: usize)
        ensures
            r == self.spec_height(),
    {
        self.pattern.len()
    }

    pub fn width(&self) -> (r: usize)
        ensures
            r == self.spec_width(),
    {
        if self.pattern.len() == 0 {
            0
        } else {
            self.pattern[0].len()
        }
    }

    pub fn get(&self, x: usize, y: usize) -> (r: StampPart)
        requires
            self.well_formed(),
            0 <= y < self.spec_height(),
            0 <= x < self.spec_width(),
        ensures
            r == self.cell(x as int, y as int),
    {
        self.pattern[y][x]
    }

    pub fn set(&mut self, x: usize, y: usize, part: StampPart)
        requires
            old(self).well_formed(),
            0 <= y < old(self).spec_height(),
            0 <= x < old(self).spec_width(),
        ensures
            final(self).well_formed(),
            final(self).spec_height() == old(self).spec_height(),
            final(self).spec_width() == old(self).spec_width(),
            final(self).cell(x as int, y as int) == part,
            forall|xx: int, yy: int|
                0 <= yy < final(self).spec_height() && 0 <= xx < final(self).spec_width() && !(xx
                    == x && yy == y) ==> final(self).cell(xx, yy) == old(self).cell(xx, yy),
    {
        let row = &mut self.pattern[y];
        row.set(x, part);
    }
}

/// A rectangular region of a level, its type, and the stamp its contents
/// were built from. The stamp is kept after spawning for re-decoration.
#[derive(Clone, PartialEq, Eq, Debug)]
pub struct Room {
    pub rect: Rect,
    pub room_type: Option<RoomType>,
    pub stamp: Stamp,
}

} // verus!
