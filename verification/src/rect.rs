use vstd::prelude::*;

verus! {

/// An axis-aligned rectangle of tiles, corners inclusive.
#[derive(Clone, Copy, PartialEq, Eq, Structural, Debug)]
pub struct Rect {
    pub x1: i32,
    pub y1: i32,
    pub x2: i32,
    pub y2: i32,
}

impl Rect {
    /// True when both corners are ordered, so the rectangle is non-empty.
    pub open spec fn well_formed(self) -> bool {
        self.x1 <= self.x2 && self.y1 <= self.y2
    }

    /// Does the rectangle contain the point, corners included?
    pub open spec fn spec_contains(self, x: int, y: int) -> bool {
        self.x1 <= x <= self.x2 && self.y1 <= y <= self.y2
    }

    pub fn new(x1: i32, y1: i32, x2: i32, y2: i32) -> (r: Rect)
        ensures
            r == (Rect { x1, y1, x2, y2 }),
    {
        Rect { x1, y1, x2, y2 }
    }

    pub fn contains(&self, x: i32, y: i32) -> (r: bool)
        ensures
            r == self.spec_contains(x as int, y as int),
    {
        self.x1 <= x && x <= self.x2 && self.y1 <= y && y <= self.y2
    }

    /// Does this rectangle share at least one tile with the other?
    pub fn intersects(&self, other: &Rect) -> (r: bool)
        ensures
            r == (self.x1 <= other.x2 && self.x2 >= other.x1 && self.y1 <= other.y2
                && self.y2 >= other.y1),
    {
        self.x1 <= other.x2 && self.x2 >= other.x1 && self.y1 <= other.y2 && self.y2 >= other.y1
    }

    /// Middle tile of the rectangle, rounded toward the low corner.
    pub fn center(&self) -> (r: (i32, i32))
        requires
            self.well_formed(),
            0 <= self.x1 && self.x2 < 0x4000_0000,
            0 <= self.y1 && self.y2 < 0x4000_0000,
        ensures
            r.0 == (self.x1 + self.x2) / 2,
            r.1 == (self.y1 + self.y2) / 2,
            self.spec_contains(r.0 as int, r.1 as int),
    {
        ((self.x1 + self.x2) / 2, (self.y1 + self.y2) / 2)
    }
}

} // verus!
