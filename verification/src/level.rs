use vstd::prelude::*;
use crate::room::Room;
use crate::tile_type::TileType;

verus! {

/// Movement cost of stepping onto an orthogonal neighbour, in hundredths.
pub const COST_ORTHOGONAL: u32 = 100;

/// Movement cost of stepping onto a diagonal neighbour, in hundredths.
pub const COST_DIAGONAL: u32 = 145;

/// Extra cost for a blocked door tile: planning may still route through an
/// unopened door, it is only softly discouraged.
pub const COST_PENALTY_DOOR: u32 = 100;

/// Extra cost for any other blocked tile: effectively impassable for a
/// normal search, yet finite.
pub const COST_PENALTY_BLOCKED: u32 = 2500;

/// Coordinates recovered from a tile index stay inside the grid.
pub proof fn lemma_coords_in_bounds(idx: int, w: int, h: int)
    requires
        0 < w,
        0 <= idx < w * h,
    ensures
        0 <= idx % w < w,
        0 <= idx / w < h,
        (idx / w) * w + idx % w == idx,
{
    vstd::arithmetic::div_mod::lemma_mod_division_less_than_divisor(idx, w);
    vstd::arithmetic::div_mod::lemma_div_pos_is_pos(idx, w);
    vstd::arithmetic::div_mod::lemma_multiply_divide_lt(idx, w, h);
    vstd::arithmetic::div_mod::lemma_fundamental_div_mod(idx, w);
}

/// A pair of in-bounds coordinates names a tile index inside the grid, and
/// the index decodes back to the same pair.
pub proof fn lemma_idx_in_area(x: int, y: int, w: int, h: int)
    requires
        0 <= x < w,
        0 <= y < h,
    ensures
        0 <= y * w + x < w * h,
        (y * w + x) % w == x,
        (y * w + x) / w == y,
{
    assert(0 <= y * w + x < w * h) by (nonlinear_arith)
        requires
            0 <= x < w,
            0 <= y < h,
    ;
    vstd::arithmetic::div_mod::lemma_fundamental_div_mod_converse_mod(y * w + x, w, y, x);
    vstd::arithmetic::div_mod::lemma_fundamental_div_mod_converse_div(y * w + x, w, y, x);
}

/// One floor of the dungeon: a flat array-backed grid of terrain plus the
/// derived per-tile boolean layers and the occupant index.
///
/// `blocked` and `opaque` are recomputed by every indexing pass;
/// `revealed_tiles` only ever turns true; `visible_tiles` is rewritten from
/// the player's viewshed each turn; `lit_tiles` is set by light sources.
/// `tile_content` is a transient cache, rebuilt by indexing and never
/// persisted.
#[derive(Clone, Debug)]
pub struct Level {
    pub width: usize,
    pub height: usize,
    pub tiles: Vec<TileType>,
    pub rooms: Vec<Room>,
    pub revealed_tiles: Vec<bool>,
    pub lit_tiles: Vec<bool>,
    pub visible_tiles: Vec<bool>,
    pub blocked: Vec<bool>,
    pub opaque: Vec<bool>,
    pub depth: usize,
    pub stairs_down: Option<usize>,
    pub stairs_up: Option<usize>,
    pub exit: Option<usize>,
    pub tile_content: Vec<Vec<u64>>,
}

impl Level {
    pub open spec fn area(self) -> int {
        self.width * self.height
    }

    /// Structural invariant: every per-tile layer covers the grid exactly,
    /// the dimensions are small enough for 32-bit coordinate arithmetic,
    /// and the special tile indices are in range.
    pub open spec fn well_formed(self) -> bool {
        &&& self.width < 0x8000
        &&& self.height < 0x8000
        &&& self.tiles@.len() == self.area()
        &&& self.revealed_tiles@.len() == self.area()
        &&& self.lit_tiles@.len() == self.area()
        &&& self.visible_tiles@.len() == self.area()
        &&& self.blocked@.len() == self.area()
        &&& self.opaque@.len() == self.area()
        &&& self.tile_content@.len() == self.area()
        &&& (self.stairs_down matches Some(i) ==> i < self.area())
        &&& (self.stairs_up matches Some(i) ==> i < self.area())
        &&& (self.exit matches Some(i) ==> i < self.area())
    }

    /// Index of the tile at (x, y).
    pub open spec fn spec_idx(self, x: int, y: int) -> int {
        y * self.width + x
    }

    pub open spec fn x_of(self, idx: int) -> int {
        idx % (self.width as int)
    }

    pub open spec fn y_of(self, idx: int) -> int {
        idx / (self.width as int)
    }

    pub open spec fn in_bounds(self, x: int, y: int) -> bool {
        0 <= x < self.width && 0 <= y < self.height
    }

    /// Exit cost onto the tile, in hundredths: the base cost for the step
    /// direction plus the blocking penalty of the tile itself.
    pub open spec fn spec_cost(self, idx: int, diagonal: bool) -> int {
        let base: int = if diagonal {
            COST_DIAGONAL as int
        } else {
            COST_ORTHOGONAL as int
        };
        if self.blocked@[idx] {
            if self.tiles@[idx] == TileType::Door {
                base + COST_PENALTY_DOOR
            } else {
                base + COST_PENALTY_BLOCKED
            }
        } else {
            base
        }
    }

    /// A fresh level of the given size: all walls, nothing revealed, no
    /// rooms and no special tiles yet.
    pub fn new(depth: usize, width: usize, height: usize) -> (r: Level)
        requires
            width < 0x8000,
            height < 0x8000,
        ensures
            r.well_formed(),
            r.width == width,
            r.height == height,
            r.depth == depth,
            r.rooms@.len() == 0,
            r.stairs_down is None,
            r.stairs_up is None,
            r.exit is None,
            forall|i: int| 0 <= i < r.area() ==> r.tiles@[i] == TileType::Wall,
            forall|i: int| 0 <= i < r.area() ==> !r.revealed_tiles@[i],
            forall|i: int| 0 <= i < r.area() ==> !r.lit_tiles@[i],
            forall|i: int| 0 <= i < r.area() ==> !r.visible_tiles@[i],
            forall|i: int| 0 <= i < r.area() ==> !r.blocked@[i],
            forall|i: int| 0 <= i < r.area() ==> !r.opaque@[i],
            forall|i: int| 0 <= i < r.area() ==> r.tile_content@[i]@.len() == 0,
    {
        proof {
            assert(width * height < 0x40000000) by (nonlinear_arith)
                requires
                    width < 0x8000,
                    height < 0x8000,
            ;
        }
        let map_count = width * height;
        let mut tiles: Vec<TileType> = Vec::new();
        let mut revealed_tiles: Vec<bool> = Vec::new();
        let mut lit_tiles: Vec<bool> = Vec::new();
        let mut visible_tiles: Vec<bool> = Vec::new();
        let mut blocked: Vec<bool> = Vec::new();
        let mut opaque: Vec<bool> = Vec::new();
        let mut tile_content: Vec<Vec<u64>> = Vec::new();
        let mut i: usize = 0;
        while i < map_count
            invariant
                i <= map_count,
                tiles@.len() == i,
                revealed_tiles@.len() == i,
                lit_tiles@.len() == i,
                visible_tiles@.len() == i,
                blocked@.len() == i,
                opaque@.len() == i,
                tile_content@.len() == i,
                forall|j: int| 0 <= j < i ==> tiles@[j] == TileType::Wall,
                forall|j: int| 0 <= j < i ==> !revealed_tiles@[j],
                forall|j: int| 0 <= j < i ==> !lit_tiles@[j],
                forall|j: int| 0 <= j < i ==> !visible_tiles@[j],
                forall|j: int| 0 <= j < i ==> !blocked@[j],
                forall|j: int| 0 <= j < i ==> !opaque@[j],
                forall|j: int| 0 <= j < i ==> tile_content@[j]@.len() == 0,
            decreases map_count - i,
        {
            tiles.push(TileType::Wall);
            revealed_tiles.push(false);
            lit_tiles.push(false);
            visible_tiles.push(false);
            blocked.push(false);
            opaque.push(false);
            tile_content.push(Vec::new());
            i = i + 1;
        }
        Level {
            width,
            height,
            tiles,
            rooms: Vec::new(),
            revealed_tiles,
            lit_tiles,
            visible_tiles,
            blocked,
            opaque,
            depth,
            stairs_down: None,
            stairs_up: None,
            exit: None,
            tile_content,
        }
    }

    /// Exit cost onto the tile `idx` when stepping from a neighbour,
    /// orthogonally or diagonally, in hundredths.
    pub fn get_costs_for_tile(&self, idx: usize, diagonal: bool) -> (c: u32)
        requires
            self.well_formed(),
            idx < self.area(),
        ensures
            c == self.spec_cost(idx as int, diagonal),
    {
        let cost = if diagonal {
            COST_DIAGONAL
        } else {
            COST_ORTHOGONAL
        };
        if self.blocked[idx] {
            match self.tiles[idx] {
                TileType::Door => cost + COST_PENALTY_DOOR,
                _ => cost + COST_PENALTY_BLOCKED,
            }
        } else {
            cost
        }
    }

    /// Is the tile opaque to line of sight, as of the last indexing pass?
    pub fn is_opaque(&self, idx: usize) -> (r: bool)
        requires
            self.well_formed(),
            idx < self.area(),
        ensures
            r == self.opaque@[idx as int],
    {
        self.opaque[idx]
    }

    /// Squared Euclidean distance between the centres of two tiles; the
    /// pathing heuristic is its square root.
    pub fn get_pathing_distance_squared(&self, idx1: usize, idx2: usize) -> (r: u64)
        requires
            self.well_formed(),
            self.width > 0,
            idx1 < self.area(),
            idx2 < self.area(),
        ensures
            r == (self.x_of(idx1 as int) - self.x_of(idx2 as int)) * (self.x_of(idx1 as int)
                - self.x_of(idx2 as int)) + (self.y_of(idx1 as int) - self.y_of(idx2 as int)) * (
            self.y_of(idx1 as int) - self.y_of(idx2 as int)),
    {
        let w = self.width;
        let x1 = (idx1 % w) as i64;
        let y1 = (idx1 / w) as i64;
        let x2 = (idx2 % w) as i64;
        let y2 = (idx2 / w) as i64;
        proof {
            lemma_coords_in_bounds(idx1 as int, w as int, self.height as int);
            lemma_coords_in_bounds(idx2 as int, w as int, self.height as int);
        }
        let dx = x1 - x2;
        let dy = y1 - y2;
        proof {
            assert(0 <= dx * dx < 0x40000000 && 0 <= dy * dy < 0x40000000) by (nonlinear_arith)
                requires
                    -0x8000 < dx < 0x8000,
                    -0x8000 < dy < 0x8000,
            ;
        }
        (dx * dx + dy * dy) as u64
    }

    /// The pathing-cost law: every exit cost is at least the orthogonal
    /// base cost, a diagonal step costs at least the diagonal base cost,
    /// and a blocked tile that is not a door costs at least the
    /// impassable penalty, all in hundredths.
    pub proof fn lemma_cost_bounds(self, idx: int, diagonal: bool)
        requires
            0 <= idx < self.area(),
            self.blocked@.len() == self.area(),
            self.tiles@.len() == self.area(),
        ensures
            self.spec_cost(idx, diagonal) >= COST_ORTHOGONAL,
            diagonal ==> self.spec_cost(idx, diagonal) >= COST_DIAGONAL,
            self.blocked@[idx] && self.tiles@[idx] != TileType::Door ==> self.spec_cost(
                idx,
                diagonal,
            ) >= COST_PENALTY_BLOCKED,
    {
    }


    /// May a step from the tile at `idx` move by (dx, dy)? The target must
    /// lie on the grid, and a diagonal step is refused when both orthogonal
    /// tiles beside it block movement: nothing squeezes through a blocked
    /// corner gap.
    pub open spec fn exit_valid(self, idx: int, dx: int, dy: int) -> bool {
        let x = self.x_of(idx);
        let y = self.y_of(idx);
        &&& self.in_bounds(x + dx, y + dy)
        &&& !(dx != 0 && dy != 0 && self.blocked@[self.spec_idx(x + dx, y)] && self.blocked@[self.spec_idx(
            x,
            y + dy,
        )])
    }

    /// What one direction contributes to the exit list: its target tile
    /// and cost when the step is allowed, nothing otherwise.
    pub open spec fn exit_seq_for(self, idx: int, dx: int, dy: int) -> Seq<(usize, u32)> {
        let x = self.x_of(idx);
        let y = self.y_of(idx);
        let nidx = self.spec_idx(x + dx, y + dy);
        if self.exit_valid(idx, dx, dy) {
            seq![(nidx as usize, self.spec_cost(nidx, dx != 0 && dy != 0) as u32)]
        } else {
            Seq::empty()
        }
    }

    /// Appends the exit for one direction, if the step is allowed.
    fn push_exit(&self, r: &mut Vec<(usize, u32)>, idx: usize, dx: i8, dy: i8)
        requires
            self.well_formed(),
            self.width > 0,
            idx < self.area(),
            -1 <= dx <= 1,
            -1 <= dy <= 1,
        ensures
            final(r)@ == old(r)@ + self.exit_seq_for(idx as int, dx as int, dy as int),
    {
        let w = self.width;
        let x = idx % w;
        let y = idx / w;
        proof {
            lemma_coords_in_bounds(idx as int, w as int, self.height as int);
        }
        let nx = x as i64 + dx as i64;
        let ny = y as i64 + dy as i64;
        if nx < 0 || nx >= w as i64 || ny < 0 || ny >= self.height as i64 {
            proof {
                assert(self.exit_seq_for(idx as int, dx as int, dy as int) =~= Seq::<(
                    usize,
                    u32,
                )>::empty());
                assert(r@ =~= old(r)@ + Seq::<(usize, u32)>::empty());
            }
            return ;
        }
        let nxu = nx as usize;
        let nyu = ny as usize;
        proof {
            lemma_idx_in_area(nxu as int, nyu as int, w as int, self.height as int);
            lemma_idx_in_area(nxu as int, y as int, w as int, self.height as int);
            lemma_idx_in_area(x as int, nyu as int, w as int, self.height as int);
            assert(w * self.height < 0x4000_0000) by (nonlinear_arith)
                requires
                    w < 0x8000,
                    self.height < 0x8000,
            ;
        }
        let diagonal = dx != 0 && dy != 0;
        if diagonal {
            let side_a = y * w + nxu;
            let side_b = nyu * w + x;
            if self.blocked[side_a] && self.blocked[side_b] {
                proof {
                    assert(self.exit_seq_for(idx as int, dx as int, dy as int) =~= Seq::<(
                        usize,
                        u32,
                    )>::empty());
                    assert(r@ =~= old(r)@ + Seq::<(usize, u32)>::empty());
                }
                return ;
            }
        }
        let nidx = nyu * w + nxu;
        let cost = self.get_costs_for_tile(nidx, diagonal);
        let ghost prev = r@;
        r.push((nidx, cost));
        proof {
            assert(r@ =~= prev + self.exit_seq_for(idx as int, dx as int, dy as int));
        }
    }

    /// The 8-connected exits from the tile at `idx`, diagonals included,
    /// each with its cost in hundredths: west, east, north, south, then
    /// the four diagonals.
    pub fn get_available_exits(&self, idx: usize) -> (r: Vec<(usize, u32)>)
        requires
            self.well_formed(),
            self.width > 0,
            idx < self.area(),
        ensures
            r@ == self.exit_seq_for(idx as int, -1, 0) + self.exit_seq_for(idx as int, 1, 0)
                + self.exit_seq_for(idx as int, 0, -1) + self.exit_seq_for(idx as int, 0, 1)
                + self.exit_seq_for(idx as int, -1, -1) + self.exit_seq_for(idx as int, 1, -1)
                + self.exit_seq_for(idx as int, -1, 1) + self.exit_seq_for(idx as int, 1, 1),
    {
        let mut r: Vec<(usize, u32)> = Vec::new();
        self.push_exit(&mut r, idx, -1, 0);
        self.push_exit(&mut r, idx, 1, 0);
        self.push_exit(&mut r, idx, 0, -1);
        self.push_exit(&mut r, idx, 0, 1);
        self.push_exit(&mut r, idx, -1, -1);
        self.push_exit(&mut r, idx, 1, -1);
        self.push_exit(&mut r, idx, -1, 1);
        self.push_exit(&mut r, idx, 1, 1);
        proof {
            assert(r@ =~= Seq::<(usize, u32)>::empty() + self.exit_seq_for(idx as int, -1, 0)
                + self.exit_seq_for(idx as int, 1, 0) + self.exit_seq_for(idx as int, 0, -1)
                + self.exit_seq_for(idx as int, 0, 1) + self.exit_seq_for(idx as int, -1, -1)
                + self.exit_seq_for(idx as int, 1, -1) + self.exit_seq_for(idx as int, -1, 1)
                + self.exit_seq_for(idx as int, 1, 1));
            assert(Seq::<(usize, u32)>::empty() + self.exit_seq_for(idx as int, -1, 0)
                =~= self.exit_seq_for(idx as int, -1, 0));
        }
        r
    }

    /// The viewport size of the level, used by the rendering layer.
    pub fn dimensions(&self) -> (r: (usize, usize))
        ensures
            r.0 == self.width,
            r.1 == self.height,
    {
        (self.width, self.height)
    }
}

} // verus!
