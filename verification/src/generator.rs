use vstd::prelude::*;
use crate::connectivity::{check_connected, connected};
use crate::decorators::decorate_collapsed_room;
use crate::indexing::recompute;
use crate::level::{lemma_coords_in_bounds, lemma_idx_in_area, Level};
use crate::level_utils::set_tile_to_floor;
use crate::rect::Rect;
use crate::rng::rng_range;
use crate::room::{Room, RoomPart, RoomType, Stamp, StampPart};
use crate::tile_type::TileType;

verus! {

/// Why a floor could not be generated. Either way the caller should try
/// again with a fresh seed rather than accept a broken floor.
#[derive(Clone, Copy, PartialEq, Eq, Structural, Debug)]
pub enum GenerationError {
    /// The carved layout ended up without a single floor tile.
    NoFloor,
    /// Some walkable tile cannot be reached from the others.
    Disconnected,
}

/// The carving of a rectangle, part way through: every cell of the
/// rectangle strictly before (xlim, ylim) in row-major order is floor,
/// everything else still holds its original tile.
pub open spec fn carved_upto(
    orig: Seq<TileType>,
    cur: Seq<TileType>,
    w: int,
    rect: Rect,
    xlim: int,
    ylim: int,
) -> bool {
    &&& cur.len() == orig.len()
    &&& forall|i: int|
        0 <= i < cur.len() ==> #[trigger] cur[i] == (if rect.spec_contains(i % w, i / w) && (i / w
            < ylim || (i / w == ylim && i % w < xlim)) {
            TileType::Floor
        } else {
            orig[i]
        })
}

proof fn lemma_carve_cell(
    orig: Seq<TileType>,
    pre: Seq<TileType>,
    w: int,
    h: int,
    rect: Rect,
    x: int,
    y: int,
)
    requires
        0 < w,
        orig.len() == w * h,
        carved_upto(orig, pre, w, rect, x, y),
        rect.x1 <= x <= rect.x2 < w,
        rect.y1 <= y <= rect.y2 < h,
        0 <= rect.x1,
        0 <= rect.y1,
    ensures
        carved_upto(orig, pre.update(y * w + x, TileType::Floor), w, rect, x + 1, y),
{
    lemma_idx_in_area(x, y, w, h);
    let idx = y * w + x;
    let post = pre.update(idx, TileType::Floor);
    assert forall|i: int| 0 <= i < post.len() implies #[trigger] post[i] == (
    if rect.spec_contains(i % w, i / w) && (i / w < y || (i / w == y && i % w < x + 1)) {
        TileType::Floor
    } else {
        orig[i]
    }) by {
        lemma_coords_in_bounds(i, w, h);
        if i == idx {
            assert(i % w == x && i / w == y);
            assert(rect.spec_contains(x, y));
        } else {
            assert(post[i] == pre[i]);
            if i % w == x && i / w == y {
                assert(i == (i / w) * w + i % w);
                assert(false);
            }
        }
    }
}

proof fn lemma_carve_row_done(
    orig: Seq<TileType>,
    cur: Seq<TileType>,
    w: int,
    h: int,
    rect: Rect,
    y: int,
)
    requires
        0 < w,
        orig.len() == w * h,
        carved_upto(orig, cur, w, rect, rect.x2 + 1int, y),
        rect.x1 <= rect.x2 < w,
        rect.y1 <= y <= rect.y2 < h,
        0 <= rect.x1,
        0 <= rect.y1,
    ensures
        carved_upto(orig, cur, w, rect, rect.x1 as int, y + 1),
{
    assert forall|i: int| 0 <= i < cur.len() implies #[trigger] cur[i] == (
    if rect.spec_contains(i % w, i / w) && (i / w < y + 1 || (i / w == y + 1 && i % w < rect.x1)) {
        TileType::Floor
    } else {
        orig[i]
    }) by {
        lemma_coords_in_bounds(i, w, h);
    }
}

/// Turns every tile of the rectangle into floor.
fn carve_rect(level: &mut Level, rect: Rect)
    requires
        old(level).well_formed(),
        old(level).width > 0,
        0 <= rect.x1 <= rect.x2 < old(level).width,
        0 <= rect.y1 <= rect.y2 < old(level).height,
    ensures
        final(level).well_formed(),
        *final(level) == (Level { tiles: final(level).tiles, ..*old(level) }),
        final(level).tiles@.len() == old(level).tiles@.len(),
        forall|i: int|
            0 <= i < final(level).area() ==> final(level).tiles@[i] == (if rect.spec_contains(
                final(level).x_of(i),
                final(level).y_of(i),
            ) {
                TileType::Floor
            } else {
                old(level).tiles@[i]
            }),
{
    let w = level.width;
    let h = level.height;
    let x1 = rect.x1 as usize;
    let x2 = rect.x2 as usize;
    let y1 = rect.y1 as usize;
    let y2 = rect.y2 as usize;
    proof {
        assert(carved_upto(old(level).tiles@, level.tiles@, w as int, rect, rect.x1 as int, 0));
        assert(carved_upto(
            old(level).tiles@,
            level.tiles@,
            w as int,
            rect,
            rect.x1 as int,
            rect.y1 as int,
        ));
    }
    let mut y: usize = y1;
    while y <= y2
        invariant
            y1 <= y <= y2 + 1,
            x1 == rect.x1 && x2 == rect.x2 && y1 == rect.y1 && y2 == rect.y2,
            0 <= rect.x1 <= rect.x2 < level.width,
            0 <= rect.y1 <= rect.y2 < level.height,
            w == level.width,
            h == level.height,
            level.well_formed(),
            level.width > 0,
            *level == (Level { tiles: level.tiles, ..*old(level) }),
            carved_upto(old(level).tiles@, level.tiles@, w as int, rect, rect.x1 as int, y as int),
        decreases y2 + 1 - y,
    {
        let mut x: usize = x1;
        while x <= x2
            invariant
                x1 <= x <= x2 + 1,
                y1 <= y <= y2,
                x1 == rect.x1 && x2 == rect.x2 && y1 == rect.y1 && y2 == rect.y2,
                0 <= rect.x1 <= rect.x2 < level.width,
                0 <= rect.y1 <= rect.y2 < level.height,
                w == level.width,
                h == level.height,
                level.well_formed(),
                level.width > 0,
                *level == (Level { tiles: level.tiles, ..*old(level) }),
                carved_upto(
                    old(level).tiles@,
                    level.tiles@,
                    w as int,
                    rect,
                    x as int,
                    y as int,
                ),
            decreases x2 + 1 - x,
        {
            proof {
                lemma_idx_in_area(x as int, y as int, w as int, h as int);
                assert(w * h < 0x4000_0000) by (nonlinear_arith)
                    requires
                        w < 0x8000,
                        h < 0x8000,
                ;
            }
            let idx = y * w + x;
            proof {
                lemma_carve_cell(
                    old(level).tiles@,
                    level.tiles@,
                    w as int,
                    h as int,
                    rect,
                    x as int,
                    y as int,
                );
            }
            set_tile_to_floor(level, idx);
            x = x + 1;
        }
        proof {
            lemma_carve_row_done(
                old(level).tiles@,
                level.tiles@,
                w as int,
                h as int,
                rect,
                y as int,
            );
        }
        y = y + 1;
    }
    proof {
        assert forall|i: int| 0 <= i < level.area() implies level.tiles@[i] == (
        if rect.spec_contains(level.x_of(i), level.y_of(i)) {
            TileType::Floor
        } else {
            old(level).tiles@[i]
        }) by {
            lemma_coords_in_bounds(i, w as int, h as int);
        }
    }
}

/// Turns a horizontal run of tiles at row `y` into floor, endpoints
/// included.
fn carve_horizontal(level: &mut Level, x_from: usize, x_to: usize, y: usize)
    requires
        old(level).well_formed(),
        old(level).width > 0,
        x_from < old(level).width,
        x_to < old(level).width,
        y < old(level).height,
    ensures
        final(level).well_formed(),
        *final(level) == (Level { tiles: final(level).tiles, ..*old(level) }),
        final(level).tiles@.len() == old(level).tiles@.len(),
        forall|i: int|
            0 <= i < final(level).area() ==> final(level).tiles@[i] == (if final(level).y_of(i)
                == y && (if x_from <= x_to {
                x_from <= final(level).x_of(i) <= x_to
            } else {
                x_to <= final(level).x_of(i) <= x_from
            }) {
                TileType::Floor
            } else {
                old(level).tiles@[i]
            }),
{
    let lo = if x_from <= x_to {
        x_from
    } else {
        x_to
    };
    let hi = if x_from <= x_to {
        x_to
    } else {
        x_from
    };
    let rect = Rect { x1: lo as i32, y1: y as i32, x2: hi as i32, y2: y as i32 };
    carve_rect(level, rect);
}

/// Turns a vertical run of tiles at column `x` into floor, endpoints
/// included.
fn carve_vertical(level: &mut Level, y_from: usize, y_to: usize, x: usize)
    requires
        old(level).well_formed(),
        old(level).width > 0,
        y_from < old(level).height,
        y_to < old(level).height,
        x < old(level).width,
    ensures
        final(level).well_formed(),
        *final(level) == (Level { tiles: final(level).tiles, ..*old(level) }),
        final(level).tiles@.len() == old(level).tiles@.len(),
        forall|i: int|
            0 <= i < final(level).area() ==> final(level).tiles@[i] == (if final(level).x_of(i)
                == x && (if y_from <= y_to {
                y_from <= final(level).y_of(i) <= y_to
            } else {
                y_to <= final(level).y_of(i) <= y_from
            }) {
                TileType::Floor
            } else {
                old(level).tiles@[i]
            }),
{
    let lo = if y_from <= y_to {
        y_from
    } else {
        y_to
    };
    let hi = if y_from <= y_to {
        y_to
    } else {
        y_from
    };
    let rect = Rect { x1: x as i32, y1: lo as i32, x2: x as i32, y2: hi as i32 };
    carve_rect(level, rect);
}

/// The starting stamp of a freshly carved room: walls around the border,
/// floor inside.
fn build_room_stamp(rw: usize, rh: usize) -> (r: Stamp)
    requires
        1 <= rw <= 0x1000,
        1 <= rh <= 0x1000,
    ensures
        r.well_formed(),
        r.spec_width() == rw,
        r.spec_height() == rh,
        forall|x: int, y: int|
            0 <= y < rh && 0 <= x < rw ==> #[trigger] r.cell(x, y) == (if x == 0 || y == 0 || x
                == rw - 1 || y == rh - 1 {
                StampPart::Use(RoomPart::Wall)
            } else {
                StampPart::Use(RoomPart::Floor)
            }),
{
    let mut pattern: Vec<Vec<StampPart>> = Vec::new();
    let mut y: usize = 0;
    while y < rh
        invariant
            y <= rh,
            rw >= 1,
            rh >= 1,
            pattern@.len() == y,
            forall|yy: int| 0 <= yy < y ==> (#[trigger] pattern@[yy])@.len() == rw,
            forall|xx: int, yy: int|
                0 <= yy < y && 0 <= xx < rw ==> (#[trigger] pattern@[yy]@[xx]) == (if xx == 0 || yy
                    == 0 || xx == rw - 1 || yy == rh - 1 {
                    StampPart::Use(RoomPart::Wall)
                } else {
                    StampPart::Use(RoomPart::Floor)
                }),
        decreases rh - y,
    {
        let mut row: Vec<StampPart> = Vec::new();
        let mut x: usize = 0;
        while x < rw
            invariant
                x <= rw,
                y < rh,
                rw >= 1,
                rh >= 1,
                row@.len() == x,
                forall|xx: int|
                    0 <= xx < x ==> row@[xx] == (if xx == 0 || y == 0 || xx == rw - 1 || y == rh
                        - 1 {
                        StampPart::Use(RoomPart::Wall)
                    } else {
                        StampPart::Use(RoomPart::Floor)
                    }),
            decreases rw - x,
        {
            if x == 0 || y == 0 || x == rw - 1 || y == rh - 1 {
                row.push(StampPart::Use(RoomPart::Wall));
            } else {
                row.push(StampPart::Use(RoomPart::Floor));
            }
            x = x + 1;
        }
        pattern.push(row);
        y = y + 1;
    }
    Stamp::new(pattern)
}

/// Builds one floor of the dungeon: carves four to nine rooms, joins each
/// to the one before with an L-shaped corridor, decorates and types the
/// rooms, places the stairs (and on the top floor the exit), derives the
/// blocked and opaque layers, and finally checks the connectivity
/// invariant. A floor that fails a check is refused whole, never returned
/// broken; the caller retries with a fresh seed.
///
/// The bounds on the dimensions are this generator's own domain, not a
/// property of levels as such: the largest room draw is 8 tiles wide and
/// needs a wall margin on both sides, so anything from 11 up would fit,
/// and 16 keeps a comfortable margin; the upper bound is the grid's
/// 32-bit coordinate limit that `Level::well_formed` fixes.
pub fn generate_level(
    rng: &mut rltk::RandomNumberGenerator,
    depth: usize,
    width: usize,
    height: usize,
) -> (r: Result<Level, GenerationError>)
    requires
        16 <= width < 0x8000,
        16 <= height < 0x8000,
    ensures
        r matches Ok(level) ==> {
            &&& level.well_formed()
            &&& level.width == width
            &&& level.height == height
            &&& level.depth == depth
            &&& level.rooms@.len() >= 1
            &&& forall|j: int|
                0 <= j < level.rooms@.len() ==> {
                    let room = #[trigger] level.rooms@[j];
                    &&& 1 <= room.rect.x1 <= room.rect.x2 < width - 1
                    &&& 1 <= room.rect.y1 <= room.rect.y2 < height - 1
                    &&& room.stamp.well_formed()
                    &&& room.stamp.spec_width() == room.rect.x2 - room.rect.x1 + 1
                    &&& room.stamp.spec_height() == room.rect.y2 - room.rect.y1 + 1
                }
            &&& connected(level)
            &&& exists|i: int| 0 <= i < level.area() && level.tiles@[i] == TileType::Floor
            &&& forall|i: int|
                0 <= i < level.area() ==> level.blocked@[i] == (level.tiles@[i] == TileType::Wall)
            &&& forall|i: int|
                0 <= i < level.area() ==> level.opaque@[i] == (level.tiles@[i] == TileType::Wall)
        },
{
    let mut level = Level::new(depth, width, height);
    let room_goal = rng_range(rng, 4, 10);
    let mut prev_center: Option<(usize, usize)> = None;
    let mut attempt: i32 = 0;
    while attempt < room_goal
        invariant
            level.well_formed(),
            level.width == width,
            level.height == height,
            level.depth == depth,
            16 <= width < 0x8000,
            16 <= height < 0x8000,
            forall|j: int|
                0 <= j < level.rooms@.len() ==> {
                    let room = #[trigger] level.rooms@[j];
                    &&& 1 <= room.rect.x1 <= room.rect.x2 < width - 1
                    &&& 1 <= room.rect.y1 <= room.rect.y2 < height - 1
                    &&& room.stamp.well_formed()
                    &&& room.stamp.spec_width() == room.rect.x2 - room.rect.x1 + 1
                    &&& room.stamp.spec_height() == room.rect.y2 - room.rect.y1 + 1
                },
            prev_center matches Some(c) ==> c.0 < width && c.1 < height,
        decreases room_goal - attempt,
    {
        let rw = rng_range(rng, 4, 9) as usize;
        let rh = rng_range(rng, 4, 9) as usize;
        let x = rng_range(rng, 1, (width - rw - 1) as i32) as usize;
        let y = rng_range(rng, 1, (height - rh - 1) as i32) as usize;
        let rect = Rect::new(x as i32, y as i32, (x + rw - 1) as i32, (y + rh - 1) as i32);
        let mut overlaps = false;
        let mut j: usize = 0;
        while j < level.rooms.len()
            invariant
                j <= level.rooms@.len(),
            decreases level.rooms@.len() - j,
        {
            if rect.intersects(&level.rooms[j].rect) {
                overlaps = true;
            }
            j = j + 1;
        }
        if !overlaps {
            carve_rect(&mut level, rect);
            let (cx, cy) = rect.center();
            let cxu = cx as usize;
            let cyu = cy as usize;
            match prev_center {
                Some((px, py)) => {
                    if rng_range(rng, 0, 2) == 0 {
                        carve_horizontal(&mut level, px, cxu, py);
                        carve_vertical(&mut level, py, cyu, cxu);
                    } else {
                        carve_vertical(&mut level, py, cyu, px);
                        carve_horizontal(&mut level, px, cxu, cyu);
                    }
                },
                None => {},
            }
            prev_center = Some((cxu, cyu));
            let mut stamp = build_room_stamp(rw, rh);
            let roll = rng_range(rng, 0, 10);
            let room_type: Option<RoomType> = if roll == 0 {
                decorate_collapsed_room(&mut stamp, rng);
                Some(RoomType::Collapsed)
            } else if roll == 1 {
                Some(RoomType::TreasureRoom)
            } else if roll == 2 {
                Some(RoomType::StoreRoom)
            } else {
                None
            };
            level.rooms.push(Room { rect, room_type, stamp });
        }
        attempt = attempt + 1;
    }
    if level.rooms.len() == 0 {
        return Err(GenerationError::NoFloor);
    }
    // Stairs down in the last room, stairs up or the dungeon exit in the
    // first; on a one-room floor the up-stairs tile wins.
    let w = level.width;
    let last = level.rooms.len() - 1;
    let (dx_c, dy_c) = level.rooms[last].rect.center();
    let (ux_c, uy_c) = level.rooms[0].rect.center();
    proof {
        lemma_idx_in_area(dx_c as int, dy_c as int, w as int, height as int);
        lemma_idx_in_area(ux_c as int, uy_c as int, w as int, height as int);
        assert(w * height < 0x4000_0000) by (nonlinear_arith)
            requires
                w < 0x8000,
                height < 0x8000,
        ;
    }
    let down_idx = dy_c as usize * w + dx_c as usize;
    let up_idx = uy_c as usize * w + ux_c as usize;
    if down_idx != up_idx {
        level.tiles.set(down_idx, TileType::StairsDown);
        level.stairs_down = Some(down_idx);
    }
    if depth == 0 {
        level.tiles.set(up_idx, TileType::Exit);
        level.exit = Some(up_idx);
    } else {
        level.tiles.set(up_idx, TileType::StairsUp);
        level.stairs_up = Some(up_idx);
    }
    // Derive the blocked and opaque layers from bare terrain: an indexing
    // pass with no occupants reported yet.
    let no_occupants: Vec<crate::indexing::Occupant> = Vec::new();
    recompute(&mut level, &no_occupants);
    // A floor without floor is refused.
    let mut has_floor = false;
    let mut i: usize = 0;
    let n = level.tiles.len();
    while i < n
        invariant
            i <= n,
            n == level.area(),
            level.well_formed(),
            has_floor ==> exists|k: int| 0 <= k < level.area() && level.tiles@[k]
                == TileType::Floor,
        decreases n - i,
    {
        if matches!(level.tiles[i], TileType::Floor) {
            has_floor = true;
        }
        i = i + 1;
    }
    if !has_floor {
        return Err(GenerationError::NoFloor);
    }
    // The connectivity invariant is checked, not assumed: a disconnected
    // floor is refused.
    if !check_connected(&level) {
        return Err(GenerationError::Disconnected);
    }
    Ok(level)
}

} // verus!
