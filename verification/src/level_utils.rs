use vstd::prelude::*;
use crate::level::{lemma_coords_in_bounds, lemma_idx_in_area, Level};
use crate::rect::Rect;
use crate::rng::rng_range;
use crate::room::{RoomPart, StampPart};
use crate::tile_type::TileType;

verus! {

/// Tile index of the map coordinates (x, y) on a grid of the given width.
/// Callers pass coordinates already known to be on the grid.
pub fn xy_idx(width: u32, x: i32, y: i32) -> (r: i32)
    requires
        width < 0x8000,
        0 <= x < width,
        0 <= y < 0x8000,
    ensures
        r == y * width + x,
{
    proof {
        assert(y * width < 0x40000000) by (nonlinear_arith)
            requires
                0 <= y < 0x8000,
                0 <= width < 0x8000,
        ;
    }
    y * width as i32 + x
}

/// Map coordinates of the given tile index.
pub fn idx_xy(width: u32, idx: usize) -> (r: (i32, i32))
    requires
        0 < width < 0x8000,
        idx < 0x4000_0000,
    ensures
        r.0 == idx as int % width as int,
        r.1 == idx as int / width as int,
{
    proof {
        vstd::arithmetic::div_mod::lemma_mod_division_less_than_divisor(idx as int, width as int);
        vstd::arithmetic::div_mod::lemma_div_pos_is_pos(idx as int, width as int);
        vstd::arithmetic::div_mod::lemma_div_nonincreasing(idx as int, width as int);
    }
    ((idx % width as usize) as i32, (idx / width as usize) as i32)
}

/// Is the index outside the grid? The field-of-view and area queries use
/// this to drop positions that fell off the map.
pub fn idx_not_in_map(level: &Level, idx: i32) -> (r: bool)
    requires
        level.well_formed(),
    ensures
        r == !(0 <= idx < level.area()),
{
    proof {
        assert(level.area() < 0x40000000) by (nonlinear_arith)
            requires
                level.width < 0x8000,
                level.height < 0x8000,
        ;
    }
    idx < 0 || idx as usize >= level.tiles.len()
}

/// Is the tile blocked for movement, as of the last indexing pass?
pub fn tile_is_blocked(idx: usize, level: &Level) -> (r: bool)
    requires
        level.well_formed(),
        idx < level.area(),
    ensures
        r == level.blocked@[idx as int],
{
    level.blocked[idx]
}

/// The ids of the entities standing on the tile, as of the last indexing
/// pass.
pub fn entities_at_idx(level: &Level, idx: usize) -> (r: Vec<u64>)
    requires
        level.well_formed(),
        idx < level.area(),
    ensures
        r@ == level.tile_content@[idx as int]@,
{
    let content = &level.tile_content[idx];
    let mut r: Vec<u64> = Vec::new();
    let mut i: usize = 0;
    while i < content.len()
        invariant
            i <= content@.len(),
            r@.len() == i,
            forall|j: int| 0 <= j < i ==> r@[j] == content@[j],
        decreases content@.len() - i,
    {
        r.push(content[i]);
        i = i + 1;
    }
    proof {
        assert(r@ =~= content@);
    }
    r
}

/// Turns the tile into plain floor; used when a door opens and by the
/// generator when carving.
pub fn set_tile_to_floor(level: &mut Level, idx: usize)
    requires
        old(level).well_formed(),
        idx < old(level).area(),
    ensures
        *final(level) == (Level { tiles: final(level).tiles, ..*old(level) }),
        final(level).tiles@ == old(level).tiles@.update(idx as int, TileType::Floor),
        final(level).well_formed(),
{
    level.tiles.set(idx, TileType::Floor);
}

/// Everything `open_door` promises: the door tile turned to floor and
/// unblocked, every other field and tile untouched, and `changed` telling
/// whether there was a closed door to open.
pub open spec fn open_door_post(pre: Level, post: Level, idx: int, changed: bool) -> bool {
    &&& changed == (pre.tiles@[idx] == TileType::Door)
    &&& post == (Level { tiles: post.tiles, blocked: post.blocked, opaque: post.opaque, ..pre })
    &&& post.tiles@ == if changed {
        pre.tiles@.update(idx, TileType::Floor)
    } else {
        pre.tiles@
    }
    &&& post.blocked@ == if changed {
        pre.blocked@.update(idx, false)
    } else {
        pre.blocked@
    }
    &&& post.opaque@ == if changed {
        pre.opaque@.update(idx, false)
    } else {
        pre.opaque@
    }
}

/// Everything `close_door` promises, mirroring `open_door_post`.
pub open spec fn close_door_post(pre: Level, post: Level, idx: int, changed: bool) -> bool {
    &&& changed == (pre.tiles@[idx] == TileType::Floor)
    &&& post == (Level { tiles: post.tiles, blocked: post.blocked, opaque: post.opaque, ..pre })
    &&& post.tiles@ == if changed {
        pre.tiles@.update(idx, TileType::Door)
    } else {
        pre.tiles@
    }
    &&& post.blocked@ == if changed {
        pre.blocked@.update(idx, true)
    } else {
        pre.blocked@
    }
    &&& post.opaque@ == if changed {
        pre.opaque@.update(idx, true)
    } else {
        pre.opaque@
    }
}

/// Opens the closed door at `idx`: the tile becomes floor and stops
/// blocking movement and sight. A tile that holds no closed door is left
/// alone. Returns whether anything changed, so the caller knows to mark
/// every viewer on the level dirty.
pub fn open_door(level: &mut Level, idx: usize) -> (changed: bool)
    requires
        old(level).well_formed(),
        idx < old(level).area(),
    ensures
        final(level).well_formed(),
        open_door_post(*old(level), *final(level), idx as int, changed),
{
    if matches!(level.tiles[idx], TileType::Door) {
        level.tiles.set(idx, TileType::Floor);
        level.blocked.set(idx, false);
        level.opaque.set(idx, false);
        true
    } else {
        false
    }
}

/// Closes a door back onto the floor tile at `idx`: the tile becomes a
/// door again and blocks movement and sight. A tile that is not plain
/// floor is left alone. Returns whether anything changed.
pub fn close_door(level: &mut Level, idx: usize) -> (changed: bool)
    requires
        old(level).well_formed(),
        idx < old(level).area(),
    ensures
        final(level).well_formed(),
        close_door_post(*old(level), *final(level), idx as int, changed),
{
    if matches!(level.tiles[idx], TileType::Floor) {
        level.tiles.set(idx, TileType::Door);
        level.blocked.set(idx, true);
        level.opaque.set(idx, true);
        true
    } else {
        false
    }
}

/// Marks the whole level as explored; the debug view uses this.
pub fn reveal_map(level: &mut Level)
    requires
        old(level).well_formed(),
    ensures
        final(level).well_formed(),
        *final(level) == (Level { revealed_tiles: final(level).revealed_tiles, ..*old(level) }),
        final(level).revealed_tiles@.len() == old(level).revealed_tiles@.len(),
        forall|i: int|
            0 <= i < final(level).revealed_tiles@.len() ==> final(level).revealed_tiles@[i],
{
    let n = level.revealed_tiles.len();
    let mut i: usize = 0;
    while i < n
        invariant
            i <= n,
            n == level.revealed_tiles@.len(),
            *level == (Level { revealed_tiles: level.revealed_tiles, ..*old(level) }),
            forall|j: int| 0 <= j < i ==> level.revealed_tiles@[j],
        decreases n - i,
    {
        level.revealed_tiles.set(i, true);
        i = i + 1;
    }
}

/// The player may leave the dungeon exactly when standing on its exit
/// tile.
pub fn player_can_leave_dungeon(level: &Level, idx: usize) -> (r: bool)
    ensures
        r == (level.exit == Some(idx)),
{
    match level.exit {
        Some(exit_idx) => exit_idx == idx,
        None => false,
    }
}

/// All tiles that something can be spawned on: plain floor, not blocked.
pub fn get_possible_spawn_points_in_level(level: &Level) -> (r: Vec<usize>)
    requires
        level.well_formed(),
    ensures
        forall|j: int|
            0 <= j < r@.len() ==> r@[j] < level.area() && level.tiles@[r@[j] as int]
                == TileType::Floor && !level.blocked@[r@[j] as int],
        forall|t: int|
            0 <= t < level.area() && level.tiles@[t] == TileType::Floor && !level.blocked@[t]
                ==> r@.contains(t as usize),
        forall|j1: int, j2: int| 0 <= j1 < j2 < r@.len() ==> r@[j1] < r@[j2],
{
    let mut r: Vec<usize> = Vec::new();
    let n = level.tiles.len();
    let mut i: usize = 0;
    while i < n
        invariant
            i <= n,
            n == level.area(),
            level.well_formed(),
            forall|j: int|
                0 <= j < r@.len() ==> r@[j] < i && level.tiles@[r@[j] as int] == TileType::Floor
                    && !level.blocked@[r@[j] as int],
            forall|t: int|
                0 <= t < i && level.tiles@[t] == TileType::Floor && !level.blocked@[t]
                    ==> r@.contains(t as usize),
            forall|j1: int, j2: int| 0 <= j1 < j2 < r@.len() ==> r@[j1] < r@[j2],
        decreases n - i,
    {
        if matches!(level.tiles[i], TileType::Floor) && !level.blocked[i] {
            let ghost prev = r@;
            r.push(i);
            proof {
                broadcast use vstd::seq_lib::lemma_seq_contains_after_push;

                assert(r@ == prev.push(i));
            }
        }
        i = i + 1;
    }
    r
}

/// Chebyshev distance between two tiles: the number of steps between them
/// when diagonal steps are allowed.
pub open spec fn chebyshev(x1: int, y1: int, x2: int, y2: int) -> int {
    let dx = if x1 >= x2 {
        x1 - x2
    } else {
        x2 - x1
    };
    let dy = if y1 >= y2 {
        y1 - y2
    } else {
        y2 - y1
    };
    if dx >= dy {
        dx
    } else {
        dy
    }
}

/// All tiles something can be spawned on within the given distance of the
/// centre tile: plain floor, not blocked, and within `radius` steps.
pub fn get_all_spawnable_tiles_in_radius(level: &Level, idx: usize, radius: u32) -> (r: Vec<usize>)
    requires
        level.well_formed(),
        level.width > 0,
        idx < level.area(),
    ensures
        forall|j: int|
            0 <= j < r@.len() ==> r@[j] < level.area() && level.tiles@[r@[j] as int]
                == TileType::Floor && !level.blocked@[r@[j] as int] && chebyshev(
                level.x_of(r@[j] as int),
                level.y_of(r@[j] as int),
                level.x_of(idx as int),
                level.y_of(idx as int),
            ) <= radius,
        forall|t: int|
            0 <= t < level.area() && level.tiles@[t] == TileType::Floor && !level.blocked@[t]
                && chebyshev(
                level.x_of(t),
                level.y_of(t),
                level.x_of(idx as int),
                level.y_of(idx as int),
            ) <= radius ==> r@.contains(t as usize),
    {
    let w = level.width;
    let cx = idx % w;
    let cy = idx / w;
    proof {
        lemma_coords_in_bounds(idx as int, w as int, level.height as int);
    }
    let mut r: Vec<usize> = Vec::new();
    let n = level.tiles.len();
    let mut t: usize = 0;
    while t < n
        invariant
            t <= n,
            n == level.area(),
            level.well_formed(),
            level.width > 0,
            w == level.width,
            cx == level.x_of(idx as int),
            cy == level.y_of(idx as int),
            cx < level.width,
            cy < level.height,
            forall|j: int|
                0 <= j < r@.len() ==> r@[j] < t && level.tiles@[r@[j] as int] == TileType::Floor
                    && !level.blocked@[r@[j] as int] && chebyshev(
                    level.x_of(r@[j] as int),
                    level.y_of(r@[j] as int),
                    level.x_of(idx as int),
                    level.y_of(idx as int),
                ) <= radius,
            forall|tt: int|
                0 <= tt < t && level.tiles@[tt] == TileType::Floor && !level.blocked@[tt]
                    && chebyshev(
                    level.x_of(tt),
                    level.y_of(tt),
                    level.x_of(idx as int),
                    level.y_of(idx as int),
                ) <= radius ==> r@.contains(tt as usize),
        decreases n - t,
    {
        let tx = t % w;
        let ty = t / w;
        proof {
            lemma_coords_in_bounds(t as int, w as int, level.height as int);
        }
        let dx = if tx >= cx {
            tx - cx
        } else {
            cx - tx
        };
        let dy = if ty >= cy {
            ty - cy
        } else {
            cy - ty
        };
        let dist = if dx >= dy {
            dx
        } else {
            dy
        };
        if dist <= radius as usize && matches!(level.tiles[t], TileType::Floor)
            && !level.blocked[t] {
            let ghost prev = r@;
            r.push(t);
            proof {
                broadcast use vstd::seq_lib::lemma_seq_contains_after_push;

                assert(r@ == prev.push(t));
            }
        }
        t = t + 1;
    }
    r
}

/// May something be spawned on tile `t` of the rectangle: plain floor,
/// not blocked, inside the rectangle?
pub open spec fn spawnable_in_rect(level: Level, rect: Rect, t: int) -> bool {
    &&& 0 <= t < level.area()
    &&& level.tiles@[t] == TileType::Floor
    &&& !level.blocked@[t]
    &&& rect.spec_contains(level.x_of(t), level.y_of(t))
}

/// All tiles of the rectangle something can be spawned on, ascending.
fn collect_spawnable_in_rect(level: &Level, rect: &Rect) -> (r: Vec<usize>)
    requires
        level.well_formed(),
        level.width > 0,
    ensures
        forall|j: int|
            0 <= j < r@.len() ==> spawnable_in_rect(*level, *rect, #[trigger] r@[j] as int),
        forall|t: int| spawnable_in_rect(*level, *rect, t) ==> r@.contains(t as usize),
        forall|j1: int, j2: int| 0 <= j1 < j2 < r@.len() ==> r@[j1] < r@[j2],
{
    let w = level.width;
    let mut r: Vec<usize> = Vec::new();
    let n = level.tiles.len();
    let mut t: usize = 0;
    while t < n
        invariant
            t <= n,
            n == level.area(),
            level.well_formed(),
            level.width > 0,
            w == level.width,
            forall|j: int|
                0 <= j < r@.len() ==> r@[j] < t && spawnable_in_rect(
                    *level,
                    *rect,
                    #[trigger] r@[j] as int,
                ),
            forall|tt: int| 0 <= tt < t && spawnable_in_rect(*level, *rect, tt) ==> r@.contains(
                tt as usize,
            ),
            forall|j1: int, j2: int| 0 <= j1 < j2 < r@.len() ==> r@[j1] < r@[j2],
        decreases n - t,
    {
        proof {
            lemma_coords_in_bounds(t as int, w as int, level.height as int);
        }
        let tx = (t % w) as i32;
        let ty = (t / w) as i32;
        if matches!(level.tiles[t], TileType::Floor) && !level.blocked[t] && rect.contains(tx, ty) {
            let ghost prev = r@;
            r.push(t);
            proof {
                broadcast use vstd::seq_lib::lemma_seq_contains_after_push;

                assert(r@ == prev.push(t));
            }
        }
        t = t + 1;
    }
    r
}

/// One random spawn point inside the rectangle, when the rectangle has
/// any tile to spawn on; `None` exactly when it has none.
pub fn get_random_spawn_point(
    rect: &Rect,
    level: &Level,
    rng: &mut rltk::RandomNumberGenerator,
) -> (r: Option<usize>)
    requires
        level.well_formed(),
        level.width > 0,
    ensures
        r matches Some(idx) ==> spawnable_in_rect(*level, *rect, idx as int),
        r is None <==> (forall|t: int| !spawnable_in_rect(*level, *rect, t)),
{
    let candidates = collect_spawnable_in_rect(level, rect);
    if candidates.len() == 0 {
        proof {
            assert forall|t: int| !spawnable_in_rect(*level, *rect, t) by {
                if spawnable_in_rect(*level, *rect, t) {
                    assert(candidates@.contains(t as usize));
                }
            }
        }
        return None;
    }
    proof {
        assert(level.area() < 0x4000_0000) by (nonlinear_arith)
            requires
                level.width < 0x8000,
                level.height < 0x8000,
        ;
        assert(candidates@[0] < level.area());
        assert forall|j1: int, j2: int| 0 <= j1 < j2 < candidates@.len() implies candidates@[j1]
            < candidates@[j2] by {}
        assert(candidates@.len() <= level.area()) by {
            if candidates@.len() > level.area() {
                assert(candidates@[level.area()] >= level.area() + 0) by {
                    lemma_sorted_indices_grow(candidates@, level.area());
                }
                assert(spawnable_in_rect(*level, *rect, candidates@[level.area()] as int));
                assert(false);
            }
        }
    }
    let i = rng_range(rng, 0, candidates.len() as i32);
    Some(candidates[i as usize])
}

/// In a strictly ascending list of naturals, the element at position j is
/// at least j.
proof fn lemma_sorted_indices_grow(s: Seq<usize>, j: int)
    requires
        forall|j1: int, j2: int| 0 <= j1 < j2 < s.len() ==> s[j1] < s[j2],
        0 <= j < s.len(),
    ensures
        s[j] >= j,
    decreases j,
{
    if j > 0 {
        lemma_sorted_indices_grow(s, j - 1);
    }
}

/// Up to `count` distinct random spawn points inside the rectangle. The
/// list is shorter than asked only when the rectangle ran out of spawnable
/// tiles, and then it holds all of them.
pub fn get_spawn_points(
    rect: &Rect,
    level: &Level,
    rng: &mut rltk::RandomNumberGenerator,
    count: i32,
) -> (r: Vec<usize>)
    requires
        level.well_formed(),
        level.width > 0,
    ensures
        forall|j: int|
            0 <= j < r@.len() ==> spawnable_in_rect(*level, *rect, #[trigger] r@[j] as int),
        r@.no_duplicates(),
        count >= 0 ==> r@.len() <= count,
        r@.len() < count ==> forall|t: int|
            spawnable_in_rect(*level, *rect, t) ==> r@.contains(t as usize),
{
    let mut candidates = collect_spawnable_in_rect(level, rect);
    let mut r: Vec<usize> = Vec::new();
    if count <= 0 {
        return r;
    }
    proof {
        assert(level.area() < 0x4000_0000) by (nonlinear_arith)
            requires
                level.width < 0x8000,
                level.height < 0x8000,
        ;
        assert(candidates@.len() <= level.area()) by {
            if candidates@.len() > level.area() {
                lemma_sorted_indices_grow(candidates@, level.area());
                assert(spawnable_in_rect(*level, *rect, candidates@[level.area()] as int));
                assert(false);
            }
        }
    }
    let mut picked: i32 = 0;
    while picked < count && candidates.len() > 0
        invariant
            0 <= picked <= count,
            candidates@.len() < 0x4000_0000,
            level.well_formed(),
            level.width > 0,
            r@.len() == picked,
            forall|j: int|
                0 <= j < candidates@.len() ==> spawnable_in_rect(
                    *level,
                    *rect,
                    #[trigger] candidates@[j] as int,
                ),
            forall|j: int|
                0 <= j < r@.len() ==> spawnable_in_rect(*level, *rect, #[trigger] r@[j] as int),
            forall|t: int|
                spawnable_in_rect(*level, *rect, t) ==> candidates@.contains(t as usize)
                    || r@.contains(t as usize),
            forall|j1: int, j2: int|
                0 <= j1 < j2 < candidates@.len() ==> candidates@[j1] != candidates@[j2],
            forall|j: int|
                0 <= j < candidates@.len() ==> !r@.contains(#[trigger] candidates@[j]),
            r@.no_duplicates(),
        decreases count - picked,
    {
        let i = rng_range(rng, 0, candidates.len() as i32) as usize;
        let ghost cands_before = candidates@;
        let ghost r_before = r@;
        let c = candidates.remove(i);
        r.push(c);
        picked = picked + 1;
        proof {
            broadcast use vstd::seq_lib::lemma_seq_contains_after_push;

            assert(candidates@ == cands_before.remove(i as int));
            assert(c == cands_before[i as int]);
            assert(forall|j: int| 0 <= j < i ==> candidates@[j] == cands_before[j]);
            assert(forall|j: int|
                i <= j < candidates@.len() ==> candidates@[j] == cands_before[j + 1]);
            assert forall|t: int| spawnable_in_rect(*level, *rect, t) implies candidates@.contains(
                t as usize,
            ) || r@.contains(t as usize) by {
                if cands_before.contains(t as usize) {
                    let j = choose|j: int|
                        0 <= j < cands_before.len() && cands_before[j] == t as usize;
                    if j == i {
                        assert(r@.contains(t as usize));
                    } else if j < i {
                        assert(candidates@[j] == t as usize);
                    } else {
                        assert(candidates@[j - 1] == t as usize);
                    }
                }
            }
            assert forall|j: int| 0 <= j < candidates@.len() implies !r@.contains(
                #[trigger] candidates@[j],
            ) by {
                if j < i {
                    assert(candidates@[j] == cands_before[j]);
                    assert(cands_before[j] != c);
                } else {
                    assert(candidates@[j] == cands_before[j + 1]);
                    assert(cands_before[j + 1] != c);
                }
            }
            assert(!r_before.contains(c));
            assert(r@.no_duplicates());
        }
    }
    proof {
        if r@.len() < count {
            assert(candidates@.len() == 0);
            assert forall|t: int| spawnable_in_rect(*level, *rect, t) implies r@.contains(
                t as usize,
            ) by {}
        }
    }
    r
}

/// Are a level's rooms laid out soundly: each rectangle inside the grid
/// with a margin of wall, each stamp exactly covering its rectangle?
pub open spec fn rooms_well_placed(level: Level) -> bool {
    forall|j: int|
        0 <= j < level.rooms@.len() ==> {
            let room = #[trigger] level.rooms@[j];
            &&& 1 <= room.rect.x1 <= room.rect.x2 < level.width - 1
            &&& 1 <= room.rect.y1 <= room.rect.y2 < level.height - 1
            &&& room.stamp.well_formed()
            &&& room.stamp.spec_width() == room.rect.x2 - room.rect.x1 + 1
            &&& room.stamp.spec_height() == room.rect.y2 - room.rect.y1 + 1
        }
}

/// An element of a sequence survives appending more elements.
proof fn lemma_contains_preserved<T>(pre: Seq<T>, post: Seq<T>, x: T)
    requires
        post.len() >= pre.len(),
        forall|i: int| 0 <= i < pre.len() ==> post[i] == pre[i],
        pre.contains(x),
    ensures
        post.contains(x),
{
    let i = choose|i: int| 0 <= i < pre.len() && pre[i] == x;
    assert(post[i] == x);
}

/// Does some room's stamp put `part` on the tile `idx`?
pub open spec fn stamped_part_at(level: Level, idx: int, part: RoomPart) -> bool {
    exists|j: int, dx: int, dy: int|
        {
            &&& 0 <= j < level.rooms@.len()
            &&& 0 <= dy < level.rooms@[j].stamp.spec_height()
            &&& 0 <= dx < level.rooms@[j].stamp.spec_width()
            &&& (#[trigger] level.rooms@[j].stamp.cell(dx, dy)) == StampPart::Use(part)
            &&& idx == (level.rooms@[j].rect.y1 + dy) * level.width + level.rooms@[j].rect.x1 + dx
        }
}

/// Is the stamped cell (dx, dy) of room `j` already accounted for in `r`?
pub open spec fn stamp_cell_collected(
    level: Level,
    r: Seq<(usize, RoomPart)>,
    j: int,
    dx: int,
    dy: int,
) -> bool {
    match level.rooms@[j].stamp.cell(dx, dy) {
        StampPart::Use(part) => r.contains(
            (
                ((level.rooms@[j].rect.y1 + dy) * level.width + level.rooms@[j].rect.x1
                    + dx) as usize,
                part,
            ),
        ),
        StampPart::Transparent => true,
    }
}

/// Everything the rooms' stamps place on the level, as pairs of tile index
/// and part: the worklist the spawning pass turns into concrete entities.
pub fn get_stamped_parts(level: &Level) -> (r: Vec<(usize, RoomPart)>)
    requires
        level.well_formed(),
        level.width > 0,
        rooms_well_placed(*level),
    ensures
        forall|k: int|
            0 <= k < r@.len() ==> (#[trigger] r@[k]).0 < level.area() && stamped_part_at(
                *level,
                r@[k].0 as int,
                r@[k].1,
            ),
        forall|j: int, dx: int, dy: int|
            0 <= j < level.rooms@.len() && 0 <= dy < level.rooms@[j].stamp.spec_height() && 0 <= dx
                < level.rooms@[j].stamp.spec_width() ==> #[trigger] stamp_cell_collected(
                *level,
                r@,
                j,
                dx,
                dy,
            ),
{
    broadcast use vstd::seq_lib::lemma_seq_contains_after_push;

    let w = level.width;
    let mut r: Vec<(usize, RoomPart)> = Vec::new();
    let nrooms = level.rooms.len();
    let mut j: usize = 0;
    while j < nrooms
        invariant
            j <= nrooms,
            nrooms == level.rooms@.len(),
            level.well_formed(),
            level.width > 0,
            w == level.width,
            rooms_well_placed(*level),
            forall|k: int|
                0 <= k < r@.len() ==> (#[trigger] r@[k]).0 < level.area() && stamped_part_at(
                    *level,
                    r@[k].0 as int,
                    r@[k].1,
                ),
            forall|j2: int, dx2: int, dy2: int|
                0 <= j2 < j && 0 <= dy2 < level.rooms@[j2].stamp.spec_height() && 0 <= dx2
                    < level.rooms@[j2].stamp.spec_width() ==> #[trigger] stamp_cell_collected(
                    *level,
                    r@,
                    j2,
                    dx2,
                    dy2,
                ),
        decreases nrooms - j,
    {
        let room = &level.rooms[j];
        let sh = room.stamp.height();
        let sw = room.stamp.width();
        let mut dy: usize = 0;
        while dy < sh
            invariant
                dy <= sh,
                j < nrooms,
                nrooms == level.rooms@.len(),
                level.well_formed(),
                level.width > 0,
                w == level.width,
                rooms_well_placed(*level),
                room == &level.rooms[j as int],
                sh == room.stamp.spec_height(),
                sw == room.stamp.spec_width(),
                forall|k: int|
                    0 <= k < r@.len() ==> (#[trigger] r@[k]).0 < level.area() && stamped_part_at(
                        *level,
                        r@[k].0 as int,
                        r@[k].1,
                    ),
                forall|j2: int, dx2: int, dy2: int|
                    0 <= j2 < j && 0 <= dy2 < level.rooms@[j2].stamp.spec_height() && 0 <= dx2
                        < level.rooms@[j2].stamp.spec_width() ==> #[trigger] stamp_cell_collected(
                        *level,
                        r@,
                        j2,
                        dx2,
                        dy2,
                    ),
                forall|dx2: int, dy2: int|
                    0 <= dy2 < dy && 0 <= dx2 < sw ==> #[trigger] stamp_cell_collected(
                        *level,
                        r@,
                        j as int,
                        dx2,
                        dy2,
                    ),
            decreases sh - dy,
        {
            let mut dx: usize = 0;
            while dx < sw
                invariant
                    dx <= sw,
                    dy < sh,
                    j < nrooms,
                    nrooms == level.rooms@.len(),
                    level.well_formed(),
                    level.width > 0,
                    w == level.width,
                    rooms_well_placed(*level),
                    room == &level.rooms[j as int],
                    sh == room.stamp.spec_height(),
                    sw == room.stamp.spec_width(),
                    forall|k: int|
                        0 <= k < r@.len() ==> (#[trigger] r@[k]).0 < level.area()
                            && stamped_part_at(*level, r@[k].0 as int, r@[k].1),
                    forall|j2: int, dx2: int, dy2: int|
                        0 <= j2 < j && 0 <= dy2 < level.rooms@[j2].stamp.spec_height() && 0 <= dx2
                            < level.rooms@[j2].stamp.spec_width()
                            ==> #[trigger] stamp_cell_collected(*level, r@, j2, dx2, dy2),
                    forall|dx2: int, dy2: int|
                        0 <= dy2 < dy && 0 <= dx2 < sw ==> #[trigger] stamp_cell_collected(
                            *level,
                            r@,
                            j as int,
                            dx2,
                            dy2,
                        ),
                    forall|dx2: int|
                        0 <= dx2 < dx ==> #[trigger] stamp_cell_collected(
                            *level,
                            r@,
                            j as int,
                            dx2,
                            dy as int,
                        ),
                decreases sw - dx,
            {
                proof {
                    lemma_idx_in_area(
                        room.rect.x1 + dx as int,
                        room.rect.y1 + dy as int,
                        w as int,
                        level.height as int,
                    );
                    assert(w * level.height < 0x4000_0000) by (nonlinear_arith)
                        requires
                            w < 0x8000,
                            level.height < 0x8000,
                    ;
                }
                let cell = room.stamp.get(dx, dy);
                let ghost r_before = r@;
                match cell {
                    StampPart::Use(part) => {
                        let idx = (room.rect.y1 as usize + dy) * w + room.rect.x1 as usize + dx;
                        r.push((idx, part));
                        proof {
                            assert(r@ == r_before.push((idx, part)));
                            assert(level.rooms@[j as int].stamp.cell(dx as int, dy as int)
                                == StampPart::Use(part));
                            assert(stamped_part_at(*level, idx as int, part));
                        }
                    },
                    StampPart::Transparent => {},
                }
                proof {
                    assert forall|k: int| 0 <= k < r@.len() implies (#[trigger] r@[k]).0
                        < level.area() && stamped_part_at(*level, r@[k].0 as int, r@[k].1) by {
                        if k < r_before.len() {
                            assert(r@[k] == r_before[k]);
                        }
                    }
                    assert forall|j2: int, dx2: int, dy2: int|
                        0 <= j2 < j && 0 <= dy2 < level.rooms@[j2].stamp.spec_height() && 0 <= dx2
                            < level.rooms@[j2].stamp.spec_width() implies
                        #[trigger] stamp_cell_collected(*level, r@, j2, dx2, dy2) by {
                        assert(stamp_cell_collected(*level, r_before, j2, dx2, dy2));
                        if level.rooms@[j2].stamp.cell(dx2, dy2) is Use {
                            let p2 = level.rooms@[j2].stamp.cell(dx2, dy2)->Use_0;
                            let pair = (
                                ((level.rooms@[j2].rect.y1 + dy2) * level.width
                                    + level.rooms@[j2].rect.x1 + dx2) as usize,
                                p2,
                            );
                            lemma_contains_preserved(r_before, r@, pair);
                        }
                    }
                    assert forall|dx2: int, dy2: int|
                        0 <= dy2 < dy && 0 <= dx2 < sw implies #[trigger] stamp_cell_collected(
                            *level,
                            r@,
                            j as int,
                            dx2,
                            dy2,
                        ) by {
                        assert(stamp_cell_collected(*level, r_before, j as int, dx2, dy2));
                        if level.rooms@[j as int].stamp.cell(dx2, dy2) is Use {
                            let p2 = level.rooms@[j as int].stamp.cell(dx2, dy2)->Use_0;
                            let pair = (
                                ((level.rooms@[j as int].rect.y1 + dy2) * level.width
                                    + level.rooms@[j as int].rect.x1 + dx2) as usize,
                                p2,
                            );
                            lemma_contains_preserved(r_before, r@, pair);
                        }
                    }
                    assert forall|dx2: int| 0 <= dx2 < dx + 1 implies
                        #[trigger] stamp_cell_collected(*level, r@, j as int, dx2, dy as int) by {
                        if dx2 < dx {
                            assert(stamp_cell_collected(*level, r_before, j as int, dx2, dy as int));
                            if level.rooms@[j as int].stamp.cell(dx2, dy as int) is Use {
                                let p2 = level.rooms@[j as int].stamp.cell(dx2, dy as int)->Use_0;
                                let pair = (
                                    ((level.rooms@[j as int].rect.y1 + dy) * level.width
                                        + level.rooms@[j as int].rect.x1 + dx2) as usize,
                                    p2,
                                );
                                lemma_contains_preserved(r_before, r@, pair);
                            }
                        } else {
                            if level.rooms@[j as int].stamp.cell(dx as int, dy as int) is Use {
                                assert(r@[r@.len() - 1] == (
                                    ((level.rooms@[j as int].rect.y1 + dy) * level.width
                                        + level.rooms@[j as int].rect.x1 + dx) as usize,
                                    level.rooms@[j as int].stamp.cell(dx as int, dy as int)->Use_0,
                                ));
                            }
                        }
                    }
                }
                dx = dx + 1;
            }
            dy = dy + 1;
        }
        j = j + 1;
    }
    r
}

/// Opening a closed door clears both derived flags at its tile: once the
/// door at `idx` has opened, the tile neither blocks movement nor sight.
pub proof fn lemma_open_door_clears_flags(pre: Level, post: Level, idx: int)
    requires
        0 <= idx < pre.area(),
        pre.well_formed(),
        open_door_post(pre, post, idx, true),
    ensures
        post.tiles@[idx] == TileType::Floor,
        !post.blocked@[idx],
        !post.opaque@[idx],
{
}

/// Opening a door is idempotent: a second application is a no-op, so the
/// state after opening twice is the state after opening once. A door
/// never re-closes on its own: only `close_door` puts the door tile back.
pub proof fn lemma_open_door_idempotent(
    l0: Level,
    l1: Level,
    c1: bool,
    l2: Level,
    c2: bool,
    idx: int,
)
    requires
        0 <= idx < l0.area(),
        l0.well_formed(),
        open_door_post(l0, l1, idx, c1),
        open_door_post(l1, l2, idx, c2),
    ensures
        !c2,
        l2.tiles@ == l1.tiles@,
        l2.blocked@ == l1.blocked@,
        l2.opaque@ == l1.opaque@,
{
    if c1 {
        assert(l1.tiles@[idx] == TileType::Floor);
    }
}

/// Closing and reopening a door toggles the derived flags of its tile
/// between (true, true) and (false, false) and ends with the terrain it
/// started from.
pub proof fn lemma_door_toggle(l0: Level, l1: Level, c1: bool, l2: Level, c2: bool, idx: int)
    requires
        0 <= idx < l0.area(),
        l0.well_formed(),
        l0.tiles@[idx] == TileType::Floor,
        close_door_post(l0, l1, idx, c1),
        open_door_post(l1, l2, idx, c2),
    ensures
        c1 && c2,
        l1.tiles@[idx] == TileType::Door,
        l1.blocked@[idx] && l1.opaque@[idx],
        l2.tiles@[idx] == TileType::Floor,
        !l2.blocked@[idx] && !l2.opaque@[idx],
        l2.tiles@ =~= l0.tiles@,
        l2.blocked@ =~= l0.blocked@.update(idx, false),
        l2.opaque@ =~= l0.opaque@.update(idx, false),
{
}

} // verus!
