use vstd::prelude::*;
use crate::fov::{get_field_of_view_from_idx, in_fov};
use crate::level::Level;
use crate::level_utils::{open_door, open_door_post};

verus! {

/// Radius of the disk around a viewer that is always visible, lit or not:
/// within melee range nothing hides in the dark.
pub const SELF_LIGHT_RANGE: u32 = 2;

/// What one viewer can see. `los_tiles` is the cached line-of-sight set,
/// recomputed only when `dirty`; `visible_tiles` is derived from it every
/// turn by the lighting rule.
#[derive(Clone, Debug)]
pub struct Viewshed {
    pub los_tiles: Vec<usize>,
    pub visible_tiles: Vec<usize>,
    pub range: u32,
    pub dirty: bool,
}

impl Viewshed {
    /// A fresh viewshed that has never looked anywhere: it must be indexed
    /// once before use, so it starts dirty.
    pub fn new(range: u32) -> (r: Viewshed)
        ensures
            r.los_tiles@.len() == 0,
            r.visible_tiles@.len() == 0,
            r.range == range,
            r.dirty,
    {
        Viewshed { los_tiles: Vec::new(), visible_tiles: Vec::new(), range, dirty: true }
    }
}

/// Is `t` among the tiles listed in `v`?
fn sorted_contains(v: &Vec<usize>, t: usize) -> (r: bool)
    ensures
        r == v@.contains(t),
{
    let mut i: usize = 0;
    while i < v.len()
        invariant
            i <= v@.len(),
            forall|j: int| 0 <= j < i ==> v@[j] != t,
        decreases v@.len() - i,
    {
        if v[i] == t {
            return true;
        }
        i = i + 1;
    }
    false
}

/// The lighting rule of the darkness model: a tile is visible when it is in line of
/// sight and lit, or within the small always-visible disk around the
/// viewer.
pub open spec fn visible_by_light(
    level: Level,
    los: Seq<usize>,
    idx: int,
    t: int,
) -> bool {
    (los.contains(t as usize) && level.lit_tiles@[t]) || in_fov(
        level,
        idx,
        t,
        SELF_LIGHT_RANGE as int,
    )
}

/// One visibility pass for one viewer standing on `idx`.
///
/// The cached line-of-sight set is recomputed only when the viewshed is
/// dirty; the visible set is derived fresh every pass: line of sight
/// intersected with the lit layer, united with the always-visible disk.
pub fn refresh_viewshed(level: &Level, viewshed: &mut Viewshed, idx: usize)
    requires
        level.well_formed(),
        level.width > 0,
        idx < level.area(),
    ensures
        !final(viewshed).dirty,
        final(viewshed).range == old(viewshed).range,
        !old(viewshed).dirty ==> final(viewshed).los_tiles@ == old(viewshed).los_tiles@,
        old(viewshed).dirty ==> forall|t: int|
            0 <= t < level.area() ==> (#[trigger] final(viewshed).los_tiles@.contains(t as usize)
                <==> in_fov(*level, idx as int, t, old(viewshed).range as int)),
        forall|t: int|
            0 <= t < level.area() ==> (#[trigger] final(viewshed).visible_tiles@.contains(
                t as usize,
            ) <==> visible_by_light(*level, final(viewshed).los_tiles@, idx as int, t)),
        forall|j: int|
            0 <= j < final(viewshed).visible_tiles@.len() ==> final(viewshed).visible_tiles@[j]
                < level.area(),
{
    if viewshed.dirty {
        viewshed.los_tiles = get_field_of_view_from_idx(level, idx, viewshed.range);
        viewshed.dirty = false;
        proof {
            assert(level.area() < 0x4000_0000) by (nonlinear_arith)
                requires
                    level.width < 0x8000,
                    level.height < 0x8000,
            ;
            assert forall|t: int| 0 <= t < level.area() implies (
            #[trigger] viewshed.los_tiles@.contains(t as usize) <==> in_fov(
                *level,
                idx as int,
                t,
                viewshed.range as int,
            )) by {
                if viewshed.los_tiles@.contains(t as usize) {
                    let j = choose|j: int|
                        0 <= j < viewshed.los_tiles@.len() && viewshed.los_tiles@[j] == t as usize;
                    assert(in_fov(*level, idx as int, viewshed.los_tiles@[j] as int,
                    viewshed.range as int));
                    assert(viewshed.los_tiles@[j] as int == t);
                } else {
                    assert(!in_fov(*level, idx as int, t, viewshed.range as int)) by {
                        if in_fov(*level, idx as int, t, viewshed.range as int) {
                            assert(viewshed.los_tiles@.contains(t as usize));
                        }
                    }
                }
            }
        }
    } else {
        viewshed.dirty = false;
    }
    let near = get_field_of_view_from_idx(level, idx, SELF_LIGHT_RANGE);
    let n = level.tiles.len();
    let mut visible: Vec<usize> = Vec::new();
    let mut t: usize = 0;
    while t < n
        invariant
            t <= n,
            n == level.area(),
            level.well_formed(),
            level.width > 0,
            idx < level.area(),
            forall|j: int|
                0 <= j < near@.len() ==> near@[j] < level.area() && in_fov(
                    *level,
                    idx as int,
                    #[trigger] near@[j] as int,
                    SELF_LIGHT_RANGE as int,
                ),
            forall|tt: int|
                0 <= tt < level.area() && in_fov(*level, idx as int, tt, SELF_LIGHT_RANGE as int)
                    ==> near@.contains(tt as usize),
            forall|j: int| 0 <= j < visible@.len() ==> #[trigger] visible@[j] < t,
            forall|tt: int|
                0 <= tt < t ==> (visible@.contains(tt as usize) <==> visible_by_light(
                    *level,
                    viewshed.los_tiles@,
                    idx as int,
                    tt,
                )),
        decreases n - t,
    {
        let lit_and_seen = level.lit_tiles[t] && sorted_contains(&viewshed.los_tiles, t);
        let near_seen = sorted_contains(&near, t);
        if lit_and_seen || near_seen {
            let ghost prev = visible@;
            visible.push(t);
            proof {
                broadcast use vstd::seq_lib::lemma_seq_contains_after_push;

                assert(visible@ == prev.push(t));
                if near_seen {
                    let j = choose|j: int| 0 <= j < near@.len() && near@[j] == t;
                    assert(in_fov(*level, idx as int, near@[j] as int, SELF_LIGHT_RANGE as int));
                }
            }
        } else {
            proof {
                broadcast use vstd::seq_lib::lemma_seq_contains_after_push;

                if in_fov(*level, idx as int, t as int, SELF_LIGHT_RANGE as int) {
                    assert(near@.contains(t));
                }
            }
        }
        t = t + 1;
    }
    viewshed.visible_tiles = visible;
}

/// Writes the player's visibility into the level: the level-wide visible
/// layer holds exactly the player's visible set, and every visible tile is
/// promoted into the persistent revealed layer. Only the player viewer
/// does this; revealed terrain is the player's memory of the dungeon.
pub fn apply_player_visibility(level: &mut Level, viewshed: &Viewshed)
    requires
        old(level).well_formed(),
        forall|j: int|
            0 <= j < viewshed.visible_tiles@.len() ==> #[trigger] viewshed.visible_tiles@[j]
                < old(level).area(),
    ensures
        final(level).well_formed(),
        *final(level) == (Level {
            visible_tiles: final(level).visible_tiles,
            revealed_tiles: final(level).revealed_tiles,
            ..*old(level)
        }),
        final(level).visible_tiles@.len() == old(level).area(),
        final(level).revealed_tiles@.len() == old(level).area(),
        forall|i: int|
            0 <= i < old(level).area() ==> (#[trigger] final(level).visible_tiles@[i]
                == viewshed.visible_tiles@.contains(i as usize)),
        forall|i: int|
            0 <= i < old(level).area() ==> (#[trigger] final(level).revealed_tiles@[i] == (old(
                level,
            ).revealed_tiles@[i] || viewshed.visible_tiles@.contains(i as usize))),
{
    let n = level.tiles.len();
    let mut i: usize = 0;
    while i < n
        invariant
            i <= n,
            n == level.area(),
            level.well_formed(),
            *level == (Level { visible_tiles: level.visible_tiles, ..*old(level) }),
            level.visible_tiles@.len() == n,
            forall|j: int| 0 <= j < i ==> !(#[trigger] level.visible_tiles@[j]),
            forall|j: int| i <= j < n ==> level.visible_tiles@[j] == old(level).visible_tiles@[j],
        decreases n - i,
    {
        level.visible_tiles.set(i, false);
        i = i + 1;
    }
    let m = viewshed.visible_tiles.len();
    let ghost cleared = *level;
    let mut j: usize = 0;
    while j < m
        invariant
            j <= m,
            m == viewshed.visible_tiles@.len(),
            n == level.area(),
            level.well_formed(),
            forall|jj: int|
                0 <= jj < m ==> #[trigger] viewshed.visible_tiles@[jj] < level.area(),
            *level == (Level {
                visible_tiles: level.visible_tiles,
                revealed_tiles: level.revealed_tiles,
                ..cleared
            }),
            cleared == (Level { visible_tiles: cleared.visible_tiles, ..*old(level) }),
            level.visible_tiles@.len() == n,
            level.revealed_tiles@.len() == n,
            forall|i2: int| 0 <= i2 < n ==> !(#[trigger] cleared.visible_tiles@[i2]),
            forall|i2: int|
                0 <= i2 < n ==> (#[trigger] level.visible_tiles@[i2]
                    == viewshed.visible_tiles@.take(j as int).contains(i2 as usize)),
            forall|i2: int|
                0 <= i2 < n ==> (#[trigger] level.revealed_tiles@[i2] == (old(
                    level,
                ).revealed_tiles@[i2] || viewshed.visible_tiles@.take(j as int).contains(
                    i2 as usize,
                ))),
        decreases m - j,
    {
        let v = viewshed.visible_tiles[j];
        level.visible_tiles.set(v, true);
        level.revealed_tiles.set(v, true);
        j = j + 1;
        proof {
            let taken = viewshed.visible_tiles@.take(j as int);
            assert(taken.drop_last() =~= viewshed.visible_tiles@.take(j as int - 1));
            assert(taken.last() == v);
            assert forall|i2: int| 0 <= i2 < n implies (#[trigger] level.visible_tiles@[i2]
                == taken.contains(i2 as usize)) by {
                if taken.contains(i2 as usize) {
                    let w = choose|w: int| 0 <= w < taken.len() && taken[w] == i2 as usize;
                    if w < taken.len() - 1 {
                        assert(taken.drop_last()[w] == i2 as usize);
                    }
                } else {
                    if viewshed.visible_tiles@.take(j as int - 1).contains(i2 as usize) {
                        let w = choose|w: int|
                            0 <= w < j - 1 && (#[trigger] viewshed.visible_tiles@.take(
                                j as int - 1,
                            )[w]) == i2 as usize;
                        assert(taken[w] == i2 as usize);
                    }
                }
            }
            assert forall|i2: int| 0 <= i2 < n implies (#[trigger] level.revealed_tiles@[i2] == (
            old(level).revealed_tiles@[i2] || taken.contains(i2 as usize))) by {
                if taken.contains(i2 as usize) {
                    let w = choose|w: int| 0 <= w < taken.len() && taken[w] == i2 as usize;
                    if w < taken.len() - 1 {
                        assert(taken.drop_last()[w] == i2 as usize);
                    }
                } else {
                    if viewshed.visible_tiles@.take(j as int - 1).contains(i2 as usize) {
                        let w = choose|w: int|
                            0 <= w < j - 1 && (#[trigger] viewshed.visible_tiles@.take(
                                j as int - 1,
                            )[w]) == i2 as usize;
                        assert(taken[w] == i2 as usize);
                    }
                }
            }
        }
    }
    proof {
        assert(viewshed.visible_tiles@.take(m as int) =~= viewshed.visible_tiles@);
    }
}

/// The door subsystem's decision for one open-door intent: open the door
/// on the level, and when anything changed, mark every viewshed on that
/// level dirty, since any of their cached line-of-sight sets could now be
/// stale.
pub fn process_open_door(
    level: &mut Level,
    idx: usize,
    viewsheds: &mut Vec<Viewshed>,
) -> (changed: bool)
    requires
        old(level).well_formed(),
        idx < old(level).area(),
    ensures
        final(level).well_formed(),
        open_door_post(*old(level), *final(level), idx as int, changed),
        final(viewsheds)@.len() == old(viewsheds)@.len(),
        changed ==> forall|i: int|
            0 <= i < old(viewsheds)@.len() ==> (#[trigger] final(viewsheds)@[i]) == (Viewshed {
                dirty: true,
                ..old(viewsheds)@[i]
            }),
        !changed ==> final(viewsheds)@ == old(viewsheds)@,
{
    let changed = open_door(level, idx);
    if changed {
        mark_viewsheds_dirty(viewsheds);
    }
    changed
}

/// Marks every viewer dirty. The door subsystem calls this for all
/// viewsheds on a level when a door there opens or closes, since any of
/// their cached line-of-sight sets could be affected.
pub fn mark_viewsheds_dirty(viewsheds: &mut Vec<Viewshed>)
    ensures
        final(viewsheds)@.len() == old(viewsheds)@.len(),
        forall|i: int|
            0 <= i < old(viewsheds)@.len() ==> (#[trigger] final(viewsheds)@[i]) == (Viewshed {
                dirty: true,
                ..old(viewsheds)@[i]
            }),
{
    let n = viewsheds.len();
    let mut i: usize = 0;
    while i < n
        invariant
            i <= n,
            n == viewsheds@.len(),
            forall|j: int|
                0 <= j < i ==> (#[trigger] viewsheds@[j]) == (Viewshed {
                    dirty: true,
                    ..old(viewsheds)@[j]
                }),
            forall|j: int| i <= j < n ==> (#[trigger] viewsheds@[j]) == old(viewsheds)@[j],
        decreases n - i,
    {
        let vs = &mut viewsheds[i];
        vs.dirty = true;
        i = i + 1;
    }
}

} // verus!
