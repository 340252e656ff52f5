use vstd::prelude::*;
use crate::level::Level;
use crate::tile_type::TileType;

verus! {

/// What the entity store reports about one entity for an indexing pass:
/// where it stands and which tags it carries.
#[derive(Clone, Copy, PartialEq, Eq, Structural, Debug)]
pub struct Occupant {
    pub id: u64,
    pub idx: usize,
    pub blocks_movement: bool,
    pub blocks_sight: bool,
}

/// Does some occupant with the movement-blocking tag stand on tile `i`?
pub open spec fn occupant_blocks_at(occupants: Seq<Occupant>, i: int) -> bool {
    exists|k: int|
        0 <= k < occupants.len() && (#[trigger] occupants[k]).idx == i
            && occupants[k].blocks_movement
}

/// Does some occupant with the sight-blocking tag stand on tile `i`?
pub open spec fn occupant_opaque_at(occupants: Seq<Occupant>, i: int) -> bool {
    exists|k: int|
        0 <= k < occupants.len() && (#[trigger] occupants[k]).idx == i && occupants[k].blocks_sight
}

/// The ids of the occupants standing on tile `i`, in report order.
pub open spec fn occupant_ids_at(occupants: Seq<Occupant>, i: int) -> Seq<u64>
    decreases occupants.len(),
{
    if occupants.len() == 0 {
        Seq::empty()
    } else {
        occupant_ids_at(occupants.drop_last(), i) + if occupants.last().idx == i {
            seq![occupants.last().id]
        } else {
            Seq::empty()
        }
    }
}

/// What one indexing pass promises: terrain and the slow layers are left
/// alone, and the derived layers are exactly the ones the terrain and the
/// occupant report dictate.
pub open spec fn indexed_from(pre: Level, post: Level, occupants: Seq<Occupant>) -> bool {
    &&& post == (Level {
        blocked: post.blocked,
        opaque: post.opaque,
        tile_content: post.tile_content,
        ..pre
    })
    &&& post.blocked@.len() == pre.area()
    &&& post.opaque@.len() == pre.area()
    &&& post.tile_content@.len() == pre.area()
    &&& forall|i: int|
        0 <= i < pre.area() ==> (#[trigger] post.blocked@[i]) == (pre.tiles@[i] == TileType::Wall
            || occupant_blocks_at(occupants, i))
    &&& forall|i: int|
        0 <= i < pre.area() ==> (#[trigger] post.opaque@[i]) == (pre.tiles@[i] == TileType::Wall
            || occupant_opaque_at(occupants, i))
    &&& forall|i: int|
        0 <= i < pre.area() ==> (#[trigger] post.tile_content@[i])@ == occupant_ids_at(
            occupants,
            i,
        )
}

/// The indexing pass. Rebuilds `blocked`, `opaque` and the occupant index
/// from the terrain and the current occupant report: a wall or a
/// movement-blocking occupant blocks a tile, a wall or a sight-blocking
/// occupant makes it opaque, and `tile_content` maps every tile to the ids
/// standing on it. Must run after every mutation and before any query.
pub fn recompute(level: &mut Level, occupants: &Vec<Occupant>)
    requires
        old(level).well_formed(),
        forall|k: int|
            0 <= k < occupants@.len() ==> (#[trigger] occupants@[k]).idx < old(level).area(),
    ensures
        final(level).well_formed(),
        indexed_from(*old(level), *final(level), occupants@),
{
    let n = level.tiles.len();
    let mut blocked: Vec<bool> = Vec::new();
    let mut opaque: Vec<bool> = Vec::new();
    let mut tile_content: Vec<Vec<u64>> = Vec::new();
    let mut i: usize = 0;
    while i < n
        invariant
            i <= n,
            n == level.area(),
            level.well_formed(),
            level == old(level),
            blocked@.len() == i,
            opaque@.len() == i,
            tile_content@.len() == i,
            forall|j: int| 0 <= j < i ==> blocked@[j] == (level.tiles@[j] == TileType::Wall),
            forall|j: int| 0 <= j < i ==> opaque@[j] == (level.tiles@[j] == TileType::Wall),
            forall|j: int| 0 <= j < i ==> (#[trigger] tile_content@[j])@ =~= Seq::<u64>::empty(),
        decreases n - i,
    {
        let is_wall = matches!(level.tiles[i], TileType::Wall);
        blocked.push(is_wall);
        opaque.push(is_wall);
        tile_content.push(Vec::new());
        i = i + 1;
    }
    let mut k: usize = 0;
    while k < occupants.len()
        invariant
            k <= occupants@.len(),
            n == level.area(),
            level.well_formed(),
            level == old(level),
            forall|kk: int|
                0 <= kk < occupants@.len() ==> (#[trigger] occupants@[kk]).idx < level.area(),
            blocked@.len() == n,
            opaque@.len() == n,
            tile_content@.len() == n,
            forall|j: int|
                0 <= j < n ==> blocked@[j] == (level.tiles@[j] == TileType::Wall
                    || occupant_blocks_at(occupants@.take(k as int), j)),
            forall|j: int|
                0 <= j < n ==> opaque@[j] == (level.tiles@[j] == TileType::Wall
                    || occupant_opaque_at(occupants@.take(k as int), j)),
            forall|j: int|
                0 <= j < n ==> (#[trigger] tile_content@[j])@ =~= occupant_ids_at(
                    occupants@.take(k as int),
                    j,
                ),
        decreases occupants@.len() - k,
    {
        let occ = occupants[k];
        let ghost before = *level;
        let ghost blocked_before = blocked@;
        let ghost opaque_before = opaque@;
        let ghost content_before = tile_content@;
        if occ.blocks_movement {
            blocked.set(occ.idx, true);
        }
        if occ.blocks_sight {
            opaque.set(occ.idx, true);
        }
        let slot = &mut tile_content[occ.idx];
        slot.push(occ.id);
        k = k + 1;
        proof {
            assert(occupants@.take(k as int).drop_last() =~= occupants@.take(k as int - 1));
            assert(occupants@.take(k as int).last() == occ);
            assert forall|j: int| 0 <= j < n implies blocked@[j] == (level.tiles@[j]
                == TileType::Wall || occupant_blocks_at(occupants@.take(k as int), j)) by {
                if occupant_blocks_at(occupants@.take(k as int - 1), j) {
                    let w = choose|w: int|
                        0 <= w < occupants@.take(k as int - 1).len() && (#[trigger] occupants@.take(
                            k as int - 1,
                        )[w]).idx == j && occupants@.take(k as int - 1)[w].blocks_movement;
                    assert(occupants@.take(k as int)[w].idx == j && occupants@.take(
                        k as int,
                    )[w].blocks_movement);
                }
                if occupant_blocks_at(occupants@.take(k as int), j) && !(occ.idx == j
                    && occ.blocks_movement) {
                    let w = choose|w: int|
                        0 <= w < occupants@.take(k as int).len() && (#[trigger] occupants@.take(
                            k as int,
                        )[w]).idx == j && occupants@.take(k as int)[w].blocks_movement;
                    assert(occupants@.take(k as int - 1)[w].idx == j && occupants@.take(
                        k as int - 1,
                    )[w].blocks_movement);
                }
                if occ.idx == j && occ.blocks_movement {
                    assert(occupants@.take(k as int)[k as int - 1].idx == j);
                }
            }
            assert forall|j: int| 0 <= j < n implies opaque@[j] == (level.tiles@[j]
                == TileType::Wall || occupant_opaque_at(occupants@.take(k as int), j)) by {
                if occupant_opaque_at(occupants@.take(k as int - 1), j) {
                    let w = choose|w: int|
                        0 <= w < occupants@.take(k as int - 1).len() && (#[trigger] occupants@.take(
                            k as int - 1,
                        )[w]).idx == j && occupants@.take(k as int - 1)[w].blocks_sight;
                    assert(occupants@.take(k as int)[w].idx == j && occupants@.take(
                        k as int,
                    )[w].blocks_sight);
                }
                if occupant_opaque_at(occupants@.take(k as int), j) && !(occ.idx == j
                    && occ.blocks_sight) {
                    let w = choose|w: int|
                        0 <= w < occupants@.take(k as int).len() && (#[trigger] occupants@.take(
                            k as int,
                        )[w]).idx == j && occupants@.take(k as int)[w].blocks_sight;
                    assert(occupants@.take(k as int - 1)[w].idx == j && occupants@.take(
                        k as int - 1,
                    )[w].blocks_sight);
                }
                if occ.idx == j && occ.blocks_sight {
                    assert(occupants@.take(k as int)[k as int - 1].idx == j);
                }
            }
            assert forall|j: int| 0 <= j < n implies (#[trigger] tile_content@[j])@
                =~= occupant_ids_at(occupants@.take(k as int), j) by {
                assert(content_before[j]@ =~= occupant_ids_at(occupants@.take(k as int - 1), j));
                if j == occ.idx {
                    assert(tile_content@[j]@ =~= content_before[j]@.push(occ.id));
                } else {
                    assert(tile_content@[j]@ =~= content_before[j]@);
                }
            }
        }
    }
    proof {
        assert(occupants@.take(occupants@.len() as int) =~= occupants@);
    }
    level.blocked = blocked;
    level.opaque = opaque;
    level.tile_content = tile_content;
}

/// Indexing is idempotent: with no mutation in between, a second pass over
/// the same occupant report leaves every derived layer exactly as the
/// first pass wrote it.
pub proof fn lemma_indexing_idempotent(l0: Level, l1: Level, l2: Level, occupants: Seq<Occupant>)
    requires
        indexed_from(l0, l1, occupants),
        indexed_from(l1, l2, occupants),
    ensures
        l2.blocked@ =~= l1.blocked@,
        l2.opaque@ =~= l1.opaque@,
        l2.tile_content@.len() == l1.tile_content@.len(),
        forall|i: int|
            0 <= i < l1.tile_content@.len() ==> (#[trigger] l2.tile_content@[i])@
                == l1.tile_content@[i]@,
{
    assert(l1.tiles@ == l0.tiles@);
    assert(l1.width == l0.width && l1.height == l0.height);
    assert forall|i: int| 0 <= i < l1.blocked@.len() implies l2.blocked@[i] == l1.blocked@[i] by {
        assert(l1.blocked@[i] == (l0.tiles@[i] == TileType::Wall || occupant_blocks_at(
            occupants,
            i,
        )));
        assert(l2.blocked@[i] == (l1.tiles@[i] == TileType::Wall || occupant_blocks_at(
            occupants,
            i,
        )));
    }
    assert forall|i: int| 0 <= i < l1.opaque@.len() implies l2.opaque@[i] == l1.opaque@[i] by {
        assert(l1.opaque@[i] == (l0.tiles@[i] == TileType::Wall || occupant_opaque_at(
            occupants,
            i,
        )));
        assert(l2.opaque@[i] == (l1.tiles@[i] == TileType::Wall || occupant_opaque_at(
            occupants,
            i,
        )));
    }
}

} // verus!
