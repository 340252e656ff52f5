use tell_lands::indexing::{recompute, Occupant};
use tell_lands::level::Level;
use tell_lands::level_utils::{
    close_door, entities_at_idx, open_door, player_can_leave_dungeon, reveal_map,
    tile_is_blocked,
};
use tell_lands::tile_type::TileType;
use tell_lands::viewshed::{process_open_door, Viewshed};

fn open_level() -> Level {
    let mut level = Level::new(0, 3, 3);
    for t in level.tiles.iter_mut() {
        *t = TileType::Floor;
    }
    level
}

#[test]
fn indexing_derives_blocked_from_walls_and_occupants() {
    let mut level = open_level();
    level.tiles[0] = TileType::Wall;
    let occupants = vec![
        Occupant { id: 7, idx: 4, blocks_movement: true, blocks_sight: false },
        Occupant { id: 8, idx: 5, blocks_movement: false, blocks_sight: true },
    ];
    recompute(&mut level, &occupants);
    for i in 0..9 {
        let expect_blocked = level.tiles[i] == TileType::Wall || i == 4;
        let expect_opaque = level.tiles[i] == TileType::Wall || i == 5;
        assert_eq!(level.blocked[i], expect_blocked, "blocked at {}", i);
        assert_eq!(level.opaque[i], expect_opaque, "opaque at {}", i);
    }
}

#[test]
fn indexing_twice_yields_identical_layers() {
    let mut level = open_level();
    level.tiles[3] = TileType::Wall;
    let occupants = vec![
        Occupant { id: 1, idx: 2, blocks_movement: true, blocks_sight: true },
        Occupant { id: 2, idx: 2, blocks_movement: false, blocks_sight: false },
    ];
    recompute(&mut level, &occupants);
    let blocked_once = level.blocked.clone();
    let opaque_once = level.opaque.clone();
    let content_once = level.tile_content.clone();
    recompute(&mut level, &occupants);
    assert_eq!(level.blocked, blocked_once);
    assert_eq!(level.opaque, opaque_once);
    assert_eq!(level.tile_content, content_once);
}

#[test]
fn tile_content_keeps_stacked_occupants_in_order() {
    let mut level = open_level();
    let occupants = vec![
        Occupant { id: 11, idx: 4, blocks_movement: false, blocks_sight: false },
        Occupant { id: 12, idx: 4, blocks_movement: false, blocks_sight: false },
        Occupant { id: 13, idx: 8, blocks_movement: false, blocks_sight: false },
    ];
    recompute(&mut level, &occupants);
    assert_eq!(entities_at_idx(&level, 4), vec![11, 12]);
    assert_eq!(entities_at_idx(&level, 8), vec![13]);
    assert_eq!(entities_at_idx(&level, 0), Vec::<u64>::new());
}

#[test]
fn open_door_clears_blocking_and_is_idempotent() {
    let mut level = open_level();
    level.tiles[4] = TileType::Door;
    level.blocked[4] = true;
    level.opaque[4] = true;
    let changed = open_door(&mut level, 4);
    assert!(changed);
    assert_eq!(level.tiles[4], TileType::Floor);
    assert!(!level.blocked[4]);
    assert!(!level.opaque[4]);
    let state = (level.tiles.clone(), level.blocked.clone(), level.opaque.clone());
    let changed_again = open_door(&mut level, 4);
    assert!(!changed_again);
    assert_eq!(
        (level.tiles.clone(), level.blocked.clone(), level.opaque.clone()),
        state,
        "a second open must leave the state of the first"
    );
}

#[test]
fn open_door_on_plain_floor_is_a_no_op() {
    let mut level = open_level();
    let changed = open_door(&mut level, 4);
    assert!(!changed);
    assert_eq!(level.tiles[4], TileType::Floor);
}

#[test]
fn door_toggle_flips_both_flags_together() {
    let mut level = open_level();
    assert!(close_door(&mut level, 4));
    assert_eq!(level.tiles[4], TileType::Door);
    assert_eq!((level.blocked[4], level.opaque[4]), (true, true));
    assert!(open_door(&mut level, 4));
    assert_eq!(level.tiles[4], TileType::Floor);
    assert_eq!((level.blocked[4], level.opaque[4]), (false, false));
}

#[test]
fn opening_a_door_marks_every_viewer_dirty() {
    let mut level = open_level();
    level.tiles[4] = TileType::Door;
    level.blocked[4] = true;
    level.opaque[4] = true;
    let mut viewsheds = vec![Viewshed::new(8), Viewshed::new(5)];
    for vs in viewsheds.iter_mut() {
        vs.dirty = false;
    }
    let changed = process_open_door(&mut level, 4, &mut viewsheds);
    assert!(changed);
    assert!(viewsheds.iter().all(|v| v.dirty));
}

#[test]
fn opening_nothing_marks_nobody_dirty() {
    let mut level = open_level();
    let mut viewsheds = vec![Viewshed::new(8)];
    viewsheds[0].dirty = false;
    let changed = process_open_door(&mut level, 4, &mut viewsheds);
    assert!(!changed);
    assert!(!viewsheds[0].dirty);
}

#[test]
fn blocked_query_and_reveal() {
    let mut level = open_level();
    level.blocked[2] = true;
    assert!(tile_is_blocked(2, &level));
    assert!(!tile_is_blocked(4, &level));
    reveal_map(&mut level);
    assert!(level.revealed_tiles.iter().all(|b| *b));
}

#[test]
fn leaving_needs_the_exit_tile() {
    let mut level = open_level();
    assert!(!player_can_leave_dungeon(&level, 4));
    level.exit = Some(4);
    assert!(player_can_leave_dungeon(&level, 4));
    assert!(!player_can_leave_dungeon(&level, 5));
}
