use tell_lands::level::Level;
use tell_lands::level_utils::{idx_xy, xy_idx};
use tell_lands::tile_type::TileType;

#[test]
fn new_level_is_all_walls() {
    let level = Level::new(3, 4, 5);
    assert_eq!(level.width, 4);
    assert_eq!(level.height, 5);
    assert_eq!(level.depth, 3);
    assert_eq!(level.tiles.len(), 20);
    assert!(level.tiles.iter().all(|t| *t == TileType::Wall));
    assert!(level.blocked.iter().all(|b| !b));
    assert!(level.opaque.iter().all(|b| !b));
    assert!(level.revealed_tiles.iter().all(|b| !b));
    assert!(level.rooms.is_empty());
    assert!(level.stairs_up.is_none());
    assert!(level.stairs_down.is_none());
    assert!(level.exit.is_none());
}

#[test]
fn xy_idx_and_back() {
    assert_eq!(xy_idx(10, 3, 2), 23);
    assert_eq!(idx_xy(10, 23), (3, 2));
    assert_eq!(xy_idx(10, 0, 0), 0);
    assert_eq!(idx_xy(10, 99), (9, 9));
}

#[test]
fn cost_of_open_floor() {
    let mut level = Level::new(0, 3, 3);
    level.tiles[4] = TileType::Floor;
    assert_eq!(level.get_costs_for_tile(4, false), 100);
    assert_eq!(level.get_costs_for_tile(4, true), 145);
}

#[test]
fn cost_of_blocked_door_is_softly_discouraged() {
    let mut level = Level::new(0, 3, 3);
    level.tiles[4] = TileType::Door;
    level.blocked[4] = true;
    assert_eq!(level.get_costs_for_tile(4, false), 200);
    assert_eq!(level.get_costs_for_tile(4, true), 245);
}

#[test]
fn cost_of_blocked_wall_is_effectively_impassable() {
    let mut level = Level::new(0, 3, 3);
    level.blocked[4] = true;
    assert_eq!(level.get_costs_for_tile(4, false), 2600);
    assert_eq!(level.get_costs_for_tile(4, true), 2645);
    assert!(level.get_costs_for_tile(4, false) >= 2500);
}

#[test]
fn exits_from_open_center() {
    let mut level = Level::new(0, 3, 3);
    for t in level.tiles.iter_mut() {
        *t = TileType::Floor;
    }
    let exits = level.get_available_exits(4);
    // West, east, north, south, then the four diagonals.
    assert_eq!(
        exits,
        vec![
            (3, 100),
            (5, 100),
            (1, 100),
            (7, 100),
            (0, 145),
            (2, 145),
            (6, 145),
            (8, 145),
        ]
    );
}

#[test]
fn exits_respect_grid_bounds() {
    let mut level = Level::new(0, 3, 3);
    for t in level.tiles.iter_mut() {
        *t = TileType::Floor;
    }
    let exits = level.get_available_exits(0);
    assert_eq!(exits, vec![(1, 100), (3, 100), (4, 145)]);
}

#[test]
fn diagonal_through_blocked_corner_is_excluded() {
    let mut level = Level::new(0, 3, 3);
    for t in level.tiles.iter_mut() {
        *t = TileType::Floor;
    }
    // Both orthogonal tiles beside the south-east diagonal block movement.
    level.blocked[1] = true;
    level.blocked[3] = true;
    let exits = level.get_available_exits(0);
    assert_eq!(exits, vec![(1, 2600), (3, 2600)]);
}

#[test]
fn pathing_distance_is_squared_euclidean() {
    let level = Level::new(0, 10, 10);
    assert_eq!(level.get_pathing_distance_squared(0, 99), 162);
    assert_eq!(level.get_pathing_distance_squared(0, 9), 81);
    assert_eq!(level.get_pathing_distance_squared(23, 23), 0);
}

#[test]
fn dimensions_reports_width_and_height() {
    let level = Level::new(0, 7, 9);
    assert_eq!(level.dimensions(), (7, 9));
}

#[test]
fn is_opaque_reads_the_layer() {
    let mut level = Level::new(0, 3, 3);
    level.opaque[2] = true;
    assert!(level.is_opaque(2));
    assert!(!level.is_opaque(4));
}

#[test]
fn a_single_tile_level_has_no_exits() {
    let mut level = Level::new(0, 1, 1);
    level.tiles[0] = TileType::Floor;
    assert!(level.get_available_exits(0).is_empty());
}

#[test]
fn exits_allow_a_diagonal_past_a_single_blocker() {
    let mut level = Level::new(0, 3, 3);
    for t in level.tiles.iter_mut() {
        *t = TileType::Floor;
    }
    // Only one of the two orthogonal tiles blocks: the corner is passable.
    level.blocked[1] = true;
    let exits = level.get_available_exits(0);
    assert_eq!(exits, vec![(1, 2600), (3, 100), (4, 145)]);
}
