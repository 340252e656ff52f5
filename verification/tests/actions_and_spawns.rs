use tell_lands::camera::{get_render_offset, get_render_offset_for_xy};
use tell_lands::components::{Flammable, MonsterState, Player};
use tell_lands::level::Level;
use tell_lands::level_utils::{
    get_all_spawnable_tiles_in_radius, get_possible_spawn_points_in_level,
    get_random_spawn_point, get_spawn_points, get_stamped_parts, idx_not_in_map,
};
use tell_lands::room::{Room, RoomPart, Stamp, StampPart};
use tell_lands::map_action::MapAction;
use tell_lands::rect::Rect;
use tell_lands::screens::{ScreenMapGeneric, ScreenSuccess};
use tell_lands::tile_type::TileType;

#[test]
fn the_action_list_is_complete_and_ordered() {
    let actions = MapAction::actions();
    assert_eq!(actions.len(), 46);
    assert_eq!(actions[0], MapAction::ActLeft);
    assert_eq!(actions[16], MapAction::MoveLeft);
    assert_eq!(actions[45], MapAction::ScrollUp);
    assert!(actions.contains(&MapAction::OpenDoor));
    assert!(actions.contains(&MapAction::LeaveDungeon));
}

#[test]
fn render_offset_centers_the_viewport() {
    assert_eq!(get_render_offset(40, 21), (0, 0));
    assert_eq!(get_render_offset(0, 0), (-40, -21));
    assert_eq!(get_render_offset_for_xy(40, 21, 5, 7), (5, 7));
    assert_eq!(get_render_offset_for_xy(50, 30, 0, 0), (10, 9));
}

#[test]
fn screens_and_markers_construct() {
    let _ = ScreenMapGeneric::new();
    let _ = ScreenSuccess::new();
    let _ = Player::default();
    let _ = MonsterState { offset_x: -1, offset_y: 2 };
}

#[test]
fn burning_consumes_one_turn() {
    let mut f = Flammable { turns_remaining: 3 };
    f.burn();
    assert_eq!(f.turns_remaining, 2);
}

#[test]
fn spawn_points_want_unblocked_floor() {
    let mut level = Level::new(0, 3, 3);
    level.tiles[4] = TileType::Floor;
    level.tiles[5] = TileType::Floor;
    level.blocked[5] = true;
    assert_eq!(get_possible_spawn_points_in_level(&level), vec![4]);
}

#[test]
fn spawnable_tiles_in_radius_respect_the_distance() {
    let mut level = Level::new(0, 5, 5);
    for t in level.tiles.iter_mut() {
        *t = TileType::Floor;
    }
    let reachable = get_all_spawnable_tiles_in_radius(&level, 12, 1);
    assert_eq!(reachable, vec![6, 7, 8, 11, 12, 13, 16, 17, 18]);
}

#[test]
fn random_spawn_point_fails_only_without_candidates() {
    let mut level = Level::new(0, 4, 4);
    let rect = Rect::new(0, 0, 3, 3);
    let mut rng = rltk::RandomNumberGenerator::seeded(6);
    assert!(get_random_spawn_point(&rect, &level, &mut rng).is_none());
    level.tiles[5] = TileType::Floor;
    assert_eq!(get_random_spawn_point(&rect, &level, &mut rng), Some(5));
}

#[test]
fn spawn_points_are_distinct_and_capped() {
    let mut level = Level::new(0, 6, 6);
    for t in level.tiles.iter_mut() {
        *t = TileType::Floor;
    }
    let rect = Rect::new(1, 1, 4, 4);
    let mut rng = rltk::RandomNumberGenerator::seeded(11);
    let points = get_spawn_points(&rect, &level, &mut rng, 5);
    assert_eq!(points.len(), 5);
    for (i, p) in points.iter().enumerate() {
        assert!(!points[i + 1..].contains(p), "duplicate spawn point");
        let (x, y) = ((p % 6) as i32, (p / 6) as i32);
        assert!(rect.contains(x, y));
    }
    // Asking for more than the rectangle holds returns all sixteen tiles.
    let mut rng2 = rltk::RandomNumberGenerator::seeded(12);
    let all = get_spawn_points(&rect, &level, &mut rng2, 100);
    assert_eq!(all.len(), 16);
}

#[test]
fn indices_off_the_map_are_flagged() {
    let level = Level::new(0, 3, 3);
    assert!(idx_not_in_map(&level, -1));
    assert!(idx_not_in_map(&level, 9));
    assert!(!idx_not_in_map(&level, 0));
    assert!(!idx_not_in_map(&level, 8));
}

#[test]
fn stamped_parts_land_on_their_room_tiles() {
    let mut level = Level::new(0, 6, 6);
    let mut pattern = Vec::new();
    for y in 0..3 {
        let mut row = Vec::new();
        for x in 0..3 {
            if x == 1 && y == 1 {
                row.push(StampPart::Use(RoomPart::Bed));
            } else if x == 0 && y == 0 {
                row.push(StampPart::Transparent);
            } else {
                row.push(StampPart::Use(RoomPart::Wall));
            }
        }
        pattern.push(row);
    }
    level.rooms.push(Room {
        rect: Rect::new(1, 1, 3, 3),
        room_type: None,
        stamp: Stamp::new(pattern),
    });
    let parts = get_stamped_parts(&level);
    // Eight stamped cells: the transparent corner contributes nothing.
    assert_eq!(parts.len(), 8);
    assert!(parts.contains(&(14, RoomPart::Bed)));
    assert!(parts.contains(&(8, RoomPart::Wall)));
    assert!(!parts.iter().any(|(idx, _)| *idx == 7));
}

#[test]
fn generated_stamps_stay_inside_the_grid() {
    let mut rng = rltk::RandomNumberGenerator::seeded(21);
    let level = tell_lands::generator::generate_level(&mut rng, 0, 40, 30)
        .expect("generation failed");
    let parts = get_stamped_parts(&level);
    assert!(!parts.is_empty());
    for (idx, _) in parts {
        assert!(idx < level.tiles.len());
    }
}
