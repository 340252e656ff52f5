use tell_lands::fov::get_field_of_view_from_idx;
use tell_lands::indexing::recompute;
use tell_lands::level::Level;
use tell_lands::tile_type::TileType;
use tell_lands::viewshed::{apply_player_visibility, refresh_viewshed, Viewshed};

fn open_level(width: usize, height: usize) -> Level {
    let mut level = Level::new(0, width, height);
    for t in level.tiles.iter_mut() {
        *t = TileType::Floor;
    }
    level
}

/// A 10-by-10 grid, all floor but one wall in the middle: from the corner
/// everything is seen except the four tiles whose line to the viewer runs
/// exactly through the wall.
#[test]
fn corner_view_shadows_only_the_diagonal() {
    let mut level = open_level(10, 10);
    level.tiles[55] = TileType::Wall;
    recompute(&mut level, &Vec::new());
    let fov = get_field_of_view_from_idx(&level, 0, 10);
    assert_eq!(fov.len(), 96);
    for shadowed in [66, 77, 88, 99] {
        assert!(!fov.contains(&shadowed), "tile {} must be shadowed", shadowed);
    }
    // The wall itself is visible, and so is everything off the diagonal.
    assert!(fov.contains(&55));
    assert!(fov.contains(&98));
    assert!(fov.contains(&89));
    assert!(fov.contains(&0));
}

#[test]
fn straight_corridor_stops_at_an_opaque_tile() {
    let mut level = open_level(5, 1);
    level.tiles[2] = TileType::Wall;
    recompute(&mut level, &Vec::new());
    let fov = get_field_of_view_from_idx(&level, 0, 10);
    assert_eq!(fov, vec![0, 1, 2]);
}

#[test]
fn range_limits_the_view() {
    let level = open_level(9, 1);
    let fov = get_field_of_view_from_idx(&level, 0, 3);
    assert_eq!(fov, vec![0, 1, 2, 3]);
}

#[test]
fn fov_is_strictly_ascending_without_duplicates() {
    let level = open_level(6, 6);
    let fov = get_field_of_view_from_idx(&level, 14, 3);
    for pair in fov.windows(2) {
        assert!(pair[0] < pair[1]);
    }
}

/// Darkness model: a tile needs line of sight and light, or must sit in
/// the small always-visible disk around the viewer.
#[test]
fn visibility_wants_light_or_closeness() {
    let mut level = open_level(9, 1);
    level.lit_tiles[6] = true;
    let mut vs = Viewshed::new(8);
    refresh_viewshed(&level, &mut vs, 0);
    assert!(!vs.dirty);
    // Everything in the corridor is in line of sight.
    assert_eq!(vs.los_tiles, vec![0, 1, 2, 3, 4, 5, 6, 7, 8]);
    // But only the lit far tile and the near disk are visible.
    assert_eq!(vs.visible_tiles, vec![0, 1, 2, 6]);
}

#[test]
fn clean_viewshed_keeps_its_cached_line_of_sight() {
    let mut level = open_level(5, 1);
    let mut vs = Viewshed::new(8);
    refresh_viewshed(&level, &mut vs, 0);
    let cached = vs.los_tiles.clone();
    // The world changes, but the viewshed was not marked dirty.
    level.opaque[1] = true;
    refresh_viewshed(&level, &mut vs, 0);
    assert_eq!(vs.los_tiles, cached);
    // Once dirty, the cache is rebuilt against the new opacity.
    vs.dirty = true;
    refresh_viewshed(&level, &mut vs, 0);
    assert_eq!(vs.los_tiles, vec![0, 1]);
}

#[test]
fn player_visibility_promotes_revealed_monotonically() {
    let mut level = open_level(3, 3);
    for t in level.lit_tiles.iter_mut() {
        *t = true;
    }
    let mut vs = Viewshed::new(8);
    refresh_viewshed(&level, &mut vs, 0);
    apply_player_visibility(&mut level, &vs);
    assert!(level.visible_tiles.iter().all(|v| *v));
    assert!(level.revealed_tiles.iter().all(|v| *v));
    // Seeing nothing leaves the memory of the map intact.
    apply_player_visibility(&mut level, &Viewshed::new(0));
    assert!(level.visible_tiles.iter().all(|v| !*v));
    assert!(level.revealed_tiles.iter().all(|v| *v));
}
