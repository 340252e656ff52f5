use std::collections::VecDeque;
use tell_lands::connectivity::check_connected;
use tell_lands::dungeon::Dungeon;
use tell_lands::generator::generate_level;
use tell_lands::level::Level;
use tell_lands::tile_type::TileType;

/// An independent reachability check, written straight from the law: every
/// floor tile must be reachable from every other through non-Wall tiles.
fn all_floor_tiles_connected(level: &Level) -> bool {
    let w = level.width;
    let n = level.tiles.len();
    let start = match (0..n).find(|i| level.tiles[*i] != TileType::Wall) {
        Some(s) => s,
        None => return true,
    };
    let mut seen = vec![false; n];
    seen[start] = true;
    let mut queue = VecDeque::new();
    queue.push_back(start);
    while let Some(cur) = queue.pop_front() {
        let x = cur % w;
        let y = cur / w;
        let mut neighbors = Vec::new();
        if x > 0 {
            neighbors.push(cur - 1);
        }
        if x + 1 < w {
            neighbors.push(cur + 1);
        }
        if y > 0 {
            neighbors.push(cur - w);
        }
        if y + 1 < level.height {
            neighbors.push(cur + w);
        }
        for nb in neighbors {
            if level.tiles[nb] != TileType::Wall && !seen[nb] {
                seen[nb] = true;
                queue.push_back(nb);
            }
        }
    }
    (0..n).all(|i| level.tiles[i] == TileType::Wall || seen[i])
}

#[test]
fn generated_levels_are_fully_connected() {
    for seed in [1u64, 7, 42, 1234] {
        let mut rng = rltk::RandomNumberGenerator::seeded(seed);
        let level = generate_level(&mut rng, 1, 40, 30).expect("generation failed");
        assert!(check_connected(&level), "seed {}", seed);
        assert!(all_floor_tiles_connected(&level), "seed {}", seed);
        assert!(level.tiles.iter().any(|t| *t == TileType::Floor));
    }
}

#[test]
fn generated_layers_start_derived_from_terrain() {
    let mut rng = rltk::RandomNumberGenerator::seeded(99);
    let level = generate_level(&mut rng, 2, 36, 24).expect("generation failed");
    assert_eq!(level.width, 36);
    assert_eq!(level.height, 24);
    assert_eq!(level.depth, 2);
    for i in 0..level.tiles.len() {
        assert_eq!(level.blocked[i], level.tiles[i] == TileType::Wall);
        assert_eq!(level.opaque[i], level.tiles[i] == TileType::Wall);
    }
}

#[test]
fn top_floor_gets_the_exit_lower_floors_get_stairs_up() {
    let mut rng = rltk::RandomNumberGenerator::seeded(5);
    let top = generate_level(&mut rng, 0, 32, 32).expect("generation failed");
    assert!(top.exit.is_some());
    assert!(top.stairs_up.is_none());
    let below = generate_level(&mut rng, 1, 32, 32).expect("generation failed");
    assert!(below.exit.is_none());
    assert!(below.stairs_up.is_some());
    let up = below.stairs_up.unwrap();
    assert_eq!(below.tiles[up], TileType::StairsUp);
}

#[test]
fn same_seed_generates_the_same_level() {
    let mut rng_a = rltk::RandomNumberGenerator::seeded(2024);
    let mut rng_b = rltk::RandomNumberGenerator::seeded(2024);
    let a = generate_level(&mut rng_a, 4, 40, 30).expect("generation failed");
    let b = generate_level(&mut rng_b, 4, 40, 30).expect("generation failed");
    assert_eq!(a.tiles, b.tiles);
    assert_eq!(a.rooms, b.rooms);
    assert_eq!(a.stairs_up, b.stairs_up);
    assert_eq!(a.stairs_down, b.stairs_down);
    assert_eq!(a.exit, b.exit);
}

#[test]
fn dungeon_floors_sit_at_their_own_depth() {
    let mut rng = rltk::RandomNumberGenerator::seeded(77);
    let dungeon = Dungeon::generate(&mut rng, 4, 32, 24).expect("generation failed");
    assert_eq!(dungeon.levels.len(), 4);
    for (i, level) in dungeon.levels.iter().enumerate() {
        assert_eq!(level.depth, i);
        assert!(check_connected(level));
    }
    assert!(dungeon.get_level(3).is_some());
    assert!(dungeon.get_level(4).is_none());
}

#[test]
fn connectivity_check_rejects_a_split_floor() {
    let mut level = Level::new(0, 3, 3);
    level.tiles[0] = TileType::Floor;
    level.tiles[8] = TileType::Floor;
    assert!(!check_connected(&level));
}

#[test]
fn connectivity_check_accepts_trivial_floors() {
    // All walls: nothing to connect.
    let sealed = Level::new(0, 3, 3);
    assert!(check_connected(&sealed));
    // One lone floor tile.
    let mut lone = Level::new(0, 3, 3);
    lone.tiles[4] = TileType::Floor;
    assert!(check_connected(&lone));
    // A full open row through doors and stairs: doors count as walkable.
    let mut row = Level::new(0, 3, 3);
    row.tiles[3] = TileType::Floor;
    row.tiles[4] = TileType::Door;
    row.tiles[5] = TileType::StairsDown;
    assert!(check_connected(&row));
}

#[test]
fn mutating_a_floor_through_the_dungeon() {
    let mut rng = rltk::RandomNumberGenerator::seeded(31);
    let mut dungeon = Dungeon::generate(&mut rng, 2, 32, 24).expect("generation failed");
    let level = dungeon.get_level_mut(1);
    level.lit_tiles[0] = true;
    assert!(dungeon.levels[1].lit_tiles[0]);
    assert!(!dungeon.levels[0].lit_tiles[0]);
}
