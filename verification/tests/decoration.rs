use tell_lands::decorators::{
    add_debris_to_room, decorate_collapsed_room, find_and_replace, replace_middle_3x3, QueryStamp,
    QueryStampPart,
};
use tell_lands::room::{RoomPart, Stamp, StampPart};

/// A bordered room stamp: walls around the edge, floor inside.
fn room_stamp(width: usize, height: usize) -> Stamp {
    let mut pattern = Vec::new();
    for y in 0..height {
        let mut row = Vec::new();
        for x in 0..width {
            if x == 0 || y == 0 || x == width - 1 || y == height - 1 {
                row.push(StampPart::Use(RoomPart::Wall));
            } else {
                row.push(StampPart::Use(RoomPart::Floor));
            }
        }
        pattern.push(row);
    }
    Stamp::new(pattern)
}

#[test]
fn seeded_decoration_is_deterministic() {
    let mut stamp_a = room_stamp(12, 9);
    let mut stamp_b = stamp_a.clone();
    let mut rng_a = rltk::RandomNumberGenerator::seeded(314);
    let mut rng_b = rltk::RandomNumberGenerator::seeded(314);
    decorate_collapsed_room(&mut stamp_a, &mut rng_a);
    decorate_collapsed_room(&mut stamp_b, &mut rng_b);
    assert_eq!(stamp_a, stamp_b);
}

#[test]
fn decoration_only_adds_debris() {
    let original = room_stamp(12, 9);
    let mut stamp = original.clone();
    let mut rng = rltk::RandomNumberGenerator::seeded(8);
    decorate_collapsed_room(&mut stamp, &mut rng);
    assert_eq!(stamp.pattern.len(), original.pattern.len());
    let mut debris = 0;
    for y in 0..stamp.pattern.len() {
        assert_eq!(stamp.pattern[y].len(), original.pattern[y].len());
        for x in 0..stamp.pattern[y].len() {
            let now = stamp.pattern[y][x];
            let was = original.pattern[y][x];
            assert!(
                now == was || now == StampPart::Use(RoomPart::Debris),
                "cell ({}, {}) changed to something besides debris",
                x,
                y
            );
            if now == StampPart::Use(RoomPart::Debris) {
                debris += 1;
            }
        }
    }
    assert!(debris >= 1, "a 12x9 room leaves space for at least one cluster");
}

#[test]
fn replace_middle_stamps_only_the_center() {
    let repl = replace_middle_3x3(RoomPart::Debris);
    assert_eq!(repl.pattern.len(), 3);
    for y in 0..3 {
        for x in 0..3 {
            if x == 1 && y == 1 {
                assert_eq!(repl.pattern[y][x], StampPart::Use(RoomPart::Debris));
            } else {
                assert_eq!(repl.pattern[y][x], StampPart::Transparent);
            }
        }
    }
}

#[test]
fn a_placement_miss_is_a_silent_no_op() {
    // A stamp of bare wall has no floor for the query to anchor on.
    let mut pattern = Vec::new();
    for _ in 0..4 {
        let mut row = Vec::new();
        for _ in 0..4 {
            row.push(StampPart::Use(RoomPart::Wall));
        }
        pattern.push(row);
    }
    let mut stamp = Stamp::new(pattern);
    let before = stamp.clone();
    let query = QueryStamp::new(vec![vec![QueryStampPart::Is(vec![RoomPart::Floor])]]);
    let repl = Stamp::new(vec![vec![StampPart::Use(RoomPart::Debris)]]);
    let mut rng = rltk::RandomNumberGenerator::seeded(3);
    find_and_replace(&mut stamp, &mut rng, &query, &repl);
    assert_eq!(stamp, before);
}

#[test]
fn a_single_cell_match_is_replaced() {
    let mut stamp = Stamp::new(vec![vec![
        StampPart::Use(RoomPart::Wall),
        StampPart::Use(RoomPart::Floor),
        StampPart::Use(RoomPart::Wall),
    ]]);
    let query = QueryStamp::new(vec![vec![QueryStampPart::Is(vec![RoomPart::Floor])]]);
    let repl = Stamp::new(vec![vec![StampPart::Use(RoomPart::Debris)]]);
    let mut rng = rltk::RandomNumberGenerator::seeded(3);
    find_and_replace(&mut stamp, &mut rng, &query, &repl);
    assert_eq!(
        stamp.pattern[0],
        vec![
            StampPart::Use(RoomPart::Wall),
            StampPart::Use(RoomPart::Debris),
            StampPart::Use(RoomPart::Wall),
        ]
    );
}

#[test]
fn not_and_any_predicates_match_as_documented() {
    // Query: the left cell must not be floor, the right cell may be anything.
    let query = QueryStamp::new(vec![vec![
        QueryStampPart::Not(vec![RoomPart::Floor]),
        QueryStampPart::Any,
    ]]);
    let repl = Stamp::new(vec![vec![StampPart::Use(RoomPart::Debris), StampPart::Transparent]]);
    let mut stamp = Stamp::new(vec![vec![
        StampPart::Use(RoomPart::Wall),
        StampPart::Use(RoomPart::Floor),
    ]]);
    let mut rng = rltk::RandomNumberGenerator::seeded(9);
    find_and_replace(&mut stamp, &mut rng, &query, &repl);
    assert_eq!(
        stamp.pattern[0],
        vec![StampPart::Use(RoomPart::Debris), StampPart::Use(RoomPart::Floor)]
    );
}

#[test]
fn decorating_a_stamp_without_anchors_changes_nothing() {
    // Bare wall offers the debris query no anchor: every pass is a silent
    // no-op and the stamp comes back exactly as it went in.
    let mut pattern = Vec::new();
    for _ in 0..5 {
        let mut row = Vec::new();
        for _ in 0..5 {
            row.push(StampPart::Use(RoomPart::Wall));
        }
        pattern.push(row);
    }
    let mut stamp = Stamp::new(pattern);
    let before = stamp.clone();
    let mut rng = rltk::RandomNumberGenerator::seeded(4);
    add_debris_to_room(&mut stamp, &mut rng);
    assert_eq!(stamp, before);
    decorate_collapsed_room(&mut stamp, &mut rng);
    assert_eq!(stamp, before);
}

#[test]
fn one_debris_pass_changes_at_most_one_cell() {
    let original = room_stamp(10, 8);
    let mut stamp = original.clone();
    let mut rng = rltk::RandomNumberGenerator::seeded(17);
    add_debris_to_room(&mut stamp, &mut rng);
    let mut changed = Vec::new();
    for y in 0..stamp.pattern.len() {
        for x in 0..stamp.pattern[y].len() {
            if stamp.pattern[y][x] != original.pattern[y][x] {
                changed.push((x, y));
            }
        }
    }
    // A roomy bordered stamp always offers an anchor, so exactly the
    // chosen window's middle floor cell became debris.
    assert_eq!(changed.len(), 1);
    let (x, y) = changed[0];
    assert_eq!(original.pattern[y][x], StampPart::Use(RoomPart::Floor));
    assert_eq!(stamp.pattern[y][x], StampPart::Use(RoomPart::Debris));
}

/// Are all floor cells of the stamp mutually reachable by king moves over
/// floor cells? An independent check of the preservation law.
fn floor_cells_connected(stamp: &Stamp) -> bool {
    let h = stamp.pattern.len();
    let w = if h == 0 { 0 } else { stamp.pattern[0].len() };
    let mut floors = Vec::new();
    for y in 0..h {
        for x in 0..w {
            if stamp.pattern[y][x] == StampPart::Use(RoomPart::Floor) {
                floors.push((x, y));
            }
        }
    }
    let start = match floors.first() {
        Some(s) => *s,
        None => return true,
    };
    let mut seen = vec![vec![false; w]; h];
    seen[start.1][start.0] = true;
    let mut stack = vec![start];
    while let Some((x, y)) = stack.pop() {
        for dy in -1i32..=1 {
            for dx in -1i32..=1 {
                let (nx, ny) = (x as i32 + dx, y as i32 + dy);
                if (dx, dy) != (0, 0) && nx >= 0 && ny >= 0 && (nx as usize) < w
                    && (ny as usize) < h
                {
                    let (nx, ny) = (nx as usize, ny as usize);
                    if !seen[ny][nx]
                        && stamp.pattern[ny][nx] == StampPart::Use(RoomPart::Floor)
                    {
                        seen[ny][nx] = true;
                        stack.push((nx, ny));
                    }
                }
            }
        }
    }
    floors.iter().all(|(x, y)| seen[*y][*x])
}

#[test]
fn decoration_keeps_floor_cells_mutually_connected() {
    for seed in [2u64, 19, 101, 777] {
        let mut stamp = room_stamp(14, 10);
        assert!(floor_cells_connected(&stamp));
        let mut rng = rltk::RandomNumberGenerator::seeded(seed);
        decorate_collapsed_room(&mut stamp, &mut rng);
        assert!(floor_cells_connected(&stamp), "seed {}", seed);
    }
}
