use vstd::prelude::*;
use crate::level::{lemma_coords_in_bounds, lemma_idx_in_area, Level};
use crate::tile_type::TileType;

verus! {

broadcast use vstd::seq_lib::lemma_seq_contains_after_push;

/// A tile a path may stand on: in range and anything but solid wall.
pub open spec fn walkable(level: Level, i: int) -> bool {
    0 <= i < level.area() && level.tiles@[i] != TileType::Wall
}

/// Two tile indices that are one orthogonal step apart.
pub open spec fn adjacent(level: Level, a: int, b: int) -> bool {
    let ax = level.x_of(a);
    let ay = level.y_of(a);
    let bx = level.x_of(b);
    let by = level.y_of(b);
    &&& 0 <= a < level.area()
    &&& 0 <= b < level.area()
    &&& ((ax == bx && (ay == by + 1 || by == ay + 1)) || (ay == by && (ax == bx + 1 || bx == ax
        + 1)))
}

/// A walk over the grid: at least one tile, every tile walkable, every
/// step orthogonal.
pub open spec fn is_path(level: Level, p: Seq<int>) -> bool {
    &&& p.len() >= 1
    &&& forall|i: int| 0 <= i < p.len() ==> walkable(level, #[trigger] p[i])
    &&& forall|i: int| 0 <= i < p.len() - 1 ==> adjacent(level, #[trigger] p[i], p[i + 1])
}

/// Is there a path of non-Wall tiles from `a` to `b`?
pub open spec fn reachable(level: Level, a: int, b: int) -> bool {
    exists|p: Seq<int>| is_path(level, p) && p.first() == a && p.last() == b
}

/// The connectivity invariant of a generated level: every walkable tile
/// reaches every other walkable tile through non-Wall tiles.
pub open spec fn connected(level: Level) -> bool {
    forall|a: int, b: int|
        walkable(level, a) && walkable(level, b) ==> #[trigger] reachable(level, a, b)
}

/// A walkable tile reaches itself.
pub proof fn lemma_reachable_refl(level: Level, a: int)
    requires
        walkable(level, a),
    ensures
        reachable(level, a, a),
{
    let p: Seq<int> = seq![a];
    assert(is_path(level, p) && p.first() == a && p.last() == a);
}

/// One more adjacent walkable tile extends a path.
pub proof fn lemma_reachable_step(level: Level, a: int, b: int, c: int)
    requires
        reachable(level, a, b),
        adjacent(level, b, c),
        walkable(level, c),
    ensures
        reachable(level, a, c),
{
    let p = choose|p: Seq<int>| is_path(level, p) && p.first() == a && p.last() == b;
    let q = p.push(c);
    assert(forall|i: int| 0 <= i < p.len() ==> q[i] == p[i]);
    assert(q.last() == c);
    assert(is_path(level, q));
    assert(q.first() == a);
}

/// Walking a path backwards is still a path: adjacency has no direction.
pub proof fn lemma_reachable_sym(level: Level, a: int, b: int)
    requires
        reachable(level, a, b),
    ensures
        reachable(level, b, a),
{
    let p = choose|p: Seq<int>| is_path(level, p) && p.first() == a && p.last() == b;
    let q = p.reverse();
    assert(q.len() == p.len());
    assert(forall|i: int| 0 <= i < q.len() ==> q[i] == p[p.len() - 1 - i]);
    assert forall|i: int| 0 <= i < q.len() - 1 implies adjacent(level, #[trigger] q[i], q[i + 1]) by {
        assert(adjacent(level, p[p.len() - 2 - i], p[p.len() - 1 - i]));
    }
    assert(is_path(level, q));
    assert(q.first() == b && q.last() == a);
}

/// Two paths that meet in the middle join into one.
pub proof fn lemma_reachable_trans(level: Level, a: int, b: int, c: int)
    requires
        reachable(level, a, b),
        reachable(level, b, c),
    ensures
        reachable(level, a, c),
{
    let p = choose|p: Seq<int>| is_path(level, p) && p.first() == a && p.last() == b;
    let q = choose|q: Seq<int>| is_path(level, q) && q.first() == b && q.last() == c;
    let r = p + q.subrange(1, q.len() as int);
    assert(forall|i: int| 0 <= i < p.len() ==> r[i] == p[i]);
    assert(forall|i: int| p.len() <= i < r.len() ==> r[i] == q[i - p.len() + 1]);
    assert forall|i: int| 0 <= i < r.len() - 1 implies adjacent(level, #[trigger] r[i], r[i + 1]) by {
        if i < p.len() - 1 {
            assert(adjacent(level, p[i], p[i + 1]));
        } else if i == p.len() - 1 {
            assert(r[i] == p.last() && p.last() == b && q.first() == b);
            if q.len() >= 2 {
                assert(adjacent(level, q[0], q[1]));
            }
        } else {
            assert(adjacent(level, q[i - p.len()], q[i - p.len() + 1]));
        }
    }
    assert forall|i: int| 0 <= i < r.len() implies walkable(level, #[trigger] r[i]) by {
        if i < p.len() {
            assert(walkable(level, p[i]));
        } else {
            assert(walkable(level, q[i - p.len() + 1]));
        }
    }
    if q.len() == 1 {
        assert(r =~= p);
        assert(r.last() == b && b == c);
    } else {
        assert(r.last() == q.last());
    }
    assert(is_path(level, r) && r.first() == a && r.last() == c);
}

/// Once a visited set is closed under adjacency, it swallows every path
/// that starts inside it.
pub proof fn lemma_visited_closed_under_paths(level: Level, visited: Seq<bool>, p: Seq<int>)
    requires
        visited.len() == level.area(),
        forall|i: int, j: int|
            0 <= i < level.area() && visited[i] && #[trigger] adjacent(level, i, j) && walkable(
                level,
                j,
            ) ==> visited[j],
        is_path(level, p),
        visited[p.first()],
    ensures
        visited[p.last()],
    decreases p.len(),
{
    if p.len() > 1 {
        assert(adjacent(level, p[0], p[1]));
        assert(walkable(level, p[1]));
        assert(visited[p[1]]);
        let q = p.subrange(1, p.len() as int);
        assert(forall|i: int| 0 <= i < q.len() ==> q[i] == p[i + 1]);
        assert forall|i: int| 0 <= i < q.len() - 1 implies adjacent(level, #[trigger] q[i], q[i + 1]) by {
            assert(adjacent(level, p[i + 1], p[i + 2]));
        }
        assert(is_path(level, q));
        lemma_visited_closed_under_paths(level, visited, q);
    }
}

/// How many tiles are still unvisited; the termination measure of the
/// search.
pub open spec fn count_false(s: Seq<bool>) -> int
    decreases s.len(),
{
    if s.len() == 0 {
        0int
    } else {
        count_false(s.drop_last()) + if s.last() {
            0int
        } else {
            1int
        }
    }
}

proof fn lemma_count_false_nonneg(s: Seq<bool>)
    ensures
        count_false(s) >= 0,
    decreases s.len(),
{
    if s.len() > 0 {
        lemma_count_false_nonneg(s.drop_last());
    }
}

/// Marking one unvisited tile visited lowers the count by one.
proof fn lemma_count_false_update(s: Seq<bool>, i: int)
    requires
        0 <= i < s.len(),
        !s[i],
    ensures
        count_false(s.update(i, true)) == count_false(s) - 1,
    decreases s.len(),
{
    let t = s.update(i, true);
    if i == s.len() - 1 {
        assert(t.drop_last() =~= s.drop_last());
    } else {
        assert(t.drop_last() =~= s.drop_last().update(i, true));
        lemma_count_false_update(s.drop_last(), i);
    }
}

/// Does every walkable tile of the level reach every other one? The
/// generator runs this check on each floor it builds and refuses the
/// floor when it fails.
#[verifier::rlimit(60)]
pub fn check_connected(level: &Level) -> (r: bool)
    requires
        level.well_formed(),
        level.width > 0,
    ensures
        r == connected(*level),
{
    let n = level.tiles.len();
    let w = level.width;
    let h = level.height;
    // The first walkable tile, if any, seeds the search.
    let mut start: usize = 0;
    while start < n
        invariant_except_break
            start <= n,
            n == level.area(),
            level.well_formed(),
            forall|i: int| 0 <= i < start ==> !walkable(*level, i),
        ensures
            start <= n,
            n == level.area(),
            level.well_formed(),
            forall|i: int| 0 <= i < start ==> !walkable(*level, i),
            start < n ==> walkable(*level, start as int),
        decreases n - start,
    {
        if !matches!(level.tiles[start], TileType::Wall) {
            break ;
        }
        start = start + 1;
    }
    if start == n {
        // No walkable tile at all: the invariant holds vacuously.
        assert(connected(*level)) by {
            assert forall|a: int, b: int|
                walkable(*level, a) && walkable(*level, b) implies #[trigger] reachable(
                *level,
                a,
                b,
            ) by {}
        }
        return true;
    }
    let mut visited: Vec<bool> = Vec::new();
    let mut i: usize = 0;
    while i < n
        invariant
            i <= n,
            visited@.len() == i,
            forall|j: int| 0 <= j < i ==> !visited@[j],
        decreases n - i,
    {
        visited.push(false);
        i = i + 1;
    }
    let mut stack: Vec<usize> = Vec::new();
    visited.set(start, true);
    stack.push(start);
    proof {
        lemma_reachable_refl(*level, start as int);
        assert(stack@[0] == start);
        assert(stack@.contains(start));
    }
    while stack.len() > 0
        invariant
            n == level.area(),
            level.well_formed(),
            level.width > 0,
            w == level.width,
            h == level.height,
            start < n,
            walkable(*level, start as int),
            visited@.len() == n,
            visited@[start as int],
            forall|j: int|
                0 <= j < stack@.len() ==> #[trigger] stack@[j] < n && visited@[stack@[j] as int],
            forall|i2: int|
                0 <= i2 < n && #[trigger] visited@[i2] ==> walkable(*level, i2) && reachable(
                    *level,
                    start as int,
                    i2,
                ),
            forall|i2: int, j2: int|
                0 <= i2 < n && visited@[i2] && !stack@.contains(i2 as usize) && #[trigger] adjacent(
                    *level,
                    i2,
                    j2,
                ) && walkable(*level, j2) ==> visited@[j2],
        decreases count_false(visited@), stack@.len(),
    {
        let ghost visited_at_entry = visited@;
        let ghost stack_at_entry = stack@;
        let cur = stack.pop().unwrap();
        let cx = cur % w;
        let cy = cur / w;
        proof {
            lemma_coords_in_bounds(cur as int, w as int, h as int);
            assert(cy * w + cx == cur);
            assert(level.area() < 0x4000_0000) by (nonlinear_arith)
                requires
                    level.width < 0x8000,
                    level.height < 0x8000,
            ;
        }
        // The four orthogonal neighbours, each carved out by hand so the
        // prover sees the straight-line updates.
        if cx > 0 {
            proof {
                lemma_idx_in_area(cx as int - 1, cy as int, w as int, h as int);
            }
            let nb = cur - 1;
            assert(adjacent(*level, cur as int, nb as int));
            if !matches!(level.tiles[nb], TileType::Wall) && !visited[nb] {
                proof {
                    lemma_count_false_update(visited@, nb as int);
                }
                visited.set(nb, true);
                stack.push(nb);
                proof {
                    lemma_reachable_step(*level, start as int, cur as int, nb as int);
                }
            }
        }
        if cx + 1 < w {
            proof {
                lemma_idx_in_area(cx as int + 1, cy as int, w as int, h as int);
            }
            let nb = cur + 1;
            assert(adjacent(*level, cur as int, nb as int));
            if !matches!(level.tiles[nb], TileType::Wall) && !visited[nb] {
                proof {
                    lemma_count_false_update(visited@, nb as int);
                }
                visited.set(nb, true);
                stack.push(nb);
                proof {
                    lemma_reachable_step(*level, start as int, cur as int, nb as int);
                }
            }
        }
        if cy > 0 {
            proof {
                lemma_idx_in_area(cx as int, cy as int - 1, w as int, h as int);
                assert((cy - 1) * w + cx == cur - w) by (nonlinear_arith)
                    requires
                        cy * w + cx == cur,
                        cy >= 1,
                        w >= 1,
                ;
            }
            let nb = cur - w;
            assert(adjacent(*level, cur as int, nb as int));
            if !matches!(level.tiles[nb], TileType::Wall) && !visited[nb] {
                proof {
                    lemma_count_false_update(visited@, nb as int);
                }
                visited.set(nb, true);
                stack.push(nb);
                proof {
                    lemma_reachable_step(*level, start as int, cur as int, nb as int);
                }
            }
        }
        if cy + 1 < h {
            proof {
                lemma_idx_in_area(cx as int, cy as int + 1, w as int, h as int);
                assert((cy + 1) * w + cx == cur + w) by (nonlinear_arith)
                    requires
                        cy * w + cx == cur,
                        w >= 1,
                ;
            }
            let nb = cur + w;
            assert(adjacent(*level, cur as int, nb as int));
            if !matches!(level.tiles[nb], TileType::Wall) && !visited[nb] {
                proof {
                    lemma_count_false_update(visited@, nb as int);
                }
                visited.set(nb, true);
                stack.push(nb);
                proof {
                    lemma_reachable_step(*level, start as int, cur as int, nb as int);
                }
            }
        }
        proof {
            lemma_count_false_nonneg(visited@);
            // cur is off the stack and all its walkable neighbours are now
            // visited, so the closure invariant holds again.
            assert forall|i2: int, j2: int|
                0 <= i2 < n && visited@[i2] && !stack@.contains(i2 as usize) && #[trigger] adjacent(
                    *level,
                    i2,
                    j2,
                ) && walkable(*level, j2) implies visited@[j2] by {
                if i2 == cur as int {
                    lemma_coords_in_bounds(j2, w as int, h as int);
                    let bx = level.x_of(j2);
                    let by = level.y_of(j2);
                    lemma_idx_in_area(bx, by, w as int, h as int);
                    assert(j2 == by * w + bx);
                    if by == cy as int && bx == cx as int - 1 {
                        assert(j2 == cur - 1);
                    } else if by == cy as int && bx == cx as int + 1 {
                        assert(j2 == cur + 1);
                    } else if bx == cx as int && by == cy as int - 1 {
                        assert((cy as int - 1) * w + cx == cur - w) by (nonlinear_arith)
                            requires
                                cy as int * w + cx == cur,
                                cy >= 1,
                                w >= 1,
                        ;
                        assert(j2 == cur - w);
                    } else {
                        assert(bx == cx as int && by == cy as int + 1);
                        assert((cy as int + 1) * w + cx == cur + w) by (nonlinear_arith)
                            requires
                                cy as int * w + cx == cur,
                                w >= 1,
                        ;
                        assert(j2 == cur + w);
                    }
                } else {
                    if !visited_at_entry[i2] {
                        // i2 was first visited in this iteration, so it was
                        // pushed and still sits on the stack.
                        assert(stack@.contains(i2 as usize));
                        assert(false);
                    } else if stack_at_entry.contains(i2 as usize) {
                        let j = choose|j: int|
                            0 <= j < stack_at_entry.len() && stack_at_entry[j] == i2 as usize;
                        assert(stack_at_entry.last() == cur);
                        assert(j < stack_at_entry.len() - 1);
                        assert(stack_at_entry.drop_last()[j] == i2 as usize);
                        assert(stack_at_entry.drop_last().contains(i2 as usize));
                        assert(stack@.contains(i2 as usize));
                        assert(false);
                    } else {
                        assert(visited_at_entry[j2]);
                    }
                }
            }
        }
    }
    // The search is done: whatever is walkable and unvisited is cut off.
    let mut all_reached = true;
    let ghost mut witness: int = 0int;
    let mut i2: usize = 0;
    while i2 < n
        invariant
            i2 <= n,
            n == level.area(),
            level.well_formed(),
            visited@.len() == n,
            all_reached ==> forall|j: int| 0 <= j < i2 && walkable(*level, j) ==> visited@[j],
            !all_reached ==> walkable(*level, witness) && !visited@[witness],
            start < n,
            walkable(*level, start as int),
            forall|i3: int|
                0 <= i3 < n && #[trigger] visited@[i3] ==> walkable(*level, i3) && reachable(
                    *level,
                    start as int,
                    i3,
                ),
            forall|i3: int, j3: int|
                0 <= i3 < n && visited@[i3] && #[trigger] adjacent(*level, i3, j3) && walkable(
                    *level,
                    j3,
                ) ==> visited@[j3],
        decreases n - i2,
    {
        if !matches!(level.tiles[i2], TileType::Wall) && !visited[i2] {
            proof {
                witness = i2 as int;
            }
            all_reached = false;
        }
        i2 = i2 + 1;
    }
    proof {
        if all_reached {
            assert forall|a: int, b: int|
                walkable(*level, a) && walkable(*level, b) implies #[trigger] reachable(
                *level,
                a,
                b,
            ) by {
                assert(visited@[a] && visited@[b]);
                lemma_reachable_sym(*level, start as int, a);
                lemma_reachable_trans(*level, a, start as int, b);
            }
        } else {
            assert(!connected(*level)) by {
                if connected(*level) {
                    assert(reachable(*level, start as int, witness));
                    let p = choose|p: Seq<int>|
                        is_path(*level, p) && p.first() == start as int && p.last() == witness;
                    lemma_visited_closed_under_paths(*level, visited@, p);
                    assert(false);
                }
            }
        }
    }
    all_reached
}

/// The connectivity law itself: on a connected level, any two floor tiles
/// are joined by a path of non-Wall tiles.
pub proof fn lemma_floor_tiles_mutually_reachable(level: Level, a: int, b: int)
    requires
        connected(level),
        0 <= a < level.area(),
        0 <= b < level.area(),
        level.tiles@[a] == TileType::Floor,
        level.tiles@[b] == TileType::Floor,
    ensures
        reachable(level, a, b),
{
    assert(walkable(level, a) && walkable(level, b));
}

} // verus!
