use vstd::prelude::*;
use crate::rng::rng_range;
use crate::room::{RoomPart, Stamp, StampPart};

verus! {

broadcast use vstd::seq_lib::lemma_seq_contains_after_push;

/// One cell of a query pattern: what the stamp cell under it must or must
/// not be for the pattern to match.
#[derive(Clone, PartialEq, Eq, Debug)]
pub enum QueryStampPart {
    Is(Vec<RoomPart>),
    Not(Vec<RoomPart>),
    Any,
}

/// A small grid of per-cell predicates, scanned over a room stamp to find
/// anchors where a replacement may be applied.
#[derive(Clone, PartialEq, Eq, Debug)]
pub struct QueryStamp {
    pub pattern: Vec<Vec<QueryStampPart>>,
}

impl QueryStamp {
    pub open spec fn spec_height(self) -> int {
        self.pattern@.len() as int
    }

    pub open spec fn spec_width(self) -> int {
        if self.pattern@.len() == 0 {
            0
        } else {
            self.pattern@[0]@.len() as int
        }
    }

    pub open spec fn well_formed(self) -> bool {
        forall|y: int|
            0 <= y < self.pattern@.len() ==> (#[trigger] self.pattern@[y])@.len()
                == self.spec_width()
    }

    pub open spec fn cell(self, x: int, y: int) -> QueryStampPart {
        self.pattern@[y]@[x]
    }

    pub fn new(pattern: Vec<Vec<QueryStampPart>>) -> (r: QueryStamp)
        ensures
            r == (QueryStamp { pattern }),
    {
        QueryStamp { pattern }
    }
}

/// Does the stamp cell satisfy one query predicate?
pub open spec fn cell_matches(cell: StampPart, q: QueryStampPart) -> bool {
    match q {
        QueryStampPart::Is(parts) => match cell {
            StampPart::Use(p) => parts@.contains(p),
            StampPart::Transparent => false,
        },
        QueryStampPart::Not(parts) => match cell {
            StampPart::Use(p) => !parts@.contains(p),
            StampPart::Transparent => true,
        },
        QueryStampPart::Any => true,
    }
}

/// Does the whole query match the stamp with its top-left corner on the
/// anchor (ax, ay)? The query must lie fully inside the stamp.
pub open spec fn query_matches_at(stamp: Stamp, q: QueryStamp, ax: int, ay: int) -> bool {
    &&& 0 <= ax && ax + q.spec_width() <= stamp.spec_width()
    &&& 0 <= ay && ay + q.spec_height() <= stamp.spec_height()
    &&& forall|dx: int, dy: int|
        0 <= dy < q.spec_height() && 0 <= dx < q.spec_width() ==> cell_matches(
            #[trigger] stamp.cell(ax + dx, ay + dy),
            q.cell(dx, dy),
        )
}

/// The stamp after pressing `repl` down on the anchor: inside the window a
/// `Use` replacement cell overwrites, a `Transparent` one lets the old
/// cell show through; everything outside the window is untouched.
pub open spec fn stamped_at(pre: Stamp, post: Stamp, ax: int, ay: int, repl: Stamp) -> bool {
    &&& post.spec_height() == pre.spec_height()
    &&& post.spec_width() == pre.spec_width()
    &&& forall|x: int, y: int|
        0 <= y < pre.spec_height() && 0 <= x < pre.spec_width() ==> #[trigger] post.cell(x, y)
            == (if ax <= x < ax + repl.spec_width() && ay <= y < ay + repl.spec_height()
                && (repl.cell(x - ax, y - ay) matches StampPart::Use(_)) {
            repl.cell(x - ax, y - ay)
        } else {
            pre.cell(x, y)
        })
}

fn part_list_contains(parts: &Vec<RoomPart>, p: RoomPart) -> (r: bool)
    ensures
        r == parts@.contains(p),
{
    let mut i: usize = 0;
    while i < parts.len()
        invariant
            i <= parts@.len(),
            forall|j: int| 0 <= j < i ==> parts@[j] != p,
        decreases parts@.len() - i,
    {
        if matches!(parts[i], x if x == p) {
            return true;
        }
        i = i + 1;
    }
    false
}

fn cell_matches_exec(cell: StampPart, q: &QueryStampPart) -> (r: bool)
    ensures
        r == cell_matches(cell, *q),
{
    match q {
        QueryStampPart::Is(parts) => match cell {
            StampPart::Use(p) => part_list_contains(parts, p),
            StampPart::Transparent => false,
        },
        QueryStampPart::Not(parts) => match cell {
            StampPart::Use(p) => !part_list_contains(parts, p),
            StampPart::Transparent => true,
        },
        QueryStampPart::Any => true,
    }
}

/// Does the query match the stamp at the given anchor?
fn query_matches_at_exec(stamp: &Stamp, q: &QueryStamp, ax: usize, ay: usize) -> (r: bool)
    requires
        stamp.well_formed(),
        q.well_formed(),
        ax + q.spec_width() <= stamp.spec_width(),
        ay + q.spec_height() <= stamp.spec_height(),
        stamp.spec_width() <= 0x1000,
        stamp.spec_height() <= 0x1000,
    ensures
        r == query_matches_at(*stamp, *q, ax as int, ay as int),
{
    let qh = q.pattern.len();
    let mut dy: usize = 0;
    while dy < qh
        invariant
            dy <= qh,
            qh == q.spec_height(),
            stamp.well_formed(),
            q.well_formed(),
            ax + q.spec_width() <= stamp.spec_width(),
            ay + q.spec_height() <= stamp.spec_height(),
            stamp.spec_width() <= 0x1000,
            stamp.spec_height() <= 0x1000,
            forall|dx2: int, dy2: int|
                0 <= dy2 < dy && 0 <= dx2 < q.spec_width() ==> cell_matches(
                    #[trigger] stamp.cell(ax + dx2, ay + dy2),
                    q.cell(dx2, dy2),
                ),
        decreases qh - dy,
    {
        let row = &q.pattern[dy];
        let qw = row.len();
        let mut dx: usize = 0;
        while dx < qw
            invariant
                dx <= qw,
                dy < qh,
                qh == q.spec_height(),
                qw == q.spec_width(),
                row == &q.pattern[dy as int],
                stamp.well_formed(),
                q.well_formed(),
                ax + q.spec_width() <= stamp.spec_width(),
                ay + q.spec_height() <= stamp.spec_height(),
                stamp.spec_width() <= 0x1000,
                stamp.spec_height() <= 0x1000,
                forall|dx2: int, dy2: int|
                    0 <= dy2 < dy && 0 <= dx2 < q.spec_width() ==> cell_matches(
                        #[trigger] stamp.cell(ax + dx2, ay + dy2),
                        q.cell(dx2, dy2),
                    ),
                forall|dx2: int|
                    0 <= dx2 < dx ==> cell_matches(
                        #[trigger] stamp.cell(ax + dx2, ay + dy),
                        q.cell(dx2, dy as int),
                    ),
            decreases qw - dx,
        {
            let cell = stamp.get(ax + dx, ay + dy);
            if !cell_matches_exec(cell, &row[dx]) {
                return false;
            }
            dx = dx + 1;
        }
        dy = dy + 1;
    }
    true
}

/// Presses the replacement down on the stamp at the anchor.
fn apply_stamp(stamp: &mut Stamp, ax: usize, ay: usize, repl: &Stamp)
    requires
        old(stamp).well_formed(),
        repl.well_formed(),
        ax + repl.spec_width() <= old(stamp).spec_width(),
        ay + repl.spec_height() <= old(stamp).spec_height(),
        old(stamp).spec_width() <= 0x1000,
        old(stamp).spec_height() <= 0x1000,
    ensures
        final(stamp).well_formed(),
        stamped_at(*old(stamp), *final(stamp), ax as int, ay as int, *repl),
{
    let rh = repl.pattern.len();
    let mut dy: usize = 0;
    while dy < rh
        invariant
            dy <= rh,
            rh == repl.spec_height(),
            stamp.well_formed(),
            repl.well_formed(),
            ax + repl.spec_width() <= stamp.spec_width(),
            ay + repl.spec_height() <= stamp.spec_height(),
            stamp.spec_height() == old(stamp).spec_height(),
            stamp.spec_width() == old(stamp).spec_width(),
            stamp.spec_width() <= 0x1000,
            stamp.spec_height() <= 0x1000,
            forall|x: int, y: int|
                0 <= y < stamp.spec_height() && 0 <= x < stamp.spec_width() ==> #[trigger] stamp.cell(
                    x,
                    y,
                ) == (if ax <= x < ax + repl.spec_width() && ay <= y < ay + dy && (repl.cell(
                    x - ax,
                    y - ay,
                ) matches StampPart::Use(_)) {
                    repl.cell(x - ax, y - ay)
                } else {
                    old(stamp).cell(x, y)
                }),
        decreases rh - dy,
    {
        let rw = repl.pattern[dy].len();
        let mut dx: usize = 0;
        while dx < rw
            invariant
                dx <= rw,
                dy < rh,
                rh == repl.spec_height(),
                rw == repl.spec_width(),
                stamp.well_formed(),
                repl.well_formed(),
                ax + repl.spec_width() <= stamp.spec_width(),
                ay + repl.spec_height() <= stamp.spec_height(),
                stamp.spec_height() == old(stamp).spec_height(),
                stamp.spec_width() == old(stamp).spec_width(),
                stamp.spec_width() <= 0x1000,
                stamp.spec_height() <= 0x1000,
                forall|x: int, y: int|
                    0 <= y < stamp.spec_height() && 0 <= x < stamp.spec_width()
                        ==> #[trigger] stamp.cell(x, y) == (if (ax <= x < ax + repl.spec_width()
                        && ay <= y < ay + dy && (repl.cell(x - ax, y - ay)
                        matches StampPart::Use(_))) || (ax <= x < ax + dx && y == ay + dy && (
                    repl.cell(x - ax, y - ay) matches StampPart::Use(_))) {
                        repl.cell(x - ax, y - ay)
                    } else {
                        old(stamp).cell(x, y)
                    }),
            decreases rw - dx,
        {
            let rcell = repl.get(dx, dy);
            if matches!(rcell, StampPart::Use(_)) {
                stamp.set(ax + dx, ay + dy, rcell);
            }
            dx = dx + 1;
        }
        dy = dy + 1;
    }
}

/// All anchors where the query matches the stamp, in row-major order.
fn find_anchors(stamp: &Stamp, q: &QueryStamp) -> (r: Vec<(usize, usize)>)
    requires
        stamp.well_formed(),
        q.well_formed(),
        q.spec_width() >= 1,
        q.spec_height() >= 1,
        stamp.spec_width() <= 0x1000,
        stamp.spec_height() <= 0x1000,
    ensures
        forall|j: int|
            0 <= j < r@.len() ==> query_matches_at(
                *stamp,
                *q,
                (#[trigger] r@[j]).0 as int,
                r@[j].1 as int,
            ),
        forall|ax: int, ay: int|
            query_matches_at(*stamp, *q, ax, ay) ==> r@.contains((ax as usize, ay as usize)),
        r@.len() <= stamp.spec_width() * stamp.spec_height(),
{
    let mut r: Vec<(usize, usize)> = Vec::new();
    let sh = stamp.height();
    let sw = stamp.width();
    let qh = q.pattern.len();
    let qw = q.pattern[0].len();
    if qh > sh || qw > sw {
        proof {
            assert(forall|ax: int, ay: int| !query_matches_at(*stamp, *q, ax, ay));
            assert(stamp.spec_width() * stamp.spec_height() >= 0) by (nonlinear_arith)
                requires
                    stamp.spec_width() >= 0,
                    stamp.spec_height() >= 0,
            ;
        }
        return r;
    }
    let ah = sh - qh + 1;
    let aw = sw - qw + 1;
    let mut ay: usize = 0;
    while ay < ah
        invariant
            ay <= ah,
            ah == stamp.spec_height() - qh + 1,
            aw == stamp.spec_width() - qw + 1,
            qh == q.spec_height(),
            qw == q.spec_width(),
            qh >= 1 && qw >= 1,
            sh == stamp.spec_height(),
            sw == stamp.spec_width(),
            sw <= 0x1000 && sh <= 0x1000,
            stamp.well_formed(),
            q.well_formed(),
            forall|j: int|
                0 <= j < r@.len() ==> query_matches_at(
                    *stamp,
                    *q,
                    (#[trigger] r@[j]).0 as int,
                    r@[j].1 as int,
                ),
            forall|ax2: int, ay2: int|
                0 <= ay2 < ay && query_matches_at(*stamp, *q, ax2, ay2) ==> r@.contains(
                    (ax2 as usize, ay2 as usize),
                ),
            r@.len() <= ay * aw,
        decreases ah - ay,
    {
        let mut ax: usize = 0;
        while ax < aw
            invariant
                ax <= aw,
                ay < ah,
                ah == stamp.spec_height() - qh + 1,
                aw == stamp.spec_width() - qw + 1,
                qh == q.spec_height(),
                qw == q.spec_width(),
                qh >= 1 && qw >= 1,
                sh == stamp.spec_height(),
                sw == stamp.spec_width(),
                sw <= 0x1000 && sh <= 0x1000,
                stamp.well_formed(),
                q.well_formed(),
                forall|j: int|
                    0 <= j < r@.len() ==> query_matches_at(
                        *stamp,
                        *q,
                        (#[trigger] r@[j]).0 as int,
                        r@[j].1 as int,
                    ),
                forall|ax2: int, ay2: int|
                    0 <= ay2 < ay && query_matches_at(*stamp, *q, ax2, ay2) ==> r@.contains(
                        (ax2 as usize, ay2 as usize),
                    ),
                forall|ax2: int|
                    0 <= ax2 < ax && query_matches_at(*stamp, *q, ax2, ay as int) ==> r@.contains(
                        (ax2 as usize, ay as usize),
                    ),
                r@.len() <= ay * aw + ax,
            decreases aw - ax,
        {
            if query_matches_at_exec(stamp, q, ax, ay) {
                r.push((ax, ay));
            }
            ax = ax + 1;
        }
        proof {
            // Anchors beyond the last matching column are out of range.
            assert forall|ax2: int, ay2: int|
                0 <= ay2 < ay + 1 && query_matches_at(*stamp, *q, ax2, ay2) implies r@.contains(
                (ax2 as usize, ay2 as usize),
            ) by {
                assert(ax2 + qw <= sw);
                assert(ax2 < aw);
            }
            assert(ay * aw + aw == (ay + 1) * aw) by (nonlinear_arith);
        }
        ay = ay + 1;
    }
    proof {
        assert forall|ax2: int, ay2: int| query_matches_at(*stamp, *q, ax2, ay2) implies r@.contains(
            (ax2 as usize, ay2 as usize),
        ) by {
            assert(ay2 + qh <= sh);
            assert(ay2 < ah);
        }
        assert(ah * aw <= sh * sw && sh * sw == sw * sh) by (nonlinear_arith)
            requires
                0 < ah <= sh,
                0 < aw <= sw,
        ;
    }
    r
}

/// The pattern match/replace primitive of room decoration: among all
/// anchors where the query matches, one is drawn at random and the
/// replacement is pressed down there. When no anchor matches, the stamp is
/// left exactly as it was: a placement miss is a silent no-op, never an
/// error.
pub fn find_and_replace(
    stamp: &mut Stamp,
    rng: &mut rltk::RandomNumberGenerator,
    query: &QueryStamp,
    replacement: &Stamp,
)
    requires
        old(stamp).well_formed(),
        query.well_formed(),
        replacement.well_formed(),
        query.spec_width() >= 1,
        query.spec_height() >= 1,
        replacement.spec_width() == query.spec_width(),
        replacement.spec_height() == query.spec_height(),
        old(stamp).spec_width() <= 0x1000,
        old(stamp).spec_height() <= 0x1000,
    ensures
        final(stamp).well_formed(),
        final(stamp).spec_width() == old(stamp).spec_width(),
        final(stamp).spec_height() == old(stamp).spec_height(),
        (forall|ax: int, ay: int| !query_matches_at(*old(stamp), *query, ax, ay)) ==> *final(stamp)
            == *old(stamp),
        (exists|ax: int, ay: int| query_matches_at(*old(stamp), *query, ax, ay)) ==> (exists|
            ax: int,
            ay: int,
        |
            query_matches_at(*old(stamp), *query, ax, ay) && stamped_at(
                *old(stamp),
                *final(stamp),
                ax,
                ay,
                *replacement,
            )),
{
    let anchors = find_anchors(stamp, query);
    if anchors.len() == 0 {
        proof {
            assert forall|ax: int, ay: int| !query_matches_at(*stamp, *query, ax, ay) by {
                if query_matches_at(*stamp, *query, ax, ay) {
                    assert(anchors@.contains((ax as usize, ay as usize)));
                }
            }
        }
        return ;
    }
    proof {
        assert(anchors@.len() <= 0x1000 * 0x1000) by (nonlinear_arith)
            requires
                anchors@.len() <= stamp.spec_width() * stamp.spec_height(),
                stamp.spec_width() <= 0x1000,
                stamp.spec_height() <= 0x1000,
        ;
    }
    let pick = rng_range(rng, 0, anchors.len() as i32);
    let (ax, ay) = anchors[pick as usize];
    apply_stamp(stamp, ax, ay, replacement);
}

/// A 3-by-3 replacement that stamps one part onto the middle cell and
/// shows the original stamp through everywhere else.
pub fn replace_middle_3x3(part: RoomPart) -> (r: Stamp)
    ensures
        r.well_formed(),
        r.spec_width() == 3,
        r.spec_height() == 3,
        r.cell(1, 1) == StampPart::Use(part),
        forall|x: int, y: int|
            0 <= y < 3 && 0 <= x < 3 && !(x == 1 && y == 1) ==> #[trigger] r.cell(x, y)
                == StampPart::Transparent,
{
    let mut pattern: Vec<Vec<StampPart>> = Vec::new();
    let mut row0: Vec<StampPart> = Vec::new();
    row0.push(StampPart::Transparent);
    row0.push(StampPart::Transparent);
    row0.push(StampPart::Transparent);
    let mut row1: Vec<StampPart> = Vec::new();
    row1.push(StampPart::Transparent);
    row1.push(StampPart::Use(part));
    row1.push(StampPart::Transparent);
    let mut row2: Vec<StampPart> = Vec::new();
    row2.push(StampPart::Transparent);
    row2.push(StampPart::Transparent);
    row2.push(StampPart::Transparent);
    pattern.push(row0);
    pattern.push(row1);
    pattern.push(row2);
    Stamp::new(pattern)
}

/// A singleton list holds exactly its one element.
proof fn lemma_contains_one(s: Seq<RoomPart>, a: RoomPart, p: RoomPart)
    requires
        s =~= seq![a],
    ensures
        s.contains(p) <==> p == a,
{
    if s.contains(p) {
        let i = choose|i: int| 0 <= i < s.len() && s[i] == p;
        assert(i == 0);
    }
    assert(s[0] == a);
}

/// A two-element list holds exactly its two elements.
proof fn lemma_contains_two(s: Seq<RoomPart>, a: RoomPart, b: RoomPart, p: RoomPart)
    requires
        s =~= seq![a, b],
    ensures
        s.contains(p) <==> (p == a || p == b),
{
    if s.contains(p) {
        let i = choose|i: int| 0 <= i < s.len() && s[i] == p;
        assert(i == 0 || i == 1);
    }
    assert(s[0] == a && s[1] == b);
}

/// An anchor where the debris query matches: a 3-by-3 window whose top-left
/// cell is anything but bare floor, whose top-middle is floor or earlier
/// debris, whose middle-left may also be wall, whose bottom-left is
/// anything, and whose five remaining cells are bare floor. The middle cell
/// of such a window is floor, and the replacement turns exactly it to
/// debris.
pub open spec fn debris_anchor(stamp: Stamp, ax: int, ay: int) -> bool {
    &&& 0 <= ax && ax + 3 <= stamp.spec_width()
    &&& 0 <= ay && ay + 3 <= stamp.spec_height()
    &&& stamp.cell(ax, ay) != StampPart::Use(RoomPart::Floor)
    &&& (stamp.cell(ax + 1, ay) == StampPart::Use(RoomPart::Floor) || stamp.cell(ax + 1, ay)
        == StampPart::Use(RoomPart::Debris))
    &&& stamp.cell(ax + 2, ay) == StampPart::Use(RoomPart::Floor)
    &&& (stamp.cell(ax, ay + 1) == StampPart::Use(RoomPart::Floor) || stamp.cell(ax, ay + 1)
        == StampPart::Use(RoomPart::Wall))
    &&& stamp.cell(ax + 1, ay + 1) == StampPart::Use(RoomPart::Floor)
    &&& stamp.cell(ax + 2, ay + 1) == StampPart::Use(RoomPart::Floor)
    &&& stamp.cell(ax + 1, ay + 2) == StampPart::Use(RoomPart::Floor)
    &&& stamp.cell(ax + 2, ay + 2) == StampPart::Use(RoomPart::Floor)
}

/// One debris cluster pressed down at the anchor: the middle cell of the
/// window became debris and every other cell of the stamp is untouched.
pub open spec fn debris_cluster_applied(pre: Stamp, post: Stamp, ax: int, ay: int) -> bool {
    &&& post.spec_width() == pre.spec_width()
    &&& post.spec_height() == pre.spec_height()
    &&& post.cell(ax + 1, ay + 1) == StampPart::Use(RoomPart::Debris)
    &&& forall|x: int, y: int|
        0 <= y < pre.spec_height() && 0 <= x < pre.spec_width() && !(x == ax + 1 && y == ay + 1)
            ==> #[trigger] post.cell(x, y) == pre.cell(x, y)
}

/// Everything one decoration step can do. When no anchor of the debris
/// query matches, the stamp is exactly unchanged: a placement miss is a
/// silent no-op. When some anchor matches, one matching anchor was chosen
/// and exactly its window's middle floor cell became debris.
pub open spec fn debris_step(pre: Stamp, post: Stamp) -> bool {
    if exists|ax: int, ay: int| #[trigger] debris_anchor(pre, ax, ay) {
        exists|ax: int, ay: int|
            #[trigger] debris_anchor(pre, ax, ay) && debris_cluster_applied(pre, post, ax, ay)
    } else {
        post == pre
    }
}

/// A chain of exactly `n` decoration steps from `pre` to `post`.
pub open spec fn debris_steps(pre: Stamp, post: Stamp, n: int) -> bool
    decreases n,
{
    if n <= 0 {
        post == pre
    } else {
        exists|mid: Stamp| debris_steps(pre, mid, n - 1) && #[trigger] debris_step(mid, post)
    }
}

/// A bare floor cell of a stamp.
pub open spec fn floor_cell(stamp: Stamp, x: int, y: int) -> bool {
    &&& 0 <= x < stamp.spec_width()
    &&& 0 <= y < stamp.spec_height()
    &&& stamp.cell(x, y) == StampPart::Use(RoomPart::Floor)
}

/// One king-move step: the two cells differ by at most one in each axis,
/// and are not the same cell. Movement on stamps is 8-connected, exactly
/// as on the level grid.
pub open spec fn adj8(a: (int, int), b: (int, int)) -> bool {
    &&& -1 <= a.0 - b.0 <= 1
    &&& -1 <= a.1 - b.1 <= 1
    &&& a != b
}

/// A walk over the floor cells of a stamp, one king move at a time.
pub open spec fn is_floor_path(stamp: Stamp, p: Seq<(int, int)>) -> bool {
    &&& p.len() >= 1
    &&& forall|i: int| 0 <= i < p.len() ==> floor_cell(stamp, (#[trigger] p[i]).0, p[i].1)
    &&& forall|i: int| 0 <= i < p.len() - 1 ==> adj8(#[trigger] p[i], p[i + 1])
}

/// Is there a walk over floor cells from `a` to `b`?
pub open spec fn floor_reachable(stamp: Stamp, a: (int, int), b: (int, int)) -> bool {
    exists|p: Seq<(int, int)>| is_floor_path(stamp, p) && p.first() == a && p.last() == b
}

/// Are all floor cells of the stamp mutually reachable over floor cells?
pub open spec fn floors_connected(stamp: Stamp) -> bool {
    forall|x1: int, y1: int, x2: int, y2: int|
        floor_cell(stamp, x1, y1) && floor_cell(stamp, x2, y2) ==> #[trigger] floor_reachable(
            stamp,
            (x1, y1),
            (x2, y2),
        )
}

proof fn lemma_floor_reachable_refl(stamp: Stamp, a: (int, int))
    requires
        floor_cell(stamp, a.0, a.1),
    ensures
        floor_reachable(stamp, a, a),
{
    let p: Seq<(int, int)> = seq![a];
    assert(is_floor_path(stamp, p) && p.first() == a && p.last() == a);
}

proof fn lemma_floor_reachable_adjacent(stamp: Stamp, a: (int, int), b: (int, int))
    requires
        floor_cell(stamp, a.0, a.1),
        floor_cell(stamp, b.0, b.1),
        adj8(a, b),
    ensures
        floor_reachable(stamp, a, b),
{
    let p: Seq<(int, int)> = seq![a, b];
    assert(is_floor_path(stamp, p) && p.first() == a && p.last() == b);
}

proof fn lemma_floor_reachable_sym(stamp: Stamp, a: (int, int), b: (int, int))
    requires
        floor_reachable(stamp, a, b),
    ensures
        floor_reachable(stamp, b, a),
{
    let p = choose|p: Seq<(int, int)>| is_floor_path(stamp, p) && p.first() == a && p.last() == b;
    let q = p.reverse();
    assert(q.len() == p.len());
    assert(forall|i: int| 0 <= i < q.len() ==> q[i] == p[p.len() - 1 - i]);
    assert forall|i: int| 0 <= i < q.len() - 1 implies adj8(#[trigger] q[i], q[i + 1]) by {
        assert(adj8(p[p.len() - 2 - i], p[p.len() - 1 - i]));
    }
    assert(is_floor_path(stamp, q));
    assert(q.first() == b && q.last() == a);
}

proof fn lemma_floor_reachable_trans(stamp: Stamp, a: (int, int), b: (int, int), c: (int, int))
    requires
        floor_reachable(stamp, a, b),
        floor_reachable(stamp, b, c),
    ensures
        floor_reachable(stamp, a, c),
{
    let p = choose|p: Seq<(int, int)>| is_floor_path(stamp, p) && p.first() == a && p.last() == b;
    let q = choose|q: Seq<(int, int)>| is_floor_path(stamp, q) && q.first() == b && q.last() == c;
    let r = p + q.subrange(1, q.len() as int);
    assert(forall|i: int| 0 <= i < p.len() ==> r[i] == p[i]);
    assert(forall|i: int| p.len() <= i < r.len() ==> r[i] == q[i - p.len() + 1]);
    assert forall|i: int| 0 <= i < r.len() - 1 implies adj8(#[trigger] r[i], r[i + 1]) by {
        if i < p.len() - 1 {
            assert(adj8(p[i], p[i + 1]));
        } else if i == p.len() - 1 {
            if q.len() >= 2 {
                assert(adj8(q[0], q[1]));
            }
        } else {
            assert(adj8(q[i - p.len()], q[i - p.len() + 1]));
        }
    }
    assert forall|i: int| 0 <= i < r.len() implies floor_cell(stamp, (#[trigger] r[i]).0, r[i].1) by {
        if i < p.len() {
            assert(floor_cell(stamp, p[i].0, p[i].1));
        } else {
            assert(floor_cell(stamp, q[i - p.len() + 1].0, q[i - p.len() + 1].1));
        }
    }
    if q.len() == 1 {
        assert(r =~= p);
        assert(r.last() == b && b == c);
    } else {
        assert(r.last() == q.last());
    }
    assert(is_floor_path(stamp, r) && r.first() == a && r.last() == c);
}

/// Every floor cell of the old stamp except the stamped middle is still a
/// floor cell afterwards.
proof fn lemma_cluster_keeps_other_floor(
    pre: Stamp,
    post: Stamp,
    ax: int,
    ay: int,
    u: (int, int),
)
    requires
        debris_cluster_applied(pre, post, ax, ay),
        floor_cell(pre, u.0, u.1),
        u != (ax + 1, ay + 1),
    ensures
        floor_cell(post, u.0, u.1),
{
    assert(post.cell(u.0, u.1) == pre.cell(u.0, u.1));
}

/// The detour around a freshly stamped debris cell: any two floor
/// neighbours of the stamped middle stay joined through the window's
/// guaranteed floor cells (its east and south sides), which the query
/// demanded and the replacement left alone.
proof fn lemma_ring_detour(
    pre: Stamp,
    post: Stamp,
    ax: int,
    ay: int,
    a: (int, int),
    b: (int, int),
)
    requires
        debris_anchor(pre, ax, ay),
        debris_cluster_applied(pre, post, ax, ay),
        floor_cell(pre, a.0, a.1),
        floor_cell(pre, b.0, b.1),
        adj8(a, (ax + 1, ay + 1)),
        adj8(b, (ax + 1, ay + 1)),
    ensures
        floor_reachable(post, a, b),
{
    let e = (ax + 2, ay + 1);
    let s = (ax + 1, ay + 2);
    assert(floor_cell(post, e.0, e.1)) by {
        lemma_cluster_keeps_other_floor(pre, post, ax, ay, e);
    }
    assert(floor_cell(post, s.0, s.1)) by {
        lemma_cluster_keeps_other_floor(pre, post, ax, ay, s);
    }
    lemma_floor_reachable_adjacent(post, e, s);
    assert forall|c: (int, int)|
        floor_cell(pre, c.0, c.1) && adj8(c, (ax + 1, ay + 1)) implies floor_reachable(
        post,
        c,
        s,
    ) by {
        lemma_cluster_keeps_other_floor(pre, post, ax, ay, c);
        if c == s {
            lemma_floor_reachable_refl(post, c);
        } else if c == (ax, ay) {
            // The query forbids bare floor in the top-left corner.
            assert(false);
        } else if c == (ax + 1, ay) || c == (ax + 2, ay) {
            // Top cells walk down the east side.
            assert(adj8(c, e));
            lemma_floor_reachable_adjacent(post, c, e);
            lemma_floor_reachable_trans(post, c, e, s);
        } else {
            // West, east, and the two bottom corners touch south directly.
            assert(c == (ax, ay + 1) || c == (ax + 2, ay + 1) || c == (ax, ay + 2) || c == (
                ax + 2,
                ay + 2,
            ));
            assert(adj8(c, s));
            lemma_floor_reachable_adjacent(post, c, s);
        }
    }
    lemma_floor_reachable_sym(post, b, s);
    lemma_floor_reachable_trans(post, a, s, b);
}

/// A floor walk of the old stamp whose endpoints are not the stamped
/// middle can be rerouted around the new debris cell.
proof fn lemma_reroute(pre: Stamp, post: Stamp, ax: int, ay: int, p: Seq<(int, int)>)
    requires
        debris_anchor(pre, ax, ay),
        debris_cluster_applied(pre, post, ax, ay),
        is_floor_path(pre, p),
        p.first() != (ax + 1, ay + 1),
        p.last() != (ax + 1, ay + 1),
    ensures
        floor_reachable(post, p.first(), p.last()),
    decreases p.len(),
{
    let mid = (ax + 1, ay + 1);
    if p.len() == 1 {
        lemma_cluster_keeps_other_floor(pre, post, ax, ay, p.first());
        lemma_floor_reachable_refl(post, p.first());
    } else if p[1] != mid {
        let q = p.subrange(1, p.len() as int);
        assert(forall|i: int| 0 <= i < q.len() ==> q[i] == p[i + 1]);
        assert forall|i: int| 0 <= i < q.len() - 1 implies adj8(#[trigger] q[i], q[i + 1]) by {
            assert(adj8(p[i + 1], p[i + 2]));
        }
        assert(is_floor_path(pre, q));
        lemma_reroute(pre, post, ax, ay, q);
        lemma_cluster_keeps_other_floor(pre, post, ax, ay, p[0]);
        lemma_cluster_keeps_other_floor(pre, post, ax, ay, p[1]);
        lemma_floor_reachable_adjacent(post, p[0], p[1]);
        lemma_floor_reachable_trans(post, p[0], p[1], p.last());
    } else {
        // The walk steps onto the stamped cell: detour around it.
        assert(p.len() >= 3);
        let b = p[2];
        assert(adj8(p[1], b));
        assert(b != mid);
        assert(adj8(p[0], mid) && adj8(b, mid));
        lemma_ring_detour(pre, post, ax, ay, p[0], b);
        let q = p.subrange(2, p.len() as int);
        assert(forall|i: int| 0 <= i < q.len() ==> q[i] == p[i + 2]);
        assert forall|i: int| 0 <= i < q.len() - 1 implies adj8(#[trigger] q[i], q[i + 1]) by {
            assert(adj8(p[i + 2], p[i + 3]));
        }
        assert(is_floor_path(pre, q));
        lemma_reroute(pre, post, ax, ay, q);
        lemma_floor_reachable_trans(post, p[0], b, p.last());
    }
}

/// One decoration step preserves the mutual connectivity of the stamp's
/// floor cells: the query admits an anchor only where the cells east and
/// south of the stamped middle are floor, so every walk through the middle
/// reroutes around it.
pub proof fn lemma_debris_step_preserves_floor_connectivity(pre: Stamp, post: Stamp)
    requires
        debris_step(pre, post),
        floors_connected(pre),
    ensures
        floors_connected(post),
{
    if exists|ax: int, ay: int| #[trigger] debris_anchor(pre, ax, ay) {
        let (ax, ay) = choose|ax: int, ay: int|
            #[trigger] debris_anchor(pre, ax, ay) && debris_cluster_applied(pre, post, ax, ay);
        let mid = (ax + 1, ay + 1);
        assert forall|x1: int, y1: int, x2: int, y2: int|
            floor_cell(post, x1, y1) && floor_cell(post, x2, y2) implies #[trigger] floor_reachable(
            post,
            (x1, y1),
            (x2, y2),
        ) by {
            // The stamped middle is debris now, so neither endpoint is it,
            // and both were floor before.
            assert(post.cell(mid.0, mid.1) == StampPart::Use(RoomPart::Debris));
            assert((x1, y1) != mid && (x2, y2) != mid);
            assert(pre.cell(x1, y1) == post.cell(x1, y1));
            assert(pre.cell(x2, y2) == post.cell(x2, y2));
            assert(floor_cell(pre, x1, y1) && floor_cell(pre, x2, y2));
            assert(floor_reachable(pre, (x1, y1), (x2, y2)));
            let p = choose|p: Seq<(int, int)>|
                is_floor_path(pre, p) && p.first() == (x1, y1) && p.last() == (x2, y2);
            lemma_reroute(pre, post, ax, ay, p);
        }
    } else {
        assert(post == pre);
    }
}

/// The connectivity-preservation law of room decoration: a whole chain of
/// decoration steps, and so the collapsed-room decorator itself, keeps
/// every pair of the stamp's floor cells mutually reachable.
pub proof fn lemma_decoration_preserves_floor_connectivity(pre: Stamp, post: Stamp, n: int)
    requires
        debris_steps(pre, post, n),
        floors_connected(pre),
    ensures
        floors_connected(post),
    decreases n,
{
    if n > 0 {
        let mid_stamp = choose|mid_stamp: Stamp|
            debris_steps(pre, mid_stamp, n - 1) && #[trigger] debris_step(mid_stamp, post);
        lemma_decoration_preserves_floor_connectivity(pre, mid_stamp, n - 1);
        lemma_debris_step_preserves_floor_connectivity(mid_stamp, post);
    }
}

/// One more decoration step extends a chain by one.
pub proof fn lemma_debris_steps_extend(pre: Stamp, mid: Stamp, post: Stamp, n: int)
    requires
        n >= 1,
        debris_steps(pre, mid, n - 1),
        debris_step(mid, post),
    ensures
        debris_steps(pre, post, n),
{
    assert(debris_steps(pre, mid, n - 1) && debris_step(mid, post));
}

/// The debris query of the collapsed-room decorator: a 3-by-3 window of
/// floor with a non-floor edge above, so a debris cluster grows out of
/// walls and earlier debris. Each of the nine cells is pinned: the query
/// matches a stamp at an anchor exactly when `debris_anchor` holds there.
fn debris_query() -> (r: QueryStamp)
    ensures
        r.well_formed(),
        r.spec_width() == 3,
        r.spec_height() == 3,
        forall|stamp: Stamp, ax: int, ay: int|
            #[trigger] query_matches_at(stamp, r, ax, ay) <==> debris_anchor(stamp, ax, ay),
{
    let mut pattern: Vec<Vec<QueryStampPart>> = Vec::new();
    let mut not_floor: Vec<RoomPart> = Vec::new();
    not_floor.push(RoomPart::Floor);
    let mut floor_or_debris: Vec<RoomPart> = Vec::new();
    floor_or_debris.push(RoomPart::Floor);
    floor_or_debris.push(RoomPart::Debris);
    let mut floor_only_0: Vec<RoomPart> = Vec::new();
    floor_only_0.push(RoomPart::Floor);
    let mut row0: Vec<QueryStampPart> = Vec::new();
    row0.push(QueryStampPart::Not(not_floor));
    row0.push(QueryStampPart::Is(floor_or_debris));
    row0.push(QueryStampPart::Is(floor_only_0));
    let mut floor_or_wall: Vec<RoomPart> = Vec::new();
    floor_or_wall.push(RoomPart::Floor);
    floor_or_wall.push(RoomPart::Wall);
    let mut floor_only_1: Vec<RoomPart> = Vec::new();
    floor_only_1.push(RoomPart::Floor);
    let mut floor_only_2: Vec<RoomPart> = Vec::new();
    floor_only_2.push(RoomPart::Floor);
    let mut row1: Vec<QueryStampPart> = Vec::new();
    row1.push(QueryStampPart::Is(floor_or_wall));
    row1.push(QueryStampPart::Is(floor_only_1));
    row1.push(QueryStampPart::Is(floor_only_2));
    let mut floor_only_3: Vec<RoomPart> = Vec::new();
    floor_only_3.push(RoomPart::Floor);
    let mut floor_only_4: Vec<RoomPart> = Vec::new();
    floor_only_4.push(RoomPart::Floor);
    let mut row2: Vec<QueryStampPart> = Vec::new();
    row2.push(QueryStampPart::Any);
    row2.push(QueryStampPart::Is(floor_only_3));
    row2.push(QueryStampPart::Is(floor_only_4));
    pattern.push(row0);
    pattern.push(row1);
    pattern.push(row2);
    let r = QueryStamp::new(pattern);
    proof {
        // What each of the nine cells accepts, from its part lists.
        assert forall|c: StampPart| #[trigger] cell_matches(c, r.cell(0, 0)) <==> c
            != StampPart::Use(RoomPart::Floor) by {
            if c is Use {
                lemma_contains_one(not_floor@, RoomPart::Floor, c->Use_0);
            }
        }
        assert forall|c: StampPart| #[trigger] cell_matches(c, r.cell(1, 0)) <==> (c
            == StampPart::Use(RoomPart::Floor) || c == StampPart::Use(RoomPart::Debris)) by {
            if c is Use {
                lemma_contains_two(floor_or_debris@, RoomPart::Floor, RoomPart::Debris, c->Use_0);
            }
        }
        assert forall|c: StampPart| #[trigger] cell_matches(c, r.cell(2, 0)) <==> c
            == StampPart::Use(RoomPart::Floor) by {
            if c is Use {
                lemma_contains_one(floor_only_0@, RoomPart::Floor, c->Use_0);
            }
        }
        assert forall|c: StampPart| #[trigger] cell_matches(c, r.cell(0, 1)) <==> (c
            == StampPart::Use(RoomPart::Floor) || c == StampPart::Use(RoomPart::Wall)) by {
            if c is Use {
                lemma_contains_two(floor_or_wall@, RoomPart::Floor, RoomPart::Wall, c->Use_0);
            }
        }
        assert forall|c: StampPart| #[trigger] cell_matches(c, r.cell(1, 1)) <==> c
            == StampPart::Use(RoomPart::Floor) by {
            if c is Use {
                lemma_contains_one(floor_only_1@, RoomPart::Floor, c->Use_0);
            }
        }
        assert forall|c: StampPart| #[trigger] cell_matches(c, r.cell(2, 1)) <==> c
            == StampPart::Use(RoomPart::Floor) by {
            if c is Use {
                lemma_contains_one(floor_only_2@, RoomPart::Floor, c->Use_0);
            }
        }
        assert(forall|c: StampPart| #[trigger] cell_matches(c, r.cell(0, 2)));
        assert forall|c: StampPart| #[trigger] cell_matches(c, r.cell(1, 2)) <==> c
            == StampPart::Use(RoomPart::Floor) by {
            if c is Use {
                lemma_contains_one(floor_only_3@, RoomPart::Floor, c->Use_0);
            }
        }
        assert forall|c: StampPart| #[trigger] cell_matches(c, r.cell(2, 2)) <==> c
            == StampPart::Use(RoomPart::Floor) by {
            if c is Use {
                lemma_contains_one(floor_only_4@, RoomPart::Floor, c->Use_0);
            }
        }
        // The whole window: the query matches exactly at debris anchors.
        assert forall|stamp: Stamp, ax: int, ay: int|
            #[trigger] query_matches_at(stamp, r, ax, ay) <==> debris_anchor(stamp, ax, ay) by {
            if query_matches_at(stamp, r, ax, ay) {
                assert(cell_matches(stamp.cell(ax + 0, ay + 0), r.cell(0, 0)));
                assert(cell_matches(stamp.cell(ax + 1, ay + 0), r.cell(1, 0)));
                assert(cell_matches(stamp.cell(ax + 2, ay + 0), r.cell(2, 0)));
                assert(cell_matches(stamp.cell(ax + 0, ay + 1), r.cell(0, 1)));
                assert(cell_matches(stamp.cell(ax + 1, ay + 1), r.cell(1, 1)));
                assert(cell_matches(stamp.cell(ax + 2, ay + 1), r.cell(2, 1)));
                assert(cell_matches(stamp.cell(ax + 1, ay + 2), r.cell(1, 2)));
                assert(cell_matches(stamp.cell(ax + 2, ay + 2), r.cell(2, 2)));
                assert(debris_anchor(stamp, ax, ay));
            }
            if debris_anchor(stamp, ax, ay) {
                assert forall|dx: int, dy: int| 0 <= dy < 3 && 0 <= dx < 3 implies cell_matches(
                    #[trigger] stamp.cell(ax + dx, ay + dy),
                    r.cell(dx, dy),
                ) by {
                    assert(cell_matches(stamp.cell(ax + 0, ay + 0), r.cell(0, 0)));
                    assert(cell_matches(stamp.cell(ax + 1, ay + 0), r.cell(1, 0)));
                    assert(cell_matches(stamp.cell(ax + 2, ay + 0), r.cell(2, 0)));
                    assert(cell_matches(stamp.cell(ax + 0, ay + 1), r.cell(0, 1)));
                    assert(cell_matches(stamp.cell(ax + 1, ay + 1), r.cell(1, 1)));
                    assert(cell_matches(stamp.cell(ax + 2, ay + 1), r.cell(2, 1)));
                    assert(cell_matches(stamp.cell(ax + 0, ay + 2), r.cell(0, 2)));
                    assert(cell_matches(stamp.cell(ax + 1, ay + 2), r.cell(1, 2)));
                    assert(cell_matches(stamp.cell(ax + 2, ay + 2), r.cell(2, 2)));
                }
                assert(query_matches_at(stamp, r, ax, ay));
            }
        }
    }
    r
}

/// Every cell is either what it was or a freshly stamped debris cell.
pub open spec fn only_debris_added(pre: Stamp, post: Stamp) -> bool {
    &&& post.spec_width() == pre.spec_width()
    &&& post.spec_height() == pre.spec_height()
    &&& forall|x: int, y: int|
        0 <= y < pre.spec_height() && 0 <= x < pre.spec_width() ==> (#[trigger] post.cell(x, y)
            == pre.cell(x, y) || post.cell(x, y) == StampPart::Use(RoomPart::Debris))
}

/// One decoration step of a collapsed room. When no anchor of the debris
/// query matches, the stamp is left exactly as it was; when some anchor
/// matches, one matching anchor is drawn at random and exactly its
/// window's middle floor cell becomes debris (`debris_step`).
pub fn add_debris_to_room(room_stamp: &mut Stamp, rng: &mut rltk::RandomNumberGenerator)
    requires
        old(room_stamp).well_formed(),
        old(room_stamp).spec_width() <= 0x1000,
        old(room_stamp).spec_height() <= 0x1000,
    ensures
        final(room_stamp).well_formed(),
        debris_step(*old(room_stamp), *final(room_stamp)),
        only_debris_added(*old(room_stamp), *final(room_stamp)),
{
    let query_stamp = debris_query();
    let replace_stamp = replace_middle_3x3(RoomPart::Debris);
    find_and_replace(room_stamp, rng, &query_stamp, &replace_stamp);
    proof {
        let pre = *old(room_stamp);
        let post = *room_stamp;
        if exists|ax: int, ay: int| #[trigger] debris_anchor(pre, ax, ay) {
            let (wax, way) = choose|wax: int, way: int| #[trigger] debris_anchor(pre, wax, way);
            assert(query_matches_at(pre, query_stamp, wax, way));
            let (ax, ay) = choose|ax: int, ay: int|
                query_matches_at(pre, query_stamp, ax, ay) && stamped_at(
                    pre,
                    post,
                    ax,
                    ay,
                    replace_stamp,
                );
            assert(debris_anchor(pre, ax, ay));
            assert(debris_cluster_applied(pre, post, ax, ay)) by {
                assert(post.cell(ax + 1, ay + 1) == StampPart::Use(RoomPart::Debris));
                assert forall|x: int, y: int|
                    0 <= y < pre.spec_height() && 0 <= x < pre.spec_width() && !(x == ax + 1 && y
                        == ay + 1) implies #[trigger] post.cell(x, y) == pre.cell(x, y) by {
                    if ax <= x < ax + 3 && ay <= y < ay + 3 {
                        assert(replace_stamp.cell(x - ax, y - ay) == StampPart::Transparent);
                    }
                }
            }
        } else {
            assert forall|ax: int, ay: int| !query_matches_at(pre, query_stamp, ax, ay) by {
                if query_matches_at(pre, query_stamp, ax, ay) {
                    assert(debris_anchor(pre, ax, ay));
                }
            }
            assert(post == pre);
        }
    }
}

/// Decorates a collapsed room: the random source draws how many passes to
/// run, between five and fifteen, and that many decoration steps run in
/// order, each placing at most one debris cluster and each miss a silent
/// no-op. The result is reachable from the input by such a chain, so only
/// matched middle floor cells ever turned to debris.
pub fn decorate_collapsed_room(room_stamp: &mut Stamp, rng: &mut rltk::RandomNumberGenerator)
    requires
        old(room_stamp).well_formed(),
        old(room_stamp).spec_width() <= 0x1000,
        old(room_stamp).spec_height() <= 0x1000,
    ensures
        final(room_stamp).well_formed(),
        only_debris_added(*old(room_stamp), *final(room_stamp)),
        exists|n: int| 5 <= n <= 15 && #[trigger] debris_steps(
            *old(room_stamp),
            *final(room_stamp),
            n,
        ),
{
    let count = rng_range(rng, 5, 16);
    let mut i: i32 = 0;
    while i < count
        invariant
            0 <= i <= count,
            5 <= count <= 15,
            room_stamp.well_formed(),
            room_stamp.spec_width() <= 0x1000,
            room_stamp.spec_height() <= 0x1000,
            only_debris_added(*old(room_stamp), *room_stamp),
            debris_steps(*old(room_stamp), *room_stamp, i as int),
        decreases count - i,
    {
        let ghost before = *room_stamp;
        add_debris_to_room(room_stamp, rng);
        i = i + 1;
        proof {
            lemma_debris_steps_extend(*old(room_stamp), before, *room_stamp, i as int);
        }
    }
    proof {
        assert(debris_steps(*old(room_stamp), *room_stamp, count as int));
    }
}

} // verus!
