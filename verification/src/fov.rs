use vstd::prelude::*;
use crate::level::{lemma_coords_in_bounds, lemma_idx_in_area, Level};
use crate::level_utils::chebyshev;

verus! {

pub open spec fn abs_sp(a: int) -> int {
    if a >= 0 {
        a
    } else {
        -a
    }
}

pub open spec fn sgn_sp(a: int) -> int {
    if a > 0 {
        1
    } else if a < 0 {
        -1
    } else {
        0
    }
}

/// Division of `p` by `q`, rounded to the nearest integer, halves up.
pub open spec fn rdiv(p: int, q: int) -> int {
    (2 * p + q) / (2 * q)
}

/// Number of steps of the straight line between the two tiles: their
/// Chebyshev distance.
pub open spec fn line_steps(cx: int, cy: int, tx: int, ty: int) -> int {
    chebyshev(cx, cy, tx, ty)
}

/// X coordinate of the k-th point of the straight line from (cx, cy) to
/// (tx, ty): the exact line sampled at k steps out of n, rounded to the
/// nearest tile.
pub open spec fn pt_x(cx: int, tx: int, n: int, k: int) -> int {
    cx + sgn_sp(tx - cx) * rdiv(k * abs_sp(tx - cx), n)
}

pub open spec fn pt_y(cy: int, ty: int, n: int, k: int) -> int {
    cy + sgn_sp(ty - cy) * rdiv(k * abs_sp(ty - cy), n)
}

/// Is the straight line from (cx, cy) to (tx, ty) free of opaque tiles,
/// the two endpoints themselves excluded?
pub open spec fn line_clear(level: Level, cx: int, cy: int, tx: int, ty: int) -> bool {
    let n = line_steps(cx, cy, tx, ty);
    forall|k: int|
        1 <= k < n ==> !level.opaque@[#[trigger] pt_y(cy, ty, n, k) * level.width + pt_x(
            cx,
            tx,
            n,
            k,
        )]
}

/// Is the tile `t` in the field of view of a viewer standing on tile `c`:
/// within `range` steps, with an unobstructed straight line between the
/// two tiles? The far tile itself may be opaque: walls are visible.
pub open spec fn in_fov(level: Level, c: int, t: int, range: int) -> bool {
    let cx = level.x_of(c);
    let cy = level.y_of(c);
    let tx = level.x_of(t);
    let ty = level.y_of(t);
    &&& 0 <= t < level.area()
    &&& chebyshev(cx, cy, tx, ty) <= range
    &&& line_clear(level, cx, cy, tx, ty)
}

/// The rounded sample of the line never overshoots the span it walks:
/// for k between 0 and n, `rdiv(k * a, n)` stays between 0 and `a`.
pub proof fn lemma_rdiv_range(k: int, a: int, n: int)
    requires
        0 <= k <= n,
        0 <= a <= n,
        0 < n,
    ensures
        0 <= rdiv(k * a, n) <= a,
{
    let p = k * a;
    assert(0 <= k * a <= n * a) by (nonlinear_arith)
        requires
            0 <= k <= n,
            0 <= a,
    ;
    vstd::arithmetic::div_mod::lemma_div_pos_is_pos(2 * p + n, 2 * n);
    vstd::arithmetic::div_mod::lemma_div_is_ordered(2 * p + n, 2 * (n * a) + n, 2 * n);
    assert(2 * (n * a) + n == a * (2 * n) + n) by (nonlinear_arith);
    vstd::arithmetic::div_mod::lemma_fundamental_div_mod_converse_div(
        a * (2 * n) + n,
        2 * n,
        a,
        n,
    );
}

/// Is the straight line between the tiles at `cidx` and `tidx` free of
/// opaque tiles, the endpoints excluded?
pub fn line_is_clear(level: &Level, cidx: usize, tidx: usize) -> (r: bool)
    requires
        level.well_formed(),
        level.width > 0,
        cidx < level.area(),
        tidx < level.area(),
    ensures
        r == line_clear(
            *level,
            level.x_of(cidx as int),
            level.y_of(cidx as int),
            level.x_of(tidx as int),
            level.y_of(tidx as int),
        ),
{
    let w = level.width;
    proof {
        lemma_coords_in_bounds(cidx as int, w as int, level.height as int);
        lemma_coords_in_bounds(tidx as int, w as int, level.height as int);
    }
    let cx = cidx % w;
    let cy = cidx / w;
    let tx = tidx % w;
    let ty = tidx / w;
    let adx = if tx >= cx {
        tx - cx
    } else {
        cx - tx
    };
    let ady = if ty >= cy {
        ty - cy
    } else {
        cy - ty
    };
    let n = if adx >= ady {
        adx
    } else {
        ady
    };
    let ghost cxi = cx as int;
    let ghost cyi = cy as int;
    let ghost txi = tx as int;
    let ghost tyi = ty as int;
    let ghost ni = n as int;
    assert(ni == line_steps(cxi, cyi, txi, tyi));
    let mut k: usize = 1;
    while k < n
        invariant
            1 <= k,
            n == 0 ==> k == 1,
            n > 0 ==> k <= n,
            level.well_formed(),
            0 < w == level.width,
            cx < w && tx < w,
            cy < level.height && ty < level.height,
            adx == abs_sp(txi - cxi),
            ady == abs_sp(tyi - cyi),
            cxi == cx && cyi == cy && txi == tx && tyi == ty,
            cxi == level.x_of(cidx as int) && cyi == level.y_of(cidx as int),
            txi == level.x_of(tidx as int) && tyi == level.y_of(tidx as int),
            ni == n && ni == line_steps(cxi, cyi, txi, tyi),
            forall|kk: int|
                1 <= kk < k ==> !level.opaque@[#[trigger] pt_y(cyi, tyi, ni, kk) * level.width
                    + pt_x(cxi, txi, ni, kk)],
        decreases n - k,
    {
        proof {
            lemma_rdiv_range(k as int, adx as int, ni);
            lemma_rdiv_range(k as int, ady as int, ni);
            assert(2 * (k * adx) + n < 0x8000_0000) by (nonlinear_arith)
                requires
                    0 <= k < 0x8000,
                    0 <= adx < 0x8000,
                    0 <= n < 0x8000,
            ;
            assert(2 * (k * ady) + n < 0x8000_0000) by (nonlinear_arith)
                requires
                    0 <= k < 0x8000,
                    0 <= ady < 0x8000,
                    0 <= n < 0x8000,
            ;
        }
        let dx = (2 * (k * adx) + n) / (2 * n);
        let dy = (2 * (k * ady) + n) / (2 * n);
        assert(dx == rdiv(k as int * adx as int, ni));
        assert(dy == rdiv(k as int * ady as int, ni));
        proof {
            if adx == 0 {
                vstd::arithmetic::div_mod::lemma_fundamental_div_mod_converse_div(
                    ni,
                    2 * ni,
                    0,
                    ni,
                );
            }
            if ady == 0 {
                vstd::arithmetic::div_mod::lemma_fundamental_div_mod_converse_div(
                    ni,
                    2 * ni,
                    0,
                    ni,
                );
            }
        }
        let px = if tx >= cx {
            cx + dx
        } else {
            cx - dx
        };
        let py = if ty >= cy {
            cy + dy
        } else {
            cy - dy
        };
        assert(px == pt_x(cxi, txi, ni, k as int));
        assert(py == pt_y(cyi, tyi, ni, k as int));
        proof {
            lemma_idx_in_area(px as int, py as int, w as int, level.height as int);
            assert(level.area() < 0x4000_0000) by (nonlinear_arith)
                requires
                    level.width < 0x8000,
                    level.height < 0x8000,
            ;
        }
        let pidx = py * w + px;
        if level.opaque[pidx] {
            assert(!line_clear(*level, cxi, cyi, txi, tyi));
            return false;
        }
        k = k + 1;
    }
    true
}

/// The set of tiles a viewer on `idx` can see out to `range` steps: every
/// tile within range whose straight line to the viewer is unobstructed,
/// as a strictly ascending list of tile indices.
pub fn get_field_of_view_from_idx(level: &Level, idx: usize, range: u32) -> (r: Vec<usize>)
    requires
        level.well_formed(),
        level.width > 0,
        idx < level.area(),
    ensures
        forall|j: int|
            0 <= j < r@.len() ==> r@[j] < level.area() && in_fov(
                *level,
                idx as int,
                #[trigger] r@[j] as int,
                range as int,
            ),
        forall|t: int|
            0 <= t < level.area() && in_fov(*level, idx as int, t, range as int) ==> r@.contains(
                t as usize,
            ),
        forall|j1: int, j2: int| 0 <= j1 < j2 < r@.len() ==> r@[j1] < r@[j2],
{
    let w = level.width;
    proof {
        lemma_coords_in_bounds(idx as int, w as int, level.height as int);
    }
    let cx = idx % w;
    let cy = idx / w;
    let n = level.tiles.len();
    let mut r: Vec<usize> = Vec::new();
    let mut t: usize = 0;
    while t < n
        invariant
            t <= n,
            n == level.area(),
            level.well_formed(),
            0 < w == level.width,
            idx < level.area(),
            cx == level.x_of(idx as int),
            cy == level.y_of(idx as int),
            cx < w && cy < level.height,
            forall|j: int|
                0 <= j < r@.len() ==> r@[j] < t && in_fov(
                    *level,
                    idx as int,
                    #[trigger] r@[j] as int,
                    range as int,
                ),
            forall|tt: int|
                0 <= tt < t && in_fov(*level, idx as int, tt, range as int) ==> r@.contains(
                    tt as usize,
                ),
            forall|j1: int, j2: int| 0 <= j1 < j2 < r@.len() ==> r@[j1] < r@[j2],
        decreases n - t,
    {
        let tx = t % w;
        let ty = t / w;
        proof {
            lemma_coords_in_bounds(t as int, w as int, level.height as int);
        }
        let dx = if tx >= cx {
            tx - cx
        } else {
            cx - tx
        };
        let dy = if ty >= cy {
            ty - cy
        } else {
            cy - ty
        };
        let dist = if dx >= dy {
            dx
        } else {
            dy
        };
        if dist <= range as usize && line_is_clear(level, idx, t) {
            let ghost prev = r@;
            r.push(t);
            proof {
                broadcast use vstd::seq_lib::lemma_seq_contains_after_push;

                assert(r@ == prev.push(t));
            }
        }
        t = t + 1;
    }
    r
}

/// Within range and with a clear straight line, a tile is in the field of
/// view; this is the positive half of the visibility law.
pub proof fn lemma_fov_unobstructed(level: Level, c: int, t: int, range: int)
    requires
        0 <= t < level.area(),
        chebyshev(level.x_of(c), level.y_of(c), level.x_of(t), level.y_of(t)) <= range,
        line_clear(level, level.x_of(c), level.y_of(c), level.x_of(t), level.y_of(t)),
    ensures
        in_fov(level, c, t, range),
{
}

/// A tile behind an opaque tile is out of the field of view: if any point
/// of the straight line strictly between viewer and tile is opaque, the
/// tile is not seen; this is the negative half of the visibility law.
pub proof fn lemma_fov_blocked(level: Level, c: int, t: int, range: int, k: int)
    requires
        1 <= k < line_steps(level.x_of(c), level.y_of(c), level.x_of(t), level.y_of(t)),
        level.opaque@[pt_y(
            level.y_of(c),
            level.y_of(t),
            line_steps(level.x_of(c), level.y_of(c), level.x_of(t), level.y_of(t)),
            k,
        ) * level.width + pt_x(
            level.x_of(c),
            level.x_of(t),
            line_steps(level.x_of(c), level.y_of(c), level.x_of(t), level.y_of(t)),
            k,
        )],
    ensures
        !in_fov(level, c, t, range),
{
}

} // verus!
