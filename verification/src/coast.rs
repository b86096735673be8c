//! Distance from the coast on the torus: for every cell, the number of
//! 4-neighbour steps to the nearest land cell (what a breadth-first search
//! from all land cells at once reaches).

use vstd::prelude::*;
use crate::grid::{flat, lemma_flat_in_bounds, BoolField};

verus! {

/// Distance between slots `p` and `q` of a ring of `n` slots.
pub open spec fn ring_dist(p: int, q: int, n: int) -> int {
    let d = if p >= q {
        p - q
    } else {
        q - p
    };
    if d <= n - d {
        d
    } else {
        n - d
    }
}

/// Fewest 4-neighbour steps between cells `(x, y)` and `(x2, y2)` of the
/// `w × h` torus.
pub open spec fn torus_steps(w: int, h: int, x: int, y: int, x2: int, y2: int) -> int {
    ring_dist(x, x2, w) + ring_dist(y, y2, h)
}

/// Land at cell `(x, y)` of a mask `w` cells wide.
pub open spec fn land_at(land: Seq<bool>, w: int, x: int, y: int) -> bool {
    land[flat(w, x, y)]
}

/// `d` is the distance from cell `(x, y)` to the nearest land cell.
pub open spec fn is_coast_distance(w: int, h: int, land: Seq<bool>, x: int, y: int, d: int) -> bool {
    &&& exists|x2: int, y2: int|
        0 <= x2 < w && 0 <= y2 < h && land_at(land, w, x2, y2) && #[trigger] torus_steps(w, h, x, y, x2, y2) == d
    &&& forall|x2: int, y2: int|
        0 <= x2 < w && 0 <= y2 < h && land_at(land, w, x2, y2) ==> d <= #[trigger] torus_steps(w, h, x, y, x2, y2)
}

/// `v` is the ring distance from column `x` to the nearest land cell of
/// row `y`, or `None` when the row has no land.
pub open spec fn row_nearest(w: int, land: Seq<bool>, x: int, y: int, v: Option<usize>) -> bool {
    match v {
        None => forall|x2: int| 0 <= x2 < w ==> !#[trigger] land_at(land, w, x2, y),
        Some(d) => {
            &&& exists|x2: int| 0 <= x2 < w && #[trigger] land_at(land, w, x2, y) && ring_dist(x, x2, w) == d
            &&& forall|x2: int| 0 <= x2 < w && #[trigger] land_at(land, w, x2, y) ==> d <= ring_dist(x, x2, w)
        },
    }
}

/// A cell of one of the first `rows` rows lies before flat index
/// `rows · w`.
proof fn lemma_flat_below_rows(w: int, x: int, y: int, rows: int)
    requires
        0 <= x < w,
        0 <= y < rows,
    ensures
        0 <= flat(w, x, y) < rows * w,
{
    assert(0 <= y * w + x < rows * w) by (nonlinear_arith)
        requires
            0 <= x < w,
            0 <= y < rows,
    ;
}

/// Distance between slots `p` and `q` of a ring of `n` slots.
fn ring_distance(p: usize, q: usize, n: usize) -> (d: usize)
    requires
        p < n,
        q < n,
    ensures
        d == ring_dist(p as int, q as int, n as int),
        d <= n,
{
    let a = if p >= q {
        p - q
    } else {
        q - p
    };
    if a <= n - a {
        a
    } else {
        n - a
    }
}

/// Nearest land of each row, per column.
fn row_pass(land: &BoolField) -> (g: Vec<Option<usize>>)
    requires
        land.wf(),
    ensures
        g@.len() == land@.len(),
        forall|x: int, y: int|
            0 <= x < land.width() && 0 <= y < land.height() ==> row_nearest(
                land.width() as int,
                land@,
                x,
                y,
                #[trigger] g@[flat(land.width() as int, x, y)],
            ),
{
    let w = land.nx();
    let h = land.ny();
    let cells = land.data();
    proof {
        land.lemma_wf_len();
    }
    let n = cells.len();
    let ghost m = land@;
    let ghost wi = w as int;
    let mut g: Vec<Option<usize>> = Vec::new();
    let mut y: usize = 0;
    while y < h
        invariant
            cells@ == m,
            m.len() == w * h,
            n == m.len(),
            wi == w,
            w == land.width(),
            h == land.height(),
            y <= h,
            g@.len() == y * w,
            forall|xx: int, yy: int|
                0 <= xx < w && 0 <= yy < y ==> row_nearest(wi, m, xx, yy, #[trigger] g@[flat(wi, xx, yy)]),
        decreases h - y,
    {
        let mut x: usize = 0;
        while x < w
            invariant
                cells@ == m,
                m.len() == w * h,
                n == m.len(),
                wi == w,
                y < h,
                x <= w,
                g@.len() == y * w + x,
                forall|xx: int, yy: int|
                    0 <= xx < w && 0 <= yy < y ==> row_nearest(wi, m, xx, yy, #[trigger] g@[flat(wi, xx, yy)]),
                forall|xx: int| 0 <= xx < x ==> row_nearest(wi, m, xx, y as int, #[trigger] g@[flat(wi, xx, y as int)]),
            decreases w - x,
        {
            let mut best: Option<usize> = None;
            let mut x2: usize = 0;
            while x2 < w
                invariant
                    cells@ == m,
                    m.len() == w * h,
                    n == m.len(),
                    wi == w,
                    y < h,
                    x < w,
                    x2 <= w,
                    match best {
                        None => forall|x3: int| 0 <= x3 < x2 ==> !#[trigger] land_at(m, wi, x3, y as int),
                        Some(d) => {
                            &&& exists|x3: int|
                                0 <= x3 < x2 && #[trigger] land_at(m, wi, x3, y as int) && ring_dist(
                                    x as int,
                                    x3,
                                    wi,
                                ) == d
                            &&& forall|x3: int|
                                0 <= x3 < x2 && #[trigger] land_at(m, wi, x3, y as int) ==> d <= ring_dist(
                                    x as int,
                                    x3,
                                    wi,
                                )
                        },
                    },
                decreases w - x2,
            {
                proof {
                    lemma_flat_in_bounds(wi, h as int, x2 as int, y as int);
                }
                if cells[y * w + x2] {
                    let d = ring_distance(x, x2, w);
                    best = match best {
                        None => Some(d),
                        Some(b) => if d < b {
                            Some(d)
                        } else {
                            Some(b)
                        },
                    };
                    proof {
                        assert(land_at(m, wi, x2 as int, y as int));
                    }
                }
                x2 = x2 + 1;
            }
            let ghost before = g@;
            g.push(best);
            proof {
                lemma_flat_in_bounds(wi, h as int, x as int, y as int);
                assert(flat(wi, x as int, y as int) == y * w + x);
                assert forall|xx: int, yy: int|
                    0 <= xx < w && 0 <= yy < y implies row_nearest(wi, m, xx, yy, #[trigger] g@[flat(wi, xx, yy)]) by {
                    lemma_flat_below_rows(wi, xx, yy, y as int);
                    assert(g@[flat(wi, xx, yy)] == before[flat(wi, xx, yy)]);
                }
                assert forall|xx: int| 0 <= xx < x + 1 implies row_nearest(
                    wi,
                    m,
                    xx,
                    y as int,
                    #[trigger] g@[flat(wi, xx, y as int)],
                ) by {
                    if xx < x {
                        assert(g@[flat(wi, xx, y as int)] == before[flat(wi, xx, y as int)]);
                    }
                }
            }
            x = x + 1;
        }
        proof {
            assert((y + 1) * w == y * w + w) by (nonlinear_arith);
        }
        y = y + 1;
    }
    proof {
        assert(y * w == w * h) by (nonlinear_arith)
            requires
                y == h,
        ;
    }
    g
}

/// Every ring distance is at most the ring's size.
proof fn lemma_ring_dist_bound(p: int, q: int, n: int)
    requires
        0 <= p < n,
        0 <= q < n,
    ensures
        0 <= ring_dist(p, q, n) <= n,
{
}

/// The smallest column candidate `g(x, y2) + ring_dist(y, y2)` is the
/// distance from `(x, y)` to the nearest land cell.
proof fn lemma_column_min_is_coast(
    w: int,
    h: int,
    m: Seq<bool>,
    g: Seq<Option<usize>>,
    x: int,
    y: int,
    d: int,
)
    requires
        0 <= x < w,
        0 <= y < h,
        forall|y2: int| 0 <= y2 < h ==> row_nearest(w, m, x, y2, #[trigger] g[flat(w, x, y2)]),
        exists|y2: int|
            0 <= y2 < h && #[trigger] g[flat(w, x, y2)] is Some && g[flat(w, x, y2)]->0 + ring_dist(y, y2, h) == d,
        forall|y2: int|
            0 <= y2 < h && #[trigger] g[flat(w, x, y2)] is Some ==> d <= g[flat(w, x, y2)]->0 + ring_dist(y, y2, h),
    ensures
        is_coast_distance(w, h, m, x, y, d),
{
    let y2 = choose|y2: int|
        0 <= y2 < h && #[trigger] g[flat(w, x, y2)] is Some && g[flat(w, x, y2)]->0 + ring_dist(y, y2, h) == d;
    assert(row_nearest(w, m, x, y2, g[flat(w, x, y2)]));
    let x2 = choose|x2: int|
        0 <= x2 < w && #[trigger] land_at(m, w, x2, y2) && ring_dist(x, x2, w) == g[flat(w, x, y2)]->0;
    assert(torus_steps(w, h, x, y, x2, y2) == d);
    assert forall|xa: int, ya: int|
        0 <= xa < w && 0 <= ya < h && land_at(m, w, xa, ya) implies d <= #[trigger] torus_steps(w, h, x, y, xa, ya) by {
        assert(row_nearest(w, m, x, ya, g[flat(w, x, ya)]));
        assert(g[flat(w, x, ya)] is Some);
    }
}

/// Distance from every cell of the torus to the nearest land cell
/// (row-major), or `None` when the mask holds no land.
pub fn coast_distances(land: &BoolField) -> (dist: Option<Vec<usize>>)
    requires
        land.wf(),
        land.width() + land.height() <= usize::MAX,
    ensures
        dist is None <==> forall|k: int| 0 <= k < land@.len() ==> !#[trigger] land@[k],
        dist matches Some(d) ==> {
            &&& d@.len() == land@.len()
            &&& forall|x: int, y: int|
                0 <= x < land.width() && 0 <= y < land.height() ==> is_coast_distance(
                    land.width() as int,
                    land.height() as int,
                    land@,
                    x,
                    y,
                    #[trigger] d@[flat(land.width() as int, x, y)] as int,
                )
        },
{
    let w = land.nx();
    let h = land.ny();
    let cells = land.data();
    proof {
        land.lemma_wf_len();
    }
    let n = cells.len();
    let ghost m = land@;
    let ghost wi = w as int;
    let ghost hi = h as int;
    let mut any = false;
    let mut k: usize = 0;
    while k < n
        invariant
            n == m.len(),
            cells@ == m,
            k <= n,
            any <==> exists|c: int| 0 <= c < k && #[trigger] m[c],
        decreases n - k,
    {
        if cells[k] {
            any = true;
        }
        k = k + 1;
    }
    if !any {
        return None;
    }
    let ghost lc = choose|c: int| 0 <= c < n && #[trigger] m[c];
    proof {
        crate::landmass::lemma_positive_sides(wi, hi, lc);
        crate::grid::lemma_unflat(wi, hi, lc);
    }
    let ghost ly = lc / wi;
    let g = row_pass(land);
    let mut dist: Vec<usize> = Vec::new();
    let mut y: usize = 0;
    while y < h
        invariant
            cells@ == m,
            m.len() == w * h,
            g@.len() == m.len(),
            wi == w,
            hi == h,
            w == land.width(),
            h == land.height(),
            w + h <= usize::MAX,
            0 <= ly < h,
            0 <= lc % wi < w,
            flat(wi, lc % wi, ly) == lc,
            m[lc],
            forall|xx: int, yy: int|
                0 <= xx < w && 0 <= yy < h ==> row_nearest(wi, m, xx, yy, #[trigger] g@[flat(wi, xx, yy)]),
            y <= h,
            dist@.len() == y * w,
            forall|xx: int, yy: int|
                0 <= xx < w && 0 <= yy < y ==> is_coast_distance(wi, hi, m, xx, yy, #[trigger] dist@[flat(wi, xx, yy)] as int),
        decreases h - y,
    {
        let mut x: usize = 0;
        while x < w
            invariant
                cells@ == m,
                m.len() == w * h,
                g@.len() == m.len(),
                wi == w,
                hi == h,
                w + h <= usize::MAX,
                0 <= ly < h,
                0 <= lc % wi < w,
                flat(wi, lc % wi, ly) == lc,
                m[lc],
                forall|xx: int, yy: int|
                    0 <= xx < w && 0 <= yy < h ==> row_nearest(wi, m, xx, yy, #[trigger] g@[flat(wi, xx, yy)]),
                y < h,
                x <= w,
                dist@.len() == y * w + x,
                forall|xx: int, yy: int|
                    0 <= xx < w && 0 <= yy < y ==> is_coast_distance(wi, hi, m, xx, yy, #[trigger] dist@[flat(wi, xx, yy)] as int),
                forall|xx: int|
                    0 <= xx < x ==> is_coast_distance(wi, hi, m, xx, y as int, #[trigger] dist@[flat(wi, xx, y as int)] as int),
            decreases w - x,
        {
            let mut best: Option<usize> = None;
            let mut y2: usize = 0;
            while y2 < h
                invariant
                    g@.len() == w * h,
                    wi == w,
                    hi == h,
                    w + h <= usize::MAX,
                    forall|xx: int, yy: int|
                        0 <= xx < w && 0 <= yy < h ==> row_nearest(wi, m, xx, yy, #[trigger] g@[flat(wi, xx, yy)]),
                    x < w,
                    y < h,
                    y2 <= h,
                    match best {
                        None => forall|y3: int| 0 <= y3 < y2 ==> #[trigger] g@[flat(wi, x as int, y3)] is None,
                        Some(d) => {
                            &&& exists|y3: int|
                                0 <= y3 < y2 && #[trigger] g@[flat(wi, x as int, y3)] is Some && g@[flat(
                                    wi,
                                    x as int,
                                    y3,
                                )]->0 + ring_dist(y as int, y3, hi) == d
                            &&& forall|y3: int|
                                0 <= y3 < y2 && #[trigger] g@[flat(wi, x as int, y3)] is Some ==> d <= g@[flat(
                                    wi,
                                    x as int,
                                    y3,
                                )]->0 + ring_dist(y as int, y3, hi)
                        },
                    },
                decreases h - y2,
            {
                proof {
                    lemma_flat_in_bounds(wi, hi, x as int, y2 as int);
                }
                match g[y2 * w + x] {
                    Some(v) => {
                        proof {
                            assert(row_nearest(wi, m, x as int, y2 as int, g@[flat(wi, x as int, y2 as int)]));
                            let x3 = choose|x3: int|
                                0 <= x3 < wi && #[trigger] land_at(m, wi, x3, y2 as int) && ring_dist(x as int, x3, wi)
                                    == v;
                            lemma_ring_dist_bound(x as int, x3, wi);
                        }
                        let c = v + ring_distance(y, y2, h);
                        best = match best {
                            None => Some(c),
                            Some(b) => if c < b {
                                Some(c)
                            } else {
                                Some(b)
                            },
                        };
                    },
                    None => {},
                }
                y2 = y2 + 1;
            }
            proof {
                assert(row_nearest(wi, m, x as int, ly, g@[flat(wi, x as int, ly)]));
                assert(land_at(m, wi, lc % wi, ly));
                assert(g@[flat(wi, x as int, ly)] is Some);
            }
            let d = match best {
                Some(d) => d,
                None => 0,
            };
            proof {
                lemma_column_min_is_coast(wi, hi, m, g@, x as int, y as int, d as int);
            }
            let ghost before = dist@;
            dist.push(d);
            proof {
                lemma_flat_in_bounds(wi, hi, x as int, y as int);
                assert(flat(wi, x as int, y as int) == y * w + x);
                assert forall|xx: int, yy: int|
                    0 <= xx < w && 0 <= yy < y implies is_coast_distance(wi, hi, m, xx, yy, #[trigger] dist@[flat(wi, xx, yy)] as int) by {
                    lemma_flat_below_rows(wi, xx, yy, y as int);
                    assert(dist@[flat(wi, xx, yy)] == before[flat(wi, xx, yy)]);
                }
                assert forall|xx: int| 0 <= xx < x + 1 implies is_coast_distance(
                    wi,
                    hi,
                    m,
                    xx,
                    y as int,
                    #[trigger] dist@[flat(wi, xx, y as int)] as int,
                ) by {
                    if xx < x {
                        assert(dist@[flat(wi, xx, y as int)] == before[flat(wi, xx, y as int)]);
                    }
                }
            }
            x = x + 1;
        }
        proof {
            assert((y + 1) * w == y * w + w) by (nonlinear_arith);
        }
        y = y + 1;
    }
    proof {
        assert(y * w == w * h) by (nonlinear_arith)
            requires
                y == h,
        ;
    }
    Some(dist)
}

} // verus!
