//! Export window around a land mass on the torus: a square of side
//! `window_cells` centred on a cell, whose outer band of `ring_cells` cells
//! must stay free of land for the mass to be "border clean".

use vstd::prelude::*;

use crate::coast::ring_dist;
use crate::grid::BoolField;

verus! {

/// Cell `(x, y)` lies in the window of side `win` centred on `c`: twice its
/// periodic offset from the centre is at most `win` on both axes.
pub open spec fn in_window(w: int, h: int, c: (int, int), win: int, x: int, y: int) -> bool {
    &&& 2 * ring_dist(x, c.0, w) <= win
    &&& 2 * ring_dist(y, c.1, h) <= win
}

/// Cell `(x, y)` lies in the window and in its outer band of `ring` cells:
/// on one axis at least, twice its offset exceeds `win − 2·ring`.
pub open spec fn on_ring(w: int, h: int, c: (int, int), win: int, ring: int, x: int, y: int) -> bool {
    &&& in_window(w, h, c, win, x, y)
    &&& (2 * ring_dist(x, c.0, w) + 2 * ring > win || 2 * ring_dist(y, c.1, h) + 2 * ring > win)
}

/// Cell `(x, y)` lies strictly inside the window, off its ring.
pub open spec fn inside_window(w: int, h: int, c: (int, int), win: int, ring: int, x: int, y: int) -> bool {
    in_window(w, h, c, win, x, y) && !on_ring(w, h, c, win, ring, x, y)
}

/// Periodic distance between two slots of a ring of `n` slots.
fn ring_offset(p: usize, q: usize, n: usize) -> (d: usize)
    requires
        p < n,
        q < n,
    ensures
        d as int == ring_dist(p as int, q as int, n as int),
{
    let d = if p >= q {
        p - q
    } else {
        q - p
    };
    if d <= n - d {
        d
    } else {
        n - d
    }
}

proof fn lemma_row_major(w: int, x: int, y: int)
    requires
        0 <= x < w,
        0 <= y,
    ensures
        (y * w + x) % w == x,
        (y * w + x) / w == y,
{
    assert((y * w + x) % w == x && (y * w + x) / w == y) by (nonlinear_arith)
        requires
            0 <= x < w,
            0 <= y,
    ;
}

/// Scan the window of side `window_cells` centred on `center` with a ring
/// of `ring_cells` cells: the first component holds exactly when no land
/// cell lies on the ring; the second flags, per cell (row-major), whether
/// it lies inside the window and off the ring.
pub fn window_ring_scan(land: &BoolField, center: (usize, usize), window_cells: usize, ring_cells: usize) -> (r: (
    bool,
    Vec<bool>,
))
    requires
        land.wf(),
        center.0 < land.width(),
        center.1 < land.height(),
    ensures
        r.1@.len() == land@.len(),
        forall|k: int|
            0 <= k < land@.len() ==> #[trigger] r.1@[k] == inside_window(
                land.width() as int,
                land.height() as int,
                (center.0 as int, center.1 as int),
                window_cells as int,
                ring_cells as int,
                k % (land.width() as int),
                k / (land.width() as int),
            ),
        r.0 <==> forall|k: int|
            0 <= k < land@.len() && #[trigger] land@[k] ==> !on_ring(
                land.width() as int,
                land.height() as int,
                (center.0 as int, center.1 as int),
                window_cells as int,
                ring_cells as int,
                k % (land.width() as int),
                k / (land.width() as int),
            ),
{
    let w = land.nx();
    let h = land.ny();
    let ghost wi = w as int;
    let ghost hi = h as int;
    let ghost c = (center.0 as int, center.1 as int);
    let ghost win = window_cells as int;
    let ghost ring = ring_cells as int;
    proof {
        land.lemma_wf_len();
    }
    let data = land.data();
    let n = data.len();
    let mut inside: Vec<bool> = Vec::new();
    let mut clean = true;
    let mut y: usize = 0;
    while y < h
        invariant
            w == land.width(),
            h == land.height(),
            wi == w,
            hi == h,
            c == (center.0 as int, center.1 as int),
            win == window_cells,
            ring == ring_cells,
            center.0 < w,
            center.1 < h,
            data@ == land@,
            n == land@.len(),
            n == w * h,
            y <= h,
            inside@.len() == y * w,
            forall|k: int|
                0 <= k < inside@.len() ==> #[trigger] inside@[k] == inside_window(wi, hi, c, win, ring, k % wi, k / wi),
            clean <==> forall|k: int|
                0 <= k < inside@.len() && #[trigger] land@[k] ==> !on_ring(wi, hi, c, win, ring, k % wi, k / wi),
        decreases h - y,
    {
        let dy = ring_offset(y, center.1, h);
        let mut x: usize = 0;
        while x < w
            invariant
                w == land.width(),
                h == land.height(),
                wi == w,
                hi == h,
                c == (center.0 as int, center.1 as int),
                win == window_cells,
                ring == ring_cells,
                center.0 < w,
                center.1 < h,
                data@ == land@,
                n == land@.len(),
                n == w * h,
                y < h,
                x <= w,
                dy as int == ring_dist(y as int, c.1, hi),
                inside@.len() == y * w + x,
                forall|k: int|
                    0 <= k < inside@.len() ==> #[trigger] inside@[k] == inside_window(
                        wi,
                        hi,
                        c,
                        win,
                        ring,
                        k % wi,
                        k / wi,
                    ),
                clean <==> forall|k: int|
                    0 <= k < inside@.len() && #[trigger] land@[k] ==> !on_ring(wi, hi, c, win, ring, k % wi, k / wi),
            decreases w - x,
        {
            let dx = ring_offset(x, center.0, w);
            let tx: u128 = 2 * (dx as u128);
            let ty: u128 = 2 * (dy as u128);
            let wn: u128 = window_cells as u128;
            let rg: u128 = 2 * (ring_cells as u128);
            let in_win = tx <= wn && ty <= wn;
            let ringed = in_win && (tx + rg > wn || ty + rg > wn);
            let ghost k = inside@.len() as int;
            proof {
                lemma_row_major(wi, x as int, y as int);
                assert(k == y * w + x);
                assert(k < n) by (nonlinear_arith)
                    requires
                        k == y * w + x,
                        x < w,
                        y < h,
                        n == w * h,
                ;
                assert(ringed == on_ring(wi, hi, c, win, ring, k % wi, k / wi));
            }
            let cell = data[y * w + x];
            if cell && ringed {
                clean = false;
            }
            inside.push(in_win && !ringed);
            x = x + 1;
        }
        assert((y + 1) * w == y * w + w) by (nonlinear_arith);
        y = y + 1;
    }
    assert(inside@.len() == n) by (nonlinear_arith)
        requires
            inside@.len() == y * w,
            y == h,
            n == w * h,
    ;
    (clean, inside)
}

} // verus!
