//! 8-connected components of a mask on a bounded (non-periodic) grid: the
//! enclosed below-sea regions, where diagonally touching cells are one
//! water body.

use vstd::prelude::*;
use crate::grid::{flat, lemma_flat_in_bounds, lemma_unflat, BoolField};
use crate::landmass::{
    merged, lemma_connected_refl, lemma_connected_sym, lemma_connected_trans, lemma_positive_sides,
    lemma_union_keeps_sound, mask_connected, mask_walk, roots_sound,
};
use crate::union_find::DisjointSet;

verus! {

/// `a` and `b` are distinct cells of the `w × h` grid (no wrap) whose
/// columns and rows differ by at most one.
pub open spec fn touches8(w: int, h: int, a: int, b: int) -> bool {
    &&& 0 <= a < w * h
    &&& 0 <= b < w * h
    &&& a != b
    &&& -1 <= a % w - b % w <= 1
    &&& -1 <= a / w - b / w <= 1
}

/// The 8-neighbour relation of the bounded `w × h` grid.
pub open spec fn grid8(w: int, h: int) -> spec_fn(int, int) -> bool {
    |a: int, b: int| touches8(w, h, a, b)
}

/// Forward link `d` of cell `c` (0: east, 1: south, 2: south-east,
/// 3: south-west), when it stays on the grid.
pub open spec fn forward8(w: int, h: int, c: int, d: int) -> Option<int> {
    let x = c % w;
    let y = c / w;
    if d == 0 && x + 1 < w {
        Some(flat(w, x + 1, y))
    } else if d == 1 && y + 1 < h {
        Some(flat(w, x, y + 1))
    } else if d == 2 && x + 1 < w && y + 1 < h {
        Some(flat(w, x + 1, y + 1))
    } else if d == 3 && x > 0 && y + 1 < h {
        Some(flat(w, x - 1, y + 1))
    } else {
        None
    }
}

/// Every masked cell before `k` shares its root with each masked forward
/// neighbour.
spec fn forward_joined(w: int, h: int, mask: Seq<bool>, ds: DisjointSet, k: int) -> bool {
    forall|c: int, d: int|
        0 <= c < k && 0 <= d < 4 && mask[c] && #[trigger] forward8(w, h, c, d) is Some && mask[forward8(
            w,
            h,
            c,
            d,
        )->0] ==> ds.root(c) == ds.root(forward8(w, h, c, d)->0)
}

/// `labels` labels the cells of `mask` by 8-connected region: each masked
/// cell carries a representative masked cell of its region, two masked
/// cells share a label exactly when an 8-connected walk over the mask
/// joins them, a representative labels itself, and each unmasked cell
/// labels itself.
pub open spec fn regions_ok(w: int, h: int, mask: Seq<bool>, labels: Seq<usize>) -> bool {
    &&& labels.len() == mask.len()
    &&& forall|k: int| 0 <= k < mask.len() && !mask[k] ==> #[trigger] labels[k] == k
    &&& forall|k: int|
        0 <= k < mask.len() && mask[k] ==> {
            &&& (#[trigger] labels[k] as int) < mask.len()
            &&& mask[labels[k] as int]
            &&& labels[labels[k] as int] == labels[k]
        }
    &&& forall|a: int, b: int|
        0 <= a < mask.len() && 0 <= b < mask.len() && mask[a] && mask[b] ==> (#[trigger] labels[a]
            == #[trigger] labels[b] <==> mask_connected(grid8(w, h), mask, a, b))
}

/// The forward links of an in-range cell stay in range and touch it.
proof fn lemma_forward_in_range(w: int, h: int, c: int, d: int)
    requires
        0 <= w,
        0 <= h,
        0 <= c < w * h,
        0 <= d < 4,
    ensures
        forward8(w, h, c, d) matches Some(f) ==> 0 <= f < w * h && touches8(w, h, c, f),
{
    lemma_positive_sides(w, h, c);
    lemma_unflat(w, h, c);
    let x = c % w;
    let y = c / w;
    if let Some(f) = forward8(w, h, c, d) {
        let (fx, fy) = if d == 0 {
            (x + 1, y)
        } else if d == 1 {
            (x, y + 1)
        } else if d == 2 {
            (x + 1, y + 1)
        } else {
            (x - 1, y + 1)
        };
        lemma_flat_in_bounds(w, h, fx, fy);
        lemma_div_mod_flat(w, fx, fy);
    }
}

proof fn lemma_div_mod_flat(w: int, x: int, y: int)
    requires
        0 <= x < w,
        0 <= y,
    ensures
        flat(w, x, y) % w == x,
        flat(w, x, y) / w == y,
{
    vstd::arithmetic::div_mod::lemma_fundamental_div_mod_converse(flat(w, x, y), w, y, x);
}

/// Touching cells are linked forward one way or the other.
proof fn lemma_touch_is_forward(w: int, h: int, a: int, b: int)
    requires
        0 <= w,
        0 <= h,
        touches8(w, h, a, b),
    ensures
        (exists|d: int| 0 <= d < 4 && #[trigger] forward8(w, h, a, d) == Some(b)) || (exists|d: int|
            0 <= d < 4 && #[trigger] forward8(w, h, b, d) == Some(a)),
{
    lemma_positive_sides(w, h, a);
    lemma_unflat(w, h, a);
    lemma_unflat(w, h, b);
    let (xa, ya) = (a % w, a / w);
    let (xb, yb) = (b % w, b / w);
    if ya == yb {
        if xb == xa + 1 {
            assert(forward8(w, h, a, 0) == Some(b));
        } else {
            assert(xa == xb + 1);
            assert(forward8(w, h, b, 0) == Some(a));
        }
    } else if yb == ya + 1 {
        if xb == xa {
            assert(forward8(w, h, a, 1) == Some(b));
        } else if xb == xa + 1 {
            assert(forward8(w, h, a, 2) == Some(b));
        } else {
            assert(forward8(w, h, a, 3) == Some(b));
        }
    } else {
        assert(ya == yb + 1);
        if xa == xb {
            assert(forward8(w, h, b, 1) == Some(a));
        } else if xa == xb + 1 {
            assert(forward8(w, h, b, 2) == Some(a));
        } else {
            assert(forward8(w, h, b, 3) == Some(a));
        }
    }
}

/// Along an 8-connected walk over the mask, joined forward links give every
/// cell the first cell's root.
proof fn lemma_walk8_same_root(w: int, h: int, mask: Seq<bool>, ds: DisjointSet, path: Seq<int>, a: int, b: int)
    requires
        0 <= w,
        0 <= h,
        mask.len() == w * h,
        mask_walk(grid8(w, h), mask, path, a, b),
        forward_joined(w, h, mask, ds, mask.len() as int),
    ensures
        ds.root(a) == ds.root(b),
    decreases path.len(),
{
    if path.len() > 1 {
        let prefix = path.drop_last();
        let p = path[path.len() - 2];
        assert(mask_walk(grid8(w, h), mask, prefix, a, p)) by {
            assert forall|t: int| 0 <= t < prefix.len() - 1 implies grid8(w, h)(#[trigger] prefix[t], prefix[t + 1]) by {
                assert(grid8(w, h)(path[t], path[t + 1]));
            }
            assert forall|t: int| 0 <= t < prefix.len() implies 0 <= #[trigger] prefix[t] < mask.len() && mask[prefix[t]] by {
                assert(0 <= path[t] < mask.len());
            }
        }
        lemma_walk8_same_root(w, h, mask, ds, prefix, a, p);
        assert(grid8(w, h)(path[path.len() - 2], path[path.len() - 1]));
        assert(0 <= path[path.len() - 2] < mask.len() && mask[p]);
        assert(0 <= path[path.len() - 1] < mask.len() && mask[b]);
        lemma_touch_is_forward(w, h, p, b);
        if exists|d: int| 0 <= d < 4 && #[trigger] forward8(w, h, p, d) == Some(b) {
            let d = choose|d: int| 0 <= d < 4 && #[trigger] forward8(w, h, p, d) == Some(b);
            assert(ds.root(p) == ds.root(b));
        } else {
            let d = choose|d: int| 0 <= d < 4 && #[trigger] forward8(w, h, b, d) == Some(p);
            assert(ds.root(b) == ds.root(p));
        }
    }
}

/// A union keeps every forward link that shared a root joined.
proof fn lemma_union_keeps_forward(
    w: int,
    h: int,
    mask: Seq<bool>,
    s0: DisjointSet,
    s1: DisjointSet,
    a: int,
    b: int,
    k: int,
)
    requires
        0 <= w,
        0 <= h,
        0 <= k <= mask.len(),
        mask.len() == w * h,
        s0.size() == mask.len(),
        forward_joined(w, h, mask, s0, k),
        forall|y: int|
            0 <= y < s0.size() ==> #[trigger] s1.root(y) == (if s0.root(y) == s0.root(a) {
                s0.root(b)
            } else {
                s0.root(y)
            }),
    ensures
        forward_joined(w, h, mask, s1, k),
{
    assert forall|c: int, d: int|
        0 <= c < k && 0 <= d < 4 && mask[c] && #[trigger] forward8(w, h, c, d) is Some && mask[forward8(
            w,
            h,
            c,
            d,
        )->0] implies s1.root(c) == s1.root(forward8(w, h, c, d)->0) by {
        lemma_forward_in_range(w, h, c, d);
        let f = forward8(w, h, c, d)->0;
        assert(s0.root(c) == s0.root(f));
    }
}

/// Representatives after the union along forward link `d` of cell `c`
/// (when the link exists and both cells are masked).
pub open spec fn link_step(w: int, h: int, mask: Seq<bool>, r: spec_fn(int) -> int, c: int, d: int) -> spec_fn(
    int,
) -> int {
    match forward8(w, h, c, d) {
        Some(f) => if mask[c] && mask[f] {
            merged(r, c, f)
        } else {
            r
        },
        None => r,
    }
}

/// Representatives after the unions along the first `d` forward links of
/// cell `c`, in link order.
pub open spec fn cell_links(w: int, h: int, mask: Seq<bool>, r: spec_fn(int) -> int, c: int, d: int) -> spec_fn(
    int,
) -> int
    decreases d,
{
    if d <= 0 {
        r
    } else {
        link_step(w, h, mask, cell_links(w, h, mask, r, c, d - 1), c, d - 1)
    }
}

/// Representatives after the row-major scan of the first `k` cells, each
/// united along its forward links (east, south, south-east, south-west).
pub open spec fn scan_regions(w: int, h: int, mask: Seq<bool>, k: int) -> spec_fn(int) -> int
    decreases k,
{
    if k <= 0 {
        |y: int| y
    } else {
        cell_links(w, h, mask, scan_regions(w, h, mask, k - 1), k - 1, 4)
    }
}

/// Region labelling of `mask` with 8-connectivity on the bounded grid:
/// each masked cell is labelled with a representative masked cell of its
/// region; each other cell with itself.
pub fn label_regions8(mask: &BoolField) -> (labels: Vec<usize>)
    requires
        mask.wf(),
    ensures
        regions_ok(mask.width() as int, mask.height() as int, mask@, labels@),
        forall|c: int|
            0 <= c < mask@.len() ==> #[trigger] labels@[c] as int == scan_regions(
                mask.width() as int,
                mask.height() as int,
                mask@,
                mask@.len() as int,
            )(c),
{
    let w = mask.nx();
    let h = mask.ny();
    let cells = mask.data();
    proof {
        mask.lemma_wf_len();
    }
    let n = cells.len();
    let ghost wi = w as int;
    let ghost hi = h as int;
    let ghost m = mask@;
    let ghost adj = grid8(wi, hi);
    let mut ds = DisjointSet::new(n);
    proof {
        assert forall|y: int| 0 <= y < m.len() implies if m[y] {
            &&& 0 <= #[trigger] ds.root(y) < m.len()
            &&& m[ds.root(y)]
            &&& mask_connected(adj, m, y, ds.root(y))
        } else {
            ds.root(y) == y
        } by {
            if m[y] {
                lemma_connected_refl(adj, m, y);
            }
        }
    }
    let mut k: usize = 0;
    while k < n
        invariant
            ds.wf(),
            ds.size() == n,
            n == m.len(),
            n == w * h,
            cells@ == m,
            wi == w,
            hi == h,
            adj == grid8(wi, hi),
            k <= n,
            roots_sound(adj, m, ds),
            forward_joined(wi, hi, m, ds, k as int),
            forall|y: int| 0 <= y < n ==> #[trigger] ds.root(y) == scan_regions(wi, hi, m, k as int)(y),
        decreases n - k,
    {
        let ghost before = scan_regions(wi, hi, m, k as int);
        if cells[k] {
            proof {
                lemma_positive_sides(wi, hi, k as int);
                lemma_unflat(wi, hi, k as int);
            }
            let x = k % w;
            let y = k / w;
            let mut d: usize = 0;
            while d < 4
                invariant
                    ds.wf(),
                    ds.size() == n,
                    n == m.len(),
                    n == w * h,
                    cells@ == m,
                    wi == w,
                    hi == h,
                    adj == grid8(wi, hi),
                    k < n,
                    m[k as int],
                    x == k % w,
                    y == k / w,
                    x < w,
                    y < h,
                    d <= 4,
                    roots_sound(adj, m, ds),
                    forward_joined(wi, hi, m, ds, k as int),
                    before == scan_regions(wi, hi, m, k as int),
                    forall|yy: int| 0 <= yy < n ==> #[trigger] ds.root(yy) == cell_links(wi, hi, m, before, k as int, d as int)(yy),
                    forall|e: int|
                        0 <= e < d && #[trigger] forward8(wi, hi, k as int, e) is Some && m[forward8(
                            wi,
                            hi,
                            k as int,
                            e,
                        )->0] ==> ds.root(k as int) == ds.root(forward8(wi, hi, k as int, e)->0),
                decreases 4 - d,
            {
                proof {
                    lemma_forward_in_range(wi, hi, k as int, d as int);
                }
                let target: Option<usize> = if d == 0 && x + 1 < w {
                    Some(y * w + x + 1)
                } else if d == 1 && y + 1 < h {
                    Some((y + 1) * w + x)
                } else if d == 2 && x + 1 < w && y + 1 < h {
                    Some((y + 1) * w + x + 1)
                } else if d == 3 && x > 0 && y + 1 < h {
                    Some((y + 1) * w + x - 1)
                } else {
                    None
                };
                proof {
                    assert(target matches Some(t) ==> forward8(wi, hi, k as int, d as int) == Some(t as int));
                    assert(target is None ==> forward8(wi, hi, k as int, d as int) is None);
                }
                if let Some(t) = target {
                    if cells[t] {
                        let ghost s0 = ds;
                        proof {
                            s0.lemma_root(k as int);
                            s0.lemma_root(t as int);
                        }
                        ds.union(k, t);
                        proof {
                            lemma_union_keeps_sound(adj, m, s0, ds, k as int, t as int);
                            lemma_union_keeps_forward(wi, hi, m, s0, ds, k as int, t as int, k as int);
                            assert forall|e: int|
                                0 <= e < d + 1 && #[trigger] forward8(wi, hi, k as int, e) is Some && m[forward8(
                                    wi,
                                    hi,
                                    k as int,
                                    e,
                                )->0] implies ds.root(k as int) == ds.root(forward8(wi, hi, k as int, e)->0) by {
                                lemma_forward_in_range(wi, hi, k as int, e);
                                if e < d {
                                    let f = forward8(wi, hi, k as int, e)->0;
                                    assert(s0.root(k as int) == s0.root(f));
                                }
                            }
                        }
                    }
                }
                d = d + 1;
            }
            proof {
                assert forall|c: int, e: int|
                    0 <= c < k + 1 && 0 <= e < 4 && m[c] && #[trigger] forward8(wi, hi, c, e) is Some && m[forward8(
                        wi,
                        hi,
                        c,
                        e,
                    )->0] implies ds.root(c) == ds.root(forward8(wi, hi, c, e)->0) by {
                    if c < k {
                    }
                }
            }
        }
        proof {
            let kk = k as int;
            if !m[kk] {
                assert(cell_links(wi, hi, m, before, kk, 0) == before);
                assert(cell_links(wi, hi, m, before, kk, 1) == before);
                assert(cell_links(wi, hi, m, before, kk, 2) == before);
                assert(cell_links(wi, hi, m, before, kk, 3) == before);
                assert(cell_links(wi, hi, m, before, kk, 4) == before);
            }
            assert(scan_regions(wi, hi, m, kk + 1) == cell_links(wi, hi, m, before, kk, 4));
        }
        k = k + 1;
    }
    let ghost fin = ds;
    let mut labels: Vec<usize> = Vec::new();
    let mut k: usize = 0;
    while k < n
        invariant
            ds.wf(),
            ds.size() == n,
            fin.wf(),
            fin.size() == n,
            n == m.len(),
            k <= n,
            labels@.len() == k,
            forall|y: int| 0 <= y < n ==> #[trigger] ds.root(y) == fin.root(y),
            forall|c: int| 0 <= c < k ==> #[trigger] labels@[c] == fin.root(c),
        decreases n - k,
    {
        let r = ds.find(k);
        labels.push(r);
        k = k + 1;
    }
    proof {
        assert forall|c: int| 0 <= c < n && m[c] implies labels@[labels@[c] as int] == labels@[c] by {
            fin.lemma_root(c);
        }
        assert forall|a: int, b: int|
            0 <= a < n && 0 <= b < n && m[a] && m[b] implies (#[trigger] labels@[a] == #[trigger] labels@[b]
            <==> mask_connected(adj, m, a, b)) by {
            assert(0 <= fin.root(a) < n);
            assert(0 <= fin.root(b) < n);
            if labels@[a] == labels@[b] {
                lemma_connected_sym(adj, m, b, fin.root(b));
                lemma_connected_trans(adj, m, a, fin.root(a), b);
            }
            if mask_connected(adj, m, a, b) {
                let path = choose|path: Seq<int>| #[trigger] mask_walk(adj, m, path, a, b);
                lemma_walk8_same_root(wi, hi, m, fin, path, a, b);
            }
        }
    }
    labels
}

} // verus!
