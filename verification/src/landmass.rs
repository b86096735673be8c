//! Periodic 4-connected components of a land mask (the domain is a torus),
//! and the integer metrics of its land masses.

use vstd::prelude::*;
use crate::grid::{flat, ring_next, wrap_next, lemma_flat_in_bounds, lemma_unflat, BoolField};
use crate::union_find::DisjointSet;
use crate::land::{circular_extent_holds, mass_extent, occupied_count, MassExtent};

verus! {

/// Flat index of the cell east of `k` (next column, wrapping) on a grid
/// `w` cells wide.
pub open spec fn east_of(w: int, k: int) -> int {
    flat(w, ring_next(k % w, w), k / w)
}

/// Flat index of the cell in the next row (wrapping) below `k` on a
/// `w × h` grid.
pub open spec fn south_of(w: int, h: int, k: int) -> int {
    flat(w, k % w, ring_next(k / w, h))
}

/// `a` and `b` are 4-neighbours on the `w × h` torus.
pub open spec fn neighbours(w: int, h: int, a: int, b: int) -> bool {
    ||| b == east_of(w, a)
    ||| b == south_of(w, h, a)
    ||| a == east_of(w, b)
    ||| a == south_of(w, h, b)
}

/// `path` walks from `a` to `b` over cells flagged in `mask`, each step
/// between cells related by `adj`.
pub open spec fn mask_walk(adj: spec_fn(int, int) -> bool, mask: Seq<bool>, path: Seq<int>, a: int, b: int) -> bool {
    &&& path.len() >= 1
    &&& path[0] == a
    &&& path.last() == b
    &&& forall|t: int| 0 <= t < path.len() ==> 0 <= #[trigger] path[t] < mask.len() && mask[path[t]]
    &&& forall|t: int| 0 <= t < path.len() - 1 ==> adj(#[trigger] path[t], path[t + 1])
}

/// A walk over `mask` joins `a` and `b`.
pub open spec fn mask_connected(adj: spec_fn(int, int) -> bool, mask: Seq<bool>, a: int, b: int) -> bool {
    exists|path: Seq<int>| #[trigger] mask_walk(adj, mask, path, a, b)
}

/// The 4-neighbour relation of the `w × h` torus.
pub open spec fn torus4(w: int, h: int) -> spec_fn(int, int) -> bool {
    |a: int, b: int| neighbours(w, h, a, b)
}

/// `path` walks from `a` to `b` over land cells, each step between
/// 4-neighbours of the torus.
pub open spec fn land_walk(w: int, h: int, land: Seq<bool>, path: Seq<int>, a: int, b: int) -> bool {
    mask_walk(torus4(w, h), land, path, a, b)
}

/// `a` and `b` lie on the same land mass: a land walk joins them.
pub open spec fn land_connected(w: int, h: int, land: Seq<bool>, a: int, b: int) -> bool {
    mask_connected(torus4(w, h), land, a, b)
}

pub proof fn lemma_connected_refl(adj: spec_fn(int, int) -> bool, mask: Seq<bool>, a: int)
    requires
        0 <= a < mask.len(),
        mask[a],
    ensures
        mask_connected(adj, mask, a, a),
{
    let path = seq![a];
    assert(mask_walk(adj, mask, path, a, a));
}

pub proof fn lemma_connected_step(adj: spec_fn(int, int) -> bool, mask: Seq<bool>, a: int, b: int)
    requires
        0 <= a < mask.len(),
        0 <= b < mask.len(),
        mask[a],
        mask[b],
        adj(a, b),
    ensures
        mask_connected(adj, mask, a, b),
{
    let path = seq![a, b];
    assert(mask_walk(adj, mask, path, a, b));
}

pub proof fn lemma_connected_sym(adj: spec_fn(int, int) -> bool, mask: Seq<bool>, a: int, b: int)
    requires
        forall|x: int, y: int| #[trigger] adj(x, y) ==> adj(y, x),
        mask_connected(adj, mask, a, b),
    ensures
        mask_connected(adj, mask, b, a),
{
    let path = choose|path: Seq<int>| #[trigger] mask_walk(adj, mask, path, a, b);
    let n = path.len();
    let rev = Seq::new(n, |t: int| path[n - 1 - t]);
    assert forall|t: int| 0 <= t < rev.len() - 1 implies adj(#[trigger] rev[t], rev[t + 1]) by {
        assert(adj(path[n - 2 - t], path[n - 1 - t]));
    }
    assert forall|t: int| 0 <= t < rev.len() implies 0 <= #[trigger] rev[t] < mask.len() && mask[rev[t]] by {
        assert(0 <= path[n - 1 - t] < mask.len());
    }
    assert(mask_walk(adj, mask, rev, b, a));
}

pub proof fn lemma_connected_trans(adj: spec_fn(int, int) -> bool, mask: Seq<bool>, a: int, b: int, c: int)
    requires
        mask_connected(adj, mask, a, b),
        mask_connected(adj, mask, b, c),
    ensures
        mask_connected(adj, mask, a, c),
{
    let p = choose|path: Seq<int>| #[trigger] mask_walk(adj, mask, path, a, b);
    let q = choose|path: Seq<int>| #[trigger] mask_walk(adj, mask, path, b, c);
    let n = p.len();
    let m = q.len();
    let r = Seq::new((n + m - 1) as nat, |t: int| if t < n { p[t] } else { q[t - n + 1] });
    assert forall|t: int| 0 <= t < r.len() implies 0 <= #[trigger] r[t] < mask.len() && mask[r[t]] by {
        if t < n {
            assert(0 <= p[t] < mask.len());
        } else {
            assert(0 <= q[t - n + 1] < mask.len());
        }
    }
    assert forall|t: int| 0 <= t < r.len() - 1 implies adj(#[trigger] r[t], r[t + 1]) by {
        if t < n - 1 {
            assert(adj(p[t], p[t + 1]));
        } else if t == n - 1 {
            assert(r[t] == q[0]);
            assert(adj(q[0], q[1]));
        } else {
            assert(adj(q[t - n + 1], q[t - n + 2]));
        }
    }
    if m == 1 {
        assert(r.last() == p.last());
    } else {
        assert(r.last() == q.last());
    }
    assert(mask_walk(adj, mask, r, a, c));
}

/// Every cell of `mask` has a representative in `mask` that a walk joins
/// to it; every other cell is its own representative.
pub open spec fn roots_sound(adj: spec_fn(int, int) -> bool, mask: Seq<bool>, ds: DisjointSet) -> bool {
    forall|y: int|
        0 <= y < mask.len() ==> if mask[y] {
            &&& 0 <= #[trigger] ds.root(y) < mask.len()
            &&& mask[ds.root(y)]
            &&& mask_connected(adj, mask, y, ds.root(y))
        } else {
            ds.root(y) == y
        }
}

/// Uniting two related cells of `mask` keeps every representative sound.
pub proof fn lemma_union_keeps_sound(
    adj: spec_fn(int, int) -> bool,
    mask: Seq<bool>,
    s0: DisjointSet,
    s1: DisjointSet,
    a: int,
    b: int,
)
    requires
        forall|x: int, y: int| #[trigger] adj(x, y) ==> adj(y, x),
        roots_sound(adj, mask, s0),
        0 <= a < mask.len(),
        0 <= b < mask.len(),
        mask[a],
        mask[b],
        adj(a, b),
        s0.size() == mask.len(),
        forall|y: int|
            0 <= y < s0.size() ==> #[trigger] s1.root(y) == (if s0.root(y) == s0.root(a) {
                s0.root(b)
            } else {
                s0.root(y)
            }),
    ensures
        roots_sound(adj, mask, s1),
{
    assert forall|y: int| 0 <= y < mask.len() implies if mask[y] {
        &&& 0 <= #[trigger] s1.root(y) < mask.len()
        &&& mask[s1.root(y)]
        &&& mask_connected(adj, mask, y, s1.root(y))
    } else {
        s1.root(y) == y
    } by {
        let ra = s0.root(a);
        let rb = s0.root(b);
        assert(0 <= s0.root(a) < mask.len());
        assert(0 <= s0.root(b) < mask.len());
        if mask[y] {
            assert(0 <= s0.root(y) < mask.len());
            if s0.root(y) == ra {
                lemma_connected_sym(adj, mask, a, ra);
                lemma_connected_trans(adj, mask, y, ra, a);
                lemma_connected_step(adj, mask, a, b);
                lemma_connected_trans(adj, mask, y, a, b);
                lemma_connected_trans(adj, mask, y, b, rb);
            }
        } else {
            assert(s0.root(y) == y);
        }
    }
}

/// Every land cell before `k` shares its root with its east and south land
/// neighbours.
spec fn links_joined(w: int, h: int, land: Seq<bool>, ds: DisjointSet, k: int) -> bool {
    &&& forall|c: int|
        0 <= c < k && land[c] && land[east_of(w, c)] ==> #[trigger] ds.root(c) == ds.root(east_of(w, c))
    &&& forall|c: int|
        0 <= c < k && land[c] && land[south_of(w, h, c)] ==> #[trigger] ds.root(c) == ds.root(
            south_of(w, h, c),
        )
}

/// A union keeps every pair of cells that shared a root together.
proof fn lemma_union_keeps_links(
    w: int,
    h: int,
    land: Seq<bool>,
    s0: DisjointSet,
    s1: DisjointSet,
    a: int,
    b: int,
    k: int,
)
    requires
        0 <= w,
        0 <= h,
        0 <= k <= land.len(),
        land.len() == w * h,
        s0.size() == land.len(),
        links_joined(w, h, land, s0, k),
        forall|y: int|
            0 <= y < s0.size() ==> #[trigger] s1.root(y) == (if s0.root(y) == s0.root(a) {
                s0.root(b)
            } else {
                s0.root(y)
            }),
    ensures
        links_joined(w, h, land, s1, k),
{
    assert forall|c: int| 0 <= c < k && land[c] && land[east_of(w, c)] implies #[trigger] s1.root(c) == s1.root(
        east_of(w, c),
    ) by {
        lemma_neighbours_in_range(w, h, c);
        assert(s0.root(c) == s0.root(east_of(w, c)));
    }
    assert forall|c: int| 0 <= c < k && land[c] && land[south_of(w, h, c)] implies #[trigger] s1.root(c)
        == s1.root(south_of(w, h, c)) by {
        lemma_neighbours_in_range(w, h, c);
        assert(s0.root(c) == s0.root(south_of(w, h, c)));
    }
}

/// Along a land walk, cells joined by east/south links of equal roots all
/// share the first cell's root.
proof fn lemma_walk_same_root(w: int, h: int, land: Seq<bool>, ds: DisjointSet, path: Seq<int>, a: int, b: int)
    requires
        land_walk(w, h, land, path, a, b),
        forall|c: int|
            0 <= c < land.len() && land[c] && land[east_of(w, c)] ==> #[trigger] ds.root(c) == ds.root(
                east_of(w, c),
            ),
        forall|c: int|
            0 <= c < land.len() && land[c] && land[south_of(w, h, c)] ==> #[trigger] ds.root(c) == ds.root(
                south_of(w, h, c),
            ),
    ensures
        ds.root(a) == ds.root(b),
    decreases path.len(),
{
    if path.len() > 1 {
        let prefix = path.drop_last();
        let p = path[path.len() - 2];
        assert(land_walk(w, h, land, prefix, a, p)) by {
            assert forall|t: int| 0 <= t < prefix.len() - 1 implies neighbours(w, h, #[trigger] prefix[t], prefix[t + 1]) by {
                assert(neighbours(w, h, path[t], path[t + 1]));
            }
            assert forall|t: int| 0 <= t < prefix.len() implies 0 <= #[trigger] prefix[t] < land.len() && land[prefix[t]] by {
                assert(0 <= path[t] < land.len());
            }
        }
        lemma_walk_same_root(w, h, land, ds, prefix, a, p);
        assert(neighbours(w, h, path[path.len() - 2], path[path.len() - 1]));
        assert(0 <= path[path.len() - 2] < land.len());
        assert(0 <= path[path.len() - 1] < land.len());
        if b == east_of(w, p) {
            assert(ds.root(p) == ds.root(east_of(w, p)));
        } else if b == south_of(w, h, p) {
            assert(ds.root(p) == ds.root(south_of(w, h, p)));
        } else if p == east_of(w, b) {
            assert(ds.root(b) == ds.root(east_of(w, b)));
        } else {
            assert(ds.root(b) == ds.root(south_of(w, h, b)));
        }
    }
}

pub proof fn lemma_positive_sides(w: int, h: int, k: int)
    requires
        0 <= w,
        0 <= h,
        0 <= k < w * h,
    ensures
        w > 0,
        h > 0,
{
    if w == 0 {
        assert(w * h == 0);
    }
    if h == 0 {
        assert(w * h == 0);
    }
}

/// The east and south neighbours of an in-range cell are in range, and the
/// cell's coordinates decompose its flat index.
pub proof fn lemma_neighbours_in_range(w: int, h: int, k: int)
    requires
        0 <= w,
        0 <= h,
        0 <= k < w * h,
    ensures
        w > 0,
        h > 0,
        0 <= k % w < w,
        0 <= k / w < h,
        0 <= east_of(w, k) < w * h,
        0 <= south_of(w, h, k) < w * h,
{
    lemma_positive_sides(w, h, k);
    lemma_unflat(w, h, k);
    lemma_flat_in_bounds(w, h, ring_next(k % w, w), k / w);
    lemma_flat_in_bounds(w, h, k % w, ring_next(k / w, h));
}

/// `labels` labels the cells of `land` (on a `w × h` torus) by land mass:
/// each land cell carries a representative land cell of its mass, two land
/// cells share a label exactly when a land walk joins them, a
/// representative labels itself, and each sea cell labels itself.
pub open spec fn labelling_ok(w: int, h: int, land: Seq<bool>, labels: Seq<usize>) -> bool {
    &&& labels.len() == land.len()
    &&& forall|k: int| 0 <= k < land.len() && !land[k] ==> #[trigger] labels[k] == k
    &&& forall|k: int|
        0 <= k < land.len() && land[k] ==> {
            &&& (#[trigger] labels[k] as int) < land.len()
            &&& land[labels[k] as int]
            &&& labels[labels[k] as int] == labels[k]
        }
    &&& forall|a: int, b: int|
        0 <= a < land.len() && 0 <= b < land.len() && land[a] && land[b] ==> (#[trigger] labels[a]
            == #[trigger] labels[b] <==> land_connected(w, h, land, a, b))
}

/// Representatives after uniting the sets of `a` and `b` (the
/// representative of `a`'s set is replaced by that of `b`'s).
pub open spec fn merged(r: spec_fn(int) -> int, a: int, b: int) -> spec_fn(int) -> int {
    |y: int| if r(y) == r(a) { r(b) } else { r(y) }
}

/// Representatives after the row-major scan of the first `k` cells, where
/// each land cell is united with its east land neighbour, then with its
/// south land neighbour (starting from every cell representing itself).
pub open spec fn scan_roots(w: int, h: int, land: Seq<bool>, k: int) -> spec_fn(int) -> int
    decreases k,
{
    if k <= 0 {
        |y: int| y
    } else {
        let r = scan_roots(w, h, land, k - 1);
        let c = k - 1;
        if !land[c] {
            r
        } else {
            let r1 = if land[east_of(w, c)] {
                merged(r, c, east_of(w, c))
            } else {
                r
            };
            if land[south_of(w, h, c)] {
                merged(r1, c, south_of(w, h, c))
            } else {
                r1
            }
        }
    }
}

/// Component labelling of a land mask with periodic 4-connectivity: each
/// land cell is labelled with a representative land cell of its mass (two
/// land cells share a label exactly when a land walk joins them, and a
/// representative labels itself); each sea cell is labelled with itself.
pub fn label_land(land: &BoolField) -> (labels: Vec<usize>)
    requires
        land.wf(),
    ensures
        labelling_ok(land.width() as int, land.height() as int, land@, labels@),
        forall|c: int|
            0 <= c < land@.len() ==> #[trigger] labels@[c] as int == scan_roots(
                land.width() as int,
                land.height() as int,
                land@,
                land@.len() as int,
            )(c),
{
    let w = land.nx();
    let h = land.ny();
    let cells = land.data();
    proof {
        land.lemma_wf_len();
    }
    let n = cells.len();
    let ghost wi = w as int;
    let ghost hi = h as int;
    let ghost m = land@;
    let mut ds = DisjointSet::new(n);
    proof {
        assert forall|y: int| 0 <= y < m.len() implies if m[y] {
            &&& 0 <= #[trigger] ds.root(y) < m.len()
            &&& m[ds.root(y)]
            &&& land_connected(wi, hi, m, y, ds.root(y))
        } else {
            ds.root(y) == y
        } by {
            if m[y] {
                lemma_connected_refl(torus4(wi, hi), m, y);
            }
        }
    }
    let mut k: usize = 0;
    while k < n
        invariant
            ds.wf(),
            ds.size() == n,
            n == m.len(),
            n == w * h,
            cells@ == m,
            wi == w,
            hi == h,
            k <= n,
            roots_sound(torus4(wi, hi), m, ds),
            links_joined(wi, hi, m, ds, k as int),
            forall|y: int| 0 <= y < n ==> #[trigger] ds.root(y) == scan_roots(wi, hi, m, k as int)(y),
        decreases n - k,
    {
        if cells[k] {
            proof {
                lemma_neighbours_in_range(wi, hi, k as int);
            }
            let x = k % w;
            let y = k / w;
            let kr = y * w + wrap_next(x, w);
            assert(kr == east_of(wi, k as int));
            if cells[kr] {
                let ghost s0 = ds;
                proof {
                    s0.lemma_root(k as int);
                    s0.lemma_root(kr as int);
                }
                ds.union(k, kr);
                proof {
                    lemma_union_keeps_sound(torus4(wi, hi), m, s0, ds, k as int, kr as int);
                    lemma_union_keeps_links(wi, hi, m, s0, ds, k as int, kr as int, k as int);
                }
            }
            assert(m[kr as int] ==> ds.root(k as int) == ds.root(kr as int));
            let kd = wrap_next(y, h) * w + x;
            assert(kd == south_of(wi, hi, k as int));
            if cells[kd] {
                let ghost s0 = ds;
                proof {
                    s0.lemma_root(k as int);
                    s0.lemma_root(kd as int);
                }
                ds.union(k, kd);
                proof {
                    lemma_union_keeps_sound(torus4(wi, hi), m, s0, ds, k as int, kd as int);
                    lemma_union_keeps_links(wi, hi, m, s0, ds, k as int, kd as int, k as int);
                    assert(ds.root(k as int) == ds.root(kd as int));
                    assert(ds.root(kr as int) == (if s0.root(kr as int) == s0.root(k as int) {
                        s0.root(kd as int)
                    } else {
                        s0.root(kr as int)
                    }));
                }
            }
            assert(m[kr as int] ==> ds.root(k as int) == ds.root(kr as int));
            assert(m[kd as int] ==> ds.root(k as int) == ds.root(kd as int));
        }
        k = k + 1;
    }
    let ghost fin = ds;
    let mut labels: Vec<usize> = Vec::new();
    let mut k: usize = 0;
    while k < n
        invariant
            ds.wf(),
            ds.size() == n,
            fin.wf(),
            fin.size() == n,
            n == m.len(),
            k <= n,
            labels@.len() == k,
            forall|y: int| 0 <= y < n ==> #[trigger] ds.root(y) == fin.root(y),
            forall|c: int| 0 <= c < k ==> #[trigger] labels@[c] == fin.root(c),
        decreases n - k,
    {
        let r = ds.find(k);
        labels.push(r);
        k = k + 1;
    }
    proof {
        assert forall|c: int| 0 <= c < n && m[c] implies labels@[labels@[c] as int] == labels@[c] by {
            fin.lemma_root(c);
        }
        assert forall|a: int, b: int|
            0 <= a < n && 0 <= b < n && m[a] && m[b] implies (#[trigger] labels@[a] == #[trigger] labels@[b]
            <==> land_connected(wi, hi, m, a, b)) by {
            assert(0 <= fin.root(a) < n);
            assert(0 <= fin.root(b) < n);
            if labels@[a] == labels@[b] {
                lemma_connected_sym(torus4(wi, hi), m, b, fin.root(b));
                lemma_connected_trans(torus4(wi, hi), m, a, fin.root(a), b);
            }
            if land_connected(wi, hi, m, a, b) {
                let path = choose|path: Seq<int>| #[trigger] mask_walk(torus4(wi, hi), m, path, a, b);
                lemma_walk_same_root(wi, hi, m, fin, path, a, b);
            }
        }
    }
    labels
}

/// Cell `k` is a land cell of the mass labelled `r`.
pub open spec fn in_mass(land: Seq<bool>, labels: Seq<usize>, r: int, k: int) -> bool {
    0 <= k < land.len() && land[k] && labels[k] == r
}

/// Cells of the mass labelled `r` among the first `k` cells.
pub open spec fn mass_count(land: Seq<bool>, labels: Seq<usize>, r: int, k: int) -> nat
    decreases k,
{
    if k <= 0 {
        0
    } else {
        mass_count(land, labels, r, k - 1) + (if in_mass(land, labels, r, k - 1) {
            1nat
        } else {
            0nat
        })
    }
}

/// Number of cells of the mass labelled `r`.
pub open spec fn mass_size(land: Seq<bool>, labels: Seq<usize>, r: int) -> nat {
    mass_count(land, labels, r, land.len() as int)
}

/// Cell `r` is the representative of a land mass.
pub open spec fn is_representative(land: Seq<bool>, labels: Seq<usize>, r: int) -> bool {
    0 <= r < land.len() && land[r] && labels[r] == r
}

/// Representatives among the first `k` cells.
pub open spec fn representative_count(land: Seq<bool>, labels: Seq<usize>, k: int) -> nat
    decreases k,
{
    if k <= 0 {
        0
    } else {
        representative_count(land, labels, k - 1) + (if is_representative(land, labels, k - 1) {
            1nat
        } else {
            0nat
        })
    }
}

/// `r` is the representative of a largest mass, the smallest such
/// representative among masses of equal size.
pub open spec fn is_largest_mass(land: Seq<bool>, labels: Seq<usize>, r: int) -> bool {
    &&& is_representative(land, labels, r)
    &&& forall|q: int| #[trigger]
        is_representative(land, labels, q) ==> mass_size(land, labels, q) <= mass_size(land, labels, r)
    &&& forall|q: int|
        #[trigger] is_representative(land, labels, q) && q < r ==> mass_size(land, labels, q) < mass_size(
            land,
            labels,
            r,
        )
}

/// Columns (`x = k mod w`) holding a cell of the mass labelled `r`.
pub open spec fn mass_columns(w: int, land: Seq<bool>, labels: Seq<usize>, r: int) -> Seq<bool> {
    Seq::new(w as nat, |x: int| exists|k: int| #[trigger] in_mass(land, labels, r, k) && k % w == x)
}

/// Rows (`y = k div w`) holding a cell of the mass labelled `r`.
pub open spec fn mass_rows(w: int, h: int, land: Seq<bool>, labels: Seq<usize>, r: int) -> Seq<bool> {
    Seq::new(h as nat, |y: int| exists|k: int| #[trigger] in_mass(land, labels, r, k) && k / w == y)
}

proof fn lemma_mass_count_le(land: Seq<bool>, labels: Seq<usize>, r: int, k: int)
    requires
        0 <= k,
    ensures
        mass_count(land, labels, r, k) <= k,
    decreases k,
{
    if k > 0 {
        lemma_mass_count_le(land, labels, r, k - 1);
    }
}

proof fn lemma_representative_count_le(land: Seq<bool>, labels: Seq<usize>, k: int)
    requires
        0 <= k,
    ensures
        representative_count(land, labels, k) <= k,
    decreases k,
{
    if k > 0 {
        lemma_representative_count_le(land, labels, k - 1);
    }
}

/// Size of every mass, indexed by representative: entry `r` counts the
/// land cells labelled `r`.
pub fn mass_sizes(land: &[bool], labels: &[usize]) -> (sizes: Vec<usize>)
    requires
        labels@.len() == land@.len(),
        forall|k: int| 0 <= k < land@.len() && land@[k] ==> (#[trigger] labels@[k] as int) < land@.len(),
    ensures
        sizes@.len() == land@.len(),
        forall|r: int| 0 <= r < land@.len() ==> #[trigger] sizes@[r] == mass_size(land@, labels@, r),
{
    let n = land.len();
    let mut sizes: Vec<usize> = vec![0usize; n];
    let mut k: usize = 0;
    while k < n
        invariant
            n == land@.len(),
            labels@.len() == n,
            forall|c: int| 0 <= c < n && land@[c] ==> (#[trigger] labels@[c] as int) < n,
            k <= n,
            sizes@.len() == n,
            forall|r: int| 0 <= r < n ==> #[trigger] sizes@[r] == mass_count(land@, labels@, r, k as int),
        decreases n - k,
    {
        proof {
            assert forall|r: int| 0 <= r < n implies mass_count(land@, labels@, r, k as int) <= k by {
                lemma_mass_count_le(land@, labels@, r, k as int);
            }
        }
        if land[k] {
            let r = labels[k];
            let v = sizes[r];
            sizes.set(r, v + 1);
        }
        proof {
            assert forall|q: int| 0 <= q < n implies #[trigger] sizes@[q] == mass_count(
                land@,
                labels@,
                q,
                k + 1,
            ) by {
                assert(mass_count(land@, labels@, q, k + 1) == mass_count(land@, labels@, q, k as int) + (
                if in_mass(land@, labels@, q, k as int) {
                    1nat
                } else {
                    0nat
                }));
            }
        }
        k = k + 1;
    }
    sizes
}

/// Number of land masses: the cells that represent their own mass.
pub fn count_masses(land: &[bool], labels: &[usize]) -> (c: usize)
    requires
        labels@.len() == land@.len(),
    ensures
        c == representative_count(land@, labels@, land@.len() as int),
{
    let n = land.len();
    let mut c: usize = 0;
    let mut k: usize = 0;
    while k < n
        invariant
            n == land@.len(),
            labels@.len() == n,
            k <= n,
            c == representative_count(land@, labels@, k as int),
        decreases n - k,
    {
        proof {
            lemma_representative_count_le(land@, labels@, k as int);
        }
        if land[k] && labels[k] == k {
            c = c + 1;
        }
        k = k + 1;
    }
    c
}

/// Representative of a largest mass (the smallest representative among
/// equally large ones), or `None` when no cell represents a mass.
pub fn largest_mass(land: &[bool], labels: &[usize], sizes: &[usize]) -> (best: Option<usize>)
    requires
        labels@.len() == land@.len(),
        sizes@.len() == land@.len(),
        forall|r: int| 0 <= r < land@.len() ==> #[trigger] sizes@[r] == mass_size(land@, labels@, r),
    ensures
        best is None <==> forall|r: int| !#[trigger] is_representative(land@, labels@, r),
        best matches Some(r) ==> is_largest_mass(land@, labels@, r as int),
{
    let n = land.len();
    let mut best: Option<usize> = None;
    let mut best_size: usize = 0;
    let mut k: usize = 0;
    while k < n
        invariant
            n == land@.len(),
            labels@.len() == n,
            sizes@.len() == n,
            forall|r: int| 0 <= r < n ==> #[trigger] sizes@[r] == mass_size(land@, labels@, r),
            k <= n,
            best is None <==> forall|r: int| 0 <= r < k ==> !#[trigger] is_representative(land@, labels@, r),
            best matches Some(b) ==> {
                &&& b < k
                &&& is_representative(land@, labels@, b as int)
                &&& best_size == mass_size(land@, labels@, b as int)
                &&& forall|q: int|
                    0 <= q < k && #[trigger] is_representative(land@, labels@, q) ==> mass_size(land@, labels@, q)
                        <= best_size
                &&& forall|q: int|
                    0 <= q < b && #[trigger] is_representative(land@, labels@, q) ==> mass_size(land@, labels@, q)
                        < best_size
            },
        decreases n - k,
    {
        if land[k] && labels[k] == k {
            let sz = sizes[k];
            match best {
                None => {
                    best = Some(k);
                    best_size = sz;
                },
                Some(_) => {
                    if sz > best_size {
                        best = Some(k);
                        best_size = sz;
                    }
                },
            }
        }
        proof {
            if let Some(b) = best {
                assert(is_representative(land@, labels@, b as int));
                assert(!(forall|r: int| 0 <= r < k + 1 ==> !#[trigger] is_representative(land@, labels@, r)));
            }
        }
        k = k + 1;
    }
    best
}

/// Columns and rows occupied by the mass labelled `r`.
pub fn mass_occupancy(land: &BoolField, labels: &[usize], r: usize) -> (occ: (Vec<bool>, Vec<bool>))
    requires
        land.wf(),
        labels@.len() == land@.len(),
    ensures
        occ.0@ == mass_columns(land.width() as int, land@, labels@, r as int),
        occ.1@ == mass_rows(land.width() as int, land.height() as int, land@, labels@, r as int),
{
    let w = land.nx();
    let h = land.ny();
    let cells = land.data();
    proof {
        land.lemma_wf_len();
    }
    let n = cells.len();
    let ghost m = land@;
    let ghost wi = w as int;
    let ghost hi = h as int;
    let mut occ_x: Vec<bool> = vec![false; w];
    let mut occ_y: Vec<bool> = vec![false; h];
    let mut k: usize = 0;
    while k < n
        invariant
            n == m.len(),
            n == w * h,
            cells@ == m,
            labels@.len() == n,
            wi == w,
            hi == h,
            k <= n,
            occ_x@.len() == w,
            occ_y@.len() == h,
            forall|x: int|
                0 <= x < w ==> (#[trigger] occ_x@[x] <==> exists|c: int|
                    0 <= c < k && #[trigger] in_mass(m, labels@, r as int, c) && c % wi == x),
            forall|y: int|
                0 <= y < h ==> (#[trigger] occ_y@[y] <==> exists|c: int|
                    0 <= c < k && #[trigger] in_mass(m, labels@, r as int, c) && c / wi == y),
        decreases n - k,
    {
        proof {
            lemma_neighbours_in_range(wi, hi, k as int);
        }
        let ghost ox = occ_x@;
        let ghost oy = occ_y@;
        if cells[k] && labels[k] == r {
            let x = k % w;
            let y = k / w;
            occ_x.set(x, true);
            occ_y.set(y, true);
        }
        proof {
            assert forall|x: int| 0 <= x < w implies (#[trigger] occ_x@[x] <==> exists|c: int|
                0 <= c < k + 1 && #[trigger] in_mass(m, labels@, r as int, c) && c % wi == x) by {
                if occ_x@[x] && !ox[x] {
                    assert(in_mass(m, labels@, r as int, k as int));
                }
                if ox[x] {
                    let c = choose|c: int| 0 <= c < k && #[trigger] in_mass(m, labels@, r as int, c) && c % wi == x;
                    assert(0 <= c < k + 1);
                }
                if exists|c: int| 0 <= c < k + 1 && #[trigger] in_mass(m, labels@, r as int, c) && c % wi == x {
                    let c = choose|c: int| 0 <= c < k + 1 && #[trigger] in_mass(m, labels@, r as int, c) && c % wi == x;
                    if c < k {
                        assert(ox[x]);
                    }
                }
            }
            assert forall|y: int| 0 <= y < h implies (#[trigger] occ_y@[y] <==> exists|c: int|
                0 <= c < k + 1 && #[trigger] in_mass(m, labels@, r as int, c) && c / wi == y) by {
                if occ_y@[y] && !oy[y] {
                    assert(in_mass(m, labels@, r as int, k as int));
                }
                if oy[y] {
                    let c = choose|c: int| 0 <= c < k && #[trigger] in_mass(m, labels@, r as int, c) && c / wi == y;
                    assert(0 <= c < k + 1);
                }
                if exists|c: int| 0 <= c < k + 1 && #[trigger] in_mass(m, labels@, r as int, c) && c / wi == y {
                    let c = choose|c: int| 0 <= c < k + 1 && #[trigger] in_mass(m, labels@, r as int, c) && c / wi == y;
                    if c < k {
                        assert(oy[y]);
                    }
                }
            }
        }
        k = k + 1;
    }
    proof {
        assert forall|x: int| 0 <= x < w implies occ_x@[x] == mass_columns(wi, m, labels@, r as int)[x] by {
            if exists|c: int| #[trigger] in_mass(m, labels@, r as int, c) && c % wi == x {
                let c = choose|c: int| #[trigger] in_mass(m, labels@, r as int, c) && c % wi == x;
                assert(0 <= c < n);
            }
        }
        assert(occ_x@ =~= mass_columns(wi, m, labels@, r as int));
        assert forall|y: int| 0 <= y < h implies occ_y@[y] == mass_rows(wi, hi, m, labels@, r as int)[y] by {
            if exists|c: int| #[trigger] in_mass(m, labels@, r as int, c) && c / wi == y {
                let c = choose|c: int| #[trigger] in_mass(m, labels@, r as int, c) && c / wi == y;
                assert(0 <= c < n);
            }
        }
        assert(occ_y@ =~= mass_rows(wi, hi, m, labels@, r as int));
    }
    (occ_x, occ_y)
}

proof fn lemma_no_representative(land: Seq<bool>, labels: Seq<usize>, k: int)
    requires
        0 <= k <= land.len(),
    ensures
        representative_count(land, labels, k) == 0 <==> forall|r: int|
            0 <= r < k ==> !#[trigger] is_representative(land, labels, r),
    decreases k,
{
    if k > 0 {
        lemma_no_representative(land, labels, k - 1);
    }
}

proof fn lemma_no_land(land: Seq<bool>)
    ensures
        occupied_count(land) == 0 <==> forall|k: int| 0 <= k < land.len() ==> !#[trigger] land[k],
    decreases land.len(),
{
    if land.len() > 0 {
        let d = land.drop_last();
        lemma_no_land(d);
        assert forall|k: int| 0 <= k < d.len() implies d[k] == land[k] by {}
        if forall|k: int| 0 <= k < land.len() ==> !#[trigger] land[k] {
            assert forall|k: int| 0 <= k < d.len() implies !#[trigger] d[k] by {
                assert(!land[k]);
            }
        }
        if occupied_count(land) == 0 {
            assert forall|k: int| 0 <= k < land.len() implies !#[trigger] land[k] by {
                if k < d.len() {
                    assert(!d[k]);
                }
            }
        }
    }
}

/// Integer metrics of the land masses of a mask on a torus.
#[derive(Debug)]
pub struct LandMasses {
    /// Per-cell mass label (see [`label_land`]).
    pub labels: Vec<usize>,
    /// Number of land cells.
    pub land_cells: usize,
    /// Number of distinct land masses (periodic 4-connected components).
    pub num_landmasses: usize,
    /// Representative of the largest mass (smallest representative among
    /// equally large ones); `None` on an all-sea mask.
    pub largest_root: Option<usize>,
    /// Cell count of the largest mass.
    pub largest_cells: usize,
    /// The largest mass occupies every column (a true east-west band).
    pub wraps_x: bool,
    /// The largest mass occupies every row.
    pub wraps_y: bool,
    /// The largest mass is finite in x but touches both x edges.
    pub straddles_x: bool,
    /// The largest mass is finite in y but touches both y edges.
    pub straddles_y: bool,
    /// Circular extent (cells) of the largest mass per axis.
    pub extent: (usize, usize),
    /// Bounding box of the largest mass in the rolled frame: `min` is the
    /// unroll origin.
    pub bbox_min: (usize, usize),
    /// `bbox_min + extent − 1` per axis (saturating at the origin).
    pub bbox_max: (usize, usize),
    /// Torus centre (cells) of the largest mass.
    pub center_cell: (usize, usize),
    /// Cyclic shift (cells) that makes the largest mass contiguous.
    pub roll_origin: (usize, usize),
}

/// Land-mass metrics of a mask with periodic 4-connectivity in both axes:
/// the labelling, the land-cell count, the number of masses, and for the
/// largest mass its size, band / seam-straddle flags, circular extent,
/// rolled bounding box, torus centre and unroll origin. An all-sea mask
/// gives zero counts, no largest mass and all-zero geometry.
pub fn land_masses(land: &BoolField) -> (r: LandMasses)
    requires
        land.wf(),
        2 * land.width() <= usize::MAX,
        2 * land.height() <= usize::MAX,
    ensures
        labelling_ok(land.width() as int, land.height() as int, land@, r.labels@),
        forall|c: int|
            0 <= c < land@.len() ==> #[trigger] r.labels@[c] as int == scan_roots(
                land.width() as int,
                land.height() as int,
                land@,
                land@.len() as int,
            )(c),
        r.land_cells == occupied_count(land@),
        r.num_landmasses == representative_count(land@, r.labels@, land@.len() as int),
        r.largest_root is None <==> r.land_cells == 0,
        r.largest_root is None <==> r.num_landmasses == 0,
        r.largest_root is None ==> {
            &&& r.largest_cells == 0
            &&& !r.wraps_x && !r.wraps_y && !r.straddles_x && !r.straddles_y
            &&& r.extent == (0usize, 0usize)
            &&& r.bbox_min == (0usize, 0usize)
            &&& r.bbox_max == (0usize, 0usize)
            &&& r.center_cell == (0usize, 0usize)
            &&& r.roll_origin == (0usize, 0usize)
        },
        r.largest_root matches Some(root) ==> {
            let w = land.width() as int;
            let h = land.height() as int;
            let cols = mass_columns(w, land@, r.labels@, root as int);
            let rows = mass_rows(w, h, land@, r.labels@, root as int);
            &&& is_largest_mass(land@, r.labels@, root as int)
            &&& r.largest_cells == mass_size(land@, r.labels@, root as int)
            &&& circular_extent_holds(cols, (r.wraps_x, r.extent.0, r.roll_origin.0))
            &&& circular_extent_holds(rows, (r.wraps_y, r.extent.1, r.roll_origin.1))
            &&& r.straddles_x == (!r.wraps_x && cols[0] && cols.last())
            &&& r.straddles_y == (!r.wraps_y && rows[0] && rows.last())
            &&& r.bbox_min == r.roll_origin
            &&& r.bbox_max.0 == r.roll_origin.0 + (if r.extent.0 >= 1 { r.extent.0 - 1 } else { 0 })
            &&& r.bbox_max.1 == r.roll_origin.1 + (if r.extent.1 >= 1 { r.extent.1 - 1 } else { 0 })
            &&& r.center_cell.0 == (r.roll_origin.0 + r.extent.0 / 2) % w
            &&& r.center_cell.1 == (r.roll_origin.1 + r.extent.1 / 2) % h
        },
{
    let labels = label_land(land);
    let cells = land.data();
    let land_cells = crate::land::count_occupied(cells);
    let sizes = mass_sizes(cells, labels.as_slice());
    let num_landmasses = count_masses(cells, labels.as_slice());
    let largest = largest_mass(cells, labels.as_slice(), sizes.as_slice());
    proof {
        let n = land@.len() as int;
        lemma_no_representative(land@, labels@, n);
        lemma_no_land(land@);
        if largest is None {
            assert forall|k: int| 0 <= k < n implies !#[trigger] land@[k] by {
                if land@[k] {
                    assert(is_representative(land@, labels@, labels@[k] as int));
                }
            }
        } else {
            let b = largest->0;
            assert(land@[b as int]);
        }
    }
    match largest {
        None => LandMasses {
            labels,
            land_cells,
            num_landmasses,
            largest_root: None,
            largest_cells: 0,
            wraps_x: false,
            wraps_y: false,
            straddles_x: false,
            straddles_y: false,
            extent: (0, 0),
            bbox_min: (0, 0),
            bbox_max: (0, 0),
            center_cell: (0, 0),
            roll_origin: (0, 0),
        },
        Some(root) => {
            proof {
                land.lemma_wf_len();
                lemma_positive_sides(land.width() as int, land.height() as int, root as int);
            }
            let (occ_x, occ_y) = mass_occupancy(land, labels.as_slice(), root);
            let m = mass_extent(occ_x.as_slice(), occ_y.as_slice());
            let largest_cells = sizes[root];
            let bx = if m.extent_x >= 1 { m.extent_x - 1 } else { 0 };
            let by = if m.extent_y >= 1 { m.extent_y - 1 } else { 0 };
            proof {
                assert(m.roll_x < land.width() && m.extent_x <= land.width()) by {
                    crate::land::lemma_extent_in_range(occ_x@, (m.band_x, m.extent_x, m.roll_x));
                }
                assert(m.roll_y < land.height() && m.extent_y <= land.height()) by {
                    crate::land::lemma_extent_in_range(occ_y@, (m.band_y, m.extent_y, m.roll_y));
                }
            }
            LandMasses {
                labels,
                land_cells,
                num_landmasses,
                largest_root: Some(root),
                largest_cells,
                wraps_x: m.band_x,
                wraps_y: m.band_y,
                straddles_x: m.straddles_x,
                straddles_y: m.straddles_y,
                extent: (m.extent_x, m.extent_y),
                bbox_min: (m.roll_x, m.roll_y),
                bbox_max: (m.roll_x + bx, m.roll_y + by),
                center_cell: (m.center_x, m.center_y),
                roll_origin: (m.roll_x, m.roll_y),
            }
        },
    }
}

/// First and last occupied slots of `occ`, or `None` when none is occupied.
pub fn occupied_span(occ: &[bool]) -> (span: Option<(usize, usize)>)
    ensures
        span is None <==> forall|k: int| 0 <= k < occ@.len() ==> !#[trigger] occ@[k],
        span matches Some((lo, hi)) ==> {
            &&& lo <= hi < occ@.len()
            &&& occ@[lo as int]
            &&& occ@[hi as int]
            &&& forall|k: int| 0 <= k < lo ==> !#[trigger] occ@[k]
            &&& forall|k: int| hi < k < occ@.len() ==> !#[trigger] occ@[k]
        },
{
    let n = occ.len();
    let mut span: Option<(usize, usize)> = None;
    let mut k: usize = 0;
    while k < n
        invariant
            n == occ@.len(),
            k <= n,
            span is None <==> forall|c: int| 0 <= c < k ==> !#[trigger] occ@[c],
            span matches Some((lo, hi)) ==> {
                &&& lo <= hi < k
                &&& occ@[lo as int]
                &&& occ@[hi as int]
                &&& forall|c: int| 0 <= c < lo ==> !#[trigger] occ@[c]
                &&& forall|c: int| hi < c < k ==> !#[trigger] occ@[c]
            },
        decreases n - k,
    {
        if occ[k] {
            span = match span {
                None => Some((k, k)),
                Some((lo, _)) => Some((lo, k)),
            };
        }
        proof {
            if let Some((lo, hi)) = span {
                assert(occ@[hi as int]);
                assert(!(forall|c: int| 0 <= c < k + 1 ==> !#[trigger] occ@[c]));
            }
        }
        k = k + 1;
    }
    span
}

/// Some land cell lies on the outer ring of the map (first or last column
/// or row).
pub open spec fn land_on_border_spec(w: int, h: int, land: Seq<bool>) -> bool {
    exists|k: int|
        0 <= k < land.len() && #[trigger] land[k] && (k % w == 0 || k % w == w - 1 || k / w == 0 || k / w == h - 1)
}

/// Whether any land cell lies on the domain border ring.
pub fn land_on_border(land: &BoolField) -> (b: bool)
    requires
        land.wf(),
    ensures
        b == land_on_border_spec(land.width() as int, land.height() as int, land@),
{
    let w = land.nx();
    let h = land.ny();
    let cells = land.data();
    proof {
        land.lemma_wf_len();
    }
    let n = cells.len();
    let ghost wi = w as int;
    let ghost hi = h as int;
    let mut k: usize = 0;
    while k < n
        invariant
            n == land@.len(),
            n == w * h,
            cells@ == land@,
            wi == w,
            hi == h,
            w == land.width(),
            h == land.height(),
            k <= n,
            forall|c: int|
                0 <= c < k && #[trigger] land@[c] ==> !(c % wi == 0 || c % wi == wi - 1 || c / wi == 0 || c / wi
                    == hi - 1),
        decreases n - k,
    {
        proof {
            lemma_neighbours_in_range(wi, hi, k as int);
        }
        let x = k % w;
        let y = k / w;
        if cells[k] && (x == 0 || x == w - 1 || y == 0 || y == h - 1) {
            proof {
                let kk = k as int;
                assert(0 <= kk < land@.len() && land@[kk] && (kk % wi == 0 || kk % wi == wi - 1 || kk / wi == 0
                    || kk / wi == hi - 1));
                assert(land_on_border_spec(wi, hi, land@));
            }
            return true;
        }
        k = k + 1;
    }
    false
}

/// Representatives of all masses, in increasing cell order.
pub fn representatives(land: &[bool], labels: &[usize]) -> (reps: Vec<usize>)
    requires
        labels@.len() == land@.len(),
    ensures
        forall|t: int| 0 <= t < reps@.len() ==> is_representative(land@, labels@, #[trigger] reps@[t] as int),
        forall|r: int| #[trigger] is_representative(land@, labels@, r) ==> reps@.contains(r as usize),
        forall|s: int, t: int| 0 <= s < t < reps@.len() ==> #[trigger] reps@[s] < #[trigger] reps@[t],
{
    let n = land.len();
    let mut reps: Vec<usize> = Vec::new();
    let mut k: usize = 0;
    while k < n
        invariant
            n == land@.len(),
            labels@.len() == n,
            k <= n,
            forall|t: int| 0 <= t < reps@.len() ==> is_representative(land@, labels@, #[trigger] reps@[t] as int),
            forall|t: int| 0 <= t < reps@.len() ==> #[trigger] reps@[t] < k,
            forall|r: int| 0 <= r < k && #[trigger] is_representative(land@, labels@, r) ==> reps@.contains(
                r as usize,
            ),
            forall|s: int, t: int| 0 <= s < t < reps@.len() ==> #[trigger] reps@[s] < #[trigger] reps@[t],
        decreases n - k,
    {
        let ghost prev = reps@;
        if land[k] && labels[k] == k {
            reps.push(k);
            proof {
                assert(reps@[reps@.len() - 1] == k);
            }
        }
        proof {
            assert forall|r: int| 0 <= r < k + 1 && #[trigger] is_representative(land@, labels@, r) implies reps@.contains(
                r as usize,
            ) by {
                if r < k {
                    let i = choose|i: int| 0 <= i < prev.len() && prev[i] == r as usize;
                    assert(reps@[i] == prev[i]);
                } else {
                    assert(reps@[reps@.len() - 1] == k);
                }
            }
        }
        k = k + 1;
    }
    reps
}

/// Every cell of the mass labelled `r` is flagged in `inside`.
pub open spec fn mass_inside(land: Seq<bool>, labels: Seq<usize>, inside: Seq<bool>, r: int) -> bool {
    forall|k: int| #[trigger] in_mass(land, labels, r, k) ==> inside[k]
}

/// Masses among representatives `< k`, other than `skip`, lying wholly in
/// `inside`.
pub open spec fn masses_inside_count(
    land: Seq<bool>,
    labels: Seq<usize>,
    inside: Seq<bool>,
    skip: int,
    k: int,
) -> nat
    decreases k,
{
    if k <= 0 {
        0
    } else {
        masses_inside_count(land, labels, inside, skip, k - 1) + (if is_representative(land, labels, k - 1) && k
            - 1 != skip && mass_inside(land, labels, inside, k - 1) {
            1nat
        } else {
            0nat
        })
    }
}

/// Number of masses, other than the one represented by `skip`, all of
/// whose cells are flagged in `inside` (the satellites of a window).
pub fn count_masses_inside(land: &[bool], labels: &[usize], inside: &[bool], skip: usize) -> (c: usize)
    requires
        labels@.len() == land@.len(),
        inside@.len() == land@.len(),
        forall|k: int| 0 <= k < land@.len() && land@[k] ==> (#[trigger] labels@[k] as int) < land@.len(),
    ensures
        c == masses_inside_count(land@, labels@, inside@, skip as int, land@.len() as int),
{
    let n = land.len();
    // all_in[r]: no cell labelled r seen so far lies outside.
    let mut all_in: Vec<bool> = vec![true; n];
    let mut k: usize = 0;
    while k < n
        invariant
            n == land@.len(),
            labels@.len() == n,
            inside@.len() == n,
            forall|c: int| 0 <= c < n && land@[c] ==> (#[trigger] labels@[c] as int) < n,
            k <= n,
            all_in@.len() == n,
            forall|r: int|
                0 <= r < n ==> (#[trigger] all_in@[r] <==> forall|c: int|
                    0 <= c < k && #[trigger] in_mass(land@, labels@, r, c) ==> inside@[c]),
        decreases n - k,
    {
        let ghost before = all_in@;
        if land[k] && !inside[k] {
            all_in.set(labels[k], false);
        }
        proof {
            assert forall|r: int| 0 <= r < n implies (#[trigger] all_in@[r] <==> forall|c: int|
                0 <= c < k + 1 && #[trigger] in_mass(land@, labels@, r, c) ==> inside@[c]) by {
                if all_in@[r] {
                    assert(before[r]);
                    assert forall|c: int| 0 <= c < k + 1 && #[trigger] in_mass(land@, labels@, r, c) implies inside@[c] by {
                        if c < k {
                        }
                    }
                }
                if forall|c: int| 0 <= c < k + 1 && #[trigger] in_mass(land@, labels@, r, c) ==> inside@[c] {
                    assert forall|c: int| 0 <= c < k && #[trigger] in_mass(land@, labels@, r, c) implies inside@[c] by {
                    }
                    assert(before[r]);
                    if in_mass(land@, labels@, r, k as int) {
                        assert(inside@[k as int]);
                    }
                }
            }
        }
        k = k + 1;
    }
    let mut c: usize = 0;
    let mut r: usize = 0;
    while r < n
        invariant
            n == land@.len(),
            labels@.len() == n,
            inside@.len() == n,
            all_in@.len() == n,
            forall|q: int|
                0 <= q < n ==> (#[trigger] all_in@[q] <==> forall|c: int|
                    0 <= c < n && #[trigger] in_mass(land@, labels@, q, c) ==> inside@[c]),
            r <= n,
            c <= r,
            c == masses_inside_count(land@, labels@, inside@, skip as int, r as int),
        decreases n - r,
    {
        proof {
            assert(all_in@[r as int] <==> mass_inside(land@, labels@, inside@, r as int));
        }
        if land[r] && labels[r] == r && r != skip && all_in[r] {
            c = c + 1;
        }
        r = r + 1;
    }
    c
}


/// Candidate `a` comes before candidate `b` in the largest-first order:
/// larger size, or equal size and earlier position.
pub open spec fn size_order_before(sizes: Seq<usize>, a: int, b: int) -> bool {
    sizes[a] > sizes[b] || (sizes[a] == sizes[b] && a < b)
}

/// Positions `0 … sizes.len() − 1` listed largest size first, equal sizes
/// in their original order (a stable sort by decreasing size): each
/// position occurs once, and every earlier entry comes before every later
/// one in [`size_order_before`].
pub fn order_by_size_desc(sizes: &[usize]) -> (order: Vec<usize>)
    ensures
        order@.len() == sizes@.len(),
        forall|k: int| 0 <= k < order@.len() ==> (#[trigger] order@[k] as int) < sizes@.len(),
        forall|x: int| 0 <= x < sizes@.len() ==> #[trigger] order@.contains(x as usize),
        forall|k: int, l: int|
            0 <= k < l < order@.len() ==> size_order_before(sizes@, #[trigger] order@[k] as int, #[trigger] order@[l] as int),
{
    let n = sizes.len();
    let mut order: Vec<usize> = Vec::new();
    let mut i: usize = 0;
    while i < n
        invariant
            n == sizes@.len(),
            i <= n,
            order@.len() == i,
            forall|k: int| 0 <= k < order@.len() ==> (#[trigger] order@[k] as int) < i,
            forall|x: int| 0 <= x < i ==> #[trigger] order@.contains(x as usize),
            forall|k: int, l: int|
                0 <= k < l < order@.len() ==> size_order_before(sizes@, #[trigger] order@[k] as int, #[trigger] order@[l] as int),
        decreases n - i,
    {
        // First position holding a strictly smaller size.
        let mut p: usize = 0;
        while p < order.len() && sizes[order[p]] >= sizes[i]
            invariant
                n == sizes@.len(),
                i < n,
                order@.len() == i,
                p <= order@.len(),
                forall|k: int| 0 <= k < order@.len() ==> (#[trigger] order@[k] as int) < i,
                forall|k: int| 0 <= k < p ==> sizes@[#[trigger] order@[k] as int] >= sizes@[i as int],
            decreases order@.len() - p,
        {
            p = p + 1;
        }
        let ghost old_order = order@;
        proof {
            // Past `p` every size is smaller (the order is non-increasing in size).
            assert forall|k: int| p <= k < old_order.len() implies sizes@[#[trigger] old_order[k] as int] < sizes@[i as int] by {
                if k > p {
                    assert(size_order_before(sizes@, old_order[p as int] as int, old_order[k] as int));
                }
            }
            old_order.insert_ensures(p as int, i);
        }
        order.insert(p, i);
        proof {
            assert(order@ == old_order.insert(p as int, i));
            assert forall|k: int| 0 <= k < order@.len() implies (#[trigger] order@[k] as int) < i + 1 by {
                if k < p {
                    assert(order@[k] == old_order[k]);
                } else if k > p {
                    assert(order@[k] == old_order[k - 1]);
                }
            }
            assert forall|x: int| 0 <= x < i + 1 implies #[trigger] order@.contains(x as usize) by {
                if x == i {
                    assert(order@[p as int] == i);
                } else {
                    assert(old_order.contains(x as usize));
                    let k = choose|k: int| 0 <= k < old_order.len() && old_order[k] == x as usize;
                    if k < p {
                        assert(order@[k] == old_order[k]);
                    } else {
                        assert(order@[k + 1] == old_order[k]);
                    }
                }
            }
            assert forall|k: int, l: int|
                0 <= k < l < order@.len() implies size_order_before(sizes@, #[trigger] order@[k] as int, #[trigger] order@[l] as int) by {
                if l < p {
                    assert(order@[k] == old_order[k] && order@[l] == old_order[l]);
                } else if l == p {
                    assert(order@[k] == old_order[k]);
                    assert(sizes@[old_order[k] as int] >= sizes@[i as int]);
                } else if k > p {
                    assert(order@[k] == old_order[k - 1] && order@[l] == old_order[l - 1]);
                } else if k == p {
                    assert(order@[l] == old_order[l - 1]);
                } else {
                    assert(order@[k] == old_order[k] && order@[l] == old_order[l - 1]);
                }
            }
        }
        i = i + 1;
    }
    order
}

} // verus!
