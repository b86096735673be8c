//! Plate adjacency graph of a plate-id field (periodic 4-neighbourhood).

use vstd::prelude::*;

use crate::grid::{flat, lemma_flat_in_bounds, wrap_next, wrap_prev, PlateIdField};
use crate::pair_map::{keys_sorted, pair_lt, PairMap};
use crate::plate_pairs::neighbour;

verus! {

/// The edge leaving the cell at flat index `k` in direction `d` goes from
/// plate `a` to a different plate `b`.
pub open spec fn edge_between(g: PlateIdField, k: int, d: int, a: u16, b: u16) -> bool {
    let w = g.width() as int;
    let nb = neighbour(w, g.height() as int, k % w, k / w, d);
    &&& g.at(k % w, k / w) == a
    &&& g.at(nb.0, nb.1) == b
    &&& a != b
}

/// Plates `a` and `b` share at least one (periodic) 4-neighbour edge.
pub open spec fn plates_adjacent(g: PlateIdField, a: u16, b: u16) -> bool {
    exists|k: int, d: int| 0 <= k < g@.len() && 0 <= d < 4 && #[trigger] edge_between(g, k, d, a, b)
}

/// Edges seen before position `(k, d)` of the row-major scan.
spec fn seen_before(g: PlateIdField, k: int, d: int, a: u16, b: u16) -> bool {
    exists|k2: int, d2: int|
        0 <= k2 && 0 <= d2 < 4 && (k2 < k || (k2 == k && d2 < d)) && #[trigger] edge_between(g, k2, d2, a, b)
}

proof fn lemma_div_mod_cell(w: int, i: int, j: int)
    requires
        0 <= i < w,
        0 <= j,
    ensures
        flat(w, i, j) % w == i,
        flat(w, i, j) / w == j,
{
    assert((j * w + i) % w == i && (j * w + i) / w == j) by (nonlinear_arith)
        requires
            0 <= i < w,
            0 <= j,
    ;
}

/// Per-plate adjacency: `adj[p]` lists, in increasing order and without
/// repetition, every plate sharing an edge with plate `p`
/// (`p < num_plates`).
pub fn build_plate_adjacency(plate_id_field: &PlateIdField, num_plates: usize) -> (adj: Vec<Vec<u16>>)
    requires
        plate_id_field.wf(),
    ensures
        adj@.len() == num_plates,
        forall|p: int|
            #![trigger adj@[p]]
            0 <= p < num_plates ==> forall|x: int, y: int|
                0 <= x < y < adj@[p]@.len() ==> adj@[p]@[x] < adj@[p]@[y],
        forall|p: int, q: u16|
            0 <= p < num_plates ==> (adj@[p]@.contains(q) <==> (p <= u16::MAX && plates_adjacent(
                *plate_id_field,
                p as u16,
                q,
            ))),
{
    let g = plate_id_field;
    let w = g.nx();
    let h = g.ny();
    proof {
        g.lemma_wf_len();
    }
    let mut pairs: PairMap<bool> = PairMap::new();
    let mut j: usize = 0;
    while j < h
        invariant
            g.wf(),
            w == g.width(),
            h == g.height(),
            g@.len() == w * h,
            j <= h,
            forall|a: u16, b: u16|
                #[trigger] pairs@.dom().contains((a, b)) <==> (a < num_plates && seen_before(*g, (j * w) as int, 0, a, b)),
        decreases h - j,
    {
        let mut i: usize = 0;
        while i < w
            invariant
                g.wf(),
                w == g.width(),
                h == g.height(),
                g@.len() == w * h,
                j < h,
                i <= w,
                forall|a: u16, b: u16|
                    #[trigger] pairs@.dom().contains((a, b)) <==> (a < num_plates && seen_before(
                        *g,
                        (j * w + i) as int,
                        0,
                        a,
                        b,
                    )),
            decreases w - i,
        {
            proof {
                lemma_flat_in_bounds(w as int, h as int, i as int, j as int);
                lemma_div_mod_cell(w as int, i as int, j as int);
            }
            let ghost k: int = (j * w + i) as int;
            let c = g.get(i, j);
            let mut d: usize = 0;
            while d < 4
                invariant
                    g.wf(),
                    w == g.width(),
                    h == g.height(),
                    i < w,
                    j < h,
                    k == j * w + i,
                    k % (w as int) == i,
                    k / (w as int) == j,
                    c == g.at(i as int, j as int),
                    d <= 4,
                    forall|a: u16, b: u16|
                        #[trigger] pairs@.dom().contains((a, b)) <==> (a < num_plates && seen_before(*g, k, d as int, a, b)),
                decreases 4 - d,
            {
                let (ni, nj) = if d == 0 {
                    (wrap_next(i, w), j)
                } else if d == 1 {
                    (wrap_prev(i, w), j)
                } else if d == 2 {
                    (i, wrap_next(j, h))
                } else {
                    (i, wrap_prev(j, h))
                };
                assert((ni as int, nj as int) == neighbour(w as int, h as int, i as int, j as int, d as int));
                let q = g.get(ni, nj);
                let ghost p0 = pairs@;
                if q != c && (c as usize) < num_plates {
                    pairs.insert((c, q), true);
                }
                proof {
                    assert forall|a: u16, b: u16|
                        #[trigger] pairs@.dom().contains((a, b)) <==> (a < num_plates && seen_before(
                            *g,
                            k,
                            d + 1,
                            a,
                            b,
                        )) by {
                        if a < num_plates && seen_before(*g, k, d + 1, a, b) {
                            let (k2, d2) = choose|k2: int, d2: int|
                                0 <= k2 && 0 <= d2 < 4 && (k2 < k || (k2 == k && d2 < d + 1))
                                    && #[trigger] edge_between(*g, k2, d2, a, b);
                            if !(k2 < k || (k2 == k && d2 < d)) {
                                assert(k2 == k && d2 == d);
                                assert(a == c && b == q);
                            }
                        }
                        if pairs@.dom().contains((a, b)) && !p0.dom().contains((a, b)) {
                            assert(edge_between(*g, k, d as int, a, b));
                        }
                    }
                }
                d = d + 1;
            }
            proof {
                assert forall|a: u16, b: u16|
                    #[trigger] pairs@.dom().contains((a, b)) <==> (a < num_plates && seen_before(
                        *g,
                        k + 1,
                        0,
                        a,
                        b,
                    )) by {
                    if seen_before(*g, k + 1, 0, a, b) {
                        let (k2, d2) = choose|k2: int, d2: int|
                            0 <= k2 && 0 <= d2 < 4 && (k2 < k + 1 || (k2 == k + 1 && d2 < 0))
                                && #[trigger] edge_between(*g, k2, d2, a, b);
                        assert(k2 < k || (k2 == k && d2 < 4));
                    }
                    if seen_before(*g, k, 4, a, b) {
                        let (k2, d2) = choose|k2: int, d2: int|
                            0 <= k2 && 0 <= d2 < 4 && (k2 < k || (k2 == k && d2 < 4))
                                && #[trigger] edge_between(*g, k2, d2, a, b);
                        assert(k2 < k + 1);
                    }
                }
            }
            i = i + 1;
        }
        assert((j * w + w) as int == ((j + 1) * w) as int) by (nonlinear_arith);
        j = j + 1;
    }
    proof {
        assert((h * w) as int == g@.len()) by (nonlinear_arith)
            requires
                g@.len() == w * h,
        ;
        assert forall|a: u16, b: u16|
            seen_before(*g, g@.len() as int, 0, a, b) <==> plates_adjacent(*g, a, b) by {
            if plates_adjacent(*g, a, b) {
                let (k2, d2) = choose|k2: int, d2: int|
                    0 <= k2 < g@.len() && 0 <= d2 < 4 && #[trigger] edge_between(*g, k2, d2, a, b);
                assert(seen_before(*g, g@.len() as int, 0, a, b));
            }
            if seen_before(*g, g@.len() as int, 0, a, b) {
                let (k2, d2) = choose|k2: int, d2: int|
                    0 <= k2 && 0 <= d2 < 4 && (k2 < g@.len() || (k2 == g@.len() && d2 < 0))
                        && #[trigger] edge_between(*g, k2, d2, a, b);
                assert(plates_adjacent(*g, a, b));
            }
        }
    }
    // Group the sorted pairs by first plate.
    pairs.reveal_order();
    let n_pairs = pairs.len();
    let mut adj: Vec<Vec<u16>> = Vec::new();
    let mut idx: usize = 0;
    let mut p: usize = 0;
    while p < num_plates
        invariant
            n_pairs == pairs.entry_seq().len(),
            keys_sorted(pairs.entry_seq()),
            forall|k: int|
                0 <= k < pairs.entry_seq().len() ==> pairs@.dom().contains(#[trigger] pairs.entry_seq()[k].0),
            forall|a: u16, b: u16|
                #[trigger] pairs@.dom().contains((a, b)) <==> (a < num_plates && plates_adjacent(*g, a, b)),
            p <= num_plates,
            idx <= n_pairs,
            adj@.len() == p,
            forall|k: int| 0 <= k < idx ==> (#[trigger] pairs.entry_seq()[k].0).0 < p,
            forall|k: int| idx <= k < n_pairs ==> (#[trigger] pairs.entry_seq()[k].0).0 >= p,
            forall|pp: int|
                #![trigger adj@[pp]]
                0 <= pp < p ==> forall|x: int, y: int|
                    0 <= x < y < adj@[pp]@.len() ==> adj@[pp]@[x] < adj@[pp]@[y],
            forall|pp: int, q: u16|
                0 <= pp < p ==> (adj@[pp]@.contains(q) <==> (pp <= u16::MAX && plates_adjacent(*g, pp as u16, q))),
        decreases num_plates - p,
    {
        let mut row: Vec<u16> = Vec::new();
        let ghost idx0 = idx;
        while idx < n_pairs && (pairs.entry(idx).0).0 as usize == p
            invariant
                n_pairs == pairs.entry_seq().len(),
                keys_sorted(pairs.entry_seq()),
                idx0 <= idx <= n_pairs,
                p < num_plates,
                forall|k: int| idx0 <= k < idx ==> (#[trigger] pairs.entry_seq()[k].0).0 == p,
                forall|k: int| 0 <= k < idx0 ==> (#[trigger] pairs.entry_seq()[k].0).0 < p,
                forall|k: int| idx0 <= k < n_pairs ==> (#[trigger] pairs.entry_seq()[k].0).0 >= p,
                row@.len() == idx - idx0,
                forall|x: int| 0 <= x < row@.len() ==> #[trigger] row@[x] == pairs.entry_seq()[idx0 + x].0.1,
            decreases n_pairs - idx,
        {
            let e = pairs.entry(idx);
            row.push((e.0).1);
            idx = idx + 1;
        }
        proof {
            assert forall|k: int| idx <= k < n_pairs implies (#[trigger] pairs.entry_seq()[k].0).0 >= p + 1 by {
                if idx < n_pairs {
                    if k > idx {
                        assert(pair_lt(pairs.entry_seq()[idx as int].0, pairs.entry_seq()[k].0));
                    }
                }
            }
            assert forall|x: int, y: int| 0 <= x < y < row@.len() implies row@[x] < row@[y] by {
                assert(pair_lt(pairs.entry_seq()[idx0 + x].0, pairs.entry_seq()[idx0 + y].0));
            }
            assert forall|q: u16| row@.contains(q) <==> (p <= u16::MAX && plates_adjacent(*g, p as u16, q)) by {
                if row@.contains(q) {
                    let x = choose|x: int| 0 <= x < row@.len() && row@[x] == q;
                    assert(pairs.entry_seq()[idx0 + x].0 == (p as u16, q));
                    assert(pairs@.dom().contains((p as u16, q)));
                }
                if p <= u16::MAX && plates_adjacent(*g, p as u16, q) {
                    assert((p as u16) as int == p);
                    assert(pairs@.dom().contains((p as u16, q)));
                    pairs.lemma_key_listed((p as u16, q));
                    let k = choose|k: int| 0 <= k < pairs.entry_seq().len() && #[trigger] pairs.entry_seq()[k].0 == (
                    p as u16, q);
                    assert(idx0 <= k < idx);
                    assert(row@[k - idx0] == q);
                }
            }
        }
        adj.push(row);
        p = p + 1;
    }
    adj
}

/// Reversing an edge: the edge from `(i, j)` in direction `d` comes back
/// from the neighbour in the opposite direction.
proof fn lemma_edge_reverse(g: PlateIdField, a: u16, b: u16)
    requires
        g.wf(),
        plates_adjacent(g, a, b),
    ensures
        plates_adjacent(g, b, a),
{
    let (k, d) = choose|k: int, d: int| 0 <= k < g@.len() && 0 <= d < 4 && #[trigger] edge_between(g, k, d, a, b);
    let w = g.width() as int;
    let h = g.height() as int;
    g.lemma_wf_len();
    crate::landmass::lemma_positive_sides(w, h, k);
    crate::grid::lemma_unflat(w, h, k);
    let i = k % w;
    let j = k / w;
    let nb = neighbour(w, h, i, j, d);
    assert(0 <= nb.0 < w && 0 <= nb.1 < h);
    let k2 = flat(w, nb.0, nb.1);
    lemma_flat_in_bounds(w, h, nb.0, nb.1);
    lemma_div_mod_cell(w, nb.0, nb.1);
    let d2 = if d == 0 {
        1int
    } else if d == 1 {
        0int
    } else if d == 2 {
        3int
    } else {
        2int
    };
    assert(neighbour(w, h, nb.0, nb.1, d2) == (i, j));
    assert(edge_between(g, k2, d2, b, a));
}

/// Plate adjacency is symmetric: plate `a` shares an edge with plate `b`
/// exactly when `b` shares one with `a`; so `b` is listed among `a`'s
/// neighbours exactly when `a` is listed among `b`'s.
pub proof fn law_adjacency_symmetric(g: PlateIdField, a: u16, b: u16)
    requires
        g.wf(),
    ensures
        plates_adjacent(g, a, b) == plates_adjacent(g, b, a),
{
    if plates_adjacent(g, a, b) {
        lemma_edge_reverse(g, a, b);
    }
    if plates_adjacent(g, b, a) {
        lemma_edge_reverse(g, b, a);
    }
}

/// A plate never borders itself.
pub proof fn law_adjacency_irreflexive(g: PlateIdField, a: u16)
    ensures
        !plates_adjacent(g, a, a),
{
}

} // verus!
