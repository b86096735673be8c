//! Sustained-convergence and sustained-divergence counters per plate pair.
//!
//! Every step the grid is rescanned: each 4-neighbour edge between two
//! different plates votes "convergent", "divergent" or "neither" according
//! to the sign of the relative plate velocity projected on the edge normal.
//! A pair whose net vote is convergent (resp. divergent) has its counter
//! incremented; every other tracked pair is reset to zero.

use vstd::prelude::*;

use crate::grid::{flat, lemma_flat_in_bounds, ring_next, ring_prev, wrap_next, wrap_prev, PlateIdField};
use crate::pair_map::{canonical, canonical_pair, pair_eq, PairMap};

verus! {

/// Sign (`-1`, `0`, `+1`) of each component of the relative velocity
/// `v_a − v_b` of every ordered plate pair, after the magnitude floor
/// below which a component counts as zero.
pub struct RelativeMotion {
    num_plates: usize,
    sign_x: Vec<i8>,
    sign_y: Vec<i8>,
}

pub open spec fn is_sign(s: i8) -> bool {
    s == -1 || s == 0 || s == 1
}

impl RelativeMotion {
    #[verifier::type_invariant]
    spec fn shape_ok(self) -> bool {
        &&& self.sign_x@.len() == self.num_plates * self.num_plates
        &&& self.sign_y@.len() == self.num_plates * self.num_plates
        &&& forall|k: int| 0 <= k < self.sign_x@.len() ==> is_sign(#[trigger] self.sign_x@[k])
        &&& forall|k: int| 0 <= k < self.sign_y@.len() ==> is_sign(#[trigger] self.sign_y@[k])
    }

    /// Number of plates covered.
    pub closed spec fn plates(&self) -> nat {
        self.num_plates as nat
    }

    /// Sign of `vx_a − vx_b`.
    pub closed spec fn sx(&self, a: int, b: int) -> int {
        self.sign_x@[flat(self.num_plates as int, b, a)] as int
    }

    /// Sign of `vy_a − vy_b`.
    pub closed spec fn sy(&self, a: int, b: int) -> int {
        self.sign_y@[flat(self.num_plates as int, b, a)] as int
    }

    /// Build from row-major `num_plates × num_plates` sign tables
    /// (`sign_x[a · num_plates + b]` is the sign for the pair `(a, b)`).
    pub fn new(num_plates: usize, sign_x: Vec<i8>, sign_y: Vec<i8>) -> (m: Self)
        requires
            sign_x@.len() == num_plates * num_plates,
            sign_y@.len() == num_plates * num_plates,
            forall|k: int| 0 <= k < sign_x@.len() ==> is_sign(#[trigger] sign_x@[k]),
            forall|k: int| 0 <= k < sign_y@.len() ==> is_sign(#[trigger] sign_y@[k]),
        ensures
            m.plates() == num_plates,
            forall|a: int, b: int|
                0 <= a < num_plates && 0 <= b < num_plates ==> #[trigger] m.sx(a, b)
                    == sign_x@[flat(num_plates as int, b, a)] as int && m.sy(a, b)
                    == sign_y@[flat(num_plates as int, b, a)] as int,
    {
        RelativeMotion { num_plates, sign_x, sign_y }
    }

    pub fn num_plates(&self) -> (n: usize)
        ensures
            n == self.plates(),
    {
        self.num_plates
    }

    /// `(sx(a, b), sy(a, b))`.
    pub fn signs(&self, a: u16, b: u16) -> (r: (i8, i8))
        requires
            a < self.plates(),
            b < self.plates(),
        ensures
            r.0 as int == self.sx(a as int, b as int),
            r.1 as int == self.sy(a as int, b as int),
            is_sign(r.0),
            is_sign(r.1),
    {
        proof {
            use_type_invariant(self);
            lemma_flat_in_bounds(self.num_plates as int, self.num_plates as int, b as int, a as int);
        }
        let n = self.num_plates;
        let _l = self.sign_x.len();
        let k = (a as usize) * n + (b as usize);
        (self.sign_x[k], self.sign_y[k])
    }
}

/// Neighbour of cell `(i, j)` in direction `d`: 0 = +x, 1 = −x, 2 = +y, 3 = −y
/// (periodic).
pub open spec fn neighbour(w: int, h: int, i: int, j: int, d: int) -> (int, int) {
    if d == 0 {
        (ring_next(i, w), j)
    } else if d == 1 {
        (ring_prev(i, w), j)
    } else if d == 2 {
        (i, ring_next(j, h))
    } else {
        (i, ring_prev(j, h))
    }
}

/// Sign of `v_rel · n̂` for the edge leaving `(i, j)` in direction `d`,
/// seen from the canonical pair: `v_rel = v_lo − v_hi` and the normal
/// points from the low-id plate's side toward the high-id plate's side.
pub open spec fn edge_sign(g: PlateIdField, m: RelativeMotion, i: int, j: int, d: int) -> int {
    let nb = neighbour(g.width() as int, g.height() as int, i, j, d);
    let c = g.at(i, j);
    let q = g.at(nb.0, nb.1);
    let p = canonical(c, q);
    let s = if d < 2 {
        m.sx(p.0 as int, p.1 as int)
    } else {
        m.sy(p.0 as int, p.1 as int)
    };
    let s_normal = if d == 0 || d == 2 {
        s
    } else {
        -s
    };
    if c == p.0 {
        s_normal
    } else {
        -s_normal
    }
}

/// Does the edge leaving `(i, j)` in direction `d` separate the pair `p`
/// and vote with sign `sign`?
pub open spec fn edge_votes(
    g: PlateIdField,
    m: RelativeMotion,
    i: int,
    j: int,
    d: int,
    p: (u16, u16),
    sign: int,
) -> bool {
    let nb = neighbour(g.width() as int, g.height() as int, i, j, d);
    &&& g.at(i, j) != g.at(nb.0, nb.1)
    &&& canonical(g.at(i, j), g.at(nb.0, nb.1)) == p
    &&& edge_sign(g, m, i, j, d) == sign
}

/// Votes with sign `sign` for pair `p` among the first `d` directions of
/// the cell at flat index `k`.
pub open spec fn cell_votes(
    g: PlateIdField,
    m: RelativeMotion,
    k: int,
    d: int,
    p: (u16, u16),
    sign: int,
) -> nat
    decreases d,
{
    if d <= 0 {
        0
    } else {
        cell_votes(g, m, k, d - 1, p, sign) + (if edge_votes(
            g,
            m,
            k % (g.width() as int),
            k / (g.width() as int),
            d - 1,
            p,
            sign,
        ) {
            1nat
        } else {
            0nat
        })
    }
}

/// Votes with sign `sign` for pair `p` over the cells at flat indices `< k`.
pub open spec fn grid_votes(g: PlateIdField, m: RelativeMotion, k: int, p: (u16, u16), sign: int) -> nat
    decreases k,
{
    if k <= 0 {
        0
    } else {
        grid_votes(g, m, k - 1, p, sign) + cell_votes(g, m, k - 1, 4, p, sign)
    }
}

/// Convergent edges of pair `p` over the whole grid.
pub open spec fn convergent_edges(g: PlateIdField, m: RelativeMotion, p: (u16, u16)) -> nat {
    grid_votes(g, m, g@.len() as int, p, 1)
}

/// Divergent edges of pair `p` over the whole grid.
pub open spec fn divergent_edges(g: PlateIdField, m: RelativeMotion, p: (u16, u16)) -> nat {
    grid_votes(g, m, g@.len() as int, p, -1)
}

/// Net convergent verdict for `p` this step.
pub open spec fn net_convergent(g: PlateIdField, m: RelativeMotion, p: (u16, u16)) -> bool {
    convergent_edges(g, m, p) > divergent_edges(g, m, p)
}

/// Net divergent verdict for `p` this step.
pub open spec fn net_divergent(g: PlateIdField, m: RelativeMotion, p: (u16, u16)) -> bool {
    divergent_edges(g, m, p) > convergent_edges(g, m, p)
}

/// Counter map after one step: pairs with a verdict are incremented
/// (starting from 0 when not yet tracked), every other tracked pair is
/// reset to 0.
pub open spec fn advanced(
    old: Map<(u16, u16), usize>,
    verdict: spec_fn((u16, u16)) -> bool,
) -> Map<(u16, u16), usize> {
    Map::new(
        |p: (u16, u16)| old.dom().contains(p) || verdict(p),
        |p: (u16, u16)|
            if verdict(p) {
                (if old.dom().contains(p) {
                    old[p] + 1
                } else {
                    1
                }) as usize
            } else {
                0usize
            },
    )
}

/// Count stored for the unordered pair `{a, b}`, 0 when untracked.
pub open spec fn count_of(m: Map<(u16, u16), usize>, a: u16, b: u16) -> usize {
    let p = canonical(a, b);
    if m.dom().contains(p) {
        m[p]
    } else {
        0
    }
}

/// Every counter can still be incremented without overflow.
pub open spec fn counts_below_max(m: Map<(u16, u16), usize>) -> bool {
    forall|p: (u16, u16)| #[trigger] m.dom().contains(p) ==> m[p] < usize::MAX
}

/// The grid is consistent with the motion table: every plate id indexes it.
pub open spec fn ids_covered(g: PlateIdField, m: RelativeMotion) -> bool {
    forall|k: int| 0 <= k < g@.len() ==> (#[trigger] g@[k] as int) < m.plates()
}

/// Requirements of a rescan: a well-formed grid whose ids are covered by
/// the motion table.
pub open spec fn scan_ok(g: PlateIdField, m: RelativeMotion) -> bool {
    &&& g.wf()
    &&& ids_covered(g, m)
}

proof fn lemma_cell_votes_le(g: PlateIdField, m: RelativeMotion, k: int, d: int, p: (u16, u16), sign: int)
    requires
        0 <= d,
    ensures
        cell_votes(g, m, k, d, p, sign) <= d,
    decreases d,
{
    if d > 0 {
        lemma_cell_votes_le(g, m, k, d - 1, p, sign);
    }
}

proof fn lemma_grid_votes_le(g: PlateIdField, m: RelativeMotion, k: int, p: (u16, u16), sign: int)
    requires
        0 <= k,
    ensures
        grid_votes(g, m, k, p, sign) <= 4 * k,
    decreases k,
{
    if k > 0 {
        lemma_grid_votes_le(g, m, k - 1, p, sign);
        lemma_cell_votes_le(g, m, k - 1, 4, p, sign);
    }
}

/// Invariant of the tally: the map holds, for every pair it contains, the
/// (convergent, divergent) vote counts so far, and every pair it lacks has
/// no vote yet.
pub open spec fn tally_matches(
    t: Map<(u16, u16), (u128, u128)>,
    g: PlateIdField,
    m: RelativeMotion,
    k: int,
    d: int,
) -> bool {
    forall|p: (u16, u16)|
        if #[trigger] t.dom().contains(p) {
            t[p].0 == grid_votes(g, m, k, p, 1) + cell_votes(g, m, k, d, p, 1) && t[p].1
                == grid_votes(g, m, k, p, -1) + cell_votes(g, m, k, d, p, -1)
        } else {
            grid_votes(g, m, k, p, 1) + cell_votes(g, m, k, d, p, 1) == 0 && grid_votes(g, m, k, p, -1)
                + cell_votes(g, m, k, d, p, -1) == 0
        }
}

proof fn lemma_div_mod_cell(w: int, h: int, i: int, j: int)
    requires
        0 <= i < w,
        0 <= j < h,
    ensures
        flat(w, i, j) % w == i,
        flat(w, i, j) / w == j,
{
    assert((j * w + i) % w == i && (j * w + i) / w == j) by (nonlinear_arith)
        requires
            0 <= i < w,
            0 <= j,
    ;
}

/// The vote cast by the edge leaving `(i, j)` in direction `d`: whether it
/// separates two plates with a non-zero normal velocity, for which pair,
/// and with which sign.
fn edge_vote(g: &PlateIdField, m: &RelativeMotion, i: usize, j: usize, d: usize) -> (r: (bool, (u16, u16), i8))
    requires
        scan_ok(*g, *m),
        i < g.width(),
        j < g.height(),
        d < 4,
    ensures
        r.0 ==> (r.2 == 1 || r.2 == -1),
        forall|pp: (u16, u16), sg: int|
            (sg == 1 || sg == -1) ==> (#[trigger] edge_votes(*g, *m, i as int, j as int, d as int, pp, sg)
                <==> (r.0 && r.1 == pp && r.2 as int == sg)),
{
    let w = g.nx();
    let h = g.ny();
    proof {
        g.lemma_wf_len();
    }
    let c = g.get(i, j);
    let (ni, nj) = if d == 0 {
        (wrap_next(i, w), j)
    } else if d == 1 {
        (wrap_prev(i, w), j)
    } else if d == 2 {
        (i, wrap_next(j, h))
    } else {
        (i, wrap_prev(j, h))
    };
    assert((ni as int, nj as int) == neighbour(w as int, h as int, i as int, j as int, d as int));
    let q = g.get(ni, nj);
    if q == c {
        return (false, (0, 0), 0);
    }
    let p = canonical_pair(c, q);
    proof {
        lemma_flat_in_bounds(w as int, h as int, i as int, j as int);
        lemma_flat_in_bounds(w as int, h as int, ni as int, nj as int);
    }
    let (sxv, syv) = m.signs(p.0, p.1);
    let s: i8 = if d < 2 {
        sxv
    } else {
        syv
    };
    let s_normal: i8 = if d == 0 || d == 2 {
        s
    } else {
        -s
    };
    let dot: i8 = if c == p.0 {
        s_normal
    } else {
        -s_normal
    };
    assert(dot as int == edge_sign(*g, *m, i as int, j as int, d as int));
    (dot != 0, p, dot)
}

/// Account for the edge leaving cell `(i, j)` (flat index `k`) in
/// direction `d`.
fn tally_one_edge(
    t: &mut PairMap<(u128, u128)>,
    g: &PlateIdField,
    m: &RelativeMotion,
    i: usize,
    j: usize,
    d: usize,
    Ghost(k): Ghost<int>,
)
    requires
        scan_ok(*g, *m),
        i < g.width(),
        j < g.height(),
        d < 4,
        k == j * g.width() + i,
        0 <= k < g@.len(),
        k % (g.width() as int) == i,
        k / (g.width() as int) == j,
        tally_matches(old(t)@, *g, *m, k, d as int),
    ensures
        tally_matches(final(t)@, *g, *m, k, d + 1),
{
    let (has, p, s) = edge_vote(g, m, i, j, d);
    let cells = g.data().len();
    let ghost t0 = t@;
    if has {
        let cur = t.get(p);
        let (cv, dv) = match cur {
            Some(x) => x,
            None => (0u128, 0u128),
        };
        proof {
            assert(k < cells);
            lemma_grid_votes_le(*g, *m, k, p, 1);
            lemma_grid_votes_le(*g, *m, k, p, -1);
            lemma_cell_votes_le(*g, *m, k, d as int, p, 1);
            lemma_cell_votes_le(*g, *m, k, d as int, p, -1);
        }
        if s > 0 {
            t.insert(p, (cv + 1, dv));
        } else {
            t.insert(p, (cv, dv + 1));
        }
    }
    proof {
        assert forall|pp: (u16, u16)| #[trigger] t@.dom().contains(pp) || !t@.dom().contains(pp) implies (if t@.dom().contains(pp) {
            t@[pp].0 == grid_votes(*g, *m, k, pp, 1) + cell_votes(*g, *m, k, d + 1, pp, 1) && t@[pp].1
                == grid_votes(*g, *m, k, pp, -1) + cell_votes(*g, *m, k, d + 1, pp, -1)
        } else {
            grid_votes(*g, *m, k, pp, 1) + cell_votes(*g, *m, k, d + 1, pp, 1) == 0 && grid_votes(*g, *m, k, pp, -1)
                + cell_votes(*g, *m, k, d + 1, pp, -1) == 0
        }) by {
            assert(edge_votes(*g, *m, i as int, j as int, d as int, pp, 1) == (has && p == pp && s == 1));
            assert(edge_votes(*g, *m, i as int, j as int, d as int, pp, -1) == (has && p == pp && s == -1));
            assert(t0.dom().contains(pp) || !t0.dom().contains(pp));
        }
    }
}

/// Per-pair (convergent, divergent) edge votes over the whole grid.
pub fn tally_edges(g: &PlateIdField, m: &RelativeMotion) -> (t: PairMap<(u128, u128)>)
    requires
        scan_ok(*g, *m),
    ensures
        forall|p: (u16, u16)|
            if #[trigger] t@.dom().contains(p) {
                t@[p].0 == convergent_edges(*g, *m, p) && t@[p].1 == divergent_edges(*g, *m, p)
            } else {
                convergent_edges(*g, *m, p) == 0 && divergent_edges(*g, *m, p) == 0
            },
{
    let w = g.nx();
    let h = g.ny();
    proof {
        g.lemma_wf_len();
    }
    let mut t: PairMap<(u128, u128)> = PairMap::new();
    let mut j: usize = 0;
    while j < h
        invariant
            scan_ok(*g, *m),
            w == g.width(),
            h == g.height(),
            g@.len() == w * h,
            j <= h,
            tally_matches(t@, *g, *m, (j * w) as int, 0),
        decreases h - j,
    {
        let mut i: usize = 0;
        while i < w
            invariant
                scan_ok(*g, *m),
                w == g.width(),
                h == g.height(),
                g@.len() == w * h,
                j < h,
                i <= w,
                tally_matches(t@, *g, *m, (j * w + i) as int, 0),
            decreases w - i,
        {
            proof {
                lemma_flat_in_bounds(w as int, h as int, i as int, j as int);
                lemma_div_mod_cell(w as int, h as int, i as int, j as int);
            }
            let ghost k: int = (j * w + i) as int;
            let mut d: usize = 0;
            while d < 4
                invariant
                    scan_ok(*g, *m),
                    w == g.width(),
                    h == g.height(),
                    g@.len() == w * h,
                    i < w,
                    j < h,
                    k == j * w + i,
                    0 <= k < g@.len(),
                    k % (w as int) == i,
                    k / (w as int) == j,
                    d <= 4,
                    tally_matches(t@, *g, *m, k, d as int),
                decreases 4 - d,
            {
                tally_one_edge(&mut t, g, m, i, j, d, Ghost(k));
                d = d + 1;
            }
            proof {
                assert forall|pp: (u16, u16)| #[trigger] t@.dom().contains(pp) || !t@.dom().contains(pp) implies
                    (if t@.dom().contains(pp) {
                        t@[pp].0 == grid_votes(*g, *m, k + 1, pp, 1) + cell_votes(*g, *m, k + 1, 0, pp, 1)
                            && t@[pp].1 == grid_votes(*g, *m, k + 1, pp, -1) + cell_votes(
                            *g,
                            *m,
                            k + 1,
                            0,
                            pp,
                            -1,
                        )
                    } else {
                        grid_votes(*g, *m, k + 1, pp, 1) + cell_votes(*g, *m, k + 1, 0, pp, 1) == 0
                            && grid_votes(*g, *m, k + 1, pp, -1) + cell_votes(*g, *m, k + 1, 0, pp, -1) == 0
                    }) by {
                    assert(t@.dom().contains(pp) || !t@.dom().contains(pp));
                }
            }
            i = i + 1;
        }
        assert((j * w + w) as int == ((j + 1) * w) as int) by (nonlinear_arith);
        j = j + 1;
    }
    proof {
        assert((h * w) as int == g@.len()) by (nonlinear_arith)
            requires
                g@.len() == w * h,
        ;
    }
    t
}

} // verus!

verus! {

/// The verdict a tally gives a pair: net convergent when `convergent`,
/// net divergent otherwise.
pub open spec fn tally_verdict(t: Map<(u16, u16), (u128, u128)>, convergent: bool, p: (u16, u16)) -> bool {
    t.dom().contains(p) && (if convergent {
        t[p].0 > t[p].1
    } else {
        t[p].1 > t[p].0
    })
}

spec fn step_value(old: Map<(u16, u16), usize>, v: bool, p: (u16, u16)) -> usize {
    if v {
        (if old.dom().contains(p) {
            old[p] + 1
        } else {
            1
        }) as usize
    } else {
        0usize
    }
}

/// Counters after one step, from the old counters and this step's tally.
fn advance_counts(old: &PairMap<usize>, tally: &PairMap<(u128, u128)>, convergent: bool) -> (r: PairMap<usize>)
    requires
        counts_below_max(old@),
    ensures
        r@ == advanced(old@, |p: (u16, u16)| tally_verdict(tally@, convergent, p)),
{
    let mut r: PairMap<usize> = PairMap::new();
    let n_old = old.len();
    let mut idx: usize = 0;
    while idx < n_old
        invariant
            n_old == old.entry_seq().len(),
            idx <= n_old,
            counts_below_max(old@),
            r@ == Map::new(
                |p: (u16, u16)| exists|k: int| 0 <= k < idx && #[trigger] old.entry_seq()[k].0 == p,
                |p: (u16, u16)| step_value(old@, tally_verdict(tally@, convergent, p), p),
            ),
        decreases n_old - idx,
    {
        let (p, c) = old.entry(idx);
        let tv = tally.get(p);
        let v = match tv {
            Some(cd) => if convergent {
                cd.0 > cd.1
            } else {
                cd.1 > cd.0
            },
            None => false,
        };
        assert(v == tally_verdict(tally@, convergent, p));
        let ghost r0 = r@;
        if v {
            r.insert(p, c + 1);
        } else {
            r.insert(p, 0);
        }
        proof {
            assert(r@ =~= Map::new(
                |pp: (u16, u16)| exists|k: int| 0 <= k < idx + 1 && #[trigger] old.entry_seq()[k].0 == pp,
                |pp: (u16, u16)| step_value(old@, tally_verdict(tally@, convergent, pp), pp),
            )) by {
                assert forall|pp: (u16, u16)|
                    (exists|k: int| 0 <= k < idx + 1 && #[trigger] old.entry_seq()[k].0 == pp) == (r0.dom().contains(
                        pp,
                    ) || pp == p) by {
                    if exists|k: int| 0 <= k < idx + 1 && #[trigger] old.entry_seq()[k].0 == pp {
                        let k = choose|k: int| 0 <= k < idx + 1 && #[trigger] old.entry_seq()[k].0 == pp;
                        if k < idx {
                            assert(r0.dom().contains(pp));
                        }
                    }
                    if pp == p {
                        assert(old.entry_seq()[idx as int].0 == pp);
                    }
                }
            }
        }
        idx = idx + 1;
    }
    proof {
        assert(r@ =~= Map::new(
            |p: (u16, u16)| old@.dom().contains(p),
            |p: (u16, u16)| step_value(old@, tally_verdict(tally@, convergent, p), p),
        )) by {
            assert forall|p: (u16, u16)| #[trigger] old@.dom().contains(p) implies r@.dom().contains(p) by {
                old.lemma_key_listed(p);
            }
            assert forall|p: (u16, u16)| #[trigger] r@.dom().contains(p) implies old@.dom().contains(p) by {
                let k = choose|k: int| 0 <= k < n_old && #[trigger] old.entry_seq()[k].0 == p;
                old.lemma_listed_key_in_dom(k);
            }
        }
    }
    let n_t = tally.len();
    let mut idx: usize = 0;
    while idx < n_t
        invariant
            n_t == tally.entry_seq().len(),
            idx <= n_t,
            r@ == Map::new(
                |p: (u16, u16)|
                    old@.dom().contains(p) || (tally_verdict(tally@, convergent, p) && exists|k: int|
                        0 <= k < idx && #[trigger] tally.entry_seq()[k].0 == p),
                |p: (u16, u16)| step_value(old@, tally_verdict(tally@, convergent, p), p),
            ),
        decreases n_t - idx,
    {
        let (p, cd) = tally.entry(idx);
        let v = if convergent {
            cd.0 > cd.1
        } else {
            cd.1 > cd.0
        };
        assert(v == tally_verdict(tally@, convergent, p));
        let ghost r0 = r@;
        let present = old.get(p);
        if v && present.is_none() {
            r.insert(p, 1);
        }
        proof {
            assert(r@ =~= Map::new(
                |pp: (u16, u16)|
                    old@.dom().contains(pp) || (tally_verdict(tally@, convergent, pp) && exists|k: int|
                        0 <= k < idx + 1 && #[trigger] tally.entry_seq()[k].0 == pp),
                |pp: (u16, u16)| step_value(old@, tally_verdict(tally@, convergent, pp), pp),
            )) by {
                assert forall|pp: (u16, u16)|
                    (old@.dom().contains(pp) || (tally_verdict(tally@, convergent, pp) && exists|k: int|
                        0 <= k < idx + 1 && #[trigger] tally.entry_seq()[k].0 == pp)) == r@.dom().contains(pp) by {
                    if tally_verdict(tally@, convergent, pp) && exists|k: int| 0 <= k < idx + 1 && #[trigger] tally.entry_seq()[k].0 == pp {
                        let k = choose|k: int| 0 <= k < idx + 1 && #[trigger] tally.entry_seq()[k].0 == pp;
                        if k < idx {
                            assert(r0.dom().contains(pp));
                        }
                    }
                    if pp == p && v {
                        assert(tally.entry_seq()[idx as int].0 == pp);
                    }
                }
            }
        }
        idx = idx + 1;
    }
    proof {
        assert(r@ =~= advanced(old@, |p: (u16, u16)| tally_verdict(tally@, convergent, p))) by {
            assert forall|p: (u16, u16)| #[trigger] tally_verdict(tally@, convergent, p) implies r@.dom().contains(p) by {
                tally.lemma_key_listed(p);
            }
        }
    }
    r
}

/// Per-pair sustained-convergence counter.
pub struct ConvergenceTracker {
    /// Consecutive net-convergent steps per canonical pair `(a, b)`, `a < b`.
    pub convergence_counts: PairMap<usize>,
}

impl ConvergenceTracker {
    /// Empty tracker: no pair known yet.
    pub fn new() -> (t: Self)
        ensures
            t.convergence_counts@ == Map::<(u16, u16), usize>::empty(),
    {
        ConvergenceTracker { convergence_counts: PairMap::new() }
    }

    /// Rescan the grid: net-convergent pairs are incremented, every other
    /// tracked pair is reset to 0.
    pub fn update(&mut self, plate_id: &PlateIdField, motion: &RelativeMotion)
        requires
            scan_ok(*plate_id, *motion),
            counts_below_max(old(self).convergence_counts@),
        ensures
            final(self).convergence_counts@ == advanced(
                old(self).convergence_counts@,
                |p: (u16, u16)| net_convergent(*plate_id, *motion, p),
            ),
    {
        let tally = tally_edges(plate_id, motion);
        let next = advance_counts(&self.convergence_counts, &tally, true);
        proof {
            let ghost conv = true;
            assert forall|p: (u16, u16)|
                tally_verdict(tally@, conv, p) == #[trigger] net_convergent(*plate_id, *motion, p) by {
                if tally@.dom().contains(p) {
                } else {
                }
            }
            assert(advanced(self.convergence_counts@, |p: (u16, u16)| tally_verdict(tally@, conv, p)) =~= advanced(
                self.convergence_counts@,
                |p: (u16, u16)| net_convergent(*plate_id, *motion, p),
            ));
        }
        self.convergence_counts = next;
    }

    /// Current count for the unordered pair `{a, b}`; 0 for unknown pairs.
    pub fn get(&self, a: u16, b: u16) -> (c: usize)
        ensures
            c == count_of(self.convergence_counts@, a, b),
    {
        let pair = canonical_pair(a, b);
        match self.convergence_counts.get(pair) {
            Some(c) => c,
            None => 0,
        }
    }
}

/// Per-pair sustained-divergence counter (mirror of [`ConvergenceTracker`]).
pub struct DivergenceTracker {
    /// Consecutive net-divergent steps per canonical pair `(a, b)`, `a < b`.
    pub divergence_counts: PairMap<usize>,
}

impl DivergenceTracker {
    pub fn new() -> (t: Self)
        ensures
            t.divergence_counts@ == Map::<(u16, u16), usize>::empty(),
    {
        DivergenceTracker { divergence_counts: PairMap::new() }
    }

    /// Rescan the grid: net-divergent pairs are incremented, every other
    /// tracked pair is reset to 0.
    pub fn update(&mut self, plate_id: &PlateIdField, motion: &RelativeMotion)
        requires
            scan_ok(*plate_id, *motion),
            counts_below_max(old(self).divergence_counts@),
        ensures
            final(self).divergence_counts@ == advanced(
                old(self).divergence_counts@,
                |p: (u16, u16)| net_divergent(*plate_id, *motion, p),
            ),
    {
        let tally = tally_edges(plate_id, motion);
        let next = advance_counts(&self.divergence_counts, &tally, false);
        proof {
            let ghost conv = false;
            assert forall|p: (u16, u16)|
                tally_verdict(tally@, conv, p) == #[trigger] net_divergent(*plate_id, *motion, p) by {
                if tally@.dom().contains(p) {
                } else {
                }
            }
            assert(advanced(self.divergence_counts@, |p: (u16, u16)| tally_verdict(tally@, conv, p)) =~= advanced(
                self.divergence_counts@,
                |p: (u16, u16)| net_divergent(*plate_id, *motion, p),
            ));
        }
        self.divergence_counts = next;
    }

    /// Current count for the unordered pair `{a, b}`; 0 for unknown pairs.
    pub fn get(&self, a: u16, b: u16) -> (c: usize)
        ensures
            c == count_of(self.divergence_counts@, a, b),
    {
        let pair = canonical_pair(a, b);
        match self.divergence_counts.get(pair) {
            Some(c) => c,
            None => 0,
        }
    }
}

/// A pair counter does not depend on the order of the two plates.
pub proof fn law_count_symmetric(m: Map<(u16, u16), usize>, a: u16, b: u16)
    ensures
        count_of(m, a, b) == count_of(m, b, a),
{
}

/// One tracker step on the pair `{a, b}`: a step with a verdict for the
/// pair adds one to its count (from 0 when untracked); a step without
/// resets it to 0.
pub proof fn law_counter_step(m: Map<(u16, u16), usize>, verdict: spec_fn((u16, u16)) -> bool, a: u16, b: u16)
    requires
        counts_below_max(m),
    ensures
        count_of(advanced(m, verdict), a, b) == (if verdict(canonical(a, b)) {
            count_of(m, a, b) + 1
        } else {
            0
        }),
{
}

/// A counter measures the current run of consecutive verdicts: after a
/// step without a verdict for the pair followed by `k` steps with one, the
/// pair's count is `k`, whatever it was before.
pub proof fn law_counter_restarts(
    m: Map<(u16, u16), usize>,
    verdicts: Seq<spec_fn((u16, u16)) -> bool>,
    a: u16,
    b: u16,
)
    requires
        1 <= verdicts.len() <= usize::MAX,
        !verdicts[0](canonical(a, b)),
        forall|t: int| 1 <= t < verdicts.len() ==> #[trigger] verdicts[t](canonical(a, b)),
    ensures
        count_of(advance_all(m, verdicts, verdicts.len() as int), a, b) == verdicts.len() - 1,
{
    lemma_advance_all_count(m, verdicts, a, b, verdicts.len() as int);
}

/// Counters after applying the first `k` steps of `verdicts` in order.
pub open spec fn advance_all(
    m: Map<(u16, u16), usize>,
    verdicts: Seq<spec_fn((u16, u16)) -> bool>,
    k: int,
) -> Map<(u16, u16), usize>
    decreases k,
{
    if k <= 0 {
        m
    } else {
        advanced(advance_all(m, verdicts, k - 1), verdicts[k - 1])
    }
}

proof fn lemma_advance_all_count(
    m: Map<(u16, u16), usize>,
    verdicts: Seq<spec_fn((u16, u16)) -> bool>,
    a: u16,
    b: u16,
    k: int,
)
    requires
        1 <= k <= verdicts.len() <= usize::MAX,
        !verdicts[0](canonical(a, b)),
        forall|t: int| 1 <= t < verdicts.len() ==> #[trigger] verdicts[t](canonical(a, b)),
    ensures
        count_of(advance_all(m, verdicts, k), a, b) == k - 1,
    decreases k,
{
    if k > 1 {
        lemma_advance_all_count(m, verdicts, a, b, k - 1);
        assert(verdicts[k - 1](canonical(a, b)));
    }
}


/// `mn` is `m` with every velocity negated: the same plates, every relative
/// sign flipped.
pub open spec fn negated_motion(m: RelativeMotion, mn: RelativeMotion) -> bool {
    &&& mn.plates() == m.plates()
    &&& forall|a: int, b: int|
        0 <= a < m.plates() && 0 <= b < m.plates() ==> #[trigger] mn.sx(a, b) == -m.sx(a, b) && mn.sy(a, b)
            == -m.sy(a, b)
}

proof fn lemma_cell_in_grid(g: PlateIdField, k: int)
    requires
        g.wf(),
        0 <= k < g@.len(),
    ensures
        g.width() > 0,
        0 <= k % (g.width() as int) < g.width(),
        0 <= k / (g.width() as int) < g.height(),
        flat(g.width() as int, k % (g.width() as int), k / (g.width() as int)) == k,
{
    g.lemma_wf_len();
    let w = g.width() as int;
    let h = g.height() as int;
    assert(w > 0) by (nonlinear_arith)
        requires
            0 <= k < w * h,
            0 <= h,
            0 <= w,
    ;
    crate::grid::lemma_unflat(w, h, k);
}

proof fn lemma_edge_sign_mirror(g: PlateIdField, m: RelativeMotion, mn: RelativeMotion, i: int, j: int, d: int)
    requires
        g.wf(),
        ids_covered(g, m),
        negated_motion(m, mn),
        0 <= i < g.width(),
        0 <= j < g.height(),
    ensures
        edge_sign(g, mn, i, j, d) == -edge_sign(g, m, i, j, d),
{
    g.lemma_wf_len();
    let w = g.width() as int;
    let h = g.height() as int;
    let nb = neighbour(w, h, i, j, d);
    assert(0 <= nb.0 < w && 0 <= nb.1 < h);
    lemma_flat_in_bounds(w, h, i, j);
    lemma_flat_in_bounds(w, h, nb.0, nb.1);
    let c = g.at(i, j);
    let q = g.at(nb.0, nb.1);
    assert((c as int) < m.plates() && (q as int) < m.plates());
    let p = canonical(c, q);
    assert(mn.sx(p.0 as int, p.1 as int) == -m.sx(p.0 as int, p.1 as int));
    assert(mn.sy(p.0 as int, p.1 as int) == -m.sy(p.0 as int, p.1 as int));
}

proof fn lemma_cell_votes_mirror(
    g: PlateIdField,
    m: RelativeMotion,
    mn: RelativeMotion,
    k: int,
    d: int,
    p: (u16, u16),
    sign: int,
)
    requires
        g.wf(),
        ids_covered(g, m),
        negated_motion(m, mn),
        0 <= k < g@.len(),
    ensures
        cell_votes(g, mn, k, d, p, sign) == cell_votes(g, m, k, d, p, -sign),
    decreases d,
{
    if d > 0 {
        lemma_cell_votes_mirror(g, m, mn, k, d - 1, p, sign);
        lemma_cell_in_grid(g, k);
        let w = g.width() as int;
        lemma_edge_sign_mirror(g, m, mn, k % w, k / w, d - 1);
    }
}

proof fn lemma_grid_votes_mirror(g: PlateIdField, m: RelativeMotion, mn: RelativeMotion, k: int, p: (u16, u16), sign: int)
    requires
        g.wf(),
        ids_covered(g, m),
        negated_motion(m, mn),
        0 <= k <= g@.len(),
    ensures
        grid_votes(g, mn, k, p, sign) == grid_votes(g, m, k, p, -sign),
    decreases k,
{
    if k > 0 {
        lemma_grid_votes_mirror(g, m, mn, k - 1, p, sign);
        lemma_cell_votes_mirror(g, m, mn, k - 1, 4, p, sign);
    }
}

/// The divergence tracker is the sign mirror of the convergence tracker:
/// a rescan under some motion advances the divergence counters exactly as
/// a rescan under the negated motion advances the convergence counters
/// (so equal counters before stay equal after).
pub proof fn law_divergence_mirrors_convergence(
    g: PlateIdField,
    m: RelativeMotion,
    mn: RelativeMotion,
    counts: Map<(u16, u16), usize>,
)
    requires
        g.wf(),
        ids_covered(g, m),
        negated_motion(m, mn),
    ensures
        advanced(counts, |p: (u16, u16)| net_divergent(g, m, p)) == advanced(
            counts,
            |p: (u16, u16)| net_convergent(g, mn, p),
        ),
{
    assert forall|p: (u16, u16)| net_divergent(g, m, p) == #[trigger] net_convergent(g, mn, p) by {
        lemma_grid_votes_mirror(g, m, mn, g@.len() as int, p, 1);
        lemma_grid_votes_mirror(g, m, mn, g@.len() as int, p, -1);
    }
    assert(advanced(counts, |p: (u16, u16)| net_divergent(g, m, p)) =~= advanced(
        counts,
        |p: (u16, u16)| net_convergent(g, mn, p),
    ));
}


/// Plate 0 covers the western half of every row (`x < width / 2`), plate 1
/// the rest.
pub open spec fn half_split(g: PlateIdField) -> bool {
    forall|k: int|
        0 <= k < g@.len() ==> #[trigger] g@[k] == (if k % (g.width() as int) < (g.width() as int) / 2 {
            0u16
        } else {
            1u16
        })
}

spec fn unit_sign(t: int) -> int {
    if t == 1 {
        1
    } else if t == -1 {
        -1
    } else {
        0
    }
}

/// Net vote (convergent minus divergent) of the cell in column `i` of a
/// half-split row, in units of the sign of the relative motion.
spec fn half_contrib(w: int, i: int) -> int {
    (if i == 0 {
        -1int
    } else {
        0
    }) + (if i == w / 2 - 1 {
        1int
    } else {
        0
    }) + (if i == w / 2 {
        1int
    } else {
        0
    }) + (if i == w - 1 {
        -1int
    } else {
        0
    })
}

/// Net vote of the first `i` cells of a half-split row.
spec fn half_prefix(w: int, i: int) -> int {
    (if i > 0 {
        -1int
    } else {
        0
    }) + (if i > w / 2 - 1 {
        1int
    } else {
        0
    }) + (if i > w / 2 {
        1int
    } else {
        0
    }) + (if i > w - 1 {
        -1int
    } else {
        0
    })
}

proof fn lemma_half_cell(g: PlateIdField, m: RelativeMotion, k: int)
    requires
        g.wf(),
        g.width() >= 2,
        half_split(g),
        0 <= k < g@.len(),
    ensures
        cell_votes(g, m, k, 4, (0u16, 1u16), 1) - cell_votes(g, m, k, 4, (0u16, 1u16), -1) == half_contrib(
            g.width() as int,
            k % (g.width() as int),
        ) * unit_sign(m.sx(0, 1)),
{
    lemma_cell_in_grid(g, k);
    let w = g.width() as int;
    let h = g.height() as int;
    let i = k % w;
    let j = k / w;
    let p = (0u16, 1u16);
    assert forall|x: int, y: int| 0 <= x < w && 0 <= y < h implies #[trigger] g.at(x, y) == (if x < w / 2 {
        0u16
    } else {
        1u16
    }) by {
        lemma_div_mod_cell(w, h, x, y);
        lemma_flat_in_bounds(w, h, x, y);
        g.lemma_wf_len();
    }
    let n0 = neighbour(w, h, i, j, 0);
    let n1 = neighbour(w, h, i, j, 1);
    let n2 = neighbour(w, h, i, j, 2);
    let n3 = neighbour(w, h, i, j, 3);
    assert(g.at(i, j) == g.at(n2.0, n2.1));
    assert(g.at(i, j) == g.at(n3.0, n3.1));
    assert(g.at(n0.0, n0.1) == (if n0.0 < w / 2 {
        0u16
    } else {
        1u16
    }));
    assert(g.at(n1.0, n1.1) == (if n1.0 < w / 2 {
        0u16
    } else {
        1u16
    }));
    assert(g.at(i, j) == (if i < w / 2 {
        0u16
    } else {
        1u16
    }));
    reveal_with_fuel(cell_votes, 5);
}

proof fn lemma_half_grid(g: PlateIdField, m: RelativeMotion, k: int)
    requires
        g.wf(),
        g.width() >= 2,
        half_split(g),
        0 <= k <= g@.len(),
    ensures
        grid_votes(g, m, k, (0u16, 1u16), 1) - grid_votes(g, m, k, (0u16, 1u16), -1) == half_prefix(
            g.width() as int,
            k % (g.width() as int),
        ) * unit_sign(m.sx(0, 1)),
    decreases k,
{
    let w = g.width() as int;
    if k > 0 {
        lemma_half_grid(g, m, k - 1);
        lemma_half_cell(g, m, k - 1);
        lemma_cell_in_grid(g, k - 1);
        let i = (k - 1) % w;
        let j = (k - 1) / w;
        assert(k - 1 == j * w + i);
        if i + 1 < w {
            assert(k % w == i + 1) by (nonlinear_arith)
                requires
                    k == j * w + i + 1,
                    0 <= i + 1 < w,
                    0 <= j,
            ;
        } else {
            assert(k % w == 0) by (nonlinear_arith)
                requires
                    k == j * w + w,
                    0 < w,
                    0 <= j,
            ;
        }
        assert(half_prefix(w, (k - 1) % w) + half_contrib(w, (k - 1) % w) == half_prefix(w, k % w));
        assert((half_prefix(w, (k - 1) % w) + half_contrib(w, (k - 1) % w)) * unit_sign(m.sx(0, 1))
            == half_prefix(w, (k - 1) % w) * unit_sign(m.sx(0, 1)) + half_contrib(w, (k - 1) % w) * unit_sign(
            m.sx(0, 1),
        )) by (nonlinear_arith);
    } else {
        assert(0int % w == 0);
    }
}

/// A torus split into two half-plates (plate 0 west of `width / 2`, plate 1
/// east) is never net convergent nor net divergent, whatever the motion:
/// the interior boundary and the wrap-around boundary cast opposite votes in
/// equal numbers. After a rescan its convergence counter is therefore 0.
pub proof fn law_half_split_is_balanced(g: PlateIdField, m: RelativeMotion, counts: Map<(u16, u16), usize>)
    requires
        g.wf(),
        g.width() >= 2,
        half_split(g),
    ensures
        convergent_edges(g, m, (0u16, 1u16)) == divergent_edges(g, m, (0u16, 1u16)),
        !net_convergent(g, m, (0u16, 1u16)),
        !net_divergent(g, m, (0u16, 1u16)),
        count_of(advanced(counts, |p: (u16, u16)| net_convergent(g, m, p)), 0, 1) == 0,
{
    g.lemma_wf_len();
    let w = g.width() as int;
    let h = g.height() as int;
    lemma_half_grid(g, m, g@.len() as int);
    assert((h * w) % w == 0) by (nonlinear_arith)
        requires
            0 < w,
            0 <= h,
    ;
    assert(g@.len() == h * w) by (nonlinear_arith)
        requires
            g@.len() == w * h,
    ;
    assert(half_prefix(w, 0) == 0);
}


/// An edge's vote is the sign of the relative velocity projected on the
/// step across the edge: for an edge between a cell of the lower-id plate
/// `p.0` and a cell of the higher-id plate `p.1`, the sign of
/// `(v_{p.0} − v_{p.1}) · n`, where `n` is the unit step from the `p.0`
/// cell to the `p.1` cell (positive: the plates close, convergent). Stated
/// for edges away from the seam, where the step is the plain coordinate
/// difference of the two cells.
pub proof fn law_edge_vote_is_projected_relative_motion(g: PlateIdField, m: RelativeMotion, i: int, j: int, d: int)
    requires
        g.wf(),
        ids_covered(g, m),
        1 <= i < g.width() - 1,
        1 <= j < g.height() - 1,
        0 <= d < 4,
    ensures
        ({
            let nb = neighbour(g.width() as int, g.height() as int, i, j, d);
            let c = g.at(i, j);
            let q = g.at(nb.0, nb.1);
            let p = canonical(c, q);
            // Step from the `p.0` cell to the `p.1` cell.
            let (sx, sy) = if c == p.0 {
                (nb.0 - i, nb.1 - j)
            } else {
                (i - nb.0, j - nb.1)
            };
            &&& sx * sx + sy * sy == 1
            &&& c != q ==> edge_sign(g, m, i, j, d) == m.sx(p.0 as int, p.1 as int) * sx + m.sy(p.0 as int, p.1 as int) * sy
        }),
{
    let w = g.width() as int;
    let h = g.height() as int;
    let nb = neighbour(w, h, i, j, d);
    let c = g.at(i, j);
    let q = g.at(nb.0, nb.1);
    let p = canonical(c, q);
    let a = m.sx(p.0 as int, p.1 as int);
    let b = m.sy(p.0 as int, p.1 as int);
    assert(a * 1 == a && a * -1 == -a && a * 0 == 0 && b * 1 == b && b * -1 == -b && b * 0 == 0) by (nonlinear_arith);
    assert(1int * 1 == 1 && -1int * -1 == 1 && 0int * 0 == 0);
    if d == 0 {
        assert(nb == (i + 1, j));
    } else if d == 1 {
        assert(nb == (i - 1, j));
    } else if d == 2 {
        assert(nb == (i, j + 1));
    } else {
        assert(nb == (i, j - 1));
    }
}

/// The two cells of an edge cast the same vote: the edge seen from a cell
/// in direction `d` and from its neighbour in the opposite direction.
pub proof fn law_edge_vote_is_symmetric(g: PlateIdField, m: RelativeMotion, i: int, j: int, d: int)
    requires
        g.wf(),
        0 <= i < g.width(),
        0 <= j < g.height(),
        0 <= d < 4,
    ensures
        ({
            let w = g.width() as int;
            let h = g.height() as int;
            let nb = neighbour(w, h, i, j, d);
            let back = if d == 0 {
                1int
            } else if d == 1 {
                0int
            } else if d == 2 {
                3int
            } else {
                2int
            };
            &&& neighbour(w, h, nb.0, nb.1, back) == (i, j)
            &&& g.at(i, j) != g.at(nb.0, nb.1) ==> edge_sign(g, m, nb.0, nb.1, back) == edge_sign(g, m, i, j, d)
        }),
{
    let w = g.width() as int;
    let h = g.height() as int;
    let nb = neighbour(w, h, i, j, d);
    let c = g.at(i, j);
    let q = g.at(nb.0, nb.1);
    assert(canonical(c, q) == canonical(q, c) || c == q);
    if d == 0 {
        assert(neighbour(w, h, nb.0, nb.1, 1) == (i, j));
    } else if d == 1 {
        assert(neighbour(w, h, nb.0, nb.1, 0) == (i, j));
    } else if d == 2 {
        assert(neighbour(w, h, nb.0, nb.1, 3) == (i, j));
    } else {
        assert(neighbour(w, h, nb.0, nb.1, 2) == (i, j));
    }
}

} // verus!
