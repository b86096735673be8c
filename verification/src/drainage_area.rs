//! Transitive drainage areas from per-cell drainage targets.

use vstd::prelude::*;

verus! {

/// Per-cell drainage routing: each cell drains to `target_idx[c]` (itself
/// for a sink) and lies `path_length[c]` steps from its final destination.
pub struct DrainageMap {
    pub target_idx: Vec<usize>,
    pub path_length: Vec<u8>,
}

/// The routing is well formed: parallel arrays, in-range targets, and every
/// non-sink drains to a cell strictly closer to its destination.
pub open spec fn routing_ok(tgt: Seq<usize>, pl: Seq<u8>) -> bool {
    &&& tgt.len() == pl.len()
    &&& forall|c: int| 0 <= c < tgt.len() ==> (#[trigger] tgt[c] as int) < tgt.len()
    &&& forall|c: int| 0 <= c < tgt.len() && tgt[c] != c ==> pl[tgt[c] as int] < #[trigger] pl[c]
}

/// Drainage area of cell `c`: itself plus the areas of every cell that
/// drains directly into it.
pub open spec fn drain_area(tgt: Seq<usize>, pl: Seq<u8>, c: int) -> nat
    decreases 256 - pl[c], tgt.len() + 1,
{
    1 + upstream_sum(tgt, pl, c, tgt.len() as int)
}

/// Sum of the areas of the cells `< k` that drain directly into `c`.
pub open spec fn upstream_sum(tgt: Seq<usize>, pl: Seq<u8>, c: int, k: int) -> nat
    decreases 256 - pl[c], k,
{
    if k <= 0 || k > tgt.len() {
        0
    } else {
        upstream_sum(tgt, pl, c, k - 1) + (if tgt[k - 1] == c && k - 1 != c && pl[k - 1] > pl[c] {
            drain_area(tgt, pl, k - 1)
        } else {
            0
        })
    }
}


/// Cell `i` is handled before position `(level, idx)` of the scan, which
/// visits path lengths from high to low and, within one length, cells in
/// increasing index order.
pub open spec fn handled(pl: Seq<u8>, level: int, idx: int, i: int) -> bool {
    pl[i] > level || (pl[i] == level && i < idx)
}

/// Sum of the areas of the handled cells `< k` that drain directly into `c`.
pub open spec fn handled_sum(tgt: Seq<usize>, pl: Seq<u8>, c: int, level: int, idx: int, k: int) -> nat
    decreases k,
{
    if k <= 0 {
        0
    } else {
        handled_sum(tgt, pl, c, level, idx, k - 1) + (if tgt[k - 1] == c && k - 1 != c && handled(
            pl,
            level,
            idx,
            k - 1,
        ) {
            drain_area(tgt, pl, k - 1)
        } else {
            0
        })
    }
}

/// Sum of the current values of the not-yet-handled cells `< k`.
pub open spec fn pending_sum(a: Seq<u32>, pl: Seq<u8>, level: int, idx: int, k: int) -> nat
    decreases k,
{
    if k <= 0 {
        0
    } else {
        pending_sum(a, pl, level, idx, k - 1) + (if !handled(pl, level, idx, k - 1) {
            a[k - 1] as nat
        } else {
            0
        })
    }
}

proof fn lemma_handled_all_upstream(tgt: Seq<usize>, pl: Seq<u8>, c: int, level: int, idx: int, k: int)
    requires
        routing_ok(tgt, pl),
        0 <= c < tgt.len(),
        0 <= k <= tgt.len(),
        pl[c] >= level,
        forall|i: int| 0 <= i < k && tgt[i] == c && i != c ==> #[trigger] handled(pl, level, idx, i),
    ensures
        handled_sum(tgt, pl, c, level, idx, k) == upstream_sum(tgt, pl, c, k),
    decreases k,
{
    if k > 0 {
        lemma_handled_all_upstream(tgt, pl, c, level, idx, k - 1);
        let i = k - 1;
        if tgt[i] == c && i != c {
            assert(pl[tgt[i] as int] < pl[i]);
            assert(handled(pl, level, idx, i));
        }
    }
}

proof fn lemma_handled_step(tgt: Seq<usize>, pl: Seq<u8>, c: int, level: int, idx: int, k: int)
    requires
        0 <= idx,
        0 <= k,
    ensures
        handled_sum(tgt, pl, c, level, idx + 1, k) == handled_sum(tgt, pl, c, level, idx, k) + (if idx < k && tgt[idx]
            == c && idx != c && pl[idx] == level {
            drain_area(tgt, pl, idx)
        } else {
            0
        }),
    decreases k,
{
    if k > 0 {
        lemma_handled_step(tgt, pl, c, level, idx, k - 1);
    }
}

proof fn lemma_handled_same(tgt: Seq<usize>, pl: Seq<u8>, c: int, l1: int, i1: int, l2: int, i2: int, k: int)
    requires
        0 <= k <= pl.len(),
        forall|i: int| 0 <= i < pl.len() ==> handled(pl, l1, i1, i) == handled(pl, l2, i2, i),
    ensures
        handled_sum(tgt, pl, c, l1, i1, k) == handled_sum(tgt, pl, c, l2, i2, k),
    decreases k,
{
    if k > 0 {
        lemma_handled_same(tgt, pl, c, l1, i1, l2, i2, k - 1);
        assert(handled(pl, l1, i1, k - 1) == handled(pl, l2, i2, k - 1));
    }
}

proof fn lemma_pending_same(a: Seq<u32>, pl: Seq<u8>, l1: int, i1: int, l2: int, i2: int, k: int)
    requires
        0 <= k <= pl.len(),
        forall|i: int| 0 <= i < pl.len() ==> handled(pl, l1, i1, i) == handled(pl, l2, i2, i),
    ensures
        pending_sum(a, pl, l1, i1, k) == pending_sum(a, pl, l2, i2, k),
    decreases k,
{
    if k > 0 {
        lemma_pending_same(a, pl, l1, i1, l2, i2, k - 1);
        assert(handled(pl, l1, i1, k - 1) == handled(pl, l2, i2, k - 1));
    }
}

/// Two distinct pending cells together weigh at most the pending sum.
proof fn lemma_pending_pair(a: Seq<u32>, pl: Seq<u8>, level: int, idx: int, k: int, x: int, y: int)
    requires
        0 <= x < k,
        0 <= y < k,
        x != y,
        !handled(pl, level, idx, x),
        !handled(pl, level, idx, y),
    ensures
        a[x] + a[y] <= pending_sum(a, pl, level, idx, k),
    decreases k,
{
    if k - 1 == x {
        lemma_pending_single(a, pl, level, idx, k - 1, y);
    } else if k - 1 == y {
        lemma_pending_single(a, pl, level, idx, k - 1, x);
    } else {
        lemma_pending_pair(a, pl, level, idx, k - 1, x, y);
    }
}

proof fn lemma_pending_single(a: Seq<u32>, pl: Seq<u8>, level: int, idx: int, k: int, x: int)
    requires
        0 <= x < k,
        !handled(pl, level, idx, x),
    ensures
        a[x] <= pending_sum(a, pl, level, idx, k),
    decreases k,
{
    if k - 1 != x {
        lemma_pending_single(a, pl, level, idx, k - 1, x);
    }
}

/// Handling cell `i` (moving its value onto `t`) keeps the pending sum
/// when `t != i`, and lowers it when `i` is a sink.
proof fn lemma_pending_move(a: Seq<u32>, b: Seq<u32>, pl: Seq<u8>, level: int, idx: int, t: int, k: int)
    requires
        0 <= idx < a.len(),
        a.len() == b.len() == pl.len(),
        0 <= t < a.len(),
        0 <= k <= a.len(),
        pl[idx] == level,
        t != idx ==> !handled(pl, level, idx, t),
        t != idx ==> a[t] + a[idx] <= u32::MAX,
        t != idx ==> b == a.update(t, (a[t] + a[idx]) as u32),
        t == idx ==> b == a,
    ensures
        pending_sum(b, pl, level, idx + 1, k) as int == pending_sum(a, pl, level, idx, k) as int - (if idx < k {
            a[idx] as int
        } else {
            0
        }) + (if t != idx && t < k {
            a[idx] as int
        } else {
            0
        }),
    decreases k,
{
    if k > 0 {
        lemma_pending_move(a, b, pl, level, idx, t, k - 1);
        let j = k - 1;
        if j == idx {
            assert(!handled(pl, level, idx, j));
            assert(handled(pl, level, idx + 1, j));
        } else {
            assert(handled(pl, level, idx + 1, j) == handled(pl, level, idx, j));
            if j == t {
                assert(!handled(pl, level, idx, j));
                assert(b[j] == a[j] + a[idx]);
            } else {
                assert(b[j] == a[j]);
            }
        }
    }
}

/// Transitive drainage area of every cell: the number of cells (itself
/// included) whose drainage path passes through it.
pub fn compute_drainage_areas(map: &DrainageMap) -> (areas: Vec<u32>)
    requires
        routing_ok(map.target_idx@, map.path_length@),
        map.target_idx@.len() <= u32::MAX,
    ensures
        areas@.len() == map.target_idx@.len(),
        forall|c: int|
            0 <= c < areas@.len() ==> #[trigger] areas@[c] as nat == drain_area(map.target_idx@, map.path_length@, c),
{
    let ghost tgt = map.target_idx@;
    let ghost pl = map.path_length@;
    let n = map.target_idx.len();
    let mut areas: Vec<u32> = vec![1u32; n];
    proof {
        assert forall|c: int| 0 <= c < n implies handled_sum(tgt, pl, c, 255, 0, n as int) == 0 by {
            lemma_zero_sum(tgt, pl, c, n as int);
        }
        lemma_pending_ones(areas@, pl, n as int);
    }
    let mut lev: usize = 256;
    while lev > 0
        invariant
            tgt == map.target_idx@,
            pl == map.path_length@,
            routing_ok(tgt, pl),
            n == tgt.len(),
            n <= u32::MAX,
            lev <= 256,
            areas@.len() == n,
            forall|c: int| 0 <= c < n ==> (#[trigger] areas@[c]) as nat == 1 + handled_sum(tgt, pl, c, lev - 1, 0, n as int),
            forall|c: int| 0 <= c < n ==> #[trigger] areas@[c] >= 1,
            pending_sum(areas@, pl, lev - 1, 0, n as int) <= n,
        decreases lev,
    {
        let level: u8 = (lev - 1) as u8;
        let mut i: usize = 0;
        while i < n
            invariant
                tgt == map.target_idx@,
                pl == map.path_length@,
                routing_ok(tgt, pl),
                n == tgt.len(),
                n <= u32::MAX,
                1 <= lev <= 256,
                level == lev - 1,
                i <= n,
                areas@.len() == n,
                forall|c: int| 0 <= c < n ==> (#[trigger] areas@[c]) as nat == 1 + handled_sum(tgt, pl, c, level as int, i as int, n as int),
                forall|c: int| 0 <= c < n ==> #[trigger] areas@[c] >= 1,
                pending_sum(areas@, pl, level as int, i as int, n as int) <= n,
            decreases n - i,
        {
            if map.path_length[i] == level {
                let t = map.target_idx[i];
                let ghost a0 = areas@;
                proof {
                    // Every cell draining into `i` lies farther out, hence is handled.
                    lemma_handled_all_upstream(tgt, pl, i as int, level as int, i as int, n as int);
                    assert(a0[i as int] as nat == drain_area(tgt, pl, i as int));
                    assert forall|c: int| 0 <= c < n implies #[trigger] handled_sum(tgt, pl, c, level as int, i + 1, n as int)
                        == handled_sum(tgt, pl, c, level as int, i as int, n as int) + (if tgt[i as int] == c && i != c {
                        drain_area(tgt, pl, i as int)
                    } else {
                        0
                    }) by {
                        lemma_handled_step(tgt, pl, c, level as int, i as int, n as int);
                    }
                }
                if t != i {
                    proof {
                        assert(pl[t as int] < pl[i as int]);
                        lemma_pending_pair(a0, pl, level as int, i as int, n as int, i as int, t as int);
                    }
                    let v = areas[t] + areas[i];
                    areas.set(t, v);
                    proof {
                        lemma_pending_move(a0, areas@, pl, level as int, i as int, t as int, n as int);
                    }
                } else {
                    proof {
                        lemma_pending_move(a0, areas@, pl, level as int, i as int, t as int, n as int);
                    }
                }
            } else {
                proof {
                    assert forall|c: int| 0 <= c < n implies #[trigger] handled_sum(tgt, pl, c, level as int, i + 1, n as int)
                        == handled_sum(tgt, pl, c, level as int, i as int, n as int) by {
                        lemma_handled_step(tgt, pl, c, level as int, i as int, n as int);
                    }
                    assert forall|x: int| 0 <= x < pl.len() implies handled(pl, level as int, i as int, x) == handled(
                        pl,
                        level as int,
                        i + 1,
                        x,
                    ) by {}
                    lemma_pending_same(areas@, pl, level as int, i as int, level as int, i + 1, n as int);
                }
            }
            i = i + 1;
        }
        proof {
            assert forall|x: int| 0 <= x < pl.len() implies handled(pl, level as int, n as int, x) == handled(
                pl,
                level - 1,
                0,
                x,
            ) by {}
            assert forall|c: int| 0 <= c < n implies #[trigger] handled_sum(tgt, pl, c, level as int, n as int, n as int)
                == handled_sum(tgt, pl, c, level - 1, 0, n as int) by {
                lemma_handled_same(tgt, pl, c, level as int, n as int, level - 1, 0, n as int);
            }
            lemma_pending_same(areas@, pl, level as int, n as int, level - 1, 0, n as int);
        }
        lev = lev - 1;
    }
    proof {
        assert forall|c: int| 0 <= c < areas@.len() implies #[trigger] areas@[c] as nat == drain_area(tgt, pl, c) by {
            lemma_handled_all_upstream(tgt, pl, c, -1, 0, n as int);
        }
    }
    areas
}

proof fn lemma_zero_sum(tgt: Seq<usize>, pl: Seq<u8>, c: int, k: int)
    ensures
        handled_sum(tgt, pl, c, 255, 0, k) == 0,
    decreases k,
{
    if k > 0 {
        lemma_zero_sum(tgt, pl, c, k - 1);
    }
}

proof fn lemma_pending_ones(a: Seq<u32>, pl: Seq<u8>, k: int)
    requires
        0 <= k <= a.len(),
        forall|i: int| 0 <= i < a.len() ==> a[i] == 1,
    ensures
        pending_sum(a, pl, 255, 0, k) == k,
    decreases k,
{
    if k > 0 {
        lemma_pending_ones(a, pl, k - 1);
    }
}

proof fn lemma_upstream_includes(tgt: Seq<usize>, pl: Seq<u8>, t: int, c: int, k: int)
    requires
        routing_ok(tgt, pl),
        0 <= c < k <= tgt.len(),
        tgt[c] == t,
        c != t,
    ensures
        upstream_sum(tgt, pl, t, k) >= drain_area(tgt, pl, c),
    decreases k,
{
    if k - 1 != c {
        lemma_upstream_includes(tgt, pl, t, c, k - 1);
    }
}

/// Drainage areas accumulate transitively: every cell counts at least
/// itself, and a cell's target drains strictly more than the cell (it
/// collects the cell's whole area plus its own cell).
pub proof fn law_area_grows_downstream(tgt: Seq<usize>, pl: Seq<u8>, c: int)
    requires
        routing_ok(tgt, pl),
        0 <= c < tgt.len(),
    ensures
        drain_area(tgt, pl, c) >= 1,
        tgt[c] != c ==> drain_area(tgt, pl, tgt[c] as int) > drain_area(tgt, pl, c),
{
    if tgt[c] != c {
        lemma_upstream_includes(tgt, pl, tgt[c] as int, c, tgt.len() as int);
    }
}

} // verus!
