//! Land-mass topology on a periodic (torus) grid: circular extents of a
//! mass's occupancy, union-find, and periodic 4-connected components of
//! a land mask.

use vstd::prelude::*;

verus! {

/// Position `p` (`0 <= p < 2n`) folded onto a ring of `n` slots.
pub open spec fn fold(p: int, n: int) -> int {
    if p < n {
        p
    } else {
        p - n
    }
}

/// `len` consecutive slots starting at `start` (wrapping once) are empty.
pub open spec fn empty_run(occ: Seq<bool>, start: int, len: int) -> bool {
    let n = occ.len() as int;
    &&& 0 <= start < n
    &&& 0 <= len <= n
    &&& forall|t: int| 0 <= t < len ==> !occ[#[trigger] fold(start + t, n)]
}

/// Number of occupied slots.
pub open spec fn occupied_count(occ: Seq<bool>) -> nat
    decreases occ.len(),
{
    if occ.len() == 0 {
        0
    } else {
        occupied_count(occ.drop_last()) + (if occ.last() {
            1nat
        } else {
            0nat
        })
    }
}

/// Empty slots in a row ending at scan position `i - 1`, the scan running
/// over positions `0 .. 2n` of the doubled ring.
spec fn trailing_empty(occ: Seq<bool>, i: int) -> int
    decreases i,
{
    if i <= 0 {
        0
    } else if occ[fold(i - 1, occ.len() as int)] {
        0
    } else {
        trailing_empty(occ, i - 1) + 1
    }
}

proof fn lemma_trailing(occ: Seq<bool>, i: int)
    requires
        0 <= i <= 2 * occ.len(),
    ensures
        0 <= trailing_empty(occ, i) <= i,
        forall|t: int| i - trailing_empty(occ, i) <= t < i ==> !occ[#[trigger] fold(t, occ.len() as int)],
        i - trailing_empty(occ, i) > 0 ==> occ[fold(i - trailing_empty(occ, i) - 1, occ.len() as int)],
    decreases i,
{
    if i > 0 {
        lemma_trailing(occ, i - 1);
    }
}

/// A run of empty positions inside the scan window ends no later than its
/// trailing run allows.
proof fn lemma_run_bounded_by_trailing(occ: Seq<bool>, a: int, i: int)
    requires
        0 <= a <= i <= 2 * occ.len(),
        forall|t: int| a <= t < i ==> !occ[#[trigger] fold(t, occ.len() as int)],
    ensures
        i - a <= trailing_empty(occ, i),
    decreases i,
{
    lemma_trailing(occ, i);
    if i > a {
        lemma_run_bounded_by_trailing(occ, a, i - 1);
        assert(!occ[fold(i - 1, occ.len() as int)]);
        assert(trailing_empty(occ, i) == trailing_empty(occ, i - 1) + 1);
    }
}

proof fn lemma_count_le(occ: Seq<bool>)
    ensures
        occupied_count(occ) <= occ.len(),
    decreases occ.len(),
{
    if occ.len() > 0 {
        lemma_count_le(occ.drop_last());
    }
}

/// Some slot is occupied exactly when the count is positive; every slot is
/// occupied exactly when the count is the length.
proof fn lemma_count_extremes(occ: Seq<bool>)
    ensures
        occupied_count(occ) == 0 <==> forall|k: int| 0 <= k < occ.len() ==> !#[trigger] occ[k],
        occupied_count(occ) == occ.len() <==> forall|k: int| 0 <= k < occ.len() ==> #[trigger] occ[k],
    decreases occ.len(),
{
    if occ.len() > 0 {
        let d = occ.drop_last();
        lemma_count_extremes(d);
        lemma_count_le(d);
        assert forall|k: int| 0 <= k < d.len() implies d[k] == occ[k] by {}
        if occupied_count(occ) == occ.len() {
            assert forall|k: int| 0 <= k < occ.len() implies #[trigger] occ[k] by {
                if k < d.len() {
                    assert(d[k]);
                }
            }
        }
        if forall|k: int| 0 <= k < occ.len() ==> #[trigger] occ[k] {
            assert forall|k: int| 0 <= k < d.len() implies #[trigger] d[k] by {
                assert(occ[k]);
            }
        }
        if forall|k: int| 0 <= k < occ.len() ==> !#[trigger] occ[k] {
            assert forall|k: int| 0 <= k < d.len() implies !#[trigger] d[k] by {
                assert(!occ[k]);
            }
        }
        if occupied_count(occ) == 0 {
            assert forall|k: int| 0 <= k < occ.len() implies !#[trigger] occ[k] by {
                if k < d.len() {
                    assert(!d[k]);
                }
            }
        }
    }
}

/// Number of occupied slots of a slice.
pub fn count_occupied(occ: &[bool]) -> (c: usize)
    ensures
        c == occupied_count(occ@),
{
    let n = occ.len();
    let mut c: usize = 0;
    let mut k: usize = 0;
    while k < n
        invariant
            n == occ@.len(),
            k <= n,
            c == occupied_count(occ@.subrange(0, k as int)),
            c <= k,
        decreases n - k,
    {
        proof {
            assert(occ@.subrange(0, k + 1).drop_last() =~= occ@.subrange(0, k as int));
        }
        if occ[k] {
            c = c + 1;
        }
        k = k + 1;
    }
    assert(occ@.subrange(0, n as int) =~= occ@);
    c
}

/// Scan positions `a .. b` of the doubled ring (positions `0 .. 2n`, the
/// ring walked twice from slot 0) are all empty.
pub open spec fn linear_empty(o: Seq<bool>, a: int, b: int) -> bool {
    forall|t: int| a <= t < b ==> !o[#[trigger] fold(t, o.len() as int)]
}

/// `x mod n` for `0 <= x <= 2n`.
pub open spec fn fold2(x: int, n: int) -> int {
    if x < n {
        x
    } else if x < 2 * n {
        x - n
    } else {
        0
    }
}

/// With an occupied slot, no empty scan run reaches length `n`.
proof fn lemma_short_runs(o: Seq<bool>, a: int, b: int, k: int)
    requires
        0 <= a <= b <= 2 * o.len(),
        0 <= k < o.len(),
        o[k],
        linear_empty(o, a, b),
    ensures
        b - a < o.len(),
{
    let n = o.len() as int;
    if b - a >= n {
        let t = if a < n {
            if k >= a {
                k
            } else {
                k + n
            }
        } else {
            k + n
        };
        assert(a <= t < b);
        assert(fold(t, n) == k);
    }
}

/// The result `(band, extent, unroll)` describes the occupancy `occ`:
/// no occupied slot gives `(false, 0, 0)`; a full ring gives
/// `(true, n, 0)`; otherwise `extent` is `n` minus the longest circular run
/// of empty slots, and `unroll` is the (occupied) slot right after one such
/// longest run: the first one completed by a scan of the ring walked twice
/// from slot 0.
pub open spec fn circular_extent_holds(occ: Seq<bool>, r: (bool, usize, usize)) -> bool {
    &&& occupied_count(occ) == 0 ==> r == (false, 0usize, 0usize)
    &&& occupied_count(occ) == occ.len() && occ.len() > 0 ==> r == (true, occ.len() as usize, 0usize)
    &&& 0 < occupied_count(occ) < occ.len() ==> {
        let n = occ.len() as int;
        let gap = n - r.1;
        &&& !r.0
        &&& 1 <= r.1 < n
        &&& r.2 < n
        &&& occ[r.2 as int]
        &&& exists|s: int| #[trigger] empty_run(occ, s, gap) && fold(s + gap, n) == r.2
        &&& forall|s: int, len: int| #[trigger] empty_run(occ, s, len) ==> len <= gap
        &&& exists|a: int|
            0 <= a && a + gap <= 2 * n && #[trigger] linear_empty(occ, a, a + gap) && r.2 == fold2(a + gap, n)
                && forall|a2: int| 0 <= a2 < a ==> !#[trigger] linear_empty(occ, a2, a2 + gap)
    }
}

/// A described extent and unroll origin lie within the ring.
pub proof fn lemma_extent_in_range(occ: Seq<bool>, r: (bool, usize, usize))
    requires
        occ.len() > 0,
        circular_extent_holds(occ, r),
    ensures
        r.1 <= occ.len(),
        r.2 < occ.len(),
{
    lemma_count_le(occ);
}

/// Circular extent of a 1-D occupancy on a ring of `n = occ.len()` slots:
/// `(band, extent, unroll)`. `band` holds when every slot is occupied;
/// otherwise `extent` is `n` minus the longest circular run of empty slots
/// and `unroll` is the slot just after such a longest run (the start of
/// the tightest arc covering the occupied slots). No occupied slot gives
/// `(false, 0, 0)`; a full ring gives `(true, n, 0)`.
pub fn circular_extent(occ: &[bool]) -> (r: (bool, usize, usize))
    requires
        2 * occ@.len() <= usize::MAX,
    ensures
        circular_extent_holds(occ@, r),
{
    let n = occ.len();
    let count = count_occupied(occ);
    if count == 0 {
        return (false, 0, 0);
    }
    if count == n {
        return (true, n, 0);
    }
    proof {
        lemma_count_le(occ@);
        lemma_count_extremes(occ@);
    }
    let ghost o = occ@;
    let ghost kocc = choose|k: int| 0 <= k < n && #[trigger] o[k];
    let ghost kemp = choose|k: int| 0 <= k < n && !#[trigger] o[k];
    let mut best_gap: usize = 0;
    let mut best_end: usize = 0;
    let mut cur: usize = 0;
    let mut i: usize = 0;
    while i < 2 * n
        invariant
            o == occ@,
            n == o.len(),
            2 * n <= usize::MAX,
            0 < occupied_count(o) < n,
            0 <= kocc < n,
            o[kocc],
            0 <= kemp < n,
            !o[kemp],
            i <= 2 * n,
            cur == trailing_empty(o, i as int),
            cur < n,
            best_gap < n,
            best_end < n,
            forall|a: int, b: int| 0 <= a <= b <= i && #[trigger] linear_empty(o, a, b) ==> b - a <= best_gap,
            best_gap > 0 ==> exists|a: int|
                0 <= a && a + best_gap <= i && #[trigger] linear_empty(o, a, a + best_gap) && best_end == fold2(
                    a + best_gap,
                    n as int,
                ) && forall|a2: int| 0 <= a2 < a ==> !#[trigger] linear_empty(o, a2, a2 + best_gap),
        decreases 2 * n - i,
    {
        let p = if i < n {
            i
        } else {
            i - n
        };
        proof {
            lemma_trailing(o, i as int);
            lemma_trailing(o, i + 1);
        }
        let ghost gap0 = best_gap;
        if !occ[p] {
            cur = cur + 1;
            proof {
                assert(linear_empty(o, i + 1 - cur, i + 1));
                lemma_short_runs(o, i + 1 - cur, i + 1, kocc);
            }
            if cur > best_gap && cur <= n {
                best_gap = cur;
                best_end = if i + 1 < n {
                    i + 1
                } else if i + 1 < 2 * n {
                    i + 1 - n
                } else {
                    0
                };
                proof {
                    assert(linear_empty(o, i + 1 - cur, (i + 1 - cur) + best_gap));
                    assert forall|a2: int| 0 <= a2 < i + 1 - cur implies !#[trigger] linear_empty(o, a2, a2 + best_gap) by {
                        if linear_empty(o, a2, a2 + best_gap) {
                            assert(a2 + best_gap <= i);
                            assert(linear_empty(o, a2, a2 + cur));
                        }
                    }
                }
            }
        } else {
            cur = 0;
        }
        proof {
            assert forall|a: int, b: int| 0 <= a <= b <= i + 1 && #[trigger] linear_empty(o, a, b) implies b - a
                <= best_gap by {
                if b == i + 1 && a < b {
                    assert(!o[fold(i as int, n as int)]);
                    lemma_run_bounded_by_trailing(o, a, i + 1);
                }
            }
        }
        i = i + 1;
    }
    proof {
        assert(linear_empty(o, kemp, kemp + 1));
        assert(best_gap >= 1);
        let a = choose|a: int|
            0 <= a && a + best_gap <= 2 * n && #[trigger] linear_empty(o, a, a + best_gap) && best_end == fold2(
                a + best_gap,
                n as int,
            ) && forall|a2: int| 0 <= a2 < a ==> !#[trigger] linear_empty(o, a2, a2 + best_gap);
        let gap = best_gap as int;
        let s0 = if a < n { a } else { a - n };
        assert(empty_run(o, s0, gap)) by {
            assert forall|t: int| 0 <= t < gap implies !o[#[trigger] fold(s0 + t, n as int)] by {
                assert(!o[fold(a + t, n as int)]);
            }
        }
        assert(fold(s0 + gap, n as int) == best_end);
        let r1 = (n - best_gap) as usize;
        assert(n as int - r1 as int == gap);
        assert(empty_run(o, s0, n as int - r1 as int));
        assert(fold(s0 + (n as int - r1 as int), n as int) == best_end);
        assert forall|s: int, len: int| #[trigger] empty_run(o, s, len) implies len <= gap by {
            assert forall|t: int| s <= t < s + len implies !o[#[trigger] fold(t, o.len() as int)] by {
                assert(!o[fold(s + (t - s), n as int)]);
            }
            assert(linear_empty(o, s, s + len));
        }
        // The slot after a longest gap is occupied, else the gap would extend.
        if !o[best_end as int] {
            assert(empty_run(o, s0, gap + 1)) by {
                assert forall|t: int| 0 <= t < gap + 1 implies !o[#[trigger] fold(s0 + t, n as int)] by {
                    if t < gap {
                        assert(!o[fold(s0 + t, n as int)]);
                    } else {
                        assert(fold(s0 + t, n as int) == best_end);
                    }
                }
            }
        }
    }
    (false, n - best_gap, best_end)
}


/// Circular extent of a mass from its per-axis occupancy.
#[derive(Clone, Copy, Debug)]
pub struct MassExtent {
    pub band_x: bool,
    pub band_y: bool,
    pub straddles_x: bool,
    pub straddles_y: bool,
    pub extent_x: usize,
    pub extent_y: usize,
    pub roll_x: usize,
    pub roll_y: usize,
    pub center_x: usize,
    pub center_y: usize,
}

/// Per-axis circular extents of a mass occupying the columns `occ_x` and
/// rows `occ_y`: band flags, seam-straddle flags (finite mass touching both
/// edges of an axis), extents, unroll origins, and the torus centre (middle
/// of the covering arc).
pub fn mass_extent(occ_x: &[bool], occ_y: &[bool]) -> (m: MassExtent)
    requires
        occ_x@.len() > 0,
        occ_y@.len() > 0,
        2 * occ_x@.len() <= usize::MAX,
        2 * occ_y@.len() <= usize::MAX,
    ensures
        circular_extent_holds(occ_x@, (m.band_x, m.extent_x, m.roll_x)),
        circular_extent_holds(occ_y@, (m.band_y, m.extent_y, m.roll_y)),
        m.straddles_x == (!m.band_x && occ_x@[0] && occ_x@.last()),
        m.straddles_y == (!m.band_y && occ_y@[0] && occ_y@.last()),
        m.center_x as int == (m.roll_x + m.extent_x / 2) % (occ_x@.len() as int),
        m.center_y as int == (m.roll_y + m.extent_y / 2) % (occ_y@.len() as int),
{
    let w = occ_x.len();
    let h = occ_y.len();
    let (band_x, extent_x, roll_x) = circular_extent(occ_x);
    let (band_y, extent_y, roll_y) = circular_extent(occ_y);
    proof {
        lemma_count_le(occ_x@);
        lemma_count_le(occ_y@);
        assert(roll_x <= w && extent_x <= w);
        assert(roll_y <= h && extent_y <= h);
    }
    MassExtent {
        band_x,
        band_y,
        straddles_x: !band_x && occ_x[0] && occ_x[w - 1],
        straddles_y: !band_y && occ_y[0] && occ_y[h - 1],
        extent_x,
        extent_y,
        roll_x,
        roll_y,
        center_x: (roll_x + extent_x / 2) % w,
        center_y: (roll_y + extent_y / 2) % h,
    }
}

/// `occ` rotated by `sh` slots: slot `t` shows slot `(t + sh) mod n`.
pub open spec fn rotated(occ: Seq<bool>, sh: int) -> Seq<bool> {
    Seq::new(occ.len(), |t: int| occ[(t + sh) % (occ.len() as int)])
}

proof fn lemma_fold_mod(p: int, n: int)
    requires
        0 < n,
        0 <= p < 2 * n,
    ensures
        fold(p, n) == p % n,
{
    if p < n {
        vstd::arithmetic::div_mod::lemma_small_mod(p as nat, n as nat);
    } else {
        vstd::arithmetic::div_mod::lemma_mod_add_multiples_vanish(p - n, n);
        vstd::arithmetic::div_mod::lemma_small_mod((p - n) as nat, n as nat);
    }
}

/// Slot `fold(s + t)` of the rotation shows slot `(s + t + sh) mod n`.
proof fn lemma_rotated_slot(occ: Seq<bool>, sh: int, s: int, t: int)
    requires
        occ.len() > 0,
        0 <= sh < occ.len(),
        0 <= s < occ.len(),
        0 <= t <= occ.len(),
    ensures
        rotated(occ, sh)[fold(s + t, occ.len() as int)] == occ[(s + t + sh) % (occ.len() as int)],
{
    let n = occ.len() as int;
    lemma_fold_mod(s + t, n);
    vstd::arithmetic::div_mod::lemma_add_mod_noop(s + t, sh, n);
    vstd::arithmetic::div_mod::lemma_small_mod(sh as nat, n as nat);
    vstd::arithmetic::div_mod::lemma_mod_bound(s + t, n);
}

proof fn lemma_rotated_run(occ: Seq<bool>, sh: int, s: int, len: int)
    requires
        occ.len() > 0,
        0 <= sh < occ.len(),
        empty_run(rotated(occ, sh), s, len),
    ensures
        empty_run(occ, (s + sh) % (occ.len() as int), len),
{
    let n = occ.len() as int;
    let s2 = (s + sh) % n;
    vstd::arithmetic::div_mod::lemma_mod_bound(s + sh, n);
    assert forall|t: int| 0 <= t < len implies !occ[#[trigger] fold(s2 + t, n)] by {
        lemma_rotated_slot(occ, sh, s, t);
        assert(!rotated(occ, sh)[fold(s + t, n)]);
        lemma_fold_mod(s2 + t, n);
        vstd::arithmetic::div_mod::lemma_add_mod_noop(s + sh, t, n);
        vstd::arithmetic::div_mod::lemma_small_mod(t as nat, n as nat);
    }
}

proof fn lemma_unrotated_run(occ: Seq<bool>, sh: int, s: int, len: int)
    requires
        occ.len() > 0,
        0 <= sh < occ.len(),
        empty_run(occ, s, len),
    ensures
        empty_run(rotated(occ, sh), (s + occ.len() - sh) % (occ.len() as int), len),
{
    let n = occ.len() as int;
    let s3 = (s + n - sh) % n;
    vstd::arithmetic::div_mod::lemma_mod_bound(s + n - sh, n);
    assert forall|t: int| 0 <= t < len implies !rotated(occ, sh)[#[trigger] fold(s3 + t, n)] by {
        lemma_rotated_slot(occ, sh, s3, t);
        assert(!occ[fold(s + t, n)]);
        vstd::arithmetic::div_mod::lemma_add_mod_noop_right(t + sh, s + n - sh, n);
        vstd::arithmetic::div_mod::lemma_mod_add_multiples_vanish(s + t, n);
        lemma_fold_mod(s + t, n);
    }
}

/// Slot `(k - sh) mod n` of the rotation shows slot `k`.
proof fn lemma_rotated_preimage(occ: Seq<bool>, sh: int, k: int)
    requires
        occ.len() > 0,
        0 <= sh < occ.len(),
        0 <= k < occ.len(),
    ensures
        0 <= (k + occ.len() - sh) % (occ.len() as int) < occ.len(),
        rotated(occ, sh)[(k + occ.len() - sh) % (occ.len() as int)] == occ[k],
{
    let n = occ.len() as int;
    let t = (k + n - sh) % n;
    vstd::arithmetic::div_mod::lemma_mod_bound(k + n - sh, n);
    vstd::arithmetic::div_mod::lemma_add_mod_noop_right(sh, k + n - sh, n);
    vstd::arithmetic::div_mod::lemma_mod_add_multiples_vanish(k, n);
    vstd::arithmetic::div_mod::lemma_small_mod(k as nat, n as nat);
}

/// Slot `t` of the rotation shows slot `(t + sh) mod n`.
proof fn lemma_rotated_image(occ: Seq<bool>, sh: int, t: int)
    requires
        occ.len() > 0,
        0 <= sh < occ.len(),
        0 <= t < occ.len(),
    ensures
        0 <= (t + sh) % (occ.len() as int) < occ.len(),
        rotated(occ, sh)[t] == occ[(t + sh) % (occ.len() as int)],
{
    vstd::arithmetic::div_mod::lemma_mod_bound(t + sh, occ.len() as int);
}

/// The circular extent of a mass does not depend on where the seam falls:
/// rotating the occupancy (the same mass placed across the seam or in the
/// middle of the domain) keeps the band flag and the extent.
pub proof fn law_extent_rotation_invariant(occ: Seq<bool>, sh: int, r1: (bool, usize, usize), r2: (bool, usize, usize))
    requires
        occ.len() > 0,
        0 <= sh < occ.len(),
        circular_extent_holds(occ, r1),
        circular_extent_holds(rotated(occ, sh), r2),
    ensures
        r1.0 == r2.0,
        r1.1 == r2.1,
{
    let n = occ.len() as int;
    let rot = rotated(occ, sh);
    lemma_count_extremes(occ);
    lemma_count_extremes(rot);
    lemma_count_le(occ);
    lemma_count_le(rot);
    if occupied_count(occ) == 0 {
        assert forall|t: int| 0 <= t < n implies !#[trigger] rot[t] by {
            lemma_rotated_image(occ, sh, t);
        }
    } else if occupied_count(occ) == n {
        assert forall|t: int| 0 <= t < n implies #[trigger] rot[t] by {
            lemma_rotated_image(occ, sh, t);
        }
    } else {
        let ke = choose|k: int| 0 <= k < n && !#[trigger] occ[k];
        let kf = choose|k: int| 0 <= k < n && #[trigger] occ[k];
        lemma_rotated_preimage(occ, sh, ke);
        lemma_rotated_preimage(occ, sh, kf);
        assert(!rot[(ke + n - sh) % n]);
        assert(rot[(kf + n - sh) % n]);
        let g1 = n - r1.1;
        let g2 = n - r2.1;
        let s1 = choose|s: int| #[trigger] empty_run(occ, s, g1) && fold(s + g1, n) == r1.2;
        let s2 = choose|s: int| #[trigger] empty_run(rot, s, g2) && fold(s + g2, n) == r2.2;
        lemma_unrotated_run(occ, sh, s1, g1);
        lemma_rotated_run(occ, sh, s2, g2);
        assert(empty_run(rot, (s1 + n - sh) % n, g1));
        assert(empty_run(occ, (s2 + sh) % n, g2));
    }
}

} // verus!
