//! Integer plate-id operations used by the accretion merge and the rifting
//! split events: pair selection, loser reassignment, distinct-id count and
//! rift-strip extraction.

use vstd::prelude::*;

use crate::grid::{flat, lemma_flat_in_bounds, lemma_flat_injective, wrap_next, wrap_prev, PlateIdField, PlateType, PlateTypeField};
use crate::pair_map::{keys_sorted, pair_lt, PairMap};
use crate::plate_pairs::neighbour;

verus! {

/// Per-step accretion diagnostics.
#[derive(Clone, Copy, Debug)]
pub struct AccretionStats {
    /// Number of plate-pair merges that fired this step.
    pub merges_count: usize,
    /// Distinct plate ids remaining after this step's merges (`0` when the
    /// closure is disabled — a placeholder, not the true count).
    pub plates_remaining: usize,
}

impl AccretionStats {
    /// All-zero statistics.
    pub fn zero() -> (s: Self)
        ensures
            s.merges_count == 0,
            s.plates_remaining == 0,
    {
        AccretionStats { merges_count: 0, plates_remaining: 0 }
    }
}

impl Default for AccretionStats {
    fn default() -> (s: Self)
        ensures
            s.merges_count == 0,
            s.plates_remaining == 0,
    {
        AccretionStats::zero()
    }
}

/// Strategy for combining the merged plates' velocities.
#[derive(Clone, Copy, Debug, PartialEq, Eq, Structural)]
pub enum VelocityMergeMethod {
    /// `v_new = (m_a · v_a + m_b · v_b) / (m_a + m_b)`, `m_p = Σ S̃` over plate `p`.
    MassWeightedAverage,
}

/// Tunables of the accretion mechanism.
#[derive(Clone, Copy, Debug)]
pub struct AccretionParams {
    /// Master switch; when `false` the accretion step is a no-op.
    pub enabled: bool,
    /// Consecutive convergent steps required before a pair merges.
    pub merge_time_threshold: usize,
    /// How the merged velocities combine.
    pub velocity_merge_method: VelocityMergeMethod,
}

impl Default for AccretionParams {
    fn default() -> (p: Self)
        ensures
            p.enabled,
            p.merge_time_threshold == 50,
            p.velocity_merge_method == VelocityMergeMethod::MassWeightedAverage,
    {
        AccretionParams {
            enabled: true,
            merge_time_threshold: 50,
            velocity_merge_method: VelocityMergeMethod::MassWeightedAverage,
        }
    }
}

/// Per-step rifting-split diagnostics.
#[derive(Clone, Debug)]
pub struct RiftingSplitStats {
    /// Number of split events that fired this step.
    pub splits_count: usize,
    /// Plate ids allocated for the new rift plates, in fire order.
    pub new_plate_ids_created: Vec<u16>,
    /// Cells whose age was reset to 0.
    pub age_zeroed_cells: usize,
}

impl RiftingSplitStats {
    /// No split, no id, no cell.
    pub fn zero() -> (s: Self)
        ensures
            s.splits_count == 0,
            s.new_plate_ids_created@.len() == 0,
            s.age_zeroed_cells == 0,
    {
        RiftingSplitStats { splits_count: 0, new_plate_ids_created: Vec::new(), age_zeroed_cells: 0 }
    }
}

impl Default for RiftingSplitStats {
    fn default() -> (s: Self)
        ensures
            s.splits_count == 0,
            s.new_plate_ids_created@.len() == 0,
            s.age_zeroed_cells == 0,
    {
        RiftingSplitStats::zero()
    }
}

/// Pairs whose counter has reached `threshold`, in increasing
/// (lexicographic) order.
pub fn pairs_at_threshold(counts: &PairMap<usize>, threshold: usize) -> (r: Vec<(u16, u16)>)
    ensures
        forall|a: int, b: int| 0 <= a < b < r@.len() ==> pair_lt(#[trigger] r@[a], #[trigger] r@[b]),
        forall|p: (u16, u16)|
            r@.contains(p) <==> (counts@.dom().contains(p) && counts@[p] >= threshold),
{
    counts.reveal_order();
    let n = counts.len();
    let mut r: Vec<(u16, u16)> = Vec::new();
    let mut idx: usize = 0;
    while idx < n
        invariant
            n == counts.entry_seq().len(),
            idx <= n,
            keys_sorted(counts.entry_seq()),
            forall|k: int|
                0 <= k < counts.entry_seq().len() ==> counts@.dom().contains(#[trigger] counts.entry_seq()[k].0)
                    && counts@[counts.entry_seq()[k].0] == counts.entry_seq()[k].1,
            forall|a: int, b: int| 0 <= a < b < r@.len() ==> pair_lt(#[trigger] r@[a], #[trigger] r@[b]),
            forall|a: int| #![trigger r@[a]] 0 <= a < r@.len() ==> exists|k: int|
                0 <= k < idx && #[trigger] counts.entry_seq()[k].0 == r@[a],
            forall|p: (u16, u16)|
                r@.contains(p) <==> (exists|k: int|
                    0 <= k < idx && #[trigger] counts.entry_seq()[k].0 == p && counts.entry_seq()[k].1 >= threshold),
        decreases n - idx,
    {
        let (p, c) = counts.entry(idx);
        let ghost r0 = r@;
        if c >= threshold {
            r.push(p);
            proof {
                assert forall|a: int, b: int| 0 <= a < b < r@.len() implies pair_lt(
                    #[trigger] r@[a],
                    #[trigger] r@[b],
                ) by {
                    if b == r@.len() - 1 {
                        let k = choose|k: int| 0 <= k < idx && #[trigger] counts.entry_seq()[k].0 == r@[a];
                        assert(pair_lt(counts.entry_seq()[k].0, counts.entry_seq()[idx as int].0));
                    }
                }
                assert forall|a: int| 0 <= a < r@.len() implies exists|k: int|
                    0 <= k < idx + 1 && #[trigger] counts.entry_seq()[k].0 == #[trigger] r@[a] by {
                    if a == r@.len() - 1 {
                        assert(counts.entry_seq()[idx as int].0 == r@[a]);
                    } else {
                        assert(r@[a] == r0[a]);
                    }
                }
            }
        }
        proof {
            assert forall|pp: (u16, u16)|
                r@.contains(pp) <==> (exists|k: int|
                    0 <= k < idx + 1 && #[trigger] counts.entry_seq()[k].0 == pp && counts.entry_seq()[k].1
                        >= threshold) by {
                if r@.contains(pp) {
                    let a = choose|a: int| 0 <= a < r@.len() && r@[a] == pp;
                    if a < r0.len() {
                        assert(r0[a] == pp);
                        assert(r0.contains(pp));
                    } else {
                        assert(counts.entry_seq()[idx as int].0 == pp);
                    }
                }
                if exists|k: int|
                    0 <= k < idx + 1 && #[trigger] counts.entry_seq()[k].0 == pp && counts.entry_seq()[k].1
                        >= threshold {
                    let k = choose|k: int|
                        0 <= k < idx + 1 && #[trigger] counts.entry_seq()[k].0 == pp && counts.entry_seq()[k].1
                            >= threshold;
                    if k < idx {
                        assert(r0.contains(pp));
                        let a = choose|a: int| 0 <= a < r0.len() && r0[a] == pp;
                        assert(r@[a] == pp);
                    } else {
                        assert(r@[r@.len() - 1] == pp);
                    }
                }
            }
        }
        idx = idx + 1;
    }
    proof {
        assert forall|p: (u16, u16)|
            r@.contains(p) <==> (counts@.dom().contains(p) && counts@[p] >= threshold) by {
            if counts@.dom().contains(p) {
                counts.lemma_key_listed(p);
            }
        }
    }
    r
}

/// Reassign every cell of plate `loser` to plate `winner`; all other cells
/// are unchanged.
pub fn reassign_plate(plate_id: &mut PlateIdField, loser: u16, winner: u16)
    requires
        old(plate_id).wf(),
    ensures
        final(plate_id).wf(),
        final(plate_id).width() == old(plate_id).width(),
        final(plate_id).height() == old(plate_id).height(),
        final(plate_id)@ == old(plate_id)@.map_values(|x: u16| if x == loser { winner } else { x }),
{
    let n = plate_id.data().len();
    let ghost s0 = plate_id@;
    let mut k: usize = 0;
    while k < n
        invariant
            plate_id.wf(),
            plate_id.width() == old(plate_id).width(),
            plate_id.height() == old(plate_id).height(),
            n == s0.len(),
            plate_id@.len() == n,
            s0 == old(plate_id)@,
            k <= n,
            forall|t: int| 0 <= t < k ==> #[trigger] plate_id@[t] == (if s0[t] == loser { winner } else { s0[t] }),
            forall|t: int| k <= t < n ==> #[trigger] plate_id@[t] == s0[t],
        decreases n - k,
    {
        if plate_id.get_flat(k) == loser {
            plate_id.set_flat(k, winner);
        }
        k = k + 1;
    }
    assert(plate_id@ =~= s0.map_values(|x: u16| if x == loser { winner } else { x }));
}

/// Number of distinct plate ids present in `plate_id`.
pub fn count_distinct_plates(plate_id: &PlateIdField) -> (r: usize)
    ensures
        r == plate_id@.to_set().len(),
{
    let data = plate_id.data();
    let n = data.len();
    let mut seen: Vec<bool> = vec![false; 65536];
    let mut ids: Vec<u16> = Vec::new();
    let mut k: usize = 0;
    while k < n
        invariant
            n == data@.len(),
            data@ == plate_id@,
            seen@.len() == 65536,
            k <= n,
            ids@.no_duplicates(),
            forall|v: u16| #[trigger] seen@[v as int] <==> ids@.contains(v),
            forall|v: u16| ids@.contains(v) <==> exists|t: int| 0 <= t < k && #[trigger] data@[t] == v,
        decreases n - k,
    {
        let v = data[k];
        let ghost ids0 = ids@;
        if !seen[v as usize] {
            seen.set(v as usize, true);
            ids.push(v);
            proof {
                assert forall|a: int, b: int| 0 <= a < b < ids@.len() implies ids@[a] != ids@[b] by {
                    if b == ids@.len() - 1 {
                        assert(ids0.contains(ids0[a]));
                    } else {
                        assert(ids0[a] != ids0[b]);
                    }
                }
                assert forall|w: u16| #[trigger] seen@[w as int] <==> ids@.contains(w) by {
                    if ids@.contains(w) && w != v {
                        let a = choose|a: int| 0 <= a < ids@.len() && ids@[a] == w;
                        assert(ids0[a] == w);
                    }
                    if ids0.contains(w) {
                        let a = choose|a: int| 0 <= a < ids0.len() && ids0[a] == w;
                        assert(ids@[a] == w);
                    }
                    if w == v {
                        assert(ids@[ids@.len() - 1] == w);
                    }
                }
            }
        }
        proof {
            assert forall|w: u16| ids@.contains(w) <==> exists|t: int| 0 <= t < k + 1 && #[trigger] data@[t] == w by {
                if w == v {
                    assert(data@[k as int] == w);
                    if ids@ == ids0 {
                        assert(seen@[v as int]);
                    } else {
                        assert(ids@[ids@.len() - 1] == w);
                    }
                }
                if ids@.contains(w) && w != v {
                    let a = choose|a: int| 0 <= a < ids@.len() && ids@[a] == w;
                    if a < ids0.len() {
                        assert(ids0[a] == w);
                        assert(ids0.contains(w));
                    }
                }
                if w != v && ids0.contains(w) {
                    let a = choose|a: int| 0 <= a < ids0.len() && ids0[a] == w;
                    assert(ids@[a] == w);
                }
                if w != v && exists|t: int| 0 <= t < k + 1 && #[trigger] data@[t] == w {
                    let t = choose|t: int| 0 <= t < k + 1 && #[trigger] data@[t] == w;
                    assert(t < k);
                }
            }
        }
        k = k + 1;
    }
    proof {
        ids@.unique_seq_to_set();
        assert(ids@.to_set() =~= plate_id@.to_set()) by {
            assert forall|v: u16| ids@.to_set().contains(v) <==> plate_id@.to_set().contains(v) by {
                if plate_id@.contains(v) {
                    let t = choose|t: int| 0 <= t < plate_id@.len() && plate_id@[t] == v;
                    assert(data@[t] == v);
                }
            }
        }
    }
    ids.len()
}

/// Cells of plate `a` that are continental and 4-adjacent (periodically)
/// to at least one cell of plate `b`.
pub open spec fn in_rift_strip(g: PlateIdField, t: PlateTypeField, a: u16, b: u16, i: int, j: int) -> bool {
    &&& g.at(i, j) == a
    &&& t.at(i, j) == PlateType::Continental
    &&& exists|d: int|
        0 <= d < 4 && g.at(
            #[trigger] neighbour(g.width() as int, g.height() as int, i, j, d).0,
            neighbour(g.width() as int, g.height() as int, i, j, d).1,
        ) == b
}

/// The rift strip of plate `a` facing plate `b`, listed in row-major order
/// (each cell once).
pub fn find_rift_strip(plate_id: &PlateIdField, plate_type: &PlateTypeField, a: u16, b: u16) -> (strip: Vec<
    (usize, usize),
>)
    requires
        plate_id.wf(),
        plate_type.wf(),
        plate_type.width() == plate_id.width(),
        plate_type.height() == plate_id.height(),
    ensures
        forall|x: int, y: int|
            0 <= x < y < strip@.len() ==> flat(plate_id.width() as int, strip@[x].0 as int, strip@[x].1 as int)
                < flat(plate_id.width() as int, strip@[y].0 as int, strip@[y].1 as int),
        forall|x: int|
            0 <= x < strip@.len() ==> (#[trigger] strip@[x]).0 < plate_id.width() && strip@[x].1
                < plate_id.height(),
        forall|i: int, j: int|
            0 <= i < plate_id.width() && 0 <= j < plate_id.height() ==> (strip@.contains(
                (i as usize, j as usize),
            ) <==> in_rift_strip(*plate_id, *plate_type, a, b, i, j)),
        forall|x: int|
            0 <= x < strip@.len() ==> plate_id.at(#[trigger] strip@[x].0 as int, strip@[x].1 as int) == a
                && plate_type.at(strip@[x].0 as int, strip@[x].1 as int) == PlateType::Continental,
{
    let w = plate_id.nx();
    let h = plate_id.ny();
    let mut strip: Vec<(usize, usize)> = Vec::new();
    let mut j: usize = 0;
    while j < h
        invariant
            plate_id.wf(),
            plate_type.wf(),
            plate_type.width() == w,
            plate_type.height() == h,
            w == plate_id.width(),
            h == plate_id.height(),
            j <= h,
            forall|x: int, y: int|
                0 <= x < y < strip@.len() ==> flat(w as int, strip@[x].0 as int, strip@[x].1 as int) < flat(
                    w as int,
                    strip@[y].0 as int,
                    strip@[y].1 as int,
                ),
            forall|x: int|
                0 <= x < strip@.len() ==> (#[trigger] strip@[x]).0 < w && strip@[x].1 < j,
            forall|ii: int, jj: int|
                0 <= ii < w && 0 <= jj < j ==> (strip@.contains((ii as usize, jj as usize)) <==> in_rift_strip(
                    *plate_id,
                    *plate_type,
                    a,
                    b,
                    ii,
                    jj,
                )),
        decreases h - j,
    {
        let mut i: usize = 0;
        while i < w
            invariant
                plate_id.wf(),
                plate_type.wf(),
                plate_type.width() == w,
                plate_type.height() == h,
                w == plate_id.width(),
                h == plate_id.height(),
                j < h,
                i <= w,
                forall|x: int, y: int|
                    0 <= x < y < strip@.len() ==> flat(w as int, strip@[x].0 as int, strip@[x].1 as int) < flat(
                        w as int,
                        strip@[y].0 as int,
                        strip@[y].1 as int,
                    ),
                forall|x: int|
                    0 <= x < strip@.len() ==> ((#[trigger] strip@[x]).0 < w && strip@[x].1 < j) || (strip@[x].1
                        == j && strip@[x].0 < i),
                forall|ii: int, jj: int|
                    0 <= ii < w && 0 <= jj < h && (jj < j || (jj == j && ii < i)) ==> (strip@.contains(
                        (ii as usize, jj as usize),
                    ) <==> in_rift_strip(*plate_id, *plate_type, a, b, ii, jj)),
            decreases w - i,
        {
            let ghost s0 = strip@;
            let hit = plate_id.get(i, j) == a && plate_type.get(i, j) == PlateType::Continental && (
            plate_id.get(wrap_next(i, w), j) == b || plate_id.get(wrap_prev(i, w), j) == b || plate_id.get(
                i,
                wrap_next(j, h),
            ) == b || plate_id.get(i, wrap_prev(j, h)) == b);
            proof {
                let n0 = neighbour(w as int, h as int, i as int, j as int, 0);
                let n1 = neighbour(w as int, h as int, i as int, j as int, 1);
                let n2 = neighbour(w as int, h as int, i as int, j as int, 2);
                let n3 = neighbour(w as int, h as int, i as int, j as int, 3);
                if in_rift_strip(*plate_id, *plate_type, a, b, i as int, j as int) {
                    let d = choose|d: int|
                        0 <= d < 4 && plate_id.at(
                            #[trigger] neighbour(w as int, h as int, i as int, j as int, d).0,
                            neighbour(w as int, h as int, i as int, j as int, d).1,
                        ) == b;
                    assert(d == 0 || d == 1 || d == 2 || d == 3);
                }
                if hit {
                    if plate_id.at(n0.0, n0.1) == b {
                        assert(0 <= 0int < 4);
                    } else if plate_id.at(n1.0, n1.1) == b {
                        assert(0 <= 1int < 4);
                    } else if plate_id.at(n2.0, n2.1) == b {
                        assert(0 <= 2int < 4);
                    } else {
                        assert(plate_id.at(n3.0, n3.1) == b);
                    }
                }
                assert(hit == in_rift_strip(*plate_id, *plate_type, a, b, i as int, j as int));
            }
            if hit {
                strip.push((i, j));
            }
            proof {
                lemma_flat_in_bounds(w as int, h as int, i as int, j as int);
                assert forall|x: int, y: int| 0 <= x < y < strip@.len() implies flat(
                    w as int,
                    strip@[x].0 as int,
                    strip@[x].1 as int,
                ) < flat(w as int, strip@[y].0 as int, strip@[y].1 as int) by {
                    if hit && y == strip@.len() - 1 {
                        let (xi, xj) = (strip@[x].0 as int, strip@[x].1 as int);
                        if xj < j {
                            lemma_flat_in_bounds(w as int, j as int, xi, xj);
                            assert(flat(w as int, xi, xj) < w * j);
                        }
                    }
                }
                assert forall|ii: int, jj: int|
                    0 <= ii < w && 0 <= jj < h && (jj < j || (jj == j && ii < i + 1)) implies (strip@.contains(
                    (ii as usize, jj as usize),
                ) <==> in_rift_strip(*plate_id, *plate_type, a, b, ii, jj)) by {
                    if strip@.contains((ii as usize, jj as usize)) {
                        let x = choose|x: int| 0 <= x < strip@.len() && strip@[x] == (ii as usize, jj as usize);
                        if x < s0.len() {
                            assert(s0.contains((ii as usize, jj as usize)));
                        }
                    }
                    if (jj < j || (jj == j && ii < i)) && s0.contains((ii as usize, jj as usize)) {
                        let x = choose|x: int| 0 <= x < s0.len() && s0[x] == (ii as usize, jj as usize);
                        assert(strip@[x] == (ii as usize, jj as usize));
                    }
                    if jj == j && ii == i && hit {
                        assert(strip@[strip@.len() - 1] == (ii as usize, jj as usize));
                    }
                }
            }
            i = i + 1;
        }
        j = j + 1;
    }
    proof {
        law_rift_strip_is_continental_margin(*plate_id, *plate_type, a, b, strip@);
    }
    strip
}

/// Put every listed cell on plate `pid`; every other cell is unchanged.
pub fn assign_cells(plate_id: &mut PlateIdField, cells: &Vec<(usize, usize)>, pid: u16)
    requires
        old(plate_id).wf(),
        forall|x: int|
            0 <= x < cells@.len() ==> (#[trigger] cells@[x]).0 < old(plate_id).width() && cells@[x].1 < old(
                plate_id,
            ).height(),
    ensures
        final(plate_id).wf(),
        final(plate_id).width() == old(plate_id).width(),
        final(plate_id).height() == old(plate_id).height(),
        forall|i: int, j: int|
            0 <= i < old(plate_id).width() && 0 <= j < old(plate_id).height() ==> #[trigger] final(plate_id).at(i, j)
                == (if cells@.contains((i as usize, j as usize)) {
                pid
            } else {
                old(plate_id).at(i, j)
            }),
{
    let w = plate_id.nx();
    let h = plate_id.ny();
    let n = cells.len();
    let mut x: usize = 0;
    while x < n
        invariant
            plate_id.wf(),
            plate_id.width() == w,
            plate_id.height() == h,
            w == old(plate_id).width(),
            h == old(plate_id).height(),
            n == cells@.len(),
            x <= n,
            forall|y: int| 0 <= y < cells@.len() ==> (#[trigger] cells@[y]).0 < w && cells@[y].1 < h,
            forall|i: int, j: int|
                0 <= i < w && 0 <= j < h ==> #[trigger] plate_id.at(i, j) == (if cells@.subrange(
                    0,
                    x as int,
                ).contains((i as usize, j as usize)) {
                    pid
                } else {
                    old(plate_id).at(i, j)
                }),
        decreases n - x,
    {
        let (ci, cj) = cells[x];
        let ghost before = *plate_id;
        plate_id.set(ci, cj, pid);
        proof {
            before.lemma_wf_len();
            lemma_flat_in_bounds(w as int, h as int, ci as int, cj as int);
            assert forall|i: int, j: int| 0 <= i < w && 0 <= j < h implies #[trigger] plate_id.at(i, j) == (if cells@.subrange(
                0,
                x + 1,
            ).contains((i as usize, j as usize)) {
                pid
            } else {
                old(plate_id).at(i, j)
            }) by {
                lemma_flat_in_bounds(w as int, h as int, i, j);
                let sub0 = cells@.subrange(0, x as int);
                let sub1 = cells@.subrange(0, x + 1);
                assert(sub1 == sub0.push(cells@[x as int]));
                if (i, j) == (ci as int, cj as int) {
                    assert(sub1[x as int] == (i as usize, j as usize));
                } else {
                    if flat(w as int, i, j) == flat(w as int, ci as int, cj as int) {
                        lemma_flat_injective(w as int, i, j, ci as int, cj as int);
                    }
                    assert(flat(w as int, i, j) != flat(w as int, ci as int, cj as int));
                    assert(plate_id@[flat(w as int, i, j)] == before@[flat(w as int, i, j)]);
                    assert(plate_id.at(i, j) == before.at(i, j));
                    assert(sub1.contains((i as usize, j as usize)) == sub0.contains((i as usize, j as usize)));
                }
            }
        }
        x = x + 1;
    }
    assert(cells@.subrange(0, n as int) =~= cells@);
}

/// Cell contents after reassigning plate `loser` to plate `winner`.
pub open spec fn reassigned(s: Seq<u16>, loser: u16, winner: u16) -> Seq<u16> {
    s.map_values(|x: u16| if x == loser { winner } else { x })
}

/// After a merge the absorbed plate is gone: no cell still carries
/// `loser` (when it differs from `winner`).
pub proof fn law_reassign_removes_loser(s: Seq<u16>, loser: u16, winner: u16)
    requires
        loser != winner,
    ensures
        !reassigned(s, loser, winner).contains(loser),
{
    let r = reassigned(s, loser, winner);
    assert forall|t: int| 0 <= t < r.len() implies r[t] != loser by {}
}

/// Reassigning the same plate twice changes nothing more than once.
pub proof fn law_reassign_idempotent(s: Seq<u16>, loser: u16, winner: u16)
    ensures
        reassigned(reassigned(s, loser, winner), loser, winner) == reassigned(s, loser, winner),
{
    assert(reassigned(reassigned(s, loser, winner), loser, winner) =~= reassigned(s, loser, winner));
}

/// A merge keeps the number of cells and leaves every cell of another plate
/// where it was; the winner gains exactly the loser's cells.
pub proof fn law_reassign_moves_only_loser(s: Seq<u16>, loser: u16, winner: u16, t: int)
    requires
        0 <= t < s.len(),
    ensures
        reassigned(s, loser, winner).len() == s.len(),
        s[t] != loser ==> reassigned(s, loser, winner)[t] == s[t],
        s[t] == loser ==> reassigned(s, loser, winner)[t] == winner,
{
}


/// A rift strip holds only continental cells of plate `a` that touch plate
/// `b`: whatever list satisfies the strip's characterisation, each of its
/// cells is continental, belongs to `a`, and has a 4-neighbour in `b`.
pub proof fn law_rift_strip_is_continental_margin(
    g: PlateIdField,
    t: PlateTypeField,
    a: u16,
    b: u16,
    strip: Seq<(usize, usize)>,
)
    requires
        forall|x: int| 0 <= x < strip.len() ==> (#[trigger] strip[x]).0 < g.width() && strip[x].1 < g.height(),
        forall|i: int, j: int|
            0 <= i < g.width() && 0 <= j < g.height() ==> (strip.contains((i as usize, j as usize)) <==> in_rift_strip(
                g,
                t,
                a,
                b,
                i,
                j,
            )),
    ensures
        forall|x: int|
            0 <= x < strip.len() ==> {
                let (i, j) = (#[trigger] strip[x].0 as int, strip[x].1 as int);
                &&& t.at(i, j) == PlateType::Continental
                &&& g.at(i, j) == a
                &&& exists|d: int|
                    0 <= d < 4 && g.at(
                        #[trigger] neighbour(g.width() as int, g.height() as int, i, j, d).0,
                        neighbour(g.width() as int, g.height() as int, i, j, d).1,
                    ) == b
            },
{
    assert forall|x: int| 0 <= x < strip.len() implies t.at(#[trigger] strip[x].0 as int, strip[x].1 as int)
        == PlateType::Continental && in_rift_strip(g, t, a, b, strip[x].0 as int, strip[x].1 as int) by {
        let (i, j) = (strip[x].0 as int, strip[x].1 as int);
        assert(strip[x] == (i as usize, j as usize));
        assert(strip.contains((i as usize, j as usize)));
    }
}

} // verus!
