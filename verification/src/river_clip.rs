//! Clipping river polylines against lake surfaces: every watercourse is cut
//! into its maximal runs of non-lake points, so that it ends at its sink
//! instead of crossing standing water.

use vstd::prelude::*;

verus! {

/// Lake ids from this value up mark below-sea basins, whose outflow is a
/// separately traced spillway.
pub const BELOW_SEA_LAKE_ID_BASE: u32 = 1_000_001;

/// A river reach: its points (cell coordinates, upstream to downstream) and
/// its links to other reaches by index.
#[derive(Clone, Debug)]
pub struct Reach {
    pub points: Vec<(u32, u32)>,
    pub upstream: Vec<usize>,
    pub downstream: Option<usize>,
}

/// A reach of the clipped network: the slice `start .. end` of the points
/// of reach `parent`, with links remapped into the clipped network.
#[derive(Clone, Debug)]
pub struct ClippedReach {
    pub parent: usize,
    pub start: usize,
    pub end: usize,
    pub points: Vec<(u32, u32)>,
    pub upstream: Vec<usize>,
    pub downstream: Option<usize>,
}

/// Lake id under point `p` of a lake map `w` cells wide (`0`: no lake).
pub open spec fn lake_under(lake_map: Seq<u32>, w: int, p: (u32, u32)) -> u32 {
    lake_map[p.1 * w + p.0]
}

/// Lake id under each point.
pub open spec fn point_lakes(points: Seq<(u32, u32)>, lake_map: Seq<u32>, w: int) -> Seq<u32> {
    Seq::new(points.len(), |t: int| lake_under(lake_map, w, points[t]))
}

/// First position at or after `a` holding a lake point (or the length).
pub open spec fn run_end(ids: Seq<u32>, a: int) -> int
    decreases ids.len() - a,
{
    if a < 0 || a >= ids.len() || ids[a] != 0 {
        a
    } else {
        run_end(ids, a + 1)
    }
}

/// A run of non-lake points starting at `a` is kept: `a` begins a maximal
/// run of at least two points, and the run is not the outlet of a lake
/// that has no river outflow (an endorheic lake, or a below-sea basin).
pub open spec fn kept_run(ids: Seq<u32>, endorheic: Seq<u32>, a: int) -> bool {
    &&& 0 <= a < ids.len()
    &&& ids[a] == 0
    &&& (a == 0 || ids[a - 1] != 0)
    &&& run_end(ids, a) - a >= 2
    &&& !(a > 0 && (endorheic.contains(ids[a - 1]) || ids[a - 1] >= BELOW_SEA_LAKE_ID_BASE))
}

/// Starts of the kept runs below position `k`, in increasing order.
pub open spec fn kept_starts(ids: Seq<u32>, endorheic: Seq<u32>, k: int) -> Seq<int>
    decreases k,
{
    if k <= 0 {
        Seq::empty()
    } else if kept_run(ids, endorheic, k - 1) {
        kept_starts(ids, endorheic, k - 1).push(k - 1)
    } else {
        kept_starts(ids, endorheic, k - 1)
    }
}

/// Kept-run starts of reach `i`.
pub open spec fn reach_runs(reaches: Seq<Reach>, lake_map: Seq<u32>, w: int, endorheic: Seq<u32>, i: int) -> Seq<
    int,
> {
    let ids = point_lakes(reaches[i].points@, lake_map, w);
    kept_starts(ids, endorheic, ids.len() as int)
}

/// Index in the clipped network of the first run of reach `i`: the runs of
/// all reaches before it come first.
pub open spec fn run_offset(reaches: Seq<Reach>, lake_map: Seq<u32>, w: int, endorheic: Seq<u32>, i: int) -> nat
    decreases i,
{
    if i <= 0 {
        0
    } else {
        run_offset(reaches, lake_map, w, endorheic, i - 1) + reach_runs(reaches, lake_map, w, endorheic, i - 1).len()
    }
}

/// The clipped indices of the last runs of the listed reaches, skipping
/// reaches that keep no run (the first `k` entries of `ups`).
pub open spec fn tail_links(
    reaches: Seq<Reach>,
    lake_map: Seq<u32>,
    w: int,
    endorheic: Seq<u32>,
    ups: Seq<usize>,
    k: int,
) -> Seq<usize>
    decreases k,
{
    if k <= 0 {
        Seq::empty()
    } else {
        let prev = tail_links(reaches, lake_map, w, endorheic, ups, k - 1);
        let u = ups[k - 1] as int;
        let c = reach_runs(reaches, lake_map, w, endorheic, u).len();
        if c > 0 {
            prev.push((run_offset(reaches, lake_map, w, endorheic, u) + c - 1) as usize)
        } else {
            prev
        }
    }
}

/// The clipped index of the first run of reach `d`, if it keeps one.
pub open spec fn head_link(reaches: Seq<Reach>, lake_map: Seq<u32>, w: int, endorheic: Seq<u32>, d: int) -> Option<
    usize,
> {
    if reach_runs(reaches, lake_map, w, endorheic, d).len() > 0 {
        Some(run_offset(reaches, lake_map, w, endorheic, d) as usize)
    } else {
        None
    }
}

/// The clipped reach for run `t` of reach `i`.
pub open spec fn clipped_ok(
    reaches: Seq<Reach>,
    lake_map: Seq<u32>,
    w: int,
    endorheic: Seq<u32>,
    i: int,
    t: int,
    c: ClippedReach,
) -> bool {
    let r = reaches[i];
    let ids = point_lakes(r.points@, lake_map, w);
    let runs = reach_runs(reaches, lake_map, w, endorheic, i);
    let a = runs[t];
    let b = run_end(ids, a);
    &&& c.parent == i
    &&& c.start == a
    &&& c.end == b
    &&& c.points@ == r.points@.subrange(a, b)
    &&& c.upstream@ == (if a == 0 {
        tail_links(reaches, lake_map, w, endorheic, r.upstream@, r.upstream@.len() as int)
    } else {
        Seq::empty()
    })
    &&& c.downstream == (if b == ids.len() && t == runs.len() - 1 {
        match r.downstream {
            Some(d) => head_link(reaches, lake_map, w, endorheic, d as int),
            None => None,
        }
    } else {
        None
    })
}

/// Every point indexes the lake map, and every link names a reach.
pub open spec fn network_ok(reaches: Seq<Reach>, lake_map: Seq<u32>, w: int) -> bool {
    &&& forall|i: int, t: int|
        0 <= i < reaches.len() && 0 <= t < reaches[i].points@.len() ==> #[trigger] reaches[i].points@[t].1 * w
            + reaches[i].points@[t].0 < lake_map.len()
    &&& forall|i: int, t: int|
        0 <= i < reaches.len() && 0 <= t < reaches[i].upstream@.len() ==> (#[trigger] reaches[i].upstream@[t] as int)
            < reaches.len()
    &&& forall|i: int|
        0 <= i < reaches.len() ==> (#[trigger] reaches[i].downstream matches Some(d) ==> (d as int) < reaches.len())
}

/// Number of points over the first `i` reaches.
pub open spec fn points_total(reaches: Seq<Reach>, i: int) -> nat
    decreases i,
{
    if i <= 0 {
        0
    } else {
        points_total(reaches, i - 1) + reaches[i - 1].points@.len()
    }
}

proof fn lemma_run_end_bounds(ids: Seq<u32>, a: int)
    requires
        0 <= a <= ids.len(),
    ensures
        a <= run_end(ids, a) <= ids.len(),
        forall|t: int| a <= t < run_end(ids, a) ==> #[trigger] ids[t] == 0,
        run_end(ids, a) < ids.len() ==> ids[run_end(ids, a)] != 0,
    decreases ids.len() - a,
{
    if a < ids.len() && ids[a] == 0 {
        lemma_run_end_bounds(ids, a + 1);
    }
}

proof fn lemma_kept_starts_props(ids: Seq<u32>, endorheic: Seq<u32>, k: int)
    requires
        0 <= k <= ids.len(),
    ensures
        kept_starts(ids, endorheic, k).len() <= k,
        forall|t: int|
            0 <= t < kept_starts(ids, endorheic, k).len() ==> 0 <= #[trigger] kept_starts(ids, endorheic, k)[t] < k
                && kept_run(ids, endorheic, kept_starts(ids, endorheic, k)[t]),
    decreases k,
{
    if k > 0 {
        lemma_kept_starts_props(ids, endorheic, k - 1);
    }
}

proof fn lemma_offset_mono(reaches: Seq<Reach>, lake_map: Seq<u32>, w: int, endorheic: Seq<u32>, i: int, j: int)
    requires
        0 <= i <= j,
    ensures
        run_offset(reaches, lake_map, w, endorheic, i) + (if i < j {
            reach_runs(reaches, lake_map, w, endorheic, i).len()
        } else {
            0
        }) <= run_offset(reaches, lake_map, w, endorheic, j),
    decreases j - i,
{
    if i < j {
        lemma_offset_mono(reaches, lake_map, w, endorheic, i, j - 1);
        if i < j - 1 {
            lemma_offset_mono(reaches, lake_map, w, endorheic, i + 1, j);
        }
    }
}

proof fn lemma_offset_le_points(reaches: Seq<Reach>, lake_map: Seq<u32>, w: int, endorheic: Seq<u32>, i: int)
    requires
        0 <= i <= reaches.len(),
    ensures
        run_offset(reaches, lake_map, w, endorheic, i) <= points_total(reaches, i),
    decreases i,
{
    if i > 0 {
        lemma_offset_le_points(reaches, lake_map, w, endorheic, i - 1);
        let ids = point_lakes(reaches[i - 1].points@, lake_map, w);
        lemma_kept_starts_props(ids, endorheic, ids.len() as int);
    }
}

proof fn lemma_points_total_mono(reaches: Seq<Reach>, i: int, j: int)
    requires
        0 <= i <= j,
    ensures
        points_total(reaches, i) <= points_total(reaches, j),
    decreases j - i,
{
    if i < j {
        lemma_points_total_mono(reaches, i, j - 1);
    }
}

/// Lake id under each point of `points`.
fn lakes_under_points(points: &Vec<(u32, u32)>, lake_map: &[u32], w: usize) -> (ids: Vec<u32>)
    requires
        forall|t: int| 0 <= t < points@.len() ==> #[trigger] points@[t].1 * w + points@[t].0 < lake_map@.len(),
    ensures
        ids@ == point_lakes(points@, lake_map@, w as int),
{
    let mut ids: Vec<u32> = Vec::new();
    let mut t: usize = 0;
    while t < points.len()
        invariant
            t <= points@.len(),
            forall|s: int| 0 <= s < points@.len() ==> #[trigger] points@[s].1 * w + points@[s].0 < lake_map@.len(),
            ids@.len() == t,
            forall|s: int| 0 <= s < t ==> #[trigger] ids@[s] == lake_under(lake_map@, w as int, points@[s]),
        decreases points@.len() - t,
    {
        let p = points[t];
        let y = p.1 as usize;
        let x = p.0 as usize;
        let len = lake_map.len();
        assert(y * w + x < len);
        assert(y * w <= y * w + x);
        let k = y * w + x;
        ids.push(lake_map[k]);
        t = t + 1;
    }
    assert(ids@ =~= point_lakes(points@, lake_map@, w as int));
    ids
}

/// Starts and ends of the kept runs of one reach, in order.
fn kept_runs(ids: &[u32], endorheic: &[u32]) -> (runs: Vec<(usize, usize)>)
    ensures
        runs@.len() == kept_starts(ids@, endorheic@, ids@.len() as int).len(),
        forall|t: int|
            0 <= t < runs@.len() ==> {
                let a = kept_starts(ids@, endorheic@, ids@.len() as int)[t];
                &&& #[trigger] runs@[t].0 == a
                &&& runs@[t].1 == run_end(ids@, a)
            },
{
    let n = ids.len();
    let mut runs: Vec<(usize, usize)> = Vec::new();
    let mut k: usize = 0;
    while k < n
        invariant
            n == ids@.len(),
            k <= n,
            runs@.len() == kept_starts(ids@, endorheic@, k as int).len(),
            forall|t: int|
                0 <= t < runs@.len() ==> {
                    let a = kept_starts(ids@, endorheic@, k as int)[t];
                    &&& #[trigger] runs@[t].0 == a
                    &&& runs@[t].1 == run_end(ids@, a)
                },
        decreases n - k,
    {
        if ids[k] == 0 && (k == 0 || ids[k - 1] != 0) {
            let mut b: usize = k;
            while b < n && ids[b] == 0
                invariant
                    n == ids@.len(),
                    k <= b <= n,
                    run_end(ids@, k as int) == run_end(ids@, b as int),
                decreases n - b,
            {
                b = b + 1;
            }
            let is_outlet = k > 0;
            let src_lake = if is_outlet {
                ids[k - 1]
            } else {
                0
            };
            let mut listed = false;
            let mut e: usize = 0;
            while e < endorheic.len()
                invariant
                    e <= endorheic@.len(),
                    listed == endorheic@.subrange(0, e as int).contains(src_lake),
                decreases endorheic@.len() - e,
            {
                if endorheic[e] == src_lake {
                    listed = true;
                }
                proof {
                    let s0 = endorheic@.subrange(0, e as int);
                    let s1 = endorheic@.subrange(0, e + 1);
                    if listed {
                        if endorheic@[e as int] == src_lake {
                            assert(s1[e as int] == src_lake);
                        } else {
                            let i = choose|i: int| 0 <= i < s0.len() && s0[i] == src_lake;
                            assert(s1[i] == src_lake);
                        }
                    } else {
                        assert forall|i: int| 0 <= i < s1.len() implies s1[i] != src_lake by {
                            if i < e {
                                assert(s1[i] == s0[i]);
                            }
                        }
                    }
                }
                e = e + 1;
            }
            proof {
                assert(endorheic@.subrange(0, endorheic@.len() as int) =~= endorheic@);
            }
            let drop = is_outlet && (listed || src_lake >= BELOW_SEA_LAKE_ID_BASE);
            if b - k >= 2 && !drop {
                runs.push((k, b));
            }
        }
        proof {
            let s = kept_starts(ids@, endorheic@, k as int);
            let s1 = kept_starts(ids@, endorheic@, k + 1);
            if kept_run(ids@, endorheic@, k as int) {
                assert(s1 == s.push(k as int));
                assert(runs@[runs@.len() - 1].0 == k);
            } else {
                assert(s1 == s);
            }
            assert forall|t: int| 0 <= t < runs@.len() implies {
                let a = kept_starts(ids@, endorheic@, k + 1)[t];
                &&& #[trigger] runs@[t].0 == a
                &&& runs@[t].1 == run_end(ids@, a)
            } by {
                if t < s.len() {
                    assert(s1[t] == s[t]);
                }
            }
        }
        k = k + 1;
    }
    runs
}

/// `offsets[p]` is the clipped index of the first run of reach `p`, for
/// every `p` up to the number of reaches.
pub open spec fn offsets_ok(
    offsets: Seq<usize>,
    reaches: Seq<Reach>,
    lake_map: Seq<u32>,
    w: int,
    endorheic: Seq<u32>,
) -> bool {
    &&& offsets.len() == reaches.len() + 1
    &&& forall|p: int| 0 <= p <= reaches.len() ==> #[trigger] offsets[p] == run_offset(reaches, lake_map, w, endorheic, p)
}

/// The points `a .. b` of `points`.
fn copy_points(points: &Vec<(u32, u32)>, a: usize, b: usize) -> (out: Vec<(u32, u32)>)
    requires
        a <= b <= points@.len(),
    ensures
        out@ == points@.subrange(a as int, b as int),
{
    let mut out: Vec<(u32, u32)> = Vec::new();
    let mut t: usize = a;
    while t < b
        invariant
            a <= t <= b <= points@.len(),
            out@ == points@.subrange(a as int, t as int),
        decreases b - t,
    {
        out.push(points[t]);
        t = t + 1;
        assert(out@ =~= points@.subrange(a as int, t as int));
    }
    out
}

/// Clipped indices of the last runs of the reaches listed in `ups`.
fn tails_of(
    ups: &Vec<usize>,
    offsets: &Vec<usize>,
    Ghost(reaches): Ghost<Seq<Reach>>,
    Ghost(lake_map): Ghost<Seq<u32>>,
    Ghost(w): Ghost<int>,
    Ghost(endorheic): Ghost<Seq<u32>>,
) -> (out: Vec<usize>)
    requires
        offsets_ok(offsets@, reaches, lake_map, w, endorheic),
        forall|t: int| 0 <= t < ups@.len() ==> (#[trigger] ups@[t] as int) < reaches.len(),
    ensures
        out@ == tail_links(reaches, lake_map, w, endorheic, ups@, ups@.len() as int),
{
    let mut out: Vec<usize> = Vec::new();
    let mut t: usize = 0;
    while t < ups.len()
        invariant
            t <= ups@.len(),
            offsets_ok(offsets@, reaches, lake_map, w, endorheic),
            forall|s: int| 0 <= s < ups@.len() ==> (#[trigger] ups@[s] as int) < reaches.len(),
            out@ == tail_links(reaches, lake_map, w, endorheic, ups@, t as int),
        decreases ups@.len() - t,
    {
        let u = ups[t];
        let len = offsets.len();
        assert(u + 1 < len);
        assert(offsets@[u + 1] == run_offset(reaches, lake_map, w, endorheic, u + 1));
        assert(offsets@[u as int] == run_offset(reaches, lake_map, w, endorheic, u as int));
        if offsets[u + 1] > offsets[u] {
            out.push(offsets[u + 1] - 1);
        }
        t = t + 1;
    }
    out
}

/// Clip every reach against the lakes of `lake_map` (a row-major map
/// `width` cells wide, `0` for dry cells, a lake id otherwise). Each reach
/// is cut into its maximal runs of non-lake points; a run is kept when it
/// has at least two points and is not the outlet of an `endorheic` lake or
/// of a below-sea basin. Runs come in reach order, then point order. A run
/// holding its reach's source links to the last runs of the reach's
/// upstream reaches (those that keep a run); the last run, when it reaches
/// its reach's end, links to the first run of the downstream reach (if it
/// keeps one); every other run ends at a sink and links nowhere.
pub fn clip_reaches_to_lakes(reaches: &Vec<Reach>, lake_map: &[u32], width: usize, endorheic: &[u32]) -> (out: Vec<
    ClippedReach,
>)
    requires
        network_ok(reaches@, lake_map@, width as int),
        points_total(reaches@, reaches@.len() as int) <= usize::MAX,
    ensures
        out@.len() == run_offset(reaches@, lake_map@, width as int, endorheic@, reaches@.len() as int),
        forall|i: int, t: int|
            0 <= i < reaches@.len() && 0 <= t < reach_runs(reaches@, lake_map@, width as int, endorheic@, i).len()
                ==> clipped_ok(
                reaches@,
                lake_map@,
                width as int,
                endorheic@,
                i,
                t,
                #[trigger] out@[run_offset(reaches@, lake_map@, width as int, endorheic@, i) + t],
            ),
{
    let ghost rs = reaches@;
    let ghost lm = lake_map@;
    let ghost wi = width as int;
    let ghost en = endorheic@;
    let m = reaches.len();
    let mut all_runs: Vec<Vec<(usize, usize)>> = Vec::new();
    let mut offsets: Vec<usize> = Vec::new();
    offsets.push(0);
    let mut i: usize = 0;
    while i < m
        invariant
            m == rs.len(),
            rs == reaches@,
            lm == lake_map@,
            wi == width,
            en == endorheic@,
            network_ok(rs, lm, wi),
            points_total(rs, m as int) <= usize::MAX,
            i <= m,
            all_runs@.len() == i,
            offsets@.len() == i + 1,
            forall|p: int| 0 <= p <= i ==> #[trigger] offsets@[p] == run_offset(rs, lm, wi, en, p),
            forall|p: int|
                0 <= p < i ==> (#[trigger] all_runs@[p])@.len() == reach_runs(rs, lm, wi, en, p).len(),
            forall|p: int, t: int|
                0 <= p < i && 0 <= t < reach_runs(rs, lm, wi, en, p).len() ==> {
                    let a = reach_runs(rs, lm, wi, en, p)[t];
                    &&& (#[trigger] all_runs@[p]@[t]).0 == a
                    &&& all_runs@[p]@[t].1 == run_end(point_lakes(rs[p].points@, lm, wi), a)
                },
        decreases m - i,
    {
        let ids = lakes_under_points(&reaches[i].points, lake_map, width);
        let runs = kept_runs(ids.as_slice(), endorheic);
        proof {
            lemma_offset_le_points(rs, lm, wi, en, i + 1);
            lemma_points_total_mono(rs, i + 1, m as int);
        }
        let next = offsets[i] + runs.len();
        offsets.push(next);
        let ghost prev = all_runs@;
        all_runs.push(runs);
        proof {
            assert(ids@ == point_lakes(rs[i as int].points@, lm, wi));
            assert forall|p: int, t: int|
                0 <= p < i + 1 && 0 <= t < reach_runs(rs, lm, wi, en, p).len() implies {
                    let a = reach_runs(rs, lm, wi, en, p)[t];
                    &&& (#[trigger] all_runs@[p]@[t]).0 == a
                    &&& all_runs@[p]@[t].1 == run_end(point_lakes(rs[p].points@, lm, wi), a)
                } by {
                if p < i {
                    assert(all_runs@[p] == prev[p]);
                }
            }
            assert forall|p: int| 0 <= p < i + 1 implies (#[trigger] all_runs@[p])@.len() == reach_runs(
                rs,
                lm,
                wi,
                en,
                p,
            ).len() by {
                if p < i {
                    assert(all_runs@[p] == prev[p]);
                }
            }
        }
        i = i + 1;
    }
    let mut out: Vec<ClippedReach> = Vec::new();
    let mut i: usize = 0;
    while i < m
        invariant
            m == rs.len(),
            rs == reaches@,
            lm == lake_map@,
            wi == width,
            en == endorheic@,
            network_ok(rs, lm, wi),
            i <= m,
            all_runs@.len() == m,
            offsets_ok(offsets@, rs, lm, wi, en),
            forall|p: int|
                0 <= p < m ==> (#[trigger] all_runs@[p])@.len() == reach_runs(rs, lm, wi, en, p).len(),
            forall|p: int, t: int|
                0 <= p < m && 0 <= t < reach_runs(rs, lm, wi, en, p).len() ==> {
                    let a = reach_runs(rs, lm, wi, en, p)[t];
                    &&& (#[trigger] all_runs@[p]@[t]).0 == a
                    &&& all_runs@[p]@[t].1 == run_end(point_lakes(rs[p].points@, lm, wi), a)
                },
            out@.len() == run_offset(rs, lm, wi, en, i as int),
            forall|p: int, t: int|
                0 <= p < i && 0 <= t < reach_runs(rs, lm, wi, en, p).len() ==> clipped_ok(
                    rs,
                    lm,
                    wi,
                    en,
                    p,
                    t,
                    #[trigger] out@[run_offset(rs, lm, wi, en, p) + t],
                ),
        decreases m - i,
    {
        let r = &reaches[i];
        let n = r.points.len();
        let runs = &all_runs[i];
        let ghost ids = point_lakes(rs[i as int].points@, lm, wi);
        let ghost starts = reach_runs(rs, lm, wi, en, i as int);
        proof {
            lemma_kept_starts_props(ids, en, ids.len() as int);
            assert(offsets@[i as int] == run_offset(rs, lm, wi, en, i as int));
        }
        let mut t: usize = 0;
        while t < runs.len()
            invariant
                m == rs.len(),
                rs == reaches@,
                lm == lake_map@,
                wi == width,
                en == endorheic@,
                network_ok(rs, lm, wi),
                i < m,
                *r == rs[i as int],
                n == r.points@.len(),
                ids == point_lakes(rs[i as int].points@, lm, wi),
                starts == reach_runs(rs, lm, wi, en, i as int),
                forall|s: int| 0 <= s < starts.len() ==> 0 <= #[trigger] starts[s] < ids.len() && kept_run(ids, en, starts[s]),
                runs@.len() == starts.len(),
                forall|s: int|
                    0 <= s < starts.len() ==> (#[trigger] runs@[s]).0 == starts[s] && runs@[s].1 == run_end(ids, starts[s]),
                offsets_ok(offsets@, rs, lm, wi, en),
                t <= runs@.len(),
                out@.len() == run_offset(rs, lm, wi, en, i as int) + t,
                forall|p: int, s: int|
                    0 <= p < i && 0 <= s < reach_runs(rs, lm, wi, en, p).len() ==> clipped_ok(
                        rs,
                        lm,
                        wi,
                        en,
                        p,
                        s,
                        #[trigger] out@[run_offset(rs, lm, wi, en, p) + s],
                    ),
                forall|s: int|
                    0 <= s < t ==> clipped_ok(
                        rs,
                        lm,
                        wi,
                        en,
                        i as int,
                        s,
                        #[trigger] out@[run_offset(rs, lm, wi, en, i as int) + s],
                    ),
            decreases runs@.len() - t,
        {
            let (a, b) = runs[t];
            proof {
                lemma_run_end_bounds(ids, a as int);
            }
            let points = copy_points(&r.points, a, b);
            let upstream = if a == 0 {
                proof {
                    assert forall|s: int| 0 <= s < r.upstream@.len() implies (#[trigger] r.upstream@[s] as int)
                        < rs.len() by {
                        assert((rs[i as int].upstream@[s] as int) < rs.len());
                    }
                }
                tails_of(&r.upstream, &offsets, Ghost(rs), Ghost(lm), Ghost(wi), Ghost(en))
            } else {
                Vec::new()
            };
            let downstream = if b == n && t == runs.len() - 1 {
                match r.downstream {
                    Some(d) => {
                        proof {
                            assert(rs[i as int].downstream matches Some(dd) ==> (dd as int) < rs.len());
                            assert(offsets@[d + 1] == run_offset(rs, lm, wi, en, d + 1));
                            assert(offsets@[d as int] == run_offset(rs, lm, wi, en, d as int));
                        }
                        if offsets[d + 1] > offsets[d] {
                            Some(offsets[d])
                        } else {
                            None
                        }
                    },
                    None => None,
                }
            } else {
                None
            };
            let c = ClippedReach { parent: i, start: a, end: b, points, upstream, downstream };
            proof {
                assert(clipped_ok(rs, lm, wi, en, i as int, t as int, c));
            }
            out.push(c);
            proof {
                assert forall|p: int, s: int|
                    0 <= p < i && 0 <= s < reach_runs(rs, lm, wi, en, p).len() implies clipped_ok(
                        rs,
                        lm,
                        wi,
                        en,
                        p,
                        s,
                        #[trigger] out@[run_offset(rs, lm, wi, en, p) + s],
                    ) by {
                    lemma_offset_mono(rs, lm, wi, en, p, i as int);
                }
            }
            t = t + 1;
        }
        proof {
            assert(run_offset(rs, lm, wi, en, i + 1) == run_offset(rs, lm, wi, en, i as int) + starts.len());
        }
        i = i + 1;
    }
    out
}

/// Every clipped reach ends at its sink: it holds at least two points, none
/// of them inside a lake, and when it begins at a lake shore that lake
/// drains onward (it is neither endorheic nor a below-sea basin).
pub proof fn law_clipped_reach_is_dry(
    reaches: Seq<Reach>,
    lake_map: Seq<u32>,
    w: int,
    endorheic: Seq<u32>,
    i: int,
    t: int,
    c: ClippedReach,
)
    requires
        0 <= i < reaches.len(),
        0 <= t < reach_runs(reaches, lake_map, w, endorheic, i).len(),
        clipped_ok(reaches, lake_map, w, endorheic, i, t, c),
    ensures
        c.points@.len() >= 2,
        forall|q: int| 0 <= q < c.points@.len() ==> lake_under(lake_map, w, #[trigger] c.points@[q]) == 0,
        c.start > 0 ==> {
            let shore = lake_under(lake_map, w, reaches[i].points@[c.start - 1]);
            &&& !endorheic.contains(shore)
            &&& shore < BELOW_SEA_LAKE_ID_BASE
        },
{
    let r = reaches[i];
    let ids = point_lakes(r.points@, lake_map, w);
    lemma_kept_starts_props(ids, endorheic, ids.len() as int);
    let a = reach_runs(reaches, lake_map, w, endorheic, i)[t];
    assert(kept_run(ids, endorheic, a));
    lemma_run_end_bounds(ids, a);
    assert forall|q: int| 0 <= q < c.points@.len() implies lake_under(lake_map, w, #[trigger] c.points@[q]) == 0 by {
        assert(c.points@[q] == r.points@[a + q]);
        assert(ids[a + q] == 0);
    }
    if c.start > 0 {
        assert(ids[a - 1] == lake_under(lake_map, w, r.points@[a - 1]));
    }
}


/// Index in the clipped network of run `t` of reach `i`.
pub open spec fn run_index(reaches: Seq<Reach>, lake_map: Seq<u32>, w: int, endorheic: Seq<u32>, i: int, t: int) -> int {
    run_offset(reaches, lake_map, w, endorheic, i) + t
}

/// `out` is the clipped network of `reaches`: one entry per kept run, in
/// reach order then run order.
pub open spec fn clipped_network(
    reaches: Seq<Reach>,
    lake_map: Seq<u32>,
    w: int,
    endorheic: Seq<u32>,
    out: Seq<ClippedReach>,
) -> bool {
    &&& out.len() == run_offset(reaches, lake_map, w, endorheic, reaches.len() as int)
    &&& forall|i: int, t: int|
        0 <= i < reaches.len() && 0 <= t < reach_runs(reaches, lake_map, w, endorheic, i).len() ==> clipped_ok(
            reaches,
            lake_map,
            w,
            endorheic,
            i,
            t,
            #[trigger] out[run_offset(reaches, lake_map, w, endorheic, i) + t],
        )
}

/// The input links agree: each reach listed upstream of reach `i` flows
/// down into `i`.
pub open spec fn links_mutual(reaches: Seq<Reach>) -> bool {
    forall|i: int, k: int|
        0 <= i < reaches.len() && 0 <= k < reaches[i].upstream@.len() ==> reaches[#[trigger] reaches[i].upstream@[k] as int].downstream
            == Some(i as usize)
}

proof fn lemma_tail_links_members(
    reaches: Seq<Reach>,
    lake_map: Seq<u32>,
    w: int,
    endorheic: Seq<u32>,
    ups: Seq<usize>,
    k: int,
)
    requires
        0 <= k <= ups.len(),
    ensures
        forall|m: int|
            0 <= m < tail_links(reaches, lake_map, w, endorheic, ups, k).len() ==> exists|q: int|
                0 <= q < k && reach_runs(reaches, lake_map, w, endorheic, ups[q] as int).len() > 0
                    && #[trigger] tail_links(reaches, lake_map, w, endorheic, ups, k)[m] == (run_offset(
                    reaches,
                    lake_map,
                    w,
                    endorheic,
                    ups[q] as int,
                ) + reach_runs(reaches, lake_map, w, endorheic, ups[q] as int).len() - 1) as usize,
    decreases k,
{
    if k > 0 {
        lemma_tail_links_members(reaches, lake_map, w, endorheic, ups, k - 1);
        let prev = tail_links(reaches, lake_map, w, endorheic, ups, k - 1);
        let cur = tail_links(reaches, lake_map, w, endorheic, ups, k);
        assert forall|m: int| 0 <= m < cur.len() implies exists|q: int|
            0 <= q < k && reach_runs(reaches, lake_map, w, endorheic, ups[q] as int).len() > 0 && #[trigger] cur[m]
                == (run_offset(reaches, lake_map, w, endorheic, ups[q] as int) + reach_runs(
                reaches,
                lake_map,
                w,
                endorheic,
                ups[q] as int,
            ).len() - 1) as usize by {
            if m < prev.len() {
                assert(cur[m] == prev[m]);
            } else {
                assert(cur[m] == (run_offset(reaches, lake_map, w, endorheic, ups[k - 1] as int) + reach_runs(
                    reaches,
                    lake_map,
                    w,
                    endorheic,
                    ups[k - 1] as int,
                ).len() - 1) as usize);
            }
        }
    }
}

/// Every index of the clipped network below `offset(i)` is a run of an
/// earlier reach.
proof fn lemma_offset_cover(reaches: Seq<Reach>, lake_map: Seq<u32>, w: int, endorheic: Seq<u32>, i: int, z: int)
    requires
        0 <= i,
        0 <= z < run_offset(reaches, lake_map, w, endorheic, i),
    ensures
        exists|i2: int, t2: int|
            0 <= i2 < i && 0 <= t2 < reach_runs(reaches, lake_map, w, endorheic, i2).len() && z == #[trigger] run_index(reaches, lake_map, w, endorheic, i2, t2),
    decreases i,
{
    if z < run_offset(reaches, lake_map, w, endorheic, i - 1) {
        lemma_offset_cover(reaches, lake_map, w, endorheic, i - 1, z);
    } else {
        let t2 = z - run_offset(reaches, lake_map, w, endorheic, i - 1);
        assert(z == run_index(reaches, lake_map, w, endorheic, i - 1, t2));
    }
}

/// Distinct (reach, run) pairs have distinct clipped indices.
proof fn lemma_offset_unique(
    reaches: Seq<Reach>,
    lake_map: Seq<u32>,
    w: int,
    endorheic: Seq<u32>,
    i: int,
    t: int,
    i2: int,
    t2: int,
)
    requires
        0 <= i,
        0 <= i2,
        0 <= t < reach_runs(reaches, lake_map, w, endorheic, i).len(),
        0 <= t2 < reach_runs(reaches, lake_map, w, endorheic, i2).len(),
        run_offset(reaches, lake_map, w, endorheic, i) + t == run_offset(reaches, lake_map, w, endorheic, i2) + t2,
    ensures
        i == i2,
        t == t2,
{
    if i < i2 {
        lemma_offset_mono(reaches, lake_map, w, endorheic, i, i2);
    } else if i2 < i {
        lemma_offset_mono(reaches, lake_map, w, endorheic, i2, i);
    }
}

/// Kept-run starts increase strictly.
proof fn lemma_kept_starts_increasing(ids: Seq<u32>, endorheic: Seq<u32>, k: int)
    requires
        0 <= k <= ids.len(),
    ensures
        forall|t: int, t2: int|
            0 <= t < t2 < kept_starts(ids, endorheic, k).len() ==> #[trigger] kept_starts(ids, endorheic, k)[t]
                < #[trigger] kept_starts(ids, endorheic, k)[t2],
    decreases k,
{
    if k > 0 {
        lemma_kept_starts_increasing(ids, endorheic, k - 1);
        lemma_kept_starts_props(ids, endorheic, k - 1);
    }
}

/// Only the last kept run of a reach can reach the reach's end, and only
/// the first can start at its source.
proof fn lemma_run_positions(reaches: Seq<Reach>, lake_map: Seq<u32>, w: int, endorheic: Seq<u32>, i: int, t: int)
    requires
        0 <= i < reaches.len(),
        0 <= t < reach_runs(reaches, lake_map, w, endorheic, i).len(),
    ensures
        ({
            let ids = point_lakes(reaches[i].points@, lake_map, w);
            let runs = reach_runs(reaches, lake_map, w, endorheic, i);
            &&& t < runs.len() - 1 ==> run_end(ids, runs[t]) < ids.len()
            &&& runs[t] == 0 ==> t == 0
            &&& forall|t2: int| 0 <= t2 <= t ==> #[trigger] runs[t2] <= runs[t]
        }),
{
    let ids = point_lakes(reaches[i].points@, lake_map, w);
    let runs = reach_runs(reaches, lake_map, w, endorheic, i);
    lemma_kept_starts_props(ids, endorheic, ids.len() as int);
    lemma_kept_starts_increasing(ids, endorheic, ids.len() as int);
    if t < runs.len() - 1 {
        let a = runs[t];
        let a2 = runs[t + 1];
        assert(a < a2);
        assert(kept_run(ids, endorheic, a2));
        lemma_run_end_bounds(ids, a);
        assert(ids[a2 - 1] != 0);
    }
    if t > 0 {
        assert(runs[0] < runs[t]);
        assert(0 <= runs[0]);
    }
    assert forall|t2: int| 0 <= t2 <= t implies #[trigger] runs[t2] <= runs[t] by {
        if t2 < t {
            assert(runs[t2] < runs[t]);
        }
    }
}

/// Upstream links of the clipped network name the last kept run of each
/// upstream reach, and links are mutual: when clipped reach `y` is listed
/// upstream of clipped reach `x`, `y` belongs to a reach listed upstream of
/// `x`'s reach, no later run of that reach exists, and — when that reach
/// keeps a run reaching its end (and the input links agree) — `y` links
/// down to `x`.
pub proof fn law_clipped_links_are_mutual(
    reaches: Seq<Reach>,
    lake_map: Seq<u32>,
    w: int,
    endorheic: Seq<u32>,
    out: Seq<ClippedReach>,
    x: int,
    q: int,
)
    requires
        network_ok(reaches, lake_map, w),
        clipped_network(reaches, lake_map, w, endorheic, out),
        out.len() <= usize::MAX,
        0 <= x < out.len(),
        0 <= q < out[x].upstream@.len(),
    ensures
        ({
            let y = out[x].upstream@[q] as int;
            let u = out[y].parent as int;
            &&& 0 <= y < out.len()
            &&& reaches[out[x].parent as int].upstream@.contains(out[y].parent)
            &&& forall|z: int| 0 <= z < out.len() && #[trigger] out[z].parent == out[y].parent ==> out[z].start <= out[y].start
            &&& links_mutual(reaches) && (exists|z: int|
                0 <= z < out.len() && #[trigger] out[z].parent == out[y].parent && out[z].end == reaches[u].points@.len())
                ==> out[y].downstream == Some(x as usize)
        }),
{
    let n = reaches.len() as int;
    lemma_offset_cover(reaches, lake_map, w, endorheic, n, x);
    let (i, t) = choose|i2: int, t2: int|
        0 <= i2 < n && 0 <= t2 < reach_runs(reaches, lake_map, w, endorheic, i2).len() && x == #[trigger] run_index(reaches, lake_map, w, endorheic, i2, t2);
    let r = reaches[i];
    let runs = reach_runs(reaches, lake_map, w, endorheic, i);
    assert(clipped_ok(reaches, lake_map, w, endorheic, i, t, out[x]));
    let ups = r.upstream@;
    assert(runs[t] == 0);
    lemma_run_positions(reaches, lake_map, w, endorheic, i, t);
    assert(t == 0);
    let tl = tail_links(reaches, lake_map, w, endorheic, ups, ups.len() as int);
    assert(out[x].upstream@ == tl);
    lemma_tail_links_members(reaches, lake_map, w, endorheic, ups, ups.len() as int);
    let k = choose|k: int|
        0 <= k < ups.len() && reach_runs(reaches, lake_map, w, endorheic, ups[k] as int).len() > 0 && #[trigger] tl[q]
            == (run_offset(reaches, lake_map, w, endorheic, ups[k] as int) + reach_runs(
            reaches,
            lake_map,
            w,
            endorheic,
            ups[k] as int,
        ).len() - 1) as usize;
    let u = ups[k] as int;
    let cu = reach_runs(reaches, lake_map, w, endorheic, u).len() as int;
    let y = run_offset(reaches, lake_map, w, endorheic, u) + (cu - 1);
    assert(0 <= u < n);
    lemma_offset_mono(reaches, lake_map, w, endorheic, u, n);
    assert(tl[q] as int == y);
    assert(clipped_ok(reaches, lake_map, w, endorheic, u, cu - 1, out[y]));
    assert(out[y].parent == u);
    assert(ups[k] == out[y].parent);
    assert(ups.contains(out[y].parent));
    let ids = point_lakes(reaches[u].points@, lake_map, w);
    let runs_u = reach_runs(reaches, lake_map, w, endorheic, u);
    lemma_run_positions(reaches, lake_map, w, endorheic, u, cu - 1);
    assert forall|z: int| 0 <= z < out.len() && #[trigger] out[z].parent == out[y].parent implies out[z].start
        <= out[y].start by {
        lemma_offset_cover(reaches, lake_map, w, endorheic, n, z);
        let (i2, t2) = choose|i2: int, t2: int|
            0 <= i2 < n && 0 <= t2 < reach_runs(reaches, lake_map, w, endorheic, i2).len() && z == #[trigger] run_index(reaches, lake_map, w, endorheic, i2, t2);
        assert(clipped_ok(reaches, lake_map, w, endorheic, i2, t2, out[z]));
        assert(i2 == u);
        assert(runs_u[t2] <= runs_u[cu - 1]);
    }
    if links_mutual(reaches) && (exists|z: int|
        0 <= z < out.len() && #[trigger] out[z].parent == out[y].parent && out[z].end == reaches[u].points@.len()) {
        let z = choose|z: int|
            0 <= z < out.len() && #[trigger] out[z].parent == out[y].parent && out[z].end == reaches[u].points@.len();
        lemma_offset_cover(reaches, lake_map, w, endorheic, n, z);
        let (i2, t2) = choose|i2: int, t2: int|
            0 <= i2 < n && 0 <= t2 < reach_runs(reaches, lake_map, w, endorheic, i2).len() && z == #[trigger] run_index(reaches, lake_map, w, endorheic, i2, t2);
        assert(clipped_ok(reaches, lake_map, w, endorheic, i2, t2, out[z]));
        assert(i2 == u);
        lemma_run_positions(reaches, lake_map, w, endorheic, u, t2);
        assert(t2 == cu - 1);
        assert(reaches[ups[k] as int].downstream == Some(i as usize));
        assert(run_end(ids, runs_u[cu - 1]) == ids.len());
        assert(head_link(reaches, lake_map, w, endorheic, i) == Some(run_offset(reaches, lake_map, w, endorheic, i) as usize));
    }
}

} // verus!
