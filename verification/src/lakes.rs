//! Lake typing and outlet tracing on the drainage grid: following the
//! flow receivers downstream from an outlet, tracing a basin's spillway,
//! and the rule that every exorheic lake has a traced outlet.

use vstd::prelude::*;
use crate::river_clip::Reach;

verus! {

/// River navigability class, by upstream drainage area.
#[derive(Clone, Copy, Debug, PartialEq, Eq, Structural)]
pub enum Navigability {
    /// Below the small-boat threshold (creeks / minor streams).
    NonNavigable,
    /// Small craft (canoe / skiff).
    SmallBoat,
    /// Barge / riverboat.
    Barge,
    /// Ocean-going ship up-river.
    Ship,
}

/// Drainage relationship of a lake to the sea.
#[derive(Clone, Copy, Debug, PartialEq, Eq, Structural)]
pub enum LakeType {
    /// Drains to the sea.
    Exorheic,
    /// Terminal: no path to the sea.
    Endorheic,
}

/// Cell `(sx, sy)` or one of its 8 neighbours (inside the `w × h` grid)
/// belongs to lake `id`.
pub open spec fn borders_lake(lake_map: Seq<u32>, w: int, h: int, sx: int, sy: int, id: u32) -> bool {
    exists|nx: int, ny: int|
        sx - 1 <= nx <= sx + 1 && sy - 1 <= ny <= sy + 1 && 0 <= nx < w && 0 <= ny < h && #[trigger] lake_map[ny
            * w + nx] == id
}

/// Some reach starts next to lake `id`: the lake has a traced outlet.
pub open spec fn has_traced_outlet(reaches: Seq<Reach>, lake_map: Seq<u32>, w: int, h: int, id: u32) -> bool {
    exists|s: int|
        0 <= s < reaches.len() && reaches[s].points@.len() > 0 && #[trigger] borders_lake(
            lake_map,
            w,
            h,
            reaches[s].points@[0].0 as int,
            reaches[s].points@[0].1 as int,
            id,
        )
}

/// Ids of the exorheic lakes among the first `k` lakes that have no traced
/// outlet, in lake order.
pub open spec fn missing_outlets(
    lakes: Seq<(u32, LakeType)>,
    reaches: Seq<Reach>,
    lake_map: Seq<u32>,
    w: int,
    h: int,
    k: int,
) -> Seq<u32>
    decreases k,
{
    if k <= 0 {
        Seq::empty()
    } else {
        let prev = missing_outlets(lakes, reaches, lake_map, w, h, k - 1);
        let (id, kind) = lakes[k - 1];
        if kind == LakeType::Exorheic && !has_traced_outlet(reaches, lake_map, w, h, id) {
            prev.push(id)
        } else {
            prev
        }
    }
}

/// Number of exorheic lakes without a traced outlet among the first `k`.
pub open spec fn unserved_count(
    lakes: Seq<(u32, LakeType)>,
    reaches: Seq<Reach>,
    lake_map: Seq<u32>,
    w: int,
    h: int,
    k: int,
) -> nat
    decreases k,
{
    if k <= 0 {
        0
    } else {
        unserved_count(lakes, reaches, lake_map, w, h, k - 1) + (if lakes[k - 1].1 == LakeType::Exorheic
            && !has_traced_outlet(reaches, lake_map, w, h, lakes[k - 1].0) {
            1nat
        } else {
            0nat
        })
    }
}

/// The outlet check lists every exorheic lake that no reach starts in or
/// next to, and nothing else: each such lake's id occurs in the result,
/// each listed id is such a lake, and the result has one entry per such
/// lake.
pub proof fn law_missing_outlets_are_all_unserved_lakes(
    lakes: Seq<(u32, LakeType)>,
    reaches: Seq<Reach>,
    lake_map: Seq<u32>,
    w: int,
    h: int,
    k: int,
)
    requires
        0 <= k <= lakes.len(),
    ensures
        ({
            let ids = missing_outlets(lakes, reaches, lake_map, w, h, k);
            &&& forall|q: int|
                0 <= q < k && lakes[q].1 == LakeType::Exorheic && !has_traced_outlet(reaches, lake_map, w, h, lakes[q].0)
                    ==> ids.contains(#[trigger] lakes[q].0)
            &&& forall|x: int|
                0 <= x < ids.len() ==> exists|q: int|
                    0 <= q < k && #[trigger] lakes[q].0 == #[trigger] ids[x] && lakes[q].1 == LakeType::Exorheic
                        && !has_traced_outlet(reaches, lake_map, w, h, lakes[q].0)
            &&& ids.len() == unserved_count(lakes, reaches, lake_map, w, h, k)
        }),
    decreases k,
{
    if k > 0 {
        law_missing_outlets_are_all_unserved_lakes(lakes, reaches, lake_map, w, h, k - 1);
        let prev = missing_outlets(lakes, reaches, lake_map, w, h, k - 1);
        let ids = missing_outlets(lakes, reaches, lake_map, w, h, k);
        assert forall|q: int|
            0 <= q < k && lakes[q].1 == LakeType::Exorheic && !has_traced_outlet(reaches, lake_map, w, h, lakes[q].0)
                implies ids.contains(#[trigger] lakes[q].0) by {
            if q < k - 1 {
                let x = choose|x: int| 0 <= x < prev.len() && prev[x] == lakes[q].0;
                assert(ids[x] == lakes[q].0);
            } else {
                assert(ids[ids.len() - 1] == lakes[q].0);
            }
        }
        assert forall|x: int| 0 <= x < ids.len() implies exists|q: int|
            0 <= q < k && #[trigger] lakes[q].0 == #[trigger] ids[x] && lakes[q].1 == LakeType::Exorheic && !has_traced_outlet(
                reaches,
                lake_map,
                w,
                h,
                lakes[q].0,
            ) by {
            if x < prev.len() {
                assert(ids[x] == prev[x]);
            } else {
                assert(lakes[k - 1].0 == ids[x]);
            }
        }
    }
}

/// Whether the 3×3 neighbourhood of `(sx, sy)` (clipped to the grid)
/// touches lake `id`.
fn source_borders_lake(lake_map: &[u32], w: usize, h: usize, sx: u32, sy: u32, id: u32) -> (b: bool)
    requires
        lake_map@.len() == w * h,
    ensures
        b == borders_lake(lake_map@, w as int, h as int, sx as int, sy as int, id),
{
    let x0: u64 = if sx > 0 {
        sx as u64 - 1
    } else {
        0
    };
    let y0: u64 = if sy > 0 {
        sy as u64 - 1
    } else {
        0
    };
    let len = lake_map.len();
    let x1: u64 = sx as u64 + 1;
    let y1: u64 = sy as u64 + 1;
    let mut y: u64 = y0;
    while y <= y1
        invariant
            y0 <= y <= y1 + 1,
            y0 == (if sy > 0 { sy - 1 } else { 0 }),
            x0 == (if sx > 0 { sx - 1 } else { 0 }),
            x1 == sx + 1,
            y1 == sy + 1,
            lake_map@.len() == w * h,
            len == lake_map@.len(),
            forall|nx: int, ny: int|
                sx - 1 <= nx <= sx + 1 && sy - 1 <= ny < y && 0 <= nx < w && 0 <= ny < h ==> #[trigger] lake_map@[ny
                    * w + nx] != id,
        decreases y1 + 1 - y,
    {
        if y < h as u64 {
            let mut x: u64 = x0;
            while x <= x1
                invariant
                    x0 <= x <= x1 + 1,
                    y0 <= y <= y1,
                    (y as int) < h,
                    y0 == (if sy > 0 { sy - 1 } else { 0 }),
                    x0 == (if sx > 0 { sx - 1 } else { 0 }),
                    x1 == sx + 1,
                    y1 == sy + 1,
                    lake_map@.len() == w * h,
                    len == lake_map@.len(),
                    forall|nx: int, ny: int|
                        sx - 1 <= nx <= sx + 1 && sy - 1 <= ny < y && 0 <= nx < w && 0 <= ny < h ==> #[trigger] lake_map@[ny
                            * w + nx] != id,
                    forall|nx: int| sx - 1 <= nx < x && 0 <= nx < w ==> #[trigger] lake_map@[y * w + nx] != id,
                decreases x1 + 1 - x,
            {
                if x < w as u64 {
                    let xu = x as usize;
                    let yu = y as usize;
                    proof {
                        crate::grid::lemma_flat_in_bounds(w as int, h as int, xu as int, yu as int);
                    }
                    let k = yu * w + xu;
                    if lake_map[k] == id {
                        proof {
                            let nx = x as int;
                            let ny = y as int;
                            assert(lake_map@[ny * (w as int) + nx] == id);
                            assert(sx - 1 <= nx <= sx + 1 && sy - 1 <= ny <= sy + 1 && 0 <= nx < w && 0 <= ny < h);
                            assert(borders_lake(lake_map@, w as int, h as int, sx as int, sy as int, id));
                        }
                        return true;
                    }
                }
                x = x + 1;
            }
        }
        y = y + 1;
    }
    false
}

/// Ids of the exorheic lakes (in lake order) that no reach starts next to:
/// an exorheic lake must have a traced outlet, a reach whose first point
/// lies in or 8-next to the lake's footprint on `lake_map` (`w × h`,
/// row-major). A non-empty result flags lakes wrongly labelled exorheic.
pub fn exorheic_lakes_missing_outlet(
    lakes: &[(u32, LakeType)],
    reaches: &Vec<Reach>,
    lake_map: &[u32],
    w: usize,
    h: usize,
) -> (ids: Vec<u32>)
    requires
        lake_map@.len() == w * h,
    ensures
        ids@ == missing_outlets(lakes@, reaches@, lake_map@, w as int, h as int, lakes@.len() as int),
        forall|q: int|
            0 <= q < lakes@.len() && lakes@[q].1 == LakeType::Exorheic && !has_traced_outlet(
                reaches@,
                lake_map@,
                w as int,
                h as int,
                lakes@[q].0,
            ) ==> ids@.contains(#[trigger] lakes@[q].0),
        ids@.len() == unserved_count(lakes@, reaches@, lake_map@, w as int, h as int, lakes@.len() as int),
{
    let mut ids: Vec<u32> = Vec::new();
    let mut k: usize = 0;
    while k < lakes.len()
        invariant
            k <= lakes@.len(),
            lake_map@.len() == w * h,
            ids@ == missing_outlets(lakes@, reaches@, lake_map@, w as int, h as int, k as int),
        decreases lakes@.len() - k,
    {
        let (id, kind) = lakes[k];
        if kind == LakeType::Exorheic {
            let mut found = false;
            let mut s: usize = 0;
            while s < reaches.len() && !found
                invariant
                    s <= reaches@.len(),
                    lake_map@.len() == w * h,
                    found ==> has_traced_outlet(reaches@, lake_map@, w as int, h as int, id),
                    !found ==> forall|q: int|
                        0 <= q < s && reaches@[q].points@.len() > 0 ==> !#[trigger] borders_lake(
                            lake_map@,
                            w as int,
                            h as int,
                            reaches@[q].points@[0].0 as int,
                            reaches@[q].points@[0].1 as int,
                            id,
                        ),
                decreases reaches@.len() - s,
            {
                let r = &reaches[s];
                if r.points.len() > 0 {
                    let (sx, sy) = r.points[0];
                    if source_borders_lake(lake_map, w, h, sx, sy, id) {
                        found = true;
                    }
                }
                s = s + 1;
            }
            if !found {
                ids.push(id);
            }
        }
        k = k + 1;
    }
    proof {
        law_missing_outlets_are_all_unserved_lakes(lakes@, reaches@, lake_map@, w as int, h as int, lakes@.len() as int);
    }
    ids
}

/// Following `receiver` links from cell `k`, a cell flagged `sea` is met
/// within `steps` links (the start cell counts, before any link).
pub open spec fn drains_to_sea(receiver: Seq<Option<usize>>, sea: Seq<bool>, k: int, steps: nat) -> bool
    decreases steps,
{
    if sea[k] {
        true
    } else if steps == 0 {
        false
    } else {
        match receiver[k] {
            None => false,
            Some(next) => drains_to_sea(receiver, sea, next as int, (steps - 1) as nat),
        }
    }
}

/// Every receiver link names a cell of the grid.
pub open spec fn receivers_ok(receiver: Seq<Option<usize>>) -> bool {
    forall|k: int| 0 <= k < receiver.len() ==> (#[trigger] receiver[k] matches Some(next) ==> (next as int) < receiver.len())
}

/// Trace a lake outlet downstream along the flow receivers: whether it
/// meets a sea cell within as many links as the grid has cells.
pub fn outlet_reaches_sea(outlet: usize, receiver: &[Option<usize>], sea: &[bool]) -> (b: bool)
    requires
        outlet < receiver@.len(),
        sea@.len() == receiver@.len(),
        receivers_ok(receiver@),
    ensures
        b == drains_to_sea(receiver@, sea@, outlet as int, receiver@.len() as nat),
{
    let n = receiver.len();
    let mut k = outlet;
    let mut left: usize = n;
    while !sea[k]
        invariant
            k < n,
            n == receiver@.len(),
            sea@.len() == n,
            receivers_ok(receiver@),
            left <= n,
            drains_to_sea(receiver@, sea@, outlet as int, n as nat) == drains_to_sea(
                receiver@,
                sea@,
                k as int,
                left as nat,
            ),
        decreases left,
    {
        if left == 0 {
            return false;
        }
        match receiver[k] {
            None => {
                return false;
            },
            Some(next) => {
                k = next;
                left = left - 1;
            },
        }
    }
    true
}

/// Periodic D8 receivers: cell `k` of the `w × h` torus whose direction
/// code `d` names an offset `(dx, dy)` of `offsets` drains into the cell
/// at `(x + dx, y + dy)` wrapped onto the torus; any other code means no
/// receiver.
pub open spec fn periodic_receiver(w: int, h: int, offsets: Seq<(i32, i32)>, d: u8, k: int) -> Option<usize> {
    if (d as int) < offsets.len() {
        let x = k % w;
        let y = k / w;
        let nx = (x + offsets[d as int].0) % w;
        let ny = (y + offsets[d as int].1) % h;
        Some((ny * w + nx) as usize)
    } else {
        None
    }
}

/// The receiver of every cell, from its flow direction code.
pub fn periodic_receivers(direction: &[u8], w: usize, h: usize, offsets: &[(i32, i32)]) -> (receiver: Vec<
    Option<usize>,
>)
    requires
        direction@.len() == w * h,
        forall|t: int|
            0 <= t < offsets@.len() ==> -1 <= (#[trigger] offsets@[t]).0 <= 1 && -1 <= offsets@[t].1 <= 1,
    ensures
        receiver@.len() == direction@.len(),
        receivers_ok(receiver@),
        forall|k: int|
            0 <= k < receiver@.len() ==> #[trigger] receiver@[k] == periodic_receiver(
                w as int,
                h as int,
                offsets@,
                direction@[k],
                k,
            ),
{
    let n = direction.len();
    let mut receiver: Vec<Option<usize>> = Vec::new();
    let mut k: usize = 0;
    while k < n
        invariant
            n == direction@.len(),
            n == w * h,
            k <= n,
            forall|t: int|
                0 <= t < offsets@.len() ==> -1 <= (#[trigger] offsets@[t]).0 <= 1 && -1 <= offsets@[t].1 <= 1,
            receiver@.len() == k,
            forall|c: int| 0 <= c < k ==> (#[trigger] receiver@[c] matches Some(next) ==> (next as int) < n),
            forall|c: int|
                0 <= c < k ==> #[trigger] receiver@[c] == periodic_receiver(
                    w as int,
                    h as int,
                    offsets@,
                    direction@[c],
                    c,
                ),
        decreases n - k,
    {
        proof {
            crate::landmass::lemma_neighbours_in_range(w as int, h as int, k as int);
        }
        let d = direction[k];
        if (d as usize) < offsets.len() {
            let (dx, dy) = offsets[d as usize];
            assert(offsets@[d as int] == (dx, dy));
            assert(-1 <= dx <= 1 && -1 <= dy <= 1);
            let x = k % w;
            let y = k / w;
            let nx: usize = if dx < 0 && x == 0 {
                w - 1
            } else if dx < 0 {
                x - 1
            } else if dx > 0 && x + 1 == w {
                0
            } else if dx > 0 {
                x + 1
            } else {
                x
            };
            let ny: usize = if dy < 0 && y == 0 {
                h - 1
            } else if dy < 0 {
                y - 1
            } else if dy > 0 && y + 1 == h {
                0
            } else if dy > 0 {
                y + 1
            } else {
                y
            };
            proof {
                let xi = x as int;
                let yi = y as int;
                let wi = w as int;
                let hi = h as int;
                assert(nx as int == (xi + dx) % wi) by {
                    if dx < 0 && x == 0 {
                        vstd::arithmetic::div_mod::lemma_fundamental_div_mod_converse(xi + dx, wi, -1, wi - 1);
                    } else if dx > 0 && x + 1 == w {
                        assert(xi + dx == wi);
                        vstd::arithmetic::div_mod::lemma_mod_self_0(wi);
                    } else {
                        vstd::arithmetic::div_mod::lemma_small_mod((xi + dx) as nat, wi as nat);
                    }
                }
                assert(ny as int == (yi + dy) % hi) by {
                    if dy < 0 && y == 0 {
                        vstd::arithmetic::div_mod::lemma_fundamental_div_mod_converse(yi + dy, hi, -1, hi - 1);
                    } else if dy > 0 && y + 1 == h {
                        assert(yi + dy == hi);
                        vstd::arithmetic::div_mod::lemma_mod_self_0(hi);
                    } else {
                        vstd::arithmetic::div_mod::lemma_small_mod((yi + dy) as nat, hi as nat);
                    }
                }
                crate::grid::lemma_flat_in_bounds(wi, hi, nx as int, ny as int);
            }
            receiver.push(Some(ny * w + nx));
        } else {
            receiver.push(None);
        }
        k = k + 1;
    }
    receiver
}

/// Lake id of cell `k` on an optional second lake map (`0` without one).
pub open spec fn lake_id_at(map: Option<Seq<u32>>, k: int) -> u32 {
    match map {
        Some(m) => m[k],
        None => 0,
    }
}

/// Downhill walk of a spillway from cell `cur`, following `receiver`, with
/// `fuel` more links allowed after this one: the cells appended after
/// `cur`, and the walk's end. It ends at the ocean (`Some(None)`), in a
/// lake of `lake_map` or else of `detected` (`Some(Some(id))`), or fails
/// (`None`) on re-entering its own `bowl`, at a cell without receiver, or
/// once the links run out.
pub open spec fn spill_walk(
    receiver: Seq<Option<usize>>,
    ocean: Seq<bool>,
    lake_map: Seq<u32>,
    detected: Option<Seq<u32>>,
    bowl: Seq<bool>,
    cur: int,
    fuel: nat,
) -> (Seq<usize>, Option<Option<u32>>)
    decreases fuel,
{
    if ocean[cur] {
        (Seq::empty(), Some(None))
    } else if lake_map[cur] != 0 {
        (Seq::empty(), Some(Some(lake_map[cur])))
    } else if lake_id_at(detected, cur) != 0 {
        (Seq::empty(), Some(Some(lake_id_at(detected, cur))))
    } else if bowl[cur] {
        (Seq::empty(), None)
    } else {
        match receiver[cur] {
            None => (Seq::empty(), None),
            Some(next) => if fuel == 0 {
                (seq![next], None)
            } else {
                let (rest, end) = spill_walk(receiver, ocean, lake_map, detected, bowl, next as int, (fuel - 1) as nat);
                (seq![next] + rest, end)
            },
        }
    }
}

/// Trace a basin's spillway: from the `saddle` cross to the `escape` cell,
/// then follow the flow receivers downhill (at most as many links as the
/// grid has cells) until the ocean or another lake. Returns the path and
/// the lake it chains into (`None` for the ocean), or `None` when the walk
/// re-enters the basin's own `bowl`, stops at a cell without receiver, or
/// runs out of links.
pub fn trace_spillway(
    saddle: usize,
    escape: usize,
    receiver: &[Option<usize>],
    ocean: &[bool],
    lake_map: &[u32],
    detected: Option<&[u32]>,
    bowl: &[bool],
) -> (traced: Option<(Vec<usize>, Option<u32>)>)
    requires
        escape < receiver@.len(),
        ocean@.len() == receiver@.len(),
        lake_map@.len() == receiver@.len(),
        bowl@.len() == receiver@.len(),
        detected matches Some(d) ==> d@.len() == receiver@.len(),
        receivers_ok(receiver@),
    ensures
        ({
            let det = match detected {
                Some(d) => Some(d@),
                None => None,
            };
            let (rest, end) = spill_walk(receiver@, ocean@, lake_map@, det, bowl@, escape as int, receiver@.len() as nat);
            match traced {
                Some((path, chained)) => end == Some(chained) && path@ == seq![saddle, escape] + rest,
                None => end is None,
            }
        }),
{
    let ghost det = match detected {
        Some(d) => Some(d@),
        None => None,
    };
    let n = receiver.len();
    let mut path: Vec<usize> = Vec::new();
    path.push(saddle);
    path.push(escape);
    let mut cur = escape;
    let mut fuel: usize = n;
    let ghost prefix = seq![saddle, escape];
    loop
        invariant
            cur < n,
            n == receiver@.len(),
            ocean@.len() == n,
            lake_map@.len() == n,
            bowl@.len() == n,
            detected matches Some(d) ==> d@.len() == n,
            det == (match detected {
                Some(d) => Some(d@),
                None => None,
            }),
            receivers_ok(receiver@),
            fuel <= n,
            prefix == seq![saddle, escape],
            ({
                let (rest0, end0) = spill_walk(receiver@, ocean@, lake_map@, det, bowl@, escape as int, n as nat);
                let (rest, end) = spill_walk(receiver@, ocean@, lake_map@, det, bowl@, cur as int, fuel as nat);
                end0 == end && prefix + rest0 == path@ + rest
            }),
        decreases fuel,
    {
        if ocean[cur] {
            proof {
                let (rest0, end0) = spill_walk(receiver@, ocean@, lake_map@, det, bowl@, escape as int, n as nat);
                assert(path@ + Seq::<usize>::empty() =~= path@);
                assert(prefix + rest0 == path@);
            }
            return Some((path, None));
        }
        let lid = lake_map[cur];
        let did: u32 = match detected {
            Some(d) => d[cur],
            None => 0,
        };
        if lid != 0 || did != 0 {
            proof {
                let (rest0, end0) = spill_walk(receiver@, ocean@, lake_map@, det, bowl@, escape as int, n as nat);
                assert(did == lake_id_at(det, cur as int));
                assert(path@ + Seq::<usize>::empty() =~= path@);
                assert(prefix + rest0 == path@);
            }
            let id = if lid != 0 {
                lid
            } else {
                did
            };
            return Some((path, Some(id)));
        }
        if bowl[cur] {
            return None;
        }
        match receiver[cur] {
            None => {
                return None;
            },
            Some(next) => {
                let ghost before = path@;
                path.push(next);
                if fuel == 0 {
                    return None;
                }
                proof {
                    let (rest, end) = spill_walk(receiver@, ocean@, lake_map@, det, bowl@, next as int, (fuel - 1) as nat);
                    assert(before + (seq![next] + rest) =~= path@ + rest);
                }
                cur = next;
                fuel = fuel - 1;
            },
        }
    }
}

/// Default of the drainage thresholds' full-tree switch: the whole
/// upstream tree is ramified.
pub fn default_true() -> (b: bool)
    ensures
        b,
{
    true
}

/// `id` names a detected (not below-sea) lake.
pub open spec fn is_detected_id(id: u32) -> bool {
    0 < id < crate::river_clip::BELOW_SEA_LAKE_ID_BASE
}

/// Overlay the below-sea lake map onto the detected lake map: every cell
/// claimed by a below-sea basin takes its id, every other cell keeps its
/// own. Returns, in increasing order, the detected lake ids that had cells
/// before and have none left (lakes wholly submerged by a below-sea lake).
pub fn overlay_below_sea_lakes(lake_map: &mut Vec<u32>, below: &[u32]) -> (absorbed: Vec<u32>)
    requires
        below@.len() == old(lake_map)@.len(),
    ensures
        final(lake_map)@.len() == old(lake_map)@.len(),
        forall|k: int|
            0 <= k < below@.len() ==> #[trigger] final(lake_map)@[k] == (if below@[k] != 0 {
                below@[k]
            } else {
                old(lake_map)@[k]
            }),
        forall|id: u32|
            #[trigger] absorbed@.contains(id) <==> (is_detected_id(id) && old(lake_map)@.contains(id)
                && !final(lake_map)@.contains(id)),
        forall|s: int, t: int| 0 <= s < t < absorbed@.len() ==> #[trigger] absorbed@[s] < #[trigger] absorbed@[t],
{
    let n = lake_map.len();
    let base = crate::river_clip::BELOW_SEA_LAKE_ID_BASE;
    let ghost m0 = lake_map@;
    let mut before: Vec<bool> = vec![false; base as usize];
    let mut after: Vec<bool> = vec![false; base as usize];
    let mut k: usize = 0;
    while k < n
        invariant
            n == lake_map@.len(),
            lake_map@.len() == m0.len(),
            below@.len() == n,
            base == crate::river_clip::BELOW_SEA_LAKE_ID_BASE,
            before@.len() == base,
            after@.len() == base,
            k <= n,
            forall|c: int| 0 <= c < k ==> #[trigger] lake_map@[c] == (if below@[c] != 0 {
                below@[c]
            } else {
                m0[c]
            }),
            forall|c: int| k <= c < n ==> #[trigger] lake_map@[c] == m0[c],
            forall|id: int|
                0 < id < base ==> (#[trigger] before@[id] <==> exists|c: int| 0 <= c < k && m0[c] == id),
            forall|id: int|
                0 < id < base ==> (#[trigger] after@[id] <==> exists|c: int| 0 <= c < k && lake_map@[c] == id),
        decreases n - k,
    {
        let ghost b0 = before@;
        let ghost a0 = after@;
        let old_id = lake_map[k];
        if old_id != 0 && old_id < base {
            before.set(old_id as usize, true);
        }
        let new_id = if below[k] != 0 {
            below[k]
        } else {
            old_id
        };
        let ghost l0 = lake_map@;
        lake_map.set(k, new_id);
        if new_id != 0 && new_id < base {
            after.set(new_id as usize, true);
        }
        proof {
            assert forall|id: int| 0 < id < base implies (#[trigger] before@[id] <==> exists|c: int|
                0 <= c < k + 1 && m0[c] == id) by {
                if before@[id] && !b0[id] {
                    assert(m0[k as int] == id);
                }
                if exists|c: int| 0 <= c < k + 1 && m0[c] == id {
                    let c = choose|c: int| 0 <= c < k + 1 && m0[c] == id;
                    if c < k {
                        assert(b0[id]);
                    }
                }
                if b0[id] {
                    let c = choose|c: int| 0 <= c < k && m0[c] == id;
                    assert(0 <= c < k + 1 && m0[c] == id);
                }
            }
            assert forall|id: int| 0 < id < base implies (#[trigger] after@[id] <==> exists|c: int|
                0 <= c < k + 1 && lake_map@[c] == id) by {
                if after@[id] && !a0[id] {
                    assert(lake_map@[k as int] == id);
                }
                if exists|c: int| 0 <= c < k + 1 && lake_map@[c] == id {
                    let c = choose|c: int| 0 <= c < k + 1 && lake_map@[c] == id;
                    if c < k {
                        assert(a0[id]);
                    }
                }
                if a0[id] {
                    let c = choose|c: int| 0 <= c < k && l0[c] == id;
                    assert(lake_map@[c] == l0[c]);
                    assert(0 <= c < k + 1 && lake_map@[c] == id);
                }
            }
        }
        k = k + 1;
    }
    let mut absorbed: Vec<u32> = Vec::new();
    let mut id: u32 = 1;
    while id < base
        invariant
            1 <= id <= base,
            base == crate::river_clip::BELOW_SEA_LAKE_ID_BASE,
            before@.len() == base,
            after@.len() == base,
            lake_map@.len() == n,
            m0.len() == n,
            forall|i: int| 0 < i < base ==> (#[trigger] before@[i] <==> exists|c: int| 0 <= c < n && m0[c] == i),
            forall|i: int|
                0 < i < base ==> (#[trigger] after@[i] <==> exists|c: int| 0 <= c < n && lake_map@[c] == i),
            forall|i: u32|
                #[trigger] absorbed@.contains(i) <==> (1 <= i < id && is_detected_id(i) && m0.contains(i)
                    && !lake_map@.contains(i)),
            forall|t: int| 0 <= t < absorbed@.len() ==> #[trigger] absorbed@[t] < id,
            forall|s: int, t: int| 0 <= s < t < absorbed@.len() ==> #[trigger] absorbed@[s] < #[trigger] absorbed@[t],
        decreases base - id,
    {
        let ghost ab0 = absorbed@;
        let b = before[id as usize];
        let a = after[id as usize];
        if b && !a {
            absorbed.push(id);
        }
        proof {
            let i0 = id;
            assert(before@[i0 as int] <==> m0.contains(i0)) by {
                if m0.contains(i0) {
                    let c = choose|c: int| 0 <= c < m0.len() && m0[c] == i0;
                    assert(0 <= c < n && m0[c] == i0);
                }
            }
            assert(after@[i0 as int] <==> lake_map@.contains(i0)) by {
                if lake_map@.contains(i0) {
                    let c = choose|c: int| 0 <= c < lake_map@.len() && lake_map@[c] == i0;
                    assert(0 <= c < n && lake_map@[c] == i0);
                }
            }
            if b && !a {
                assert(absorbed@ == ab0.push(i0));
            } else {
                assert(absorbed@ == ab0);
            }
            assert forall|i: u32| #[trigger] absorbed@.contains(i) implies (1 <= i < id + 1 && is_detected_id(i)
                && m0.contains(i) && !lake_map@.contains(i)) by {
                let t = choose|t: int| 0 <= t < absorbed@.len() && absorbed@[t] == i;
                if t < ab0.len() {
                    assert(ab0[t] == i);
                    assert(ab0.contains(i));
                } else {
                    assert(i == i0 && b && !a);
                }
            }
            assert forall|i: u32|
                (1 <= i < id + 1 && is_detected_id(i) && m0.contains(i) && !lake_map@.contains(i)) implies #[trigger] absorbed@.contains(i) by {
                if i < id {
                    assert(ab0.contains(i));
                    let t = choose|t: int| 0 <= t < ab0.len() && ab0[t] == i;
                    assert(absorbed@[t] == i);
                } else {
                    assert(i == i0);
                    assert(b && !a);
                    assert(absorbed@[absorbed@.len() - 1] == i);
                }
            }
        }
        id = id + 1;
    }
    absorbed
}

/// A spillway runs downhill along the flow field: each appended cell is the
/// receiver of the one before it, and a walk that ends at the ocean ends on
/// an ocean cell (one that ends in a lake ends on a cell of that lake).
pub proof fn law_spill_walk_follows_receivers(
    receiver: Seq<Option<usize>>,
    ocean: Seq<bool>,
    lake_map: Seq<u32>,
    detected: Option<Seq<u32>>,
    bowl: Seq<bool>,
    cur: int,
    fuel: nat,
)
    requires
        0 <= cur < receiver.len() <= usize::MAX,
        receivers_ok(receiver),
    ensures
        ({
            let (rest, end) = spill_walk(receiver, ocean, lake_map, detected, bowl, cur, fuel);
            let path = seq![cur as usize] + rest;
            &&& forall|t: int| 0 <= t < rest.len() ==> receiver[path[t] as int] == Some(#[trigger] path[t + 1])
            &&& end == Some(None::<u32>) ==> ocean[path.last() as int]
            &&& (end matches Some(Some(id)) ==> lake_map[path.last() as int] == id || lake_id_at(detected, path.last() as int) == id)
        }),
    decreases fuel,
{
    let (rest, end) = spill_walk(receiver, ocean, lake_map, detected, bowl, cur, fuel);
    let path = seq![cur as usize] + rest;
    if !ocean[cur] && lake_map[cur] == 0 && lake_id_at(detected, cur) == 0 && !bowl[cur] {
        if let Some(next) = receiver[cur] {
            if fuel > 0 {
                law_spill_walk_follows_receivers(receiver, ocean, lake_map, detected, bowl, next as int, (fuel - 1) as nat);
                let (rest2, end2) = spill_walk(receiver, ocean, lake_map, detected, bowl, next as int, (fuel - 1) as nat);
                let path2 = seq![next] + rest2;
                assert(rest == path2);
                assert forall|t: int| 0 <= t < rest.len() implies receiver[path[t] as int] == Some(#[trigger] path[t + 1]) by {
                    if t > 0 {
                        let u = t - 1;
                        assert(receiver[path2[u] as int] == Some(path2[u + 1]));
                        assert(path[t] == path2[u]);
                        assert(path[t + 1] == path2[u + 1]);
                    } else {
                        assert(path[0] as int == cur);
                        assert(path[1] == next);
                    }
                }
                assert(path.last() == path2.last());
            }
        }
    }
}

/// Occurrences of `id` among the first `k` entries of `ids`.
pub open spec fn id_count(ids: Seq<u32>, id: u32, k: int) -> nat
    decreases k,
{
    if k <= 0 {
        0
    } else {
        id_count(ids, id, k - 1) + (if ids[k - 1] == id {
            1nat
        } else {
            0nat
        })
    }
}

proof fn lemma_id_count_le(ids: Seq<u32>, id: u32, k: int)
    requires
        0 <= k,
    ensures
        id_count(ids, id, k) <= k,
    decreases k,
{
    if k > 0 {
        lemma_id_count_le(ids, id, k - 1);
    }
}

/// Number of occurrences of `id` in `ids`.
fn count_id(ids: &[u32], id: u32) -> (c: usize)
    ensures
        c == id_count(ids@, id, ids@.len() as int),
{
    let mut c: usize = 0;
    let mut t: usize = 0;
    while t < ids.len()
        invariant
            t <= ids@.len(),
            c == id_count(ids@, id, t as int),
        decreases ids@.len() - t,
    {
        proof {
            lemma_id_count_le(ids@, id, t as int);
        }
        if ids[t] == id {
            c = c + 1;
        }
        t = t + 1;
    }
    c
}

/// The lake occupying a crater: among the lake ids of the crater's cells
/// (`0` for a dry cell), the most frequent non-zero one, the smallest id
/// among equally frequent ones; `None` when every cell is dry.
pub fn majority_lake_id(ids: &[u32]) -> (best: Option<u32>)
    ensures
        best is None <==> forall|t: int| 0 <= t < ids@.len() ==> #[trigger] ids@[t] == 0,
        best matches Some(id) ==> {
            let n = ids@.len() as int;
            &&& id != 0
            &&& ids@.contains(id)
            &&& forall|t: int|
                0 <= t < n && #[trigger] ids@[t] != 0 ==> id_count(ids@, ids@[t], n) <= id_count(ids@, id, n)
            &&& forall|t: int|
                0 <= t < n && #[trigger] ids@[t] != 0 && id_count(ids@, ids@[t], n) == id_count(ids@, id, n) ==> id
                    <= ids@[t]
        },
{
    let n = ids.len();
    let ghost m = n as int;
    let mut best: Option<u32> = None;
    let mut best_count: usize = 0;
    let mut t: usize = 0;
    while t < n
        invariant
            n == ids@.len(),
            m == n,
            t <= n,
            best is None <==> forall|s: int| 0 <= s < t ==> #[trigger] ids@[s] == 0,
            best matches Some(id) ==> {
                &&& id != 0
                &&& ids@.contains(id)
                &&& best_count == id_count(ids@, id, m)
                &&& forall|s: int|
                    0 <= s < t && #[trigger] ids@[s] != 0 ==> id_count(ids@, ids@[s], m) <= best_count
                &&& forall|s: int|
                    0 <= s < t && #[trigger] ids@[s] != 0 && id_count(ids@, ids@[s], m) == best_count ==> id
                        <= ids@[s]
            },
        decreases n - t,
    {
        let id = ids[t];
        if id != 0 {
            let c = count_id(ids, id);
            match best {
                None => {
                    best = Some(id);
                    best_count = c;
                },
                Some(b) => {
                    if c > best_count || (c == best_count && id < b) {
                        best = Some(id);
                        best_count = c;
                    }
                },
            }
            proof {
                assert(ids@[t as int] == id);
            }
        }
        t = t + 1;
    }
    best
}

} // verus!
