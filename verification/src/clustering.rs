//! Continental clustering: plate types assigned by breadth-first growth
//! over the plate adjacency graph from deterministically drawn seed
//! plates, so that continental plates form geographic clusters.

use vstd::prelude::*;

use rand::{Rng, SeedableRng};
use rand_chacha::ChaCha8Rng;

use std::collections::VecDeque;

use crate::grid::PlateType;

verus! {

/// The first `count` 64-bit outputs of a ChaCha8 generator seeded with
/// `seed` through `SeedableRng::seed_from_u64`.
pub uninterp spec fn chacha8_u64_draws(seed: u64, count: nat) -> Seq<u64>;

/// Calls `rand_chacha::ChaCha8Rng::seed_from_u64(seed)` and then
/// `rand::Rng::random::<u64>()` `count` times. Claims: the result is the
/// named stream `chacha8_u64_draws(seed, count)`, which has `count`
/// elements. The values themselves are not stated.
#[verifier::external_body]
fn seeded_u64_draws(seed: u64, count: usize) -> (draws: Vec<u64>)
    ensures
        draws@ == chacha8_u64_draws(seed, count as nat),
        draws@.len() == count,
{
    let mut rng = ChaCha8Rng::seed_from_u64(seed);
    (0..count).map(|_| rng.random::<u64>()).collect()
}

/// Seed plates picked by successive draws: each draw, taken as a `usize`,
/// removes `avail[draw mod |avail|]` from the pool by swap-remove.
pub open spec fn pick_seeds(avail: Seq<u16>, draws: Seq<u64>) -> Seq<u16>
    decreases draws.len(),
{
    if draws.len() == 0 || avail.len() == 0 {
        Seq::empty()
    } else {
        let idx = ((draws[0] as usize) % (avail.len() as usize)) as int;
        seq![avail[idx]] + pick_seeds(avail.update(idx, avail.last()).drop_last(), draws.drop_first())
    }
}

/// `0, 1, …, n − 1` as plate ids.
pub open spec fn id_range(n: nat) -> Seq<u16> {
    Seq::new(n, |i: int| i as u16)
}

/// Clamp `x` into `[lo, hi]` (`lo <= hi`).
pub open spec fn clamp(x: int, lo: int, hi: int) -> int {
    if x < lo {
        lo
    } else if x > hi {
        hi
    } else {
        x
    }
}

/// Seeds drawn for a plate count `n`, a requested seed count and a seed.
pub open spec fn drawn_seeds(n: nat, seed_cluster_count: nat, seed: u64) -> Seq<u16> {
    pick_seeds(id_range(n), chacha8_u64_draws(seed, clamp(seed_cluster_count as int, 1, n as int) as nat))
}

/// Plate `b` is listed as a neighbour of plate `a`.
pub open spec fn linked(adj: Seq<Vec<u16>>, a: int, b: int) -> bool {
    0 <= a < adj.len() && 0 <= b <= u16::MAX && adj[a]@.contains(b as u16)
}

/// `path` walks the adjacency graph from a plate of `src` to `v`, every
/// step staying inside `within`.
pub open spec fn is_walk(adj: Seq<Vec<u16>>, src: Set<int>, within: Set<int>, path: Seq<int>, v: int) -> bool {
    &&& path.len() >= 1
    &&& src.contains(path[0])
    &&& path.last() == v
    &&& forall|t: int| 0 <= t < path.len() ==> within.contains(#[trigger] path[t])
    &&& forall|t: int| 0 <= t < path.len() - 1 ==> linked(adj, #[trigger] path[t], path[t + 1])
}

/// `v` can be reached from `src` through plates of `within`.
pub open spec fn reachable_within(adj: Seq<Vec<u16>>, src: Set<int>, within: Set<int>, v: int) -> bool {
    exists|path: Seq<int>| #[trigger] is_walk(adj, src, within, path, v)
}

/// Plates (as indices) typed continental.
pub open spec fn continental_set(types: Seq<PlateType>) -> Set<int> {
    Set::new(|p: int| 0 <= p < types.len() && types[p] == PlateType::Continental)
}

/// Number of continental entries.
pub open spec fn continental_count(types: Seq<PlateType>) -> nat
    decreases types.len(),
{
    if types.len() == 0 {
        0
    } else {
        continental_count(types.drop_last()) + (if types.last() == PlateType::Continental {
            1nat
        } else {
            0nat
        })
    }
}

/// All plate indices `< n`.
pub open spec fn all_plates(n: nat) -> Set<int> {
    Set::new(|p: int| 0 <= p < n)
}

/// The adjacency only names plates `< n` and has one row per plate.
pub open spec fn adjacency_ok(adj: Seq<Vec<u16>>, n: nat) -> bool {
    &&& adj.len() == n
    &&& forall|a: int, x: int| 0 <= a < n && 0 <= x < adj[a]@.len() ==> (#[trigger] adj[a]@[x] as int) < n
}

/// Integer plan of the clustering: the caller supplies the target count
/// `round(num_plates · continental_fraction)`.
#[derive(Clone, Copy, Debug)]
pub struct ClusterPlan {
    /// Master switch; when `false` the assignment is a no-op.
    pub enabled: bool,
    /// Requested number of continental plates (clamped to `[1, num_plates]`).
    pub target_continental: usize,
    /// Number of growth seeds (clamped to `[1, num_plates]`).
    pub seed_cluster_count: usize,
    /// Seed of the generator that picks the growth seeds.
    pub seed: u64,
}

/// Draw the growth seeds: `seed_count` distinct plates out of `0..n`.
fn draw_seeds(n: usize, seed_count: usize, seed: u64) -> (seeds: Vec<u16>)
    requires
        1 <= seed_count <= n,
        n <= 65536,
    ensures
        seeds@ == pick_seeds(id_range(n as nat), chacha8_u64_draws(seed, seed_count as nat)),
        seeds@.len() == seed_count,
        seeds@.no_duplicates(),
        forall|t: int| 0 <= t < seeds@.len() ==> (#[trigger] seeds@[t] as int) < n,
{
    let draws = seeded_u64_draws(seed, seed_count);
    let mut available: Vec<u16> = Vec::new();
    let mut v: usize = 0;
    while v < n
        invariant
            v <= n,
            n <= 65536,
            available@ == id_range(v as nat),
        decreases n - v,
    {
        available.push(v as u16);
        v = v + 1;
        assert(available@ =~= id_range(v as nat));
    }
    let mut seeds: Vec<u16> = Vec::new();
    proof {
        assert(draws@.subrange(0, seed_count as int) =~= draws@);
        assert(seeds@ + pick_seeds(available@, draws@) =~= pick_seeds(available@, draws@));
    }
    let mut t: usize = 0;
    while t < seed_count
        invariant
            seed_count <= n,
            n <= 65536,
            draws@.len() == seed_count,
            t <= seed_count,
            available@.len() == n - t,
            available@.no_duplicates(),
            forall|x: int| 0 <= x < available@.len() ==> (#[trigger] available@[x] as int) < n,
            forall|x: int, y: int| 0 <= x < seeds@.len() && 0 <= y < available@.len() ==> seeds@[x] != available@[y],
            seeds@.no_duplicates(),
            forall|x: int| 0 <= x < seeds@.len() ==> (#[trigger] seeds@[x] as int) < n,
            seeds@.len() == t,
            seeds@ + pick_seeds(available@, draws@.subrange(t as int, seed_count as int)) == pick_seeds(
                id_range(n as nat),
                draws@,
            ),
        decreases seed_count - t,
    {
        let ghost av0 = available@;
        let ghost rest = draws@.subrange(t as int, seed_count as int);
        let idx = (draws[t] as usize) % available.len();
        let s = available.swap_remove(idx);
        seeds.push(s);
        proof {
            assert(rest.len() > 0);
            assert(rest[0] == draws@[t as int]);
            assert(rest.drop_first() =~= draws@.subrange(t + 1, seed_count as int));
            assert(pick_seeds(av0, rest) == seq![av0[idx as int]] + pick_seeds(
                av0.update(idx as int, av0.last()).drop_last(),
                rest.drop_first(),
            ));
            assert(available@ == av0.update(idx as int, av0.last()).drop_last());
            assert forall|x: int, y: int| 0 <= x < available@.len() && 0 <= y < available@.len() && x != y implies available@[x]
                != available@[y] by {
                let xx = if x == idx { av0.len() - 1 } else { x };
                let yy = if y == idx { av0.len() - 1 } else { y };
                assert(av0[xx] != av0[yy]);
            }
            assert forall|x: int, y: int| 0 <= x < seeds@.len() && 0 <= y < available@.len() implies seeds@[x]
                != available@[y] by {
                let yy = if y == idx { av0.len() - 1 } else { y };
                if x < t {
                    assert(seeds@[x] != av0[yy]);
                } else {
                    assert(yy != idx);
                }
            }
            assert forall|x: int, y: int| 0 <= x < seeds@.len() && 0 <= y < seeds@.len() && x != y implies seeds@[x]
                != seeds@[y] by {
                if x == t as int {
                    assert(seeds@[y] != av0[idx as int]);
                } else if y == t as int {
                    assert(seeds@[x] != av0[idx as int]);
                }
            }
            assert(seeds@ + pick_seeds(available@, draws@.subrange(t + 1, seed_count as int)) =~= (seeds@.drop_last()
                + pick_seeds(av0, rest)));
        }
        t = t + 1;
    }
    proof {
        assert(draws@.subrange(seed_count as int, seed_count as int) =~= Seq::<u64>::empty());
        assert(seeds@ + Seq::<u16>::empty() =~= seeds@);
    }
    seeds
}


proof fn lemma_count_update(s: Seq<PlateType>, i: int)
    requires
        0 <= i < s.len(),
        s[i] == PlateType::Oceanic,
    ensures
        continental_count(s.update(i, PlateType::Continental)) == continental_count(s) + 1,
    decreases s.len(),
{
    let u = s.update(i, PlateType::Continental);
    if i == s.len() - 1 {
        assert(u.drop_last() =~= s.drop_last());
    } else {
        assert(u.drop_last() =~= s.drop_last().update(i, PlateType::Continental));
        lemma_count_update(s.drop_last(), i);
    }
}

proof fn lemma_count_all_oceanic(s: Seq<PlateType>)
    requires
        forall|k: int| 0 <= k < s.len() ==> s[k] == PlateType::Oceanic,
    ensures
        continental_count(s) == 0,
    decreases s.len(),
{
    if s.len() > 0 {
        lemma_count_all_oceanic(s.drop_last());
    }
}

proof fn lemma_walk_mono(adj: Seq<Vec<u16>>, src: Set<int>, a: Set<int>, b: Set<int>, path: Seq<int>, v: int)
    requires
        is_walk(adj, src, a, path, v),
        a.subset_of(b),
    ensures
        is_walk(adj, src, b, path, v),
{
    assert forall|t: int| 0 <= t < path.len() implies b.contains(#[trigger] path[t]) by {
        assert(a.contains(path[t]));
    }
}

/// A set that contains the sources and is closed under adjacency contains
/// every plate reachable from the sources.
proof fn lemma_closed_contains_reachable(
    adj: Seq<Vec<u16>>,
    src: Set<int>,
    within: Set<int>,
    closed: Set<int>,
    path: Seq<int>,
    v: int,
)
    requires
        is_walk(adj, src, within, path, v),
        src.subset_of(closed),
        forall|a: int, x: int|
            closed.contains(a) && 0 <= a < adj.len() && 0 <= x < adj[a]@.len() ==> closed.contains(
                #[trigger] adj[a]@[x] as int,
            ),
    ensures
        closed.contains(v),
    decreases path.len(),
{
    if path.len() > 1 {
        let prefix = path.drop_last();
        assert(is_walk(adj, src, within, prefix, prefix.last())) by {
            assert forall|t: int| 0 <= t < prefix.len() - 1 implies linked(adj, #[trigger] prefix[t], prefix[t + 1]) by {
                assert(linked(adj, path[t], path[t + 1]));
            }
            assert forall|t: int| 0 <= t < prefix.len() implies within.contains(#[trigger] prefix[t]) by {
                assert(within.contains(path[t]));
            }
        }
        lemma_closed_contains_reachable(adj, src, within, closed, prefix, prefix.last());
        let a = prefix.last();
        assert(linked(adj, path[path.len() - 2], path[path.len() - 1]));
        assert(adj[a]@.contains(v as u16));
        let x = choose|x: int| 0 <= x < adj[a]@.len() && adj[a]@[x] == v as u16;
        assert(closed.contains(adj[a]@[x] as int));
        assert(0 <= v <= u16::MAX);
        assert(adj[a]@[x] as int == v);
    } else {
        assert(path.last() == path[0]);
    }
}


proof fn lemma_extend_walks(adj: Seq<Vec<u16>>, src: Set<int>, old_set: Set<int>, p: int, u: int)
    requires
        forall|v: int| #[trigger] old_set.contains(v) ==> reachable_within(adj, src, old_set, v),
        old_set.contains(p),
        linked(adj, p, u),
    ensures
        forall|v: int|
            #[trigger] old_set.insert(u).contains(v) ==> reachable_within(adj, src, old_set.insert(u), v),
{
    let new_set = old_set.insert(u);
    assert forall|v: int| #[trigger] new_set.contains(v) implies reachable_within(adj, src, new_set, v) by {
        if old_set.contains(v) {
            let path = choose|path: Seq<int>| #[trigger] is_walk(adj, src, old_set, path, v);
            lemma_walk_mono(adj, src, old_set, new_set, path, v);
        } else {
            let path = choose|path: Seq<int>| #[trigger] is_walk(adj, src, old_set, path, p);
            lemma_walk_mono(adj, src, old_set, new_set, path, p);
            let np = path.push(u);
            assert forall|t: int| 0 <= t < np.len() - 1 implies linked(adj, #[trigger] np[t], np[t + 1]) by {
                if t < path.len() - 1 {
                    assert(linked(adj, path[t], path[t + 1]));
                }
            }
            assert forall|t: int| 0 <= t < np.len() implies new_set.contains(#[trigger] np[t]) by {
                if t < path.len() {
                    assert(new_set.contains(path[t]));
                }
            }
            assert(is_walk(adj, src, new_set, np, v));
        }
    }
}

/// Breadth-first growth, queue stage: while the target is not met, pop
/// the first queued plate and scan its neighbours; the continental set
/// when the target is met or the queue runs dry.
pub open spec fn grow_drain(adj: Seq<Vec<u16>>, cont: Set<int>, queue: Seq<u16>, count: nat, target: nat) -> Set<int>
    decreases target - count, queue.len(), if queue.len() > 0 {
        adj[queue[0] as int]@.len() + 1
    } else {
        0
    },
{
    if count >= target || queue.len() == 0 {
        cont
    } else {
        grow_scan(adj, cont, queue.drop_first(), count, target, queue[0], 0)
    }
}

/// Breadth-first growth, scan stage: neighbours `x ..` of plate `p`, in
/// adjacency order; each one not yet continental becomes continental and
/// is queued, until the target is met.
pub open spec fn grow_scan(
    adj: Seq<Vec<u16>>,
    cont: Set<int>,
    queue: Seq<u16>,
    count: nat,
    target: nat,
    p: u16,
    x: nat,
) -> Set<int>
    decreases target - count, queue.len() + 1, adj[p as int]@.len() - x,
{
    if count >= target || x >= adj[p as int]@.len() {
        grow_drain(adj, cont, queue, count, target)
    } else {
        let u = adj[p as int]@[x as int];
        if cont.contains(u as int) {
            grow_scan(adj, cont, queue, count, target, p, x + 1)
        } else {
            grow_scan(adj, cont.insert(u as int), queue.push(u), count + 1, target, p, x + 1)
        }
    }
}

/// Number of seeds planted for a target: all of them, or the first
/// `target` ones.
pub open spec fn planted_count(seeds: Seq<u16>, target: int) -> int {
    if target < seeds.len() {
        target
    } else {
        seeds.len() as int
    }
}

/// The continental plates a plan yields on `n` plates: the planted seeds
/// (in draw order, at most the target), then breadth-first growth from
/// them in queue order and adjacency order until the target is met.
pub open spec fn clustered(adj: Seq<Vec<u16>>, n: nat, plan: ClusterPlan) -> Set<int> {
    let target = clamp(plan.target_continental as int, 1, n as int);
    let seeds = drawn_seeds(n, plan.seed_cluster_count as nat, plan.seed);
    let m = planted_count(seeds, target);
    grow_drain(adj, planted_set(seeds, target), seeds.take(m), m as nat, target as nat)
}

/// Every continental plate is reachable from the planted seeds through
/// continental plates.
#[verifier::opaque]
spec fn walks_ok(adj: Seq<Vec<u16>>, planted: Set<int>, types: Seq<PlateType>) -> bool {
    forall|v: int|
        #[trigger] continental_set(types).contains(v) ==> reachable_within(adj, planted, continental_set(types), v)
}

/// Every continental plate other than `extra` is still queued or has all its
/// neighbours continental.
#[verifier::opaque]
spec fn expanded_except(adj: Seq<Vec<u16>>, types: Seq<PlateType>, queue: Seq<u16>, extra: int) -> bool {
    forall|v: int, y: int|
        #[trigger] continental_set(types).contains(v) && 0 <= y < adj[v]@.len() ==> queue.contains(v as u16) || v
            == extra || continental_set(types).contains(#[trigger] adj[v]@[y] as int)
}

/// Book-keeping shared by every stage of the growth.
#[verifier::opaque]
spec fn grow_ok(
    types: Seq<PlateType>,
    visited: Seq<bool>,
    queue: Seq<u16>,
    count: nat,
    target: nat,
    n: nat,
    adj: Seq<Vec<u16>>,
    planted: Set<int>,
) -> bool {
    &&& adjacency_ok(adj, n)
    &&& types.len() == n
    &&& visited.len() == n
    &&& count <= target <= n
    &&& forall|q: int| 0 <= q < n ==> (#[trigger] visited[q] <==> types[q] == PlateType::Continental)
    &&& count == continental_count(types)
    &&& planted.subset_of(continental_set(types))
    &&& walks_ok(adj, planted, types)
    &&& forall|z: int| 0 <= z < queue.len() ==> (#[trigger] queue[z] as int) < n
    &&& forall|z: int| 0 <= z < queue.len() ==> continental_set(types).contains(#[trigger] queue[z] as int)
}

proof fn lemma_grow_ok_shape(
    types: Seq<PlateType>,
    visited: Seq<bool>,
    queue: Seq<u16>,
    count: nat,
    target: nat,
    n: nat,
    adj: Seq<Vec<u16>>,
    planted: Set<int>,
)
    requires
        grow_ok(types, visited, queue, count, target, n, adj, planted),
    ensures
        adjacency_ok(adj, n),
        types.len() == n,
        visited.len() == n,
        count <= target <= n,
        forall|q: int| 0 <= q < n ==> (#[trigger] visited[q] <==> types[q] == PlateType::Continental),
        forall|z: int| 0 <= z < queue.len() ==> (#[trigger] queue[z] as int) < n,
        forall|z: int| 0 <= z < queue.len() ==> continental_set(types).contains(#[trigger] queue[z] as int),
        planted.subset_of(continental_set(types)),
        walks_ok(adj, planted, types),
        count == continental_count(types),
{
    reveal(grow_ok);
}

proof fn lemma_walks_ok_insert(adj: Seq<Vec<u16>>, planted: Set<int>, t0: Seq<PlateType>, t1: Seq<PlateType>, p: int, u: int)
    requires
        walks_ok(adj, planted, t0),
        continental_set(t1) == continental_set(t0).insert(u),
        continental_set(t0).contains(p),
        linked(adj, p, u),
    ensures
        walks_ok(adj, planted, t1),
{
    reveal(walks_ok);
    lemma_extend_walks(adj, planted, continental_set(t0), p, u);
}

proof fn lemma_grow_step(
    t0: Seq<PlateType>,
    v0: Seq<bool>,
    q0: Seq<u16>,
    c0: nat,
    target: nat,
    n: nat,
    adj: Seq<Vec<u16>>,
    planted: Set<int>,
    p: int,
    u: int,
)
    requires
        grow_ok(t0, v0, q0, c0, target, n, adj, planted),
        c0 < target,
        continental_set(t0).contains(p),
        linked(adj, p, u),
        0 <= u < n,
        !v0[u],
    ensures
        grow_ok(
            t0.update(u, PlateType::Continental),
            v0.update(u, true),
            q0.push(u as u16),
            c0 + 1,
            target,
            n,
            adj,
            planted,
        ),
        continental_set(t0.update(u, PlateType::Continental)) == continental_set(t0).insert(u),
{
    reveal(grow_ok);
    let t1 = t0.update(u, PlateType::Continental);
    let q1 = q0.push(u as u16);
    assert(t0[u] == PlateType::Oceanic);
    lemma_count_update(t0, u);
    assert(continental_set(t1) =~= continental_set(t0).insert(u));
    lemma_walks_ok_insert(adj, planted, t0, t1, p, u);
    assert forall|z: int| 0 <= z < q1.len() implies continental_set(t1).contains(#[trigger] q1[z] as int) && (q1[z]
        as int) < n by {
        if z < q0.len() {
            assert(q1[z] == q0[z]);
        } else {
            assert((u as u16) as int == u);
        }
    }
}

/// Mark plate `u` continental (it is a neighbour of the continental plate
/// `p`) and queue it.
fn grow_into(
    types: &mut Vec<PlateType>,
    visited: &mut Vec<bool>,
    queue: &mut VecDeque<u16>,
    count: &mut usize,
    target: usize,
    adjacency: &Vec<Vec<u16>>,
    p: u16,
    u: u16,
    Ghost(planted): Ghost<Set<int>>,
)
    requires
        grow_ok(old(types)@, old(visited)@, old(queue)@, *old(count) as nat, target as nat, old(types)@.len(), adjacency@, planted),
        *old(count) < target,
        continental_set(old(types)@).contains(p as int),
        adjacency@[p as int]@.contains(u),
        (p as int) < old(types)@.len(),
        !old(visited)@[u as int],
        (u as int) < old(types)@.len(),
    ensures
        grow_ok(final(types)@, final(visited)@, final(queue)@, *final(count) as nat, target as nat, old(types)@.len(), adjacency@, planted),
        *final(count) == *old(count) + 1,
        continental_set(final(types)@) == continental_set(old(types)@).insert(u as int),
        final(queue)@ == old(queue)@.push(u),
{
    proof {
        lemma_grow_ok_shape(types@, visited@, queue@, *count as nat, target as nat, types@.len(), adjacency@, planted);
        assert(linked(adjacency@, p as int, u as int));
        lemma_grow_step(
            types@,
            visited@,
            queue@,
            *count as nat,
            target as nat,
            types@.len(),
            adjacency@,
            planted,
            p as int,
            u as int,
        );
    }
    visited.set(u as usize, true);
    types.set(u as usize, PlateType::Continental);
    *count = *count + 1;
    queue.push_back(u);
}

/// Expand the popped plate `p`: every not-yet-continental neighbour
/// becomes continental, until the target count is met.
fn expand_plate(
    types: &mut Vec<PlateType>,
    visited: &mut Vec<bool>,
    queue: &mut VecDeque<u16>,
    count: &mut usize,
    target: usize,
    adjacency: &Vec<Vec<u16>>,
    p: u16,
    Ghost(planted): Ghost<Set<int>>,
)
    requires
        grow_ok(old(types)@, old(visited)@, old(queue)@, *old(count) as nat, target as nat, old(types)@.len(), adjacency@, planted),
        continental_set(old(types)@).contains(p as int),
        (p as int) < old(types)@.len(),
        *old(count) < target ==> expanded_except(adjacency@, old(types)@, old(queue)@, p as int),
    ensures
        grow_ok(final(types)@, final(visited)@, final(queue)@, *final(count) as nat, target as nat, old(types)@.len(), adjacency@, planted),
        *final(count) < target ==> expanded_except(adjacency@, final(types)@, final(queue)@, -1),
        *final(count) >= *old(count),
        final(queue)@.len() == old(queue)@.len() + (*final(count) - *old(count)),
        grow_drain(adjacency@, continental_set(final(types)@), final(queue)@, *final(count) as nat, target as nat)
            == grow_scan(adjacency@, continental_set(old(types)@), old(queue)@, *old(count) as nat, target as nat, p, 0),
{
    let ghost n = types@.len();
    let ghost adj = adjacency@;
    proof {
        lemma_grow_ok_shape(types@, visited@, queue@, *count as nat, target as nat, n, adj, planted);
    }
    let row = &adjacency[p as usize];
    let len = row.len();
    let mut x: usize = 0;
    while x < len && *count < target
        invariant
            adj == adjacency@,
            row@ == adj[p as int]@,
            len == row@.len(),
            x <= len,
            types@.len() == n,
            (p as int) < n,
            grow_ok(types@, visited@, queue@, *count as nat, target as nat, n, adj, planted),
            continental_set(types@).contains(p as int),
            *count >= *old(count),
            queue@.len() == old(queue)@.len() + (*count - *old(count)),
            forall|y: int| 0 <= y < x ==> continental_set(types@).contains(#[trigger] adj[p as int]@[y] as int),
            *count < target ==> expanded_except(adj, types@, queue@, p as int),
            grow_scan(adj, continental_set(types@), queue@, *count as nat, target as nat, p, x as nat) == grow_scan(
                adj,
                continental_set(old(types)@),
                old(queue)@,
                *old(count) as nat,
                target as nat,
                p,
                0,
            ),
        decreases len - x,
    {
        let u = row[x];
        proof {
            lemma_grow_ok_shape(types@, visited@, queue@, *count as nat, target as nat, n, adj, planted);
            assert(adj[p as int]@[x as int] == u);
            assert((u as int) < n);
        }
        if !visited[u as usize] {
            let ghost t0 = types@;
            let ghost q0 = queue@;
            grow_into(types, visited, queue, count, target, adjacency, p, u, Ghost(planted));
            proof {
                lemma_grow_ok_shape(types@, visited@, queue@, *count as nat, target as nat, n, adj, planted);
                if *count < target {
                    reveal(expanded_except);
                    assert forall|v: int, y: int|
                        #[trigger] continental_set(types@).contains(v) && 0 <= y < adj[v]@.len() implies queue@.contains(
                        v as u16,
                    ) || v == p as int || continental_set(types@).contains(#[trigger] adj[v]@[y] as int) by {
                        if v == u as int {
                            assert(queue@[queue@.len() - 1] == v as u16);
                        } else {
                            assert(continental_set(t0).contains(v));
                            if q0.contains(v as u16) {
                                let z = choose|z: int| 0 <= z < q0.len() && q0[z] == v as u16;
                                assert(queue@[z] == v as u16);
                            } else if v != p as int {
                                assert(continental_set(t0).contains(adj[v]@[y] as int));
                            }
                        }
                    }
                }
            }
        } else {
            proof {
                lemma_grow_ok_shape(types@, visited@, queue@, *count as nat, target as nat, n, adj, planted);
                assert(continental_set(types@).contains(u as int));
            }
        }
        x = x + 1;
    }
    proof {
        if *count < target {
            assert(x == len);
            reveal(expanded_except);
            assert forall|v: int, y: int|
                #[trigger] continental_set(types@).contains(v) && 0 <= y < adj[v]@.len() implies queue@.contains(
                v as u16,
            ) || v == -1 || continental_set(types@).contains(#[trigger] adj[v]@[y] as int) by {
                if v == p as int {
                    assert(adj[p as int]@[y] == adj[v]@[y]);
                }
            }
        }
    }
}

/// Seeds actually planted: the first `min(target, |seeds|)` drawn seeds.
pub open spec fn planted_set(seeds: Seq<u16>, target: int) -> Set<int> {
    seeds.take(if target < seeds.len() { target } else { seeds.len() as int }).map_values(|s: u16| s as int).to_set()
}

/// Plant the seeds (all types must be oceanic): each becomes continental
/// and is queued, until the target count is met.
fn plant_seeds(
    per_plate_type: &mut Vec<PlateType>,
    seeds: &Vec<u16>,
    target: usize,
    adjacency: &Vec<Vec<u16>>,
) -> (r: (Vec<bool>, VecDeque<u16>, usize))
    requires
        adjacency_ok(adjacency@, old(per_plate_type)@.len()),
        old(per_plate_type)@.len() <= 65536,
        1 <= target <= old(per_plate_type)@.len(),
        forall|t: int| 0 <= t < old(per_plate_type)@.len() ==> old(per_plate_type)@[t] == PlateType::Oceanic,
        seeds@.no_duplicates(),
        forall|x: int| 0 <= x < seeds@.len() ==> (#[trigger] seeds@[x] as int) < old(per_plate_type)@.len(),
    ensures
        grow_ok(
            final(per_plate_type)@,
            r.0@,
            r.1@,
            r.2 as nat,
            target as nat,
            old(per_plate_type)@.len(),
            adjacency@,
            planted_set(seeds@, target as int),
        ),
        r.2 < target ==> expanded_except(adjacency@, final(per_plate_type)@, r.1@, -1),
        final(per_plate_type)@.len() == old(per_plate_type)@.len(),
        continental_set(final(per_plate_type)@) == planted_set(seeds@, target as int),
        r.1@ == seeds@.take(planted_count(seeds@, target as int)),
        r.2 as int == planted_count(seeds@, target as int),
{
    let n = per_plate_type.len();
    proof {
        lemma_count_all_oceanic(per_plate_type@);
        assert(continental_set(per_plate_type@) =~= Set::<int>::empty());
    }
    let ghost m: int = if (target as int) < seeds@.len() { target as int } else { seeds@.len() as int };
    let ghost planted: Set<int> = planted_set(seeds@, target as int);
    let ghost adj = adjacency@;
    let mut visited: Vec<bool> = vec![false; n];
    let mut queue: VecDeque<u16> = VecDeque::new();
    let mut count: usize = 0;
    let mut t: usize = 0;
    while t < seeds.len() && count < target
        invariant
            per_plate_type@.len() == n,
            visited@.len() == n,
            seeds@.no_duplicates(),
            forall|x: int| 0 <= x < seeds@.len() ==> (#[trigger] seeds@[x] as int) < n,
            t <= seeds@.len(),
            count == t,
            count <= target,
            target <= n,
            forall|p: int| 0 <= p < n ==> (#[trigger] visited@[p] <==> per_plate_type@[p] == PlateType::Continental),
            forall|p: int| 0 <= p < n ==> (per_plate_type@[p] == PlateType::Continental <==> exists|x: int|
                0 <= x < t && #[trigger] seeds@[x] as int == p),
            count == continental_count(per_plate_type@),
            queue@ == seeds@.take(t as int),
        decreases seeds@.len() - t,
    {
        let s = seeds[t];
        let ghost before = per_plate_type@;
        proof {
            assert(!(exists|x: int| 0 <= x < t && #[trigger] seeds@[x] as int == s as int)) by {
                if exists|x: int| 0 <= x < t && #[trigger] seeds@[x] as int == s as int {
                    let x = choose|x: int| 0 <= x < t && #[trigger] seeds@[x] as int == s as int;
                    assert(seeds@[x] == seeds@[t as int]);
                }
            }
            lemma_count_update(before, s as int);
        }
        visited.set(s as usize, true);
        per_plate_type.set(s as usize, PlateType::Continental);
        count = count + 1;
        queue.push_back(s);
        proof {
            assert(queue@ =~= seeds@.take(t + 1));
            assert forall|p: int| 0 <= p < n implies (per_plate_type@[p] == PlateType::Continental <==> exists|x: int|
                0 <= x < t + 1 && #[trigger] seeds@[x] as int == p) by {
                if p == s as int {
                    assert(seeds@[t as int] as int == p);
                }
            }
        }
        t = t + 1;
    }
    proof {
        assert(t == m);
        assert(continental_set(per_plate_type@) =~= planted) by {
            assert forall|p: int| continental_set(per_plate_type@).contains(p) <==> planted.contains(p) by {
                let ms = seeds@.take(m).map_values(|s: u16| s as int);
                if planted.contains(p) {
                    let x = choose|x: int| 0 <= x < ms.len() && #[trigger] ms[x] == p;
                    assert(seeds@[x] as int == p);
                }
                if continental_set(per_plate_type@).contains(p) {
                    let x = choose|x: int| 0 <= x < t && #[trigger] seeds@[x] as int == p;
                    assert(ms[x] == p);
                }
            }
        }
        reveal(walks_ok);
        reveal(expanded_except);
        reveal(grow_ok);
        assert forall|v: int| #[trigger] planted.contains(v) implies reachable_within(adj, planted, planted, v) by {
            assert(is_walk(adj, planted, planted, seq![v], v));
        }
        assert forall|z: int| 0 <= z < queue@.len() implies (#[trigger] queue@[z] as int) < n
            && continental_set(per_plate_type@).contains(queue@[z] as int) by {
            assert(queue@[z] == seeds@[z]);
        }
        assert forall|v: int, y: int|
            #[trigger] continental_set(per_plate_type@).contains(v) && 0 <= y < adj[v]@.len() implies queue@.contains(
            v as u16,
        ) || v == -1 || continental_set(per_plate_type@).contains(#[trigger] adj[v]@[y] as int) by {
            let x = choose|x: int| 0 <= x < t && #[trigger] seeds@[x] as int == v;
            assert(queue@[x] == v as u16);
        }
    }
    (visited, queue, count)
}

/// Breadth-first growth from the queued plates until the target count is
/// met or the queue runs dry.
fn grow_clusters(
    per_plate_type: &mut Vec<PlateType>,
    visited: Vec<bool>,
    queue: VecDeque<u16>,
    count: usize,
    target: usize,
    adjacency: &Vec<Vec<u16>>,
    Ghost(planted): Ghost<Set<int>>,
)
    requires
        old(per_plate_type)@.len() <= 65536,
        grow_ok(old(per_plate_type)@, visited@, queue@, count as nat, target as nat, old(per_plate_type)@.len(), adjacency@, planted),
        count < target ==> expanded_except(adjacency@, old(per_plate_type)@, queue@, -1),
    ensures
        final(per_plate_type)@.len() == old(per_plate_type)@.len(),
        planted.subset_of(continental_set(final(per_plate_type)@)),
        forall|v: int|
            #[trigger] continental_set(final(per_plate_type)@).contains(v) ==> reachable_within(
                adjacency@,
                planted,
                continental_set(final(per_plate_type)@),
                v,
            ),
        continental_count(final(per_plate_type)@) <= target,
        continental_count(final(per_plate_type)@) == target || forall|v: int|
            reachable_within(adjacency@, planted, all_plates(old(per_plate_type)@.len()), v) ==> #[trigger] continental_set(
                final(per_plate_type)@,
            ).contains(v),
        continental_set(final(per_plate_type)@) == grow_drain(
            adjacency@,
            continental_set(old(per_plate_type)@),
            queue@,
            count as nat,
            target as nat,
        ),
{
    let n = per_plate_type.len();
    let ghost adj = adjacency@;
    let ghost result = grow_drain(adjacency@, continental_set(per_plate_type@), queue@, count as nat, target as nat);
    let mut visited = visited;
    let mut queue = queue;
    let mut count = count;
    while count < target
        invariant
            adj == adjacency@,
            n <= 65536,
            grow_ok(per_plate_type@, visited@, queue@, count as nat, target as nat, n as nat, adj, planted),
            count < target ==> expanded_except(adj, per_plate_type@, queue@, -1),
            grow_drain(adj, continental_set(per_plate_type@), queue@, count as nat, target as nat) == result,
        ensures
            count >= target || queue@.len() == 0,
            grow_drain(adj, continental_set(per_plate_type@), queue@, count as nat, target as nat) == result,
        decreases n - count, queue@.len(),
    {
        let ghost qb = queue@;
        proof {
            lemma_grow_ok_shape(per_plate_type@, visited@, queue@, count as nat, target as nat, n as nat, adj, planted);
        }
        let front = queue.pop_front();
        let p = match front {
            None => break,
            Some(p) => p,
        };
        proof {
            reveal(grow_ok);
            assert(qb[0] == p);
            assert(continental_set(per_plate_type@).contains(p as int));
            assert forall|z: int| 0 <= z < queue@.len() implies (#[trigger] queue@[z] as int) < n
                && continental_set(per_plate_type@).contains(queue@[z] as int) by {
                assert(queue@[z] == qb[z + 1]);
            }
            reveal(expanded_except);
            assert forall|v: int, y: int|
                #[trigger] continental_set(per_plate_type@).contains(v) && 0 <= y < adj[v]@.len() implies queue@.contains(
                v as u16,
            ) || v == p as int || continental_set(per_plate_type@).contains(#[trigger] adj[v]@[y] as int) by {
                if qb.contains(v as u16) && v != p as int {
                    let z = choose|z: int| 0 <= z < qb.len() && qb[z] == v as u16;
                    assert(0 <= v < n);
                    assert((v as u16) as int == v);
                    assert(z != 0);
                    assert(queue@[z - 1] == v as u16);
                }
            }
        }
        expand_plate(per_plate_type, &mut visited, &mut queue, &mut count, target, adjacency, p, Ghost(planted));
    }
    proof {
        lemma_grow_ok_shape(per_plate_type@, visited@, queue@, count as nat, target as nat, n as nat, adj, planted);
        reveal(walks_ok);
        let cont = continental_set(per_plate_type@);
        if count < target {
            reveal(expanded_except);
            assert forall|v: int| reachable_within(adj, planted, all_plates(n as nat), v) implies #[trigger] cont.contains(
                v,
            ) by {
                let path = choose|path: Seq<int>| #[trigger] is_walk(adj, planted, all_plates(n as nat), path, v);
                assert forall|a: int, y: int|
                    cont.contains(a) && 0 <= a < adj.len() && 0 <= y < adj[a]@.len() implies cont.contains(
                    #[trigger] adj[a]@[y] as int,
                ) by {
                    assert(!queue@.contains(a as u16));
                }
                lemma_closed_contains_reachable(adj, planted, all_plates(n as nat), cont, path, v);
            }
        }
    }
}

/// Assign plate types by breadth-first growth over `adjacency` from the
/// drawn seed plates (see [`ClusterPlan`]). All plates start oceanic; the
/// planted seeds, then their breadth-first neighbourhood, become
/// continental until the target count is met or the reachable component
/// is exhausted. A disabled plan, or no plate, leaves the types untouched.
pub fn assign_continental_clusters(per_plate_type: &mut Vec<PlateType>, adjacency: &Vec<Vec<u16>>, plan: &ClusterPlan)
    requires
        plan.enabled && old(per_plate_type)@.len() > 0 ==> adjacency_ok(adjacency@, old(per_plate_type)@.len()),
        plan.enabled ==> old(per_plate_type)@.len() <= 65536,
    ensures
        final(per_plate_type)@.len() == old(per_plate_type)@.len(),
        !plan.enabled || old(per_plate_type)@.len() == 0 ==> final(per_plate_type)@ == old(per_plate_type)@,
        plan.enabled && old(per_plate_type)@.len() > 0 ==> ({
            let n = old(per_plate_type)@.len();
            let target = clamp(plan.target_continental as int, 1, n as int);
            let seeds = drawn_seeds(n, plan.seed_cluster_count as nat, plan.seed);
            let planted = planted_set(seeds, target);
            let cont = continental_set(final(per_plate_type)@);
            &&& seeds.len() == clamp(plan.seed_cluster_count as int, 1, n as int)
            &&& seeds.no_duplicates()
            &&& forall|t: int| 0 <= t < seeds.len() ==> (#[trigger] seeds[t] as int) < n
            &&& planted.contains(seeds[0] as int)
            &&& planted.subset_of(cont)
            &&& forall|v: int| #[trigger] cont.contains(v) ==> reachable_within(adjacency@, planted, cont, v)
            &&& continental_count(final(per_plate_type)@) <= target
            &&& (continental_count(final(per_plate_type)@) == target || forall|v: int|
                reachable_within(adjacency@, planted, all_plates(n), v) ==> #[trigger] cont.contains(v))
            &&& cont == clustered(adjacency@, n, *plan)
        }),
{
    if !plan.enabled {
        return;
    }
    let n = per_plate_type.len();
    if n == 0 {
        return;
    }
    let target: usize = if plan.target_continental < 1 {
        1
    } else if plan.target_continental > n {
        n
    } else {
        plan.target_continental
    };
    // All plates oceanic.
    let mut k: usize = 0;
    while k < n
        invariant
            per_plate_type@.len() == n,
            k <= n,
            forall|t: int| 0 <= t < k ==> per_plate_type@[t] == PlateType::Oceanic,
        decreases n - k,
    {
        per_plate_type.set(k, PlateType::Oceanic);
        k = k + 1;
    }
    let seed_count: usize = if plan.seed_cluster_count < 1 {
        1
    } else if plan.seed_cluster_count > n {
        n
    } else {
        plan.seed_cluster_count
    };
    let seeds = draw_seeds(n, seed_count, plan.seed);
    let ghost planted = planted_set(seeds@, target as int);
    proof {
        let taken = seeds@.take(if (target as int) < seeds@.len() { target as int } else { seeds@.len() as int });
        assert(taken.map_values(|s: u16| s as int)[0] == seeds@[0] as int);
        assert(taken.map_values(|s: u16| s as int).to_set().contains(seeds@[0] as int));
    }
    let (visited, queue, count) = plant_seeds(per_plate_type, &seeds, target, adjacency);
    grow_clusters(per_plate_type, visited, queue, count, target, adjacency, Ghost(planted));
}

/// Clustering is deterministic: two plate-type assignments that both carry
/// the continental set a plan yields (same adjacency, plate count and plan,
/// hence the same seed) are identical.
pub proof fn law_clustering_deterministic(
    t1: Seq<PlateType>,
    t2: Seq<PlateType>,
    adj: Seq<Vec<u16>>,
    plan: ClusterPlan,
)
    requires
        t1.len() == t2.len(),
        continental_set(t1) == clustered(adj, t1.len(), plan),
        continental_set(t2) == clustered(adj, t2.len(), plan),
    ensures
        t1 == t2,
{
    assert forall|p: int| 0 <= p < t1.len() implies t1[p] == t2[p] by {
        assert(continental_set(t1).contains(p) == continental_set(t2).contains(p));
        match t1[p] {
            PlateType::Continental => {},
            PlateType::Oceanic => {
                match t2[p] {
                    PlateType::Continental => {},
                    PlateType::Oceanic => {},
                }
            },
        }
    }
    assert(t1 =~= t2);
}

} // verus!
