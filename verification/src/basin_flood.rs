//! Local sill and flooded bowl of an enclosed basin: a priority flood
//! outward from the basin floor over quantised heights (8-connected,
//! bounded grid). Cells are popped lowest first (ties: lowest index); the
//! first popped cell with a strictly lower neighbour that lies outside the
//! basin's own component and is not yet in the bowl is the saddle, where
//! water leaves the basin. Every cell popped up to and including the saddle
//! forms the bowl. Among several such neighbours the escape is the one of
//! lowest raw height, given as a rank (`rank[a] < rank[b]` exactly when
//! cell `a` is strictly lower than cell `b`).

use vstd::prelude::*;

verus! {

/// Column offset of the `t`-th of the eight neighbours (E, SE, S, SW, W, NW, N, NE).
pub open spec fn d8_dx(t: int) -> int {
    if t == 0 || t == 1 || t == 7 {
        1
    } else if t == 2 || t == 6 {
        0
    } else {
        -1
    }
}

/// Row offset of the `t`-th of the eight neighbours (E, SE, S, SW, W, NW, N, NE).
pub open spec fn d8_dy(t: int) -> int {
    if t == 0 || t == 4 {
        0
    } else if t == 1 || t == 2 || t == 3 {
        1
    } else {
        -1
    }
}

/// The `t`-th neighbour of cell `c` (row-major, `w` wide, `h` high), when it
/// lies on the grid.
pub open spec fn nbr8(w: int, h: int, c: usize, t: int) -> Option<usize> {
    let x = (c as int) % w + d8_dx(t);
    let y = (c as int) / w + d8_dy(t);
    if 0 <= x < w && 0 <= y < h {
        Some((y * w + x) as usize)
    } else {
        None
    }
}

/// `a` is popped no later than `b`: lower height, or equal height and
/// lower index.
pub open spec fn pops_before(hq: Seq<i32>, a: usize, b: usize) -> bool {
    hq[a as int] < hq[b as int] || (hq[a as int] == hq[b as int] && a <= b)
}

/// Queued cells not yet popped into the bowl.
pub open spec fn frontier(queued: Set<usize>, bowl: Seq<usize>) -> Set<usize> {
    queued.filter(|c: usize| !bowl.contains(c))
}

/// `c` is the next cell the flood pops from `front`.
pub open spec fn is_next_pop(hq: Seq<i32>, front: Set<usize>, c: usize) -> bool {
    front.contains(c) && forall|d: usize| #[trigger] front.contains(d) ==> pops_before(hq, c, d)
}

/// The next cell the flood pops from a non-empty frontier.
pub open spec fn next_pop(hq: Seq<i32>, front: Set<usize>) -> usize {
    choose|c: usize| is_next_pop(hq, front, c)
}

/// Escape of `c` among its first `t` neighbours: among the neighbours
/// whose quantised height is strictly below `c`'s and that are neither in
/// the basin component nor in the bowl, the one of lowest raw-height rank
/// (the first in neighbour order among equal ranks).
pub open spec fn escape_scan(
    hq: Seq<i32>,
    rank: Seq<u64>,
    w: int,
    h: int,
    comp: Seq<usize>,
    bowl: Seq<usize>,
    c: usize,
    t: int,
) -> Option<usize>
    decreases t,
{
    if t <= 0 {
        None
    } else {
        let b = escape_scan(hq, rank, w, h, comp, bowl, c, t - 1);
        match nbr8(w, h, c, t - 1) {
            Some(e) => if hq[e as int] < hq[c as int] && !bowl.contains(e) && !comp.contains(e) && (b is None
                || rank[e as int] < rank[b->0 as int]) {
                Some(e)
            } else {
                b
            },
            None => b,
        }
    }
}

/// `queued` with the first `t` on-grid neighbours of `c` added.
pub open spec fn queue_nbrs(w: int, h: int, queued: Set<usize>, c: usize, t: int) -> Set<usize>
    decreases t,
{
    if t <= 0 {
        queued
    } else {
        let q = queue_nbrs(w, h, queued, c, t - 1);
        match nbr8(w, h, c, t - 1) {
            Some(e) => q.insert(e),
            None => q,
        }
    }
}

/// The flood from state (`bowl` popped so far, `queued` cells), for at
/// most `fuel` more pops: `(bowl, saddle, escape)` at the end. It stops
/// without a saddle when the frontier is exhausted.
pub open spec fn flood(
    hq: Seq<i32>,
    rank: Seq<u64>,
    w: int,
    h: int,
    comp: Seq<usize>,
    bowl: Seq<usize>,
    queued: Set<usize>,
    fuel: nat,
) -> (Seq<usize>, Option<usize>, Option<usize>)
    decreases fuel,
{
    let front = frontier(queued, bowl);
    if fuel == 0 || !(exists|c: usize| front.contains(c)) {
        (bowl, None, None)
    } else {
        let c = next_pop(hq, front);
        let e = escape_scan(hq, rank, w, h, comp, bowl, c, 8);
        if e is Some {
            (bowl.push(c), Some(c), e)
        } else {
            flood(hq, rank, w, h, comp, bowl.push(c), queue_nbrs(w, h, queued, c, 8), (fuel - 1) as nat)
        }
    }
}

/// Local sill of a basin: the flooded bowl (in pop order, saddle last),
/// the saddle and its escape neighbour, and the sill height (the saddle's
/// quantised height). Without an escape on the grid all three are `None`.
pub struct SillBowl {
    pub bowl: Vec<usize>,
    pub sill: Option<i32>,
    pub saddle: Option<usize>,
    pub escape: Option<usize>,
}

/// Set of marked indices.
pub open spec fn marked(q: Seq<bool>) -> Set<usize> {
    Set::new(|k: usize| (k as int) < q.len() && q[k as int])
}

/// The `t`-th on-grid neighbour of `c`.
fn neighbour8(w: usize, h: usize, c: usize, t: usize) -> (r: Option<usize>)
    requires
        0 < w,
        w * h <= usize::MAX,
        c < w * h,
        t < 8,
    ensures
        r == nbr8(w as int, h as int, c, t as int),
        r matches Some(e) ==> e < w * h,
{
    let x = c % w;
    let y = c / w;
    proof {
        assert(y < h) by (nonlinear_arith)
            requires
                c < w * h,
                y == c / w,
                0 < w,
        ;
    }
    let ok_x = if t == 0 || t == 1 || t == 7 {
        x + 1 < w
    } else if t == 2 || t == 6 {
        true
    } else {
        x >= 1
    };
    let ok_y = if t == 0 || t == 4 {
        true
    } else if t == 1 || t == 2 || t == 3 {
        y + 1 < h
    } else {
        y >= 1
    };
    if !(ok_x && ok_y) {
        return None;
    }
    let nx = if t == 0 || t == 1 || t == 7 {
        x + 1
    } else if t == 2 || t == 6 {
        x
    } else {
        x - 1
    };
    let ny = if t == 0 || t == 4 {
        y
    } else if t == 1 || t == 2 || t == 3 {
        y + 1
    } else {
        y - 1
    };
    proof {
        assert(ny * w + nx < w * h) by (nonlinear_arith)
            requires
                nx < w,
                ny < h,
        ;
    }
    Some(ny * w + nx)
}

/// Escape of `c` (see [`escape_scan`]), from the bowl and component marks.
fn find_escape(
    hq: &[i32],
    height_rank: &[u64],
    w: usize,
    h: usize,
    comp_mark: &Vec<bool>,
    in_bowl: &Vec<bool>,
    Ghost(comp): Ghost<Seq<usize>>,
    Ghost(bowl): Ghost<Seq<usize>>,
    c: usize,
) -> (r: Option<usize>)
    requires
        0 < w,
        hq@.len() == w * h,
        height_rank@.len() == w * h,
        w * h <= usize::MAX,
        c < w * h,
        comp_mark@.len() == w * h,
        in_bowl@.len() == w * h,
        forall|k: usize| k < w * h ==> (#[trigger] comp_mark@[k as int] <==> comp.contains(k)),
        forall|k: usize| k < w * h ==> (#[trigger] in_bowl@[k as int] <==> bowl.contains(k)),
    ensures
        r == escape_scan(hq@, height_rank@, w as int, h as int, comp, bowl, c, 8),
{
    let mut best: Option<usize> = None;
    let mut t: usize = 0;
    while t < 8
        invariant
            0 < w,
            hq@.len() == w * h,
            height_rank@.len() == w * h,
            w * h <= usize::MAX,
            c < w * h,
            comp_mark@.len() == w * h,
            in_bowl@.len() == w * h,
            forall|k: usize| k < w * h ==> (#[trigger] comp_mark@[k as int] <==> comp.contains(k)),
            forall|k: usize| k < w * h ==> (#[trigger] in_bowl@[k as int] <==> bowl.contains(k)),
            t <= 8,
            best == escape_scan(hq@, height_rank@, w as int, h as int, comp, bowl, c, t as int),
            best matches Some(b) ==> b < w * h,
        decreases 8 - t,
    {
        match neighbour8(w, h, c, t) {
            Some(e) => {
                let lower = hq[e] < hq[c] && !in_bowl[e] && !comp_mark[e];
                let better = match best {
                    None => true,
                    Some(b) => height_rank[e] < height_rank[b],
                };
                if lower && better {
                    best = Some(e);
                }
            },
            None => {},
        }
        t = t + 1;
    }
    best
}

proof fn lemma_push_contains(s: Seq<usize>, x: usize, k: usize)
    ensures
        s.push(x).contains(k) <==> (s.contains(k) || k == x),
{
    if s.push(x).contains(k) && k != x {
        let i = choose|i: int| 0 <= i < s.push(x).len() && #[trigger] s.push(x)[i] == k;
        assert(s[i] == k);
    }
    if s.contains(k) {
        let i = choose|i: int| 0 <= i < s.len() && #[trigger] s[i] == k;
        assert(s.push(x)[i] == k);
    }
    if k == x {
        assert(s.push(x)[s.len() as int] == k);
    }
}

proof fn lemma_next_pop_unique(hq: Seq<i32>, front: Set<usize>, c: usize)
    requires
        is_next_pop(hq, front, c),
    ensures
        next_pop(hq, front) == c,
{
    let d = next_pop(hq, front);
    assert(is_next_pop(hq, front, d));
    assert(pops_before(hq, c, d) && pops_before(hq, d, c));
}

/// Index of the frontier entry popped first.
fn pick_min(hq: &[i32], front: &Vec<usize>) -> (bi: usize)
    requires
        front@.len() > 0,
        forall|s: int| 0 <= s < front@.len() ==> (#[trigger] front@[s] as int) < hq@.len(),
    ensures
        bi < front@.len(),
        forall|s: int| 0 <= s < front@.len() ==> pops_before(hq@, front@[bi as int], #[trigger] front@[s]),
{
    let mut bi: usize = 0;
    let mut t: usize = 1;
    while t < front.len()
        invariant
            front@.len() > 0,
            forall|s: int| 0 <= s < front@.len() ==> (#[trigger] front@[s] as int) < hq@.len(),
            bi < t <= front@.len(),
            forall|s: int| 0 <= s < t ==> pops_before(hq@, front@[bi as int], #[trigger] front@[s]),
        decreases front@.len() - t,
    {
        let a = front[t];
        let b = front[bi];
        if hq[a] < hq[b] || (hq[a] == hq[b] && a < b) {
            bi = t;
        }
        t = t + 1;
    }
    bi
}

/// Priority flood of the basin whose component is `comp`, from its floor
/// cell `floor`, over the quantised heights `heights_q` of a `width ×
/// height` grid, with `height_rank` ordering the raw heights: the bowl,
/// sill, saddle and escape described by [`flood`].
pub fn basin_sill_and_bowl(
    heights_q: &[i32],
    height_rank: &[u64],
    width: usize,
    height: usize,
    comp: &[usize],
    floor: usize,
) -> (r: SillBowl)
    requires
        heights_q@.len() == width * height,
        height_rank@.len() == heights_q@.len(),
        floor < heights_q@.len(),
        forall|t: int| 0 <= t < comp@.len() ==> (#[trigger] comp@[t] as int) < heights_q@.len(),
    ensures
        (r.bowl@, r.saddle, r.escape) == flood(
            heights_q@,
            height_rank@,
            width as int,
            height as int,
            comp@,
            Seq::empty(),
            Set::empty().insert(floor),
            heights_q@.len() as nat,
        ),
        r.sill == (match r.saddle {
            Some(s) => Some(heights_q@[s as int]),
            None => None,
        }),
{
    let n = heights_q.len();
    let w = width;
    let h = height;
    let ghost hq = heights_q@;
    let ghost rank = height_rank@;
    let ghost wi = w as int;
    let ghost hi = h as int;
    let ghost cs = comp@;
    proof {
        assert(0 < w) by (nonlinear_arith)
            requires
                floor < w * h,
        ;
    }
    // Component, queue and bowl marks.
    let mut comp_mark: Vec<bool> = Vec::new();
    let mut queued: Vec<bool> = Vec::new();
    let mut in_bowl: Vec<bool> = Vec::new();
    let mut k: usize = 0;
    while k < n
        invariant
            k <= n,
            comp_mark@.len() == k,
            queued@.len() == k,
            in_bowl@.len() == k,
            forall|j: int| 0 <= j < k ==> !#[trigger] comp_mark@[j],
            forall|j: int| 0 <= j < k ==> !#[trigger] queued@[j],
            forall|j: int| 0 <= j < k ==> !#[trigger] in_bowl@[j],
        decreases n - k,
    {
        comp_mark.push(false);
        queued.push(false);
        in_bowl.push(false);
        k = k + 1;
    }
    let mut t: usize = 0;
    while t < comp.len()
        invariant
            n == heights_q@.len(),
            cs == comp@,
            forall|s: int| 0 <= s < comp@.len() ==> (#[trigger] comp@[s] as int) < n,
            t <= comp@.len(),
            comp_mark@.len() == n,
            forall|j: usize| j < n ==> (#[trigger] comp_mark@[j as int] <==> comp@.take(t as int).contains(j)),
            queued@.len() == n,
            in_bowl@.len() == n,
            forall|j: int| 0 <= j < n ==> !#[trigger] queued@[j],
            forall|j: int| 0 <= j < n ==> !#[trigger] in_bowl@[j],
        decreases comp@.len() - t,
    {
        let c = comp[t];
        comp_mark.set(c, true);
        proof {
            assert(comp@.take(t + 1) =~= comp@.take(t as int).push(c));
            let ghost pre = comp@.take(t as int);
            let ghost post = comp@.take(t + 1);
            assert forall|j: usize| j < n implies (#[trigger] comp_mark@[j as int] <==> post.contains(j)) by {
                if j == c {
                    assert(post[t as int] == c);
                }
                if post.contains(j) && j != c {
                    let s = choose|s: int| 0 <= s < post.len() && #[trigger] post[s] == j;
                    assert(pre[s] == j);
                }
                if pre.contains(j) {
                    let s = choose|s: int| 0 <= s < pre.len() && #[trigger] pre[s] == j;
                    assert(post[s] == j);
                }
            }
        }
        t = t + 1;
    }
    assert(comp@.take(comp@.len() as int) =~= comp@);
    queued.set(floor, true);
    let mut front: Vec<usize> = Vec::new();
    front.push(floor);
    let mut bowl: Vec<usize> = Vec::new();
    let mut saddle: Option<usize> = None;
    let mut escape: Option<usize> = None;
    let ghost target = flood(hq, rank, wi, hi, cs, Seq::empty(), Set::empty().insert(floor), n as nat);
    proof {
        assert(marked(queued@) =~= Set::empty().insert(floor));
        assert(bowl@ =~= Seq::<usize>::empty());
        assert(front@[0] == floor);
        assert forall|k: usize| #[trigger] front@.contains(k) <==> frontier(marked(queued@), bowl@).contains(k) by {
            if front@.contains(k) {
                let s = choose|s: int| 0 <= s < front@.len() && front@[s] == k;
                assert(s == 0);
            }
        }
    }
    let mut pops: usize = 0;
    while pops < n && front.len() > 0
        invariant
            0 < w,
            n == heights_q@.len(),
            n == w * h,
            hq == heights_q@,
            rank == height_rank@,
            height_rank@.len() == n,
            wi == w,
            hi == h,
            cs == comp@,
            comp_mark@.len() == n,
            forall|k: usize| k < n ==> (#[trigger] comp_mark@[k as int] <==> cs.contains(k)),
            queued@.len() == n,
            in_bowl@.len() == n,
            pops <= n,
            saddle is None,
            escape is None,
            forall|k: usize| k < n ==> (#[trigger] in_bowl@[k as int] <==> bowl@.contains(k)),
            forall|k: int| 0 <= k < n ==> #[trigger] in_bowl@[k] ==> queued@[k],
            forall|s: int| 0 <= s < bowl@.len() ==> (#[trigger] bowl@[s]) < n,
            forall|s: int| 0 <= s < front@.len() ==> (#[trigger] front@[s]) < n,
            front@.no_duplicates(),
            forall|k: usize| #[trigger] front@.contains(k) <==> frontier(marked(queued@), bowl@).contains(k),
            target == flood(hq, rank, wi, hi, cs, bowl@, marked(queued@), (n - pops) as nat),
            target == flood(hq, rank, wi, hi, cs, Seq::empty(), Set::empty().insert(floor), n as nat),
            w == width,
            h == height,
        decreases n - pops,
    {
        let ghost qs = marked(queued@);
        let ghost fs = frontier(qs, bowl@);
        let bi = pick_min(heights_q, &front);
        let c = front[bi];
        proof {
            assert(front@[bi as int] == c);
            assert(front@.contains(c));
            assert(fs.contains(c));
            assert forall|d: usize| #[trigger] fs.contains(d) implies pops_before(hq, c, d) by {
                assert(front@.contains(d));
                let s = choose|s: int| 0 <= s < front@.len() && front@[s] == d;
                assert(pops_before(hq, front@[bi as int], front@[s]));
            }
            lemma_next_pop_unique(hq, fs, c);
        }
        let e = find_escape(heights_q, height_rank, w, h, &comp_mark, &in_bowl, Ghost(cs), Ghost(bowl@), c);
        let ghost old_bowl = bowl@;
        if e.is_some() {
            bowl.push(c);
            saddle = Some(c);
            escape = e;
            proof {
                assert(target == (old_bowl.push(c), Some(c), e));
            }
            let sill = Some(heights_q[c]);
            return SillBowl { bowl, sill, saddle, escape };
        }
        let ghost old_front = front@;
        front.remove(bi);
        bowl.push(c);
        in_bowl.set(c, true);
        proof {
            assert forall|k: usize| #[trigger] front@.contains(k) <==> (old_front.contains(k) && k != c) by {
                if front@.contains(k) {
                    let s = choose|s: int| 0 <= s < front@.len() && front@[s] == k;
                    if s < bi {
                        assert(old_front[s] == k);
                    } else {
                        assert(old_front[s + 1] == k);
                    }
                }
                if old_front.contains(k) && k != c {
                    let s = choose|s: int| 0 <= s < old_front.len() && old_front[s] == k;
                    if s < bi {
                        assert(front@[s] == k);
                    } else {
                        assert(front@[s - 1] == k);
                    }
                }
            }
            assert forall|k: usize| k < n implies (#[trigger] in_bowl@[k as int] <==> bowl@.contains(k)) by {
                if bowl@.contains(k) && k != c {
                    let s = choose|s: int| 0 <= s < bowl@.len() && bowl@[s] == k;
                    assert(old_bowl[s] == k);
                }
                if k == c {
                    assert(bowl@[bowl@.len() - 1] == c);
                }
                if old_bowl.contains(k) {
                    let s = choose|s: int| 0 <= s < old_bowl.len() && old_bowl[s] == k;
                    assert(bowl@[s] == k);
                }
            }
            assert forall|k: usize| #[trigger] front@.contains(k) <==> frontier(marked(queued@), bowl@).contains(k) by {
                lemma_push_contains(old_bowl, c, k);
            }
        }
        let mut t: usize = 0;
        while t < 8
            invariant
                0 < w,
                n == heights_q@.len(),
                n == w * h,
                c < n,
                queued@.len() == n,
                in_bowl@.len() == n,
                t <= 8,
                forall|k: usize| k < n ==> (#[trigger] in_bowl@[k as int] <==> bowl@.contains(k)),
                forall|k: int| 0 <= k < n ==> #[trigger] in_bowl@[k] ==> queued@[k],
                forall|s: int| 0 <= s < bowl@.len() ==> (#[trigger] bowl@[s]) < n,
                forall|s: int| 0 <= s < front@.len() ==> (#[trigger] front@[s]) < n,
                front@.no_duplicates(),
                forall|k: usize| #[trigger] front@.contains(k) <==> frontier(marked(queued@), bowl@).contains(k),
                marked(queued@) == queue_nbrs(wi, hi, qs, c, t as int),
                wi == w,
                hi == h,
            decreases 8 - t,
        {
            match neighbour8(w, h, c, t) {
                Some(e) => {
                    let ghost q0 = queued@;
                    if !queued[e] {
                        proof {
                            assert(!in_bowl@[e as int]);
                            assert(!bowl@.contains(e));
                            assert(!front@.contains(e));
                        }
                        let ghost f0 = front@;
                        queued.set(e, true);
                        front.push(e);
                        proof {
                            assert forall|k: usize| #[trigger] front@.contains(k) <==> frontier(marked(queued@), bowl@).contains(k) by {
                                lemma_push_contains(f0, e, k);
                                assert(marked(queued@).contains(k) <==> (marked(q0).contains(k) || k == e));
                            }
                        }
                    }
                    proof {
                        assert(marked(queued@) =~= marked(q0).insert(e));
                    }
                },
                None => {},
            }
            t = t + 1;
        }
        pops = pops + 1;
        proof {
            assert(target == flood(hq, rank, wi, hi, cs, bowl@, marked(queued@), (n - pops) as nat));
        }
    }
    proof {
        if pops < n {
            assert(!(exists|c: usize| frontier(marked(queued@), bowl@).contains(c))) by {
                if exists|c: usize| frontier(marked(queued@), bowl@).contains(c) {
                    let c = choose|c: usize| frontier(marked(queued@), bowl@).contains(c);
                    assert(front@.contains(c));
                }
            }
        }
        assert(target == (bowl@, None::<usize>, None::<usize>));
    }
    SillBowl { bowl, sill: None, saddle, escape }
}


proof fn lemma_flood_shape(
    hq: Seq<i32>,
    rank: Seq<u64>,
    w: int,
    h: int,
    comp: Seq<usize>,
    bowl: Seq<usize>,
    queued: Set<usize>,
    fuel: nat,
)
    ensures
        ({
            let r = flood(hq, rank, w, h, comp, bowl, queued, fuel);
            &&& r.0.len() >= bowl.len()
            &&& forall|i: int| 0 <= i < bowl.len() ==> #[trigger] r.0[i] == bowl[i]
            &&& r.1 is Some ==> r.0.len() > bowl.len() && r.0.last() == r.1->0 && r.2 is Some
            &&& r.1 is None ==> r.2 is None
        }),
    decreases fuel,
{
    let front = frontier(queued, bowl);
    if fuel == 0 || !(exists|c: usize| front.contains(c)) {
    } else {
        let c = next_pop(hq, front);
        let e = escape_scan(hq, rank, w, h, comp, bowl, c, 8);
        if e is None {
            lemma_flood_shape(hq, rank, w, h, comp, bowl.push(c), queue_nbrs(w, h, queued, c, 8), (fuel - 1) as nat);
            let r = flood(hq, rank, w, h, comp, bowl.push(c), queue_nbrs(w, h, queued, c, 8), (fuel - 1) as nat);
            assert forall|i: int| 0 <= i < bowl.len() implies #[trigger] r.0[i] == bowl[i] by {
                assert(r.0[i] == bowl.push(c)[i]);
            }
        }
    }
}

/// The flood of a basin starts at its floor: the floor is the first cell
/// of the bowl. When a saddle is found it is the last cell of the bowl,
/// and an escape comes with it.
pub proof fn law_bowl_runs_from_floor_to_saddle(hq: Seq<i32>, rank: Seq<u64>, w: int, h: int, comp: Seq<usize>, floor: usize, fuel: nat)
    requires
        fuel > 0,
    ensures
        ({
            let r = flood(hq, rank, w, h, comp, Seq::empty(), Set::empty().insert(floor), fuel);
            &&& r.0.len() >= 1
            &&& r.0[0] == floor
            &&& r.1 is Some ==> r.0.last() == r.1->0 && r.2 is Some
            &&& r.1 is None ==> r.2 is None
        }),
{
    let bowl = Seq::<usize>::empty();
    let queued = Set::<usize>::empty().insert(floor);
    let front = frontier(queued, bowl);
    assert(front.contains(floor));
    assert(is_next_pop(hq, front, floor)) by {
        assert forall|d: usize| #[trigger] front.contains(d) implies pops_before(hq, floor, d) by {
            assert(d == floor);
        }
    }
    lemma_next_pop_unique(hq, front, floor);
    let e = escape_scan(hq, rank, w, h, comp, bowl, floor, 8);
    if e is None {
        lemma_flood_shape(hq, rank, w, h, comp, bowl.push(floor), queue_nbrs(w, h, queued, floor, 8), (fuel - 1) as nat);
    }
    lemma_flood_shape(hq, rank, w, h, comp, bowl, queued, fuel);
}

} // verus!
