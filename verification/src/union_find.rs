//! Union-find (disjoint sets) with path halving.

use vstd::prelude::*;

verus! {

/// Root reached from `x` by following parent links. `d` is a ghost
/// distance that strictly decreases along every link of a well-formed
/// forest, which makes the walk finite.
pub open spec fn root_of(p: Seq<usize>, d: Seq<nat>, x: int) -> int
    decreases d[x],
{
    if 0 <= x < p.len() && p[x] != x && (p[x] as int) < p.len() && d[p[x] as int] < d[x] {
        root_of(p, d, p[x] as int)
    } else {
        x
    }
}

/// The parent links form a forest over `0 .. n` ranked by `d`.
pub open spec fn forest_ok(p: Seq<usize>, d: Seq<nat>) -> bool {
    &&& p.len() == d.len()
    &&& forall|x: int| 0 <= x < p.len() ==> (#[trigger] p[x] as int) < p.len()
    &&& forall|x: int| 0 <= x < p.len() && p[x] != x ==> d[p[x] as int] < #[trigger] d[x]
}

proof fn lemma_root_props(p: Seq<usize>, d: Seq<nat>, x: int)
    requires
        forest_ok(p, d),
        0 <= x < p.len(),
    ensures
        0 <= root_of(p, d, x) < p.len(),
        p[root_of(p, d, x)] == root_of(p, d, x),
        p[x] != x ==> root_of(p, d, x) == root_of(p, d, p[x] as int),
        p[x] == x ==> root_of(p, d, x) == x,
    decreases d[x],
{
    if p[x] != x {
        lemma_root_props(p, d, p[x] as int);
    }
}

/// Redirecting `x` to its grandparent keeps every root.
proof fn lemma_halving_keeps_roots(p: Seq<usize>, d: Seq<nat>, x: int, y: int)
    requires
        forest_ok(p, d),
        0 <= x < p.len(),
        0 <= y < p.len(),
    ensures
        forest_ok(p.update(x, p[p[x] as int]), d),
        root_of(p.update(x, p[p[x] as int]), d, y) == root_of(p, d, y),
    decreases d[y],
{
    let q = p.update(x, p[p[x] as int]);
    assert(forest_ok(q, d)) by {
        assert forall|z: int| 0 <= z < q.len() && q[z] != z implies d[q[z] as int] < #[trigger] d[z] by {
            if z == x {
                if p[x] != x {
                    if p[p[x] as int] != p[x] {
                    }
                }
            }
        }
    }
    lemma_root_props(p, d, y);
    if q[y] != y {
        lemma_halving_keeps_roots(p, d, x, q[y] as int);
        if y == x {
            lemma_root_props(p, d, p[x] as int);
        }
    }
}

/// Disjoint-set forest over `0 .. n`.
pub struct DisjointSet {
    parent: Vec<usize>,
    dist: Ghost<Seq<nat>>,
}

impl DisjointSet {
    /// Well-formedness: the links form a ranked forest.
    pub closed spec fn wf(&self) -> bool {
        forest_ok(self.parent@, self.dist@)
    }

    /// Number of elements.
    pub closed spec fn size(&self) -> nat {
        self.parent@.len()
    }

    /// Representative of the set holding `x`.
    pub closed spec fn root(&self, x: int) -> int {
        root_of(self.parent@, self.dist@, x)
    }

    /// Representatives are elements of the set, and represent themselves.
    pub proof fn lemma_root(&self, x: int)
        requires
            self.wf(),
            0 <= x < self.size(),
        ensures
            0 <= self.root(x) < self.size(),
            self.root(self.root(x)) == self.root(x),
    {
        lemma_root_props(self.parent@, self.dist@, x);
        let r = self.root(x);
        lemma_root_props(self.parent@, self.dist@, r);
    }

    /// `n` singletons.
    pub fn new(n: usize) -> (s: Self)
        ensures
            s.wf(),
            s.size() == n,
            forall|x: int| 0 <= x < n ==> #[trigger] s.root(x) == x,
    {
        let mut parent: Vec<usize> = Vec::new();
        let mut k: usize = 0;
        while k < n
            invariant
                k <= n,
                parent@.len() == k,
                forall|x: int| 0 <= x < k ==> #[trigger] parent@[x] == x,
            decreases n - k,
        {
            parent.push(k);
            k = k + 1;
        }
        let s = DisjointSet { parent, dist: Ghost(Seq::new(n as nat, |_x: int| 0nat)) };
        s
    }

    /// Representative of `x`, halving the path on the way; the partition
    /// (every element's representative) is unchanged.
    pub fn find(&mut self, x: usize) -> (r: usize)
        requires
            old(self).wf(),
            x < old(self).size(),
        ensures
            final(self).wf(),
            final(self).size() == old(self).size(),
            r == old(self).root(x as int),
            forall|y: int| 0 <= y < old(self).size() ==> #[trigger] final(self).root(y) == old(self).root(y),
    {
        let ghost p0 = self.parent@;
        let ghost d = self.dist@;
        let ghost x0 = x as int;
        let mut x = x;
        proof {
            lemma_root_props(p0, d, x as int);
        }
        while self.parent[x] != x
            invariant
                forest_ok(self.parent@, d),
                self.dist@ == d,
                self.parent@.len() == p0.len(),
                0 <= x < p0.len(),
                root_of(p0, d, x as int) == root_of(p0, d, x0),
                forall|y: int| 0 <= y < p0.len() ==> #[trigger] root_of(self.parent@, d, y) == root_of(p0, d, y),
            decreases d[x as int],
        {
            let ghost pb = self.parent@;
            let px = self.parent[x];
            let gp = self.parent[px];
            proof {
                assert forall|y: int| 0 <= y < p0.len() implies #[trigger] root_of(pb.update(x as int, gp), d, y)
                    == root_of(p0, d, y) by {
                    lemma_halving_keeps_roots(pb, d, x as int, y);
                }
                lemma_halving_keeps_roots(pb, d, x as int, x as int);
            }
            self.parent.set(x, gp);
            proof {
                lemma_root_props(self.parent@, d, x as int);
            }
            x = self.parent[x];
        }
        proof {
            lemma_root_props(self.parent@, d, x as int);
            lemma_root_props(p0, d, x0);
        }
        x
    }

    /// Merge the sets of `a` and `b` (the root of `a` is linked under the
    /// root of `b`): afterwards every element of `a`'s set has `b`'s
    /// representative; every other element keeps its own.
    #[verifier::rlimit(40)]
    pub fn union(&mut self, a: usize, b: usize)
        requires
            old(self).wf(),
            a < old(self).size(),
            b < old(self).size(),
        ensures
            final(self).wf(),
            final(self).size() == old(self).size(),
            forall|y: int|
                0 <= y < old(self).size() ==> #[trigger] final(self).root(y) == (if old(self).root(y) == old(self).root(
                    a as int,
                ) {
                    old(self).root(b as int)
                } else {
                    old(self).root(y)
                }),
    {
        let ghost s0 = *self;
        proof {
            s0.lemma_root(a as int);
            s0.lemma_root(b as int);
        }
        let ra = self.find(a);
        let rb = self.find(b);
        proof {
            assert(self.root(a as int) == ra);
            assert(self.root(b as int) == rb);
            assert forall|y: int| 0 <= y < s0.size() implies #[trigger] self.root(y) == s0.root(y) by {}
        }
        if ra != rb {
            let ghost p = self.parent@;
            let ghost d = self.dist@;
            proof {
                lemma_root_props(p, d, a as int);
                lemma_root_props(p, d, b as int);
                lemma_link(p, d, ra as int, rb as int);
                assert forall|y: int| 0 <= y < s0.size() implies #[trigger] root_of(p, d, y) == s0.root(y) by {
                    assert(self.root(y) == s0.root(y));
                }
            }
            self.parent.set(ra, rb);
            self.dist = Ghost(relinked_dist(p, d, ra as int, rb as int));
            proof {
                assert forall|y: int| 0 <= y < s0.size() implies #[trigger] self.root(y) == (if s0.root(y) == s0.root(
                    a as int,
                ) {
                    s0.root(b as int)
                } else {
                    s0.root(y)
                }) by {
                    assert(root_of(p, d, y) == s0.root(y));
                }
            }
        } else {
            proof {
                assert(s0.root(a as int) == s0.root(b as int));
            }
        }
    }
}

/// Ghost distances after linking root `ra` under root `rb`: every element
/// of `ra`'s tree moves `d[rb] + 1` farther from its new root.
pub open spec fn relinked_dist(p: Seq<usize>, d: Seq<nat>, ra: int, rb: int) -> Seq<nat> {
    Seq::new(
        d.len(),
        |y: int|
            if root_of(p, d, y) == ra {
                d[y] + d[rb] + 1
            } else {
                d[y]
            },
    )
}

proof fn lemma_link(p: Seq<usize>, d: Seq<nat>, ra: int, rb: int)
    requires
        forest_ok(p, d),
        0 <= ra < p.len(),
        0 <= rb < p.len(),
        ra != rb,
        p[ra] == ra,
        p[rb] == rb,
    ensures
        forest_ok(p.update(ra, rb as usize), relinked_dist(p, d, ra, rb)),
        forall|y: int|
            0 <= y < p.len() ==> #[trigger] root_of(p.update(ra, rb as usize), relinked_dist(p, d, ra, rb), y) == (if root_of(
                p,
                d,
                y,
            ) == ra {
                rb
            } else {
                root_of(p, d, y)
            }),
{
    let q = p.update(ra, rb as usize);
    let d2 = relinked_dist(p, d, ra, rb);
    lemma_root_props(p, d, ra);
    lemma_root_props(p, d, rb);
    assert forall|y: int| 0 <= y < q.len() && q[y] != y implies d2[q[y] as int] < #[trigger] d2[y] by {
        lemma_root_props(p, d, y);
        if y != ra {
            assert(q[y] == p[y]);
            lemma_root_props(p, d, p[y] as int);
        } else {
            assert(q[y] == rb);
        }
    }
    assert(forest_ok(q, d2));
    assert forall|y: int| 0 <= y < p.len() implies #[trigger] root_of(q, d2, y) == (if root_of(p, d, y) == ra {
        rb
    } else {
        root_of(p, d, y)
    }) by {
        lemma_union_roots(p, d, q, d2, ra, rb, y);
    }
}

proof fn lemma_union_roots(p: Seq<usize>, d: Seq<nat>, q: Seq<usize>, d2: Seq<nat>, ra: int, rb: int, y: int)
    requires
        forest_ok(p, d),
        forest_ok(q, d2),
        0 <= ra < p.len(),
        0 <= rb < p.len(),
        ra != rb,
        p[ra] == ra,
        p[rb] == rb,
        q == p.update(ra, rb as usize),
        d2.len() == d.len(),
        0 <= y < p.len(),
    ensures
        root_of(q, d2, y) == (if root_of(p, d, y) == ra {
            rb
        } else {
            root_of(p, d, y)
        }),
    decreases d2[y],
{
    lemma_root_props(p, d, y);
    lemma_root_props(q, d2, y);
    if y == ra {
        lemma_root_props(q, d2, rb);
    } else if p[y] != y {
        lemma_union_roots(p, d, q, d2, ra, rb, p[y] as int);
    } else {
    }
}

} // verus!
