//! A small ordered map keyed by canonical plate pairs `(a, b)`, `a < b`
//! not required: keys are any `(u16, u16)`, kept in strictly increasing
//! lexicographic order so that iteration is deterministic.

use vstd::prelude::*;

verus! {

/// Lexicographic order on plate pairs.
pub open spec fn pair_lt(x: (u16, u16), y: (u16, u16)) -> bool {
    x.0 < y.0 || (x.0 == y.0 && x.1 < y.1)
}

/// Canonical (ordered) form of an unordered plate pair.
pub open spec fn canonical(a: u16, b: u16) -> (u16, u16) {
    if a < b {
        (a, b)
    } else {
        (b, a)
    }
}

/// Executable lexicographic comparison.
pub fn pair_less(x: (u16, u16), y: (u16, u16)) -> (r: bool)
    ensures
        r == pair_lt(x, y),
{
    x.0 < y.0 || (x.0 == y.0 && x.1 < y.1)
}

/// Executable pair equality.
pub fn pair_eq(x: (u16, u16), y: (u16, u16)) -> (r: bool)
    ensures
        r == (x == y),
{
    x.0 == y.0 && x.1 == y.1
}

/// Executable canonical pair.
pub fn canonical_pair(a: u16, b: u16) -> (p: (u16, u16))
    ensures
        p == canonical(a, b),
{
    if a < b {
        (a, b)
    } else {
        (b, a)
    }
}

pub open spec fn keys_sorted<V>(s: Seq<((u16, u16), V)>) -> bool {
    forall|i: int, j: int| 0 <= i < j < s.len() ==> pair_lt(#[trigger] s[i].0, #[trigger] s[j].0)
}

pub open spec fn has_key<V>(s: Seq<((u16, u16), V)>, p: (u16, u16)) -> bool {
    exists|i: int| 0 <= i < s.len() && #[trigger] s[i].0 == p
}

pub open spec fn value_of<V>(s: Seq<((u16, u16), V)>, p: (u16, u16)) -> V {
    s[choose|i: int| 0 <= i < s.len() && #[trigger] s[i].0 == p].1
}

/// The map denoted by a sorted entry sequence.
pub open spec fn entries_map<V>(s: Seq<((u16, u16), V)>) -> Map<(u16, u16), V> {
    Map::new(|p: (u16, u16)| has_key(s, p), |p: (u16, u16)| value_of(s, p))
}

/// In a sorted sequence an entry's value is the map's value at its key.
pub proof fn lemma_value_at<V>(s: Seq<((u16, u16), V)>, i: int)
    requires
        keys_sorted(s),
        0 <= i < s.len(),
    ensures
        entries_map(s).dom().contains(s[i].0),
        entries_map(s)[s[i].0] == s[i].1,
{
    let p = s[i].0;
    assert(has_key(s, p));
    let j = choose|j: int| 0 <= j < s.len() && #[trigger] s[j].0 == p;
    if j < i {
        assert(pair_lt(s[j].0, s[i].0));
    } else if i < j {
        assert(pair_lt(s[i].0, s[j].0));
    }
}

/// Ordered map from plate pairs to values.
#[derive(Debug)]
pub struct PairMap<V> {
    entries: Vec<((u16, u16), V)>,
}

impl<V> View for PairMap<V> {
    type V = Map<(u16, u16), V>;

    closed spec fn view(&self) -> Map<(u16, u16), V> {
        entries_map(self.entries@)
    }
}

impl<V> PairMap<V> {
    #[verifier::type_invariant]
    spec fn sorted(self) -> bool {
        keys_sorted(self.entries@)
    }
}

impl<V: Copy> PairMap<V> {
    /// The keys in increasing lexicographic order.
    pub closed spec fn key_seq(&self) -> Seq<(u16, u16)> {
        self.entries@.map_values(|e: ((u16, u16), V)| e.0)
    }

    /// Number of entries.
    pub closed spec fn spec_len(&self) -> nat {
        self.entries@.len()
    }

    /// The entry sequence in key order.
    pub closed spec fn entry_seq(&self) -> Seq<((u16, u16), V)> {
        self.entries@
    }

    /// An empty map.
    pub fn new() -> (m: Self)
        ensures
            m@ == Map::<(u16, u16), V>::empty(),
            m.entry_seq().len() == 0,
    {
        let m = PairMap { entries: Vec::new() };
        assert(m@ =~= Map::<(u16, u16), V>::empty());
        m
    }

    pub fn len(&self) -> (n: usize)
        ensures
            n == self.entry_seq().len(),
    {
        self.entries.len()
    }

    /// The `idx`-th entry in key order.
    pub fn entry(&self, idx: usize) -> (e: ((u16, u16), V))
        requires
            idx < self.entry_seq().len(),
        ensures
            e == self.entry_seq()[idx as int],
            self@.dom().contains(e.0),
            self@[e.0] == e.1,
    {
        proof {
            use_type_invariant(self);
            lemma_value_at(self.entries@, idx as int);
        }
        self.entries[idx]
    }

    /// Every key of the map occurs in the entry sequence.
    pub proof fn lemma_key_listed(&self, p: (u16, u16))
        requires
            self@.dom().contains(p),
        ensures
            exists|k: int| 0 <= k < self.entry_seq().len() && #[trigger] self.entry_seq()[k].0 == p,
    {
        assert(has_key(self.entries@, p));
        let k = choose|k: int| 0 <= k < self.entries@.len() && #[trigger] self.entries@[k].0 == p;
        assert(self.entry_seq()[k].0 == p);
    }

    /// The entries are listed in strictly increasing key order, and each
    /// entry's value is the map's value at its key.
    pub fn reveal_order(&self)
        ensures
            keys_sorted(self.entry_seq()),
            forall|k: int|
                0 <= k < self.entry_seq().len() ==> self@.dom().contains(#[trigger] self.entry_seq()[k].0)
                    && self@[self.entry_seq()[k].0] == self.entry_seq()[k].1,
    {
        proof {
            use_type_invariant(self);
            assert forall|k: int| 0 <= k < self.entry_seq().len() implies self@.dom().contains(
                #[trigger] self.entry_seq()[k].0,
            ) && self@[self.entry_seq()[k].0] == self.entry_seq()[k].1 by {
                lemma_value_at(self.entries@, k);
            }
        }
    }

    /// Every listed key belongs to the map.
    pub proof fn lemma_listed_key_in_dom(&self, k: int)
        requires
            0 <= k < self.entry_seq().len(),
        ensures
            self@.dom().contains(self.entry_seq()[k].0),
    {
        assert(has_key(self.entries@, self.entries@[k].0));
    }

    /// Position of the first entry whose key is not below `p`.
    fn lower_bound(&self, p: (u16, u16)) -> (i: usize)
        ensures
            i <= self.entries@.len(),
            forall|k: int| 0 <= k < i ==> pair_lt(#[trigger] self.entries@[k].0, p),
            i < self.entries@.len() ==> !pair_lt(self.entries@[i as int].0, p),
    {
        let mut i: usize = 0;
        while i < self.entries.len()
            invariant
                i <= self.entries@.len(),
                forall|k: int| 0 <= k < i ==> pair_lt(#[trigger] self.entries@[k].0, p),
            decreases self.entries@.len() - i,
        {
            if !pair_less(self.entries[i].0, p) {
                return i;
            }
            i = i + 1;
        }
        i
    }

    /// Value stored for `p`, if any.
    pub fn get(&self, p: (u16, u16)) -> (r: Option<V>)
        ensures
            r == (if self@.dom().contains(p) {
                Some(self@[p])
            } else {
                None
            }),
    {
        proof {
            use_type_invariant(self);
        }
        let i = self.lower_bound(p);
        if i < self.entries.len() && pair_eq(self.entries[i].0, p) {
            proof {
                lemma_value_at(self.entries@, i as int);
            }
            Some(self.entries[i].1)
        } else {
            proof {
                if has_key(self.entries@, p) {
                    let j = choose|j: int| 0 <= j < self.entries@.len() && #[trigger] self.entries@[j].0 == p;
                    if j < i {
                        assert(pair_lt(self.entries@[j].0, p));
                    } else if j > i {
                        assert(pair_lt(self.entries@[i as int].0, self.entries@[j].0));
                    }
                }
            }
            None
        }
    }

    /// Store `v` for `p` (insert or overwrite).
    pub fn insert(&mut self, p: (u16, u16), v: V)
        ensures
            final(self)@ == old(self)@.insert(p, v),
    {
        proof {
            use_type_invariant(&*self);
        }
        let i = self.lower_bound(p);
        let mut e: Vec<((u16, u16), V)> = Vec::new();
        std::mem::swap(&mut e, &mut self.entries);
        let ghost s0 = e@;
        if i < e.len() && pair_eq(e[i].0, p) {
            e.set(i, (p, v));
            proof {
                assert forall|a: int, b: int| 0 <= a < b < e@.len() implies pair_lt(
                    #[trigger] e@[a].0,
                    #[trigger] e@[b].0,
                ) by {
                    assert(pair_lt(s0[a].0, s0[b].0));
                }
                assert forall|q: (u16, u16)|
                    #[trigger] entries_map(e@).dom().contains(q) == entries_map(s0).insert(
                        p,
                        v,
                    ).dom().contains(q) by {
                    if has_key(s0, q) {
                        let j = choose|j: int| 0 <= j < s0.len() && #[trigger] s0[j].0 == q;
                        assert(e@[j].0 == q);
                    }
                    if q == p {
                        assert(e@[i as int].0 == q);
                    }
                    if has_key(e@, q) {
                        let j = choose|j: int| 0 <= j < e@.len() && #[trigger] e@[j].0 == q;
                        assert(s0[j].0 == q);
                    }
                }
                assert forall|q: (u16, u16)| #[trigger] entries_map(e@).dom().contains(q) implies
                    entries_map(e@)[q] == entries_map(s0).insert(p, v)[q] by {
                    let j = choose|j: int| 0 <= j < e@.len() && #[trigger] e@[j].0 == q;
                    lemma_value_at(e@, j);
                    if j != i {
                        lemma_value_at(s0, j);
                    }
                }
                assert(entries_map(e@) =~= entries_map(s0).insert(p, v));
            }
        } else {
            e.insert(i, (p, v));
            proof {
                assert forall|a: int, b: int| 0 <= a < b < e@.len() implies pair_lt(
                    #[trigger] e@[a].0,
                    #[trigger] e@[b].0,
                ) by {
                    if b < i {
                        assert(pair_lt(s0[a].0, s0[b].0));
                    } else if b == i {
                        assert(pair_lt(s0[a].0, p));
                    } else if a < i {
                        assert(pair_lt(s0[a].0, p));
                        assert(!pair_lt(s0[i as int].0, p));
                        assert(s0[i as int].0 != p);
                        if b - 1 > i {
                            assert(pair_lt(s0[i as int].0, s0[b - 1].0));
                        }
                    } else if a == i {
                        assert(!pair_lt(s0[i as int].0, p));
                        assert(s0[i as int].0 != p);
                        if b - 1 > i {
                            assert(pair_lt(s0[i as int].0, s0[b - 1].0));
                        }
                    } else {
                        assert(pair_lt(s0[a - 1].0, s0[b - 1].0));
                    }
                }
                assert forall|q: (u16, u16)|
                    #[trigger] entries_map(e@).dom().contains(q) == entries_map(s0).insert(
                        p,
                        v,
                    ).dom().contains(q) by {
                    if has_key(s0, q) {
                        let j = choose|j: int| 0 <= j < s0.len() && #[trigger] s0[j].0 == q;
                        if j < i {
                            assert(e@[j].0 == q);
                        } else {
                            assert(e@[j + 1].0 == q);
                        }
                    }
                    if q == p {
                        assert(e@[i as int].0 == q);
                    }
                    if has_key(e@, q) {
                        let j = choose|j: int| 0 <= j < e@.len() && #[trigger] e@[j].0 == q;
                        if j < i {
                            assert(s0[j].0 == q);
                        } else if j > i {
                            assert(s0[j - 1].0 == q);
                        }
                    }
                }
                assert forall|q: (u16, u16)| #[trigger] entries_map(e@).dom().contains(q) implies
                    entries_map(e@)[q] == entries_map(s0).insert(p, v)[q] by {
                    let j = choose|j: int| 0 <= j < e@.len() && #[trigger] e@[j].0 == q;
                    lemma_value_at(e@, j);
                    if j < i {
                        lemma_value_at(s0, j);
                    } else if j > i {
                        lemma_value_at(s0, j - 1);
                    }
                }
                assert(entries_map(e@) =~= entries_map(s0).insert(p, v));
            }
        }
        self.entries = e;
    }
}

} // verus!
