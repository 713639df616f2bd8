//! Disjoint sets over point identifiers, with path compression and
//! attach-by-argument-order union.
use std::collections::HashMap;
use vstd::prelude::*;

verus! {

broadcast use vstd::std_specs::hash::group_hash_axioms;

/// A partition of `u64` identifiers. An identifier with no entry is its own
/// root.
///
/// The ghost map `roots` records, for every identifier with an entry, the
/// root that `find` reaches from it; `rank` strictly increases along parent
/// links, which bounds the length of every path.
pub struct DisjointSet {
    parents: HashMap<u64, u64>,
    roots: Ghost<Map<u64, u64>>,
    rank: Ghost<Map<u64, nat>>,
}

impl DisjointSet {
    /// The parent of `x`; an identifier without an entry is its own parent.
    pub closed spec fn parent_of(&self, x: u64) -> u64 {
        if self.parents@.contains_key(x) {
            self.parents@[x]
        } else {
            x
        }
    }

    /// The representative of the set that holds `x`.
    pub closed spec fn rep(&self, x: u64) -> u64 {
        if self.roots@.contains_key(x) {
            self.roots@[x]
        } else {
            x
        }
    }

    pub closed spec fn rank_of(&self, x: u64) -> nat {
        if self.rank@.contains_key(x) {
            self.rank@[x]
        } else {
            0
        }
    }

    /// Well-formedness: the parent links form a forest whose roots are
    /// exactly what `roots` records.
    pub closed spec fn wf(&self) -> bool {
        &&& self.roots@.dom() == self.parents@.dom()
        &&& forall|x: u64|
            #![trigger self.parents@[x]]
            self.parents@.contains_key(x) ==> {
                let p = self.parents@[x];
                if p == x {
                    self.roots@[x] == x
                } else {
                    &&& self.rank_of(x) < self.rank_of(p)
                    &&& self.rank_of(x) < self.rank_of(self.roots@[x])
                    &&& self.roots@[x] == self.rep(p)
                }
            }
        &&& forall|x: u64|
            #![trigger self.roots@[x]]
            self.roots@.contains_key(x) ==> self.parent_of(self.roots@[x]) == self.roots@[x]
    }

    /// Every representative is its own representative.
    proof fn lemma_rep_is_root(&self, x: u64)
        requires
            self.wf(),
        ensures
            self.rep(self.rep(x)) == self.rep(x),
            self.parent_of(self.rep(x)) == self.rep(x),
    {
        if self.roots@.contains_key(x) {
            let r = self.roots@[x];
            assert(self.parent_of(r) == r);
            if self.parents@.contains_key(r) {
                assert(self.parents@[r] == r);
                assert(self.roots@[r] == r);
            }
        }
    }

    /// The identifier reached from `x` by following `n` parent links.
    pub closed spec fn ancestor(&self, x: u64, n: nat) -> u64
        decreases n,
    {
        if n == 0 {
            x
        } else {
            self.ancestor(self.parent_of(x), (n - 1) as nat)
        }
    }

    /// `z` lies on the path of parent links from `x` to its root.
    pub open spec fn on_path(&self, x: u64, z: u64) -> bool {
        exists|n: nat| #[trigger] self.ancestor(x, n) == z
    }

    /// The path from `x` is `x` followed by the path from its parent.
    proof fn lemma_on_path_step(&self, x: u64, z: u64)
        ensures
            self.on_path(x, z) <==> (z == x || self.on_path(self.parent_of(x), z)),
    {
        if self.on_path(x, z) {
            let n = choose|n: nat| #[trigger] self.ancestor(x, n) == z;
            if n > 0 {
                assert(self.ancestor(self.parent_of(x), (n - 1) as nat) == z);
            }
        }
        if z == x {
            assert(self.ancestor(x, 0) == z);
        } else if self.on_path(self.parent_of(x), z) {
            let n = choose|n: nat| #[trigger] self.ancestor(self.parent_of(x), n) == z;
            assert(self.ancestor(x, n + 1) == z);
        }
    }

    /// From an identifier that is its own parent, every path stays put.
    proof fn lemma_root_path(&self, x: u64, n: nat)
        requires
            self.parent_of(x) == x,
        ensures
            self.ancestor(x, n) == x,
        decreases n,
    {
        if n > 0 {
            self.lemma_root_path(x, (n - 1) as nat);
        }
    }

    /// Ranks never decrease from an identifier to its representative.
    proof fn lemma_rank_below_rep(&self, x: u64)
        requires
            self.wf(),
        ensures
            self.rank_of(x) <= self.rank_of(self.rep(x)),
    {
        if self.parents@.contains_key(x) {
            let p = self.parents@[x];
            assert(self.roots@.contains_key(x));
            if p == x {
                assert(self.roots@[x] == x);
                assert(self.rep(x) == x);
            } else {
                assert(self.rank_of(x) < self.rank_of(self.roots@[x]));
                assert(self.rep(x) == self.roots@[x]);
            }
        } else {
            assert(!self.roots@.contains_key(x));
        }
    }

    /// An empty partition: every identifier is alone.
    pub fn new(capacity: usize) -> (s: DisjointSet)
        ensures
            s.wf(),
            forall|x: u64| #[trigger] s.rep(x) == x,
    {
        DisjointSet {
            parents: HashMap::with_capacity(capacity),
            roots: Ghost(Map::empty()),
            rank: Ghost(Map::empty()),
        }
    }

    /// The representative of `item`'s set. Every identifier met on the way
    /// is linked directly to it; the partition does not change.
    pub fn find(&mut self, item: u64) -> (r: u64)
        requires
            old(self).wf(),
        ensures
            final(self).wf(),
            r == old(self).rep(item),
            final(self).rep(r) == r,
            final(self).parent_of(item) == r,
            old(self).parent_of(item) == item ==> r == item && *final(self) == *old(self),
            forall|z: u64|
                #[trigger] final(self).parent_of(z) == if old(self).on_path(item, z) {
                    r
                } else {
                    old(self).parent_of(z)
                },
            forall|z: u64| #[trigger] final(self).rep(z) == old(self).rep(z),
            forall|z: u64| #[trigger] final(self).rank_of(z) == old(self).rank_of(z),
            old(self).parent_of(item) != item ==> old(self).rank_of(item) < old(self).rank_of(r),
        decreases old(self).rank_of(old(self).rep(item)) - old(self).rank_of(item),
    {
        proof {
            self.lemma_rep_is_root(item);
        }
        let parent = match self.parents.get(&item) {
            Some(p) => *p,
            None => item,
        };
        if parent != item {
            assert(self.parents@[item] == parent);
            let ghost before = *self;
            proof {
                self.lemma_rank_below_rep(parent);
                assert(self.rep(parent) == self.rep(item));
            }
            let root = self.find(parent);
            let ghost mid = *self;
            proof {
                assert(before.roots@[item] == root);
                assert(before.rank_of(item) < before.rank_of(root));
                assert(mid.rep(item) == root);
                assert(mid.roots@.contains_key(item));
                assert(mid.roots@[item] == root);
            }
            self.parents.insert(item, root);
            proof {
                assert(self.parents@.dom() =~= mid.parents@.dom());
                assert forall|z: u64| #[trigger] self.rep(z) == before.rep(z) by {
                    assert(mid.rep(z) == before.rep(z));
                }
                assert forall|z: u64| #[trigger] self.rank_of(z) == before.rank_of(z) by {
                    assert(mid.rank_of(z) == before.rank_of(z));
                }
                assert forall|z: u64| #[trigger]
                    self.parent_of(z) == (if before.on_path(item, z) {
                        root
                    } else {
                        before.parent_of(z)
                    }) by {
                    before.lemma_on_path_step(item, z);
                    if z != item {
                        assert(self.parent_of(z) == mid.parent_of(z));
                    }
                }
                assert(self.roots@[item] == root);
                assert forall|x: u64| #[trigger] self.parents@.contains_key(x) implies {
                    let p = self.parents@[x];
                    if p == x {
                        self.roots@[x] == x
                    } else {
                        &&& self.rank_of(x) < self.rank_of(p)
                        &&& self.rank_of(x) < self.rank_of(self.roots@[x])
                        &&& self.roots@[x] == self.rep(p)
                    }
                } by {
                    if x != item {
                        assert(mid.parents@[x] == self.parents@[x]);
                    }
                }
                assert forall|x: u64| #[trigger] self.roots@.contains_key(x) implies self.parent_of(
                    self.roots@[x],
                ) == self.roots@[x] by {
                    let r = self.roots@[x];
                    assert(mid.parent_of(r) == r);
                    if r == item {
                        assert(mid.parents@.contains_key(item));
                    }
                }
            }
            root
        } else {
            proof {
                assert forall|z: u64| #[trigger]
                    self.parent_of(z) == (if self.on_path(item, z) {
                        parent
                    } else {
                        self.parent_of(z)
                    }) by {
                    if self.on_path(item, z) {
                        let n = choose|n: nat| #[trigger] self.ancestor(item, n) == z;
                        self.lemma_root_path(item, n);
                    }
                }
            }
            parent
        }
    }

    /// Merges the sets of `a` and `b`: the root of `a`'s set is attached
    /// under the root of `b`'s set.
    pub fn union(&mut self, a: u64, b: u64)
        requires
            old(self).wf(),
        ensures
            final(self).wf(),
            old(self).rep(a) != old(self).rep(b) ==> final(self).parent_of(old(self).rep(a)) == old(
                self,
            ).rep(b),
            forall|z: u64|
                #[trigger] final(self).rep(z) == if old(self).rep(z) == old(self).rep(a) {
                    old(self).rep(b)
                } else {
                    old(self).rep(z)
                },
    {
        let root_a = self.find(a);
        let root_b = self.find(b);
        if root_a != root_b {
            let ghost mid = *self;
            proof {
                mid.lemma_rep_is_root(a);
                mid.lemma_rep_is_root(b);
            }
            self.parents.insert(root_a, root_b);
            proof {
                let new_roots = Map::new(
                    |x: u64| self.parents@.contains_key(x),
                    |x: u64|
                        if mid.rep(x) == root_a {
                            root_b
                        } else {
                            mid.rep(x)
                        },
                );
                let rb = if mid.rank_of(root_b) > mid.rank_of(root_a) {
                    mid.rank_of(root_b)
                } else {
                    mid.rank_of(root_a) + 1
                };
                self.roots = Ghost(new_roots);
                self.rank = Ghost(mid.rank@.insert(root_b, rb));
                assert(self.roots@.dom() =~= self.parents@.dom());
                assert forall|z: u64| #[trigger]
                    self.rep(z) == (if mid.rep(z) == root_a {
                        root_b
                    } else {
                        mid.rep(z)
                    }) by {
                    if !self.roots@.contains_key(z) {
                        assert(!mid.parents@.contains_key(z));
                        assert(!mid.roots@.contains_key(z));
                        assert(z != root_a);
                    }
                }
                assert forall|x: u64| #[trigger] self.parents@.contains_key(x) implies {
                    let p = self.parents@[x];
                    if p == x {
                        self.roots@[x] == x
                    } else {
                        &&& self.rank_of(x) < self.rank_of(p)
                        &&& self.rank_of(x) < self.rank_of(self.roots@[x])
                        &&& self.roots@[x] == self.rep(p)
                    }
                } by {
                    if x != root_a {
                        assert(mid.parents@[x] == self.parents@[x]);
                        let p = self.parents@[x];
                        if p != x {
                            assert(mid.rank_of(x) < mid.rank_of(mid.roots@[x]));
                            mid.lemma_rep_is_root(x);
                            if mid.rep(x) == root_a {
                                assert(mid.rank_of(root_a) < rb);
                            }
                        } else {
                            assert(mid.roots@[x] == x);
                            assert(x != root_a);
                        }
                    }
                }
                assert forall|x: u64| #[trigger] self.roots@.contains_key(x) implies self.parent_of(
                    self.roots@[x],
                ) == self.roots@[x] by {
                    mid.lemma_rep_is_root(x);
                }
            }
        }
    }
}

/// The partition that `union(a, b)` leaves, given the one before it.
pub open spec fn after_union(before: DisjointSet, after: DisjointSet, a: u64, b: u64) -> bool {
    forall|z: u64|
        #[trigger] after.rep(z) == if before.rep(z) == before.rep(a) {
            before.rep(b)
        } else {
            before.rep(z)
        }
}

/// After `union(a, b)`, `a` and `b` have one representative, and it is the
/// representative that `b` had.
pub proof fn lemma_union_joins(before: DisjointSet, after: DisjointSet, a: u64, b: u64)
    requires
        before.wf(),
        after.wf(),
        after_union(before, after, a, b),
    ensures
        after.rep(a) == after.rep(b),
        after.rep(b) == before.rep(b),
{
    assert(after.rep(a) == before.rep(b));
    assert(after.rep(b) == before.rep(b));
}

/// An identifier that is its own parent (in particular one never linked)
/// is its own representative.
pub proof fn lemma_own_parent_is_root(s: DisjointSet, x: u64)
    requires
        s.wf(),
        s.parent_of(x) == x,
    ensures
        s.rep(x) == x,
{
    if s.parents@.contains_key(x) {
        assert(s.parents@[x] == x);
    }
}

/// Union-find has no hidden choices: two sets with the same partition still
/// have the same partition after the same `union`, so every later `find`
/// (which returns `rep`) agrees on them.
pub proof fn lemma_same_calls_same_partition(
    s1: DisjointSet,
    s2: DisjointSet,
    t1: DisjointSet,
    t2: DisjointSet,
    a: u64,
    b: u64,
)
    requires
        forall|z: u64| #[trigger] s1.rep(z) == s2.rep(z),
        after_union(s1, t1, a, b),
        after_union(s2, t2, a, b),
    ensures
        forall|z: u64| #[trigger] t1.rep(z) == t2.rep(z),
{
    assert forall|z: u64| #[trigger] t1.rep(z) == t2.rep(z) by {
        assert(s1.rep(a) == s2.rep(a) && s1.rep(b) == s2.rep(b) && s1.rep(z) == s2.rep(z));
    }
}

/// `find` is idempotent: the representative of a representative is itself.
pub proof fn lemma_find_idempotent(s: DisjointSet, x: u64)
    requires
        s.wf(),
    ensures
        s.rep(s.rep(x)) == s.rep(x),
{
    s.lemma_rep_is_root(x);
}

/// Unions along a chain `xs[0], xs[1], ...` (each `union(xs[k], xs[k + 1])`
/// applied to the partition before it) leave the whole chain with one
/// representative.
pub proof fn lemma_union_chain(states: Seq<DisjointSet>, xs: Seq<u64>)
    requires
        states.len() == xs.len(),
        xs.len() >= 1,
        forall|k: int| 0 <= k < states.len() ==> (#[trigger] states[k]).wf(),
        forall|k: int|
            0 <= k < xs.len() - 1 ==> after_union(
                #[trigger] states[k],
                states[k + 1],
                xs[k],
                xs[k + 1],
            ),
    ensures
        forall|i: int|
            0 <= i < xs.len() ==> #[trigger] states.last().rep(xs[i]) == states.last().rep(xs[0]),
    decreases xs.len(),
{
    let n = xs.len() as int;
    if n > 1 {
        let s2 = states.drop_last();
        let x2 = xs.drop_last();
        assert forall|k: int| 0 <= k < x2.len() - 1 implies after_union(
            #[trigger] s2[k],
            s2[k + 1],
            x2[k],
            x2[k + 1],
        ) by {
            assert(s2[k] == states[k] && s2[k + 1] == states[k + 1]);
        }
        lemma_union_chain(s2, x2);
        let prev = states[n - 2];
        let last = states[n - 1];
        assert(after_union(prev, last, xs[n - 2], xs[n - 1]));
        assert(s2.last() == prev);
        assert(x2[n - 2] == xs[n - 2]);
        assert(prev.rep(x2[n - 2]) == prev.rep(x2[0]));
        let root = prev.rep(xs[n - 1]);
        assert(last.rep(xs[n - 1]) == root);
        assert(last.rep(xs[0]) == root);
        assert forall|i: int| 0 <= i < xs.len() implies #[trigger] last.rep(xs[i]) == last.rep(
            xs[0],
        ) by {
            if i < n - 1 {
                assert(x2[i] == xs[i]);
                assert(prev.rep(x2[i]) == prev.rep(x2[0]));
                assert(last.rep(xs[i]) == root);
            }
        }
    }
}

} // verus!
