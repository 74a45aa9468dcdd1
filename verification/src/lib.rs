//! A disjoint-set (union-find) structure over a fixed universe `0..n`,
//! with union by size and path compression.
//!
//! The verified model is a ghost sequence `rep` that maps every element to
//! the representative of its set: two elements are in the same set exactly
//! when `rep` agrees on them.  A second ghost sequence `dist` bounds the
//! distance of every element from its root, which makes the parent forest
//! provably acyclic and the traversal loops provably terminating.

use vstd::prelude::*;
use vstd::set_lib::lemma_int_range;
use vstd::set_lib::lemma_len_subset;
use vstd::set_lib::set_int_range;

verus! {

/// Disjoint sets over the elements `0..n`, supporting `union`, `find`,
/// and connectivity queries, with union by size and path compression.
pub struct UnionFind {
    /// Number of distinct sets.
    components: usize,
    /// `parent[i]` points one step toward the root of `i`'s set;
    /// a root points to itself.
    parent: Vec<usize>,
    /// At a root `r`, the number of elements of `r`'s set.
    /// Stale at non-root indices, where it is never read.
    size: Vec<usize>,
    /// Ghost model: the root of every element's set.
    rep: Ghost<Seq<int>>,
    /// Ghost model: a strict bound structure on parent chains; `dist`
    /// strictly decreases along parent pointers, so the forest is acyclic.
    dist: Ghost<Seq<nat>>,
}

impl UnionFind {
    /// The size of the universe: elements are `0 <= i < universe()`.
    pub closed spec fn universe(self) -> nat {
        self.parent@.len()
    }

    /// The representative of the set that element `i` belongs to.
    pub closed spec fn rep_of(self, i: int) -> int {
        self.rep@[i]
    }

    /// Two elements are in the same set exactly when their sets have the
    /// same representative.
    pub open spec fn same_set(self, p: int, q: int) -> bool {
        self.rep_of(p) == self.rep_of(q)
    }

    /// The number of distinct sets.
    pub closed spec fn num_components(self) -> nat {
        self.components as nat
    }

    spec fn is_root(self, i: int) -> bool {
        self.parent@[i] == i
    }

    /// The set of roots of the parent forest.
    spec fn roots(self) -> Set<int> {
        Set::new(|i: int| 0 <= i < self.universe() && self.is_root(i))
    }

    /// The elements whose set has representative `r`.
    spec fn class_of(self, r: int) -> Set<int> {
        Set::new(|k: int| 0 <= k < self.universe() && self.rep@[k] == r)
    }

    /// Structural well-formedness, established by `new` and preserved by
    /// every operation.
    pub closed spec fn inv(self) -> bool {
        let n = self.universe() as int;
        &&& self.size@.len() == n
        &&& self.rep@.len() == n
        &&& self.dist@.len() == n
        &&& forall|i: int| 0 <= i < n ==> (#[trigger] self.parent@[i]) < n
        &&& forall|i: int| 0 <= i < n ==> 0 <= (#[trigger] self.rep@[i]) < n
        // every representative is a root, and every root represents itself
        &&& forall|i: int| 0 <= i < n ==> self.parent@[#[trigger] self.rep@[i]] == self.rep@[i]
        &&& forall|i: int|
            0 <= i < n && (#[trigger] self.parent@[i]) == i ==> self.rep@[i] == i
        // following a parent pointer does not change the representative
        &&& forall|i: int|
            0 <= i < n ==> self.rep@[(#[trigger] self.parent@[i]) as int] == self.rep@[i]
        // dist strictly decreases along parent pointers and is 0 at roots
        &&& forall|i: int|
            0 <= i < n && (#[trigger] self.parent@[i]) != i ==> self.dist@[self.parent@[i] as int]
                < self.dist@[i]
        &&& forall|i: int| 0 <= i < n && (#[trigger] self.parent@[i]) == i ==> self.dist@[i] == 0
        // the component counter counts the roots
        &&& self.roots().finite()
        &&& self.components == self.roots().len()
        // at every root, the size array holds the cardinality of its set
        &&& forall|r: int|
            0 <= r < n && (#[trigger] self.parent@[r]) == r ==> self.class_of(r).finite()
                && self.size@[r] == self.class_of(r).len()
    }

    /// Builds `n` singleton sets: every element is its own representative.
    pub fn new(n: usize) -> (uf: UnionFind)
        ensures
            uf.inv(),
            uf.universe() == n,
            uf.num_components() == n,
            forall|i: int| 0 <= i < n ==> #[trigger] uf.rep_of(i) == i,
            forall|p: int, q: int|
                0 <= p < n && 0 <= q < n ==> (#[trigger] uf.same_set(p, q) <==> p == q),
    {
        let mut parent: Vec<usize> = Vec::new();
        let mut size: Vec<usize> = Vec::new();
        let mut i: usize = 0;
        while i < n
            invariant
                i <= n,
                parent@.len() == i,
                size@.len() == i,
                forall|k: int| 0 <= k < i ==> #[trigger] parent@[k] == k,
                forall|k: int| 0 <= k < i ==> #[trigger] size@[k] == 1,
            decreases n - i,
        {
            parent.push(i);
            size.push(1);
            i = i + 1;
        }
        let uf = UnionFind {
            components: n,
            parent,
            size,
            rep: Ghost(Seq::new(n as nat, |k: int| k)),
            dist: Ghost(Seq::new(n as nat, |k: int| 0)),
        };
        proof {
            assert(uf.roots() =~= set_int_range(0, n as int));
            lemma_int_range(0, n as int);
            assert forall|r: int|
                0 <= r < n && (#[trigger] uf.parent@[r]) == r implies uf.class_of(r).finite()
                && uf.size@[r] == uf.class_of(r).len() by {
                assert(uf.class_of(r) =~= Set::empty().insert(r));
            }
        }
        uf
    }

    /// Re-establishes the invariant after one path-compression step:
    /// `post` differs from `pre` only in that the non-root `x` now points
    /// straight at its own root `r`.
    proof fn lemma_compress_step(pre: UnionFind, post: UnionFind, x: int, r: int)
        requires
            pre.inv(),
            0 <= x < pre.universe(),
            0 <= r < pre.universe(),
            pre.parent@[x] != x,
            pre.parent@[r] == r,
            pre.rep@[x] == r,
            post.parent@ == pre.parent@.update(x, r as usize),
            post.rep@ == pre.rep@,
            post.dist@ == pre.dist@,
            post.size@ == pre.size@,
            post.components == pre.components,
        ensures
            post.inv(),
    {
        let n = pre.universe() as int;
        assert(post.universe() == pre.universe());
        assert(r != x);
        assert(pre.dist@[x] > 0);
        assert(post.roots() =~= pre.roots());
        assert forall|t: int|
            0 <= t < n && (#[trigger] post.parent@[t]) == t implies post.class_of(t).finite()
            && post.size@[t] == post.class_of(t).len() by {
            assert(pre.parent@[t] == t);
            assert(post.class_of(t) =~= pre.class_of(t));
        }
    }

    /// The cardinality of a union of two disjoint finite sets is the sum
    /// of their cardinalities.
    proof fn lemma_len_disjoint_union(a: Set<int>, b: Set<int>)
        requires
            a.finite(),
            b.finite(),
            a.disjoint(b),
        ensures
            a.union(b).finite(),
            a.union(b).len() == a.len() + b.len(),
        decreases b.len(),
    {
        if b.len() == 0 {
            b.lemma_len0_is_empty();
            assert(a.union(b) =~= a);
        } else {
            let x = b.choose();
            assert(b.contains(x));
            assert(a.union(b).remove(x) =~= a.union(b.remove(x)));
            Self::lemma_len_disjoint_union(a, b.remove(x));
            assert(a.union(b).contains(x));
        }
    }

    /// Attaches the root `l` under the distinct root `w`, merging their two
    /// sets: every element represented by `l` is represented by `w`
    /// afterwards, everything else is untouched, and the component count
    /// drops by one.
    fn link(&mut self, l: usize, w: usize)
        requires
            old(self).inv(),
            l < old(self).universe(),
            w < old(self).universe(),
            l != w,
            old(self).rep_of(l as int) == l,
            old(self).rep_of(w as int) == w,
        ensures
            final(self).inv(),
            final(self).universe() == old(self).universe(),
            final(self).num_components() == old(self).num_components() - 1,
            forall|k: int| 0 <= k < final(self).universe() ==> #[trigger] final(self).rep_of(k)
                == if old(self).rep_of(k) == l { w as int } else { old(self).rep_of(k) },
    {
        let ghost pre = *old(self);
        let ghost n = pre.universe() as int;
        let total = self.parent.len();
        let sl = self.size[l];
        let sw = self.size[w];
        proof {
            assert(pre.parent@[pre.rep@[l as int]] == pre.rep@[l as int]);
            assert(pre.parent@[pre.rep@[w as int]] == pre.rep@[w as int]);
            assert(pre.parent@[l as int] == l);
            assert(pre.parent@[w as int] == w);
            assert(pre.class_of(l as int).disjoint(pre.class_of(w as int)));
            Self::lemma_len_disjoint_union(pre.class_of(w as int), pre.class_of(l as int));
            lemma_int_range(0, n);
            lemma_len_subset(
                pre.class_of(w as int).union(pre.class_of(l as int)),
                set_int_range(0, n),
            );
            assert(sw + sl <= total);
            assert(pre.roots().contains(l as int));
        }
        self.parent.set(l, w);
        self.size.set(w, sw + sl);
        self.components = self.components - 1;
        let ghost rep0 = pre.rep@;
        let ghost dist0 = pre.dist@;
        self.rep = Ghost(
            Seq::new(n as nat, |k: int| if rep0[k] == l { w as int } else { rep0[k] }),
        );
        self.dist = Ghost(
            Seq::new(n as nat, |k: int| if rep0[k] == l { (dist0[k] + 1) as nat } else { dist0[k] }),
        );
        proof {
            let post = *self;
            assert(post.roots() =~= pre.roots().remove(l as int));
            assert forall|i: int|
                0 <= i < n && (#[trigger] post.parent@[i]) != i implies post.dist@[post.parent@[i] as int]
                < post.dist@[i] by {
                if i == l {
                    assert(post.dist@[w as int] == 0);
                    assert(post.dist@[l as int] == 1);
                } else if rep0[i] == l {
                    assert(pre.parent@[i] != i);
                    assert(rep0[pre.parent@[i] as int] == rep0[i]);
                }
            }
            assert forall|t: int|
                0 <= t < n && (#[trigger] post.parent@[t]) == t implies post.class_of(t).finite()
                && post.size@[t] == post.class_of(t).len() by {
                assert(pre.parent@[t] == t);
                if t == w {
                    assert(post.class_of(w as int) =~= pre.class_of(w as int).union(
                        pre.class_of(l as int),
                    ));
                } else {
                    assert(post.class_of(t) =~= pre.class_of(t));
                }
            }
        }
    }

    /// Returns the representative of the set containing `p`.
    ///
    /// Mutating even though it is conceptually a query: after locating the
    /// root it re-walks the path and points every visited element straight
    /// at the root (path compression).  Which set each element belongs to,
    /// the component count, and the universe are all unchanged.
    pub fn find(&mut self, p: usize) -> (r: usize)
        requires
            old(self).inv(),
            p < old(self).universe(),
        ensures
            final(self).inv(),
            final(self).universe() == old(self).universe(),
            final(self).num_components() == old(self).num_components(),
            forall|k: int| 0 <= k < final(self).universe() ==> #[trigger] final(self).rep_of(k)
                == old(self).rep_of(k),
            r < final(self).universe(),
            r as int == old(self).rep_of(p as int),
            final(self).rep_of(r as int) == r as int,
    {
        let mut r = p;
        while r != self.parent[r]
            invariant
                self.inv(),
                self == old(self),
                r < self.universe(),
                self.rep@[r as int] == self.rep@[p as int],
            decreases self.dist@[r as int],
        {
            r = self.parent[r];
        }
        assert(self.rep@[r as int] == r as int);
        let mut cur = p;
        while cur != self.parent[cur]
            invariant
                self.inv(),
                self.universe() == old(self).universe(),
                self.rep@ == old(self).rep@,
                self.dist@ == old(self).dist@,
                self.size@ == old(self).size@,
                self.components == old(self).components,
                cur < self.universe(),
                r < self.universe(),
                self.parent@[r as int] == r,
                self.rep@[cur as int] == r as int,
                r as int == old(self).rep_of(p as int),
            decreases self.dist@[cur as int],
        {
            let ghost prev = *self;
            let next = self.parent[cur];
            self.parent.set(cur, r);
            proof {
                Self::lemma_compress_step(prev, *self, cur as int, r as int);
            }
            cur = next;
        }
        r
    }

    /// Merges the sets containing `p` and `q`.
    ///
    /// When the two elements already share a set nothing changes; otherwise
    /// the two sets become one (the root of the smaller set yields, ties
    /// going to `p`'s root), the merged set keeps one of the two old
    /// representatives, no other set is touched, and the component count
    /// drops by exactly one.
    pub fn union(&mut self, p: usize, q: usize)
        requires
            old(self).inv(),
            p < old(self).universe(),
            q < old(self).universe(),
        ensures
            final(self).inv(),
            final(self).universe() == old(self).universe(),
            final(self).same_set(p as int, q as int),
            old(self).same_set(p as int, q as int) ==> {
                &&& final(self).num_components() == old(self).num_components()
                &&& forall|k: int|
                    0 <= k < final(self).universe() ==> #[trigger] final(self).rep_of(k) == old(self).rep_of(k)
            },
            !old(self).same_set(p as int, q as int) ==> {
                &&& final(self).num_components() == old(self).num_components() - 1
                &&& (final(self).rep_of(p as int) == old(self).rep_of(p as int) || final(self).rep_of(p as int) == old(self).rep_of(q as int))
                &&& forall|k: int|
                    0 <= k < final(self).universe() ==> #[trigger] final(self).rep_of(k) == if old(self).same_set(k, p as int) || old(self).same_set(k, q as int) {
                        final(self).rep_of(p as int)
                    } else {
                        old(self).rep_of(k)
                    }
            },
            forall|a: int, b: int|
                0 <= a < final(self).universe() && 0 <= b < final(self).universe() ==> (
                #[trigger] final(self).same_set(a, b) <==> (old(self).same_set(a, b) || (old(self).same_set(a, p as int) && old(self).same_set(b, q as int)) || (old(self).same_set(
                    a,
                    q as int,
                ) && old(self).same_set(b, p as int)))),
    {
        let i = self.find(p);
        let j = self.find(q);
        if i == j {
            return;
        }
        if self.size[i] < self.size[j] {
            self.link(i, j);
        } else {
            self.link(j, i);
        }
    }

    /// Returns whether `p` and `q` are in the same set.
    ///
    /// Implemented as `find(p) == find(q)`, so it compresses both paths;
    /// which set each element belongs to is unchanged.
    pub fn connected(&mut self, p: usize, q: usize) -> (b: bool)
        requires
            old(self).inv(),
            p < old(self).universe(),
            q < old(self).universe(),
        ensures
            final(self).inv(),
            final(self).universe() == old(self).universe(),
            final(self).num_components() == old(self).num_components(),
            forall|k: int| 0 <= k < final(self).universe() ==> #[trigger] final(self).rep_of(k)
                == old(self).rep_of(k),
            b == old(self).same_set(p as int, q as int),
    {
        let i = self.find(p);
        let j = self.find(q);
        i == j
    }

    /// Connectivity is symmetric: `p` shares a set with `q` exactly when
    /// `q` shares a set with `p`.
    pub proof fn lemma_same_set_symmetric(self, p: int, q: int)
        ensures
            self.same_set(p, q) == self.same_set(q, p),
    {
    }

    /// Connectivity is transitive: if `a` shares a set with `b` and `b`
    /// shares a set with `c`, then `a` shares a set with `c`.
    pub proof fn lemma_same_set_transitive(self, a: int, b: int, c: int)
        requires
            self.same_set(a, b),
            self.same_set(b, c),
        ensures
            self.same_set(a, c),
    {
    }

    /// A representative represents itself: applying `rep_of` twice is the
    /// same as applying it once, so `find(find(p)) == find(p)`.
    pub proof fn lemma_rep_idempotent(self, p: int)
        requires
            self.inv(),
            0 <= p < self.universe(),
        ensures
            0 <= self.rep_of(p) < self.universe(),
            self.rep_of(self.rep_of(p)) == self.rep_of(p),
    {
        assert(self.parent@[self.rep@[p]] == self.rep@[p]);
    }

    /// The component count is exactly the number of elements that
    /// represent themselves, one per distinct set.
    pub proof fn lemma_components_counts_representatives(self)
        requires
            self.inv(),
        ensures
            self.num_components() == Set::new(
                |i: int| 0 <= i < self.universe() && self.rep_of(i) == i,
            ).len(),
    {
        assert forall|i: int| 0 <= i < self.universe() && self.rep_of(i) == i implies #[trigger] self.parent@[i]
            == i by {
            assert(self.parent@[self.rep@[i]] == self.rep@[i]);
        }
        assert(Set::new(|i: int| 0 <= i < self.universe() && self.rep_of(i) == i)
            =~= self.roots());
    }

    /// The current number of distinct sets.
    pub fn components(&self) -> (c: usize)
        ensures
            c == self.num_components(),
    {
        self.components
    }

    /// The size of the universe, fixed at construction.
    pub fn size(&self) -> (n: usize)
        ensures
            n == self.universe(),
    {
        self.parent.len()
    }
}

} // verus!
