//! A union-find data structure contains a partition of a contiguous
//! bounded set of integers `0..n`. The *union* operation merges two
//! partitions; the *find* operation identifies the partition containing
//! an element by returning a canonical element of the partition.
//!
//! `find` compresses the path it traverses and therefore needs exclusive
//! access; `find_only` and `same_only` answer the same questions through
//! a shared reference, at the price of never shortening any chain.

use vstd::prelude::*;

pub mod forest;
pub mod history;

use crate::forest::{
    is_root, lemma_path_distinct, lemma_redirect, lemma_root_of_from_witness, lemma_root_of_root,
    lemma_root_of_walk, lemma_union_redundant, lemma_union_valid, lemma_walk_compose,
    lemma_walk_stable, on_chain, reaches_root, root_of, valid, walk,
};

verus! {

/// A partition table over the elements `0..n`. Each element has a parent;
/// an element that is its own parent is the canonical element of its
/// partition, and every parent chain ends at such a root.
pub struct UnionFind {
    parts: Vec<usize>,
}

impl View for UnionFind {
    type V = Seq<usize>;

    closed spec fn view(&self) -> Seq<usize> {
        self.parts@
    }
}

impl UnionFind {
    /// The table is a forest over `0..self@.len()`.
    pub open spec fn wf(&self) -> bool {
        valid(self@)
    }

    /// Create a new partition table with `n` disjoint partitions
    /// numbered `0..n`, each element the root of its own partition.
    pub fn new(n: usize) -> (t: UnionFind)
        ensures
            t.wf(),
            t@.len() == n,
            forall|k: int| 0 <= k < n ==> t@[k] as int == k,
            forall|k: int| 0 <= k < n ==> root_of(t@, k) == k,
    {
        let mut parts: Vec<usize> = Vec::with_capacity(n);
        let mut i: usize = 0;
        while i < n
            invariant
                i <= n,
                parts@.len() == i,
                forall|k: int| 0 <= k < i ==> parts@[k] as int == k,
            decreases n - i,
        {
            parts.push(i);
            i = i + 1;
        }
        let t = UnionFind { parts };
        proof {
            assert forall|k: int| 0 <= k < n implies reaches_root(t@, k) && root_of(t@, k)
                == k by {
                assert(is_root(t@, k));
                lemma_root_of_root(t@, k);
            }
        }
        t
    }

    /// The number of elements the table was created with.
    pub fn len(&self) -> (n: usize)
        ensures
            n == self@.len(),
    {
        self.parts.len()
    }

    /// The current parent of `i`: `i` itself exactly when `i` is the
    /// canonical element of its partition.
    pub fn parent(&self, i: usize) -> (p: usize)
        requires
            i < self@.len(),
        ensures
            p == self@[i as int],
    {
        self.parts[i]
    }

    /// Merge the partitions containing `i` and `j` by rewriting the
    /// parent of `j` to the current parent of `i`. The operation is
    /// structured such that the canonical element of the merged
    /// partition is the canonical element `i` had in the old partition.
    ///
    /// The two partitions must be distinct, unless `i` and `j` already
    /// share a parent (then the call rewrites a slot with the value it
    /// holds): rewriting the parent of `j` when `j` sits between `i`'s
    /// parent and its root would cut the chain into a cycle.
    pub fn union(&mut self, i: usize, j: usize)
        requires
            old(self).wf(),
            i < old(self)@.len(),
            j < old(self)@.len(),
            old(self)@[i as int] == old(self)@[j as int] || root_of(old(self)@, i as int)
                != root_of(old(self)@, j as int),
        ensures
            final(self).wf(),
            final(self)@ == old(self)@.update(j as int, old(self)@[i as int]),
    {
        let p = self.parts[i];
        self.parts[j] = p;
        proof {
            if old(self)@[i as int] == old(self)@[j as int] {
                lemma_union_redundant(old(self)@, i as int, j as int);
            } else {
                lemma_union_valid(old(self)@, i as int, j as int);
            }
        }
    }

    /// Return the canonical element of the partition containing `i`,
    /// and point every element walked over straight at that root, so
    /// that a later lookup along this chain takes one hop. No element
    /// changes partition.
    pub fn find(&mut self, i: usize) -> (r: usize)
        requires
            old(self).wf(),
            i < old(self)@.len(),
        ensures
            final(self).wf(),
            final(self)@.len() == old(self)@.len(),
            r < old(self)@.len(),
            r as int == root_of(old(self)@, i as int),
            is_root(final(self)@, r as int),
            forall|k: int|
                0 <= k < old(self)@.len() ==> root_of(final(self)@, k) == root_of(old(self)@, k),
            forall|k: int|
                0 <= k < old(self)@.len() ==> final(self)@[k] == (if on_chain(
                    old(self)@,
                    i as int,
                    k,
                ) {
                    r
                } else {
                    old(self)@[k]
                }),
            final(self)@[i as int] == r,
    {
        let ghost s0: Seq<usize> = self@;
        let p = self.find_only(i);
        proof {
            assert(reaches_root(s0, i as int));
        }
        let ghost fw: nat = choose|f: nat| is_root(s0, walk(s0, i as int, f));
        let mut c: usize = i;
        let ghost mut m2: nat = 0;
        while c != p
            invariant
                valid(s0),
                valid(self@),
                self@.len() == s0.len(),
                i < s0.len(),
                c < s0.len(),
                p < s0.len(),
                is_root(s0, p as int),
                p as int == root_of(s0, i as int),
                is_root(self@, p as int),
                m2 <= fw,
                c as int == walk(s0, i as int, m2),
                is_root(s0, walk(s0, i as int, fw)),
                forall|k: int| 0 <= k < s0.len() ==> root_of(self@, k) == root_of(s0, k),
                forall|k: int|
                    0 <= k < s0.len() ==> self@[k] == (if (exists|t: nat|
                        t < m2 && walk(s0, i as int, t) == k) {
                        p
                    } else {
                        s0[k]
                    }),
                forall|t: nat| t < m2 ==> walk(s0, i as int, t) != p as int,
            decreases fw - m2,
        {
            proof {
                if m2 >= fw {
                    lemma_walk_stable(s0, i as int, fw, m2);
                    lemma_root_of_from_witness(s0, i as int, fw);
                    assert(c == p);
                }
                assert(reaches_root(s0, i as int));
                lemma_root_of_walk(s0, i as int, m2);
                if is_root(s0, c as int) {
                    lemma_root_of_root(s0, c as int);
                    assert(c == p);
                }
                assert forall|t: nat| t < m2 implies walk(s0, i as int, t) != c as int by {
                    lemma_path_distinct(s0, i as int, t, m2);
                }
                assert(self@[c as int] == s0[c as int]);
                lemma_walk_compose(s0, i as int, m2, 1);
                assert(walk(s0, s0[c as int] as int, 0) == s0[c as int] as int);
                assert(walk(s0, c as int, 1) == s0[c as int] as int);
            }
            let next = self.parts[c];
            let ghost before: Seq<usize> = self@;
            self.parts[c] = p;
            proof {
                assert(root_of(before, c as int) == p as int);
                lemma_redirect(before, c as int, p as int);
                assert(self@ == before.update(c as int, p));
                m2 = m2 + 1;
                assert(walk(s0, i as int, (m2 - 1) as nat) == c as int);
                assert forall|k: int| 0 <= k < s0.len() implies self@[k] == (if (exists|t: nat|
                    t < m2 && walk(s0, i as int, t) == k) {
                    p
                } else {
                    s0[k]
                }) by {
                    if k == c as int {
                        assert(walk(s0, i as int, (m2 - 1) as nat) == k);
                        assert(exists|t: nat| t < m2 && walk(s0, i as int, t) == k);
                    } else {
                        assert(self@[k] == before[k]);
                        if exists|t: nat| t < m2 && walk(s0, i as int, t) == k {
                            let t = choose|t: nat| t < m2 && walk(s0, i as int, t) == k;
                            assert(t < m2 - 1);
                            assert(before[k] == p);
                        } else {
                            assert(before[k] == s0[k]);
                        }
                    }
                }
            }
            c = next;
        }
        proof {
            assert forall|k: int| 0 <= k < s0.len() implies self@[k] == (if on_chain(
                s0,
                i as int,
                k,
            ) {
                p
            } else {
                s0[k]
            }) by {
                if exists|t: nat| t < m2 && walk(s0, i as int, t) == k {
                    let t = choose|t: nat| t < m2 && walk(s0, i as int, t) == k;
                    assert(k != p as int);
                    assert(on_chain(s0, i as int, k));
                } else {
                    if on_chain(s0, i as int, k) {
                        let t = choose|t: nat| walk(s0, i as int, t) == k;
                        assert(t >= m2);
                        lemma_walk_stable(s0, i as int, m2, t);
                        assert(false);
                    }
                }
            }
            if i != p {
                assert(walk(s0, i as int, 0) == i as int);
                assert(on_chain(s0, i as int, i as int));
            } else {
                assert(!on_chain(s0, i as int, i as int));
                assert(s0[i as int] as int == i as int);
            }
        }
        p
    }

    /// Return `true` iff `i` and `j` are in the same partition,
    /// compressing both elements' chains on the way.
    pub fn same(&mut self, i: usize, j: usize) -> (r: bool)
        requires
            old(self).wf(),
            i < old(self)@.len(),
            j < old(self)@.len(),
        ensures
            final(self).wf(),
            final(self)@.len() == old(self)@.len(),
            forall|k: int|
                0 <= k < old(self)@.len() ==> root_of(final(self)@, k) == root_of(old(self)@, k),
            r == (root_of(old(self)@, i as int) == root_of(old(self)@, j as int)),
            i == j ==> r,
    {
        let a = self.find(i);
        let b = self.find(j);
        a == b
    }

    /// Return the canonical element of the partition containing `i`
    /// without touching the table. Prefer `find` wherever the table is
    /// mutable: this variant never shortens a chain, so a long chain
    /// stays long.
    pub fn find_only(&self, i: usize) -> (r: usize)
        requires
            self.wf(),
            i < self@.len(),
        ensures
            r < self@.len(),
            r as int == root_of(self@, i as int),
            is_root(self@, r as int),
    {
        let ghost s0: Seq<usize> = self@;
        proof {
            assert(reaches_root(s0, i as int));
        }
        let ghost fw: nat = choose|f: nat| is_root(s0, walk(s0, i as int, f));
        let mut p: usize = i;
        let ghost mut m: nat = 0;
        while self.parts[p] != p
            invariant
                self.wf(),
                s0 == self@,
                i < s0.len(),
                p < s0.len(),
                m <= fw,
                p as int == walk(s0, i as int, m),
                is_root(s0, walk(s0, i as int, fw)),
            decreases fw - m,
        {
            proof {
                if m == fw {
                    assert(is_root(s0, p as int));
                    assert(false);
                }
                lemma_walk_compose(s0, i as int, m, 1);
                assert(s0[p as int] as int != p as int);
                assert(walk(s0, s0[p as int] as int, 0) == s0[p as int] as int);
                assert(walk(s0, p as int, 1) == s0[p as int] as int);
                m = m + 1;
            }
            p = self.parts[p];
        }
        proof {
            assert(is_root(s0, p as int));
            lemma_root_of_walk(s0, i as int, m);
            lemma_root_of_root(s0, p as int);
        }
        p
    }

    /// Return `true` iff `i` and `j` are in the same partition, without
    /// touching the table. Prefer `same` wherever the table is mutable.
    pub fn same_only(&self, i: usize, j: usize) -> (r: bool)
        requires
            self.wf(),
            i < self@.len(),
            j < self@.len(),
        ensures
            r == (root_of(self@, i as int) == root_of(self@, j as int)),
            i == j ==> r,
    {
        self.find_only(i) == self.find_only(j)
    }
}

} // verus!
