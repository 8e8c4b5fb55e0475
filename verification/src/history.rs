//! The partition invariant: over any sequence of legal merges, two
//! elements end in the same partition exactly when the recorded pairs
//! connect them transitively.

use vstd::prelude::*;

verus! {

use crate::forest::{
    is_root, lemma_root_of_root, lemma_same_parent_same_root, lemma_union_classes,
    lemma_union_merges, lemma_union_redundant, root_of, valid,
};

/// The table that `n` singleton partitions grow into after the recorded
/// merges, each merge rewriting the parent of its second element to the
/// current parent of its first.
pub open spec fn replayed(n: nat, h: Seq<(usize, usize)>) -> Seq<usize>
    decreases h.len(),
{
    if h.len() == 0 {
        Seq::new(n, |k: int| k as usize)
    } else {
        let s = replayed(n, h.drop_last());
        s.update(h.last().1 as int, s[h.last().0 as int])
    }
}

/// Each recorded merge was legal when it was made: indices in range,
/// and either the two arguments already shared a parent or the second
/// was the root of a partition not containing the first.
pub open spec fn history_ok(n: nat, h: Seq<(usize, usize)>) -> bool
    decreases h.len(),
{
    h.len() == 0 || {
        let s = replayed(n, h.drop_last());
        let i = h.last().0 as int;
        let j = h.last().1 as int;
        &&& history_ok(n, h.drop_last())
        &&& i < n
        &&& j < n
        &&& (s[i] == s[j] || (is_root(s, j) && root_of(s, i) != j))
    }
}

/// Some recorded merge names `x` and `y`, in either order.
pub open spec fn linked(h: Seq<(usize, usize)>, x: int, y: int) -> bool {
    exists|t: int|
        0 <= t < h.len() && ((#[trigger] h[t]).0 == x && h[t].1 == y || h[t].0 == y && h[t].1 == x)
}

/// `a` is connected to `b` through at most `k` recorded merges.
pub open spec fn joined_within(h: Seq<(usize, usize)>, a: int, b: int, k: nat) -> bool
    decreases k,
{
    a == b || (k > 0 && exists|c: int|
        joined_within(h, a, c, (k - 1) as nat) && #[trigger] linked(h, c, b))
}

/// The recorded merges connect `a` to `b` transitively.
pub open spec fn joined(h: Seq<(usize, usize)>, a: int, b: int) -> bool {
    exists|k: nat| joined_within(h, a, b, k)
}

/// Connection is transitive.
proof fn lemma_joined_trans(h: Seq<(usize, usize)>, a: int, b: int, c: int)
    requires
        joined(h, a, b),
        joined(h, b, c),
    ensures
        joined(h, a, c),
{
    let k = choose|k: nat| joined_within(h, b, c, k);
    lemma_joined_trans_within(h, a, b, c, k);
}

proof fn lemma_joined_trans_within(h: Seq<(usize, usize)>, a: int, b: int, c: int, k: nat)
    requires
        joined(h, a, b),
        joined_within(h, b, c, k),
    ensures
        joined(h, a, c),
    decreases k,
{
    if b == c {
    } else {
        let d = choose|d: int|
            joined_within(h, b, d, (k - 1) as nat) && #[trigger] linked(h, d, c);
        lemma_joined_trans_within(h, a, b, d, (k - 1) as nat);
        let m = choose|m: nat| joined_within(h, a, d, m);
        assert(joined_within(h, a, d, m) && linked(h, d, c));
        assert(joined_within(h, a, c, m + 1));
    }
}

/// Connection is symmetric.
proof fn lemma_joined_sym(h: Seq<(usize, usize)>, a: int, b: int)
    requires
        joined(h, a, b),
    ensures
        joined(h, b, a),
{
    let k = choose|k: nat| joined_within(h, a, b, k);
    lemma_joined_sym_within(h, a, b, k);
}

proof fn lemma_joined_sym_within(h: Seq<(usize, usize)>, a: int, b: int, k: nat)
    requires
        joined_within(h, a, b, k),
    ensures
        joined(h, b, a),
    decreases k,
{
    if a == b {
        assert(joined_within(h, b, a, 0));
    } else {
        let c = choose|c: int|
            joined_within(h, a, c, (k - 1) as nat) && #[trigger] linked(h, c, b);
        lemma_joined_sym_within(h, a, c, (k - 1) as nat);
        assert(linked(h, b, c));
        assert(joined_within(h, b, b, 0));
        assert(joined_within(h, b, c, 1));
        lemma_joined_trans(h, b, c, a);
    }
}

/// A connection survives the recording of one more merge.
proof fn lemma_joined_push(h: Seq<(usize, usize)>, p: (usize, usize), a: int, b: int, k: nat)
    requires
        joined_within(h, a, b, k),
    ensures
        joined_within(h.push(p), a, b, k),
    decreases k,
{
    if a == b {
    } else {
        let c = choose|c: int|
            joined_within(h, a, c, (k - 1) as nat) && #[trigger] linked(h, c, b);
        lemma_joined_push(h, p, a, c, (k - 1) as nat);
        let t = choose|t: int|
            0 <= t < h.len() && ((#[trigger] h[t]).0 == c && h[t].1 == b || h[t].0 == b && h[t].1
                == c);
        assert(h.push(p)[t] == h[t]);
        assert(linked(h.push(p), c, b));
        assert(joined_within(h.push(p), a, c, (k - 1) as nat) && linked(h.push(p), c, b));
    }
}

/// The newly recorded pair is connected.
proof fn lemma_joined_pair(h: Seq<(usize, usize)>, i: int, j: int, p: (usize, usize))
    requires
        p.0 == i,
        p.1 == j,
    ensures
        joined(h.push(p), i, j),
{
    let g = h.push(p);
    assert(g[h.len() as int] == p);
    assert(linked(g, i, j));
    assert(joined_within(g, i, i, 0));
    assert(joined_within(g, i, j, 1));
}

/// A connection that uses the newest merge decomposes into connections
/// over the older merges and the new pair's two ends.
proof fn lemma_joined_pop(h: Seq<(usize, usize)>, i: int, j: int, a: int, b: int, k: nat)
    requires
        joined_within(h.push((i as usize, j as usize)), a, b, k),
        0 <= i,
        0 <= j,
        i <= usize::MAX,
        j <= usize::MAX,
    ensures
        joined(h, a, b) || (joined(h, a, i) && joined(h, j, b)) || (joined(h, a, j) && joined(
            h,
            i,
            b,
        )),
    decreases k,
{
    let g = h.push((i as usize, j as usize));
    if a == b {
        assert(joined_within(h, a, b, 0));
    } else {
        let c = choose|c: int|
            joined_within(g, a, c, (k - 1) as nat) && #[trigger] linked(g, c, b);
        lemma_joined_pop(h, i, j, a, c, (k - 1) as nat);
        let t = choose|t: int|
            0 <= t < g.len() && ((#[trigger] g[t]).0 == c && g[t].1 == b || g[t].0 == b && g[t].1
                == c);
        if t < h.len() {
            // the last step uses an old merge
            assert(h[t] == g[t]);
            assert(linked(h, c, b));
            assert(joined_within(h, c, c, 0));
            assert(joined_within(h, c, b, 1));
            if joined(h, a, c) {
                lemma_joined_trans(h, a, c, b);
            } else if joined(h, a, i) && joined(h, j, c) {
                lemma_joined_trans(h, j, c, b);
            } else {
                lemma_joined_trans(h, i, c, b);
            }
        } else {
            // the last step uses the new pair
            assert(g[t] == (i as usize, j as usize));
            assert((c == i && b == j) || (c == j && b == i));
            assert(joined_within(h, i, i, 0));
            assert(joined_within(h, j, j, 0));
            if c == i && b == j {
                if joined(h, a, c) {
                    // a ~ i, and j ~ j
                } else if joined(h, a, i) && joined(h, j, c) {
                    // j ~ i, so a ~ i ~ j == b
                    lemma_joined_sym(h, j, c);
                    lemma_joined_trans(h, a, i, j);
                } else {
                    // a ~ j == b
                }
            } else {
                if joined(h, a, c) {
                    // a ~ j, and i ~ i
                } else if joined(h, a, i) && joined(h, j, c) {
                    // a ~ i == b
                } else {
                    // a ~ j and i ~ j, so a ~ j ~ i == b
                    lemma_joined_sym(h, i, c);
                    lemma_joined_trans(h, a, j, i);
                }
            }
        }
    }
}

/// An empty history replays to the table `new` builds: every element
/// its own parent.
pub proof fn lemma_replayed_empty(n: nat)
    ensures
        replayed(n, Seq::empty()).len() == n,
        forall|k: int| 0 <= k < n ==> replayed(n, Seq::empty())[k] == k as usize,
{
}

/// Recording one more merge replays to exactly the rewrite that `union`
/// performs.
pub proof fn lemma_replayed_step(n: nat, h: Seq<(usize, usize)>, i: usize, j: usize)
    ensures
        replayed(n, h.push((i, j))) == replayed(n, h).update(j as int, replayed(n, h)[i as int]),
{
    let g = h.push((i, j));
    assert(g.drop_last() =~= h);
    assert(g.last() == (i, j));
}

/// With no merges recorded, only an element and itself are connected.
proof fn lemma_joined_empty(h: Seq<(usize, usize)>, a: int, b: int, k: nat)
    requires
        h.len() == 0,
        joined_within(h, a, b, k),
    ensures
        a == b,
    decreases k,
{
    if a != b {
        let c = choose|c: int|
            joined_within(h, a, c, (k - 1) as nat) && #[trigger] linked(h, c, b);
        assert(false);
    }
}

/// The partition invariant. Replaying any sequence of legal merges
/// leaves a forest over `0..n` in which two elements share a canonical
/// element exactly when the recorded pairs connect them transitively.
pub proof fn lemma_partition_invariant(n: nat, h: Seq<(usize, usize)>)
    requires
        n <= usize::MAX,
        history_ok(n, h),
    ensures
        replayed(n, h).len() == n,
        valid(replayed(n, h)),
        forall|a: int, b: int|
            0 <= a < n && 0 <= b < n ==> ((root_of(replayed(n, h), a) == root_of(
                replayed(n, h),
                b,
            )) <==> #[trigger] joined(h, a, b)),
    decreases h.len(),
{
    let s = replayed(n, h);
    if h.len() == 0 {
        assert forall|k: int| 0 <= k < n implies is_root(s, k) by {
            assert(s[k] == k as usize);
        }
        assert forall|a: int, b: int| 0 <= a < n && 0 <= b < n implies ((root_of(s, a) == root_of(
            s,
            b,
        )) <==> #[trigger] joined(h, a, b)) by {
            lemma_root_of_root(s, a);
            lemma_root_of_root(s, b);
            if joined(h, a, b) {
                let k = choose|k: nat| joined_within(h, a, b, k);
                lemma_joined_empty(h, a, b, k);
            }
            if a == b {
                assert(joined_within(h, a, b, 0));
            }
        }
        assert forall|k: int| 0 <= k < s.len() implies crate::forest::reaches_root(s, k) by {
            lemma_root_of_root(s, k);
        }
    } else {
        let h0 = h.drop_last();
        let p = h.last();
        let i = p.0 as int;
        let j = p.1 as int;
        let s0 = replayed(n, h0);
        lemma_partition_invariant(n, h0);
        assert(h0.push(p) =~= h);
        if s0[i] == s0[j] {
            lemma_union_redundant(s0, i, j);
            assert(s == s0);
            lemma_same_parent_same_root(s0, i, j);
            assert(joined(h0, i, j));
            assert forall|a: int, b: int| 0 <= a < n && 0 <= b < n implies ((root_of(s, a)
                == root_of(s, b)) <==> #[trigger] joined(h, a, b)) by {
                if joined(h, a, b) {
                    let k = choose|k: nat| joined_within(h, a, b, k);
                    lemma_joined_pop(h0, i, j, a, b, k);
                    if joined(h0, a, b) {
                    } else if joined(h0, a, i) && joined(h0, j, b) {
                        lemma_joined_trans(h0, a, i, j);
                        lemma_joined_trans(h0, a, j, b);
                    } else {
                        lemma_joined_sym(h0, i, j);
                        lemma_joined_trans(h0, a, j, i);
                        lemma_joined_trans(h0, a, i, b);
                    }
                    assert(joined(h0, a, b));
                }
                if root_of(s, a) == root_of(s, b) {
                    assert(joined(h0, a, b));
                    let k = choose|k: nat| joined_within(h0, a, b, k);
                    lemma_joined_push(h0, p, a, b, k);
                    assert(joined(h, a, b));
                }
            }
        } else {
            lemma_union_merges(s0, i, j);
            lemma_union_classes(s0, i, j);
            lemma_root_of_root(s0, j);
            lemma_joined_pair(h0, i, j, p);
            assert(s == s0.update(j, s0[i]));
            assert forall|a: int, b: int| 0 <= a < n && 0 <= b < n implies ((root_of(s, a)
                == root_of(s, b)) <==> #[trigger] joined(h, a, b)) by {
                // instantiate the induction hypothesis at every pair used
                assert(joined(h0, a, b) <==> (root_of(s0, a) == root_of(s0, b)));
                assert(joined(h0, a, i) <==> (root_of(s0, a) == root_of(s0, i)));
                assert(joined(h0, a, j) <==> (root_of(s0, a) == root_of(s0, j)));
                assert(joined(h0, b, i) <==> (root_of(s0, b) == root_of(s0, i)));
                assert(joined(h0, b, j) <==> (root_of(s0, b) == root_of(s0, j)));
                assert(joined(h0, j, b) <==> (root_of(s0, j) == root_of(s0, b)));
                if root_of(s, a) == root_of(s, b) {
                    if joined(h0, a, b) {
                        let k = choose|k: nat| joined_within(h0, a, b, k);
                        lemma_joined_push(h0, p, a, b, k);
                    } else if joined(h0, a, i) && joined(h0, b, j) {
                        let k = choose|k: nat| joined_within(h0, a, i, k);
                        lemma_joined_push(h0, p, a, i, k);
                        let g = choose|g: nat| joined_within(h0, b, j, g);
                        lemma_joined_push(h0, p, b, j, g);
                        lemma_joined_trans(h, a, i, j);
                        lemma_joined_sym(h, b, j);
                        lemma_joined_trans(h, a, j, b);
                    } else {
                        assert(joined(h0, a, j) && joined(h0, b, i));
                        let k = choose|k: nat| joined_within(h0, a, j, k);
                        lemma_joined_push(h0, p, a, j, k);
                        let g = choose|g: nat| joined_within(h0, b, i, g);
                        lemma_joined_push(h0, p, b, i, g);
                        lemma_joined_sym(h, i, j);
                        lemma_joined_trans(h, a, j, i);
                        lemma_joined_sym(h, b, i);
                        lemma_joined_trans(h, a, i, b);
                    }
                    assert(joined(h, a, b));
                }
                if joined(h, a, b) {
                    let k = choose|k: nat| joined_within(h, a, b, k);
                    lemma_joined_pop(h0, i, j, a, b, k);
                    if joined(h0, a, b) {
                    } else if joined(h0, a, i) && joined(h0, j, b) {
                        assert(root_of(s0, a) == root_of(s0, i));
                        assert(root_of(s0, b) == j);
                    } else {
                        assert(root_of(s0, a) == j);
                        assert(root_of(s0, b) == root_of(s0, i));
                    }
                    assert(root_of(s, a) == root_of(s, b));
                }
            }
        }
    }
}

} // verus!
