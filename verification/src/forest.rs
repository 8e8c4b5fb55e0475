//! The mathematical model of a partition table: a parent array as a
//! forest of rooted trees, described by bounded walks along parent
//! pointers, together with the lemmas that the table's operations rely on.

use vstd::prelude::*;

verus! {

/// `k` is its own parent, hence the canonical element of its partition.
pub open spec fn is_root(s: Seq<usize>, k: int) -> bool {
    s[k] as int == k
}

/// The element reached from `i` after at most `fuel` parent-pointer
/// steps, stopping early at a root.
pub open spec fn walk(s: Seq<usize>, i: int, fuel: nat) -> int
    decreases fuel,
{
    if fuel == 0 || s[i] as int == i {
        i
    } else {
        walk(s, s[i] as int, (fuel - 1) as nat)
    }
}

/// Following parent pointers from `i` eventually reaches a root.
pub open spec fn reaches_root(s: Seq<usize>, i: int) -> bool {
    exists|f: nat| is_root(s, walk(s, i, f))
}

/// The canonical element of the partition containing `i`: the root that
/// the parent chain from `i` ends at.
pub open spec fn root_of(s: Seq<usize>, i: int) -> int {
    walk(s, i, choose|f: nat| is_root(s, walk(s, i, f)))
}

/// Every parent pointer stays inside the table.
pub open spec fn in_range(s: Seq<usize>) -> bool {
    forall|k: int| 0 <= k < s.len() ==> (#[trigger] s[k] as int) < s.len()
}

/// The table is a forest: pointers are in range and every element's
/// parent chain ends at a root.
pub open spec fn valid(s: Seq<usize>) -> bool {
    &&& in_range(s)
    &&& forall|k: int| 0 <= k < s.len() ==> reaches_root(s, k)
}

/// `k` lies on the parent chain from `i`, strictly before the root.
/// These are exactly the elements that a compressing lookup redirects.
pub open spec fn on_chain(s: Seq<usize>, i: int, k: int) -> bool {
    k != root_of(s, i) && exists|t: nat| walk(s, i, t) == k
}

/// Once a walk has reached a root, more fuel does not move it.
pub proof fn lemma_walk_stable(s: Seq<usize>, i: int, f: nat, g: nat)
    requires
        is_root(s, walk(s, i, f)),
        f <= g,
    ensures
        walk(s, i, g) == walk(s, i, f),
    decreases f,
{
    if f == 0 || s[i] as int == i {
    } else {
        lemma_walk_stable(s, s[i] as int, (f - 1) as nat, (g - 1) as nat);
    }
}

/// Any fuel that reaches a root computes `root_of`.
pub proof fn lemma_root_of_from_witness(s: Seq<usize>, i: int, f: nat)
    requires
        is_root(s, walk(s, i, f)),
    ensures
        reaches_root(s, i),
        root_of(s, i) == walk(s, i, f),
        is_root(s, root_of(s, i)),
{
    assert(reaches_root(s, i));
    let g = choose|g: nat| is_root(s, walk(s, i, g));
    if f <= g {
        lemma_walk_stable(s, i, f, g);
    } else {
        lemma_walk_stable(s, i, g, f);
    }
}

/// A root is its own canonical element.
pub proof fn lemma_root_of_root(s: Seq<usize>, r: int)
    requires
        is_root(s, r),
    ensures
        reaches_root(s, r),
        root_of(s, r) == r,
{
    assert(walk(s, r, 0) == r);
    lemma_root_of_from_witness(s, r, 0);
}

/// Walks compose: `a + b` steps land where `b` steps from the
/// `a`-step point land.
pub proof fn lemma_walk_compose(s: Seq<usize>, i: int, a: nat, b: nat)
    ensures
        walk(s, i, a + b) == walk(s, walk(s, i, a), b),
    decreases a,
{
    if a == 0 || s[i] as int == i {
    } else {
        lemma_walk_compose(s, s[i] as int, (a - 1) as nat, b);
    }
}

/// Stepping to the parent does not change the canonical element.
pub proof fn lemma_root_of_step(s: Seq<usize>, i: int)
    requires
        reaches_root(s, i),
        s[i] as int != i,
    ensures
        reaches_root(s, s[i] as int),
        root_of(s, s[i] as int) == root_of(s, i),
{
    let f = choose|f: nat| is_root(s, walk(s, i, f));
    assert(f != 0);
    assert(walk(s, i, f) == walk(s, s[i] as int, (f - 1) as nat));
    lemma_root_of_from_witness(s, s[i] as int, (f - 1) as nat);
    lemma_root_of_from_witness(s, i, f);
}

/// Every point of a walk has the same canonical element as its start.
pub proof fn lemma_root_of_walk(s: Seq<usize>, i: int, m: nat)
    requires
        reaches_root(s, i),
    ensures
        reaches_root(s, walk(s, i, m)),
        root_of(s, walk(s, i, m)) == root_of(s, i),
{
    let f = choose|f: nat| is_root(s, walk(s, i, f));
    if m >= f {
        lemma_walk_stable(s, i, f, m);
        lemma_root_of_from_witness(s, i, f);
        lemma_root_of_root(s, walk(s, i, m));
    } else {
        lemma_walk_compose(s, i, m, (f - m) as nat);
        lemma_root_of_from_witness(s, walk(s, i, m), (f - m) as nat);
        lemma_root_of_from_witness(s, i, f);
    }
}

/// Repeating a walk that returns to its start returns to it again.
proof fn lemma_walk_repeat(s: Seq<usize>, x: int, d: nat, k: nat)
    requires
        walk(s, x, d) == x,
    ensures
        walk(s, x, k * d) == x,
    decreases k,
{
    if k == 0 {
        assert(k * d == 0);
    } else {
        lemma_walk_repeat(s, x, d, (k - 1) as nat);
        assert(k * d == (k - 1) as nat * d + d) by (nonlinear_arith)
            requires
                k >= 1,
        ;
        lemma_walk_compose(s, x, (k - 1) as nat * d, d);
    }
}

/// A parent chain that reaches a root never returns to a non-root
/// element it started from.
pub proof fn lemma_no_cycle(s: Seq<usize>, x: int, d: nat)
    requires
        reaches_root(s, x),
        !is_root(s, x),
        d >= 1,
    ensures
        walk(s, x, d) != x,
{
    if walk(s, x, d) == x {
        let f = choose|f: nat| is_root(s, walk(s, x, f));
        let k = f + 1;
        assert(k * d >= k * 1) by (nonlinear_arith)
            requires
                d >= 1 && k >= 1,
        ;
        lemma_walk_repeat(s, x, d, k);
        lemma_walk_stable(s, x, f, k * d);
        assert(is_root(s, x));
    }
}

/// Before the root is reached, the points of a walk are pairwise
/// distinct.
pub proof fn lemma_path_distinct(s: Seq<usize>, i: int, t: nat, m: nat)
    requires
        reaches_root(s, i),
        t < m,
        !is_root(s, walk(s, i, m)),
    ensures
        walk(s, i, t) != walk(s, i, m),
{
    if walk(s, i, t) == walk(s, i, m) {
        let x = walk(s, i, t);
        lemma_walk_compose(s, i, t, (m - t) as nat);
        assert(walk(s, x, (m - t) as nat) == x);
        lemma_root_of_walk(s, i, t);
        lemma_no_cycle(s, x, (m - t) as nat);
    }
}

/// An element whose parent is a root canonicalizes in one hop: its
/// canonical element is that parent. After a compressing lookup this
/// holds of every element the lookup walked over.
pub proof fn lemma_one_hop(s: Seq<usize>, i: int)
    requires
        is_root(s, s[i] as int),
    ensures
        reaches_root(s, i),
        root_of(s, i) == s[i] as int,
{
    if s[i] as int == i {
        lemma_root_of_root(s, i);
    } else {
        assert(walk(s, s[i] as int, 0) == s[i] as int);
        assert(walk(s, i, 1) == s[i] as int);
        lemma_root_of_from_witness(s, i, 1);
    }
}

/// Two elements with the same parent have the same canonical element.
pub proof fn lemma_same_parent_same_root(s: Seq<usize>, i: int, j: int)
    requires
        valid(s),
        0 <= i < s.len(),
        0 <= j < s.len(),
        s[i] == s[j],
    ensures
        root_of(s, i) == root_of(s, j),
{
    assert(reaches_root(s, i));
    assert(reaches_root(s, j));
    if s[i] as int != i {
        lemma_root_of_step(s, i);
    }
    if s[j] as int != j {
        lemma_root_of_step(s, j);
    }
}

/// Redirecting a non-root element `c` straight to its own root leaves
/// every completed walk where it was.
proof fn lemma_redirect_walk(s: Seq<usize>, c: int, r: int, x: int, f: nat)
    requires
        in_range(s),
        0 <= c < s.len(),
        0 <= r < s.len(),
        is_root(s, r),
        c != r,
        reaches_root(s, c),
        root_of(s, c) == r,
        0 <= x < s.len(),
        is_root(s, walk(s, x, f)),
    ensures
        walk(s.update(c, r as usize), x, f) == walk(s, x, f),
        is_root(s.update(c, r as usize), walk(s, x, f)),
    decreases f,
{
    let u = s.update(c, r as usize);
    if is_root(s, c) {
        lemma_root_of_root(s, c);
    }
    if s[x] as int == x {
        assert(x != c);
        assert(u[x] == s[x]);
    } else if x == c {
        assert(f >= 1);
        lemma_root_of_from_witness(s, c, f);
        assert(walk(s, c, f) == r);
        assert(u[c] as int == r);
        assert(u[r] as int == r);
        assert(walk(u, r, (f - 1) as nat) == r);
    } else {
        assert(f >= 1);
        lemma_redirect_walk(s, c, r, s[x] as int, (f - 1) as nat);
        assert(u[x] == s[x]);
    }
}

/// Path compression: pointing a non-root element at its own root keeps
/// the table a forest and changes no element's canonical element.
pub proof fn lemma_redirect(s: Seq<usize>, c: int, r: int)
    requires
        valid(s),
        0 <= c < s.len(),
        0 <= r < s.len(),
        is_root(s, r),
        c != r,
        root_of(s, c) == r,
    ensures
        valid(s.update(c, r as usize)),
        is_root(s.update(c, r as usize), r),
        forall|k: int|
            0 <= k < s.len() ==> root_of(#[trigger] s.update(c, r as usize), k) == root_of(s, k),
{
    let u = s.update(c, r as usize);
    assert(u[r] as int == r);
    assert forall|k: int| 0 <= k < s.len() implies reaches_root(u, k) && root_of(u, k) == root_of(
        s,
        k,
    ) by {
        assert(reaches_root(s, k));
        let f = choose|f: nat| is_root(s, walk(s, k, f));
        lemma_redirect_walk(s, c, r, k, f);
        lemma_root_of_from_witness(u, k, f);
        lemma_root_of_from_witness(s, k, f);
    }
}

/// Rewriting the pointer of `j` leaves every walk that starts in another
/// partition untouched: such a walk never visits `j`.
proof fn lemma_union_avoid(s: Seq<usize>, j: int, q: usize, x: int, f: nat)
    requires
        in_range(s),
        0 <= j < s.len(),
        0 <= x < s.len(),
        is_root(s, walk(s, x, f)),
        root_of(s, x) != root_of(s, j),
    ensures
        walk(s.update(j, q), x, f) == walk(s, x, f),
        is_root(s.update(j, q), walk(s, x, f)),
    decreases f,
{
    let u = s.update(j, q);
    assert(x != j);
    if s[x] as int == x {
        assert(u[x] == s[x]);
    } else {
        assert(f >= 1);
        assert(reaches_root(s, x));
        lemma_root_of_step(s, x);
        lemma_union_avoid(s, j, q, s[x] as int, (f - 1) as nat);
        assert(u[x] == s[x]);
    }
}

/// After `j`, a root, is pointed at `q`, an element of another
/// partition, everything that used to canonicalize to `j` now
/// canonicalizes to `q`'s old canonical element.
proof fn lemma_union_bridge(s: Seq<usize>, j: int, q: usize, x: int, f: nat)
    requires
        valid(s),
        0 <= j < s.len(),
        q < s.len(),
        is_root(s, j),
        root_of(s, q as int) != j,
        0 <= x < s.len(),
        root_of(s, x) == j,
        is_root(s, walk(s, x, f)),
    ensures
        reaches_root(s.update(j, q), x),
        root_of(s.update(j, q), x) == root_of(s, q as int),
    decreases f,
{
    let u = s.update(j, q);
    lemma_root_of_root(s, j);
    if x == j {
        assert(q as int != j);
        assert(reaches_root(s, q as int));
        let g = choose|g: nat| is_root(s, walk(s, q as int, g));
        lemma_union_avoid(s, j, q, q as int, g);
        lemma_root_of_from_witness(s, q as int, g);
        assert(u[j] == q);
        assert(walk(u, j, g + 1) == walk(u, q as int, g));
        lemma_root_of_from_witness(u, j, g + 1);
    } else {
        lemma_root_of_from_witness(s, x, f);
        assert(!is_root(s, x));
        assert(f >= 1);
        assert(reaches_root(s, x));
        lemma_root_of_step(s, x);
        lemma_union_bridge(s, j, q, s[x] as int, (f - 1) as nat);
        let g = choose|g: nat| is_root(u, walk(u, s[x] as int, g));
        assert(u[x] == s[x]);
        assert(walk(u, x, g + 1) == walk(u, s[x] as int, g));
        lemma_root_of_from_witness(u, x, g + 1);
        lemma_root_of_from_witness(u, s[x] as int, g);
    }
}

/// Merging: pointing the root `j` of one partition at an element `q` of
/// another keeps the table a forest; the partition of `j` takes `q`'s
/// canonical element and every other partition is unchanged.
pub proof fn lemma_union_root(s: Seq<usize>, j: int, q: usize)
    requires
        valid(s),
        0 <= j < s.len(),
        q < s.len(),
        is_root(s, j),
        root_of(s, q as int) != j,
    ensures
        valid(s.update(j, q)),
        forall|k: int|
            0 <= k < s.len() ==> root_of(#[trigger] s.update(j, q), k) == (if root_of(s, k) == j {
                root_of(s, q as int)
            } else {
                root_of(s, k)
            }),
{
    let u = s.update(j, q);
    lemma_root_of_root(s, j);
    assert forall|k: int| 0 <= k < s.len() implies reaches_root(u, k) && root_of(u, k) == (
    if root_of(s, k) == j {
        root_of(s, q as int)
    } else {
        root_of(s, k)
    }) by {
        assert(reaches_root(s, k));
        let f = choose|f: nat| is_root(s, walk(s, k, f));
        if root_of(s, k) == j {
            lemma_union_bridge(s, j, q, k, f);
        } else {
            lemma_union_avoid(s, j, q, k, f);
            lemma_root_of_from_witness(u, k, f);
            lemma_root_of_from_witness(s, k, f);
        }
    }
}

/// Whatever `j`'s place in its partition, pointing it at an element of
/// another partition leaves every parent chain ending at a root.
proof fn lemma_union_reach(s: Seq<usize>, j: int, q: usize, x: int, f: nat)
    requires
        valid(s),
        0 <= j < s.len(),
        q < s.len(),
        root_of(s, q as int) != root_of(s, j),
        0 <= x < s.len(),
        root_of(s, x) == root_of(s, j),
        is_root(s, walk(s, x, f)),
    ensures
        reaches_root(s.update(j, q), x),
    decreases f,
{
    let u = s.update(j, q);
    if x == j {
        assert(q as int != j);
        assert(reaches_root(s, q as int));
        let g = choose|g: nat| is_root(s, walk(s, q as int, g));
        lemma_union_avoid(s, j, q, q as int, g);
        assert(u[j] == q);
        assert(walk(u, j, g + 1) == walk(u, q as int, g));
        lemma_root_of_from_witness(u, j, g + 1);
    } else if s[x] as int == x {
        assert(u[x] == s[x]);
        assert(is_root(u, x));
        assert(walk(u, x, 0) == x);
        lemma_root_of_from_witness(u, x, 0);
    } else {
        assert(f >= 1);
        assert(reaches_root(s, x));
        lemma_root_of_step(s, x);
        lemma_union_reach(s, j, q, s[x] as int, (f - 1) as nat);
        let g = choose|g: nat| is_root(u, walk(u, s[x] as int, g));
        assert(u[x] == s[x]);
        assert(walk(u, x, g + 1) == walk(u, s[x] as int, g));
        lemma_root_of_from_witness(u, x, g + 1);
    }
}

/// A merge of two distinct partitions keeps the table a forest, whether
/// or not `j` is a root.
pub proof fn lemma_union_valid(s: Seq<usize>, i: int, j: int)
    requires
        valid(s),
        0 <= i < s.len(),
        0 <= j < s.len(),
        root_of(s, i) != root_of(s, j),
    ensures
        valid(s.update(j, s[i])),
{
    let q = s[i];
    if s[i] as int != i {
        assert(reaches_root(s, i));
        lemma_root_of_step(s, i);
    }
    assert(root_of(s, q as int) != root_of(s, j));
    let u = s.update(j, q);
    assert forall|k: int| 0 <= k < u.len() implies reaches_root(u, k) by {
        assert(reaches_root(s, k));
        let f = choose|f: nat| is_root(s, walk(s, k, f));
        if root_of(s, k) == root_of(s, j) {
            lemma_union_reach(s, j, q, k, f);
        } else {
            lemma_union_avoid(s, j, q, k, f);
            lemma_root_of_from_witness(u, k, f);
        }
    }
}

/// A merge whose two arguments already share a parent rewrites a slot
/// with the value it holds: the table does not change.
pub proof fn lemma_union_redundant(s: Seq<usize>, i: int, j: int)
    requires
        0 <= i < s.len(),
        0 <= j < s.len(),
        s[i] == s[j],
    ensures
        s.update(j, s[i]) == s,
{
    assert(s.update(j, s[i]) =~= s);
}

/// Merging the partition whose canonical element is the root `j` into
/// the partition of `i` moves exactly the elements of `j`'s partition,
/// and they take the canonical element `i` had before the merge.
pub proof fn lemma_union_merges(s: Seq<usize>, i: int, j: int)
    requires
        valid(s),
        0 <= i < s.len(),
        0 <= j < s.len(),
        is_root(s, j),
        root_of(s, i) != j,
    ensures
        valid(s.update(j, s[i])),
        forall|k: int|
            0 <= k < s.len() ==> root_of(#[trigger] s.update(j, s[i]), k) == (if root_of(s, k)
                == j {
                root_of(s, i)
            } else {
                root_of(s, k)
            }),
{
    let q = s[i];
    if s[i] as int != i {
        assert(reaches_root(s, i));
        lemma_root_of_step(s, i);
    }
    lemma_union_root(s, j, q);
}

/// After a merge, two elements share a canonical element exactly when
/// they did before, or one sat with `i` and the other with `j`: a merge
/// joins those two partitions and no others.
pub proof fn lemma_union_classes(s: Seq<usize>, i: int, j: int)
    requires
        valid(s),
        0 <= i < s.len(),
        0 <= j < s.len(),
        is_root(s, j),
        root_of(s, i) != j,
    ensures
        forall|k: int, l: int|
            0 <= k < s.len() && 0 <= l < s.len() ==> ((root_of(#[trigger] s.update(j, s[i]), k)
                == root_of(s.update(j, s[i]), l)) <==> (root_of(s, k) == root_of(s, l) || (root_of(
                s,
                k,
            ) == root_of(s, i) && root_of(s, l) == j) || (root_of(s, k) == j && root_of(s, l)
                == root_of(s, i)))),
{
    lemma_root_of_root(s, j);
    lemma_union_merges(s, i, j);
}

} // verus!
