//! Union-find over labels `0..n`: a forest of parent links with path halving.

use vstd::prelude::*;

verus! {

/// The label reached from `x` by `n` parent links.
pub open spec fn up(p: Seq<u32>, x: int, n: nat) -> int
    decreases n,
{
    if n == 0 {
        x
    } else {
        up(p, p[x] as int, (n - 1) as nat)
    }
}

/// `rank` grows along every proper parent link.
pub open spec fn ranked(p: Seq<u32>, rank: Seq<nat>) -> bool {
    &&& rank.len() == p.len()
    &&& forall|i: int|
        0 <= i < p.len() && p[i] != i ==> rank[i] < #[trigger] rank[p[i] as int]
}

/// Every link stays in range and none leads round in a circle.
pub open spec fn is_forest(p: Seq<u32>) -> bool {
    &&& forall|i: int| 0 <= i < p.len() ==> (#[trigger] p[i]) < p.len()
    &&& exists|rank: Seq<nat>| ranked(p, rank)
}

/// `r` is the root that the links from `x` lead to.
pub open spec fn leads_to_root(p: Seq<u32>, x: int, r: int) -> bool {
    &&& 0 <= r < p.len()
    &&& p[r] == r
    &&& exists|n: nat| up(p, x, n) == r
}

/// The root that represents the class of `x`.
pub open spec fn root(p: Seq<u32>, x: int) -> int {
    choose|r: int| leads_to_root(p, x, r)
}

/// `x` and `y` are in the same class.
pub open spec fn same_class(p: Seq<u32>, x: int, y: int) -> bool {
    root(p, x) == root(p, y)
}

spec fn top(rank: Seq<nat>) -> nat
    decreases rank.len(),
{
    if rank.len() == 0 {
        0
    } else {
        let t = top(rank.drop_last());
        if t < rank.last() {
            rank.last()
        } else {
            t
        }
    }
}

proof fn lemma_top(rank: Seq<nat>, i: int)
    requires
        0 <= i < rank.len(),
    ensures
        rank[i] <= top(rank),
    decreases rank.len(),
{
    if i < rank.len() - 1 {
        lemma_top(rank.drop_last(), i);
    }
}

proof fn lemma_root_exists(p: Seq<u32>, rank: Seq<nat>, x: int)
    requires
        is_forest(p),
        ranked(p, rank),
        0 <= x < p.len(),
    ensures
        exists|r: int| leads_to_root(p, x, r),
    decreases top(rank) - rank[x],
{
    if p[x] == x {
        assert(up(p, x, 0) == x);
        assert(leads_to_root(p, x, x));
    } else {
        let y = p[x] as int;
        assert(rank[x] < rank[p[x] as int]);
        lemma_top(rank, x);
        lemma_top(rank, y);
        lemma_root_exists(p, rank, y);
        let r = choose|r: int| leads_to_root(p, y, r);
        let n = choose|n: nat| up(p, y, n) == r;
        assert(up(p, x, (n + 1) as nat) == r);
        assert(leads_to_root(p, x, r));
    }
}

proof fn lemma_root_stays(p: Seq<u32>, r: int, n: nat)
    requires
        0 <= r < p.len(),
        p[r] == r,
    ensures
        up(p, r, n) == r,
    decreases n,
{
    if n > 0 {
        lemma_root_stays(p, r, (n - 1) as nat);
    }
}

proof fn lemma_root_unique(p: Seq<u32>, x: int, n: nat, m: nat)
    requires
        0 <= up(p, x, n) < p.len(),
        0 <= up(p, x, m) < p.len(),
        p[up(p, x, n)] == up(p, x, n),
        p[up(p, x, m)] == up(p, x, m),
    ensures
        up(p, x, n) == up(p, x, m),
    decreases n,
{
    if n == 0 {
        lemma_root_stays(p, x, m);
    } else if m == 0 {
        lemma_root_stays(p, x, n);
    } else {
        lemma_root_unique(p, p[x] as int, (n - 1) as nat, (m - 1) as nat);
    }
}

/// What a forest says of the root of `x`.
pub proof fn lemma_root(p: Seq<u32>, x: int)
    requires
        is_forest(p),
        0 <= x < p.len(),
    ensures
        leads_to_root(p, x, root(p, x)),
        p[x] == x ==> root(p, x) == x,
        root(p, x) == root(p, p[x] as int),
        root(p, root(p, x)) == root(p, x),
{
    let rank = choose|rank: Seq<nat>| ranked(p, rank);
    lemma_root_exists(p, rank, x);
    let r = root(p, x);
    let n = choose|n: nat| up(p, x, n) == r;
    if p[x] == x {
        lemma_root_stays(p, x, n);
    }
    let y = p[x] as int;
    assert(0 <= y < p.len());
    lemma_root_exists(p, rank, y);
    let s = root(p, y);
    let m = choose|m: nat| up(p, y, m) == s;
    assert(up(p, x, (m + 1) as nat) == s);
    lemma_root_unique(p, x, n, (m + 1) as nat);
    lemma_root_exists(p, rank, r);
    let k = choose|k: nat| up(p, r, k) == root(p, r);
    lemma_root_stays(p, r, k);
}

proof fn lemma_up_keeps(p: Seq<u32>, f: spec_fn(int) -> int, x: int, n: nat)
    requires
        is_forest(p),
        0 <= x < p.len(),
        forall|i: int| 0 <= i < p.len() ==> #[trigger] f(i) == f(p[i] as int),
    ensures
        0 <= up(p, x, n) < p.len(),
        f(up(p, x, n)) == f(x),
    decreases n,
{
    if n > 0 {
        assert(f(x) == f(p[x] as int));
        lemma_up_keeps(p, f, p[x] as int, (n - 1) as nat);
    }
}

/// A map that is constant along links and fixes the roots is `root`.
pub proof fn lemma_root_is(p: Seq<u32>, f: spec_fn(int) -> int, x: int)
    requires
        is_forest(p),
        0 <= x < p.len(),
        forall|i: int| 0 <= i < p.len() ==> #[trigger] f(i) == f(p[i] as int),
        forall|i: int| 0 <= i < p.len() && p[i] == i ==> #[trigger] f(i) == i,
    ensures
        root(p, x) == f(x),
{
    lemma_root(p, x);
    let n = choose|n: nat| up(p, x, n) == root(p, x);
    lemma_up_keeps(p, f, x, n);
}

/// Skipping one link keeps the forest and every root.
proof fn lemma_halve(p: Seq<u32>, x: int)
    requires
        is_forest(p),
        0 <= x < p.len(),
        p[x] != x,
    ensures
        is_forest(p.update(x, p[p[x] as int])),
        forall|i: int|
            0 <= i < p.len() ==> #[trigger] root(p.update(x, p[p[x] as int]), i) == root(p, i),
        forall|rank: Seq<nat>|
            #[trigger] ranked(p, rank) ==> ranked(p.update(x, p[p[x] as int]), rank),
{
    let y = p[x] as int;
    let q = p.update(x, p[y]);
    assert forall|rank: Seq<nat>| #[trigger] ranked(p, rank) implies ranked(q, rank) by {
        assert forall|i: int| 0 <= i < q.len() && q[i] != i implies rank[i]
            < #[trigger] rank[q[i] as int] by {
            if i == x {
                assert(rank[x] < rank[p[x] as int]);
                if p[y] != y {
                    assert(rank[y] < rank[p[y] as int]);
                }
            } else {
                assert(rank[i] < rank[p[i] as int]);
            }
        }
    }
    let rank = choose|rank: Seq<nat>| ranked(p, rank);
    assert(ranked(q, rank));
    let f = |i: int| root(p, i);
    assert forall|i: int| 0 <= i < q.len() implies #[trigger] f(i) == f(q[i] as int) by {
        lemma_root(p, i);
        if i == x {
            lemma_root(p, y);
        }
    }
    assert forall|i: int| 0 <= i < q.len() && q[i] == i implies #[trigger] f(i) == i by {
        lemma_root(p, i);
        if i == x {
            assert(rank[x] < rank[p[x] as int]);
            if p[y] != y {
                assert(rank[y] < rank[p[y] as int]);
            }
        }
    }
    assert forall|i: int| 0 <= i < p.len() implies #[trigger] root(q, i) == root(p, i) by {
        lemma_root_is(q, f, i);
    }
}

/// Linking the root `a` below the root `b` moves the class of `a` to `b`.
proof fn lemma_link(p: Seq<u32>, a: int, b: int)
    requires
        is_forest(p),
        0 <= a < p.len(),
        0 <= b < p.len(),
        p[a] == a,
        p[b] == b,
        a != b,
    ensures
        is_forest(p.update(a, b as u32)),
        forall|i: int|
            0 <= i < p.len() ==> #[trigger] root(p.update(a, b as u32), i) == (if root(p, i) == a {
                b
            } else {
                root(p, i)
            }),
{
    let q = p.update(a, b as u32);
    let rank = choose|rank: Seq<nat>| ranked(p, rank);
    let high = if rank[b] <= rank[a] {
        rank[a] + 1
    } else {
        rank[b]
    };
    let lifted = rank.update(b, high);
    assert forall|i: int| 0 <= i < q.len() && q[i] != i implies lifted[i]
        < #[trigger] lifted[q[i] as int] by {
        if i != a {
            assert(rank[i] < rank[p[i] as int]);
        }
    }
    assert(ranked(q, lifted));
    let f = |i: int|
        if root(p, i) == a {
            b
        } else {
            root(p, i)
        };
    lemma_root(p, a);
    lemma_root(p, b);
    assert forall|i: int| 0 <= i < q.len() implies #[trigger] f(i) == f(q[i] as int) by {
        lemma_root(p, i);
    }
    assert forall|i: int| 0 <= i < q.len() && q[i] == i implies #[trigger] f(i) == i by {
        lemma_root(p, i);
    }
    assert forall|i: int| 0 <= i < p.len() implies #[trigger] root(q, i) == f(i) by {
        lemma_root_is(q, f, i);
    }
}

/// A new label that is its own parent is its own class and leaves the other
/// classes alone.
pub proof fn lemma_add_label(p: Seq<u32>)
    requires
        is_forest(p),
        p.len() <= u32::MAX,
    ensures
        is_forest(p.push(p.len() as u32)),
        forall|i: int|
            0 <= i < p.len() ==> #[trigger] root(p.push(p.len() as u32), i) == root(p, i),
        root(p.push(p.len() as u32), p.len() as int) == p.len(),
{
    let q = p.push(p.len() as u32);
    let rank = choose|rank: Seq<nat>| ranked(p, rank);
    let longer = rank.push(0);
    assert forall|i: int| 0 <= i < q.len() && q[i] != i implies longer[i]
        < #[trigger] longer[q[i] as int] by {
        assert(rank[i] < rank[p[i] as int]);
    }
    assert(ranked(q, longer));
    let f = |i: int|
        if i < p.len() {
            root(p, i)
        } else {
            i
        };
    assert forall|i: int| 0 <= i < q.len() implies #[trigger] f(i) == f(q[i] as int) by {
        if i < p.len() {
            lemma_root(p, i);
        }
    }
    assert forall|i: int| 0 <= i < q.len() && q[i] == i implies #[trigger] f(i) == i by {
        if i < p.len() {
            lemma_root(p, i);
        }
    }
    assert forall|i: int| 0 <= i < q.len() implies #[trigger] root(q, i) == f(i) by {
        lemma_root_is(q, f, i);
    }
}

/// The empty forest.
pub proof fn lemma_no_labels()
    ensures
        is_forest(Seq::<u32>::empty()),
{
    assert(ranked(Seq::<u32>::empty(), Seq::<nat>::empty()));
}

/// Union-find root with path halving.
pub fn find(parents: &mut [u32], mut x: u32) -> (r: u32)
    requires
        is_forest(old(parents)@),
        x < old(parents)@.len(),
    ensures
        is_forest(final(parents)@),
        final(parents)@.len() == old(parents)@.len(),
        r == root(old(parents)@, x as int),
        r < final(parents)@.len(),
        final(parents)@[r as int] == r,
        forall|i: int|
            0 <= i < old(parents)@.len() ==> #[trigger] root(final(parents)@, i) == root(
                old(parents)@,
                i,
            ),
{
    let ghost start = parents@;
    let ghost rank = choose|rank: Seq<nat>| ranked(start, rank);
    let ghost x0 = x as int;
    while parents[x as usize] != x
        invariant
            is_forest(parents@),
            parents@.len() == start.len(),
            ranked(parents@, rank),
            0 <= x < parents@.len(),
            0 <= x0 < start.len(),
            root(parents@, x as int) == root(start, x0),
            forall|i: int| 0 <= i < start.len() ==> #[trigger] root(parents@, i) == root(start, i),
        decreases top(rank) - rank[x as int],
    {
        let p = parents[x as usize];
        let ghost before = parents@;
        proof {
            lemma_halve(before, x as int);
            lemma_root(before, x as int);
            lemma_root(before, p as int);
            assert(rank[x as int] < rank[before[x as int] as int]);
            if before[p as int] != p {
                assert(rank[p as int] < rank[before[p as int] as int]);
            }
            lemma_top(rank, before[p as int] as int);
        }
        let g = parents[p as usize];
        parents[x as usize] = g;
        assert(parents@ == before.update(x as int, before[p as int]));
        x = parents[x as usize];
    }
    proof {
        lemma_root(parents@, x as int);
    }
    x
}

/// Link the roots of two labels: the class of `a` joins that of `b`.
pub fn union(parents: &mut [u32], a: u32, b: u32)
    requires
        is_forest(old(parents)@),
        a < old(parents)@.len(),
        b < old(parents)@.len(),
    ensures
        is_forest(final(parents)@),
        final(parents)@.len() == old(parents)@.len(),
        forall|i: int|
            0 <= i < old(parents)@.len() ==> #[trigger] root(final(parents)@, i) == (if root(
                old(parents)@,
                i,
            ) == root(old(parents)@, a as int) {
                root(old(parents)@, b as int)
            } else {
                root(old(parents)@, i)
            }),
        forall|i: int, j: int|
            0 <= i < old(parents)@.len() && 0 <= j < old(parents)@.len() ==> (#[trigger] same_class(
                final(parents)@,
                i,
                j,
            ) <==> {
                ||| same_class(old(parents)@, i, j)
                ||| same_class(old(parents)@, i, a as int) && same_class(
                    old(parents)@,
                    j,
                    b as int,
                )
                ||| same_class(old(parents)@, i, b as int) && same_class(
                    old(parents)@,
                    j,
                    a as int,
                )
            }),
{
    let ra = find(parents, a);
    let ghost mid = parents@;
    let rb = find(parents, b);
    if ra != rb {
        let ghost before = parents@;
        proof {
            lemma_root(mid, ra as int);
            lemma_root(before, ra as int);
            lemma_link(before, ra as int, rb as int);
        }
        parents[ra as usize] = rb;
        assert(parents@ == before.update(ra as int, rb));
    }
}

} // verus!
