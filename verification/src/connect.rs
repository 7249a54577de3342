//! Sets of lit pixels and their connectivity.
//!
//! A pixel is a pair `(row, column)`; a set of lit pixels is a predicate.

use vstd::prelude::*;

verus! {

/// A pixel as `(row, column)`.
pub type Pixel = (int, int);

/// A set of lit pixels.
pub type LitSet = spec_fn(Pixel) -> bool;

/// Neighbours, a pixel counting as its own: the eight surrounding pixels, or
/// with `eight == false` the four that share an edge.
pub open spec fn adjacent(eight: bool, p: Pixel, q: Pixel) -> bool {
    let dr = p.0 - q.0;
    let dc = p.1 - q.1;
    &&& -1 <= dr <= 1
    &&& -1 <= dc <= 1
    &&& eight || dr == 0 || dc == 0
}

/// A non-empty walk over lit pixels, each a neighbour of the one before.
pub open spec fn is_walk(lit: LitSet, eight: bool, walk: Seq<Pixel>) -> bool {
    &&& walk.len() > 0
    &&& forall|i: int| 0 <= i < walk.len() ==> lit(#[trigger] walk[i])
    &&& forall|i: int, j: int|
        0 <= i && j == i + 1 && j < walk.len() ==> adjacent(
            eight,
            #[trigger] walk[i],
            #[trigger] walk[j],
        )
}

/// `walk` leads from `p` to `q`.
pub open spec fn is_walk_between(
    lit: LitSet,
    eight: bool,
    walk: Seq<Pixel>,
    p: Pixel,
    q: Pixel,
) -> bool {
    &&& is_walk(lit, eight, walk)
    &&& walk[0] == p
    &&& walk[walk.len() - 1] == q
}

/// Some walk over lit pixels leads from `p` to `q`.
pub open spec fn connected(lit: LitSet, eight: bool, p: Pixel, q: Pixel) -> bool {
    exists|walk: Seq<Pixel>| is_walk_between(lit, eight, walk, p, q)
}

/// Every lit pixel is connected to itself.
pub proof fn lemma_connected_refl(lit: LitSet, eight: bool, p: Pixel)
    requires
        lit(p),
    ensures
        connected(lit, eight, p, p),
{
    assert(is_walk_between(lit, eight, seq![p], p, p));
}

/// Lit neighbours are connected.
pub proof fn lemma_connected_step(lit: LitSet, eight: bool, p: Pixel, q: Pixel)
    requires
        lit(p),
        lit(q),
        adjacent(eight, p, q),
    ensures
        connected(lit, eight, p, q),
{
    assert(is_walk_between(lit, eight, seq![p, q], p, q));
}

/// Connectivity is symmetric.
pub proof fn lemma_connected_sym(lit: LitSet, eight: bool, p: Pixel, q: Pixel)
    requires
        connected(lit, eight, p, q),
    ensures
        connected(lit, eight, q, p),
{
    let walk = choose|walk: Seq<Pixel>| is_walk_between(lit, eight, walk, p, q);
    let back = Seq::new(walk.len(), |i: int| walk[walk.len() - 1 - i]);
    assert forall|i: int, j: int| 0 <= i && j == i + 1 && j < back.len() implies adjacent(
        eight,
        #[trigger] back[i],
        #[trigger] back[j],
    ) by {
        assert(adjacent(eight, walk[walk.len() - 1 - j], walk[walk.len() - 1 - i]));
    }
    assert(is_walk_between(lit, eight, back, q, p));
}

/// Connectivity is transitive.
pub proof fn lemma_connected_trans(lit: LitSet, eight: bool, p: Pixel, q: Pixel, s: Pixel)
    requires
        connected(lit, eight, p, q),
        connected(lit, eight, q, s),
    ensures
        connected(lit, eight, p, s),
{
    let a = choose|walk: Seq<Pixel>| is_walk_between(lit, eight, walk, p, q);
    let b = choose|walk: Seq<Pixel>| is_walk_between(lit, eight, walk, q, s);
    let c = a + b;
    assert forall|i: int, j: int| 0 <= i && j == i + 1 && j < c.len() implies adjacent(
        eight,
        #[trigger] c[i],
        #[trigger] c[j],
    ) by {
        if j < a.len() {
            assert(adjacent(eight, a[i], a[j]));
        } else if i >= a.len() {
            assert(adjacent(eight, b[i - a.len()], b[j - a.len()]));
        } else {
            assert(c[i] == q && c[j] == q);
        }
    }
    assert forall|i: int| 0 <= i < c.len() implies lit(#[trigger] c[i]) by {
        if i < a.len() {
            assert(lit(a[i]));
        } else {
            assert(lit(b[i - a.len()]));
        }
    }
    assert(is_walk_between(lit, eight, c, p, s));
}

/// The pixels of a lit stretch of one row are connected.
pub proof fn lemma_connected_in_row(lit: LitSet, eight: bool, row: int, a: int, b: int)
    requires
        a <= b,
        forall|c: int| a <= c <= b ==> #[trigger] lit((row, c)),
    ensures
        connected(lit, eight, (row, a), (row, b)),
    decreases b - a,
{
    if a == b {
        assert(lit((row, a)));
        lemma_connected_refl(lit, eight, (row, a));
    } else {
        lemma_connected_in_row(lit, eight, row, a, b - 1);
        assert(lit((row, b - 1)) && lit((row, b)));
        lemma_connected_step(lit, eight, (row, b - 1), (row, b));
        lemma_connected_trans(lit, eight, (row, a), (row, b - 1), (row, b));
    }
}

/// `class` takes the same value on any two lit neighbours.
pub open spec fn constant_on_neighbours(
    lit: LitSet,
    eight: bool,
    class: spec_fn(Pixel) -> int,
) -> bool {
    forall|p: Pixel, q: Pixel|
        lit(p) && lit(q) && #[trigger] adjacent(eight, p, q) ==> class(p) == class(q)
}

/// What is constant on lit neighbours is constant on connected pixels.
pub proof fn lemma_connected_same_class(
    lit: LitSet,
    eight: bool,
    class: spec_fn(Pixel) -> int,
    p: Pixel,
    q: Pixel,
)
    requires
        constant_on_neighbours(lit, eight, class),
        connected(lit, eight, p, q),
    ensures
        class(p) == class(q),
{
    let walk = choose|walk: Seq<Pixel>| is_walk_between(lit, eight, walk, p, q);
    lemma_walk_same_class(lit, eight, class, walk, walk.len() - 1);
}

proof fn lemma_walk_same_class(
    lit: LitSet,
    eight: bool,
    class: spec_fn(Pixel) -> int,
    walk: Seq<Pixel>,
    n: int,
)
    requires
        constant_on_neighbours(lit, eight, class),
        is_walk(lit, eight, walk),
        0 <= n < walk.len(),
    ensures
        class(walk[0]) == class(walk[n]),
    decreases n,
{
    if n > 0 {
        lemma_walk_same_class(lit, eight, class, walk, n - 1);
        assert(adjacent(eight, walk[n - 1], walk[n]));
    }
}

/// More lit pixels keep what is connected connected.
pub proof fn lemma_connected_grows(
    small: LitSet,
    big: LitSet,
    eight: bool,
    p: Pixel,
    q: Pixel,
)
    requires
        connected(small, eight, p, q),
        forall|x: Pixel| #[trigger] small(x) ==> big(x),
    ensures
        connected(big, eight, p, q),
{
    let walk = choose|walk: Seq<Pixel>| is_walk_between(small, eight, walk, p, q);
    assert forall|i: int| 0 <= i < walk.len() implies big(#[trigger] walk[i]) by {
        assert(small(walk[i]));
    }
    assert(is_walk_between(big, eight, walk, p, q));
}

/// Which pixels touch: with eight neighbours those whose rows and columns differ by
/// at most one, with four those whose rows and columns together differ by at most
/// one.
pub proof fn law_neighbours(p: Pixel, dr: int, dc: int)
    ensures
        adjacent(true, p, (p.0 + dr, p.1 + dc)) <==> dr * dr <= 1 && dc * dc <= 1,
        adjacent(false, p, (p.0 + dr, p.1 + dc)) <==> dr * dr + dc * dc <= 1,
{
    assert(dr * dr <= 1 <==> -1 <= dr <= 1) by (nonlinear_arith);
    assert(dc * dc <= 1 <==> -1 <= dc <= 1) by (nonlinear_arith);
    assert(dr * dr >= 0 && dc * dc >= 0) by (nonlinear_arith);
    assert(dr * dr == 0 <==> dr == 0) by (nonlinear_arith);
    assert(dc * dc == 0 <==> dc == 0) by (nonlinear_arith);
}

} // verus!
