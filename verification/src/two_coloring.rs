//! Two-colourings read off disjoint sets over a doubled index space:
//! every vertex has two nodes, one for each colour it may take, and an
//! edge merges each node of one end with the opposite node of the other.

use crate::union_find::DisjointSets;
use vstd::prelude::*;

verus! {

/// The other copy of a node in the doubled index space `0..2n`.
pub open spec fn flip(n: int, a: int) -> int {
    if a < n {
        a + n
    } else {
        a - n
    }
}

/// The colour that the colouring `c` gives the node `a` of the doubled
/// index space: that of the vertex for the first copy, the opposite one
/// for the second.
pub open spec fn hue(c: Set<usize>, n: int, a: int) -> bool {
    if a < n {
        c.contains(a as usize)
    } else {
        !c.contains((a - n) as usize)
    }
}

/// Merging `u` with the second copy of `v`, and the second copy of `u`
/// with `v`, keeps the sets symmetric under `flip`.
pub proof fn lemma_pair_symmetric(d0: DisjointSets, n: int, u: int, v: int, a: int, b: int)
    requires
        d0.valid(),
        d0.len() == 2 * n,
        0 <= u < n,
        0 <= v < n,
        0 <= a < 2 * n,
        0 <= b < 2 * n,
        forall|p: int, q: int|
            0 <= p < 2 * n && 0 <= q < 2 * n ==> (#[trigger] d0.same(p, q) <==> d0.same(
                flip(n, p),
                flip(n, q),
            )),
    ensures
        d0.united(u, v + n).united(u + n, v).same(a, b) <==> d0.united(u, v + n).united(
            u + n,
            v,
        ).same(flip(n, a), flip(n, b)),
{
    let d1 = d0.united(u, v + n);
    d0.lemma_united(u, v + n);
    d1.lemma_united(u + n, v);
    let d2 = d1.united(u + n, v);
    let fa = flip(n, a);
    let fb = flip(n, b);
    assert(d2.same(a, b) <==> d1.same(a, b) || (d1.same(a, u + n) && d1.same(v, b)) || (d1.same(
        a,
        v,
    ) && d1.same(u + n, b)));
    assert(d2.same(fa, fb) <==> d1.same(fa, fb) || (d1.same(fa, u + n) && d1.same(v, fb)) || (
    d1.same(fa, v) && d1.same(u + n, fb)));
    // every pair of the intermediate state, read back in the first one
    assert(d1.same(a, b) <==> d0.same(a, b) || (d0.same(a, u) && d0.same(v + n, b)) || (d0.same(
        a,
        v + n,
    ) && d0.same(u, b)));
    assert(d1.same(fa, fb) <==> d0.same(fa, fb) || (d0.same(fa, u) && d0.same(v + n, fb)) || (
    d0.same(fa, v + n) && d0.same(u, fb)));
    assert(d1.same(a, u + n) <==> d0.same(a, u + n) || (d0.same(a, u) && d0.same(v + n, u + n))
        || (d0.same(a, v + n) && d0.same(u, u + n)));
    assert(d1.same(v, b) <==> d0.same(v, b) || (d0.same(v, u) && d0.same(v + n, b)) || (d0.same(
        v,
        v + n,
    ) && d0.same(u, b)));
    assert(d1.same(a, v) <==> d0.same(a, v) || (d0.same(a, u) && d0.same(v + n, v)) || (d0.same(
        a,
        v + n,
    ) && d0.same(u, v)));
    assert(d1.same(u + n, b) <==> d0.same(u + n, b) || (d0.same(u + n, u) && d0.same(v + n, b))
        || (d0.same(u + n, v + n) && d0.same(u, b)));
    assert(d1.same(fa, u + n) <==> d0.same(fa, u + n) || (d0.same(fa, u) && d0.same(
        v + n,
        u + n,
    )) || (d0.same(fa, v + n) && d0.same(u, u + n)));
    assert(d1.same(v, fb) <==> d0.same(v, fb) || (d0.same(v, u) && d0.same(v + n, fb)) || (
    d0.same(v, v + n) && d0.same(u, fb)));
    assert(d1.same(fa, v) <==> d0.same(fa, v) || (d0.same(fa, u) && d0.same(v + n, v)) || (
    d0.same(fa, v + n) && d0.same(u, v)));
    assert(d1.same(u + n, fb) <==> d0.same(u + n, fb) || (d0.same(u + n, u) && d0.same(
        v + n,
        fb,
    )) || (d0.same(u + n, v + n) && d0.same(u, fb)));
    // the symmetry of the first state, where it is needed
    assert(d0.same(a, b) <==> d0.same(fa, fb));
    assert(d0.same(a, u) <==> d0.same(fa, u + n));
    assert(d0.same(a, v) <==> d0.same(fa, v + n));
    assert(d0.same(a, u + n) <==> d0.same(fa, u));
    assert(d0.same(a, v + n) <==> d0.same(fa, v));
    assert(d0.same(u, b) <==> d0.same(u + n, fb));
    assert(d0.same(v, b) <==> d0.same(v + n, fb));
    assert(d0.same(u + n, b) <==> d0.same(u, fb));
    assert(d0.same(v + n, b) <==> d0.same(v, fb));
    assert(d0.same(u, v) <==> d0.same(u + n, v + n));
    assert(d0.same(u, v + n) <==> d0.same(u + n, v));
    assert(d0.same(v, u) <==> d0.same(v + n, u + n));
    assert(d0.same(v + n, u) <==> d0.same(v, u + n));
    assert(d0.same(u, u + n) <==> d0.same(u + n, u));
    assert(d0.same(v, v + n) <==> d0.same(v + n, v));
}

/// Merging two nodes of one hue keeps every set of one hue.
pub proof fn lemma_pair_hue(d0: DisjointSets, c: Set<usize>, n: int, x: int, y: int, a: int, b: int)
    requires
        d0.valid(),
        d0.len() == 2 * n,
        0 <= x < 2 * n,
        0 <= y < 2 * n,
        0 <= a < 2 * n,
        0 <= b < 2 * n,
        hue(c, n, x) == hue(c, n, y),
        forall|p: int, q: int|
            0 <= p < 2 * n && 0 <= q < 2 * n && #[trigger] d0.same(p, q) ==> hue(c, n, p) == hue(
                c,
                n,
                q,
            ),
        d0.united(x, y).same(a, b),
    ensures
        hue(c, n, a) == hue(c, n, b),
{
    d0.lemma_united(x, y);
    assert(d0.united(x, y).same(a, b) <==> d0.same(a, b) || (d0.same(a, x) && d0.same(y, b)) || (
    d0.same(a, y) && d0.same(x, b)));
    if d0.same(a, x) && d0.same(y, b) {
    }
    if d0.same(a, y) && d0.same(x, b) {
    }
}

} // verus!
