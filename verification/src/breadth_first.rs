//! What holds of a breadth-first search inside a vertex set while it
//! runs, and what follows once its queue is empty.

use crate::graph::GraphModel;
use crate::vertex_set::increasing;
use vstd::prelude::*;

verus! {

/// The member at `j` waits in the queue.
pub open spec fn pending(queue: Seq<usize>, j: int) -> bool {
    exists|t: int| 0 <= t < queue.len() && (#[trigger] queue[t]) == j
}

/// What holds of a breadth-first search in progress. `m` lists the
/// members of the set searched, `seen` holds for each of them whether it
/// was reached and on which side, `queue` the reached members whose
/// neighbours have not been looked at. The member at `cur` is being
/// expanded; its neighbours at `upto` and beyond have not been looked at.
pub open spec fn search_inv(
    g: GraphModel,
    m: Seq<usize>,
    start: int,
    seen: Seq<Option<bool>>,
    queue: Seq<usize>,
    cur: int,
    upto: int,
) -> bool {
    &&& seen.len() == m.len()
    &&& 0 <= start < m.len()
    &&& seen[start] is Some
    &&& forall|q: int| 0 <= q < queue.len() ==> (#[trigger] queue[q]) < m.len() && seen[queue[q] as int] is Some
    &&& forall|j: int|
        0 <= j < m.len() && (#[trigger] seen[j]) is Some ==> g.reachable(
            m.to_set(),
            m[start],
            m[j],
        )
    &&& forall|j: int, k: int|
        #![trigger g.adjacent(m[j], m[k])]
        0 <= j < m.len() && 0 <= k < m.len() && seen[j] is Some && g.adjacent(m[j], m[k])
            ==> seen[k] is Some || pending(queue, j) || (j == cur && k >= upto)
    &&& forall|c: Set<usize>, j: int|
        #![trigger g.two_colored(m.to_set(), c), seen[j]]
        g.two_colored(m.to_set(), c) && 0 <= j < m.len() && seen[j] is Some ==> seen[j] == Some(
            c.contains(m[j]) != c.contains(m[start]),
        )
}

/// The search may begin with the start marked on the near side and
/// alone in the queue.
pub proof fn lemma_search_start(g: GraphModel, m: Seq<usize>, start: usize)
    requires
        start < m.len(),
    ensures
        search_inv(
            g,
            m,
            start as int,
            Seq::new(m.len(), |j: int| None::<bool>).update(start as int, Some(false)),
            seq![start],
            -1,
            0,
        ),
{
    let queue = seq![start];
    assert(m.to_set().contains(m[start as int]));
    g.lemma_reach_refl(m.to_set(), m[start as int]);
    assert(queue[0] == start);
    assert(pending(queue, start as int));
}

/// Taking the head of the queue makes it the member that is expanded.
pub proof fn lemma_search_pop(
    g: GraphModel,
    m: Seq<usize>,
    start: int,
    seen: Seq<Option<bool>>,
    queue: Seq<usize>,
)
    requires
        search_inv(g, m, start, seen, queue, -1, 0),
        queue.len() > 0,
    ensures
        search_inv(g, m, start, seen, queue.subrange(1, queue.len() as int), queue[0] as int, 0),
{
    let rest = queue.subrange(1, queue.len() as int);
    assert forall|q: int| 0 <= q < rest.len() implies (#[trigger] rest[q]) < m.len()
        && seen[rest[q] as int] is Some by {
        assert(rest[q] == queue[q + 1]);
    }
    assert forall|j: int, k: int|
        #![trigger g.adjacent(m[j], m[k])]
        0 <= j < m.len() && 0 <= k < m.len() && seen[j] is Some && g.adjacent(
            m[j],
            m[k],
        ) implies seen[k] is Some || pending(rest, j) || (j == queue[0] as int && k >= 0) by {
        if !(seen[k] is Some) && j != queue[0] as int {
            assert(pending(queue, j));
            let t = choose|t: int| 0 <= t < queue.len() && (#[trigger] queue[t]) == j;
            assert(rest[t - 1] == j);
        }
    }
}

/// A member not seen before that is next to the member being expanded
/// may be marked on the opposite side and put at the end of the queue.
pub proof fn lemma_search_mark(
    g: GraphModel,
    m: Seq<usize>,
    start: int,
    seen: Seq<Option<bool>>,
    queue: Seq<usize>,
    i: int,
    at: usize,
    now: bool,
)
    requires
        search_inv(g, m, start, seen, queue, i, at as int),
        0 <= i < m.len(),
        at < m.len(),
        seen[i] == Some(now),
        seen[at as int] is None,
        g.adjacent(m[i], m[at as int]),
    ensures
        search_inv(g, m, start, seen.update(at as int, Some(!now)), queue.push(at), i, at + 1),
{
    let j = at as int;
    let s = m.to_set();
    let seen2 = seen.update(j, Some(!now));
    let queue2 = queue.push(at);
    assert(s.contains(m[i]) && s.contains(m[j]));
    g.lemma_reach_step(s, m[start], m[i], m[j]);
    assert forall|q: int| 0 <= q < queue2.len() implies (#[trigger] queue2[q]) < m.len()
        && seen2[queue2[q] as int] is Some by {
        if q < queue.len() {
            assert(queue2[q] == queue[q]);
        }
    }
    assert forall|j2: int, k: int|
        #![trigger g.adjacent(m[j2], m[k])]
        0 <= j2 < m.len() && 0 <= k < m.len() && seen2[j2] is Some && g.adjacent(
            m[j2],
            m[k],
        ) implies seen2[k] is Some || pending(queue2, j2) || (j2 == i && k >= j + 1) by {
        if j2 == j {
            assert(queue2[queue.len() as int] == j);
        } else {
            assert(seen[j2] is Some);
            if pending(queue, j2) {
                let t = choose|t: int| 0 <= t < queue.len() && (#[trigger] queue[t]) == j2;
                assert(queue2[t] == j2);
            }
        }
    }
    assert forall|c: Set<usize>, j2: int|
        #![trigger g.two_colored(m.to_set(), c), seen2[j2]]
        g.two_colored(m.to_set(), c) && 0 <= j2 < m.len() && seen2[j2] is Some implies seen2[j2]
        == Some(c.contains(m[j2]) != c.contains(m[start])) by {
        if j2 == j {
            assert(seen[i] == Some(c.contains(m[i]) != c.contains(m[start])));
            assert(c.contains(m[i]) != c.contains(m[j]));
        } else {
            assert(seen[j2] is Some);
        }
    }
}

/// A member that was seen before, or is not next to the member being
/// expanded, may be passed over.
pub proof fn lemma_search_skip(
    g: GraphModel,
    m: Seq<usize>,
    start: int,
    seen: Seq<Option<bool>>,
    queue: Seq<usize>,
    i: int,
    j: int,
)
    requires
        search_inv(g, m, start, seen, queue, i, j),
        0 <= j < m.len(),
        seen[j] is Some || !g.adjacent(m[i], m[j]),
    ensures
        search_inv(g, m, start, seen, queue, i, j + 1),
{
}

/// When all members have been looked at, the expansion is over.
pub proof fn lemma_search_next(
    g: GraphModel,
    m: Seq<usize>,
    start: int,
    seen: Seq<Option<bool>>,
    queue: Seq<usize>,
    i: int,
)
    requires
        search_inv(g, m, start, seen, queue, i, m.len() as int),
    ensures
        search_inv(g, m, start, seen, queue, -1, 0),
{
}

/// Once the queue is empty, what was reached is what can be reached.
pub proof fn lemma_search_done(g: GraphModel, m: Seq<usize>, start: int, seen: Seq<Option<bool>>)
    requires
        search_inv(g, m, start, seen, Seq::<usize>::empty(), -1, 0),
        increasing(m),
    ensures
        forall|j: int|
            0 <= j < m.len() ==> ((#[trigger] seen[j]) is Some <==> g.reachable(
                m.to_set(),
                m[start],
                m[j],
            )),
{
    let s = m.to_set();
    let t = Set::new(|x: usize| exists|j: int| 0 <= j < m.len() && seen[j] is Some && m[j] == x);
    assert(t.contains(m[start]));
    assert forall|a: usize, b: usize|
        #![trigger t.contains(a), s.contains(b)]
        t.contains(a) && s.contains(b) && g.adjacent(a, b) implies t.contains(b) by {
        let j = choose|j: int| 0 <= j < m.len() && seen[j] is Some && m[j] == a;
        assert(m.contains(b));
        let k = choose|k: int| 0 <= k < m.len() && m[k] == b;
        assert(g.adjacent(m[j], m[k]));
        assert(!pending(Seq::<usize>::empty(), j));
        assert(seen[k] is Some);
    }
    assert forall|j: int| 0 <= j < m.len() && g.reachable(s, m[start], m[j]) implies (
    #[trigger] seen[j]) is Some by {
        g.lemma_closed_holds_reachable(s, t, m[start], m[j]);
        let k = choose|k: int| 0 <= k < m.len() && seen[k] is Some && m[k] == m[j];
        if k < j {
            assert(m[k] < m[j]);
        } else if j < k {
            assert(m[j] < m[k]);
        }
    }
}

} // verus!
