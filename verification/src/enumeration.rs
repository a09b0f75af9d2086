//! The traversal of the solutions as a state machine over mathematical
//! values: what has been found, how far each solution's neighbours have
//! been looked at, and which solutions are still open.

use crate::graph::GraphModel;
use vstd::prelude::*;
use vstd::set_lib::lemma_len_subset;

verus! {

/// The state of a traversal.
pub struct Progress {
    /// The solutions found so far, in the order of their discovery.
    pub found: Seq<Set<usize>>,
    /// For each solution found, how many of its neighbours have been
    /// looked at.
    pub upto: Seq<int>,
    /// For each neighbour looked at, the index of the solution it was
    /// derived from and the index of the solution it is.
    pub links: Seq<(int, int)>,
    /// The indices of the solutions that are being expanded, the
    /// innermost last.
    pub stack: Seq<int>,
}

/// The first place at which `t` stands in `found`, or `-1`.
pub open spec fn lookup(found: Seq<Set<usize>>, t: Set<usize>) -> int
    decreases found.len(),
{
    if found.len() == 0 {
        -1
    } else {
        let before = lookup(found.drop_last(), t);
        if before >= 0 {
            before
        } else if found.last() == t {
            found.len() - 1
        } else {
            -1
        }
    }
}

/// `lookup` finds the first occurrence, and fails only where there is
/// none.
pub proof fn lemma_lookup(found: Seq<Set<usize>>, t: Set<usize>)
    ensures
        -1 <= lookup(found, t) < found.len(),
        lookup(found, t) >= 0 ==> found[lookup(found, t)] == t,
        forall|i: int| 0 <= i < found.len() && found[i] == t ==> 0 <= lookup(found, t) <= i,
    decreases found.len(),
{
    if found.len() > 0 {
        let front = found.drop_last();
        lemma_lookup(front, t);
        assert forall|i: int| 0 <= i < found.len() && found[i] == t implies 0 <= lookup(found, t)
            <= i by {
            if i < front.len() {
                assert(front[i] == t);
            }
        }
    }
}

/// All sets of numbers below `n`.
pub open spec fn universe(n: usize) -> Set<Set<usize>> {
    Set::new(|t: Set<usize>| forall|x: usize| t.contains(x) ==> x < n)
}

/// There are finitely many sets of numbers below `n`.
pub proof fn lemma_universe_finite(n: usize)
    ensures
        universe(n).finite(),
    decreases n,
{
    if n == 0 {
        assert forall|t: Set<usize>| universe(n).contains(t) implies t == Set::<usize>::empty() by {
            assert(t =~= Set::<usize>::empty());
        }
        assert(universe(n) =~= set![Set::<usize>::empty()]);
    } else {
        let m = (n - 1) as usize;
        lemma_universe_finite(m);
        let prev = universe(m);
        let f = |t: Set<usize>| t.insert(m);
        prev.lemma_map_finite(f);
        let both = prev.union(prev.map(f));
        assert forall|t: Set<usize>| universe(n).contains(t) <==> both.contains(t) by {
            if universe(n).contains(t) {
                if t.contains(m) {
                    let t0 = t.remove(m);
                    assert forall|x: usize| t0.contains(x) implies x < m by {
                        assert(t.contains(x));
                    }
                    assert(prev.contains(t0));
                    assert(t0.insert(m) =~= t);
                    assert(f(t0) == t);
                    assert(prev.map(f).contains(t));
                } else {
                    assert forall|x: usize| t.contains(x) implies x < m by {
                        assert(x < n);
                    }
                    assert(prev.contains(t));
                }
            }
            if prev.map(f).contains(t) {
                let t0 = choose|t0: Set<usize>| prev.contains(t0) && t == f(t0);
                assert forall|x: usize| t.contains(x) implies x < n by {
                    if x != m {
                        assert(t0.contains(x));
                    }
                }
            }
            if prev.contains(t) {
                assert forall|x: usize| t.contains(x) implies x < n by {
                    assert(x < m);
                }
            }
        }
        assert(universe(n) =~= both);
    }
}

/// How many sets of numbers below `n` are not in `found`.
pub open spec fn undiscovered(n: usize, found: Seq<Set<usize>>) -> nat {
    universe(n).difference(found.to_set()).len()
}

/// Finding a new set of numbers below `n` leaves one fewer to find.
pub proof fn lemma_undiscovered_push(n: usize, found: Seq<Set<usize>>, t: Set<usize>)
    requires
        universe(n).contains(t),
        !found.contains(t),
    ensures
        undiscovered(n, found.push(t)) + 1 == undiscovered(n, found),
{
    lemma_universe_finite(n);
    let rest = universe(n).difference(found.to_set());
    let rest2 = universe(n).difference(found.push(t).to_set());
    lemma_len_subset(rest, universe(n));
    assert(rest.contains(t));
    assert forall|x: Set<usize>| rest2.contains(x) <==> rest.remove(t).contains(x) by {
        if found.push(t).contains(x) {
            let i = choose|i: int| 0 <= i < found.push(t).len() && found.push(t)[i] == x;
            if i < found.len() {
                assert(found[i] == x);
            }
        }
        if found.contains(x) {
            let i = choose|i: int| 0 <= i < found.len() && found[i] == x;
            assert(found.push(t)[i] == x);
        }
        assert(found.push(t)[found.len() as int] == t);
    }
    assert(rest2 =~= rest.remove(t));
}

impl GraphModel {
    /// How many neighbours of `s` are left when `k` have been looked at.
    pub open spec fn gap(self, s: Set<usize>, k: int) -> int {
        if k < self.neighbors(s).len() {
            self.neighbors(s).len() - k
        } else {
            0
        }
    }

    /// How many neighbours of the first `n` solutions are left to look
    /// at.
    pub open spec fn remaining(self, found: Seq<Set<usize>>, upto: Seq<int>, n: int) -> int
        decreases n,
    {
        if n <= 0 {
            0
        } else {
            self.remaining(found, upto, n - 1) + self.gap(found[n - 1], upto[n - 1])
        }
    }

    /// The state in which only the first solution is known.
    pub open spec fn start(self) -> Progress {
        Progress {
            found: seq![self.closure(Set::empty())],
            upto: seq![0int],
            links: Seq::empty(),
            stack: seq![0int],
        }
    }

    /// One step of the traversal. The innermost open solution is closed
    /// if all its neighbours have been looked at. Otherwise its next
    /// neighbour is looked at: a known one is linked, a new one is
    /// given the next index, linked and opened.
    pub open spec fn advance(self, st: Progress) -> Progress {
        let u = st.stack.last();
        let k = st.upto[u];
        let all = self.neighbors(st.found[u]);
        if k >= all.len() {
            Progress { found: st.found, upto: st.upto, links: st.links, stack: st.stack.drop_last() }
        } else {
            let at = lookup(st.found, all[k]);
            if at >= 0 {
                Progress {
                    found: st.found,
                    upto: st.upto.update(u, k + 1),
                    links: st.links.push((u, at)),
                    stack: st.stack,
                }
            } else {
                Progress {
                    found: st.found.push(all[k]),
                    upto: st.upto.update(u, k + 1).push(0),
                    links: st.links.push((u, st.found.len() as int)),
                    stack: st.stack.push(st.found.len() as int),
                }
            }
        }
    }

    /// The least that a state must satisfy for the traversal to go on:
    /// the solutions lie among the vertices and the indices are in
    /// range.
    pub open spec fn sane(self, st: Progress) -> bool {
        &&& st.upto.len() == st.found.len()
        &&& forall|i: int| 0 <= i < st.found.len() ==> self.within(#[trigger] st.found[i])
        &&& forall|i: int| 0 <= i < st.found.len() ==> 0 <= #[trigger] st.upto[i]
        &&& forall|p: int| 0 <= p < st.stack.len() ==> 0 <= #[trigger] st.stack[p] < st.found.len()
    }

    /// The state in which the traversal from `st` ends.
    pub open spec fn finish(self, st: Progress) -> Progress
        decreases undiscovered(self.order, st.found), self.remaining(
            st.found,
            st.upto,
            st.found.len() as int,
        ) + st.stack.len(),
        when self.sane(st)
        via Self::finish_terminates
    {
        if st.stack.len() == 0 {
            st
        } else {
            self.finish(self.advance(st))
        }
    }

    /// What the traversal finds: the solutions in the order of their
    /// discovery, and the links between them.
    pub open spec fn enumeration(self) -> Progress {
        self.finish(self.start())
    }

    #[via_fn]
    proof fn finish_terminates(self, st: Progress) {
        if st.stack.len() > 0 {
            self.lemma_advance_decreases(st);
        }
    }

    /// Nothing is left to look at below zero, and what is left is never
    /// negative.
    pub proof fn lemma_remaining_nonnegative(self, found: Seq<Set<usize>>, upto: Seq<int>, n: int)
        ensures
            self.remaining(found, upto, n) >= 0,
        decreases n,
    {
        if n > 0 {
            self.lemma_remaining_nonnegative(found, upto, n - 1);
        }
    }

    /// Looking at one more neighbour of the solution at `u` leaves one
    /// fewer to look at.
    pub proof fn lemma_remaining_update(
        self,
        found: Seq<Set<usize>>,
        upto: Seq<int>,
        n: int,
        u: int,
    )
        requires
            0 <= u < found.len(),
            upto.len() == found.len(),
            n <= found.len(),
            upto[u] < self.neighbors(found[u]).len(),
        ensures
            self.remaining(found, upto.update(u, upto[u] + 1), n) == self.remaining(found, upto, n)
                - if u < n {
                1int
            } else {
                0int
            },
        decreases n,
    {
        if n > 0 {
            self.lemma_remaining_update(found, upto, n - 1, u);
        }
    }

    /// The candidate for `v`, what it leaves around `v`, and the
    /// neighbour grown from that all lie among the vertices.
    pub proof fn lemma_neighbor_within(self, s: Set<usize>, v: usize, swap: bool)
        requires
            self.within(s),
            v < self.order,
        ensures
            self.within(self.neighbor(s, v, swap)),
    {
        let cand = self.candidate(s, v, swap);
        self.lemma_component_connected(cand, v);
        self.lemma_closure(self.component(cand, v));
    }

    /// The neighbours of a set of vertices are sets of vertices.
    pub proof fn lemma_neighbors_within(self, s: Set<usize>, k: int)
        requires
            self.within(s),
            0 <= k <= self.order,
        ensures
            forall|j: int|
                0 <= j < self.neighbors_upto(s, k).len() ==> self.within(
                    #[trigger] self.neighbors_upto(s, k)[j],
                ),
        decreases k,
    {
        if k > 0 {
            self.lemma_neighbors_within(s, k - 1);
            if !s.contains((k - 1) as usize) {
                self.lemma_neighbor_within(s, (k - 1) as usize, false);
                self.lemma_neighbor_within(s, (k - 1) as usize, true);
            }
            let prev = self.neighbors_upto(s, k - 1);
            let now = self.neighbors_upto(s, k);
            assert forall|j: int| 0 <= j < now.len() implies self.within(#[trigger] now[j]) by {
                if j < prev.len() {
                    assert(now[j] == prev[j]);
                }
            }
        }
    }

    /// A step keeps the state sane.
    pub proof fn lemma_advance_sane(self, st: Progress)
        requires
            self.sane(st),
            st.stack.len() > 0,
        ensures
            self.sane(self.advance(st)),
    {
        let u = st.stack.last();
        let k = st.upto[u];
        let all = self.neighbors(st.found[u]);
        self.lemma_neighbors_within(st.found[u], self.order as int);
        let st2 = self.advance(st);
        if k < all.len() {
            assert(self.within(all[k]));
        }
        assert forall|p: int| 0 <= p < st2.stack.len() implies 0 <= #[trigger] st2.stack[p]
            < st2.found.len() by {
            if p < st.stack.len() {
                assert(st2.stack[p] == st.stack[p]);
            }
        }
    }

    /// Every step brings the traversal nearer to its end: it finds a new
    /// solution, or else it leaves fewer neighbours to look at or fewer
    /// solutions open.
    pub proof fn lemma_advance_decreases(self, st: Progress)
        requires
            self.sane(st),
            st.stack.len() > 0,
        ensures
            undiscovered(self.order, self.advance(st).found) < undiscovered(self.order, st.found)
                || (undiscovered(self.order, self.advance(st).found) == undiscovered(
                self.order,
                st.found,
            ) && 0 <= self.remaining(
                self.advance(st).found,
                self.advance(st).upto,
                self.advance(st).found.len() as int,
            ) + self.advance(st).stack.len() < self.remaining(
                st.found,
                st.upto,
                st.found.len() as int,
            ) + st.stack.len()),
    {
        let u = st.stack.last();
        let k = st.upto[u];
        let all = self.neighbors(st.found[u]);
        let st2 = self.advance(st);
        self.lemma_remaining_nonnegative(st2.found, st2.upto, st2.found.len() as int);
        if k < all.len() {
            let at = lookup(st.found, all[k]);
            lemma_lookup(st.found, all[k]);
            if at >= 0 {
                self.lemma_remaining_update(st.found, st.upto, st.found.len() as int, u);
            } else {
                self.lemma_neighbors_within(st.found[u], self.order as int);
                assert(self.within(all[k]));
                assert(universe(self.order).contains(all[k]));
                lemma_undiscovered_push(self.order, st.found, all[k]);
            }
        }
    }

    /// The solution at `i` is being expanded.
    pub open spec fn open_at(st: Progress, i: int) -> bool {
        exists|p: int| 0 <= p < st.stack.len() && #[trigger] st.stack[p] == i
    }

    /// The link `l` joins a solution to one of its neighbours that has
    /// been looked at.
    pub open spec fn justified(self, st: Progress, l: (int, int)) -> bool {
        &&& 0 <= l.0 < st.found.len()
        &&& 0 <= l.1 < st.found.len()
        &&& exists|j: int|
            0 <= j < st.upto[l.0] && #[trigger] self.neighbors(st.found[l.0])[j] == st.found[l.1]
    }

    /// Some link leads to the solution at `i` from an earlier one.
    pub open spec fn reached(st: Progress, i: int) -> bool {
        exists|e: int|
            0 <= e < st.links.len() && (#[trigger] st.links[e]).1 == i && st.links[e].0 < i
    }

    /// Every neighbour of every member of `found` is a member of `found`.
    pub open spec fn closed_under_neighbors(self, found: Seq<Set<usize>>) -> bool {
        forall|i: int, j: int|
            0 <= i < found.len() && 0 <= j < self.neighbors(found[i]).len() ==> found.contains(
                #[trigger] self.neighbors(found[i])[j],
            )
    }

    /// What holds of every state that the traversal reaches.
    pub open spec fn orderly(self, st: Progress) -> bool {
        &&& self.sane(st)
        &&& st.found.len() >= 1
        &&& st.found[0] == self.closure(Set::empty())
        &&& forall|i: int| 0 <= i < st.found.len() ==> self.maximal(#[trigger] st.found[i])
        &&& forall|i: int|
            0 <= i < st.found.len() ==> (#[trigger] st.upto[i]) <= self.neighbors(st.found[i]).len()
        &&& forall|i: int, j: int|
            0 <= i < j < st.found.len() ==> #[trigger] st.found[i] != #[trigger] st.found[j]
        &&& forall|p: int, q: int|
            0 <= p < q < st.stack.len() ==> #[trigger] st.stack[p] < #[trigger] st.stack[q]
        &&& forall|i: int|
            0 <= i < st.found.len() ==> Self::open_at(st, i) || (#[trigger] st.upto[i])
                == self.neighbors(st.found[i]).len()
        &&& forall|i: int, j: int|
            0 <= i < st.found.len() && 0 <= j < st.upto[i] ==> st.found.contains(
                #[trigger] self.neighbors(st.found[i])[j],
            )
        &&& forall|e: int| 0 <= e < st.links.len() ==> self.justified(st, #[trigger] st.links[e])
        &&& forall|i: int| 1 <= i < st.found.len() ==> #[trigger] Self::reached(st, i)
    }

    /// The first state is orderly.
    pub proof fn lemma_start_orderly(self)
        ensures
            self.orderly(self.start()),
    {
        let st = self.start();
        self.lemma_first_solution();
        assert(st.stack[0] == 0);
        assert(Self::open_at(st, 0));
    }

    /// A step from an orderly state leads to an orderly state, in a
    /// graph without loops.
    pub proof fn lemma_advance_orderly(self, st: Progress)
        requires
            self.loop_free(),
            self.orderly(st),
            st.stack.len() > 0,
        ensures
            self.orderly(self.advance(st)),
    {
        let u = st.stack.last();
        let k = st.upto[u];
        let all = self.neighbors(st.found[u]);
        let st2 = self.advance(st);
        self.lemma_advance_sane(st);
        assert(st.stack[st.stack.len() - 1] == u);
        assert(self.maximal(st.found[u]));
        self.lemma_neighbors(st.found[u]);
        if k >= all.len() {
            assert forall|i: int| 0 <= i < st2.found.len() implies Self::open_at(st2, i) || (
            #[trigger] st2.upto[i]) == self.neighbors(st2.found[i]).len() by {
                if Self::open_at(st, i) && i != u {
                    let p = choose|p: int| 0 <= p < st.stack.len() && #[trigger] st.stack[p] == i;
                    assert(st2.stack[p] == i);
                }
            }
            assert forall|p: int, q: int| 0 <= p < q < st2.stack.len() implies #[trigger] st2.stack[p]
                < #[trigger] st2.stack[q] by {
                assert(st2.stack[p] == st.stack[p] && st2.stack[q] == st.stack[q]);
            }
            assert forall|e: int| 0 <= e < st2.links.len() implies self.justified(
                st2,
                #[trigger] st2.links[e],
            ) by {
                assert(self.justified(st, st.links[e]));
            }
            assert forall|i: int| 1 <= i < st2.found.len() implies #[trigger] Self::reached(
                st2,
                i,
            ) by {
                assert(Self::reached(st, i));
                let e = choose|e: int|
                    0 <= e < st.links.len() && (#[trigger] st.links[e]).1 == i && st.links[e].0 < i;
                assert(st2.links[e] == st.links[e]);
            }
        } else {
            let t = all[k];
            let at = lookup(st.found, t);
            lemma_lookup(st.found, t);
            assert(self.maximal(t));
            assert(Self::open_at(st, u));
            if at >= 0 {
                assert forall|i: int| 0 <= i < st2.found.len() implies Self::open_at(st2, i) || (
                #[trigger] st2.upto[i]) == self.neighbors(st2.found[i]).len() by {
                    if i != u {
                        assert(st2.upto[i] == st.upto[i]);
                    }
                    if Self::open_at(st, i) {
                        let p = choose|p: int|
                            0 <= p < st.stack.len() && #[trigger] st.stack[p] == i;
                        assert(st2.stack[p] == i);
                    }
                }
                assert forall|i: int, j: int|
                    0 <= i < st2.found.len() && 0 <= j < st2.upto[i] implies st2.found.contains(
                    #[trigger] self.neighbors(st2.found[i])[j],
                ) by {
                    if i == u && j == k {
                        assert(st.found[at] == t);
                    } else {
                        assert(0 <= j < st.upto[i]);
                    }
                }
                assert forall|e: int| 0 <= e < st2.links.len() implies self.justified(
                    st2,
                    #[trigger] st2.links[e],
                ) by {
                    if e < st.links.len() {
                        let l = st.links[e];
                        assert(st2.links[e] == l);
                        assert(self.justified(st, l));
                        let j = choose|j: int|
                            0 <= j < st.upto[l.0] && #[trigger] self.neighbors(st.found[l.0])[j]
                                == st.found[l.1];
                        assert(self.neighbors(st2.found[l.0])[j] == st2.found[l.1]);
                        assert(0 <= j < st2.upto[l.0]);
                    } else {
                        assert(st2.links[e] == (u, at));
                        assert(self.neighbors(st2.found[u])[k] == st2.found[at]);
                    }
                }
                assert forall|i: int| 1 <= i < st2.found.len() implies #[trigger] Self::reached(
                    st2,
                    i,
                ) by {
                    assert(Self::reached(st, i));
                    let e = choose|e: int|
                        0 <= e < st.links.len() && (#[trigger] st.links[e]).1 == i && st.links[e].0
                            < i;
                    assert(st2.links[e] == st.links[e]);
                }
            } else {
                let v = st.found.len() as int;
                assert forall|i: int| 0 <= i < st.found.len() implies st.found[i] != t by {
                    if st.found[i] == t {
                        assert(0 <= lookup(st.found, t));
                    }
                }
                assert forall|i: int| 0 <= i < st2.found.len() implies self.maximal(
                    #[trigger] st2.found[i],
                ) by {
                    if i < v {
                        assert(st2.found[i] == st.found[i]);
                    }
                }
                assert forall|i: int| 0 <= i < st2.found.len() implies (#[trigger] st2.upto[i])
                    <= self.neighbors(st2.found[i]).len() by {
                    if i < v {
                        assert(st2.found[i] == st.found[i]);
                        if i != u {
                            assert(st2.upto[i] == st.upto[i]);
                        }
                    }
                }
                assert forall|i: int, j: int| 0 <= i < j < st2.found.len() implies #[trigger] st2.found[i]
                    != #[trigger] st2.found[j] by {
                    assert(st2.found[i] == st.found[i]);
                    if j < v {
                        assert(st2.found[j] == st.found[j]);
                    }
                }
                assert forall|p: int, q: int| 0 <= p < q < st2.stack.len() implies #[trigger] st2.stack[p]
                    < #[trigger] st2.stack[q] by {
                    assert(st2.stack[p] == st.stack[p]);
                    if q < st.stack.len() {
                        assert(st2.stack[q] == st.stack[q]);
                    }
                }
                assert forall|i: int| 0 <= i < st2.found.len() implies Self::open_at(st2, i) || (
                #[trigger] st2.upto[i]) == self.neighbors(st2.found[i]).len() by {
                    if i == v {
                        assert(st2.stack[st.stack.len() as int] == v);
                    } else if Self::open_at(st, i) {
                        let p = choose|p: int|
                            0 <= p < st.stack.len() && #[trigger] st.stack[p] == i;
                        assert(st2.stack[p] == i);
                    } else {
                        assert(st2.found[i] == st.found[i]);
                        assert(st2.upto[i] == st.upto[i]);
                    }
                }
                assert forall|i: int, j: int|
                    0 <= i < st2.found.len() && 0 <= j < st2.upto[i] implies st2.found.contains(
                    #[trigger] self.neighbors(st2.found[i])[j],
                ) by {
                    assert(i < v);
                    assert(st2.found[i] == st.found[i]);
                    if i == u && j == k {
                        assert(st2.found[v] == t);
                    } else {
                        assert(0 <= j < st.upto[i]);
                        let x = self.neighbors(st.found[i])[j];
                        assert(st.found.contains(x));
                        let w = choose|w: int| 0 <= w < st.found.len() && st.found[w] == x;
                        assert(st2.found[w] == x);
                    }
                }
                assert forall|e: int| 0 <= e < st2.links.len() implies self.justified(
                    st2,
                    #[trigger] st2.links[e],
                ) by {
                    if e < st.links.len() {
                        let l = st.links[e];
                        assert(st2.links[e] == l);
                        assert(self.justified(st, l));
                        let j = choose|j: int|
                            0 <= j < st.upto[l.0] && #[trigger] self.neighbors(st.found[l.0])[j]
                                == st.found[l.1];
                        assert(st2.found[l.0] == st.found[l.0]);
                        assert(st2.found[l.1] == st.found[l.1]);
                        assert(self.neighbors(st2.found[l.0])[j] == st2.found[l.1]);
                        assert(0 <= j < st2.upto[l.0]);
                    } else {
                        assert(st2.links[e] == (u, v));
                        assert(st2.found[u] == st.found[u]);
                        assert(self.neighbors(st2.found[u])[k] == st2.found[v]);
                        assert(st2.upto[u] == k + 1);
                    }
                }
                assert forall|i: int| 1 <= i < st2.found.len() implies #[trigger] Self::reached(
                    st2,
                    i,
                ) by {
                    if i < v {
                        assert(Self::reached(st, i));
                        let e = choose|e: int|
                            0 <= e < st.links.len() && (#[trigger] st.links[e]).1 == i
                                && st.links[e].0 < i;
                        assert(st2.links[e] == st.links[e]);
                    } else {
                        assert(st2.links[st.links.len() as int] == (u, v));
                    }
                }
                assert(st2.found[0] == st.found[0]);
            }
        }
    }

    /// The traversal from an orderly state ends in an orderly state in
    /// which no solution is open, in a graph without loops.
    pub proof fn lemma_finish_orderly(self, st: Progress)
        requires
            self.loop_free(),
            self.orderly(st),
        ensures
            self.orderly(self.finish(st)),
            self.finish(st).stack.len() == 0,
        decreases undiscovered(self.order, st.found), self.remaining(
            st.found,
            st.upto,
            st.found.len() as int,
        ) + st.stack.len(),
    {
        if st.stack.len() > 0 {
            self.lemma_advance_decreases(st);
            self.lemma_advance_orderly(st);
            self.lemma_finish_orderly(self.advance(st));
        }
    }

    /// What the traversal finds, in a graph without loops: it starts
    /// from the closure of the empty set; no solution is found twice;
    /// all that is found is maximal; every neighbour of what is found is
    /// found; every link joins a solution to one of its neighbours; and
    /// every solution but the first is linked to an earlier one.
    pub proof fn lemma_enumeration(self)
        requires
            self.loop_free(),
        ensures
            self.enumeration().stack.len() == 0,
            self.orderly(self.enumeration()),
            self.enumeration().found[0] == self.closure(Set::empty()),
            self.enumeration().found.no_duplicates(),
            forall|i: int|
                0 <= i < self.enumeration().found.len() ==> self.maximal(
                    #[trigger] self.enumeration().found[i],
                ),
            self.closed_under_neighbors(self.enumeration().found),
    {
        self.lemma_start_orderly();
        self.lemma_finish_orderly(self.start());
        let r = self.enumeration();
        assert forall|i: int, j: int|
            0 <= i < r.found.len() && 0 <= j < self.neighbors(r.found[i]).len() implies r.found.contains(
            #[trigger] self.neighbors(r.found[i])[j],
        ) by {
            assert(!Self::open_at(r, i));
            assert(r.upto[i] == self.neighbors(r.found[i]).len());
        }
        assert forall|i: int, j: int|
            0 <= i < r.found.len() && 0 <= j < r.found.len() && i != j implies r.found[i]
            != r.found[j] by {
            if i < j {
                assert(r.found[i] != r.found[j]);
            } else {
                assert(r.found[j] != r.found[i]);
            }
        }
    }
}

} // verus!
