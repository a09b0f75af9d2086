//! Undirected graphs on the vertices `0..order`, and the notions the
//! enumeration is stated in: paths inside a vertex set, connectedness,
//! two-colourings, maximality and the greedy closure.

use std::collections::HashSet;
use vstd::prelude::*;

verus! {

/// The mathematical graph: a vertex count and a set of pairs. A pair
/// joins its two ends whichever way round it is stored.
pub struct GraphModel {
    pub order: usize,
    pub edges: Set<(usize, usize)>,
}

impl GraphModel {
    /// `u` and `v` are joined by an edge.
    pub open spec fn adjacent(self, u: usize, v: usize) -> bool {
        self.edges.contains((u, v)) || self.edges.contains((v, u))
    }

    /// No vertex is joined to itself.
    pub open spec fn loop_free(self) -> bool {
        forall|u: usize| u < self.order ==> !(#[trigger] self.adjacent(u, u))
    }

    /// Every member of `s` is a vertex of the graph.
    pub open spec fn within(self, s: Set<usize>) -> bool {
        forall|v: usize| s.contains(v) ==> v < self.order
    }

    /// `p` is a walk whose vertices all lie in `s`.
    pub open spec fn is_path(self, s: Set<usize>, p: Seq<usize>) -> bool {
        &&& p.len() > 0
        &&& forall|i: int| 0 <= i < p.len() ==> s.contains(#[trigger] p[i])
        &&& forall|i: int, j: int|
            #![trigger p[i], p[j]]
            0 <= i && j == i + 1 && j < p.len() ==> self.adjacent(p[i], p[j])
    }

    /// `p` is a walk inside `s` from `u` to `v`.
    pub open spec fn joins(self, s: Set<usize>, p: Seq<usize>, u: usize, v: usize) -> bool {
        self.is_path(s, p) && p[0] == u && p[p.len() - 1] == v
    }

    /// `v` can be reached from `u` without leaving `s`.
    pub open spec fn reachable(self, s: Set<usize>, u: usize, v: usize) -> bool {
        exists|p: Seq<usize>| #[trigger] self.joins(s, p, u, v)
    }

    /// The members of `s` that can be reached from `v` inside `s`.
    pub open spec fn component(self, s: Set<usize>, v: usize) -> Set<usize> {
        Set::new(|u: usize| self.reachable(s, v, u))
    }

    /// The subgraph induced by `s` is connected. The empty set is.
    pub open spec fn connected(self, s: Set<usize>) -> bool {
        forall|u: usize, v: usize|
            s.contains(u) && s.contains(v) ==> #[trigger] self.reachable(s, u, v)
    }

    /// The members of `c` against the rest is a proper two-colouring of
    /// the subgraph induced by `s`.
    pub open spec fn two_colored(self, s: Set<usize>, c: Set<usize>) -> bool {
        forall|u: usize, v: usize|
            #![trigger s.contains(u), s.contains(v)]
            s.contains(u) && s.contains(v) && self.adjacent(u, v) ==> (c.contains(u)
                != c.contains(v))
    }

    /// The subgraph induced by `s` has a proper two-colouring.
    pub open spec fn bipartite(self, s: Set<usize>) -> bool {
        exists|c: Set<usize>| #[trigger] self.two_colored(s, c)
    }

    /// `s` is a set of vertices that induces a connected bipartite
    /// subgraph.
    pub open spec fn admissible(self, s: Set<usize>) -> bool {
        self.within(s) && self.connected(s) && self.bipartite(s)
    }

    /// `v` is a vertex outside `s`, and `s` with `v` still induces a
    /// connected bipartite subgraph.
    pub open spec fn extends(self, s: Set<usize>, v: usize) -> bool {
        &&& v < self.order
        &&& !s.contains(v)
        &&& self.connected(s.insert(v))
        &&& self.bipartite(s.insert(v))
    }

    /// No single vertex can be added to `s`.
    pub open spec fn saturated(self, s: Set<usize>) -> bool {
        forall|v: usize| !self.extends(s, v)
    }

    /// `s` is admissible and no single vertex can be added to it.
    pub open spec fn maximal(self, s: Set<usize>) -> bool {
        self.admissible(s) && self.saturated(s)
    }

    /// The least member of `s`.
    pub open spec fn least(self, s: Set<usize>) -> usize {
        choose|m: usize| s.contains(m) && forall|x: usize| s.contains(x) ==> m <= x
    }

    /// Some proper two-colouring of the subgraph induced by `s`.
    pub open spec fn coloring(self, s: Set<usize>) -> Set<usize> {
        choose|c: Set<usize>| self.two_colored(s, c)
    }

    /// One side of the two-colouring of `s`: with `far` unset the members
    /// coloured like the least member, with `far` set the others.
    pub open spec fn side(self, s: Set<usize>, far: bool) -> Set<usize> {
        Set::new(
            |u: usize|
                s.contains(u) && ((self.coloring(s).contains(u) != self.coloring(s).contains(
                    self.least(s),
                )) == far),
        )
    }

    /// The least vertex `v >= from` that extends `s`, if there is one.
    pub open spec fn first_extension(self, s: Set<usize>, from: int) -> Option<usize>
        decreases self.order - from,
    {
        if from < 0 || from >= self.order {
            None
        } else if self.extends(s, from as usize) {
            Some(from as usize)
        } else {
            self.first_extension(s, from + 1)
        }
    }

    /// How many of the vertices `0..k` are not in `s`.
    pub open spec fn missing(self, s: Set<usize>, k: int) -> nat
        decreases k,
    {
        if k <= 0 {
            0
        } else {
            self.missing(s, k - 1) + if s.contains((k - 1) as usize) {
                0nat
            } else {
                1nat
            }
        }
    }

    /// The greedy closure of `s`: as long as some vertex extends the set,
    /// the least such vertex is added.
    pub open spec fn closure(self, s: Set<usize>) -> Set<usize>
        decreases self.missing(s, self.order as int),
        via Self::closure_terminates
    {
        match self.first_extension(s, 0) {
            Some(v) => self.closure(s.insert(v)),
            None => s,
        }
    }

    /// The set from which a neighbour of the solution `s` is grown: the
    /// vertex `v` is forced in, one side of `s` is kept whole, and the
    /// other side loses the vertices next to `v`. With `swap` unset the
    /// side of the least member is the one kept.
    pub open spec fn candidate(self, s: Set<usize>, v: usize, swap: bool) -> Set<usize> {
        self.side(s, swap).union(self.side(s, !swap).filter(|u: usize| !self.adjacent(u, v))).insert(
            v,
        )
    }

    /// The neighbour of `s` that `v` gives: what the candidate leaves
    /// around `v`, closed.
    pub open spec fn neighbor(self, s: Set<usize>, v: usize, swap: bool) -> Set<usize> {
        self.closure(self.component(self.candidate(s, v, swap), v))
    }

    /// The neighbours of `s` that the vertices below `k` give: two for
    /// each vertex outside `s`, in the order of the vertices.
    pub open spec fn neighbors_upto(self, s: Set<usize>, k: int) -> Seq<Set<usize>>
        decreases k,
    {
        if k <= 0 {
            Seq::empty()
        } else if s.contains((k - 1) as usize) {
            self.neighbors_upto(s, k - 1)
        } else {
            self.neighbors_upto(s, k - 1).push(self.neighbor(s, (k - 1) as usize, false)).push(
                self.neighbor(s, (k - 1) as usize, true),
            )
        }
    }

    /// All neighbours of `s`.
    pub open spec fn neighbors(self, s: Set<usize>) -> Seq<Set<usize>> {
        self.neighbors_upto(s, self.order as int)
    }

    #[via_fn]
    proof fn closure_terminates(self, s: Set<usize>) {
        match self.first_extension(s, 0) {
            Some(v) => {
                self.lemma_first_extension(s, 0);
                self.lemma_missing_insert(s, v, self.order as int);
            },
            None => {},
        }
    }

    /// What `first_extension` finds is the least extending vertex from
    /// `from` on; it finds none only where there is none.
    pub proof fn lemma_first_extension(self, s: Set<usize>, from: int)
        requires
            0 <= from,
        ensures
            match self.first_extension(s, from) {
                Some(v) => from <= v && self.extends(s, v) && forall|w: usize|
                    from <= w < v ==> !self.extends(s, w),
                None => forall|w: usize| from <= w ==> !self.extends(s, w),
            },
        decreases self.order - from,
    {
        if from < self.order && !self.extends(s, from as usize) {
            self.lemma_first_extension(s, from + 1);
        }
    }

    /// Adding a vertex below `k` that was missing leaves one fewer
    /// missing.
    pub proof fn lemma_missing_insert(self, s: Set<usize>, v: usize, k: int)
        requires
            !s.contains(v),
            v < k <= usize::MAX + 1,
        ensures
            self.missing(s.insert(v), k) + 1 == self.missing(s, k),
        decreases k,
    {
        if k - 1 == v {
            self.lemma_missing_above(s, v, k - 1);
        } else {
            self.lemma_missing_insert(s, v, k - 1);
        }
    }

    proof fn lemma_missing_above(self, s: Set<usize>, v: usize, k: int)
        requires
            k <= v,
        ensures
            self.missing(s.insert(v), k) == self.missing(s, k),
        decreases k,
    {
        if k > 0 {
            self.lemma_missing_above(s, v, k - 1);
        }
    }

    /// A member of `s` reaches itself.
    pub proof fn lemma_reach_refl(self, s: Set<usize>, v: usize)
        requires
            s.contains(v),
        ensures
            self.reachable(s, v, v),
    {
        assert(self.joins(s, seq![v], v, v));
    }

    /// Both ends of a walk inside `s` are members of `s`.
    pub proof fn lemma_reach_ends(self, s: Set<usize>, u: usize, v: usize)
        requires
            self.reachable(s, u, v),
        ensures
            s.contains(u),
            s.contains(v),
    {
        let p = choose|p: Seq<usize>| self.joins(s, p, u, v);
        assert(s.contains(p[0]));
        assert(s.contains(p[p.len() - 1]));
    }

    /// A walk can be prolonged by one edge to a member of `s`.
    pub proof fn lemma_reach_step(self, s: Set<usize>, u: usize, v: usize, w: usize)
        requires
            self.reachable(s, u, v),
            s.contains(w),
            self.adjacent(v, w),
        ensures
            self.reachable(s, u, w),
    {
        let p = choose|p: Seq<usize>| self.joins(s, p, u, v);
        let q = p.push(w);
        assert forall|i: int, j: int|
            #![trigger q[i], q[j]]
            0 <= i && j == i + 1 && j < q.len() implies self.adjacent(q[i], q[j]) by {
            if j < p.len() {
                assert(self.adjacent(p[i], p[j]));
            }
        }
        assert(self.joins(s, q, u, w));
    }

    /// Reachability inside `s` is symmetric.
    pub proof fn lemma_reach_sym(self, s: Set<usize>, u: usize, v: usize)
        requires
            self.reachable(s, u, v),
        ensures
            self.reachable(s, v, u),
    {
        let p = choose|p: Seq<usize>| self.joins(s, p, u, v);
        let n = p.len() as int;
        let q = Seq::new(p.len(), |i: int| p[n - 1 - i]);
        assert forall|i: int, j: int|
            #![trigger q[i], q[j]]
            0 <= i && j == i + 1 && j < q.len() implies self.adjacent(q[i], q[j]) by {
            assert(self.adjacent(p[n - 1 - j], p[n - 1 - i]));
        }
        assert(self.joins(s, q, v, u));
    }

    /// Reachability inside `s` is transitive.
    pub proof fn lemma_reach_trans(self, s: Set<usize>, u: usize, v: usize, w: usize)
        requires
            self.reachable(s, u, v),
            self.reachable(s, v, w),
        ensures
            self.reachable(s, u, w),
    {
        let p = choose|p: Seq<usize>| self.joins(s, p, u, v);
        let r = choose|r: Seq<usize>| self.joins(s, r, v, w);
        let n = p.len() as int;
        let q = Seq::new((p.len() + r.len() - 1) as nat, |i: int| if i < n { p[i] } else { r[i - n + 1] });
        assert forall|i: int| 0 <= i < q.len() implies s.contains(#[trigger] q[i]) by {
            if i < n {
                assert(s.contains(p[i]));
            } else {
                assert(s.contains(r[i - n + 1]));
            }
        }
        assert forall|i: int, j: int|
            #![trigger q[i], q[j]]
            0 <= i && j == i + 1 && j < q.len() implies self.adjacent(q[i], q[j]) by {
            if j < n {
                assert(self.adjacent(p[i], p[j]));
            } else {
                assert(self.adjacent(r[i - n + 1], r[j - n + 1]));
            }
        }
        assert(self.joins(s, q, u, w));
    }

    /// A walk that starts in `t` stays in `t` while `t` holds every
    /// member of `s` next to one of its own members.
    proof fn lemma_path_stays(self, s: Set<usize>, t: Set<usize>, p: Seq<usize>, k: int)
        requires
            self.is_path(s, p),
            t.contains(p[0]),
            forall|a: usize, b: usize|
                #![trigger t.contains(a), s.contains(b)]
                t.contains(a) && s.contains(b) && self.adjacent(a, b) ==> t.contains(b),
            0 <= k < p.len(),
        ensures
            t.contains(p[k]),
        decreases k,
    {
        if k > 0 {
            self.lemma_path_stays(s, t, p, k - 1);
            assert(self.adjacent(p[k - 1], p[k]));
            assert(s.contains(p[k]));
        }
    }

    /// A set that holds `u` and every member of `s` next to one of its
    /// own members holds all that `u` reaches inside `s`.
    pub proof fn lemma_closed_holds_reachable(
        self,
        s: Set<usize>,
        t: Set<usize>,
        u: usize,
        v: usize,
    )
        requires
            t.contains(u),
            forall|a: usize, b: usize|
                #![trigger t.contains(a), s.contains(b)]
                t.contains(a) && s.contains(b) && self.adjacent(a, b) ==> t.contains(b),
            self.reachable(s, u, v),
        ensures
            t.contains(v),
    {
        let p = choose|p: Seq<usize>| self.joins(s, p, u, v);
        self.lemma_path_stays(s, t, p, p.len() - 1);
    }

    /// What `v` reaches inside `s`, it reaches inside its own component.
    pub proof fn lemma_reach_in_component(self, s: Set<usize>, v: usize, u: usize)
        requires
            self.reachable(s, v, u),
        ensures
            self.reachable(self.component(s, v), v, u),
    {
        let t = self.component(s, v);
        let p = choose|p: Seq<usize>| self.joins(s, p, v, u);
        assert forall|i: int| 0 <= i < p.len() implies t.contains(#[trigger] p[i]) by {
            let q = p.subrange(0, i + 1);
            assert forall|a: int, b: int|
                #![trigger q[a], q[b]]
                0 <= a && b == a + 1 && b < q.len() implies self.adjacent(q[a], q[b]) by {
                assert(self.adjacent(p[a], p[b]));
            }
            assert forall|a: int| 0 <= a < q.len() implies s.contains(#[trigger] q[a]) by {
                assert(s.contains(p[a]));
            }
            assert(self.joins(s, q, v, p[i]));
        }
        assert(self.joins(t, p, v, u));
    }

    /// The component of a vertex is a connected part of `s`.
    pub proof fn lemma_component_connected(self, s: Set<usize>, v: usize)
        ensures
            self.component(s, v).subset_of(s),
            self.connected(self.component(s, v)),
            s.contains(v) ==> self.component(s, v).contains(v),
    {
        let t = self.component(s, v);
        assert forall|u: usize| t.contains(u) implies s.contains(u) by {
            self.lemma_reach_ends(s, v, u);
        }
        assert forall|a: usize, b: usize| t.contains(a) && t.contains(b) implies #[trigger] self.reachable(
            t,
            a,
            b,
        ) by {
            self.lemma_reach_in_component(s, v, a);
            self.lemma_reach_in_component(s, v, b);
            self.lemma_reach_sym(t, v, a);
            self.lemma_reach_trans(t, a, v, b);
        }
        if s.contains(v) {
            self.lemma_reach_refl(s, v);
        }
    }

    /// A set is connected exactly when the component of any one of its
    /// members is the whole set.
    pub proof fn lemma_connected_iff_component(self, s: Set<usize>, v: usize)
        requires
            s.contains(v),
        ensures
            self.connected(s) <==> self.component(s, v) == s,
    {
        let t = self.component(s, v);
        self.lemma_component_connected(s, v);
        if self.connected(s) {
            assert forall|u: usize| s.contains(u) implies t.contains(u) by {
                assert(self.reachable(s, v, u));
            }
            assert(t =~= s);
        }
        if t == s {
        }
    }

    /// A proper two-colouring of a set is one of each of its subsets.
    pub proof fn lemma_bipartite_subset(self, s: Set<usize>, t: Set<usize>)
        requires
            self.bipartite(s),
            t.subset_of(s),
        ensures
            self.bipartite(t),
    {
        let c = choose|c: Set<usize>| self.two_colored(s, c);
        assert(self.two_colored(t, c));
    }

    /// The closure holds its seed and stays among the vertices of the
    /// graph; nothing can be added to it; and it is admissible where the
    /// seed is.
    pub proof fn lemma_closure(self, s: Set<usize>)
        ensures
            s.subset_of(self.closure(s)),
            self.within(s) ==> self.within(self.closure(s)),
            self.saturated(self.closure(s)),
            self.admissible(s) ==> self.maximal(self.closure(s)),
        decreases self.missing(s, self.order as int),
    {
        self.lemma_first_extension(s, 0);
        match self.first_extension(s, 0) {
            Some(v) => {
                self.lemma_missing_insert(s, v, self.order as int);
                self.lemma_closure(s.insert(v));
            },
            None => {},
        }
    }

    /// A set with a member has a least member.
    pub proof fn lemma_least(self, s: Set<usize>, x: usize)
        requires
            s.contains(x),
        ensures
            s.contains(self.least(s)),
            forall|y: usize| s.contains(y) ==> self.least(s) <= y,
        decreases x,
    {
        if exists|y: usize| s.contains(y) && y < x {
            let y = choose|y: usize| s.contains(y) && y < x;
            self.lemma_least(s, y);
        } else {
            assert(s.contains(x) && forall|y: usize| s.contains(y) ==> x <= y);
        }
    }

    /// The two sides of a bipartite set part it, no edge joins two
    /// members of one side, and the least member lies on the near side.
    pub proof fn lemma_sides(self, s: Set<usize>)
        requires
            self.bipartite(s),
        ensures
            self.side(s, false).union(self.side(s, true)) == s,
            self.side(s, false).disjoint(self.side(s, true)),
            self.two_colored(s, self.side(s, true)),
            forall|x: usize| s.contains(x) ==> self.side(s, false).contains(self.least(s)),
    {
        let c0 = self.coloring(s);
        assert(self.two_colored(s, c0));
        assert(self.side(s, false).union(self.side(s, true)) =~= s);
        assert forall|u: usize, v: usize|
            #![trigger s.contains(u), s.contains(v)]
            s.contains(u) && s.contains(v) && self.adjacent(u, v) implies (self.side(
            s,
            true,
        ).contains(u) != self.side(s, true).contains(v)) by {
            assert(c0.contains(u) != c0.contains(v));
        }
        assert forall|x: usize| s.contains(x) implies self.side(s, false).contains(
            self.least(s),
        ) by {
            self.lemma_least(s, x);
        }
    }

    /// Along a walk inside `s`, two proper two-colourings change colour
    /// at the same steps.
    proof fn lemma_parity(self, s: Set<usize>, c: Set<usize>, d: Set<usize>, p: Seq<usize>, k: int)
        requires
            self.is_path(s, p),
            self.two_colored(s, c),
            self.two_colored(s, d),
            0 <= k < p.len(),
        ensures
            (c.contains(p[k]) != c.contains(p[0])) == (d.contains(p[k]) != d.contains(p[0])),
        decreases k,
    {
        if k > 0 {
            self.lemma_parity(s, c, d, p, k - 1);
            assert(self.adjacent(p[k - 1], p[k]));
            assert(s.contains(p[k - 1]) && s.contains(p[k]));
        }
    }

    /// The sides of a connected bipartite set do not depend on the
    /// two-colouring they are read from.
    pub proof fn lemma_sides_unique(self, s: Set<usize>, c: Set<usize>, far: bool)
        requires
            self.connected(s),
            self.two_colored(s, c),
        ensures
            self.side(s, far) == Set::new(
                |u: usize| s.contains(u) && ((c.contains(u) != c.contains(self.least(s))) == far),
            ),
    {
        let c0 = self.coloring(s);
        let l = self.least(s);
        let other = Set::new(
            |u: usize| s.contains(u) && ((c.contains(u) != c.contains(l)) == far),
        );
        assert forall|u: usize| self.side(s, far).contains(u) <==> other.contains(u) by {
            if s.contains(u) {
                self.lemma_least(s, u);
                assert(self.reachable(s, l, u));
                let p = choose|p: Seq<usize>| self.joins(s, p, l, u);
                self.lemma_parity(s, c, c0, p, p.len() - 1);
            }
        }
        assert(self.side(s, far) =~= other);
    }

    /// Closing a closure changes nothing.
    pub proof fn lemma_closure_idempotent(self, s: Set<usize>)
        ensures
            self.closure(self.closure(s)) == self.closure(s),
    {
        self.lemma_closure(s);
        self.lemma_closure_fixed(self.closure(s));
    }

    /// The empty set is admissible, so its closure is a solution.
    pub proof fn lemma_first_solution(self)
        ensures
            self.maximal(self.closure(Set::empty())),
    {
        let e = Set::<usize>::empty();
        assert(self.two_colored(e, e));
        self.lemma_closure(e);
    }

    /// The candidate for `v` lies among the vertices and has a proper
    /// two-colouring, in a graph without loops.
    pub proof fn lemma_candidate(self, s: Set<usize>, v: usize, swap: bool)
        requires
            self.loop_free(),
            self.within(s),
            self.bipartite(s),
            v < self.order,
            !s.contains(v),
        ensures
            self.within(self.candidate(s, v, swap)),
            self.bipartite(self.candidate(s, v, swap)),
            self.candidate(s, v, swap).contains(v),
    {
        let cand = self.candidate(s, v, swap);
        let c0 = self.coloring(s);
        let l = self.least(s);
        assert(self.two_colored(s, c0));
        let c = Set::new(
            |u: usize|
                if u == v {
                    c0.contains(l) == swap
                } else {
                    c0.contains(u)
                },
        );
        assert forall|x: usize, y: usize|
            #![trigger cand.contains(x), cand.contains(y)]
            cand.contains(x) && cand.contains(y) && self.adjacent(x, y) implies (c.contains(x)
            != c.contains(y)) by {
            if x != v && y != v {
                assert(s.contains(x) && s.contains(y));
            } else if x == v && y != v {
                assert(self.adjacent(y, v));
                assert(self.side(s, swap).contains(y));
            } else if x != v && y == v {
                assert(self.side(s, swap).contains(x));
            } else {
                assert(self.adjacent(v, v));
            }
        }
        assert(self.two_colored(cand, c));
    }

    /// Every neighbour of a solution is a solution, in a graph without
    /// loops.
    pub proof fn lemma_neighbor_maximal(self, s: Set<usize>, v: usize, swap: bool)
        requires
            self.loop_free(),
            self.within(s),
            self.bipartite(s),
            v < self.order,
            !s.contains(v),
        ensures
            self.maximal(self.neighbor(s, v, swap)),
            self.neighbor(s, v, swap).contains(v),
    {
        let cand = self.candidate(s, v, swap);
        let part = self.component(cand, v);
        self.lemma_candidate(s, v, swap);
        self.lemma_component_connected(cand, v);
        self.lemma_bipartite_subset(cand, part);
        self.lemma_closure(part);
    }

    /// The neighbours of `s`: there are two for each vertex outside `s`,
    /// and each is a solution, in a graph without loops.
    pub proof fn lemma_neighbors_upto(self, s: Set<usize>, k: int)
        requires
            self.loop_free(),
            self.within(s),
            self.bipartite(s),
            0 <= k <= self.order,
        ensures
            self.neighbors_upto(s, k).len() == 2 * self.missing(s, k),
            forall|j: int|
                0 <= j < self.neighbors_upto(s, k).len() ==> self.maximal(
                    #[trigger] self.neighbors_upto(s, k)[j],
                ),
        decreases k,
    {
        if k > 0 {
            self.lemma_neighbors_upto(s, k - 1);
            if !s.contains((k - 1) as usize) {
                self.lemma_neighbor_maximal(s, (k - 1) as usize, false);
                self.lemma_neighbor_maximal(s, (k - 1) as usize, true);
            }
        }
    }

    /// The neighbours of a solution are solutions, two for each vertex
    /// outside it, in a graph without loops.
    pub proof fn lemma_neighbors(self, s: Set<usize>)
        requires
            self.loop_free(),
            self.within(s),
            self.bipartite(s),
        ensures
            self.neighbors(s).len() == 2 * self.missing(s, self.order as int),
            forall|j: int|
                0 <= j < self.neighbors(s).len() ==> self.maximal(#[trigger] self.neighbors(s)[j]),
    {
        self.lemma_neighbors_upto(s, self.order as int);
    }

    /// The closure of a set to which nothing can be added is the set
    /// itself.
    pub proof fn lemma_closure_fixed(self, s: Set<usize>)
        requires
            self.saturated(s),
        ensures
            self.closure(s) == s,
    {
        self.lemma_first_extension(s, 0);
    }
}

/// The number that stands for the ordered pair `(u, v)` in the stored
/// edge set.
pub open spec fn pair_code(u: usize, v: usize) -> u128 {
    (u * 0x1_0000_0000_0000_0000 + v) as u128
}

/// Distinct pairs have distinct codes.
pub proof fn lemma_pair_code_injective(u: usize, v: usize, x: usize, y: usize)
    requires
        pair_code(u, v) == pair_code(x, y),
    ensures
        u == x,
        v == y,
{
}

fn encode(u: usize, v: usize) -> (c: u128)
    ensures
        c == pair_code(u, v),
{
    (u as u128) * 0x1_0000_0000_0000_0000u128 + (v as u128)
}

/// An undirected graph on the vertices `0..vertices`, its pairs kept in
/// a hash set.
pub struct Graph {
    vertices: usize,
    edges: HashSet<u128>,
}

impl View for Graph {
    type V = GraphModel;

    closed spec fn view(&self) -> GraphModel {
        GraphModel {
            order: self.vertices,
            edges: Set::new(|e: (usize, usize)| self.edges@.contains(pair_code(e.0, e.1))),
        }
    }
}

impl Graph {
    /// Builds the graph with the given vertex count and the given pairs
    /// as edges. A pair may come in either order, and more than once.
    pub fn new(vertices: usize, edges: &Vec<(usize, usize)>) -> (g: Graph)
        ensures
            g@.order == vertices,
            g@.edges == edges@.to_set(),
    {
        broadcast use vstd::std_specs::hash::group_hash_axioms;

        let mut codes: HashSet<u128> = HashSet::new();
        let mut i: usize = 0;
        while i < edges.len()
            invariant
                i <= edges.len(),
                forall|c: u128|
                    codes@.contains(c) <==> exists|k: int|
                        0 <= k < i && c == pair_code(
                            (#[trigger] edges@[k]).0,
                            edges@[k].1,
                        ),
            decreases edges.len() - i,
        {
            let (u, v) = edges[i];
            let c = encode(u, v);
            codes.insert(c);
            i += 1;
        }
        let g = Graph { vertices, edges: codes };
        proof {
            assert forall|e: (usize, usize)| g@.edges.contains(e) <==> edges@.to_set().contains(
                e,
            ) by {
                if g@.edges.contains(e) {
                    let k = choose|k: int|
                        0 <= k < edges@.len() && pair_code(e.0, e.1) == pair_code(
                            (#[trigger] edges@[k]).0,
                            edges@[k].1,
                        );
                    lemma_pair_code_injective(e.0, e.1, edges@[k].0, edges@[k].1);
                    assert(edges@[k] == e);
                }
                if edges@.to_set().contains(e) {
                    let k = choose|k: int| 0 <= k < edges@.len() && edges@[k] == e;
                    assert(pair_code(e.0, e.1) == pair_code(edges@[k].0, edges@[k].1));
                }
            }
            assert(g@.edges =~= edges@.to_set());
        }
        g
    }

    /// The number of vertices.
    pub fn vertices(&self) -> (n: usize)
        ensures
            n == self@.order,
    {
        self.vertices
    }

    /// Whether no vertex is joined to itself.
    pub fn is_loop_free(&self) -> (r: bool)
        ensures
            r == self@.loop_free(),
    {
        let mut v: usize = 0;
        while v < self.vertices
            invariant
                v <= self.vertices,
                self.vertices == self@.order,
                forall|u: usize| u < v ==> !(#[trigger] self@.adjacent(u, u)),
            decreases self.vertices - v,
        {
            if self.adjacent(v, v) {
                return false;
            }
            v += 1;
        }
        true
    }

    /// Whether `u` and `v` are joined by an edge.
    pub fn adjacent(&self, u: usize, v: usize) -> (r: bool)
        ensures
            r == self@.adjacent(u, v),
    {
        broadcast use vstd::std_specs::hash::group_hash_axioms;

        let a = encode(u, v);
        let b = encode(v, u);
        self.edges.contains(&a) || self.edges.contains(&b)
    }
}

} // verus!
