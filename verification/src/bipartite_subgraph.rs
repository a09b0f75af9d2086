//! The enumeration of the maximal connected induced bipartite subgraphs
//! of a graph, and the operations it is built from.

use crate::breadth_first::{
    lemma_search_done, lemma_search_mark, lemma_search_next, lemma_search_pop, lemma_search_skip,
    lemma_search_start, search_inv,
};
use crate::enumeration::{lemma_lookup, lookup, undiscovered, Progress};
use crate::graph::{Graph, GraphModel};
use crate::proximity::{CanonicalReconstruction, ProsimitySearchable};
use crate::two_coloring::{flip, hue, lemma_pair_hue, lemma_pair_symmetric};
use crate::union_find::UnionFind;
use crate::vertex_set::{increasing, lemma_increasing_unique, set_to_vec};
use std::collections::HashSet;
use std::collections::VecDeque;
use vstd::prelude::*;
use vstd::set_lib::{lemma_int_range, lemma_len_subset, set_int_range};

verus! {

/// The sets that a list of hash sets holds.
pub open spec fn views(sets: Seq<HashSet<usize>>) -> Seq<Set<usize>> {
    Seq::new(sets.len(), |i: int| sets[i]@)
}

/// The sets that a list of listings stands for.
pub open spec fn sets_of(listings: Seq<Vec<usize>>) -> Seq<Set<usize>> {
    Seq::new(listings.len(), |i: int| listings[i]@.to_set())
}

/// A list of pairs of machine numbers as pairs of integers.
pub open spec fn pairs_of(edges: Seq<(usize, usize)>) -> Seq<(int, int)> {
    Seq::new(edges.len(), |i: int| (edges[i].0 as int, edges[i].1 as int))
}

/// The open frames hold, for each open solution of `st`, its index and
/// those of its neighbours that have not been looked at.
spec fn frames_match(
    g: GraphModel,
    st: Progress,
    frames: Seq<(usize, Vec<HashSet<usize>>)>,
) -> bool {
    &&& frames.len() == st.stack.len()
    &&& forall|p: int|
        0 <= p < frames.len() ==> (#[trigger] frames[p]).0 == st.stack[p] && views(frames[p].1@)
            == g.neighbors(st.found[st.stack[p]]).skip(st.upto[st.stack[p]])
}

/// Whether two listings are the same.
fn same_listing(a: &Vec<usize>, b: &Vec<usize>) -> (r: bool)
    ensures
        r == (a@ == b@),
{
    if a.len() != b.len() {
        return false;
    }
    let mut i: usize = 0;
    while i < a.len()
        invariant
            i <= a.len(),
            a.len() == b.len(),
            forall|j: int| 0 <= j < i ==> a@[j] == b@[j],
        decreases a.len() - i,
    {
        if a[i] != b[i] {
            return false;
        }
        i += 1;
    }
    proof {
        assert(a@ =~= b@);
    }
    true
}

/// A graph together with what the enumeration has found in it.
pub struct MaximalConnectedInducedBipartiteSubgraph {
    /// The graph that is searched.
    pub graph: Graph,
    /// The solutions in the order of their discovery, each as the
    /// strictly increasing list of its vertices. The place of a solution
    /// in this list is its index.
    pub solutions: Vec<Vec<usize>>,
    /// For every neighbour that was looked at, the index of the solution
    /// it was derived from and the index of the solution it turned out
    /// to be.
    pub edges: Vec<(usize, usize)>,
}

impl MaximalConnectedInducedBipartiteSubgraph {
    /// The graph that is searched, as a mathematical value.
    pub open spec fn graph(&self) -> GraphModel {
        self.graph@
    }

    /// Twice the vertex count is a machine number.
    pub open spec fn wf(&self) -> bool {
        2 * self.graph().order <= usize::MAX
    }

    /// A fresh search over the graph with the given vertex count and
    /// edges. Nothing has been found yet.
    pub fn init(vertices: usize, edges: Vec<(usize, usize)>) -> (s: Self)
        requires
            2 * vertices <= usize::MAX,
        ensures
            s.wf(),
            s.graph().order == vertices,
            s.graph().edges == edges@.to_set(),
            s.solutions@.len() == 0,
            s.edges@.len() == 0,
    {
        Self { graph: Graph::new(vertices, &edges), solutions: Vec::new(), edges: Vec::new() }
    }

    /// Enumerates the maximal connected induced bipartite subgraphs of
    /// the graph with the given vertex count and edges, where that can be
    /// done: where twice the vertex count is a machine number and no edge
    /// joins a vertex to itself. The result holds what [`Self::run`]
    /// finds.
    pub fn enumerate(vertices: usize, edges: Vec<(usize, usize)>) -> (found: Option<Self>)
        ensures
            found is Some <==> 2 * vertices <= usize::MAX && (GraphModel {
                order: vertices,
                edges: edges@.to_set(),
            }).loop_free(),
            found matches Some(s) ==> {
                &&& s.graph() == (GraphModel { order: vertices, edges: edges@.to_set() })
                &&& sets_of(s.solutions@) == s.graph().enumeration().found
                &&& pairs_of(s.edges@) == s.graph().enumeration().links
                &&& forall|i: int|
                    0 <= i < s.solutions@.len() ==> increasing(#[trigger] s.solutions@[i]@)
            },
    {
        if vertices > usize::MAX / 2 {
            return None;
        }
        let mut search = Self::init(vertices, edges);
        if !search.graph.is_loop_free() {
            return None;
        }
        search.run();
        Some(search)
    }

    /// The index of a solution: the first place at which its listing
    /// stands among the solutions found, if it stands there.
    pub fn index(&self, solution: &Vec<usize>) -> (at: Option<usize>)
        ensures
            match at {
                Some(i) => i < self.solutions@.len() && self.solutions@[i as int]@ == solution@
                    && forall|j: int| 0 <= j < i ==> self.solutions@[j]@ != solution@,
                None => forall|j: int|
                    0 <= j < self.solutions@.len() ==> self.solutions@[j]@ != solution@,
            },
    {
        let mut i: usize = 0;
        while i < self.solutions.len()
            invariant
                i <= self.solutions@.len(),
                forall|j: int| 0 <= j < i ==> self.solutions@[j]@ != solution@,
            decreases self.solutions.len() - i,
        {
            if same_listing(&self.solutions[i], solution) {
                return Some(i);
            }
            i += 1;
        }
        None
    }

    /// Enumerates the maximal connected induced bipartite subgraphs.
    /// Whatever was found before is forgotten. The closure of the empty
    /// set is the first solution; the neighbours of each solution are
    /// looked at in order, and a neighbour that is new is given the next
    /// index and expanded at once, before the next neighbour of the
    /// solution it came from.
    ///
    /// Afterwards `solutions` holds every solution once, at the place
    /// that is its index, as the increasing list of its vertices, and
    /// `edges` holds one pair for every neighbour that was looked at.
    pub fn run(&mut self)
        requires
            old(self).wf(),
            old(self).graph().loop_free(),
        ensures
            final(self).graph == old(self).graph,
            sets_of(final(self).solutions@) == old(self).graph().enumeration().found,
            pairs_of(final(self).edges@) == old(self).graph().enumeration().links,
            forall|i: int|
                0 <= i < final(self).solutions@.len() ==> increasing(
                    #[trigger] final(self).solutions@[i]@,
                ),
            final(self).solutions@.len() >= 1,
            final(self).solutions@[0]@.to_set() == old(self).graph().closure(Set::empty()),
            forall|i: int|
                0 <= i < final(self).solutions@.len() ==> old(self).graph().maximal(
                    (#[trigger] final(self).solutions@[i])@.to_set(),
                ),
            forall|i: int, j: int|
                0 <= i < j < final(self).solutions@.len() ==> (#[trigger] final(self).solutions@[i])@
                    != (#[trigger] final(self).solutions@[j])@,
            old(self).graph().closed_under_neighbors(sets_of(final(self).solutions@)),
    {
        self.solutions.clear();
        self.edges.clear();
        let first_solution = self.comp(HashSet::new());
        self.solutions.push(set_to_vec(&first_solution));
        self.enume(first_solution);
    }

    /// Walks through all that can be reached from the first solution,
    /// which is the only one recorded so far. The solutions that are
    /// being expanded are kept on a stack of frames, each with the index
    /// of its solution and the neighbours that are still to be looked
    /// at; the innermost frame is served first.
    fn enume(&mut self, solution: HashSet<usize>)
        requires
            old(self).wf(),
            old(self).graph().loop_free(),
            solution@ == old(self).graph().closure(Set::empty()),
            old(self).solutions@.len() == 1,
            old(self).solutions@[0]@.to_set() == solution@,
            increasing(old(self).solutions@[0]@),
            old(self).edges@.len() == 0,
        ensures
            final(self).graph == old(self).graph,
            sets_of(final(self).solutions@) == old(self).graph().enumeration().found,
            pairs_of(final(self).edges@) == old(self).graph().enumeration().links,
            forall|i: int|
                0 <= i < final(self).solutions@.len() ==> increasing(
                    #[trigger] final(self).solutions@[i]@,
                ),
            final(self).solutions@.len() >= 1,
            final(self).solutions@[0]@.to_set() == old(self).graph().closure(Set::empty()),
            forall|i: int|
                0 <= i < final(self).solutions@.len() ==> old(self).graph().maximal(
                    (#[trigger] final(self).solutions@[i])@.to_set(),
                ),
            forall|i: int, j: int|
                0 <= i < j < final(self).solutions@.len() ==> (#[trigger] final(self).solutions@[i])@
                    != (#[trigger] final(self).solutions@[j])@,
            old(self).graph().closed_under_neighbors(sets_of(final(self).solutions@)),
    {
        let ghost g = self.graph@;
        proof {
            g.lemma_first_solution();
        }
        let around = self.neighbors(&solution);
        let mut stack: Vec<(usize, Vec<HashSet<usize>>)> = Vec::new();
        stack.push((0, around));
        let ghost mut st = g.start();
        proof {
            g.lemma_start_orderly();
            assert(sets_of(self.solutions@) =~= st.found);
            assert(pairs_of(self.edges@) =~= st.links);
            assert(g.neighbors(st.found[0]).skip(0) =~= g.neighbors(st.found[0]));
        }
        while stack.len() > 0
            invariant
                g == self.graph@,
                self.graph == old(self).graph,
                self.wf(),
                g.loop_free(),
                st.found == sets_of(self.solutions@),
                st.links == pairs_of(self.edges@),
                forall|i: int|
                    0 <= i < self.solutions@.len() ==> increasing(#[trigger] self.solutions@[i]@),
                frames_match(g, st, stack@),
                g.orderly(st),
                g.finish(st) == g.enumeration(),
            decreases
                    undiscovered(g.order, st.found),
                    g.remaining(st.found, st.upto, st.found.len() as int) + st.stack.len(),
        {
            let ghost before = st;
            let ghost frames = stack@;
            let ghost u = st.stack.last();
            let ghost k = st.upto[u];
            let ghost all = g.neighbors(st.found[u]);
            proof {
                g.lemma_advance_decreases(st);
                g.lemma_advance_orderly(st);
                assert(st.stack[st.stack.len() - 1] == u);
                assert(g.maximal(st.found[u]));
                g.lemma_neighbors(st.found[u]);
                assert(frames[frames.len() - 1].0 == u);
                st = g.advance(st);
            }
            let (parent, mut rest) = stack.pop().unwrap();
            if rest.len() == 0 {
                proof {
                    assert(views(rest@).len() == 0);
                    assert(k >= all.len());
                    assert forall|p: int| 0 <= p < stack@.len() implies (#[trigger] stack@[p]).0
                        == st.stack[p] && views(stack@[p].1@) == g.neighbors(
                        st.found[st.stack[p]],
                    ).skip(st.upto[st.stack[p]]) by {
                        assert(stack@[p] == frames[p]);
                        assert(st.stack[p] == before.stack[p]);
                    }
                }
            } else {
                let ghost waiting = views(rest@);
                let candidate = rest.remove(0);
                proof {
                    assert(waiting[0] == all.skip(k)[0]);
                    assert(candidate@ == all[k]);
                    assert(g.maximal(all[k]));
                    assert(views(rest@) =~= all.skip(k + 1)) by {
                        assert forall|i: int| 0 <= i < rest@.len() implies views(rest@)[i]
                            == all.skip(k + 1)[i] by {
                            assert(rest@[i] == frames[frames.len() - 1].1@[i + 1]);
                            assert(waiting[i + 1] == all.skip(k)[i + 1]);
                        }
                    }
                }
                stack.push((parent, rest));
                let listing = set_to_vec(&candidate);
                let known = self.index(&listing);
                proof {
                    let t = all[k];
                    lemma_lookup(before.found, t);
                    assert forall|j: int|
                        0 <= j < before.found.len() && before.found[j] == t implies self.solutions@[j]@
                        == listing@ by {
                        lemma_increasing_unique(self.solutions@[j]@, listing@);
                    }
                    match known {
                        Some(i) => {
                            assert(before.found[i as int] == t);
                            assert(lookup(before.found, t) == i);
                        },
                        None => {
                            assert(lookup(before.found, t) == -1);
                        },
                    }
                }
                match known {
                    Some(at) => {
                        self.edges.push((parent, at));
                        proof {
                            assert(pairs_of(self.edges@) =~= st.links);
                            assert forall|p: int| 0 <= p < stack@.len() implies (
                            #[trigger] stack@[p]).0 == st.stack[p] && views(stack@[p].1@)
                                == g.neighbors(st.found[st.stack[p]]).skip(
                                st.upto[st.stack[p]],
                            ) by {
                                if p < frames.len() - 1 {
                                    assert(stack@[p] == frames[p]);
                                    assert(before.stack[p] < before.stack[frames.len() - 1]);
                                }
                            }
                        }
                    },
                    None => {
                        let v = self.solutions.len();
                        self.solutions.push(listing);
                        self.edges.push((parent, v));
                        let around = self.neighbors(&candidate);
                        stack.push((v, around));
                        proof {
                            assert(sets_of(self.solutions@) =~= st.found);
                            assert(pairs_of(self.edges@) =~= st.links);
                            assert(g.neighbors(st.found[v as int]).skip(0) =~= g.neighbors(
                                st.found[v as int],
                            ));
                            assert forall|p: int| 0 <= p < stack@.len() implies (
                            #[trigger] stack@[p]).0 == st.stack[p] && views(stack@[p].1@)
                                == g.neighbors(st.found[st.stack[p]]).skip(
                                st.upto[st.stack[p]],
                            ) by {
                                if p < frames.len() - 1 {
                                    assert(stack@[p] == frames[p]);
                                    assert(before.stack[p] < before.stack[frames.len() - 1]);
                                    assert(st.found[st.stack[p]] == before.found[before.stack[p]]);
                                } else if p == frames.len() - 1 {
                                    assert(st.found[u] == before.found[u]);
                                }
                            }
                        }
                    },
                }
            }
        }
        proof {
            assert(st.stack.len() == 0);
            g.lemma_enumeration();
            assert forall|i: int| 0 <= i < self.solutions@.len() implies g.maximal(
                (#[trigger] self.solutions@[i])@.to_set(),
            ) by {
                assert(st.found[i] == self.solutions@[i]@.to_set());
            }
            assert forall|i: int, j: int| 0 <= i < j < self.solutions@.len() implies (
            #[trigger] self.solutions@[i])@ != (#[trigger] self.solutions@[j])@ by {
                assert(st.found[i] == self.solutions@[i]@.to_set());
                assert(st.found[j] == self.solutions@[j]@.to_set());
                assert(st.found[i] != st.found[j]);
            }
            assert(st.found[0] == self.solutions@[0]@.to_set());
        }
    }

    /// Breadth-first search among `members` from the member at `start`.
    /// Tells of each member whether it is reached, and gives each reached
    /// member a side: the start lies on the near side, and whoever is
    /// found lies opposite the member it was found from.
    fn search(&self, members: &Vec<usize>, start: usize) -> (seen: Vec<Option<bool>>)
        requires
            increasing(members@),
            start < members@.len(),
        ensures
            seen@.len() == members@.len(),
            forall|j: int|
                0 <= j < members@.len() ==> ((#[trigger] seen@[j]) is Some
                    <==> self.graph().reachable(
                    members@.to_set(),
                    members@[start as int],
                    members@[j],
                )),
            forall|c: Set<usize>, j: int|
                #![trigger self.graph().two_colored(members@.to_set(), c), seen@[j]]
                self.graph().two_colored(members@.to_set(), c) && 0 <= j < members@.len()
                    && seen@[j] is Some ==> seen@[j] == Some(
                    c.contains(members@[j]) != c.contains(members@[start as int]),
                ),
    {
        let n = members.len();
        let ghost g = self.graph@;
        let ghost m = members@;
        let mut seen: Vec<Option<bool>> = Vec::new();
        let mut t: usize = 0;
        while t < n
            invariant
                t <= n,
                seen@.len() == t,
                forall|j: int| 0 <= j < t ==> seen@[j] == None::<bool>,
            decreases n - t,
        {
            seen.push(None);
            t += 1;
        }
        let mut queue: VecDeque<usize> = VecDeque::new();
        seen.set(start, Some(false));
        queue.push_back(start);
        let ghost mut visited: Set<int> = set![start as int];
        let ghost mut popped: int = 0;
        proof {
            lemma_search_start(g, m, start);
            assert(seen@ =~= Seq::new(m.len(), |j: int| None::<bool>).update(
                start as int,
                Some(false),
            ));
            assert(queue@ =~= seq![start]);
        }
        while queue.len() > 0
            invariant
                n == m.len(),
                m == members@,
                g == self.graph@,
                search_inv(g, m, start as int, seen@, queue@, -1, 0),
                visited.finite(),
                0 <= popped,
                visited.len() == popped + queue@.len(),
                forall|j: int| visited.contains(j) <==> 0 <= j < n && seen@[j] is Some,
            decreases n - popped,
        {
            proof {
                lemma_int_range(0, n as int);
                lemma_len_subset(visited, set_int_range(0, n as int));
                lemma_search_pop(g, m, start as int, seen@, queue@);
            }
            let i = queue.pop_front().unwrap();
            proof {
                popped = popped + 1;
            }
            let now = seen[i].unwrap();
            let mut j: usize = 0;
            while j < n
                invariant
                    j <= n,
                    i < n,
                    n == m.len(),
                    m == members@,
                    g == self.graph@,
                    seen@[i as int] == Some(now),
                    search_inv(g, m, start as int, seen@, queue@, i as int, j as int),
                    visited.finite(),
                    visited.len() == popped + queue@.len(),
                    forall|k: int| visited.contains(k) <==> 0 <= k < n && seen@[k] is Some,
                decreases n - j,
            {
                if seen[j].is_none() && self.graph.adjacent(members[i], members[j]) {
                    proof {
                        lemma_search_mark(g, m, start as int, seen@, queue@, i as int, j, now);
                        visited = visited.insert(j as int);
                    }
                    seen.set(j, Some(!now));
                    queue.push_back(j);
                } else {
                    proof {
                        lemma_search_skip(g, m, start as int, seen@, queue@, i as int, j as int);
                    }
                }
                j += 1;
            }
            proof {
                lemma_search_next(g, m, start as int, seen@, queue@, i as int);
            }
        }
        proof {
            assert(queue@ =~= Seq::<usize>::empty());
            lemma_search_done(g, m, start as int, seen@);
        }
        seen
    }

    /// The members of `set` that can be reached from `v` inside `set`.
    /// Empty for the empty set.
    pub fn cc(&self, set: &HashSet<usize>, v: usize) -> (new: HashSet<usize>)
        requires
            set@.is_empty() || set@.contains(v),
        ensures
            new@ == self.graph().component(set@, v),
    {
        broadcast use vstd::std_specs::hash::group_hash_axioms;

        let ghost g = self.graph@;
        let ghost s = set@;
        let mut new: HashSet<usize> = HashSet::new();
        if set.is_empty() {
            proof {
                assert forall|u: usize| !g.component(s, v).contains(u) by {
                    if g.reachable(s, v, u) {
                        g.lemma_reach_ends(s, v, u);
                    }
                }
                assert(new@ =~= g.component(s, v));
            }
            return new;
        }
        let members = set_to_vec(set);
        let ghost m = members@;
        proof {
            assert(m.contains(v));
        }
        let mut i: usize = 0;
        while i < members.len() && members[i] != v
            invariant
                i <= members.len(),
                members@ == m,
                m.contains(v),
                forall|k: int| 0 <= k < i ==> m[k] != v,
            decreases members.len() - i,
        {
            i += 1;
        }
        let seen = self.search(&members, i);
        let mut j: usize = 0;
        while j < members.len()
            invariant
                j <= members.len(),
                members@ == m,
                seen@.len() == m.len(),
                forall|x: usize|
                    new@.contains(x) <==> exists|k: int|
                        0 <= k < j && (#[trigger] seen@[k]) is Some && m[k] == x,
            decreases members.len() - j,
        {
            if seen[j].is_some() {
                new.insert(members[j]);
            }
            j += 1;
        }
        proof {
            assert forall|u: usize| new@.contains(u) <==> g.component(s, v).contains(u) by {
                if new@.contains(u) {
                    let k = choose|k: int|
                        0 <= k < m.len() && (#[trigger] seen@[k]) is Some && m[k] == u;
                    assert(g.reachable(s, v, m[k]));
                }
                if g.reachable(s, v, u) {
                    g.lemma_reach_ends(s, v, u);
                    assert(m.contains(u));
                    let k = choose|k: int| 0 <= k < m.len() && m[k] == u;
                    assert(seen@[k] is Some);
                }
            }
            assert(new@ =~= g.component(s, v));
        }
        new
    }

    /// Whether the subgraph induced by `set` is connected. The empty set
    /// is.
    pub fn is_connected(&self, set: &HashSet<usize>) -> (r: bool)
        ensures
            r == self.graph().connected(set@),
    {
        let ghost g = self.graph@;
        let ghost s = set@;
        if set.is_empty() {
            return true;
        }
        let members = set_to_vec(set);
        let ghost m = members@;
        proof {
            let x = choose|x: usize| s.contains(x);
            assert(s.contains(x));
            assert(m.contains(x));
        }
        let seen = self.search(&members, 0);
        let mut j: usize = 0;
        while j < members.len()
            invariant
                j <= members.len(),
                members@ == m,
                m.len() > 0,
                m.to_set() == s,
                g == self.graph@,
                s == set@,
                seen@.len() == m.len(),
                forall|k: int|
                    0 <= k < m.len() ==> ((#[trigger] seen@[k]) is Some <==> g.reachable(
                        s,
                        m[0],
                        m[k],
                    )),
                forall|k: int| 0 <= k < j ==> (#[trigger] seen@[k]) is Some,
            decreases members.len() - j,
        {
            if seen[j].is_none() {
                proof {
                    assert(s.contains(m[0]) && s.contains(m[j as int])) by {
                        assert(m.to_set().contains(m[0]));
                        assert(m.to_set().contains(m[j as int]));
                    }
                    assert(!g.reachable(s, m[0], m[j as int]));
                }
                return false;
            }
            j += 1;
        }
        proof {
            assert(m.to_set().contains(m[0]));
            assert forall|u: usize| s.contains(u) implies g.component(s, m[0]).contains(u) by {
                assert(m.contains(u));
                let k = choose|k: int| 0 <= k < m.len() && m[k] == u;
                assert(seen@[k] is Some);
            }
            g.lemma_component_connected(s, m[0]);
            assert(g.component(s, m[0]) =~= s);
            g.lemma_connected_iff_component(s, m[0]);
        }
        true
    }

    /// The two sides of the two-colouring of a connected bipartite set:
    /// first the side of its least member, then the other.
    pub fn bipartition(&self, solution: &HashSet<usize>) -> (sides: (
        HashSet<usize>,
        HashSet<usize>,
    ))
        requires
            self.graph().connected(solution@),
            self.graph().bipartite(solution@),
        ensures
            sides.0@ == self.graph().side(solution@, false),
            sides.1@ == self.graph().side(solution@, true),
    {
        broadcast use vstd::std_specs::hash::group_hash_axioms;

        let ghost g = self.graph@;
        let ghost s = solution@;
        let mut b_0: HashSet<usize> = HashSet::new();
        let mut b_1: HashSet<usize> = HashSet::new();
        if solution.is_empty() {
            proof {
                assert(b_0@ =~= g.side(s, false));
                assert(b_1@ =~= g.side(s, true));
            }
            return (b_0, b_1);
        }
        let members = set_to_vec(solution);
        let ghost m = members@;
        proof {
            let x = choose|x: usize| s.contains(x);
            assert(s.contains(x));
            assert(m.contains(x));
        }
        let seen = self.search(&members, 0);
        let ghost c = g.coloring(s);
        proof {
            assert(m.to_set().contains(m[0]));
            assert forall|x: usize| s.contains(x) implies m[0] <= x by {
                assert(m.contains(x));
                let k = choose|k: int| 0 <= k < m.len() && m[k] == x;
                if k > 0 {
                    assert(m[0] < m[k]);
                }
            }
            assert(g.least(s) == m[0]);
            assert(g.two_colored(s, c));
            assert forall|k: int| 0 <= k < m.len() implies (#[trigger] seen@[k]) == Some(
                c.contains(m[k]) != c.contains(m[0]),
            ) by {
                assert(m.to_set().contains(m[k]));
                assert(g.reachable(s, m[0], m[k]));
            }
        }
        let mut j: usize = 0;
        while j < members.len()
            invariant
                j <= members.len(),
                members@ == m,
                seen@.len() == m.len(),
                forall|k: int|
                    0 <= k < m.len() ==> (#[trigger] seen@[k]) == Some(
                        c.contains(m[k]) != c.contains(m[0]),
                    ),
                forall|x: usize|
                    b_0@.contains(x) <==> exists|k: int|
                        0 <= k < j && (#[trigger] seen@[k]) == Some(false) && m[k] == x,
                forall|x: usize|
                    b_1@.contains(x) <==> exists|k: int|
                        0 <= k < j && (#[trigger] seen@[k]) == Some(true) && m[k] == x,
            decreases members.len() - j,
        {
            match seen[j] {
                Some(false) => {
                    b_0.insert(members[j]);
                },
                Some(true) => {
                    b_1.insert(members[j]);
                },
                None => {},
            }
            j += 1;
        }
        proof {
            assert forall|u: usize| b_0@.contains(u) <==> g.side(s, false).contains(u) by {
                if b_0@.contains(u) {
                    let k = choose|k: int|
                        0 <= k < m.len() && (#[trigger] seen@[k]) == Some(false) && m[k] == u;
                    assert(m.to_set().contains(m[k]));
                }
                if g.side(s, false).contains(u) {
                    assert(m.contains(u));
                    let k = choose|k: int| 0 <= k < m.len() && m[k] == u;
                    assert(seen@[k] == Some(false));
                }
            }
            assert forall|u: usize| b_1@.contains(u) <==> g.side(s, true).contains(u) by {
                if b_1@.contains(u) {
                    let k = choose|k: int|
                        0 <= k < m.len() && (#[trigger] seen@[k]) == Some(true) && m[k] == u;
                    assert(m.to_set().contains(m[k]));
                }
                if g.side(s, true).contains(u) {
                    assert(m.contains(u));
                    let k = choose|k: int| 0 <= k < m.len() && m[k] == u;
                    assert(seen@[k] == Some(true));
                }
            }
            assert(b_0@ =~= g.side(s, false));
            assert(b_1@ =~= g.side(s, true));
        }
        (b_0, b_1)
    }

    /// The greedy closure of `component`: the vertices are tried in
    /// increasing order, the first one that can be added is added, and
    /// the scan starts over, until none can be added.
    pub fn comp(&self, component: HashSet<usize>) -> (closed: HashSet<usize>)
        requires
            self.wf(),
            self.graph().within(component@),
        ensures
            closed@ == self.graph().closure(component@),
    {
        broadcast use vstd::std_specs::hash::group_hash_axioms;

        let ghost g = self.graph@;
        let ghost seed = component@;
        let mut component = component;
        let vertices = self.graph.vertices();
        let mut n: usize = 0;
        while n < vertices
            invariant
                n <= vertices,
                vertices == g.order,
                g == self.graph@,
                self.wf(),
                g.within(component@),
                g.closure(component@) == g.closure(seed),
                forall|w: usize| w < n ==> !g.extends(component@, w),
            decreases g.missing(component@, vertices as int), vertices - n,
        {
            if component.contains(&n) {
                n += 1;
            } else {
                let ghost before = component@;
                component.insert(n);
                if self.is_bipartite(&component) && self.is_connected(&component) {
                    proof {
                        assert(g.extends(before, n));
                        g.lemma_first_extension(before, 0);
                        assert(g.first_extension(before, 0) == Some(n));
                        g.lemma_missing_insert(before, n, vertices as int);
                    }
                    n = 0;
                } else {
                    component.remove(&n);
                    proof {
                        assert(component@ =~= before);
                    }
                    n += 1;
                }
            }
        }
        proof {
            g.lemma_closure_fixed(component@);
        }
        component
    }

    /// Adds to `out` the members of `from` that are not next to `v`, or
    /// all its members where `all` is set.
    fn gather(&self, out: &mut HashSet<usize>, from: &HashSet<usize>, v: usize, all: bool)
        ensures
            final(out)@ == old(out)@.union(
                from@.filter(|u: usize| all || !self.graph().adjacent(u, v)),
            ),
    {
        broadcast use vstd::std_specs::hash::group_hash_axioms;

        let ghost g = self.graph@;
        let ghost base = out@;
        let ghost goal = base.union(from@.filter(|u: usize| all || !g.adjacent(u, v)));
        for x in it: from.iter()
            invariant
                g == self.graph@,
                goal == base.union(from@.filter(|u: usize| all || !g.adjacent(u, v))),
                it.seq().unref().to_set() == from@,
                forall|y: usize|
                    #![trigger out@.contains(y)]
                    out@.contains(y) <==> base.contains(y) || exists|k: int|
                        0 <= k < it.index() && *(#[trigger] it.seq()[k]) == y && (all
                            || !g.adjacent(y, v)),
                it.index() == it.seq().len() ==> out@ == goal,
        {
            let ghost idx = it.index();
            let ghost prev = out@;
            if all || !self.graph.adjacent(*x, v) {
                out.insert(*x);
            }
            proof {
                let cur = out@;
                assert forall|y: usize|
                    #![trigger cur.contains(y)]
                    cur.contains(y) <==> base.contains(y) || exists|k: int|
                        0 <= k < idx + 1 && *(#[trigger] it.seq()[k]) == y && (all
                            || !g.adjacent(y, v)) by {
                    if cur.contains(y) && !base.contains(y) {
                        if prev.contains(y) {
                            let k = choose|k: int|
                                0 <= k < idx && *(#[trigger] it.seq()[k]) == y && (all
                                    || !g.adjacent(y, v));
                            assert(*it.seq()[k] == y);
                        } else {
                            assert(*it.seq()[idx] == y);
                        }
                    }
                    if exists|k: int|
                        0 <= k < idx + 1 && *(#[trigger] it.seq()[k]) == y && (all || !g.adjacent(
                            y,
                            v,
                        )) {
                        let k = choose|k: int|
                            0 <= k < idx + 1 && *(#[trigger] it.seq()[k]) == y && (all
                                || !g.adjacent(y, v));
                        if k < idx {
                            assert(prev.contains(y));
                        }
                    }
                }
                assert forall|y: usize| idx + 1 == it.seq().len() implies (cur.contains(y)
                    <==> goal.contains(y)) by {
                    if cur.contains(y) && !base.contains(y) {
                        let k = choose|k: int|
                            0 <= k < idx + 1 && *(#[trigger] it.seq()[k]) == y && (all
                                || !g.adjacent(y, v));
                        assert(it.seq().unref()[k] == y);
                        assert(it.seq().unref().to_set().contains(y));
                    }
                    if goal.contains(y) && !base.contains(y) {
                        assert(from@.contains(y));
                        assert(it.seq().unref().to_set().contains(y));
                        let k = choose|k: int|
                            0 <= k < it.seq().unref().len() && it.seq().unref()[k] == y;
                        assert(*it.seq()[k] == y);
                    }
                }
                assert(idx + 1 == it.seq().len() ==> cur =~= goal);
            }
        }
    }

    /// The set from which a neighbour is grown: all of `keep`, the
    /// members of `thin` that are not next to `v`, and `v`.
    fn perturb(&self, keep: &HashSet<usize>, thin: &HashSet<usize>, v: usize) -> (out: HashSet<
        usize,
    >)
        ensures
            out@ == keep@.union(thin@.filter(|u: usize| !self.graph().adjacent(u, v))).insert(v),
    {
        broadcast use vstd::std_specs::hash::group_hash_axioms;

        let ghost g = self.graph@;
        let mut out: HashSet<usize> = HashSet::new();
        self.gather(&mut out, keep, v, true);
        self.gather(&mut out, thin, v, false);
        out.insert(v);
        proof {
            assert(keep@.filter(|u: usize| true || !g.adjacent(u, v)) =~= keep@);
            assert(thin@.filter(|u: usize| false || !g.adjacent(u, v)) =~= thin@.filter(
                |u: usize| !g.adjacent(u, v),
            ));
            assert(out@ =~= keep@.union(thin@.filter(|u: usize| !g.adjacent(u, v))).insert(v));
        }
        out
    }

    /// The two neighbours that the vertex `v` gives a solution whose
    /// sides are `b_0` and `b_1`: first the one that keeps `b_0` whole,
    /// then the one that keeps `b_1` whole.
    fn around(&self, b_0: &HashSet<usize>, b_1: &HashSet<usize>, v: usize, Ghost(s): Ghost<
        Set<usize>,
    >) -> (pair: (HashSet<usize>, HashSet<usize>))
        requires
            self.wf(),
            self.graph().within(s),
            v < self.graph().order,
            b_0@ == self.graph().side(s, false),
            b_1@ == self.graph().side(s, true),
        ensures
            pair.0@ == self.graph().neighbor(s, v, false),
            pair.1@ == self.graph().neighbor(s, v, true),
    {
        let ghost g = self.graph@;
        let comp1 = self.perturb(b_0, b_1, v);
        proof {
            assert(comp1@ == g.candidate(s, v, false));
            g.lemma_component_connected(comp1@, v);
        }
        let first = self.comp(self.cc(&comp1, v));
        let comp2 = self.perturb(b_1, b_0, v);
        proof {
            assert(comp2@ == g.candidate(s, v, true));
            g.lemma_component_connected(comp2@, v);
        }
        let second = self.comp(self.cc(&comp2, v));
        (first, second)
    }

    /// The neighbours of a solution: for every vertex outside it, in
    /// increasing order, the two solutions grown from the two ways of
    /// forcing that vertex in.
    pub fn neighbors(&self, solution: &HashSet<usize>) -> (found: Vec<HashSet<usize>>)
        requires
            self.wf(),
            self.graph().within(solution@),
            self.graph().connected(solution@),
            self.graph().bipartite(solution@),
        ensures
            views(found@) == self.graph().neighbors(solution@),
    {
        broadcast use vstd::std_specs::hash::group_hash_axioms;

        let ghost g = self.graph@;
        let ghost s = solution@;
        let (b_0, b_1) = self.bipartition(solution);
        let mut neighbors: Vec<HashSet<usize>> = Vec::new();
        let vertices = self.graph.vertices();
        let mut v: usize = 0;
        proof {
            assert(views(neighbors@) =~= g.neighbors_upto(s, 0));
        }
        while v < vertices
            invariant
                v <= vertices,
                vertices == g.order,
                g == self.graph@,
                s == solution@,
                self.wf(),
                g.within(s),
                b_0@ == g.side(s, false),
                b_1@ == g.side(s, true),
                views(neighbors@) == g.neighbors_upto(s, v as int),
            decreases vertices - v,
        {
            if !solution.contains(&v) {
                let ghost before = views(neighbors@);
                let (first, second) = self.around(&b_0, &b_1, v, Ghost(s));
                neighbors.push(first);
                neighbors.push(second);
                proof {
                    assert(views(neighbors@) =~= before.push(g.neighbor(s, v, false)).push(
                        g.neighbor(s, v, true),
                    ));
                }
            }
            v += 1;
        }
        neighbors
    }

    /// Whether the subgraph induced by `set` has a proper two-colouring.
    pub fn is_bipartite(&self, set: &HashSet<usize>) -> (r: bool)
        requires
            self.wf(),
            self.graph().within(set@),
        ensures
            r == self.graph().bipartite(set@),
    {
        let n = self.graph.vertices();
        let members = set_to_vec(set);
        let mut tree = UnionFind::new(n * 2);
        let ghost g = self.graph@;
        let ghost s = set@;
        let ghost m = members@;
        let ghost nn = n as int;
        proof {
            tree.lemma_view_valid();
            assert forall|k: int| 0 <= k < m.len() implies (#[trigger] m[k]) < n by {
                assert(m.to_set().contains(m[k]));
            }
        }
        let mut i: usize = 0;
        while i < members.len()
            invariant
                i <= members.len(),
                members@ == m,
                m.to_set() == s,
                n == self.graph@.order,
                nn == n,
                g == self.graph@,
                2 * n <= usize::MAX,
                forall|k: int| 0 <= k < m.len() ==> (#[trigger] m[k]) < n,
                tree.wf(),
                tree@.valid(),
                tree@.len() == 2 * n,
                forall|p: int, q: int|
                    0 <= p < 2 * nn && 0 <= q < 2 * nn ==> (#[trigger] tree@.same(p, q)
                        <==> tree@.same(flip(nn, p), flip(nn, q))),
                forall|c: Set<usize>, p: int, q: int|
                    g.two_colored(s, c) && 0 <= p < 2 * nn && 0 <= q < 2 * nn
                        && #[trigger] tree@.same(p, q) ==> #[trigger] hue(c, nn, p) == hue(
                        c,
                        nn,
                        q,
                    ),
                forall|p: int, q: int|
                    #![trigger m[p], m[q]]
                    0 <= p < i && 0 <= q < m.len() && g.adjacent(m[p], m[q]) ==> tree@.same(
                        m[p] as int,
                        m[q] + nn,
                    ),
            decreases members.len() - i,
        {
            let u = members[i];
            let mut j: usize = 0;
            while j < members.len()
                invariant
                    i < members.len(),
                    j <= members.len(),
                    u == m[i as int],
                    members@ == m,
                    m.to_set() == s,
                    n == self.graph@.order,
                    nn == n,
                    g == self.graph@,
                    2 * n <= usize::MAX,
                    forall|k: int| 0 <= k < m.len() ==> (#[trigger] m[k]) < n,
                    tree.wf(),
                    tree@.valid(),
                    tree@.len() == 2 * n,
                    forall|p: int, q: int|
                        0 <= p < 2 * nn && 0 <= q < 2 * nn ==> (#[trigger] tree@.same(p, q)
                            <==> tree@.same(flip(nn, p), flip(nn, q))),
                    forall|c: Set<usize>, p: int, q: int|
                        g.two_colored(s, c) && 0 <= p < 2 * nn && 0 <= q < 2 * nn
                            && #[trigger] tree@.same(p, q) ==> #[trigger] hue(c, nn, p) == hue(
                            c,
                            nn,
                            q,
                        ),
                    forall|p: int, q: int|
                        #![trigger m[p], m[q]]
                        0 <= p < i && 0 <= q < m.len() && g.adjacent(m[p], m[q]) ==> tree@.same(
                            m[p] as int,
                            m[q] + nn,
                        ),
                    forall|q: int|
                        0 <= q < j && g.adjacent(u, #[trigger] m[q]) ==> tree@.same(
                            u as int,
                            m[q] + nn,
                        ),
                decreases members.len() - j,
            {
                let v = members[j];
                if self.graph.adjacent(u, v) {
                    let ghost d0 = tree@;
                    tree.unite(u, v + n);
                    proof {
                        tree.lemma_view_valid();
                    }
                    tree.unite(u + n, v);
                    proof {
                        tree.lemma_view_valid();
                        let d1 = d0.united(u as int, v + nn);
                        let d2 = tree@;
                        d0.lemma_united(u as int, v + nn);
                        d1.lemma_united(u + nn, v as int);
                        assert(s.contains(u) && s.contains(v)) by {
                            assert(m.to_set().contains(m[i as int]));
                            assert(m.to_set().contains(m[j as int]));
                        }
                        assert forall|p: int, q: int|
                            0 <= p < 2 * nn && 0 <= q < 2 * nn implies (#[trigger] d2.same(p, q)
                            <==> d2.same(flip(nn, p), flip(nn, q))) by {
                            lemma_pair_symmetric(d0, nn, u as int, v as int, p, q);
                        }
                        assert forall|c: Set<usize>, p: int, q: int|
                            g.two_colored(s, c) && 0 <= p < 2 * nn && 0 <= q < 2 * nn
                                && #[trigger] d2.same(p, q) implies #[trigger] hue(c, nn, p)
                            == hue(c, nn, q) by {
                            assert(c.contains(u) != c.contains(v));
                            assert forall|x: int, y: int|
                                0 <= x < 2 * nn && 0 <= y < 2 * nn && #[trigger] d1.same(
                                    x,
                                    y,
                                ) implies hue(c, nn, x) == hue(c, nn, y) by {
                                lemma_pair_hue(d0, c, nn, u as int, v + nn, x, y);
                            }
                            lemma_pair_hue(d1, c, nn, u + nn, v as int, p, q);
                        }
                        // what was joined stays joined
                        assert forall|p: int, q: int|
                            0 <= p < 2 * nn && 0 <= q < 2 * nn && d0.same(p, q) implies d2.same(
                            p,
                            q,
                        ) by {
                            assert(d1.same(p, q));
                        }
                        assert(d1.same(u as int, v + nn));
                        assert(d2.same(u as int, v + nn));
                    }
                }
                j += 1;
            }
            i += 1;
        }
        let mut k: usize = 0;
        while k < n
            invariant
                k <= n,
                nn == n,
                s == set@,
                n == self.graph@.order,
                g == self.graph@,
                2 * n <= usize::MAX,
                tree.wf(),
                tree@.valid(),
                tree@.len() == 2 * n,
                forall|c: Set<usize>, p: int, q: int|
                    g.two_colored(s, c) && 0 <= p < 2 * nn && 0 <= q < 2 * nn
                        && #[trigger] tree@.same(p, q) ==> #[trigger] hue(c, nn, p) == hue(
                        c,
                        nn,
                        q,
                    ),
                forall|p: int, q: int|
                    0 <= p < 2 * nn && 0 <= q < 2 * nn ==> (#[trigger] tree@.same(p, q)
                        <==> tree@.same(flip(nn, p), flip(nn, q))),
                forall|p: int, q: int|
                    #![trigger m[p], m[q]]
                    0 <= p < m.len() && 0 <= q < m.len() && g.adjacent(m[p], m[q]) ==> tree@.same(
                        m[p] as int,
                        m[q] + nn,
                    ),
                forall|t: int| 0 <= t < k ==> (#[trigger] tree@.rep[t]) != tree@.rep[t + nn],
            decreases n - k,
        {
            if tree.same(k, k + n) {
                proof {
                    assert forall|c: Set<usize>| !g.two_colored(s, c) by {
                        if g.two_colored(s, c) {
                            assert(tree@.same(k as int, k + nn));
                            assert(hue(c, nn, k as int) == hue(c, nn, k + nn));
                        }
                    }
                }
                return false;
            }
            k += 1;
        }
        proof {
            let d = tree@;
            let c = Set::new(|x: usize| x < n && d.rep[x as int] < d.rep[x + nn]);
            assert forall|a: usize, b: usize|
                #![trigger s.contains(a), s.contains(b)]
                s.contains(a) && s.contains(b) && g.adjacent(a, b) implies (c.contains(a)
                != c.contains(b)) by {
                assert(m.contains(a) && m.contains(b));
                let p = choose|p: int| 0 <= p < m.len() && m[p] == a;
                let q = choose|q: int| 0 <= q < m.len() && m[q] == b;
                assert(d.same(m[p] as int, m[q] + nn));
                assert(d.same(a as int, b + nn) <==> d.same(flip(nn, a as int), flip(nn, b + nn)));
                assert(!d.same(a as int, a + nn));
                assert(!d.same(b as int, b + nn));
            }
            assert(g.two_colored(s, c));
        }
        true
    }
}

impl ProsimitySearchable for MaximalConnectedInducedBipartiteSubgraph {
    type Universe = usize;

    type Components = HashSet<usize>;

    type Solutions = HashSet<usize>;

    open spec fn ready(&self) -> bool {
        self.wf() && self.graph().loop_free()
    }

    open spec fn is_solution(&self, solution: &HashSet<usize>) -> bool {
        self.graph().maximal(solution@)
    }

    /// The neighbours of a solution, as the inherent function of that
    /// name gives them.
    fn neighbors(&self, solution: &HashSet<usize>) -> (around: Vec<HashSet<usize>>)
        ensures
            views(around@) == self.graph().neighbors(solution@),
    {
        let found = MaximalConnectedInducedBipartiteSubgraph::neighbors(self, solution);
        proof {
            self.graph().lemma_neighbors(solution@);
            assert forall|i: int| 0 <= i < found@.len() implies self.graph().maximal(
                (#[trigger] found@[i])@,
            ) by {
                assert(views(found@)[i] == found@[i]@);
            }
        }
        found
    }

    /// The closure of the empty set.
    fn start(&self) -> (first: HashSet<usize>)
        ensures
            first@ == self.graph().closure(Set::empty()),
    {
        proof {
            self.graph().lemma_first_solution();
        }
        self.comp(HashSet::new())
    }
}

impl CanonicalReconstruction for MaximalConnectedInducedBipartiteSubgraph {
    type Universe = usize;

    type Components = HashSet<usize>;

    type Solutions = HashSet<usize>;

    open spec fn prepared(&self) -> bool {
        self.wf() && self.graph().loop_free()
    }

    open spec fn is_maximal(&self, solution: &HashSet<usize>) -> bool {
        self.graph().maximal(solution@)
    }

    open spec fn lacks(&self, solution: &HashSet<usize>, vertex: usize) -> bool {
        vertex < self.graph().order && !solution@.contains(vertex)
    }

    /// The two neighbours that `vertex` gives: first the one that keeps
    /// the side of the least member whole, then the one that keeps the
    /// other side whole.
    fn neightbors(&self, solution: &HashSet<usize>, vertex: usize) -> (around: Vec<HashSet<usize>>)
        ensures
            views(around@) == seq![
                self.graph().neighbor(solution@, vertex, false),
                self.graph().neighbor(solution@, vertex, true),
            ],
    {
        let (b_0, b_1) = self.bipartition(solution);
        let (first, second) = self.around(&b_0, &b_1, vertex, Ghost(solution@));
        let mut found: Vec<HashSet<usize>> = Vec::new();
        found.push(first);
        found.push(second);
        proof {
            self.graph().lemma_neighbor_maximal(solution@, vertex, false);
            self.graph().lemma_neighbor_maximal(solution@, vertex, true);
            assert(views(found@) =~= seq![
                self.graph().neighbor(solution@, vertex, false),
                self.graph().neighbor(solution@, vertex, true),
            ]);
        }
        found
    }
}

} // verus!
