//! The two views of a maximal-listing problem that the enumeration
//! rests on: neighbouring solutions, and the reconstruction of a
//! solution around one forced element.

use std::collections::HashSet;
use vstd::prelude::*;

verus! {

/// A problem whose maximal solutions can be listed by walking from
/// solution to neighbouring solution.
///
/// Given a universe `U`, a family of (not necessarily maximal)
/// components and the family of maximal solutions, an implementor names
/// one solution to start from and, for every solution, its neighbours.
pub trait ProsimitySearchable {
    /// A set of elements, such as the vertices of a graph.
    type Universe;

    /// Not necessarily maximal solutions.
    type Components;

    /// Maximal solutions.
    type Solutions;

    /// What must hold of the problem before it is searched.
    spec fn ready(&self) -> bool;

    /// `solution` is a maximal solution of the problem.
    spec fn is_solution(&self, solution: &Self::Solutions) -> bool;

    /// The elements that two solutions are taken to share. It plays no
    /// part in the search; where an implementor gives none, it is empty.
    fn proximity(_solution: &Self::Solutions, _solution_: &Self::Solutions) -> (shared: HashSet<
        usize,
    >)
        default_ensures
            shared@ == Set::<usize>::empty(),
    {
        HashSet::new()
    }

    /// The neighbours of a solution. They are solutions themselves.
    fn neighbors(&self, solution: &Self::Solutions) -> (around: Vec<Self::Solutions>)
        requires
            self.ready(),
            self.is_solution(solution),
        ensures
            forall|i: int| 0 <= i < around@.len() ==> self.is_solution(&#[trigger] around@[i]),
    ;

    /// One solution of the problem.
    fn start(&self) -> (first: Self::Solutions)
        requires
            self.ready(),
        ensures
            self.is_solution(&first),
    ;
}

/// A problem in which a maximal solution can be rebuilt around an
/// element that it lacks: some of its elements are removed so that the
/// element fits, and the rest is completed again.
pub trait CanonicalReconstruction {
    /// A set of elements, such as the vertices of a graph.
    type Universe;

    /// Not necessarily maximal solutions.
    type Components;

    /// Maximal solutions.
    type Solutions;

    /// What must hold of the problem before solutions are rebuilt.
    spec fn prepared(&self) -> bool;

    /// `solution` is a maximal solution of the problem.
    spec fn is_maximal(&self, solution: &Self::Solutions) -> bool;

    /// `vertex` is an element of the universe that `solution` lacks.
    spec fn lacks(&self, solution: &Self::Solutions, vertex: usize) -> bool;

    /// An order of the elements of a solution in which every prefix is a
    /// component. It plays no part in the search; where an implementor
    /// gives none, it is empty.
    fn canonical_order(&self, _solution: &Self::Solutions) -> (order: Vec<usize>)
        default_ensures
            order@ == Seq::<usize>::empty(),
    {
        Vec::new()
    }

    /// The solutions rebuilt from `solution` around `vertex`. They are
    /// solutions themselves.
    fn neightbors(&self, solution: &Self::Solutions, vertex: usize) -> (around: Vec<
        Self::Solutions,
    >)
        requires
            self.prepared(),
            self.is_maximal(solution),
            self.lacks(solution, vertex),
        ensures
            forall|i: int| 0 <= i < around@.len() ==> self.is_maximal(&#[trigger] around@[i]),
    ;
}

} // verus!
