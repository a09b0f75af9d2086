use proximity_search::bipartite_subgraph::MaximalConnectedInducedBipartiteSubgraph;
use proximity_search::graph::Graph;
use proximity_search::proximity::{CanonicalReconstruction, ProsimitySearchable};
use proximity_search::vertex_set::set_to_vec;
use std::collections::HashSet;

fn triangle() -> MaximalConnectedInducedBipartiteSubgraph {
    MaximalConnectedInducedBipartiteSubgraph::init(3, vec![(0, 1), (1, 2), (2, 0)])
}

fn square_with_tail() -> MaximalConnectedInducedBipartiteSubgraph {
    // 0 - 1 - 2 - 3 - 0 with a chord 0 - 2 and a tail 3 - 4.
    MaximalConnectedInducedBipartiteSubgraph::init(
        5,
        vec![(0, 1), (1, 2), (2, 3), (3, 0), (0, 2), (3, 4)],
    )
}

fn listings(sets: &[HashSet<usize>]) -> Vec<Vec<usize>> {
    sets.iter().map(|s| set_to_vec(s)).collect()
}

#[test]
fn start_is_the_closure_of_the_empty_set() {
    let s = triangle();
    assert_eq!(set_to_vec(&ProsimitySearchable::start(&s)), vec![0, 1]);
    let s = square_with_tail();
    assert_eq!(set_to_vec(&ProsimitySearchable::start(&s)), vec![0, 1, 3, 4]);
}

#[test]
fn trait_neighbors_are_the_neighbors() {
    let s = square_with_tail();
    let first = ProsimitySearchable::start(&s);
    let by_trait = <MaximalConnectedInducedBipartiteSubgraph as ProsimitySearchable>::neighbors(
        &s, &first,
    );
    let direct = MaximalConnectedInducedBipartiteSubgraph::neighbors(&s, &first);
    assert_eq!(listings(&by_trait), listings(&direct));
    assert_eq!(listings(&by_trait), vec![vec![0, 2], vec![1, 2, 3, 4]]);
}

#[test]
fn neightbors_of_one_vertex_come_in_order() {
    let s = triangle();
    let solution: HashSet<usize> = [0, 1].into_iter().collect();
    let around = s.neightbors(&solution, 2);
    assert_eq!(listings(&around), vec![vec![0, 2], vec![1, 2]]);
}

#[test]
fn neightbors_are_the_pairs_of_neighbors() {
    let s = square_with_tail();
    let solution: HashSet<usize> = [1, 2, 3, 4].into_iter().collect();
    let all = listings(&MaximalConnectedInducedBipartiteSubgraph::neighbors(&s, &solution));
    let around = listings(&s.neightbors(&solution, 0));
    assert_eq!(around.len(), 2);
    assert_eq!(all, around);
}

#[test]
fn proximity_and_canonical_order_are_empty() {
    let s = triangle();
    let a: HashSet<usize> = [0, 1].into_iter().collect();
    let b: HashSet<usize> = [1, 2].into_iter().collect();
    assert!(MaximalConnectedInducedBipartiteSubgraph::proximity(&a, &b).is_empty());
    assert!(s.canonical_order(&a).is_empty());
}

#[test]
fn is_loop_free_looks_at_the_vertices() {
    assert!(Graph::new(3, &vec![(0, 1), (1, 2)]).is_loop_free());
    assert!(!Graph::new(3, &vec![(0, 1), (1, 1)]).is_loop_free());
    assert!(Graph::new(0, &Vec::new()).is_loop_free());
    // A pair outside the vertices joins no vertex to itself.
    assert!(Graph::new(3, &vec![(7, 7)]).is_loop_free());
}
