use proximity_search::bipartite_subgraph::MaximalConnectedInducedBipartiteSubgraph;
use proximity_search::graph::Graph;
use proximity_search::vertex_set::set_to_vec;
use std::collections::HashSet;

fn fixture_edges() -> Vec<(usize, usize)> {
    vec![
        (0, 1),
        (0, 2),
        (0, 3),
        (1, 2),
        (1, 3),
        (2, 3),
        (3, 4),
        (4, 5),
        (5, 6),
        (6, 7),
        (4, 7),
        (2, 5),
        (1, 6),
        (0, 7),
    ]
}

fn fixture() -> MaximalConnectedInducedBipartiteSubgraph {
    MaximalConnectedInducedBipartiteSubgraph::init(8, fixture_edges())
}

fn set(members: &[usize]) -> HashSet<usize> {
    members.iter().copied().collect()
}

fn joined(edges: &[(usize, usize)], u: usize, v: usize) -> bool {
    edges.contains(&(u, v)) || edges.contains(&(v, u))
}

fn members_of(mask: u32, n: usize) -> Vec<usize> {
    (0..n).filter(|v| mask & (1 << v) != 0).collect()
}

/// Connected and two-colourable, decided by a plain search over the
/// subset given as a bit mask.
fn admissible_by_hand(edges: &[(usize, usize)], n: usize, mask: u32) -> bool {
    let members = members_of(mask, n);
    if members.is_empty() {
        return true;
    }
    let mut colour: Vec<Option<bool>> = vec![None; n];
    colour[members[0]] = Some(false);
    let mut waiting = vec![members[0]];
    while let Some(u) = waiting.pop() {
        for &v in &members {
            if joined(edges, u, v) {
                match colour[v] {
                    None => {
                        colour[v] = Some(!colour[u].unwrap());
                        waiting.push(v);
                    }
                    Some(c) => {
                        if c == colour[u].unwrap() {
                            return false;
                        }
                    }
                }
            }
        }
    }
    members.iter().all(|&v| colour[v].is_some())
}

fn maximal_by_hand(edges: &[(usize, usize)], n: usize, mask: u32) -> bool {
    admissible_by_hand(edges, n, mask)
        && (0..n).all(|v| mask & (1 << v) != 0 || !admissible_by_hand(edges, n, mask | (1 << v)))
}

fn all_maximal_by_hand(edges: &[(usize, usize)], n: usize) -> HashSet<Vec<usize>> {
    (0u32..(1 << n))
        .filter(|&mask| maximal_by_hand(edges, n, mask))
        .map(|mask| members_of(mask, n))
        .collect()
}

fn mask_of(members: &[usize]) -> u32 {
    members.iter().fold(0, |m, v| m | (1 << v))
}

#[test]
fn graph_adjacency_is_symmetric() {
    let g = Graph::new(4, &vec![(0, 1), (2, 1), (3, 3)]);
    assert_eq!(g.vertices(), 4);
    assert!(g.adjacent(0, 1));
    assert!(g.adjacent(1, 0));
    assert!(g.adjacent(1, 2));
    assert!(g.adjacent(2, 1));
    assert!(g.adjacent(3, 3));
    assert!(!g.adjacent(0, 2));
    assert!(!g.adjacent(0, 0));
    assert!(!g.adjacent(1, 3));
}

#[test]
fn graph_keeps_pairs_of_large_numbers_apart() {
    let big = usize::MAX;
    let g = Graph::new(3, &vec![(big, 0), (1, big - 1)]);
    assert!(g.adjacent(0, big));
    assert!(g.adjacent(big - 1, 1));
    assert!(!g.adjacent(big, 1));
    assert!(!g.adjacent(big - 1, 0));
    assert!(!g.adjacent(big, big));
}

#[test]
fn is_bipartite_on_the_fixture() {
    let s = fixture();
    assert!(s.is_bipartite(&set(&[])));
    assert!(s.is_bipartite(&set(&[5])));
    assert!(s.is_bipartite(&set(&[0, 1])));
    assert!(!s.is_bipartite(&set(&[0, 1, 2])));
    assert!(!s.is_bipartite(&set(&[0, 1, 2, 3])));
    assert!(s.is_bipartite(&set(&[4, 5, 6, 7])));
    assert!(s.is_bipartite(&set(&[3, 4, 5, 6, 7])));
    assert!(s.is_bipartite(&set(&[0, 4, 6])));
}

#[test]
fn is_bipartite_agrees_with_a_search_by_hand() {
    let s = fixture();
    let edges = fixture_edges();
    for mask in 0u32..256 {
        let members = members_of(mask, 8);
        let mut colour: Vec<Option<bool>> = vec![None; 8];
        let mut proper = true;
        for &root in &members {
            if colour[root].is_some() {
                continue;
            }
            colour[root] = Some(false);
            let mut waiting = vec![root];
            while let Some(u) = waiting.pop() {
                for &v in &members {
                    if joined(&edges, u, v) {
                        match colour[v] {
                            None => {
                                colour[v] = Some(!colour[u].unwrap());
                                waiting.push(v);
                            }
                            Some(c) => proper = proper && c != colour[u].unwrap(),
                        }
                    }
                }
            }
        }
        assert_eq!(s.is_bipartite(&set(&members)), proper, "subset {:?}", members);
    }
}

#[test]
fn a_loop_is_not_bipartite() {
    let s = MaximalConnectedInducedBipartiteSubgraph::init(3, vec![(0, 1), (2, 2)]);
    assert!(s.is_bipartite(&set(&[0, 1])));
    assert!(!s.is_bipartite(&set(&[2])));
    assert!(!s.is_bipartite(&set(&[0, 1, 2])));
}

#[test]
fn is_connected_on_the_fixture() {
    let s = fixture();
    assert!(s.is_connected(&set(&[])));
    assert!(s.is_connected(&set(&[6])));
    assert!(s.is_connected(&set(&[0, 1, 2, 3])));
    assert!(!s.is_connected(&set(&[0, 4])));
    assert!(!s.is_connected(&set(&[0, 5, 6])));
    assert!(s.is_connected(&set(&[0, 7, 6, 5])));
    assert!(s.is_connected(&set(&[0, 1, 2, 3, 4, 5, 6, 7])));
}

#[test]
fn cc_gives_the_component_of_the_vertex() {
    let s = fixture();
    assert_eq!(set_to_vec(&s.cc(&set(&[]), 3)), Vec::<usize>::new());
    assert_eq!(set_to_vec(&s.cc(&set(&[0, 4, 5]), 0)), vec![0]);
    assert_eq!(set_to_vec(&s.cc(&set(&[0, 4, 5]), 5)), vec![4, 5]);
    assert_eq!(set_to_vec(&s.cc(&set(&[0, 1, 4, 5, 7]), 4)), vec![0, 1, 4, 5, 7]);
    assert_eq!(set_to_vec(&s.cc(&set(&[1, 3, 5, 7]), 7)), vec![7]);
    assert_eq!(set_to_vec(&s.cc(&set(&[1, 3, 5, 7]), 1)), vec![1, 3]);
}

#[test]
fn bipartition_puts_the_least_member_first() {
    let s = fixture();
    let (b_0, b_1) = s.bipartition(&set(&[4, 5, 6, 7]));
    assert_eq!(set_to_vec(&b_0), vec![4, 6]);
    assert_eq!(set_to_vec(&b_1), vec![5, 7]);
    let (b_0, b_1) = s.bipartition(&set(&[3, 4, 5, 7]));
    assert_eq!(set_to_vec(&b_0), vec![3, 5, 7]);
    assert_eq!(set_to_vec(&b_1), vec![4]);
    let (b_0, b_1) = s.bipartition(&set(&[2]));
    assert_eq!(set_to_vec(&b_0), vec![2]);
    assert_eq!(set_to_vec(&b_1), Vec::<usize>::new());
    let (b_0, b_1) = s.bipartition(&set(&[]));
    assert!(b_0.is_empty());
    assert!(b_1.is_empty());
}

#[test]
fn comp_of_the_empty_set_on_a_triangle() {
    let s = MaximalConnectedInducedBipartiteSubgraph::init(3, vec![(0, 1), (1, 2), (2, 0)]);
    assert_eq!(set_to_vec(&s.comp(HashSet::new())), vec![0, 1]);
    assert_eq!(set_to_vec(&s.comp(set(&[2]))), vec![0, 2]);
    assert_eq!(set_to_vec(&s.comp(set(&[1, 2]))), vec![1, 2]);
}

#[test]
fn comp_starts_over_after_every_addition() {
    // 0 - 2 - 1: from the seed {2}, vertex 0 is added first, then the
    // scan starts over and adds 1.
    let s = MaximalConnectedInducedBipartiteSubgraph::init(4, vec![(0, 2), (2, 1), (1, 3)]);
    assert_eq!(set_to_vec(&s.comp(set(&[2]))), vec![0, 1, 2, 3]);
    // From the empty set: 0 alone, then 1 is not joined to it, 2 is;
    // after the restart 1 can join, and then 3.
    assert_eq!(set_to_vec(&s.comp(HashSet::new())), vec![0, 1, 2, 3]);
}

#[test]
fn comp_of_zero_one_on_the_fixture_is_maximal() {
    let s = fixture();
    let closed = set_to_vec(&s.comp(set(&[0, 1])));
    assert!(closed.contains(&0) && closed.contains(&1));
    assert!(maximal_by_hand(&fixture_edges(), 8, mask_of(&closed)));
    assert_eq!(closed, vec![0, 1, 4, 5, 6, 7]);
}

#[test]
fn comp_leaves_a_maximal_set_as_it_is() {
    let s = fixture();
    let edges = fixture_edges();
    for members in all_maximal_by_hand(&edges, 8) {
        assert_eq!(set_to_vec(&s.comp(set(&members))), members);
    }
}

#[test]
fn comp_gives_a_maximal_set_for_every_admissible_seed() {
    let s = fixture();
    let edges = fixture_edges();
    for mask in 0u32..256 {
        if admissible_by_hand(&edges, 8, mask) {
            let seed = members_of(mask, 8);
            let closed = set_to_vec(&s.comp(set(&seed)));
            assert!(seed.iter().all(|v| closed.contains(v)));
            assert!(maximal_by_hand(&edges, 8, mask_of(&closed)), "seed {:?}", seed);
        }
    }
}

#[test]
fn neighbors_of_an_edge_of_the_triangle() {
    let s = MaximalConnectedInducedBipartiteSubgraph::init(3, vec![(0, 1), (1, 2), (2, 0)]);
    let found: Vec<Vec<usize>> =
        s.neighbors(&set(&[0, 1])).iter().map(|n| set_to_vec(n)).collect();
    assert_eq!(found, vec![vec![0, 2], vec![1, 2]]);
}

#[test]
fn neighbors_come_in_pairs_and_are_maximal() {
    let s = fixture();
    let edges = fixture_edges();
    for members in all_maximal_by_hand(&edges, 8) {
        let found = s.neighbors(&set(&members));
        assert_eq!(found.len(), 2 * (8 - members.len()));
        for (i, n) in found.iter().enumerate() {
            let listing = set_to_vec(n);
            assert!(maximal_by_hand(&edges, 8, mask_of(&listing)));
            let outside: Vec<usize> = (0..8).filter(|v| !members.contains(v)).collect();
            assert!(listing.contains(&outside[i / 2]));
        }
    }
}

#[test]
fn run_on_a_path_finds_the_whole_path() {
    let mut s = MaximalConnectedInducedBipartiteSubgraph::init(3, vec![(0, 1), (1, 2)]);
    s.run();
    assert_eq!(s.solutions, vec![vec![0, 1, 2]]);
    assert_eq!(s.edges, Vec::<(usize, usize)>::new());
    assert_eq!(s.index(&vec![0, 1, 2]), Some(0));
    assert_eq!(s.index(&vec![0, 1]), None);
}

#[test]
fn run_on_a_triangle() {
    let mut s = MaximalConnectedInducedBipartiteSubgraph::init(3, vec![(0, 1), (1, 2), (2, 0)]);
    s.run();
    assert_eq!(s.solutions, vec![vec![0, 1], vec![0, 2], vec![1, 2]]);
    assert_eq!(s.edges, vec![(0, 1), (1, 0), (1, 2), (2, 0), (2, 1), (0, 2)]);
    assert_eq!(s.index(&vec![1, 2]), Some(2));
}

#[test]
fn run_on_the_graph_without_vertices() {
    let mut s = MaximalConnectedInducedBipartiteSubgraph::init(0, Vec::new());
    s.run();
    assert_eq!(s.solutions, vec![Vec::<usize>::new()]);
    assert!(s.edges.is_empty());
}

#[test]
fn run_on_vertices_without_edges() {
    let mut s = MaximalConnectedInducedBipartiteSubgraph::init(3, Vec::new());
    s.run();
    assert_eq!(s.solutions, vec![vec![0], vec![1], vec![2]]);
    assert_eq!(s.edges.len(), 3 * 4);
}

#[test]
fn run_finds_all_maximal_sets_of_the_fixture() {
    let mut s = fixture();
    s.run();
    let found: HashSet<Vec<usize>> = s.solutions.iter().cloned().collect();
    assert_eq!(found, all_maximal_by_hand(&fixture_edges(), 8));
    assert!(!found.contains(&vec![0, 1, 2, 3]));
}

#[test]
fn run_gives_every_solution_one_index() {
    let mut s = fixture();
    s.run();
    let distinct: HashSet<Vec<usize>> = s.solutions.iter().cloned().collect();
    assert_eq!(distinct.len(), s.solutions.len());
    for (i, listing) in s.solutions.iter().enumerate() {
        assert_eq!(s.index(listing), Some(i));
    }
}

#[test]
fn run_finds_only_connected_bipartite_maximal_sets() {
    let mut s = fixture();
    s.run();
    let edges = fixture_edges();
    for listing in &s.solutions {
        let members = set(listing);
        assert!(s.is_bipartite(&members));
        assert!(s.is_connected(&members));
        for v in 0..8 {
            if !members.contains(&v) {
                let mut more = members.clone();
                more.insert(v);
                assert!(!(s.is_bipartite(&more) && s.is_connected(&more)));
            }
        }
        assert!(maximal_by_hand(&edges, 8, mask_of(listing)));
    }
}

#[test]
fn run_links_every_solution_to_its_neighbours() {
    let mut s = fixture();
    s.run();
    let mut at = 0;
    let mut linked = vec![false; s.solutions.len()];
    linked[0] = true;
    let mut per_parent: Vec<Vec<usize>> = vec![Vec::new(); s.solutions.len()];
    for &(u, v) in &s.edges {
        assert!(u < s.solutions.len() && v < s.solutions.len());
        if !linked[v] {
            assert!(u < v);
            linked[v] = true;
        }
        per_parent[u].push(v);
        at += 1;
    }
    assert_eq!(at, s.edges.len());
    assert!(linked.iter().all(|&l| l));
    for (u, listing) in s.solutions.iter().enumerate() {
        let around: Vec<usize> = s
            .neighbors(&set(listing))
            .iter()
            .map(|n| s.index(&set_to_vec(n)).unwrap())
            .collect();
        assert_eq!(per_parent[u], around);
    }
}

#[test]
fn run_twice_gives_the_same_result() {
    let mut a = fixture();
    let mut b = fixture();
    a.run();
    b.run();
    assert_eq!(a.solutions, b.solutions);
    assert_eq!(a.edges, b.edges);
    let solutions = a.solutions.clone();
    let edges = a.edges.clone();
    a.run();
    assert_eq!(a.solutions, solutions);
    assert_eq!(a.edges, edges);
}

#[test]
fn run_does_not_depend_on_the_order_of_the_edges() {
    let mut a = fixture();
    let mut reversed: Vec<(usize, usize)> =
        fixture_edges().into_iter().map(|(u, v)| (v, u)).collect();
    reversed.reverse();
    let mut b = MaximalConnectedInducedBipartiteSubgraph::init(8, reversed);
    a.run();
    b.run();
    assert_eq!(a.solutions, b.solutions);
    assert_eq!(a.edges, b.edges);
}

#[test]
fn enumerate_runs_the_search() {
    let found = MaximalConnectedInducedBipartiteSubgraph::enumerate(
        3,
        vec![(0, 1), (1, 2), (2, 0)],
    )
    .unwrap();
    assert_eq!(found.solutions, vec![vec![0, 1], vec![0, 2], vec![1, 2]]);
    assert_eq!(found.edges, vec![(0, 1), (1, 0), (1, 2), (2, 0), (2, 1), (0, 2)]);
    let mut by_hand = fixture();
    by_hand.run();
    let found = MaximalConnectedInducedBipartiteSubgraph::enumerate(8, fixture_edges()).unwrap();
    assert_eq!(found.solutions, by_hand.solutions);
    assert_eq!(found.edges, by_hand.edges);
}

#[test]
fn enumerate_refuses_a_loop() {
    assert!(MaximalConnectedInducedBipartiteSubgraph::enumerate(3, vec![(0, 1), (2, 2)]).is_none());
    // A pair that joins no vertex of the graph is no loop of it.
    assert!(MaximalConnectedInducedBipartiteSubgraph::enumerate(3, vec![(0, 1), (5, 5)]).is_some());
}

#[test]
fn enumerate_refuses_too_many_vertices() {
    assert!(MaximalConnectedInducedBipartiteSubgraph::enumerate(usize::MAX, Vec::new()).is_none());
    assert!(
        MaximalConnectedInducedBipartiteSubgraph::enumerate(usize::MAX / 2 + 1, Vec::new())
            .is_none()
    );
}

#[test]
fn init_starts_with_nothing_found() {
    let s = fixture();
    assert!(s.solutions.is_empty());
    assert!(s.edges.is_empty());
    assert_eq!(s.graph.vertices(), 8);
    assert_eq!(s.index(&vec![0, 1]), None);
}

#[test]
fn the_square_has_one_solution() {
    let mut s = MaximalConnectedInducedBipartiteSubgraph::init(
        4,
        vec![(0, 1), (1, 2), (2, 3), (3, 0)],
    );
    s.run();
    assert_eq!(s.solutions, vec![vec![0, 1, 2, 3]]);
    assert!(s.edges.is_empty());
    let (b_0, b_1) = s.bipartition(&set(&[0, 1, 2, 3]));
    assert_eq!(set_to_vec(&b_0), vec![0, 2]);
    assert_eq!(set_to_vec(&b_1), vec![1, 3]);
}
