use proximity_search::union_find::UnionFind;

#[test]
fn for_union_find() {
    let queries = vec![
        (0, 1, 2),
        (0, 3, 2),
        (1, 1, 3),
        (1, 1, 4),
        (0, 2, 4),
        (1, 4, 1),
        (0, 4, 2),
        (0, 0, 0),
        (1, 0, 0),
    ];
    let ans = vec![true, false, true, true];
    let n = 8;
    let mut uf_tree = UnionFind::new(n);
    let mut index = 0;
    for &(i, x, y) in queries.iter() {
        if i == 0 {
            uf_tree.unite(x, y);
        } else {
            assert_eq!(uf_tree.same(x, y), ans[index]);
            index += 1;
        }
    }
}

#[test]
fn for_count_uftree() {
    let n = 5;
    let edges = vec![(1, 2, 1), (2, 3, 2), (4, 2, 5), (3, 5, 14)];
    let mut tree = UnionFind::new(n);
    let mut value = 0;
    for (u, v, w) in edges {
        value += w * tree.count(u - 1) * tree.count(v - 1);
        tree.unite(u - 1, v - 1);
    }
    assert_eq!(value, 76);
}

#[test]
fn new_forest_is_discrete() {
    let mut tree = UnionFind::new(6);
    for x in 0..6 {
        assert_eq!(tree.find(x), x);
        assert_eq!(tree.count(x), 1);
        for y in 0..6 {
            assert_eq!(tree.same(x, y), x == y);
        }
    }
}

#[test]
fn unite_reports_whether_it_merged() {
    let mut tree = UnionFind::new(4);
    assert!(tree.unite(0, 1));
    assert!(!tree.unite(1, 0));
    assert!(!tree.unite(0, 0));
    assert!(tree.unite(2, 3));
    assert!(tree.unite(1, 3));
    assert!(!tree.unite(0, 2));
    assert_eq!(tree.count(3), 4);
}

#[test]
fn unite_keeps_the_representative_of_greater_rank() {
    let mut tree = UnionFind::new(5);
    // Equal ranks: the representative of the first argument survives.
    tree.unite(3, 4);
    assert_eq!(tree.find(4), 3);
    assert_eq!(tree.find(3), 3);
    // The set of 3 has rank one now; a singleton joins below it.
    tree.unite(0, 4);
    assert_eq!(tree.find(0), 3);
    tree.unite(1, 2);
    assert_eq!(tree.find(2), 1);
    // Equal ranks again: the first argument's representative survives.
    tree.unite(2, 0);
    assert_eq!(tree.find(3), 1);
    assert_eq!(tree.find(4), 1);
    assert_eq!(tree.count(0), 5);
}

#[test]
fn find_leaves_the_sets_as_they_are() {
    let mut tree = UnionFind::new(7);
    tree.unite(0, 1);
    tree.unite(2, 3);
    tree.unite(0, 2);
    tree.unite(5, 6);
    let before: Vec<usize> = (0..7).map(|x| tree.find(x)).collect();
    let again: Vec<usize> = (0..7).map(|x| tree.find(x)).collect();
    assert_eq!(before, again);
    assert_eq!(tree.count(3), 4);
    assert_eq!(tree.count(4), 1);
    assert_eq!(tree.count(6), 2);
}

#[test]
fn to_vec_lists_the_sets_by_representative() {
    let mut tree = UnionFind::new(7);
    assert_eq!(
        tree.to_vec(),
        vec![vec![0], vec![1], vec![2], vec![3], vec![4], vec![5], vec![6]]
    );
    tree.unite(5, 1);
    tree.unite(2, 6);
    tree.unite(1, 6);
    tree.unite(3, 0);
    // 5 represents {1, 2, 5, 6}, 3 represents {0, 3}, 4 stands alone.
    assert_eq!(tree.to_vec(), vec![vec![0, 3], vec![4], vec![1, 2, 5, 6]]);
    assert_eq!(tree.find(2), 5);
    assert_eq!(tree.find(0), 3);
}

#[test]
fn to_vec_of_the_empty_forest() {
    let mut tree = UnionFind::new(0);
    assert_eq!(tree.to_vec(), Vec::<Vec<usize>>::new());
}
