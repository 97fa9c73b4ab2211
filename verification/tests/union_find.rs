use draw::algorithms::generic_union::GenericUnion;
use draw::algorithms::union_find::{QuickFind, QuickUnion, WeightedQuickUnion};
use draw::algorithms::components::{group_by_key, largest_first_indices};

#[test]
fn quick_find_joins_components() {
    let mut uf = QuickFind::new(6);
    uf.union(0, 1);
    uf.union(2, 3);
    uf.union(1, 3);
    assert_eq!(uf.nodes, vec![3, 3, 3, 3, 4, 5]);
    assert!(uf.is_connected(0, 2));
    assert!(!uf.is_connected(0, 4));
    assert_eq!(uf.get_components(), vec![vec![0, 1, 2, 3], vec![4], vec![5]]);
}

#[test]
fn quick_find_union_of_joined_nodes_changes_nothing() {
    let mut uf = QuickFind::new(4);
    uf.union(0, 1);
    let before = uf.nodes.clone();
    uf.union(1, 0);
    assert_eq!(uf.nodes, before);
}

#[test]
fn quick_union_links_roots() {
    let mut uf = QuickUnion::new(6);
    uf.union(0, 1);
    uf.union(2, 3);
    uf.union(1, 3);
    assert_eq!(uf.nodes, vec![1, 3, 3, 3, 4, 5]);
    assert!(uf.is_connected(0, 2));
    assert!(!uf.is_connected(5, 4));
    assert_eq!(uf.get_components(), vec![vec![0, 1, 2, 3], vec![4], vec![5]]);
    assert_eq!(uf.tree_depth_total(), 4);
}

#[test]
fn weighted_quick_union_with_compression() {
    let mut uf = WeightedQuickUnion::new(6, true);
    uf.union(0, 1);
    uf.union(2, 3);
    uf.union(1, 3);
    uf.union(4, 5);
    assert_eq!(uf.nodes, vec![0, 0, 0, 0, 4, 4]);
    assert_eq!(uf.sizes, vec![4, 0, 0, 0, 2, 0]);
    assert_eq!(uf.root(3), 0);
    assert!(uf.is_connected(1, 2));
    assert!(!uf.is_connected(3, 5));
    assert_eq!(uf.get_components(), vec![vec![0, 1, 2, 3], vec![4, 5]]);
    assert_eq!(uf.tree_depth_total(), 4);
    assert_eq!(uf.get_roots_of_largest_components(10), vec![0, 4]);
    assert_eq!(uf.get_roots_of_largest_components(1), vec![0]);
    assert_eq!(uf.get_roots_of_largest_components(0), Vec::<usize>::new());
}

#[test]
fn weighted_quick_union_without_compression_keeps_long_paths() {
    let mut uf = WeightedQuickUnion::new(4, false);
    uf.union(0, 1);
    uf.union(2, 3);
    uf.union(3, 1);
    // The roots 2 and 0 have equal sizes, so the root of `p`'s component, 2, wins.
    assert_eq!(uf.nodes, vec![2, 0, 2, 2]);
    assert_eq!(uf.tree_depth_total(), 4);
}

#[test]
fn smaller_tree_hangs_under_larger() {
    let mut uf = WeightedQuickUnion::new(5, true);
    uf.union(0, 1);
    uf.union(0, 2);
    uf.union(3, 0);
    assert_eq!(uf.root(3), 0);
    assert_eq!(uf.sizes[0], 4);
}

#[test]
fn generic_union_matches_weighted_quick_union() {
    let pairs = [(0usize, 1usize), (2, 3), (1, 3), (4, 5), (6, 6), (7, 5)];
    let mut wqu = WeightedQuickUnion::new(8, true);
    let mut generic: GenericUnion<u16> = GenericUnion::new(8u16);
    for (p, q) in pairs.iter() {
        wqu.union(*p, *q);
        generic.union(*p as u16, *q as u16);
    }
    for p in 0..8usize {
        for q in 0..8usize {
            assert_eq!(wqu.is_connected(p, q), generic.is_connected(p as u16, q as u16));
        }
    }
    let generic_nodes: Vec<usize> = generic.nodes.iter().map(|x| *x as usize).collect();
    assert_eq!(generic_nodes, wqu.nodes);
}

#[test]
fn generic_union_lists() {
    let mut uf: GenericUnion<u8> = GenericUnion::new(6u8);
    uf.union_list(&[(0, 1), (1, 2), (4, 5)]);
    assert_eq!(uf.count_is_connected_list(&[(0, 2), (2, 3), (5, 4), (3, 3)]), 3);
    assert_eq!(uf.get_components(), vec![vec![0u8, 1, 2], vec![3], vec![4, 5]]);
    assert_eq!(uf.get_roots_of_largest_components(5), vec![0u8, 4]);
    assert_eq!(uf.root(2), 0);
    assert_eq!(uf.tree_depth_total(), 3);
}

#[test]
fn generic_union_fresh_is_singletons() {
    let uf: GenericUnion<u32> = GenericUnion::new(3u32);
    assert_eq!(uf.get_components(), vec![vec![0u32], vec![1], vec![2]]);
    assert!(uf.get_roots_of_largest_components(3).is_empty());
    assert_eq!(uf.tree_depth_total(), 0);
}

#[test]
fn group_by_key_groups_in_key_order() {
    let groups = group_by_key(&vec![2, 0, 2, 1, 0], 3);
    assert_eq!(groups, vec![vec![1, 4], vec![3], vec![0, 2]]);
}

#[test]
fn largest_first_keeps_index_order_among_equals() {
    assert_eq!(largest_first_indices(&vec![0, 3, 2, 3, 1, 5], 3), vec![5, 1, 3]);
    assert_eq!(largest_first_indices(&vec![1, 1, 1], 5), Vec::<usize>::new());
}

#[test]
fn pairs_convert_to_the_node_type() {
    let pairs = vec![(0usize, 3usize), (255, 7)];
    let converted: Vec<(u8, u8)> = draw::algorithms::generic_union::converted_pairs(&pairs);
    assert_eq!(converted, vec![(0u8, 3u8), (255, 7)]);
    let wide: Vec<(u32, u32)> = draw::algorithms::generic_union::converted_pairs(&pairs);
    assert_eq!(wide, vec![(0u32, 3u32), (255, 7)]);
}

#[test]
fn compression_points_walked_paths_at_the_root() {
    let mut uf = WeightedQuickUnion::new(6, true);
    uf.union(0, 1);
    uf.union(2, 3);
    uf.union(0, 2);
    assert_eq!(uf.nodes, vec![0, 0, 0, 2, 4, 5]);
    uf.union(3, 4);
    assert_eq!(uf.nodes, vec![0, 0, 0, 0, 0, 5]);
    assert_eq!(uf.sizes, vec![5, 0, 0, 0, 0, 1]);
    assert_eq!(uf.tree_depth_total(), 4);
    let mut generic: GenericUnion<u16> = GenericUnion::new(6);
    generic.union(0, 1);
    generic.union(2, 3);
    generic.union(0, 2);
    generic.union(3, 4);
    assert_eq!(generic.nodes, vec![0u16, 0, 0, 0, 0, 5]);
    assert_eq!(generic.tree_depth_total(), 4);
}

#[test]
fn union_structures_agree_after_the_same_unions() {
    let n = 12usize;
    let pairs = vec![(0, 1), (2, 3), (1, 3), (5, 6), (7, 5), (11, 10), (4, 4), (9, 8), (8, 11), (3, 0)];
    let mut qf = QuickFind::new(n);
    let mut qu = QuickUnion::new(n);
    let mut wqu = WeightedQuickUnion::new(n, false);
    let mut wqup = WeightedQuickUnion::new(n, true);
    let mut gu: GenericUnion<u16> = GenericUnion::new(n as u16);
    for &(p, q) in pairs.iter() {
        qf.union(p, q);
        qu.union(p, q);
        wqu.union(p, q);
        wqup.union(p, q);
    }
    gu.union_list(&pairs);
    let mut queries = vec![];
    for p in 0..n {
        for q in 0..n {
            let c = qf.is_connected(p, q);
            assert_eq!(qu.is_connected(p, q), c);
            assert_eq!(wqu.is_connected(p, q), c);
            assert_eq!(wqup.is_connected(p, q), c);
            assert_eq!(gu.is_connected(p as u16, q as u16), c);
            queries.push((p, q));
        }
    }
    let connected = queries.iter().filter(|&&(p, q)| wqup.is_connected(p, q)).count();
    assert_eq!(gu.count_is_connected_list(&queries), connected);
    assert!(qf.is_connected(0, 2) && qf.is_connected(8, 10) && !qf.is_connected(0, 4));
}

#[test]
fn weighted_union_keeps_trees_within_log2_depth() {
    let n = 16usize;
    let mut w = WeightedQuickUnion::new(n, false);
    for step in [1usize, 2, 4, 8] {
        let mut i = 0;
        while i < n {
            w.union(i, i + step);
            i += 2 * step;
        }
    }
    // Equal halves merged four times: a binomial tree, no node deeper than log2(16) = 4.
    assert_eq!(w.tree_depth_total(), 32);
    assert_eq!(w.sizes[0], 16);
    for i in 0..n {
        assert_eq!(w.root(i), 0);
    }
}
