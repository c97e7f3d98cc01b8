//! Traversal orders: the fixture sequences, coverage of every occupied
//! position, and the exclusive mutation pass.

use complete_tree::index::traverse as coords;
use complete_tree::slice_tree::traverse::{
    InOrder, InOrderMut, PostOrder, PostOrderMut, PreOrder, PreOrderMut,
};
use complete_tree::traverse;
use complete_tree::SliceTree;

fn heap7() -> SliceTree<2, u64> {
    SliceTree::new(vec![0, 1, 2, 3, 4, 5, 6])
}

#[test]
fn fixture_level_order() {
    let tree = heap7();
    let mut walk = coords::LevelOrder::<2>::new(tree.len());
    let mut seen = Vec::new();
    while let Some(idx) = walk.next() {
        seen.push(*tree.get_flat(idx.to_flattened()).unwrap());
    }
    assert_eq!(seen, vec![0, 1, 2, 3, 4, 5, 6]);
}

#[test]
fn fixture_pre_order() {
    let tree = heap7();
    let mut walk = PreOrder::new(&tree);
    let mut seen = Vec::new();
    while let Some(v) = walk.next() {
        seen.push(*v);
    }
    assert_eq!(seen, vec![0, 1, 3, 4, 2, 5, 6]);
}

#[test]
fn fixture_post_order() {
    let tree = heap7();
    let mut walk = PostOrder::new(&tree);
    let mut seen = Vec::new();
    while let Some(v) = walk.next() {
        seen.push(*v);
    }
    assert_eq!(seen, vec![3, 4, 1, 5, 6, 2, 0]);
}

#[test]
fn fixture_in_order() {
    let tree = heap7();
    let mut walk = InOrder::new(&tree);
    let mut seen = Vec::new();
    while let Some(v) = walk.next() {
        seen.push(*v);
    }
    assert_eq!(seen, vec![3, 1, 4, 0, 5, 2, 6]);
}

#[test]
fn partial_last_level_pre_order() {
    let tree: SliceTree<2, u64> = SliceTree::new(vec![0, 1, 2, 3]);
    let mut walk = PreOrder::new(&tree);
    let mut seen = Vec::new();
    while let Some(v) = walk.next() {
        seen.push(*v);
    }
    assert_eq!(seen, vec![0, 1, 3, 2]);
}

#[test]
fn exclusive_pre_order_increments_each_node_once() {
    let tree: SliceTree<2, u64> = SliceTree::new(vec![0, 1, 2, 3, 4, 5, 6]);
    let mut pass = PreOrderMut::new(tree);
    let mut positions = Vec::new();
    while let Some(p) = pass.next() {
        positions.push(p);
        let v = *pass.get(p).unwrap();
        pass.set(p, v + 1).unwrap();
    }
    assert_eq!(positions.len(), 7);
    let mut sorted = positions.clone();
    sorted.sort();
    assert_eq!(sorted, vec![0, 1, 2, 3, 4, 5, 6]);
    let out = pass.into_tree().into_vec();
    assert_eq!(out, vec![1, 2, 3, 4, 5, 6, 7]);
}

#[test]
fn exclusive_post_order_rewrites_each_node_once() {
    let tree: SliceTree<3, i32> = SliceTree::new(vec![10, 20, 30, 40, 50]);
    let mut pass = PostOrderMut::new(tree);
    let mut positions = Vec::new();
    while let Some(p) = pass.next() {
        positions.push(p);
        let v = *pass.get(p).unwrap();
        pass.set(p, -v).unwrap();
    }
    let mut sorted = positions.clone();
    sorted.sort();
    assert_eq!(sorted, vec![0, 1, 2, 3, 4]);
    assert_eq!(pass.into_tree().into_vec(), vec![-10, -20, -30, -40, -50]);
}

#[test]
fn exclusive_in_order_visits_like_the_shared_walk() {
    let tree: SliceTree<2, u64> = SliceTree::new(vec![0, 1, 2, 3, 4, 5, 6]);
    let mut pass = InOrderMut::new(tree);
    let mut positions = Vec::new();
    while let Some(p) = pass.next() {
        positions.push(p);
    }
    assert_eq!(positions, vec![3, 1, 4, 0, 5, 2, 6]);
    assert_eq!(pass.into_tree().into_vec(), vec![0, 1, 2, 3, 4, 5, 6]);
}

fn collect_pre<const N: usize>(len: usize) -> Vec<usize> {
    let mut walk = coords::PreOrder::<N>::new(len);
    let mut seen = Vec::new();
    while let Some(idx) = walk.next() {
        seen.push(idx.to_flattened());
    }
    seen
}

fn collect_post<const N: usize>(len: usize) -> Vec<usize> {
    let mut walk = coords::PostOrder::<N>::new(len);
    let mut seen = Vec::new();
    while let Some(idx) = walk.next() {
        seen.push(idx.to_flattened());
    }
    seen
}

fn collect_in(len: usize) -> Vec<usize> {
    let mut walk = coords::InOrder::new(len);
    let mut seen = Vec::new();
    while let Some(idx) = walk.next() {
        seen.push(idx.to_flattened());
    }
    seen
}

fn collect_level<const N: usize>(len: usize) -> Vec<usize> {
    let mut walk = coords::LevelOrder::<N>::new(len);
    let mut seen = Vec::new();
    while let Some(idx) = walk.next() {
        seen.push(idx.to_flattened());
    }
    seen
}

fn is_permutation_of_range(mut seen: Vec<usize>, len: usize) -> bool {
    if seen.len() != len {
        return false;
    }
    seen.sort();
    seen.iter().enumerate().all(|(i, &p)| i == p)
}

#[test]
fn every_order_covers_every_occupied_position() {
    for len in 0..40usize {
        assert!(is_permutation_of_range(collect_level::<2>(len), len));
        assert!(is_permutation_of_range(collect_pre::<2>(len), len));
        assert!(is_permutation_of_range(collect_post::<2>(len), len));
        assert!(is_permutation_of_range(collect_in(len), len));
        assert!(is_permutation_of_range(collect_pre::<3>(len), len));
        assert!(is_permutation_of_range(collect_post::<3>(len), len));
        assert!(is_permutation_of_range(collect_pre::<1>(len), len));
        assert!(is_permutation_of_range(collect_post::<1>(len), len));
        assert!(is_permutation_of_range(collect_pre::<5>(len), len));
        assert!(is_permutation_of_range(collect_post::<5>(len), len));
    }
}

#[test]
fn empty_tree_yields_nothing() {
    assert_eq!(collect_pre::<2>(0), Vec::<usize>::new());
    assert_eq!(collect_post::<2>(0), Vec::<usize>::new());
    assert_eq!(collect_in(0), Vec::<usize>::new());
    assert_eq!(collect_level::<2>(0), Vec::<usize>::new());
    let tree: SliceTree<2, u8> = SliceTree::new(Vec::new());
    let mut walk = InOrder::new(&tree);
    assert!(walk.next().is_none());
    assert!(walk.next().is_none());
}

#[test]
fn single_node_tree_yields_the_root_once() {
    assert_eq!(collect_pre::<3>(1), vec![0]);
    assert_eq!(collect_post::<3>(1), vec![0]);
    assert_eq!(collect_in(1), vec![0]);
    assert_eq!(collect_level::<3>(1), vec![0]);
}

#[test]
fn unary_tree_orders_are_the_chain() {
    assert_eq!(collect_pre::<1>(4), vec![0, 1, 2, 3]);
    assert_eq!(collect_post::<1>(4), vec![3, 2, 1, 0]);
    assert_eq!(collect_level::<1>(4), vec![0, 1, 2, 3]);
}

#[test]
fn ternary_pre_and_post_orders() {
    // 13 nodes: a full ternary tree of depth 2
    assert_eq!(
        collect_pre::<3>(13),
        vec![0, 1, 4, 5, 6, 2, 7, 8, 9, 3, 10, 11, 12]
    );
    assert_eq!(
        collect_post::<3>(13),
        vec![4, 5, 6, 1, 7, 8, 9, 2, 10, 11, 12, 3, 0]
    );
}

#[test]
fn level_order_walks_backwards_too() {
    let mut walk = coords::LevelOrder::<2>::new(5);
    assert_eq!(walk.len(), 5);
    assert_eq!(walk.next_back().unwrap().to_flattened(), 4);
    assert_eq!(walk.next().unwrap().to_flattened(), 0);
    assert_eq!(walk.next_back().unwrap().to_flattened(), 3);
    assert_eq!(walk.len(), 2);
    assert_eq!(walk.next().unwrap().to_flattened(), 1);
    assert_eq!(walk.next().unwrap().to_flattened(), 2);
    assert!(walk.next().is_none());
    assert!(walk.next_back().is_none());
}

#[test]
fn generic_walkers_hand_out_nodes() {
    let tree: SliceTree<2, u64> = SliceTree::new(vec![0, 1, 2, 3, 4, 5, 6]);

    let mut walk = traverse::PreOrder::new(&tree);
    let mut seen = Vec::new();
    while let Some(v) = walk.next() {
        seen.push(*v);
    }
    assert_eq!(seen, vec![0, 1, 3, 4, 2, 5, 6]);

    let mut walk = traverse::PostOrder::new(&tree);
    let mut seen = Vec::new();
    while let Some(v) = walk.next() {
        seen.push(*v);
    }
    assert_eq!(seen, vec![3, 4, 1, 5, 6, 2, 0]);

    let mut walk = traverse::TraverseInOrder::new(&tree);
    let mut seen = Vec::new();
    while let Some(v) = walk.next() {
        seen.push(*v);
    }
    assert_eq!(seen, vec![3, 1, 4, 0, 5, 2, 6]);

    let mut walk = traverse::LevelOrder::new(&tree);
    assert_eq!(walk.len(), 7);
    assert_eq!(walk.next(), Some(&0));
    assert_eq!(walk.next_back(), Some(&6));
    assert_eq!(walk.next(), Some(&1));
    assert_eq!(walk.len(), 4);
}

#[test]
fn generic_walkers_over_a_ternary_view() {
    let tree: SliceTree<3, i16> = SliceTree::new(vec![9, 8, 7, 6, 5]);
    let mut walk = traverse::PreOrder::new(&tree);
    let mut seen = Vec::new();
    while let Some(v) = walk.next() {
        seen.push(*v);
    }
    assert_eq!(seen, vec![9, 8, 5, 7, 6]);
    let mut walk = traverse::PostOrder::new(&tree);
    let mut seen = Vec::new();
    while let Some(v) = walk.next() {
        seen.push(*v);
    }
    assert_eq!(seen, vec![5, 8, 7, 6, 9]);
}
