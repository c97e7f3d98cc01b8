//! The tree view over an owned sequence: bounded access by coordinate, the
//! derived navigation accessors, and the capability traits.

use complete_tree::{CompleteBinaryTree, CompleteTree, Index, SliceTree};

#[test]
fn wraps_and_releases_the_backing_sequence() {
    let tree: SliceTree<2, u64> = SliceTree::new(vec![7, 8, 9]);
    assert_eq!(SliceTree::len(&tree), 3);
    assert!(!tree.is_empty());
    assert_eq!(tree.as_ref(), &vec![7, 8, 9]);
    assert_eq!(tree.into_vec(), vec![7, 8, 9]);
    let empty: SliceTree<2, u64> = SliceTree::new(Vec::new());
    assert!(empty.is_empty());
}

#[test]
fn get_and_set_by_flat_position() {
    let mut tree: SliceTree<3, u64> = SliceTree::new(vec![1, 2, 3]);
    assert_eq!(tree.get_flat(0), Some(&1));
    assert_eq!(tree.get_flat(2), Some(&3));
    assert_eq!(tree.get_flat(3), None);
    assert_eq!(tree.set_flat(1, 20), Some(2));
    assert_eq!(tree.get_flat(1), Some(&20));
    assert_eq!(tree.set_flat(3, 40), None);
    assert_eq!(tree.into_vec(), vec![1, 20, 3]);
}

#[test]
fn node_access_by_coordinate() {
    let tree: SliceTree<2, u64> = SliceTree::new(vec![0, 1, 2, 3]);
    let one = Index::<2>::from_flattened(1);
    assert_eq!(tree.node(one), Some(&1));
    let three = Index::<2>::from_flattened(3);
    assert_eq!(tree.node(three), Some(&3));
    let four = Index::<2>::from_flattened(4);
    assert_eq!(tree.node(four), None);
}

#[test]
fn set_node_gives_exclusive_access() {
    let mut tree: SliceTree<2, u64> = SliceTree::new(vec![0, 1, 2]);
    let two = Index::<2>::from_flattened(2);
    assert_eq!(tree.set_node(two, 22), Some(2));
    assert_eq!(tree.node(two), Some(&22));
    let gone = Index::<2>::from_flattened(5);
    assert_eq!(tree.set_node(gone, 55), None);
    assert_eq!(tree.into_vec(), vec![0, 1, 22]);
}

#[test]
fn derived_navigation_accessors() {
    let tree: SliceTree<2, u64> = SliceTree::new(vec![0, 1, 2, 3, 4, 5, 6]);
    let root = Index::<2>::root();
    let one = Index::<2>::from_flattened(1);
    let three = Index::<2>::from_flattened(3);
    assert_eq!(tree.parent(root), None);
    assert_eq!(tree.parent(three), Some(&1));
    assert_eq!(tree.first_child(root), Some(&1));
    assert_eq!(tree.last_child(root), Some(&2));
    assert_eq!(tree.child(one, 0), Some(&3));
    assert_eq!(tree.child(one, 1), Some(&4));
    assert_eq!(tree.child(one, 2), None);
    assert_eq!(tree.first_child(three), None);
}

#[test]
fn partial_last_level_has_one_child() {
    // four nodes: node at flat position 1 has one existing child, at 3
    let tree: SliceTree<2, u64> = SliceTree::new(vec![0, 1, 2, 3]);
    let one = Index::<2>::from_flattened(1);
    assert_eq!(tree.first_child(one), Some(&3));
    assert_eq!(tree.last_child(one), None);
    let group = tree.iter_children(one).to_flattened();
    let flats: Vec<usize> = group.collect();
    assert_eq!(flats, vec![3]);
}

#[test]
fn height_is_the_depth_of_the_last_position() {
    let one: SliceTree<2, u64> = SliceTree::new(vec![0]);
    assert_eq!(one.height(), 0);
    let four: SliceTree<2, u64> = SliceTree::new(vec![0, 1, 2, 3]);
    assert_eq!(four.height(), 2);
    let seven: SliceTree<2, u64> = SliceTree::new(vec![0, 1, 2, 3, 4, 5, 6]);
    assert_eq!(seven.height(), 2);
    let ternary: SliceTree<3, u64> = SliceTree::new(vec![0, 1, 2, 3, 4]);
    assert_eq!(ternary.height(), 2);
}

#[test]
fn iter_level_spans_the_occupied_level() {
    let tree: SliceTree<2, u64> = SliceTree::new(vec![0, 1, 2, 3, 4]);
    let flats: Vec<usize> = tree.iter_level(1).to_flattened().collect();
    assert_eq!(flats, vec![1, 2]);
    let flats: Vec<usize> = tree.iter_level(2).to_flattened().collect();
    assert_eq!(flats, vec![3, 4]);
    let flats: Vec<usize> = tree.iter_level(3).to_flattened().collect();
    assert_eq!(flats, Vec::<usize>::new());
}

#[test]
fn ternary_root_children_occupy_the_next_three_positions() {
    let tree: SliceTree<3, u64> = SliceTree::new(vec![0, 10, 20, 30]);
    let root = Index::<3>::root();
    let flats: Vec<usize> = tree.iter_children(root).to_flattened().collect();
    assert_eq!(flats, vec![1, 2, 3]);
    assert_eq!(tree.child(root, 0), Some(&10));
    assert_eq!(tree.child(root, 1), Some(&20));
    assert_eq!(tree.child(root, 2), Some(&30));
}

#[test]
fn binary_extension_aliases() {
    let tree: SliceTree<2, u64> = SliceTree::new(vec![0, 1, 2, 3, 4, 5, 6]);
    let root = Index::<2>::root();
    let two = Index::<2>::from_flattened(2);
    assert_eq!(tree.left_child(root), Some(&1));
    assert_eq!(tree.right_child(root), Some(&2));
    assert_eq!(tree.left_child(two), Some(&5));
    assert_eq!(tree.right_child(two), Some(&6));
}

#[test]
fn trait_traversal_constructors_walk_the_tree() {
    let tree: SliceTree<2, u64> = SliceTree::new(vec![0, 1, 2, 3, 4, 5, 6]);
    let mut level = tree.traverse_level_order();
    let mut seen = Vec::new();
    while let Some(idx) = level.next() {
        seen.push(*tree.node(idx).unwrap());
    }
    assert_eq!(seen, vec![0, 1, 2, 3, 4, 5, 6]);

    let mut pre = tree.traverse_pre_order();
    let mut seen = Vec::new();
    while let Some(idx) = pre.next() {
        seen.push(*tree.node(idx).unwrap());
    }
    assert_eq!(seen, vec![0, 1, 3, 4, 2, 5, 6]);

    let mut post = tree.traverse_post_order();
    let mut seen = Vec::new();
    while let Some(idx) = post.next() {
        seen.push(*tree.node(idx).unwrap());
    }
    assert_eq!(seen, vec![3, 4, 1, 5, 6, 2, 0]);

    let mut inord = tree.traverse_in_order();
    let mut seen = Vec::new();
    while let Some(idx) = inord.next() {
        seen.push(*tree.node(idx).unwrap());
    }
    assert_eq!(seen, vec![3, 1, 4, 0, 5, 2, 6]);
}
