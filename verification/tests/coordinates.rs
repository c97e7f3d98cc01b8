//! Coordinate arithmetic: construction, navigation, and the flat-index
//! bijection.

use complete_tree::{Index, IndexRange};

#[test]
fn root_is_origin() {
    let r = Index::<2>::root();
    assert_eq!(r.depth(), 0);
    assert_eq!(r.offset(), 0);
    assert_eq!(r.to_flattened(), 0);
}

#[test]
fn new_accepts_offsets_inside_the_level() {
    assert!(Index::<2>::new(0, 0).is_some());
    assert!(Index::<2>::new(1, 0).is_some());
    assert!(Index::<2>::new(1, 1).is_some());
    assert!(Index::<2>::new(2, 3).is_some());
    assert!(Index::<3>::new(1, 2).is_some());
    assert!(Index::<3>::new(2, 8).is_some());
    assert!(Index::<1>::new(17, 0).is_some());
}

#[test]
fn new_rejects_offsets_outside_the_level() {
    assert!(Index::<2>::new(0, 1).is_none());
    assert!(Index::<2>::new(1, 2).is_none());
    assert!(Index::<2>::new(2, 4).is_none());
    assert!(Index::<3>::new(1, 3).is_none());
    assert!(Index::<3>::new(2, 9).is_none());
    assert!(Index::<1>::new(17, 1).is_none());
}

#[test]
fn new_rejects_unrepresentable_depths() {
    // the level at depth 64 of a binary tree starts past usize::MAX
    assert!(Index::<2>::new(64, 0).is_none());
    assert!(Index::<2>::new(63, 0).is_some());
    // a unary tree has exactly one node per level, one level per position
    assert!(Index::<1>::new(usize::MAX - 1, 0).is_some());
    assert!(Index::<1>::new(usize::MAX, 0).is_none());
}

#[test]
fn flat_round_trip_from_positions() {
    for p in 0..500usize {
        assert_eq!(Index::<1>::from_flattened(p).to_flattened(), p);
        assert_eq!(Index::<2>::from_flattened(p).to_flattened(), p);
        assert_eq!(Index::<3>::from_flattened(p).to_flattened(), p);
        assert_eq!(Index::<7>::from_flattened(p).to_flattened(), p);
    }
}

#[test]
fn flat_round_trip_from_coordinates() {
    for d in 0..5usize {
        for o in 0..3usize.pow(d as u32) {
            let c = Index::<3>::new(d, o).unwrap();
            assert_eq!(Index::<3>::from_flattened(c.to_flattened()), c);
        }
    }
    for d in 0..8usize {
        for o in 0..2usize.pow(d as u32) {
            let c = Index::<2>::new(d, o).unwrap();
            assert_eq!(Index::<2>::from_flattened(c.to_flattened()), c);
        }
    }
}

#[test]
fn flat_round_trip_near_the_boundary() {
    for p in (usize::MAX - 100)..usize::MAX {
        assert_eq!(Index::<2>::from_flattened(p).to_flattened(), p);
        assert_eq!(Index::<3>::from_flattened(p).to_flattened(), p);
    }
}

#[test]
fn flat_order_is_depth_then_offset() {
    let mut previous = Index::<3>::from_flattened(0);
    for p in 1..200usize {
        let c = Index::<3>::from_flattened(p);
        assert!(previous < c);
        previous = c;
    }
}

#[test]
fn parent_of_root_is_none() {
    assert!(Index::<2>::root().parent().is_none());
    assert!(Index::<5>::root().parent().is_none());
}

#[test]
fn parent_then_nth_child_returns_home() {
    for p in 1..300usize {
        let c = Index::<3>::from_flattened(p);
        let parent = c.parent().unwrap();
        let slot = c.offset() - 3 * parent.offset();
        assert_eq!(parent.nth_child(slot), Some(c));
    }
    for p in 1..300usize {
        let c = Index::<2>::from_flattened(p);
        let parent = c.parent().unwrap();
        let slot = c.offset() - 2 * parent.offset();
        assert_eq!(parent.nth_child(slot), Some(c));
    }
}

#[test]
fn children_follow_the_heap_formula() {
    for p in 0..100usize {
        let c = Index::<3>::from_flattened(p);
        for k in 0..3usize {
            let child = c.nth_child(k).unwrap();
            assert_eq!(child.to_flattened(), 3 * p + k + 1);
            assert_eq!(child.depth(), c.depth() + 1);
            assert_eq!(child.offset(), 3 * c.offset() + k);
        }
        assert!(c.nth_child(3).is_none());
        assert_eq!(c.left_most_child(), c.nth_child(0));
        assert_eq!(c.right_most_child(), c.nth_child(2));
    }
}

#[test]
fn binary_children_are_the_usual_pair() {
    for p in 0..100usize {
        let c = Index::<2>::from_flattened(p);
        assert_eq!(c.left_child().unwrap().to_flattened(), 2 * p + 1);
        assert_eq!(c.right_child().unwrap().to_flattened(), 2 * p + 2);
    }
}

#[test]
fn children_near_the_boundary_are_rejected() {
    let c = Index::<2>::from_flattened(usize::MAX - 2);
    assert!(c.nth_child(0).is_none());
    assert!(c.nth_child(1).is_none());
    let mid = Index::<2>::from_flattened(usize::MAX / 2 - 2);
    assert!(mid.nth_child(0).is_some());
}

#[test]
fn iter_children_spans_the_child_group() {
    let root = Index::<3>::root();
    let flats: Vec<usize> = root.iter_children().to_flattened().collect();
    assert_eq!(flats, vec![1, 2, 3]);
    let one = Index::<2>::from_flattened(1);
    let flats: Vec<usize> = one.iter_children().to_flattened().collect();
    assert_eq!(flats, vec![3, 4]);
}

#[test]
fn iter_children_caps_to_the_occupied_length() {
    // a binary tree of four nodes: node 1 has one existing child, at 3
    let one = Index::<2>::from_flattened(1);
    let flats: Vec<usize> = one.iter_children().cap(4).to_flattened().collect();
    assert_eq!(flats, vec![3]);
    let two = Index::<2>::from_flattened(2);
    let flats: Vec<usize> = two.iter_children().cap(4).to_flattened().collect();
    assert_eq!(flats, Vec::<usize>::new());
}

#[test]
fn level_widths_follow_the_branching_factor() {
    for d in 0..10usize {
        assert_eq!(IndexRange::<2>::level(d).len(), 1usize << d);
    }
    assert_eq!(IndexRange::<3>::level(0).len(), 1);
    assert_eq!(IndexRange::<3>::level(1).len(), 3);
    assert_eq!(IndexRange::<3>::level(2).len(), 9);
    assert_eq!(IndexRange::<1>::level(6).len(), 1);
}

#[test]
fn level_starts_where_the_previous_level_ends() {
    let mut start = 0usize;
    for d in 0..8usize {
        let level = IndexRange::<3>::level(d).to_flattened();
        assert_eq!(level.start, start);
        start = level.end;
    }
}

#[test]
fn range_iterates_coordinates_both_ways() {
    let mut range = IndexRange::<2>::from_flattened(3..7);
    assert_eq!(range.len(), 4);
    assert!(!range.is_empty());
    let mut forward = Vec::new();
    while let Some(i) = range.next() {
        forward.push(i.to_flattened());
    }
    assert_eq!(forward, vec![3, 4, 5, 6]);

    let mut range = IndexRange::<2>::from_flattened(3..7);
    let mut backward = Vec::new();
    while let Some(i) = range.next_back() {
        backward.push(i.to_flattened());
    }
    backward.reverse();
    assert_eq!(forward, backward);
}

#[test]
fn empty_and_root_ranges() {
    let mut empty = IndexRange::<4>::empty();
    assert!(empty.is_empty());
    assert_eq!(empty.len(), 0);
    assert!(empty.next().is_none());
    let mut root = IndexRange::<4>::root();
    assert_eq!(root.len(), 1);
    let only = root.next().unwrap();
    assert_eq!(only.to_flattened(), 0);
    assert!(root.next().is_none());
}
