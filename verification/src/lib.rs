//! A position-addressable view of a complete N-ary tree stored in one
//! contiguous sequence (the heap-array layout, generalized to an arbitrary
//! branching factor).
//!
//! The core of the library is the bijection between hierarchical coordinates
//! (depth, offset-within-level) and flat positions in the backing sequence,
//! together with the traversal orders (level, pre, post, and binary in-order)
//! that enumerate every occupied position exactly once.

use vstd::prelude::*;

pub mod index;
pub mod model;
pub mod slice_tree;
pub mod traverse;

pub use crate::index::{Index, IndexRange};
pub use crate::model::{flat_of, is_valid, level_start, subtree_contains};
pub use crate::slice_tree::SliceTree;

verus! {

use crate::model::lemma_flat_bounds;
use crate::index::traverse::{InOrder, LevelOrder, PostOrder, PreOrder};
use crate::traverse::orders::level_order_seq;

/// What any backing sequence must support to be walked as a complete
/// `N`-ary tree: its occupied nodes in flat order, bounded access by
/// coordinate, and the traversal orders. Navigation accessors are derived
/// from coordinate arithmetic.
pub trait CompleteTree<const N: usize>: Sized {
    type Node;

    /// The occupied nodes, in flat (breadth-first) order.
    spec fn nodes(&self) -> Seq<Self::Node>;

    /// A backing sequence is addressable: it never holds more nodes than
    /// there are flat positions.
    proof fn lemma_len_bounded(&self)
        ensures
            self.nodes().len() <= usize::MAX as int,
    ;

    /// How many nodes the tree holds.
    fn len(&self) -> (r: usize)
        ensures
            r as int == self.nodes().len(),
    ;

    /// The node at `index`, or `None` when that coordinate lies past the
    /// occupied positions.
    fn node(&self, index: Index<N>) -> (r: Option<&Self::Node>)
        requires
            index.wf(),
        ensures
            match r {
                Some(v) => index.flat() < self.nodes().len() && *v == self.nodes()[index.flat()],
                None => index.flat() >= self.nodes().len(),
            },
    ;

    /// Exclusive access to the node at `index`: stores `value` there and
    /// hands back what was there, or `None` (leaving the tree unchanged)
    /// when the coordinate lies past the occupied positions.
    fn set_node(&mut self, index: Index<N>, value: Self::Node) -> (r: Option<Self::Node>)
        requires
            index.wf(),
        ensures
            match r {
                Some(prev) => index.flat() < old(self).nodes().len() && prev == old(
                    self,
                ).nodes()[index.flat()] && final(self).nodes() == old(self).nodes().update(
                    index.flat(),
                    value,
                ),
                None => index.flat() >= old(self).nodes().len() && final(self).nodes() == old(
                    self,
                ).nodes(),
            },
    ;

    /// Whether the tree holds no node.
    fn is_empty(&self) -> (r: bool)
        ensures
            r <==> self.nodes().len() == 0,
    {
        self.len() == 0
    }

    /// The depth of the last occupied position: the level it lies in.
    fn height(&self) -> (r: usize)
        requires
            N >= 1,
            self.nodes().len() > 0,
        ensures
            crate::model::level_start(N as int, r as int) <= self.nodes().len() - 1,
            self.nodes().len() - 1 < crate::model::level_start(N as int, r as int + 1),
    {
        proof {
            self.lemma_len_bounded();
        }
        let last = self.len() - 1;
        let idx = Index::<N>::from_flattened(last);
        proof {
            lemma_flat_bounds(N as int, idx.spec_depth(), idx.spec_offset());
        }
        idx.depth()
    }

    /// The parent's node, or `None` at the root or past the occupied
    /// positions.
    fn parent(&self, index: Index<N>) -> (r: Option<&Self::Node>)
        requires
            index.wf(),
        ensures
            match r {
                Some(v) => index.spec_depth() >= 1 && (index.flat() - 1) / (N as int)
                    < self.nodes().len() && *v == self.nodes()[(index.flat() - 1) / (N as int)],
                None => index.spec_depth() == 0 || (index.flat() - 1) / (N as int)
                    >= self.nodes().len(),
            },
    {
        match index.parent() {
            Some(p) => self.node(p),
            None => None,
        }
    }

    /// The leftmost child's node, or `None` when it lies past the occupied
    /// positions.
    fn first_child(&self, index: Index<N>) -> (r: Option<&Self::Node>)
        requires
            index.wf(),
        ensures
            match r {
                Some(v) => (N as int) * index.flat() + 1 < self.nodes().len() && *v
                    == self.nodes()[(N as int) * index.flat() + 1],
                None => (N as int) * index.flat() + 1 >= self.nodes().len(),
            },
    {
        proof {
            self.lemma_len_bounded();
        }
        match index.left_most_child() {
            Some(c) => self.node(c),
            None => None,
        }
    }

    /// The rightmost child's node, or `None` when it lies past the occupied
    /// positions.
    fn last_child(&self, index: Index<N>) -> (r: Option<&Self::Node>)
        requires
            index.wf(),
        ensures
            match r {
                Some(v) => (N as int) * index.flat() + (N as int) < self.nodes().len() && *v
                    == self.nodes()[(N as int) * index.flat() + (N as int)],
                None => (N as int) * index.flat() + (N as int) >= self.nodes().len(),
            },
    {
        proof {
            self.lemma_len_bounded();
        }
        match index.right_most_child() {
            Some(c) => self.node(c),
            None => None,
        }
    }

    /// The `n`-th child's node, or `None` when `n` is out of range or the
    /// child lies past the occupied positions.
    fn child(&self, index: Index<N>, n: usize) -> (r: Option<&Self::Node>)
        requires
            index.wf(),
        ensures
            match r {
                Some(v) => n < N && (N as int) * index.flat() + n as int + 1 < self.nodes().len()
                    && *v == self.nodes()[(N as int) * index.flat() + n as int + 1],
                None => n >= N || (N as int) * index.flat() + n as int + 1 >= self.nodes().len(),
            },
    {
        proof {
            self.lemma_len_bounded();
        }
        match index.nth_child(n) {
            Some(c) => self.node(c),
            None => None,
        }
    }

    /// The interval of flat positions of the node's existing children:
    /// its nominal child group clipped to the occupied length.
    fn iter_children(&self, index: Index<N>) -> (r: IndexRange<N>)
        requires
            index.wf(),
        ensures
            (N as int) * index.flat() + 1 < usize::MAX as int ==> {
                &&& r.lo() == (N as int) * index.flat() + 1
                &&& r.hi() == if (N as int) * index.flat() + 1 + (N as int)
                    <= self.nodes().len() {
                    (N as int) * index.flat() + 1 + (N as int)
                } else {
                    self.nodes().len() as int
                }
            },
            (N as int) * index.flat() + 1 >= usize::MAX as int ==> r.lo() == 0 && r.hi() == 0,
    {
        proof {
            self.lemma_len_bounded();
        }
        index.iter_children().cap(self.len())
    }

    /// The interval of flat positions of the existing nodes at `depth`: the
    /// nominal level clipped to the occupied length.
    fn iter_level(&self, depth: usize) -> (r: IndexRange<N>)
        requires
            N >= 1,
        ensures
            crate::model::level_start(N as int, depth as int) < usize::MAX as int ==> {
                &&& r.lo() == crate::model::level_start(N as int, depth as int)
                &&& r.hi() == if crate::model::level_start(N as int, depth as int)
                    + vstd::arithmetic::power::pow(N as int, depth as nat) <= self.nodes().len() {
                    crate::model::level_start(N as int, depth as int)
                        + vstd::arithmetic::power::pow(N as int, depth as nat)
                } else {
                    self.nodes().len() as int
                }
            },
            crate::model::level_start(N as int, depth as int) >= usize::MAX as int ==> r.lo()
                >= r.hi(),
    {
        proof {
            self.lemma_len_bounded();
        }
        IndexRange::<N>::level(depth).cap(self.len())
    }

    /// Starts a level-order walk over the tree's coordinates.
    fn traverse_level_order(&self) -> (r: LevelOrder<N>)
        requires
            N >= 1,
        ensures
            r.remaining() == level_order_seq(self.nodes().len() as int),
    {
        LevelOrder::new(self.len())
    }

    /// Starts a pre-order walk over the tree's coordinates.
    fn traverse_pre_order(&self) -> (r: PreOrder<N>)
        requires
            N >= 1,
        ensures
            r.wf(),
            r.spec_len() == self.nodes().len(),
            r.visited_count() == 0,
    {
        PreOrder::new(self.len())
    }

    /// Starts a post-order walk over the tree's coordinates.
    fn traverse_post_order(&self) -> (r: PostOrder<N>)
        requires
            N >= 1,
        ensures
            r.wf(),
            r.spec_len() == self.nodes().len(),
            r.visited_count() == 0,
    {
        PostOrder::new(self.len())
    }
}

/// The binary specialization: left/right child aliases and the in-order
/// walk, which only a branching factor of two defines.
pub trait CompleteBinaryTree: CompleteTree<2> {
    /// The left child's node, or `None` when it lies past the occupied
    /// positions.
    fn left_child(&self, index: Index<2>) -> (r: Option<&Self::Node>)
        requires
            index.wf(),
        ensures
            match r {
                Some(v) => 2 * index.flat() + 1 < self.nodes().len() && *v == self.nodes()[2
                    * index.flat() + 1],
                None => 2 * index.flat() + 1 >= self.nodes().len(),
            },
    {
        self.first_child(index)
    }

    /// The right child's node, or `None` when it lies past the occupied
    /// positions.
    fn right_child(&self, index: Index<2>) -> (r: Option<&Self::Node>)
        requires
            index.wf(),
        ensures
            match r {
                Some(v) => 2 * index.flat() + 2 < self.nodes().len() && *v == self.nodes()[2
                    * index.flat() + 2],
                None => 2 * index.flat() + 2 >= self.nodes().len(),
            },
    {
        self.last_child(index)
    }

    /// Starts an in-order walk over the tree's coordinates.
    fn traverse_in_order(&self) -> (r: InOrder)
        ensures
            r.wf(),
            r.spec_len() == self.nodes().len(),
            r.visited_count() == 0,
    {
        InOrder::new(self.len())
    }
}

} // verus!
