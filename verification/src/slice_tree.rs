//! A complete N-ary tree view over an owned contiguous sequence of nodes:
//! the heap-array layout, with the backing sequence's own order as the
//! level order.

use vstd::prelude::*;

pub mod traverse;

verus! {

use crate::index::Index;
use crate::{CompleteBinaryTree, CompleteTree};

/// A complete `N`-ary tree stored in a contiguous sequence: position 0 is
/// the root, and the children of position `p` sit at `N*p + 1 .. N*p + N`.
/// The tree never grows or shrinks; its size is the backing sequence's
/// length.
#[derive(Debug)]
pub struct SliceTree<const N: usize, T> {
    nodes: Vec<T>,
}

impl<const N: usize, T> View for SliceTree<N, T> {
    type V = Seq<T>;

    closed spec fn view(&self) -> Seq<T> {
        self.nodes@
    }
}

impl<const N: usize, T> SliceTree<N, T> {
    /// Wraps a backing sequence as a tree, without copying or reshaping it.
    pub fn new(nodes: Vec<T>) -> (r: Self)
        ensures
            r@ == nodes@,
    {
        SliceTree { nodes }
    }

    /// How many nodes the tree holds.
    pub fn len(&self) -> (r: usize)
        ensures
            r as int == self@.len(),
    {
        self.nodes.len()
    }

    /// Whether the tree holds no node.
    pub fn is_empty(&self) -> (r: bool)
        ensures
            r <==> self@.len() == 0,
    {
        self.nodes.len() == 0
    }

    /// The backing sequence, in level order.
    pub fn as_ref(&self) -> (r: &Vec<T>)
        ensures
            r@ == self@,
    {
        &self.nodes
    }

    /// Releases the backing sequence, in level order.
    pub fn into_vec(self) -> (r: Vec<T>)
        ensures
            r@ == self@,
    {
        self.nodes
    }

    /// The node at flat position `i`, or `None` past the occupied length.
    pub fn get_flat(&self, i: usize) -> (r: Option<&T>)
        ensures
            match r {
                Some(v) => i < self@.len() && *v == self@[i as int],
                None => i >= self@.len(),
            },
    {
        if i < self.nodes.len() {
            Some(&self.nodes[i])
        } else {
            None
        }
    }

    /// Stores `value` at flat position `i` and hands back what was there,
    /// or `None` (leaving the tree unchanged) past the occupied length.
    pub fn set_flat(&mut self, i: usize, value: T) -> (r: Option<T>)
        ensures
            match r {
                Some(prev) => i < old(self)@.len() && prev == old(self)@[i as int] && final(self)@
                    == old(self)@.update(i as int, value),
                None => i >= old(self)@.len() && final(self)@ == old(self)@,
            },
    {
        if i < self.nodes.len() {
            let mut v = value;
            self.nodes.set_and_swap(i, &mut v);
            Some(v)
        } else {
            None
        }
    }
}

impl<const N: usize, T> CompleteTree<N> for SliceTree<N, T> {
    type Node = T;

    open spec fn nodes(&self) -> Seq<T> {
        self@
    }

    proof fn lemma_len_bounded(&self) {
        vstd::std_specs::vec::axiom_spec_len(&self.nodes);
    }

    fn len(&self) -> (r: usize) {
        self.nodes.len()
    }

    fn node(&self, index: Index<N>) -> (r: Option<&T>) {
        let f = index.to_flattened();
        if f < self.nodes.len() {
            Some(&self.nodes[f])
        } else {
            None
        }
    }

    fn set_node(&mut self, index: Index<N>, value: T) -> (r: Option<T>) {
        let f = index.to_flattened();
        if f < self.nodes.len() {
            let mut v = value;
            self.nodes.set_and_swap(f, &mut v);
            Some(v)
        } else {
            None
        }
    }
}

impl<T> CompleteBinaryTree for SliceTree<2, T> {

}

} // verus!
