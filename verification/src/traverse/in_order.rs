//! In-order walk over any complete binary-tree view: left subtree, node,
//! right subtree.

use vstd::prelude::*;

verus! {

use crate::CompleteBinaryTree;
use crate::index::traverse::in_order::InOrder as InOrderIndices;
use crate::traverse::orders::{in_order_seq, lemma_in_order_covers};

/// An in-order walk borrowing a binary tree view: hands out the nodes in
/// in-order, one reference per visited position.
pub struct TraverseInOrder<'a, T: CompleteBinaryTree> {
    indices: InOrderIndices,
    tree: &'a T,
}

impl<'a, T: CompleteBinaryTree> TraverseInOrder<'a, T> {
    /// The walked tree's nodes, in flat order.
    pub closed spec fn spec_nodes(self) -> Seq<T::Node> {
        self.tree.nodes()
    }

    /// How many nodes have been visited so far.
    pub closed spec fn visited_count(self) -> int {
        self.indices.visited_count()
    }

    /// The walk is in step with the tree it borrows.
    pub closed spec fn wf(self) -> bool {
        self.indices.wf() && self.indices.spec_len() == self.tree.nodes().len()
    }

    /// Starts an in-order walk over `tree`.
    pub fn new(tree: &'a T) -> (r: Self)
        ensures
            r.wf(),
            r.spec_nodes() == tree.nodes(),
            r.visited_count() == 0,
    {
        TraverseInOrder { indices: InOrderIndices::new(tree.len()), tree }
    }

    /// The next node in in-order, or `None` once every occupied position
    /// was visited.
    pub fn next(&mut self) -> (r: Option<&'a T::Node>)
        requires
            old(self).wf(),
        ensures
            final(self).wf(),
            final(self).spec_nodes() == old(self).spec_nodes(),
            match r {
                Some(v) => {
                    &&& old(self).visited_count() < old(self).spec_nodes().len()
                    &&& *v == old(self).spec_nodes()[in_order_seq(
                        old(self).spec_nodes().len() as int,
                    )[old(self).visited_count()]]
                    &&& final(self).visited_count() == old(self).visited_count() + 1
                },
                None => {
                    &&& old(self).visited_count() == old(self).spec_nodes().len()
                    &&& final(self).visited_count() == old(self).visited_count()
                },
            },
    {
        proof {
            lemma_in_order_covers(self.tree.nodes().len() as int);
        }
        match self.indices.next() {
            Some(idx) => {
                let t = self.tree;
                match t.node(idx) {
                    Some(v) => Some(v),
                    None => {
                        proof {
                            assert(false);
                        }
                        None
                    },
                }
            },
            None => None,
        }
    }
}

} // verus!
