//! Pre-order walk over any complete-tree view: a node before any of its
//! descendants, subtrees left to right.

use vstd::prelude::*;

verus! {

use crate::CompleteTree;
use crate::index::traverse::pre_order::PreOrder as PreOrderIndices;
use crate::traverse::orders::{pre_order_seq, lemma_pre_order_covers};

/// A pre-order walk borrowing a tree view: hands out the nodes in
/// pre-order, one reference per visited position.
pub struct PreOrder<'a, const N: usize, T: CompleteTree<N>> {
    indices: PreOrderIndices<N>,
    tree: &'a T,
}

impl<'a, const N: usize, T: CompleteTree<N>> PreOrder<'a, N, T> {
    /// The walked tree's nodes, in flat order.
    pub closed spec fn spec_nodes(self) -> Seq<T::Node> {
        self.tree.nodes()
    }

    /// How many nodes have been visited so far.
    pub closed spec fn visited_count(self) -> int {
        self.indices.visited_count()
    }

    /// The walk is in step with the tree it borrows.
    pub closed spec fn wf(self) -> bool {
        N >= 1 && self.indices.wf() && self.indices.spec_len() == self.tree.nodes().len()
    }

    /// Starts a pre-order walk over `tree`.
    pub fn new(tree: &'a T) -> (r: Self)
        requires
            N >= 1,
        ensures
            r.wf(),
            r.spec_nodes() == tree.nodes(),
            r.visited_count() == 0,
    {
        PreOrder { indices: PreOrderIndices::new(tree.len()), tree }
    }

    /// The next node in pre-order, or `None` once every occupied position
    /// was visited.
    pub fn next(&mut self) -> (r: Option<&'a T::Node>)
        requires
            old(self).wf(),
        ensures
            final(self).wf(),
            final(self).spec_nodes() == old(self).spec_nodes(),
            match r {
                Some(v) => {
                    &&& old(self).visited_count() < old(self).spec_nodes().len()
                    &&& *v == old(self).spec_nodes()[pre_order_seq(
                        N as int,
                        old(self).spec_nodes().len() as int,
                    )[old(self).visited_count()]]
                    &&& final(self).visited_count() == old(self).visited_count() + 1
                },
                None => {
                    &&& old(self).visited_count() == old(self).spec_nodes().len()
                    &&& final(self).visited_count() == old(self).visited_count()
                },
            },
    {
        proof {
            lemma_pre_order_covers(N as int, self.tree.nodes().len() as int);
        }
        match self.indices.next() {
            Some(idx) => {
                let t = self.tree;
                match t.node(idx) {
                    Some(v) => Some(v),
                    None => {
                        proof {
                            assert(false);
                        }
                        None
                    },
                }
            },
            None => None,
        }
    }
}

} // verus!
