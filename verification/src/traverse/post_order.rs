//! Post-order walk over any complete-tree view: a node after all of its
//! descendants, subtrees left to right.

use vstd::prelude::*;

verus! {

use crate::CompleteTree;
use crate::index::traverse::post_order::PostOrder as PostOrderIndices;
use crate::traverse::orders::{post_order_seq, lemma_post_order_covers};

/// A post-order walk borrowing a tree view: hands out the nodes in
/// post-order, one reference per visited position.
pub struct PostOrder<'a, const N: usize, T: CompleteTree<N>> {
    indices: PostOrderIndices<N>,
    tree: &'a T,
}

impl<'a, const N: usize, T: CompleteTree<N>> PostOrder<'a, N, T> {
    /// The walked tree's nodes, in flat order.
    pub closed spec fn spec_nodes(self) -> Seq<T::Node> {
        self.tree.nodes()
    }

    /// How many nodes have been visited so far.
    pub closed spec fn visited_count(self) -> int {
        self.indices.visited_count()
    }

    /// The walk is in step with the tree it borrows.
    pub closed spec fn wf(self) -> bool {
        N >= 1 && self.indices.wf() && self.indices.spec_len() == self.tree.nodes().len()
    }

    /// Starts a post-order walk over `tree`.
    pub fn new(tree: &'a T) -> (r: Self)
        requires
            N >= 1,
        ensures
            r.wf(),
            r.spec_nodes() == tree.nodes(),
            r.visited_count() == 0,
    {
        PostOrder { indices: PostOrderIndices::new(tree.len()), tree }
    }

    /// The next node in post-order, or `None` once every occupied position
    /// was visited.
    pub fn next(&mut self) -> (r: Option<&'a T::Node>)
        requires
            old(self).wf(),
        ensures
            final(self).wf(),
            final(self).spec_nodes() == old(self).spec_nodes(),
            match r {
                Some(v) => {
                    &&& old(self).visited_count() < old(self).spec_nodes().len()
                    &&& *v == old(self).spec_nodes()[post_order_seq(
                        N as int,
                        old(self).spec_nodes().len() as int,
                    )[old(self).visited_count()]]
                    &&& final(self).visited_count() == old(self).visited_count() + 1
                },
                None => {
                    &&& old(self).visited_count() == old(self).spec_nodes().len()
                    &&& final(self).visited_count() == old(self).visited_count()
                },
            },
    {
        proof {
            lemma_post_order_covers(N as int, self.tree.nodes().len() as int);
        }
        match self.indices.next() {
            Some(idx) => {
                let t = self.tree;
                match t.node(idx) {
                    Some(v) => Some(v),
                    None => {
                        proof {
                            assert(false);
                        }
                        None
                    },
                }
            },
            None => None,
        }
    }
}

} // verus!
