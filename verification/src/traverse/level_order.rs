//! Level-order walk over any complete-tree view: the backing sequence's
//! own order, from either end.

use vstd::prelude::*;

verus! {

use crate::CompleteTree;
use crate::index::traverse::level_order::LevelOrder as LevelOrderIndices;
use crate::traverse::orders::level_order_seq;

/// A level-order walk borrowing a tree view: hands out the nodes in flat
/// order, one reference per visited position, from either end.
pub struct LevelOrder<'a, const N: usize, T: CompleteTree<N>> {
    indices: LevelOrderIndices<N>,
    tree: &'a T,
}

impl<'a, const N: usize, T: CompleteTree<N>> LevelOrder<'a, N, T> {
    /// The walked tree's nodes, in flat order.
    pub closed spec fn spec_nodes(self) -> Seq<T::Node> {
        self.tree.nodes()
    }

    /// The flat positions not yet visited, in the order they will come from
    /// the front.
    pub closed spec fn remaining(self) -> Seq<int> {
        self.indices.remaining()
    }

    /// The walk only holds occupied positions.
    pub closed spec fn wf(self) -> bool {
        N >= 1 && forall|i: int|
            0 <= i < self.indices.remaining().len() ==> 0 <= #[trigger] self.indices.remaining()[i]
                < self.tree.nodes().len()
    }

    /// Starts a level-order walk over `tree`.
    pub fn new(tree: &'a T) -> (r: Self)
        requires
            N >= 1,
        ensures
            r.wf(),
            r.spec_nodes() == tree.nodes(),
            r.remaining() == level_order_seq(tree.nodes().len() as int),
    {
        let r = LevelOrder { indices: LevelOrderIndices::new(tree.len()), tree };
        proof {
            assert forall|i: int| 0 <= i < r.indices.remaining().len() implies 0 <= #[trigger] r
                .indices.remaining()[i] < r.tree.nodes().len() by {
                assert(level_order_seq(tree.nodes().len() as int)[i] == i);
            }
        }
        r
    }

    /// How many nodes are still to come.
    pub fn len(&self) -> (r: usize)
        ensures
            r as int == self.remaining().len(),
    {
        self.indices.len()
    }

    /// The next node from the front, or `None` when the walk is done.
    pub fn next(&mut self) -> (r: Option<&'a T::Node>)
        requires
            old(self).wf(),
        ensures
            final(self).wf(),
            final(self).spec_nodes() == old(self).spec_nodes(),
            match r {
                Some(v) => {
                    &&& old(self).remaining().len() > 0
                    &&& *v == old(self).spec_nodes()[old(self).remaining()[0]]
                    &&& final(self).remaining() == old(self).remaining().skip(1)
                },
                None => {
                    &&& old(self).remaining().len() == 0
                    &&& final(self).remaining() == old(self).remaining()
                },
            },
    {
        match self.indices.next() {
            Some(idx) => {
                let t = self.tree;
                match t.node(idx) {
                    Some(v) => Some(v),
                    None => {
                        proof {
                            assert(false);
                        }
                        None
                    },
                }
            },
            None => None,
        }
    }

    /// The next node from the back, or `None` when the walk is done.
    pub fn next_back(&mut self) -> (r: Option<&'a T::Node>)
        requires
            old(self).wf(),
        ensures
            final(self).wf(),
            final(self).spec_nodes() == old(self).spec_nodes(),
            match r {
                Some(v) => {
                    &&& old(self).remaining().len() > 0
                    &&& *v == old(self).spec_nodes()[old(self).remaining().last()]
                    &&& final(self).remaining() == old(self).remaining().drop_last()
                },
                None => {
                    &&& old(self).remaining().len() == 0
                    &&& final(self).remaining() == old(self).remaining()
                },
            },
    {
        match self.indices.next_back() {
            Some(idx) => {
                let t = self.tree;
                match t.node(idx) {
                    Some(v) => Some(v),
                    None => {
                        proof {
                            assert(false);
                        }
                        None
                    },
                }
            },
            None => None,
        }
    }
}

} // verus!
