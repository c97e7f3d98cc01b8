//! Traversal adapters over a [`SliceTree`]: shared walks that hand out one
//! reference per visited node, and exclusive walks that take the tree,
//! yield each occupied flat position exactly once, and give bounded
//! exclusive access to it.

use vstd::prelude::*;

verus! {

use crate::slice_tree::SliceTree;
use crate::index::traverse::in_order::InOrder as InOrderIndices;
use crate::index::traverse::post_order::PostOrder as PostOrderIndices;
use crate::index::traverse::pre_order::PreOrder as PreOrderIndices;
use crate::traverse::orders::{
    in_order_seq, post_order_seq, pre_order_seq, lemma_in_order_covers, lemma_post_order_covers,
    lemma_pre_order_covers,
};

/// A shared pre-order walk over a borrowed tree: hands out the nodes in
/// pre-order, one reference per visited position.
pub struct PreOrder<'a, const N: usize, T> {
    indices: PreOrderIndices<N>,
    tree: &'a SliceTree<N, T>,
}

impl<'a, const N: usize, T> PreOrder<'a, N, T> {
    /// The walked tree's nodes, in flat order.
    pub closed spec fn spec_nodes(self) -> Seq<T> {
        self.tree@
    }

    /// How many nodes have been visited so far.
    pub closed spec fn visited_count(self) -> int {
        self.indices.visited_count()
    }

    /// The walk is in step with the tree it borrows.
    pub closed spec fn wf(self) -> bool {
        N >= 1 && self.indices.wf() && self.indices.spec_len() == self.tree@.len()
    }

    /// Starts a pre-order walk over `tree`.
    pub fn new(tree: &'a SliceTree<N, T>) -> (r: Self)
        requires
            N >= 1,
        ensures
            r.wf(),
            r.spec_nodes() == tree@,
            r.visited_count() == 0,
    {
        PreOrder { indices: PreOrderIndices::new(tree.len()), tree }
    }

    /// The next node in pre-order, or `None` once every occupied position
    /// was visited.
    pub fn next(&mut self) -> (r: Option<&'a T>)
        requires
            old(self).wf(),
        ensures
            final(self).wf(),
            final(self).spec_nodes() == old(self).spec_nodes(),
            match r {
                Some(v) => {
                    &&& old(self).visited_count() < old(self).spec_nodes().len()
                    &&& *v == old(self).spec_nodes()[pre_order_seq(
                        N as int,
                        old(self).spec_nodes().len() as int,
                    )[old(self).visited_count()]]
                    &&& final(self).visited_count() == old(self).visited_count() + 1
                },
                None => {
                    &&& old(self).visited_count() == old(self).spec_nodes().len()
                    &&& final(self).visited_count() == old(self).visited_count()
                },
            },
    {
        proof {
            lemma_pre_order_covers(N as int, self.tree@.len() as int);
        }
        match self.indices.next() {
            Some(idx) => {
                let t = self.tree;
                match t.get_flat(idx.to_flattened()) {
                    Some(v) => Some(v),
                    None => {
                        proof {
                            assert(false);
                        }
                        None
                    },
                }
            },
            None => None,
        }
    }
}

/// An exclusive pre-order pass: takes the tree, yields each occupied flat
/// position exactly once in pre-order, and gives bounded access to the
/// nodes for reading and writing while the pass runs.
pub struct PreOrderMut<const N: usize, T> {
    indices: PreOrderIndices<N>,
    tree: SliceTree<N, T>,
}

impl<const N: usize, T> PreOrderMut<N, T> {
    /// The owned tree's nodes, in flat order.
    pub closed spec fn spec_nodes(self) -> Seq<T> {
        self.tree@
    }

    /// How many positions have been yielded so far.
    pub closed spec fn visited_count(self) -> int {
        self.indices.visited_count()
    }

    /// The walk is in step with the tree it owns.
    pub closed spec fn wf(self) -> bool {
        N >= 1 && self.indices.wf() && self.indices.spec_len() == self.tree@.len()
    }

    /// Starts an exclusive pre-order pass over `tree`.
    pub fn new(tree: SliceTree<N, T>) -> (r: Self)
        requires
            N >= 1,
        ensures
            r.wf(),
            r.spec_nodes() == tree@,
            r.visited_count() == 0,
    {
        let indices = PreOrderIndices::new(tree.len());
        PreOrderMut { indices, tree }
    }

    /// The next flat position in pre-order, or `None` once every occupied
    /// position was yielded. No position is ever yielded twice.
    pub fn next(&mut self) -> (r: Option<usize>)
        requires
            old(self).wf(),
        ensures
            final(self).wf(),
            final(self).spec_nodes() == old(self).spec_nodes(),
            match r {
                Some(p) => {
                    &&& old(self).visited_count() < old(self).spec_nodes().len()
                    &&& p as int == pre_order_seq(
                        N as int,
                        old(self).spec_nodes().len() as int,
                    )[old(self).visited_count()]
                    &&& p < old(self).spec_nodes().len()
                    &&& final(self).visited_count() == old(self).visited_count() + 1
                },
                None => {
                    &&& old(self).visited_count() == old(self).spec_nodes().len()
                    &&& final(self).visited_count() == old(self).visited_count()
                },
            },
    {
        proof {
            lemma_pre_order_covers(N as int, self.tree@.len() as int);
        }
        match self.indices.next() {
            Some(idx) => Some(idx.to_flattened()),
            None => None,
        }
    }

    /// The node at flat position `i`.
    pub fn get(&self, i: usize) -> (r: Option<&T>)
        ensures
            match r {
                Some(v) => i < self.spec_nodes().len() && *v == self.spec_nodes()[i as int],
                None => i >= self.spec_nodes().len(),
            },
    {
        self.tree.get_flat(i)
    }

    /// Stores `value` at flat position `i`, handing back what was there.
    pub fn set(&mut self, i: usize, value: T) -> (r: Option<T>)
        requires
            old(self).wf(),
        ensures
            final(self).wf(),
            final(self).visited_count() == old(self).visited_count(),
            match r {
                Some(prev) => i < old(self).spec_nodes().len() && prev == old(self).spec_nodes()[i
                    as int] && final(self).spec_nodes() == old(self).spec_nodes().update(
                    i as int,
                    value,
                ),
                None => i >= old(self).spec_nodes().len() && final(self).spec_nodes() == old(
                    self,
                ).spec_nodes(),
            },
    {
        self.tree.set_flat(i, value)
    }

    /// Ends the pass and releases the tree.
    pub fn into_tree(self) -> (r: SliceTree<N, T>)
        ensures
            r@ == self.spec_nodes(),
    {
        self.tree
    }
}

/// A shared post-order walk over a borrowed tree.
pub struct PostOrder<'a, const N: usize, T> {
    indices: PostOrderIndices<N>,
    tree: &'a SliceTree<N, T>,
}

impl<'a, const N: usize, T> PostOrder<'a, N, T> {
    /// The walked tree's nodes, in flat order.
    pub closed spec fn spec_nodes(self) -> Seq<T> {
        self.tree@
    }

    /// How many nodes have been visited so far.
    pub closed spec fn visited_count(self) -> int {
        self.indices.visited_count()
    }

    /// The walk is in step with the tree it borrows.
    pub closed spec fn wf(self) -> bool {
        N >= 1 && self.indices.wf() && self.indices.spec_len() == self.tree@.len()
    }

    /// Starts a post-order walk over `tree`.
    pub fn new(tree: &'a SliceTree<N, T>) -> (r: Self)
        requires
            N >= 1,
        ensures
            r.wf(),
            r.spec_nodes() == tree@,
            r.visited_count() == 0,
    {
        PostOrder { indices: PostOrderIndices::new(tree.len()), tree }
    }

    /// The next node in post-order, or `None` once every occupied position
    /// was visited.
    pub fn next(&mut self) -> (r: Option<&'a T>)
        requires
            old(self).wf(),
        ensures
            final(self).wf(),
            final(self).spec_nodes() == old(self).spec_nodes(),
            match r {
                Some(v) => {
                    &&& old(self).visited_count() < old(self).spec_nodes().len()
                    &&& *v == old(self).spec_nodes()[post_order_seq(
                        N as int,
                        old(self).spec_nodes().len() as int,
                    )[old(self).visited_count()]]
                    &&& final(self).visited_count() == old(self).visited_count() + 1
                },
                None => {
                    &&& old(self).visited_count() == old(self).spec_nodes().len()
                    &&& final(self).visited_count() == old(self).visited_count()
                },
            },
    {
        proof {
            lemma_post_order_covers(N as int, self.tree@.len() as int);
        }
        match self.indices.next() {
            Some(idx) => {
                let t = self.tree;
                match t.get_flat(idx.to_flattened()) {
                    Some(v) => Some(v),
                    None => {
                        proof {
                            assert(false);
                        }
                        None
                    },
                }
            },
            None => None,
        }
    }
}

/// An exclusive post-order pass: takes the tree and yields each occupied
/// flat position exactly once in post-order.
pub struct PostOrderMut<const N: usize, T> {
    indices: PostOrderIndices<N>,
    tree: SliceTree<N, T>,
}

impl<const N: usize, T> PostOrderMut<N, T> {
    /// The owned tree's nodes, in flat order.
    pub closed spec fn spec_nodes(self) -> Seq<T> {
        self.tree@
    }

    /// How many positions have been yielded so far.
    pub closed spec fn visited_count(self) -> int {
        self.indices.visited_count()
    }

    /// The walk is in step with the tree it owns.
    pub closed spec fn wf(self) -> bool {
        N >= 1 && self.indices.wf() && self.indices.spec_len() == self.tree@.len()
    }

    /// Starts an exclusive post-order pass over `tree`.
    pub fn new(tree: SliceTree<N, T>) -> (r: Self)
        requires
            N >= 1,
        ensures
            r.wf(),
            r.spec_nodes() == tree@,
            r.visited_count() == 0,
    {
        let indices = PostOrderIndices::new(tree.len());
        PostOrderMut { indices, tree }
    }

    /// The next flat position in post-order, or `None` once every occupied
    /// position was yielded. No position is ever yielded twice.
    pub fn next(&mut self) -> (r: Option<usize>)
        requires
            old(self).wf(),
        ensures
            final(self).wf(),
            final(self).spec_nodes() == old(self).spec_nodes(),
            match r {
                Some(p) => {
                    &&& old(self).visited_count() < old(self).spec_nodes().len()
                    &&& p as int == post_order_seq(
                        N as int,
                        old(self).spec_nodes().len() as int,
                    )[old(self).visited_count()]
                    &&& p < old(self).spec_nodes().len()
                    &&& final(self).visited_count() == old(self).visited_count() + 1
                },
                None => {
                    &&& old(self).visited_count() == old(self).spec_nodes().len()
                    &&& final(self).visited_count() == old(self).visited_count()
                },
            },
    {
        proof {
            lemma_post_order_covers(N as int, self.tree@.len() as int);
        }
        match self.indices.next() {
            Some(idx) => Some(idx.to_flattened()),
            None => None,
        }
    }

    /// The node at flat position `i`.
    pub fn get(&self, i: usize) -> (r: Option<&T>)
        ensures
            match r {
                Some(v) => i < self.spec_nodes().len() && *v == self.spec_nodes()[i as int],
                None => i >= self.spec_nodes().len(),
            },
    {
        self.tree.get_flat(i)
    }

    /// Stores `value` at flat position `i`, handing back what was there.
    pub fn set(&mut self, i: usize, value: T) -> (r: Option<T>)
        requires
            old(self).wf(),
        ensures
            final(self).wf(),
            final(self).visited_count() == old(self).visited_count(),
            match r {
                Some(prev) => i < old(self).spec_nodes().len() && prev == old(self).spec_nodes()[i
                    as int] && final(self).spec_nodes() == old(self).spec_nodes().update(
                    i as int,
                    value,
                ),
                None => i >= old(self).spec_nodes().len() && final(self).spec_nodes() == old(
                    self,
                ).spec_nodes(),
            },
    {
        self.tree.set_flat(i, value)
    }

    /// Ends the pass and releases the tree.
    pub fn into_tree(self) -> (r: SliceTree<N, T>)
        ensures
            r@ == self.spec_nodes(),
    {
        self.tree
    }
}

/// A shared in-order walk over a borrowed binary tree.
pub struct InOrder<'a, T> {
    indices: InOrderIndices,
    tree: &'a SliceTree<2, T>,
}

impl<'a, T> InOrder<'a, T> {
    /// The walked tree's nodes, in flat order.
    pub closed spec fn spec_nodes(self) -> Seq<T> {
        self.tree@
    }

    /// How many nodes have been visited so far.
    pub closed spec fn visited_count(self) -> int {
        self.indices.visited_count()
    }

    /// The walk is in step with the tree it borrows.
    pub closed spec fn wf(self) -> bool {
        self.indices.wf() && self.indices.spec_len() == self.tree@.len()
    }

    /// Starts an in-order walk over `tree`.
    pub fn new(tree: &'a SliceTree<2, T>) -> (r: Self)
        ensures
            r.wf(),
            r.spec_nodes() == tree@,
            r.visited_count() == 0,
    {
        InOrder { indices: InOrderIndices::new(tree.len()), tree }
    }

    /// The next node in in-order, or `None` once every occupied position
    /// was visited.
    pub fn next(&mut self) -> (r: Option<&'a T>)
        requires
            old(self).wf(),
        ensures
            final(self).wf(),
            final(self).spec_nodes() == old(self).spec_nodes(),
            match r {
                Some(v) => {
                    &&& old(self).visited_count() < old(self).spec_nodes().len()
                    &&& *v == old(self).spec_nodes()[in_order_seq(
                        old(self).spec_nodes().len() as int,
                    )[old(self).visited_count()]]
                    &&& final(self).visited_count() == old(self).visited_count() + 1
                },
                None => {
                    &&& old(self).visited_count() == old(self).spec_nodes().len()
                    &&& final(self).visited_count() == old(self).visited_count()
                },
            },
    {
        proof {
            lemma_in_order_covers(self.tree@.len() as int);
        }
        match self.indices.next() {
            Some(idx) => {
                let t = self.tree;
                match t.get_flat(idx.to_flattened()) {
                    Some(v) => Some(v),
                    None => {
                        proof {
                            assert(false);
                        }
                        None
                    },
                }
            },
            None => None,
        }
    }
}

/// An exclusive in-order pass: takes the binary tree and yields each
/// occupied flat position exactly once in in-order.
pub struct InOrderMut<T> {
    indices: InOrderIndices,
    tree: SliceTree<2, T>,
}

impl<T> InOrderMut<T> {
    /// The owned tree's nodes, in flat order.
    pub closed spec fn spec_nodes(self) -> Seq<T> {
        self.tree@
    }

    /// How many positions have been yielded so far.
    pub closed spec fn visited_count(self) -> int {
        self.indices.visited_count()
    }

    /// The walk is in step with the tree it owns.
    pub closed spec fn wf(self) -> bool {
        self.indices.wf() && self.indices.spec_len() == self.tree@.len()
    }

    /// Starts an exclusive in-order pass over `tree`.
    pub fn new(tree: SliceTree<2, T>) -> (r: Self)
        ensures
            r.wf(),
            r.spec_nodes() == tree@,
            r.visited_count() == 0,
    {
        let indices = InOrderIndices::new(tree.len());
        InOrderMut { indices, tree }
    }

    /// The next flat position in in-order, or `None` once every occupied
    /// position was yielded. No position is ever yielded twice.
    pub fn next(&mut self) -> (r: Option<usize>)
        requires
            old(self).wf(),
        ensures
            final(self).wf(),
            final(self).spec_nodes() == old(self).spec_nodes(),
            match r {
                Some(p) => {
                    &&& old(self).visited_count() < old(self).spec_nodes().len()
                    &&& p as int == in_order_seq(old(self).spec_nodes().len() as int)[old(
                        self,
                    ).visited_count()]
                    &&& p < old(self).spec_nodes().len()
                    &&& final(self).visited_count() == old(self).visited_count() + 1
                },
                None => {
                    &&& old(self).visited_count() == old(self).spec_nodes().len()
                    &&& final(self).visited_count() == old(self).visited_count()
                },
            },
    {
        proof {
            lemma_in_order_covers(self.tree@.len() as int);
        }
        match self.indices.next() {
            Some(idx) => Some(idx.to_flattened()),
            None => None,
        }
    }

    /// The node at flat position `i`.
    pub fn get(&self, i: usize) -> (r: Option<&T>)
        ensures
            match r {
                Some(v) => i < self.spec_nodes().len() && *v == self.spec_nodes()[i as int],
                None => i >= self.spec_nodes().len(),
            },
    {
        self.tree.get_flat(i)
    }

    /// Stores `value` at flat position `i`, handing back what was there.
    pub fn set(&mut self, i: usize, value: T) -> (r: Option<T>)
        requires
            old(self).wf(),
        ensures
            final(self).wf(),
            final(self).visited_count() == old(self).visited_count(),
            match r {
                Some(prev) => i < old(self).spec_nodes().len() && prev == old(self).spec_nodes()[i
                    as int] && final(self).spec_nodes() == old(self).spec_nodes().update(
                    i as int,
                    value,
                ),
                None => i >= old(self).spec_nodes().len() && final(self).spec_nodes() == old(
                    self,
                ).spec_nodes(),
            },
    {
        self.tree.set_flat(i, value)
    }

    /// Ends the pass and releases the tree.
    pub fn into_tree(self) -> (r: SliceTree<2, T>)
        ensures
            r@ == self.spec_nodes(),
    {
        self.tree
    }
}

} // verus!
