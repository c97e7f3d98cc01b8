//! Level-order traversal: the identity enumeration of the occupied flat
//! positions, double-ended.

use vstd::prelude::*;

verus! {

use crate::index::{Index, IndexRange};
use crate::traverse::orders::level_order_seq;

/// Walks the coordinates of a tree of `tree_len` nodes in level order: flat
/// positions `0, 1, ..., tree_len - 1`, from either end.
#[derive(Debug, Clone)]
pub struct LevelOrder<const N: usize> {
    range: IndexRange<N>,
}

impl<const N: usize> LevelOrder<N> {
    /// The flat positions not yet visited, in the order they will come.
    pub closed spec fn remaining(self) -> Seq<int> {
        self.range@
    }

    /// Starts a level-order walk over a tree of `tree_len` nodes.
    pub fn new(tree_len: usize) -> (r: Self)
        requires
            N >= 1,
        ensures
            r.remaining() == level_order_seq(tree_len as int),
    {
        let r = LevelOrder { range: IndexRange::from_flattened(0..tree_len) };
        proof {
            assert(r.remaining() =~= level_order_seq(tree_len as int));
        }
        r
    }

    /// How many coordinates are still to come.
    pub fn len(&self) -> (r: usize)
        ensures
            r as int == self.remaining().len(),
    {
        self.range.len()
    }

    /// The next coordinate from the front, or `None` when the walk is done.
    pub fn next(&mut self) -> (r: Option<Index<N>>)
        requires
            N >= 1,
        ensures
            match r {
                Some(i) => {
                    &&& old(self).remaining().len() > 0
                    &&& i.wf()
                    &&& i.flat() == old(self).remaining()[0]
                    &&& final(self).remaining() == old(self).remaining().skip(1)
                },
                None => {
                    &&& old(self).remaining().len() == 0
                    &&& *final(self) == *old(self)
                },
            },
    {
        self.range.next()
    }

    /// The next coordinate from the back, or `None` when the walk is done.
    pub fn next_back(&mut self) -> (r: Option<Index<N>>)
        requires
            N >= 1,
        ensures
            match r {
                Some(i) => {
                    &&& old(self).remaining().len() > 0
                    &&& i.wf()
                    &&& i.flat() == old(self).remaining().last()
                    &&& final(self).remaining() == old(self).remaining().drop_last()
                },
                None => {
                    &&& old(self).remaining().len() == 0
                    &&& *final(self) == *old(self)
                },
            },
    {
        self.range.next_back()
    }
}

} // verus!
