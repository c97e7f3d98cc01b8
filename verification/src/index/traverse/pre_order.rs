//! Pre-order traversal: visit a node, then each of its subtrees left to
//! right, driven by an explicit stack of pending coordinates.

use vstd::prelude::*;

verus! {

use vstd::arithmetic::mul::lemma_mul_is_commutative;
use crate::index::Index;
use crate::traverse::orders::{
    pre_children, pre_order_seq, pre_subtree, lemma_pre_children_missing,
};

/// Walks the coordinates of a tree of `tree_len` nodes in pre-order. The
/// stack holds the roots of the subtrees not yet visited, topmost first;
/// together with the coordinates already yielded they always make up the
/// whole pre-order enumeration, which is what guarantees every occupied
/// position is yielded exactly once.
#[derive(Clone)]
pub struct PreOrder<const N: usize> {
    stack: Vec<Index<N>>,
    tree_len: usize,
    visited: Ghost<Seq<int>>,
}

impl<const N: usize> PreOrder<N> {
    /// The backing sequence's length this walk was started with.
    pub closed spec fn spec_len(self) -> int {
        self.tree_len as int
    }

    /// How many coordinates have been yielded so far.
    pub closed spec fn visited_count(self) -> int {
        self.visited@.len() as int
    }

    /// The pre-order enumerations of the stacked subtrees, topmost first.
    closed spec fn rem(len: int, stack: Seq<Index<N>>) -> Seq<int>
        decreases stack.len(),
    {
        if stack.len() == 0 {
            Seq::empty()
        } else {
            pre_subtree(N as int, len, stack.last().flat()) + Self::rem(len, stack.drop_last())
        }
    }

    /// The walk's invariant: what was yielded, followed by what the stack
    /// still owes, is exactly the pre-order enumeration.
    pub closed spec fn wf(self) -> bool {
        &&& N >= 1
        &&& forall|i: int|
            0 <= i < self.stack@.len() ==> (#[trigger] self.stack@[i]).wf()
                && self.stack@[i].flat() < self.tree_len as int
        &&& self.visited@ + Self::rem(self.tree_len as int, self.stack@) == pre_order_seq(
            N as int,
            self.tree_len as int,
        )
    }

    /// Starts a pre-order walk over a tree of `tree_len` nodes.
    pub fn new(tree_len: usize) -> (r: Self)
        requires
            N >= 1,
        ensures
            r.wf(),
            r.spec_len() == tree_len as int,
            r.visited_count() == 0,
    {
        let mut stack: Vec<Index<N>> = Vec::new();
        if tree_len > 0 {
            stack.push(Index::root());
        }
        let r = PreOrder { stack, tree_len, visited: Ghost(Seq::empty()) };
        proof {
            let glen = tree_len as int;
            if tree_len > 0 {
                assert(r.stack@.drop_last() =~= Seq::<Index<N>>::empty());
                assert(Self::rem(glen, Seq::<Index<N>>::empty()) == Seq::<int>::empty());
                assert(Self::rem(glen, r.stack@) == pre_subtree(
                    N as int,
                    glen,
                    r.stack@.last().flat(),
                ) + Self::rem(glen, r.stack@.drop_last()));
                assert(Self::rem(glen, r.stack@) =~= pre_subtree(N as int, glen, 0));
            } else {
                assert(pre_order_seq(N as int, glen) =~= Seq::<int>::empty());
            }
            assert(r.visited@ + Self::rem(glen, r.stack@) =~= pre_order_seq(N as int, glen));
        }
        r
    }

    /// The next coordinate in pre-order: pops a subtree root, schedules its
    /// existing children (rightmost first, so the leftmost is next), and
    /// yields it. `None` exactly when every occupied position was yielded.
    pub fn next(&mut self) -> (r: Option<Index<N>>)
        requires
            old(self).wf(),
        ensures
            final(self).wf(),
            final(self).spec_len() == old(self).spec_len(),
            match r {
                Some(idx) => {
                    &&& old(self).visited_count() < pre_order_seq(
                        N as int,
                        old(self).spec_len(),
                    ).len()
                    &&& idx.wf()
                    &&& idx.flat() < old(self).spec_len()
                    &&& idx.flat() == pre_order_seq(N as int, old(self).spec_len())[old(
                        self,
                    ).visited_count()]
                    &&& final(self).visited_count() == old(self).visited_count() + 1
                },
                None => {
                    &&& old(self).visited_count() == pre_order_seq(
                        N as int,
                        old(self).spec_len(),
                    ).len()
                    &&& final(self).visited_count() == old(self).visited_count()
                },
            },
    {
        let ghost glen = self.tree_len as int;
        let ghost full = pre_order_seq(N as int, glen);
        let popped = self.stack.pop();
        match popped {
            None => {
                proof {
                    assert(self.visited@ =~= full);
                }
                None
            },
            Some(idx) => {
                proof {
                    assert(old(self).stack@.last() == idx);
                    assert(old(self).stack@.drop_last() =~= self.stack@);
                    assert(Self::rem(glen, old(self).stack@) == pre_subtree(N as int, glen, idx.flat())
                        + Self::rem(glen, self.stack@));
                }
                let ghost rest = Self::rem(glen, self.stack@);
                let p = idx.to_flattened();
                proof {
                    assert(pre_subtree(N as int, glen, p as int) == seq![p as int] + pre_children(
                        N as int,
                        glen,
                        p as int,
                        0,
                    ));
                    assert(full[old(self).visited_count()] == p as int);
                }
                // how many children of `p` exist below tree_len
                let m: usize = match p.checked_mul(N) {
                    Some(np) => {
                        proof {
                            lemma_mul_is_commutative(p as int, N as int);
                        }
                        if np < self.tree_len - 1 {
                            let avail = self.tree_len - np - 1;
                            if avail < N {
                                avail
                            } else {
                                N
                            }
                        } else {
                            0
                        }
                    },
                    None => {
                        proof {
                            lemma_mul_is_commutative(p as int, N as int);
                        }
                        0
                    },
                };
                proof {
                    lemma_pre_children_missing(N as int, glen, p as int, m as int);
                }
                self.visited = Ghost(self.visited@.push(p as int));
                let mut k = m;
                while k > 0
                    invariant
                        N >= 1,
                        k <= m,
                        m <= N,
                        idx.wf(),
                        idx.flat() == p as int,
                        p < self.tree_len,
                        m > 0 ==> (N as int) * (p as int) + (m as int) < self.tree_len as int,
                        self.tree_len == old(self).tree_len,
                        glen == self.tree_len as int,
                        full == pre_order_seq(N as int, glen),
                        full == old(self).visited@ + (pre_subtree(N as int, glen, p as int)
                            + rest),
                        pre_subtree(N as int, glen, p as int) == seq![p as int] + pre_children(
                            N as int,
                            glen,
                            p as int,
                            0,
                        ),
                        old(self).visited_count() == old(self).visited@.len(),
                        self.visited@ == old(self).visited@.push(p as int),
                        forall|i: int|
                            0 <= i < self.stack@.len() ==> (#[trigger] self.stack@[i]).wf()
                                && self.stack@[i].flat() < self.tree_len as int,
                        Self::rem(glen, self.stack@) == pre_children(
                            N as int,
                            glen,
                            p as int,
                            k as int,
                        ) + rest,
                    decreases k,
                {
                    k = k - 1;
                    proof {
                        assert((N as int) * (p as int) + 1 + (k as int) < glen);
                    }
                    let child = match idx.nth_child(k) {
                        Some(c) => c,
                        None => {
                            proof {
                                assert(false);
                            }
                            idx
                        },
                    };
                    let ghost s0 = self.stack@;
                    self.stack.push(child);
                    proof {
                        assert(self.stack@.last() == child);
                        assert(self.stack@.drop_last() =~= s0);
                        assert(Self::rem(glen, self.stack@) == pre_subtree(
                            N as int,
                            glen,
                            child.flat(),
                        ) + Self::rem(glen, s0));
                        assert(pre_children(N as int, glen, p as int, k as int) == pre_subtree(
                            N as int,
                            glen,
                            (N as int) * (p as int) + 1 + (k as int),
                        ) + pre_children(N as int, glen, p as int, k as int + 1));
                        assert(Self::rem(glen, self.stack@) =~= pre_children(
                            N as int,
                            glen,
                            p as int,
                            k as int,
                        ) + rest);
                    }
                }
                proof {
                    assert(Self::rem(glen, self.stack@) == pre_children(
                        N as int,
                        glen,
                        p as int,
                        0,
                    ) + rest);
                    assert(self.visited@ + Self::rem(glen, self.stack@) =~= full);
                    assert(full[old(self).visited_count()] == p as int);
                }
                Some(idx)
            },
        }
    }
}

} // verus!
