//! In-order traversal of a complete binary tree: left subtree, node, right
//! subtree, driven by a three-state machine over a stack of ancestors.

use vstd::prelude::*;

verus! {

use crate::index::Index;
use crate::traverse::orders::{in_order_seq, mid_subtree};

/// Where the walk stands: about to descend along left children from a
/// coordinate, about to pop the most recent ancestor, or finished.
#[derive(Clone, Copy)]
enum State {
    Push(Index<2>),
    Pop,
    Done,
}

/// Walks the coordinates of a complete binary tree of `tree_len` nodes in
/// in-order. The stack holds the ancestors whose own coordinate and right
/// subtree are still owed; with the current state that always completes the
/// in-order enumeration.
pub struct InOrder {
    state: State,
    stack: Vec<Index<2>>,
    tree_len: usize,
    visited: Ghost<Seq<int>>,
}

impl InOrder {
    /// The backing sequence's length this walk was started with.
    pub closed spec fn spec_len(self) -> int {
        self.tree_len as int
    }

    /// How many coordinates have been yielded so far.
    pub closed spec fn visited_count(self) -> int {
        self.visited@.len() as int
    }

    /// What an ancestor's right-hand side still owes: the in-order of its
    /// right subtree, if that subtree has any occupied position.
    closed spec fn right_sub(len: int, p: int) -> Seq<int> {
        if 2 * p + 2 < len {
            mid_subtree(len, 2 * p + 2)
        } else {
            Seq::empty()
        }
    }

    /// What the stacked ancestors owe, topmost first: each its own
    /// coordinate and then its right subtree.
    closed spec fn anc(len: int, stack: Seq<Index<2>>) -> Seq<int>
        decreases stack.len(),
    {
        if stack.len() == 0 {
            Seq::empty()
        } else {
            seq![stack.last().flat()] + Self::right_sub(len, stack.last().flat()) + Self::anc(
                len,
                stack.drop_last(),
            )
        }
    }

    /// Everything the walk still owes in its current state.
    closed spec fn state_rem(self) -> Seq<int> {
        match self.state {
            State::Push(c) => mid_subtree(self.tree_len as int, c.flat()) + Self::anc(
                self.tree_len as int,
                self.stack@,
            ),
            State::Pop => Self::anc(self.tree_len as int, self.stack@),
            State::Done => Seq::empty(),
        }
    }

    /// The walk's invariant: what was yielded, followed by what is owed, is
    /// exactly the in-order enumeration.
    pub closed spec fn wf(self) -> bool {
        &&& forall|i: int|
            0 <= i < self.stack@.len() ==> (#[trigger] self.stack@[i]).wf()
                && self.stack@[i].flat() < self.tree_len as int
        &&& match self.state {
            State::Push(c) => c.wf() && c.flat() < self.tree_len as int,
            _ => true,
        }
        &&& self.visited@ + self.state_rem() == in_order_seq(self.tree_len as int)
    }

    /// Starts an in-order walk over a binary tree of `tree_len` nodes.
    pub fn new(tree_len: usize) -> (r: Self)
        ensures
            r.wf(),
            r.spec_len() == tree_len as int,
            r.visited_count() == 0,
    {
        let ghost glen = tree_len as int;
        let state = if tree_len == 0 {
            proof {
                assert(in_order_seq(glen) =~= Seq::<int>::empty());
            }
            State::Done
        } else {
            State::Push(Index::root())
        };
        let r = InOrder { state, stack: Vec::new(), tree_len, visited: Ghost(Seq::empty()) };
        proof {
            assert(Self::anc(glen, r.stack@) == Seq::<int>::empty());
            assert(r.visited@ + r.state_rem() =~= in_order_seq(glen));
        }
        r
    }

    /// The state's progress measure: how far the current descent can still
    /// go.
    closed spec fn descend_measure(self) -> int {
        match self.state {
            State::Push(c) => self.tree_len as int - c.flat(),
            _ => 0,
        }
    }

    /// The next coordinate in in-order: descends along left children,
    /// pushing each passed ancestor, and yields a node once its left
    /// subtree is exhausted. `None` exactly when every occupied position
    /// was yielded.
    pub fn next(&mut self) -> (r: Option<Index<2>>)
        requires
            old(self).wf(),
        ensures
            final(self).wf(),
            final(self).spec_len() == old(self).spec_len(),
            match r {
                Some(idx) => {
                    &&& old(self).visited_count() < in_order_seq(old(self).spec_len()).len()
                    &&& idx.wf()
                    &&& idx.flat() < old(self).spec_len()
                    &&& idx.flat() == in_order_seq(old(self).spec_len())[old(self).visited_count()]
                    &&& final(self).visited_count() == old(self).visited_count() + 1
                },
                None => {
                    &&& old(self).visited_count() == in_order_seq(old(self).spec_len()).len()
                    &&& final(self).visited_count() == old(self).visited_count()
                },
            },
    {
        let ghost glen = self.tree_len as int;
        let ghost full = in_order_seq(glen);
        loop
            invariant
                old(self).wf(),
                self.wf(),
                self.tree_len == old(self).tree_len,
                glen == self.tree_len as int,
                full == in_order_seq(glen),
                self.visited@ == old(self).visited@,
            decreases self.descend_measure(),
        {
            match self.state {
                State::Push(c) => {
                    let ghost cf = c.flat();
                    proof {
                        crate::model::lemma_flat_nonneg(2, c.spec_depth(), c.spec_offset());
                        assert(mid_subtree(glen, cf) == (if 2 * cf + 1 < glen {
                            mid_subtree(glen, 2 * cf + 1)
                        } else {
                            Seq::<int>::empty()
                        }) + seq![cf] + Self::right_sub(glen, cf));
                    }
                    let mut descend = false;
                    let mut left = c;
                    match c.left_child() {
                        Some(l) => {
                            if l.to_flattened() < self.tree_len {
                                descend = true;
                                left = l;
                            }
                        },
                        None => {},
                    }
                    if descend {
                        let ghost s0 = self.stack@;
                        self.stack.push(c);
                        self.state = State::Push(left);
                        proof {
                            assert(self.stack@.last() == c);
                            assert(self.stack@.drop_last() =~= s0);
                            assert(Self::anc(glen, self.stack@) == seq![cf] + Self::right_sub(
                                glen,
                                cf,
                            ) + Self::anc(glen, s0));
                            assert(self.visited@ + self.state_rem() =~= full);
                        }
                    } else {
                        // no occupied left child: in a complete tree the
                        // right child is then absent as well
                        self.state = State::Pop;
                        self.visited = Ghost(self.visited@.push(cf));
                        proof {
                            assert((if 2 * cf + 1 < glen {
                                mid_subtree(glen, 2 * cf + 1)
                            } else {
                                Seq::<int>::empty()
                            }) =~= Seq::<int>::empty());
                            assert(Self::right_sub(glen, cf) =~= Seq::<int>::empty());
                            assert(mid_subtree(glen, cf) =~= seq![cf]);
                            assert(full[old(self).visited_count()] == cf);
                            assert(self.visited@ + self.state_rem() =~= full);
                        }
                        return Some(c);
                    }
                },
                State::Pop => {
                    let ghost s0 = self.stack@;
                    match self.stack.pop() {
                        None => {
                            self.state = State::Done;
                            proof {
                                assert(self.visited@ =~= full);
                            }
                            return None;
                        },
                        Some(a) => {
                            let ghost af = a.flat();
                            proof {
                                crate::model::lemma_flat_nonneg(2, a.spec_depth(), a.spec_offset());
                                assert(s0.last() == a);
                                assert(s0.drop_last() =~= self.stack@);
                                assert(Self::anc(glen, s0) == seq![af] + Self::right_sub(glen, af)
                                    + Self::anc(glen, self.stack@));
                                assert(full[old(self).visited_count()] == af);
                            }
                            let mut to_right = false;
                            let mut right = a;
                            match a.right_child() {
                                Some(rc) => {
                                    if rc.to_flattened() < self.tree_len {
                                        to_right = true;
                                        right = rc;
                                    }
                                },
                                None => {},
                            }
                            self.visited = Ghost(self.visited@.push(af));
                            if to_right {
                                self.state = State::Push(right);
                            } else {
                                proof {
                                    assert(Self::right_sub(glen, af) =~= Seq::<int>::empty());
                                }
                            }
                            proof {
                                assert(self.visited@ + self.state_rem() =~= full);
                            }
                            return Some(a);
                        },
                    }
                },
                State::Done => {
                    proof {
                        assert(self.visited@ =~= full);
                    }
                    return None;
                },
            }
        }
    }
}

} // verus!
