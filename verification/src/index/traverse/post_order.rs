//! Post-order traversal: visit every subtree of a node left to right, then
//! the node, driven by a stack of frames that remember which children are
//! still pending.

use vstd::prelude::*;

verus! {

use crate::index::{Index, IndexRange};
use crate::traverse::orders::{
    post_children, post_order_seq, post_range, post_subtree, lemma_post_children_as_range,
    lemma_post_children_missing,
};

/// One pending node: its coordinate and the interval of its children's flat
/// positions that have not been entered yet.
struct Frame<const N: usize> {
    index: Index<N>,
    children: IndexRange<N>,
}

/// Walks the coordinates of a tree of `tree_len` nodes in post-order. Each
/// stacked frame owes the subtrees of its remaining children and then its
/// own coordinate; together with what was already yielded that is always
/// the whole post-order enumeration.
pub struct PostOrder<const N: usize> {
    stack: Vec<Frame<N>>,
    tree_len: usize,
    visited: Ghost<Seq<int>>,
}

impl<const N: usize> PostOrder<N> {
    /// The backing sequence's length this walk was started with.
    pub closed spec fn spec_len(self) -> int {
        self.tree_len as int
    }

    /// How many coordinates have been yielded so far.
    pub closed spec fn visited_count(self) -> int {
        self.visited@.len() as int
    }

    /// What one frame still owes: its remaining children's subtrees, then
    /// its own position.
    closed spec fn frame_seq(len: int, fr: Frame<N>) -> Seq<int> {
        post_range(N as int, len, fr.children.lo(), fr.children.hi()) + seq![fr.index.flat()]
    }

    /// A frame in good standing: a coordinate of the occupied tree, whose
    /// children interval lies past it and within the occupied positions.
    closed spec fn frame_wf(len: int, fr: Frame<N>) -> bool {
        &&& fr.index.wf()
        &&& fr.index.flat() < len
        &&& fr.children.hi() <= len
        &&& fr.children.lo() >= fr.children.hi() || fr.children.lo() > fr.index.flat()
    }

    /// What the stacked frames owe, topmost first.
    closed spec fn rem(len: int, stack: Seq<Frame<N>>) -> Seq<int>
        decreases stack.len(),
    {
        if stack.len() == 0 {
            Seq::empty()
        } else {
            Self::frame_seq(len, stack.last()) + Self::rem(len, stack.drop_last())
        }
    }

    /// The walk's invariant: what was yielded, followed by what the stack
    /// owes, is exactly the post-order enumeration.
    pub closed spec fn wf(self) -> bool {
        &&& N >= 1
        &&& forall|i: int|
            0 <= i < self.stack@.len() ==> Self::frame_wf(
                self.tree_len as int,
                #[trigger] self.stack@[i],
            )
        &&& self.visited@ + Self::rem(self.tree_len as int, self.stack@) == post_order_seq(
            N as int,
            self.tree_len as int,
        )
    }

    /// Builds the frame for the subtree rooted at `c`, which owes exactly
    /// that subtree's post-order.
    fn subtree_frame(c: Index<N>, tree_len: usize) -> (fr: Frame<N>)
        requires
            N >= 1,
            c.wf(),
            c.flat() < tree_len as int,
        ensures
            Self::frame_wf(tree_len as int, fr),
            Self::frame_seq(tree_len as int, fr) == post_subtree(
                N as int,
                tree_len as int,
                c.flat(),
            ),
            fr.index == c,
    {
        let children = c.iter_children().cap(tree_len);
        proof {
            let glen = tree_len as int;
            let cf = c.flat();
            crate::model::lemma_level_start_mono(N as int, 0, c.spec_depth());
            assert(cf >= 0);
            assert((N as int) * cf >= cf) by (nonlinear_arith)
                requires
                    N >= 1,
                    cf >= 0,
            ;
            assert(post_subtree(N as int, glen, cf) == post_children(N as int, glen, cf, 0)
                + seq![cf]);
            if (N as int) * cf + 1 < usize::MAX as int {
                lemma_post_children_as_range(N as int, glen, cf, 0);
            } else {
                lemma_post_children_missing(N as int, glen, cf, 0);
            }
        }
        Frame { index: c, children }
    }

    /// Starts a post-order walk over a tree of `tree_len` nodes.
    pub fn new(tree_len: usize) -> (r: Self)
        requires
            N >= 1,
        ensures
            r.wf(),
            r.spec_len() == tree_len as int,
            r.visited_count() == 0,
    {
        let ghost glen = tree_len as int;
        let mut stack: Vec<Frame<N>> = Vec::new();
        if tree_len > 0 {
            let fr = Self::subtree_frame(Index::root(), tree_len);
            stack.push(fr);
            proof {
                assert(stack@.drop_last() =~= Seq::<Frame<N>>::empty());
                assert(Self::rem(glen, Seq::<Frame<N>>::empty()) == Seq::<int>::empty());
                assert(Self::rem(glen, stack@) =~= post_subtree(N as int, glen, 0));
            }
        } else {
            proof {
                assert(post_order_seq(N as int, glen) =~= Seq::<int>::empty());
            }
        }
        let r = PostOrder { stack, tree_len, visited: Ghost(Seq::empty()) };
        proof {
            assert(r.visited@ + Self::rem(glen, r.stack@) =~= post_order_seq(N as int, glen));
        }
        r
    }

    /// The next coordinate in post-order: descends into the leftmost
    /// pending child until a node with no remaining children tops the
    /// stack, pops and yields it. `None` exactly when every occupied
    /// position was yielded.
    pub fn next(&mut self) -> (r: Option<Index<N>>)
        requires
            old(self).wf(),
        ensures
            final(self).wf(),
            final(self).spec_len() == old(self).spec_len(),
            match r {
                Some(idx) => {
                    &&& old(self).visited_count() < post_order_seq(
                        N as int,
                        old(self).spec_len(),
                    ).len()
                    &&& idx.wf()
                    &&& idx.flat() < old(self).spec_len()
                    &&& idx.flat() == post_order_seq(N as int, old(self).spec_len())[old(
                        self,
                    ).visited_count()]
                    &&& final(self).visited_count() == old(self).visited_count() + 1
                },
                None => {
                    &&& old(self).visited_count() == post_order_seq(
                        N as int,
                        old(self).spec_len(),
                    ).len()
                    &&& final(self).visited_count() == old(self).visited_count()
                },
            },
    {
        let ghost glen = self.tree_len as int;
        let ghost full = post_order_seq(N as int, glen);
        loop
            invariant
                old(self).wf(),
                self.wf(),
                N >= 1,
                self.tree_len == old(self).tree_len,
                glen == self.tree_len as int,
                full == post_order_seq(N as int, glen),
                self.visited@ == old(self).visited@,
            decreases (if self.stack@.len() == 0 {
                0int
            } else {
                glen - self.stack@.last().index.flat()
            }),
        {
            let ghost stack0 = self.stack@;
            match self.stack.pop() {
                None => {
                    proof {
                        assert(self.visited@ =~= full);
                    }
                    return None;
                },
                Some(mut frame) => {
                    proof {
                        assert(stack0.last() == frame);
                        assert(stack0.drop_last() =~= self.stack@);
                        assert(Self::rem(glen, stack0) == Self::frame_seq(glen, frame)
                            + Self::rem(glen, self.stack@));
                    }
                    let ghost rest = Self::rem(glen, self.stack@);
                    let ghost fr0 = frame;
                    match frame.children.next() {
                        Some(c) => {
                            proof {
                                assert(c.flat() == fr0.children.lo());
                                assert(c.flat() < fr0.children.hi());
                                assert(post_range(
                                    N as int,
                                    glen,
                                    fr0.children.lo(),
                                    fr0.children.hi(),
                                ) == post_subtree(N as int, glen, fr0.children.lo()) + post_range(
                                    N as int,
                                    glen,
                                    fr0.children.lo() + 1,
                                    fr0.children.hi(),
                                ));
                            }
                            let ghost s1 = self.stack@;
                            self.stack.push(frame);
                            proof {
                                assert(Self::frame_wf(glen, frame));
                                assert(self.stack@.last() == frame);
                                assert(self.stack@.drop_last() =~= s1);
                                assert(Self::rem(glen, self.stack@) == Self::frame_seq(glen, frame)
                                    + rest);
                            }
                            let child_frame = Self::subtree_frame(c, self.tree_len);
                            let ghost s2 = self.stack@;
                            self.stack.push(child_frame);
                            proof {
                                assert(self.stack@.last() == child_frame);
                                assert(self.stack@.drop_last() =~= s2);
                                assert(Self::rem(glen, self.stack@) == post_subtree(
                                    N as int,
                                    glen,
                                    c.flat(),
                                ) + (Self::frame_seq(glen, frame) + rest));
                                assert(self.visited@ + Self::rem(glen, self.stack@) =~= full);
                            }
                        },
                        None => {
                            proof {
                                assert(post_range(
                                    N as int,
                                    glen,
                                    fr0.children.lo(),
                                    fr0.children.hi(),
                                ) =~= Seq::<int>::empty());
                                assert(Self::frame_seq(glen, fr0) =~= seq![fr0.index.flat()]);
                                assert(full[old(self).visited_count()] == fr0.index.flat());
                            }
                            self.visited = Ghost(self.visited@.push(frame.index.flat()));
                            proof {
                                assert(self.visited@ + Self::rem(glen, self.stack@) =~= full);
                            }
                            return Some(frame.index);
                        },
                    }
                },
            }
        }
    }
}

} // verus!
