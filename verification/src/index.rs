//! Coordinates of nodes in a complete N-ary tree stored in heap-array
//! layout, and ranges of flat positions.
//!
//! An [`Index`] is a (depth, offset-within-level) pair; its flat position is
//! the number of nodes in shallower levels plus the offset. The conversions
//! in both directions are verified inverses of each other over every
//! representable coordinate.

use vstd::prelude::*;

pub mod traverse;

verus! {

use vstd::arithmetic::power::{pow, lemma_pow0};
use vstd::arithmetic::mul::lemma_mul_is_commutative;
use vstd::arithmetic::div_mod::{
    lemma_fundamental_div_mod, lemma_div_multiples_vanish_fancy,
    lemma_mod_division_less_than_divisor,
};
use crate::model::{
    flat_of, is_valid, level_start, lemma_child_flat, lemma_flat_bounds,
    lemma_level_start_at_least_depth, lemma_level_start_mono, lemma_level_start_unary,
    lemma_parent_valid, lemma_pow_pos,
};

/// A coordinate of a node in a complete `N`-ary tree: its depth below the
/// root and its offset within that level, counted from the left.
#[derive(Debug, Clone, Copy, PartialEq, Eq, PartialOrd, Ord, Hash)]
pub struct Index<const N: usize> {
    depth: usize,
    offset: usize,
}

impl<const N: usize> Index<N> {
    /// The depth, as a mathematical integer.
    pub closed spec fn spec_depth(self) -> int {
        self.depth as int
    }

    /// The offset within the level, as a mathematical integer.
    pub closed spec fn spec_offset(self) -> int {
        self.offset as int
    }

    /// The coordinate is representable: inside its level, with a flat
    /// position below `usize::MAX`.
    pub open spec fn wf(self) -> bool {
        is_valid(N as int, self.spec_depth(), self.spec_offset())
    }

    /// The flat position of this coordinate in the backing sequence.
    pub open spec fn flat(self) -> int {
        flat_of(N as int, self.spec_depth(), self.spec_offset())
    }

    /// Coordinates with equal depth and offset are one and the same.
    pub proof fn lemma_parts_determine(a: Self, b: Self)
        requires
            a.spec_depth() == b.spec_depth(),
            a.spec_offset() == b.spec_offset(),
        ensures
            a == b,
    {
    }

    /// Computes the flat position of `(depth, offset)`, or `None` when that
    /// pair is not a representable coordinate.
    fn flat_checked(depth: usize, offset: usize) -> (r: Option<usize>)
        requires
            N >= 1,
        ensures
            match r {
                Some(f) => is_valid(N as int, depth as int, offset as int) && f as int == flat_of(
                    N as int,
                    depth as int,
                    offset as int,
                ),
                None => !is_valid(N as int, depth as int, offset as int),
            },
    {
        if N == 1 {
            proof {
                lemma_level_start_unary(depth as int);
                vstd::arithmetic::power::lemma1_pow(depth as nat);
            }
            if offset == 0 && depth < usize::MAX {
                Some(depth)
            } else {
                None
            }
        } else {
            let mut i: usize = 0;
            let mut count: usize = 0;
            let mut width: usize = 1;
            proof {
                lemma_pow0(N as int);
            }
            while i < depth
                invariant
                    N >= 2,
                    i <= depth,
                    count as int == level_start(N as int, i as int),
                    count <= usize::MAX - 1,
                    i < depth ==> width as int == pow(N as int, i as nat),
                    i == depth && depth > 0 ==> width as int == pow(N as int, (depth - 1) as nat),
                    depth == 0 ==> width == 1,
                decreases depth - i,
            {
                proof {
                    lemma_pow_pos(N as int, i as nat);
                    lemma_level_start_mono(N as int, i as int + 1, depth as int);
                    assert(level_start(N as int, i as int + 1) == count as int + width as int);
                }
                if width > usize::MAX - 1 - count {
                    // the next level would start at or past usize::MAX, so
                    // every coordinate at `depth` is unrepresentable
                    return None;
                }
                count = count + width;
                i = i + 1;
                if i < depth {
                    if width > usize::MAX / N {
                        // the level at `i` is already wider than the whole
                        // address space, so level `depth` starts past it
                        proof {
                            lemma_fundamental_div_mod(usize::MAX as int, N as int);
                            lemma_mod_division_less_than_divisor(usize::MAX as int, N as int);
                            assert((N as int) * (width as int) > usize::MAX as int)
                                by (nonlinear_arith)
                                requires
                                    width as int > (usize::MAX as int) / (N as int),
                                    N >= 1,
                                    usize::MAX as int == (N as int) * ((usize::MAX as int) / (
                                    N as int)) + (usize::MAX as int) % (N as int),
                                    (usize::MAX as int) % (N as int) < (N as int),
                            ;
                            reveal(pow);
                            assert(pow(N as int, i as nat) == (N as int) * (width as int));
                            lemma_level_start_mono(N as int, i as int + 1, depth as int);
                            assert(level_start(N as int, i as int + 1) > usize::MAX as int);
                        }
                        return None;
                    }
                    proof {
                        lemma_fundamental_div_mod(usize::MAX as int, N as int);
                        lemma_mod_division_less_than_divisor(usize::MAX as int, N as int);
                        assert((N as int) * (width as int) <= usize::MAX as int)
                            by (nonlinear_arith)
                            requires
                                width as int <= (usize::MAX as int) / (N as int),
                                N >= 1,
                                usize::MAX as int == (N as int) * ((usize::MAX as int) / (N as int))
                                    + (usize::MAX as int) % (N as int),
                                (usize::MAX as int) % (N as int) >= 0,
                        ;
                        reveal(pow);
                        assert(pow(N as int, i as nat) == (N as int) * (width as int));
                        lemma_mul_is_commutative(N as int, width as int);
                    }
                    width = width * N;
                }
            }
            // count == level_start(N, depth); check the offset against the
            // level's width, then the flat position against usize::MAX
            let in_level = if depth == 0 {
                proof {
                    lemma_pow0(N as int);
                }
                offset == 0
            } else {
                proof {
                    reveal(pow);
                    assert(pow(N as int, depth as nat) == (N as int) * (width as int));
                    lemma_fundamental_div_mod(offset as int, N as int);
                    lemma_mod_division_less_than_divisor(offset as int, N as int);
                    let q = (offset as int) / (N as int);
                    let r = (offset as int) % (N as int);
                    if q < width as int {
                        assert((offset as int) < (N as int) * (width as int)) by (nonlinear_arith)
                            requires
                                N >= 1,
                                q <= width as int - 1,
                                offset as int == (N as int) * q + r,
                                r < N as int,
                        ;
                    } else {
                        assert((offset as int) >= (N as int) * (width as int)) by (nonlinear_arith)
                            requires
                                N >= 1,
                                q >= width as int,
                                offset as int == (N as int) * q + r,
                                r >= 0,
                        ;
                    }
                }
                offset / N < width
            };
            if !in_level {
                return None;
            }
            if offset > usize::MAX - 1 - count {
                return None;
            }
            Some(count + offset)
        }
    }

    /// Builds the coordinate `(depth, offset)`, or `None` when the offset is
    /// out of range for that depth or the flat position would not be
    /// representable.
    pub fn new(depth: usize, offset: usize) -> (r: Option<Self>)
        requires
            N >= 1,
        ensures
            r is Some <==> is_valid(N as int, depth as int, offset as int),
            r matches Some(i) ==> i.spec_depth() == depth as int && i.spec_offset()
                == offset as int,
    {
        match Self::flat_checked(depth, offset) {
            Some(_) => Some(Index { depth, offset }),
            None => None,
        }
    }

    /// The unique coordinate of the root: depth 0, offset 0, flat position 0.
    pub fn root() -> (r: Self)
        requires
            N >= 1,
        ensures
            r.wf(),
            r.spec_depth() == 0,
            r.spec_offset() == 0,
            r.flat() == 0,
    {
        proof {
            lemma_pow0(N as int);
        }
        Index { depth: 0, offset: 0 }
    }

    /// The depth of this coordinate below the root.
    pub fn depth(&self) -> (r: usize)
        ensures
            r as int == self.spec_depth(),
    {
        self.depth
    }

    /// The offset of this coordinate within its level.
    pub fn offset(&self) -> (r: usize)
        ensures
            r as int == self.spec_offset(),
    {
        self.offset
    }

    /// The coordinate one level up, or `None` at the root. The result is the
    /// unique coordinate of which `self` is a child.
    pub fn parent(&self) -> (r: Option<Self>)
        requires
            self.wf(),
        ensures
            match r {
                None => self.spec_depth() == 0,
                Some(p) => {
                    &&& self.spec_depth() >= 1
                    &&& p.wf()
                    &&& p.spec_depth() == self.spec_depth() - 1
                    &&& p.spec_offset() == self.spec_offset() / (N as int)
                    &&& p.spec_offset() * (N as int) + (self.spec_offset() % (N as int))
                        == self.spec_offset()
                    &&& p.flat() == (self.flat() - 1) / (N as int)
                },
            },
    {
        if self.depth == 0 {
            None
        } else {
            proof {
                lemma_parent_valid(N as int, self.depth as int, self.offset as int);
                let pf = flat_of(N as int, self.depth as int - 1, self.offset as int / N as int);
                let k = self.offset as int % N as int;
                lemma_child_flat(
                    N as int,
                    self.depth as int - 1,
                    self.offset as int / N as int,
                    k,
                );
                lemma_flat_bounds(
                    N as int,
                    self.depth as int - 1,
                    self.offset as int / N as int,
                );
                lemma_div_multiples_vanish_fancy(pf, k, N as int);
            }
            Some(Index { depth: self.depth - 1, offset: self.offset / N })
        }
    }

    /// The `n`-th child (counted from the left, `n < N`), one level deeper at
    /// offset `N * offset + n`; `None` when `n` is out of range or the
    /// child's flat position would not be representable.
    pub fn nth_child(&self, n: usize) -> (r: Option<Self>)
        requires
            self.wf(),
        ensures
            match r {
                Some(c) => {
                    &&& n < N
                    &&& c.wf()
                    &&& c.spec_depth() == self.spec_depth() + 1
                    &&& c.spec_offset() == (N as int) * self.spec_offset() + n as int
                    &&& c.flat() == (N as int) * self.flat() + n as int + 1
                },
                None => n >= N || (N as int) * self.flat() + n as int + 1 >= usize::MAX as int,
            },
    {
        if n >= N {
            return None;
        }
        proof {
            lemma_child_flat(N as int, self.depth as int, self.offset as int, n as int);
            lemma_level_start_at_least_depth(N as int, self.depth as int + 1);
            lemma_level_start_mono(N as int, 0, self.depth as int + 1);
        }
        let f = self.to_flattened();
        proof {
            lemma_mul_is_commutative(f as int, N as int);
        }
        match f.checked_mul(N) {
            Some(nf) => {
                if n <= usize::MAX - 2 && nf <= usize::MAX - 2 - n {
                    Some(Index { depth: self.depth + 1, offset: N * self.offset + n })
                } else {
                    None
                }
            },
            None => None,
        }
    }

    /// The interval of flat positions of all up-to-`N` children of this
    /// coordinate, clipped to the representable address space; empty when
    /// even the first child's position would not be representable.
    pub fn iter_children(&self) -> (r: IndexRange<N>)
        requires
            self.wf(),
        ensures
            (N as int) * self.flat() + 1 < usize::MAX as int ==> {
                &&& r.lo() == (N as int) * self.flat() + 1
                &&& r.hi() == if (N as int) * self.flat() + 1 + (N as int) <= usize::MAX as int {
                    (N as int) * self.flat() + 1 + (N as int)
                } else {
                    usize::MAX as int
                }
            },
            (N as int) * self.flat() + 1 >= usize::MAX as int ==> r.lo() == 0 && r.hi() == 0,
    {
        let f = self.to_flattened();
        proof {
            lemma_mul_is_commutative(f as int, N as int);
        }
        match f.checked_mul(N) {
            Some(nf) => {
                if nf < usize::MAX - 1 {
                    let start = nf + 1;
                    let end = match start.checked_add(N) {
                        Some(e) => e,
                        None => usize::MAX,
                    };
                    IndexRange::from_flattened(start..end)
                } else {
                    IndexRange::from_flattened(0..0)
                }
            },
            None => IndexRange::from_flattened(0..0),
        }
    }

    /// The leftmost child: the 0-th.
    pub fn left_most_child(&self) -> (r: Option<Self>)
        requires
            self.wf(),
        ensures
            match r {
                Some(c) => {
                    &&& c.wf()
                    &&& c.spec_depth() == self.spec_depth() + 1
                    &&& c.spec_offset() == (N as int) * self.spec_offset()
                    &&& c.flat() == (N as int) * self.flat() + 1
                },
                None => (N as int) * self.flat() + 1 >= usize::MAX as int,
            },
    {
        self.nth_child(0)
    }

    /// The rightmost child: the `(N - 1)`-th.
    pub fn right_most_child(&self) -> (r: Option<Self>)
        requires
            self.wf(),
        ensures
            match r {
                Some(c) => {
                    &&& c.wf()
                    &&& c.spec_depth() == self.spec_depth() + 1
                    &&& c.spec_offset() == (N as int) * self.spec_offset() + (N - 1) as int
                    &&& c.flat() == (N as int) * self.flat() + (N as int)
                },
                None => (N as int) * self.flat() + (N as int) >= usize::MAX as int,
            },
    {
        self.nth_child(N - 1)
    }

    /// The coordinate of flat position `index` (the inverse of
    /// [`Self::to_flattened`]). Position `usize::MAX` is reserved and has no
    /// coordinate.
    pub fn from_flattened(index: usize) -> (r: Self)
        requires
            N >= 1,
            index < usize::MAX,
        ensures
            r.wf(),
            r.flat() == index as int,
    {
        if N == 1 {
            proof {
                lemma_level_start_unary(index as int);
                vstd::arithmetic::power::lemma1_pow(index as nat);
            }
            Index { depth: index, offset: 0 }
        } else {
            let mut depth: usize = 0;
            let mut count: usize = 0;
            let mut width: usize = 1;
            proof {
                lemma_pow0(N as int);
            }
            loop
                invariant_except_break
                    N >= 2,
                    index < usize::MAX,
                    count as int == level_start(N as int, depth as int),
                    width as int == pow(N as int, depth as nat),
                    count <= index,
                ensures
                    count as int == level_start(N as int, depth as int),
                    count <= index,
                    index - count < pow(N as int, depth as nat),
                decreases index - count,
            {
                proof {
                    lemma_pow_pos(N as int, depth as nat);
                }
                match count.checked_add(width) {
                    Some(nc) => {
                        if index >= nc {
                            proof {
                                assert(level_start(N as int, depth as int + 1) == count as int
                                    + width as int);
                                lemma_level_start_at_least_depth(N as int, depth as int + 1);
                            }
                            count = nc;
                            depth = depth + 1;
                            proof {
                                reveal(pow);
                                assert(pow(N as int, depth as nat) == (N as int) * pow(
                                    N as int,
                                    (depth - 1) as nat,
                                ));
                                lemma_mul_is_commutative(width as int, N as int);
                            }
                            match width.checked_mul(N) {
                                Some(nw) => {
                                    width = nw;
                                },
                                None => {
                                    break ;
                                },
                            }
                        } else {
                            break ;
                        }
                    },
                    None => {
                        break ;
                    },
                }
            }
            let offset = index - count;
            proof {
                lemma_level_start_mono(N as int, 0, depth as int);
            }
            Index { depth, offset }
        }
    }

    /// The flat position of this coordinate (the inverse of
    /// [`Self::from_flattened`]).
    pub fn to_flattened(&self) -> (r: usize)
        requires
            self.wf(),
        ensures
            r as int == self.flat(),
            r < usize::MAX,
    {
        match Self::flat_checked(self.depth, self.offset) {
            Some(f) => f,
            None => {
                // unreachable: a well-formed coordinate always has a flat position
                proof {
                    assert(false);
                }
                0
            },
        }
    }
}

impl Index<2> {
    /// The left child of a binary-tree coordinate.
    pub fn left_child(&self) -> (r: Option<Self>)
        requires
            self.wf(),
        ensures
            match r {
                Some(c) => {
                    &&& c.wf()
                    &&& c.spec_depth() == self.spec_depth() + 1
                    &&& c.spec_offset() == 2 * self.spec_offset()
                    &&& c.flat() == 2 * self.flat() + 1
                },
                None => 2 * self.flat() + 1 >= usize::MAX as int,
            },
    {
        self.left_most_child()
    }

    /// The right child of a binary-tree coordinate.
    pub fn right_child(&self) -> (r: Option<Self>)
        requires
            self.wf(),
        ensures
            match r {
                Some(c) => {
                    &&& c.wf()
                    &&& c.spec_depth() == self.spec_depth() + 1
                    &&& c.spec_offset() == 2 * self.spec_offset() + 1
                    &&& c.flat() == 2 * self.flat() + 2
                },
                None => 2 * self.flat() + 2 >= usize::MAX as int,
            },
    {
        self.right_most_child()
    }
}

/// A half-open interval of flat positions (one level of the tree, or one
/// node's group of children), iterable from either end. Its view is the
/// sequence of flat positions it still holds.
#[derive(Debug, Clone)]
pub struct IndexRange<const N: usize> {
    start: usize,
    end: usize,
}

impl<const N: usize> View for IndexRange<N> {
    type V = Seq<int>;

    open spec fn view(&self) -> Seq<int> {
        Seq::new(
            if self.lo() <= self.hi() {
                (self.hi() - self.lo()) as nat
            } else {
                0
            },
            |i: int| self.lo() + i,
        )
    }
}

impl<const N: usize> IndexRange<N> {
    /// The first flat position of the interval.
    pub closed spec fn lo(&self) -> int {
        self.start as int
    }

    /// The flat position just past the interval.
    pub closed spec fn hi(&self) -> int {
        self.end as int
    }

    /// The interval's bounds fit the address space, so every position it
    /// holds is a representable coordinate.
    pub proof fn lemma_bounds(&self)
        ensures
            0 <= self.lo(),
            self.hi() <= usize::MAX as int,
            forall|i: int| 0 <= i < self@.len() ==> self.lo() <= #[trigger] self@[i] < self.hi(),
    {
    }

    /// The interval that holds no position.
    pub fn empty() -> (r: Self)
        ensures
            r.lo() == 0,
            r.hi() == 0,
            r@ == Seq::<int>::empty(),
    {
        let r = IndexRange { start: 0, end: 0 };
        proof {
            assert(r@ =~= Seq::<int>::empty());
        }
        r
    }

    /// The interval holding exactly the root's flat position.
    pub fn root() -> (r: Self)
        requires
            N >= 1,
        ensures
            r.lo() == 0,
            r.hi() == 1,
            r@ == seq![0int],
    {
        let r = IndexRange { start: 0, end: 1 };
        proof {
            assert(r@ =~= seq![0int]);
        }
        r
    }

    /// The interval of all representable coordinates at `depth`: it starts
    /// where the level starts and spans the level's width `N^depth`, clipped
    /// to the address space. Empty when the level lies wholly past it.
    pub fn level(depth: usize) -> (r: Self)
        requires
            N >= 1,
        ensures
            level_start(N as int, depth as int) < usize::MAX as int ==> {
                &&& r.lo() == level_start(N as int, depth as int)
                &&& r.hi() == if level_start(N as int, depth as int) + pow(N as int, depth as nat)
                    <= usize::MAX as int {
                    level_start(N as int, depth as int) + pow(N as int, depth as nat)
                } else {
                    usize::MAX as int
                }
            },
            level_start(N as int, depth as int) >= usize::MAX as int ==> r.lo() == r.hi(),
            level_start(N as int, depth as int) + pow(N as int, depth as nat) <= usize::MAX as int
                ==> r@.len() == pow(N as int, depth as nat),
    {
        if N == 1 {
            proof {
                lemma_level_start_unary(depth as int);
                vstd::arithmetic::power::lemma1_pow(depth as nat);
            }
            if depth < usize::MAX {
                IndexRange { start: depth, end: depth + 1 }
            } else {
                IndexRange { start: 0, end: 0 }
            }
        } else {
            let mut i: usize = 0;
            let mut count: usize = 0;
            let mut width: usize = 1;
            proof {
                lemma_pow0(N as int);
            }
            while i < depth
                invariant
                    N >= 2,
                    i <= depth,
                    count as int == level_start(N as int, i as int),
                    count <= usize::MAX - 1,
                    width as int == pow(N as int, i as nat),
                decreases depth - i,
            {
                proof {
                    lemma_pow_pos(N as int, i as nat);
                    lemma_level_start_mono(N as int, i as int + 1, depth as int);
                    assert(level_start(N as int, i as int + 1) == count as int + width as int);
                }
                if width > usize::MAX - 1 - count {
                    proof {
                        lemma_pow_pos(N as int, depth as nat);
                    }
                    return IndexRange { start: 0, end: 0 };
                }
                count = count + width;
                i = i + 1;
                proof {
                    reveal(pow);
                    assert(pow(N as int, i as nat) == (N as int) * pow(
                        N as int,
                        (i - 1) as nat,
                    ));
                    lemma_mul_is_commutative(width as int, N as int);
                }
                match width.checked_mul(N) {
                    Some(nw) => {
                        width = nw;
                    },
                    None => {
                        // the level at `i` is wider than the address space;
                        // deeper levels start past it, this one is clipped
                        if i < depth {
                            proof {
                                lemma_pow_pos(N as int, i as nat);
                                lemma_pow_pos(N as int, depth as nat);
                                lemma_level_start_mono(N as int, i as int + 1, depth as int);
                                assert(level_start(N as int, i as int + 1) == count as int + pow(
                                    N as int,
                                    i as nat,
                                ));
                            }
                            return IndexRange { start: 0, end: 0 };
                        } else {
                            return IndexRange { start: count, end: usize::MAX };
                        }
                    },
                }
            }
            match count.checked_add(width) {
                Some(e) => IndexRange { start: count, end: e },
                None => IndexRange { start: count, end: usize::MAX },
            }
        }
    }

    /// How many positions the interval still holds.
    pub fn len(&self) -> (r: usize)
        ensures
            r as int == self@.len(),
    {
        if self.start < self.end {
            self.end - self.start
        } else {
            0
        }
    }

    /// Whether the interval holds no position.
    pub fn is_empty(&self) -> (r: bool)
        ensures
            r <==> self@.len() == 0,
    {
        self.start >= self.end
    }

    /// Clips the interval to the first `max` flat positions: the nominal
    /// extent of a level or child group never grows, only shrinks, when a
    /// backing sequence of length `max` is in play.
    pub fn cap(self, max: usize) -> (r: Self)
        ensures
            r.lo() == self.lo(),
            r.hi() == if self.hi() < max as int {
                self.hi()
            } else {
                max as int
            },
    {
        let end = if self.end < max {
            self.end
        } else {
            max
        };
        IndexRange { start: self.start, end }
    }

    /// Reinterprets a plain range of flat positions as an interval.
    pub fn from_flattened(range: core::ops::Range<usize>) -> (r: Self)
        ensures
            r.lo() == range.start as int,
            r.hi() == range.end as int,
    {
        IndexRange { start: range.start, end: range.end }
    }

    /// The interval's bounds as a plain range of flat positions.
    pub fn to_flattened(&self) -> (r: core::ops::Range<usize>)
        ensures
            r.start as int == self.lo(),
            r.end as int == self.hi(),
    {
        self.start..self.end
    }

    /// Takes the first position of the interval as a coordinate, or `None`
    /// when the interval is empty.
    pub fn next(&mut self) -> (r: Option<Index<N>>)
        requires
            N >= 1,
        ensures
            match r {
                Some(i) => {
                    &&& old(self)@.len() > 0
                    &&& i.wf()
                    &&& i.flat() == old(self)@[0]
                    &&& final(self)@ == old(self)@.skip(1)
                    &&& final(self).lo() == old(self).lo() + 1
                    &&& final(self).hi() == old(self).hi()
                },
                None => {
                    &&& old(self)@.len() == 0
                    &&& *final(self) == *old(self)
                },
            },
    {
        if self.start < self.end {
            let i = Index::<N>::from_flattened(self.start);
            self.start = self.start + 1;
            proof {
                assert(self@ =~= old(self)@.skip(1));
            }
            Some(i)
        } else {
            None
        }
    }

    /// Takes the last position of the interval as a coordinate, or `None`
    /// when the interval is empty.
    pub fn next_back(&mut self) -> (r: Option<Index<N>>)
        requires
            N >= 1,
        ensures
            match r {
                Some(i) => {
                    &&& old(self)@.len() > 0
                    &&& i.wf()
                    &&& i.flat() == old(self)@.last()
                    &&& final(self)@ == old(self)@.drop_last()
                    &&& final(self).lo() == old(self).lo()
                    &&& final(self).hi() == old(self).hi() - 1
                },
                None => {
                    &&& old(self)@.len() == 0
                    &&& *final(self) == *old(self)
                },
            },
    {
        if self.start < self.end {
            self.end = self.end - 1;
            let i = Index::<N>::from_flattened(self.end);
            proof {
                assert(self@ =~= old(self)@.drop_last());
            }
            Some(i)
        } else {
            None
        }
    }
}

} // verus!
