//! The four traversal orders as mathematical sequences of flat positions,
//! with proofs that each enumerates every occupied position exactly once.

use vstd::prelude::*;

verus! {

use vstd::seq_lib::lemma_seq_concat_contains_all_elements;
use vstd::set_lib::{set_int_range, lemma_int_range};
use crate::model::{
    subtree_contains, lemma_siblings_disjoint, lemma_subtree_contains_ge, lemma_subtree_of_root,
    lemma_subtree_split, lemma_subtree_via_child,
};

/// Pre-order on the subtree rooted at flat position `p` of a complete
/// `n`-ary tree whose backing sequence holds `len` nodes: the root first,
/// then each child's subtree, left to right.
pub open spec fn pre_subtree(n: int, len: int, p: int) -> Seq<int>
    decreases len - p, 1int, 0int,
{
    if n < 1 || p < 0 || p >= len {
        Seq::empty()
    } else {
        seq![p] + pre_children(n, len, p, 0)
    }
}

/// Pre-order on the subtrees of the children `k..n` of `p`, left to right.
pub open spec fn pre_children(n: int, len: int, p: int, k: int) -> Seq<int>
    decreases len - p, 0int, n - k,
    via pre_children_decreases
{
    if n < 1 || p < 0 || p >= len || k < 0 || k >= n {
        Seq::empty()
    } else {
        (if n * p + 1 + k < len {
            pre_subtree(n, len, n * p + 1 + k)
        } else {
            Seq::empty()
        }) + pre_children(n, len, p, k + 1)
    }
}

#[via_fn]
proof fn pre_children_decreases(n: int, len: int, p: int, k: int) {
    if !(n < 1 || p < 0 || p >= len || k < 0 || k >= n) {
        assert(n * p >= p) by (nonlinear_arith)
            requires
                n >= 1,
                p >= 0,
        ;
    }
}

/// Post-order on the subtree rooted at `p`: each child's subtree left to
/// right, then the root.
pub open spec fn post_subtree(n: int, len: int, p: int) -> Seq<int>
    decreases len - p, 1int, 0int,
{
    if n < 1 || p < 0 || p >= len {
        Seq::empty()
    } else {
        post_children(n, len, p, 0) + seq![p]
    }
}

/// Post-order on the subtrees of the children `k..n` of `p`, left to right.
pub open spec fn post_children(n: int, len: int, p: int, k: int) -> Seq<int>
    decreases len - p, 0int, n - k,
    via post_children_decreases
{
    if n < 1 || p < 0 || p >= len || k < 0 || k >= n {
        Seq::empty()
    } else {
        (if n * p + 1 + k < len {
            post_subtree(n, len, n * p + 1 + k)
        } else {
            Seq::empty()
        }) + post_children(n, len, p, k + 1)
    }
}

#[via_fn]
proof fn post_children_decreases(n: int, len: int, p: int, k: int) {
    if !(n < 1 || p < 0 || p >= len || k < 0 || k >= n) {
        assert(n * p >= p) by (nonlinear_arith)
            requires
                n >= 1,
                p >= 0,
        ;
    }
}

/// Post-order on a run of sibling subtrees at consecutive flat positions
/// `s..e` (all below `len`): how an iterator frame sees the children it has
/// not yet entered.
pub open spec fn post_range(n: int, len: int, s: int, e: int) -> Seq<int>
    decreases e - s,
{
    if s >= e {
        Seq::empty()
    } else {
        post_subtree(n, len, s) + post_range(n, len, s + 1, e)
    }
}

/// In-order on the subtree of a binary tree rooted at `p`: the left subtree,
/// the root, the right subtree.
pub open spec fn mid_subtree(len: int, p: int) -> Seq<int>
    decreases len - p,
{
    if p < 0 || p >= len {
        Seq::empty()
    } else {
        (if 2 * p + 1 < len {
            mid_subtree(len, 2 * p + 1)
        } else {
            Seq::empty()
        }) + seq![p] + (if 2 * p + 2 < len {
            mid_subtree(len, 2 * p + 2)
        } else {
            Seq::empty()
        })
    }
}

/// The full pre-order enumeration of a tree of `len` nodes.
pub open spec fn pre_order_seq(n: int, len: int) -> Seq<int> {
    pre_subtree(n, len, 0)
}

/// The full post-order enumeration of a tree of `len` nodes.
pub open spec fn post_order_seq(n: int, len: int) -> Seq<int> {
    post_subtree(n, len, 0)
}

/// The full in-order enumeration of a binary tree of `len` nodes.
pub open spec fn in_order_seq(len: int) -> Seq<int> {
    mid_subtree(len, 0)
}

/// The full level-order enumeration: the backing sequence's own order.
pub open spec fn level_order_seq(len: int) -> Seq<int> {
    Seq::new(if len >= 0 { len as nat } else { 0 }, |i: int| i)
}

/// Concatenating duplicate-free sequences over disjoint elements stays
/// duplicate-free.
pub proof fn lemma_concat_no_dup(a: Seq<int>, b: Seq<int>)
    requires
        a.no_duplicates(),
        b.no_duplicates(),
        forall|q: int| a.contains(q) ==> !b.contains(q),
    ensures
        (a + b).no_duplicates(),
{
    assert forall|i: int, j: int|
        0 <= i < (a + b).len() && 0 <= j < (a + b).len() && i != j implies (a + b)[i] != (a
        + b)[j] by {
        if i < a.len() && j >= a.len() {
            assert(a.contains(a[i]));
            assert(b.contains(b[j - a.len()]));
        }
        if j < a.len() && i >= a.len() {
            assert(a.contains(a[j]));
            assert(b.contains(b[i - a.len()]));
        }
    }
}

/// Children at or past position `len`, or past the branching factor, have
/// empty subtrees: nothing of them is enumerated.
pub proof fn lemma_pre_children_missing(n: int, len: int, p: int, k: int)
    requires
        n >= 1,
        0 <= k,
        k >= n || p < 0 || n * p + 1 + k >= len,
    ensures
        pre_children(n, len, p, k) == Seq::<int>::empty(),
    decreases n - k,
{
    if !(n < 1 || p < 0 || p >= len || k < 0 || k >= n) {
        lemma_pre_children_missing(n, len, p, k + 1);
        assert(pre_children(n, len, p, k) =~= Seq::<int>::empty());
    }
}

/// The post-order twin of [`lemma_pre_children_missing`].
pub proof fn lemma_post_children_missing(n: int, len: int, p: int, k: int)
    requires
        n >= 1,
        0 <= k,
        k >= n || p < 0 || n * p + 1 + k >= len,
    ensures
        post_children(n, len, p, k) == Seq::<int>::empty(),
    decreases n - k,
{
    if !(n < 1 || p < 0 || p >= len || k < 0 || k >= n) {
        lemma_post_children_missing(n, len, p, k + 1);
        assert(post_children(n, len, p, k) =~= Seq::<int>::empty());
    }
}

/// The post-order of the children `k..n` of `p` is the post-order of the
/// run of their flat positions, clipped to `len`: how a traversal frame's
/// remaining-children interval stands for the subtrees it has not entered.
pub proof fn lemma_post_children_as_range(n: int, len: int, p: int, k: int)
    requires
        n >= 1,
        0 <= p < len,
        0 <= k <= n,
    ensures
        post_children(n, len, p, k) == post_range(
            n,
            len,
            n * p + 1 + k,
            if n * p + 1 + n <= len {
                n * p + 1 + n
            } else {
                len
            },
        ),
    decreases n - k,
{
    let e = if n * p + 1 + n <= len {
        n * p + 1 + n
    } else {
        len
    };
    let c = n * p + 1 + k;
    if k >= n {
        assert(post_children(n, len, p, k) =~= Seq::<int>::empty());
        assert(post_range(n, len, c, e) =~= Seq::<int>::empty());
    } else {
        lemma_post_children_as_range(n, len, p, k + 1);
        if c < len {
            assert(post_range(n, len, c, e) == post_subtree(n, len, c) + post_range(
                n,
                len,
                c + 1,
                e,
            ));
        } else {
            lemma_post_children_missing(n, len, p, k);
            assert(post_range(n, len, c, e) =~= Seq::<int>::empty());
            assert(post_range(n, len, c + 1, e) =~= Seq::<int>::empty());
        }
    }
}

/// What a pre-order subtree enumeration holds: exactly the positions of the
/// subtree that exist, each once.
pub proof fn lemma_pre_subtree_elems(n: int, len: int, p: int)
    requires
        n >= 1,
        0 <= p < len,
    ensures
        pre_subtree(n, len, p).no_duplicates(),
        forall|q: int| #[trigger]
            pre_subtree(n, len, p).contains(q) <==> (subtree_contains(n, p, q) && q < len),
    decreases len - p, 1int, 0int,
{
    broadcast use lemma_seq_concat_contains_all_elements;

    lemma_pre_children_elems(n, len, p, 0);
    let ch = pre_children(n, len, p, 0);
    assert(pre_subtree(n, len, p) == seq![p] + ch);
    assert forall|q: int| seq![p].contains(q) implies !ch.contains(q) by {
        if ch.contains(q) {
            let j = choose|j: int|
                0 <= j < n && #[trigger] subtree_contains(n, n * p + 1 + j, q);
            lemma_subtree_contains_ge(n, n * p + 1 + j, q);
            assert(n * p >= p) by (nonlinear_arith)
                requires
                    n >= 1,
                    p >= 0,
            ;
        }
    }
    lemma_concat_no_dup(seq![p], ch);
    assert forall|q: int| #[trigger]
        pre_subtree(n, len, p).contains(q) implies (subtree_contains(n, p, q) && q < len) by {
        if seq![p].contains(q) {
            assert(q == p);
        } else {
            assert(ch.contains(q));
            let j = choose|j: int|
                0 <= j < n && #[trigger] subtree_contains(n, n * p + 1 + j, q);
            lemma_subtree_via_child(n, p, j, q);
        }
    }
    assert forall|q: int| (subtree_contains(n, p, q) && q < len) implies #[trigger]
        pre_subtree(n, len, p).contains(q) by {
        if q == p {
            assert(seq![p][0] == p);
            assert(seq![p].contains(q));
        } else {
            lemma_subtree_split(n, p, q);
            assert(ch.contains(q));
        }
    }
}

/// What the pre-order enumerations of children `k..n` hold: the existing
/// positions of their subtrees, each once.
pub proof fn lemma_pre_children_elems(n: int, len: int, p: int, k: int)
    requires
        n >= 1,
        0 <= p < len,
        0 <= k <= n,
    ensures
        pre_children(n, len, p, k).no_duplicates(),
        forall|q: int| #[trigger]
            pre_children(n, len, p, k).contains(q) <==> (q < len && exists|j: int|
                k <= j < n && #[trigger] subtree_contains(n, n * p + 1 + j, q)),
    decreases len - p, 0int, n - k,
{
    broadcast use lemma_seq_concat_contains_all_elements;

    if k >= n {
        assert forall|q: int| !(#[trigger] pre_children(n, len, p, k).contains(q)) by {}
    } else {
        let c = n * p + 1 + k;
        assert(c > p) by {
            assert(n * p >= p) by (nonlinear_arith)
                requires
                    n >= 1,
                    p >= 0,
            ;
        }
        lemma_pre_children_elems(n, len, p, k + 1);
        let head = if c < len {
            pre_subtree(n, len, c)
        } else {
            Seq::<int>::empty()
        };
        let tail = pre_children(n, len, p, k + 1);
        assert(pre_children(n, len, p, k) == head + tail);
        if c < len {
            lemma_pre_subtree_elems(n, len, c);
        }
        assert forall|q: int| head.contains(q) implies !tail.contains(q) by {
            assert(subtree_contains(n, c, q));
            if tail.contains(q) {
                let j = choose|j: int|
                    k + 1 <= j < n && #[trigger] subtree_contains(n, n * p + 1 + j, q);
                lemma_siblings_disjoint(n, p, k, j, q);
            }
        }
        lemma_concat_no_dup(head, tail);
        assert forall|q: int| #[trigger]
            pre_children(n, len, p, k).contains(q) implies (q < len && exists|j: int|
                k <= j < n && #[trigger] subtree_contains(n, n * p + 1 + j, q)) by {
            if head.contains(q) {
                assert(subtree_contains(n, n * p + 1 + k, q));
            } else {
                assert(tail.contains(q));
            }
        }
        assert forall|q: int| (q < len && exists|j: int|
            k <= j < n && #[trigger] subtree_contains(n, n * p + 1 + j, q)) implies #[trigger]
            pre_children(n, len, p, k).contains(q) by {
            let j = choose|j: int|
                k <= j < n && #[trigger] subtree_contains(n, n * p + 1 + j, q);
            if j == k {
                lemma_subtree_contains_ge(n, c, q);
                assert(head.contains(q));
            } else {
                assert(tail.contains(q));
            }
            assert((head + tail).contains(q));
        }
    }
}

/// What a post-order subtree enumeration holds: the same positions as the
/// pre-order one, each once.
pub proof fn lemma_post_subtree_elems(n: int, len: int, p: int)
    requires
        n >= 1,
        0 <= p < len,
    ensures
        post_subtree(n, len, p).no_duplicates(),
        forall|q: int| #[trigger]
            post_subtree(n, len, p).contains(q) <==> (subtree_contains(n, p, q) && q < len),
    decreases len - p, 1int, 0int,
{
    broadcast use lemma_seq_concat_contains_all_elements;

    lemma_post_children_elems(n, len, p, 0);
    let ch = post_children(n, len, p, 0);
    assert(post_subtree(n, len, p) == ch + seq![p]);
    assert forall|q: int| ch.contains(q) implies !seq![p].contains(q) by {
        let j = choose|j: int|
            0 <= j < n && #[trigger] subtree_contains(n, n * p + 1 + j, q);
        lemma_subtree_contains_ge(n, n * p + 1 + j, q);
        assert(n * p >= p) by (nonlinear_arith)
            requires
                n >= 1,
                p >= 0,
        ;
    }
    lemma_concat_no_dup(ch, seq![p]);
    assert forall|q: int| #[trigger]
        post_subtree(n, len, p).contains(q) implies (subtree_contains(n, p, q) && q < len) by {
        if seq![p].contains(q) {
            assert(q == p);
        } else {
            assert(ch.contains(q));
            let j = choose|j: int|
                0 <= j < n && #[trigger] subtree_contains(n, n * p + 1 + j, q);
            lemma_subtree_via_child(n, p, j, q);
        }
    }
    assert forall|q: int| (subtree_contains(n, p, q) && q < len) implies #[trigger]
        post_subtree(n, len, p).contains(q) by {
        if q == p {
            assert(seq![p][0] == p);
            assert(seq![p].contains(q));
        } else {
            lemma_subtree_split(n, p, q);
            assert(ch.contains(q));
        }
        assert((ch + seq![p]).contains(q));
    }
}

/// The post-order twin of [`lemma_pre_children_elems`].
pub proof fn lemma_post_children_elems(n: int, len: int, p: int, k: int)
    requires
        n >= 1,
        0 <= p < len,
        0 <= k <= n,
    ensures
        post_children(n, len, p, k).no_duplicates(),
        forall|q: int| #[trigger]
            post_children(n, len, p, k).contains(q) <==> (q < len && exists|j: int|
                k <= j < n && #[trigger] subtree_contains(n, n * p + 1 + j, q)),
    decreases len - p, 0int, n - k,
{
    broadcast use lemma_seq_concat_contains_all_elements;

    if k >= n {
        assert forall|q: int| !(#[trigger] post_children(n, len, p, k).contains(q)) by {}
    } else {
        let c = n * p + 1 + k;
        assert(c > p) by {
            assert(n * p >= p) by (nonlinear_arith)
                requires
                    n >= 1,
                    p >= 0,
            ;
        }
        lemma_post_children_elems(n, len, p, k + 1);
        let head = if c < len {
            post_subtree(n, len, c)
        } else {
            Seq::<int>::empty()
        };
        let tail = post_children(n, len, p, k + 1);
        assert(post_children(n, len, p, k) == head + tail);
        if c < len {
            lemma_post_subtree_elems(n, len, c);
        }
        assert forall|q: int| head.contains(q) implies !tail.contains(q) by {
            assert(subtree_contains(n, c, q));
            if tail.contains(q) {
                let j = choose|j: int|
                    k + 1 <= j < n && #[trigger] subtree_contains(n, n * p + 1 + j, q);
                lemma_siblings_disjoint(n, p, k, j, q);
            }
        }
        lemma_concat_no_dup(head, tail);
        assert forall|q: int| #[trigger]
            post_children(n, len, p, k).contains(q) implies (q < len && exists|j: int|
                k <= j < n && #[trigger] subtree_contains(n, n * p + 1 + j, q)) by {
            if head.contains(q) {
                assert(subtree_contains(n, n * p + 1 + k, q));
            } else {
                assert(tail.contains(q));
            }
        }
        assert forall|q: int| (q < len && exists|j: int|
            k <= j < n && #[trigger] subtree_contains(n, n * p + 1 + j, q)) implies #[trigger]
            post_children(n, len, p, k).contains(q) by {
            let j = choose|j: int|
                k <= j < n && #[trigger] subtree_contains(n, n * p + 1 + j, q);
            if j == k {
                lemma_subtree_contains_ge(n, c, q);
                assert(head.contains(q));
            } else {
                assert(tail.contains(q));
            }
            assert((head + tail).contains(q));
        }
    }
}

/// What an in-order subtree enumeration of a binary tree holds: again the
/// subtree's existing positions, each once.
pub proof fn lemma_mid_subtree_elems(len: int, p: int)
    requires
        0 <= p < len,
    ensures
        mid_subtree(len, p).no_duplicates(),
        forall|q: int| #[trigger]
            mid_subtree(len, p).contains(q) <==> (subtree_contains(2, p, q) && q < len),
    decreases len - p,
{
    broadcast use lemma_seq_concat_contains_all_elements;

    let l = 2 * p + 1;
    let r = 2 * p + 2;
    let left = if l < len {
        mid_subtree(len, l)
    } else {
        Seq::<int>::empty()
    };
    let right = if r < len {
        mid_subtree(len, r)
    } else {
        Seq::<int>::empty()
    };
    assert(mid_subtree(len, p) == left + seq![p] + right);
    if l < len {
        lemma_mid_subtree_elems(len, l);
    }
    if r < len {
        lemma_mid_subtree_elems(len, r);
    }
    assert forall|q: int| left.contains(q) implies !seq![p].contains(q) by {
        assert(subtree_contains(2, l, q));
        lemma_subtree_contains_ge(2, l, q);
    }
    lemma_concat_no_dup(left, seq![p]);
    assert forall|q: int| (left + seq![p]).contains(q) implies !right.contains(q) by {
        assert(right.contains(q) ==> subtree_contains(2, r, q));
        if right.contains(q) {
            lemma_subtree_contains_ge(2, r, q);
            if left.contains(q) {
                assert(subtree_contains(2, l, q));
                lemma_siblings_disjoint(2, p, 0, 1, q);
            }
        }
    }
    lemma_concat_no_dup(left + seq![p], right);
    assert forall|q: int| #[trigger]
        mid_subtree(len, p).contains(q) implies (subtree_contains(2, p, q) && q < len) by {
        if left.contains(q) {
            lemma_subtree_via_child(2, p, 0, q);
        } else if right.contains(q) {
            lemma_subtree_via_child(2, p, 1, q);
        } else {
            assert(seq![p].contains(q));
            assert(q == p);
        }
    }
    assert forall|q: int| (subtree_contains(2, p, q) && q < len) implies #[trigger]
        mid_subtree(len, p).contains(q) by {
        if q == p {
            assert(seq![p][0] == p);
            assert((left + seq![p]).contains(p));
        } else {
            lemma_subtree_split(2, p, q);
            let k = choose|k: int| 0 <= k < 2 && #[trigger] subtree_contains(2, 2 * p + 1 + k, q);
            lemma_subtree_contains_ge(2, 2 * p + 1 + k, q);
            if k == 0 {
                assert(left.contains(q));
                assert((left + seq![p]).contains(q));
            } else {
                assert(right.contains(q));
            }
        }
    }
}

/// A duplicate-free enumeration of exactly the positions `0..len` has
/// length `len`.
proof fn lemma_range_seq_len(s: Seq<int>, len: int)
    requires
        len >= 0,
        s.no_duplicates(),
        forall|q: int| #[trigger] s.contains(q) <==> 0 <= q < len,
    ensures
        s.len() == len,
{
    s.unique_seq_to_set();
    assert(s.to_set() =~= set_int_range(0, len));
    lemma_int_range(0, len);
}

/// Pre-order visits each of the `len` occupied positions exactly once.
pub proof fn lemma_pre_order_covers(n: int, len: int)
    requires
        n >= 1,
        len >= 0,
    ensures
        pre_order_seq(n, len).len() == len,
        pre_order_seq(n, len).no_duplicates(),
        forall|q: int| #[trigger] pre_order_seq(n, len).contains(q) <==> 0 <= q < len,
{
    if len == 0 {
        assert(pre_order_seq(n, len) =~= Seq::<int>::empty());
        assert forall|q: int| !(#[trigger] pre_order_seq(n, len).contains(q)) by {}
    } else {
        lemma_pre_subtree_elems(n, len, 0);
        assert forall|q: int| #[trigger] pre_order_seq(n, len).contains(q) <==> 0 <= q < len by {
            if pre_order_seq(n, len).contains(q) {
                lemma_subtree_contains_ge(n, 0, q);
            }
            if 0 <= q < len {
                lemma_subtree_of_root(n, q);
            }
        }
        lemma_range_seq_len(pre_order_seq(n, len), len);
    }
}

/// Post-order visits each of the `len` occupied positions exactly once.
pub proof fn lemma_post_order_covers(n: int, len: int)
    requires
        n >= 1,
        len >= 0,
    ensures
        post_order_seq(n, len).len() == len,
        post_order_seq(n, len).no_duplicates(),
        forall|q: int| #[trigger] post_order_seq(n, len).contains(q) <==> 0 <= q < len,
{
    if len == 0 {
        assert(post_order_seq(n, len) =~= Seq::<int>::empty());
        assert forall|q: int| !(#[trigger] post_order_seq(n, len).contains(q)) by {}
    } else {
        lemma_post_subtree_elems(n, len, 0);
        assert forall|q: int| #[trigger] post_order_seq(n, len).contains(q) <==> 0 <= q < len by {
            if post_order_seq(n, len).contains(q) {
                lemma_subtree_contains_ge(n, 0, q);
            }
            if 0 <= q < len {
                lemma_subtree_of_root(n, q);
            }
        }
        lemma_range_seq_len(post_order_seq(n, len), len);
    }
}

/// In-order visits each of the `len` occupied positions of a binary tree
/// exactly once.
pub proof fn lemma_in_order_covers(len: int)
    requires
        len >= 0,
    ensures
        in_order_seq(len).len() == len,
        in_order_seq(len).no_duplicates(),
        forall|q: int| #[trigger] in_order_seq(len).contains(q) <==> 0 <= q < len,
{
    if len == 0 {
        assert(in_order_seq(len) =~= Seq::<int>::empty());
        assert forall|q: int| !(#[trigger] in_order_seq(len).contains(q)) by {}
    } else {
        lemma_mid_subtree_elems(len, 0);
        assert forall|q: int| #[trigger] in_order_seq(len).contains(q) <==> 0 <= q < len by {
            if in_order_seq(len).contains(q) {
                lemma_subtree_contains_ge(2, 0, q);
            }
            if 0 <= q < len {
                lemma_subtree_of_root(2, q);
            }
        }
        lemma_range_seq_len(in_order_seq(len), len);
    }
}

/// Level-order is the identity enumeration of the occupied positions.
pub proof fn lemma_level_order_covers(len: int)
    requires
        len >= 0,
    ensures
        level_order_seq(len).len() == len,
        level_order_seq(len).no_duplicates(),
        forall|q: int| #[trigger] level_order_seq(len).contains(q) <==> 0 <= q < len,
{
    assert forall|q: int| 0 <= q < len implies #[trigger] level_order_seq(len).contains(q) by {
        assert(level_order_seq(len)[q] == q);
    }
}

} // verus!
