//! The mathematical model of the heap-array layout: how a (depth, offset)
//! coordinate maps to a flat position, which coordinates are representable,
//! and the ancestor/descendant relation on flat positions.

use vstd::prelude::*;

verus! {

use vstd::arithmetic::power::{pow, lemma_pow_positive};
use vstd::arithmetic::div_mod::{
    lemma_fundamental_div_mod, lemma_div_pos_is_pos, lemma_div_nonincreasing,
    lemma_div_multiples_vanish_fancy, lemma_mod_division_less_than_divisor,
};

/// Number of nodes in the levels shallower than `depth` of a complete
/// `n`-ary tree: `n^0 + n^1 + ... + n^(depth-1)`.
pub open spec fn level_start(n: int, depth: int) -> int
    decreases depth,
{
    if n < 1 || depth <= 0 {
        0
    } else {
        level_start(n, depth - 1) + pow(n, (depth - 1) as nat)
    }
}

/// The flat position of coordinate `(depth, offset)` under breadth-first,
/// left-to-right numbering.
pub open spec fn flat_of(n: int, depth: int, offset: int) -> int {
    level_start(n, depth) + offset
}

/// Whether `(depth, offset)` is a representable coordinate: inside its level,
/// with a flat position strictly below `usize::MAX` (the last flat position is
/// reserved so that half-open position ranges never overflow).
pub open spec fn is_valid(n: int, depth: int, offset: int) -> bool {
    n >= 1 && depth >= 0 && 0 <= offset < pow(n, depth as nat) && flat_of(
        n,
        depth,
        offset,
    ) < usize::MAX as int
}

/// Whether flat position `pos` lies in the subtree rooted at flat position
/// `root`, following parent links `pos -> (pos - 1) / n`.
pub open spec fn subtree_contains(n: int, root: int, pos: int) -> bool
    decreases pos,
{
    if n < 1 || root < 0 || pos < root {
        false
    } else if pos == root {
        true
    } else {
        subtree_contains(n, root, (pos - 1) / n)
    }
}

/// Powers of a positive base are at least 1.
pub proof fn lemma_pow_pos(n: int, e: nat)
    requires
        n >= 1,
    ensures
        pow(n, e) >= 1,
{
    lemma_pow_positive(n, e);
}

/// `level_start` never decreases as the depth grows; one step deeper grows it
/// by exactly the width of the intervening level.
pub proof fn lemma_level_start_mono(n: int, d1: int, d2: int)
    requires
        n >= 1,
        0 <= d1 <= d2,
    ensures
        level_start(n, d1) <= level_start(n, d2),
        d1 < d2 ==> level_start(n, d1) + pow(n, d1 as nat) <= level_start(n, d2),
    decreases d2 - d1,
{
    if d1 < d2 {
        lemma_pow_pos(n, d1 as nat);
        lemma_level_start_mono(n, d1 + 1, d2);
    }
}

/// `level_start` is non-negative, and at least the depth itself (every level
/// holds at least one node).
pub proof fn lemma_level_start_at_least_depth(n: int, d: int)
    requires
        n >= 1,
        d >= 0,
    ensures
        level_start(n, d) >= d,
    decreases d,
{
    if d > 0 {
        lemma_level_start_at_least_depth(n, d - 1);
        lemma_pow_pos(n, (d - 1) as nat);
    }
}

/// Unrolling `level_start` from the other end: descending one level
/// multiplies the node count and adds the root.
pub proof fn lemma_level_start_step(n: int, d: int)
    requires
        n >= 1,
        d >= 0,
    ensures
        level_start(n, d + 1) == n * level_start(n, d) + 1,
    decreases d,
{
    reveal(pow);
    if d == 0 {
        assert(level_start(n, 1) == level_start(n, 0) + pow(n, 0));
    } else {
        lemma_level_start_step(n, d - 1);
        assert(pow(n, d as nat) == n * pow(n, (d - 1) as nat));
        assert(n * (level_start(n, d - 1) + pow(n, (d - 1) as nat)) == n * level_start(n, d - 1)
            + n * pow(n, (d - 1) as nat)) by (nonlinear_arith);
    }
}

/// In a unary tree every level holds exactly one node, so a coordinate's
/// depth and flat position coincide.
pub proof fn lemma_level_start_unary(d: int)
    requires
        d >= 0,
    ensures
        level_start(1, d) == d,
    decreases d,
{
    if d > 0 {
        lemma_level_start_unary(d - 1);
        vstd::arithmetic::power::lemma1_pow((d - 1) as nat);
    }
}

/// A valid coordinate's flat position is non-negative.
pub proof fn lemma_flat_nonneg(n: int, depth: int, offset: int)
    requires
        is_valid(n, depth, offset),
    ensures
        flat_of(n, depth, offset) >= 0,
{
    lemma_level_start_mono(n, 0, depth);
}

/// A valid coordinate's flat position lies inside the slab of its level.
pub proof fn lemma_flat_bounds(n: int, depth: int, offset: int)
    requires
        n >= 1,
        depth >= 0,
        0 <= offset < pow(n, depth as nat),
    ensures
        level_start(n, depth) <= flat_of(n, depth, offset) < level_start(n, depth + 1),
{
    assert(level_start(n, depth + 1) == level_start(n, depth) + pow(n, depth as nat));
}

/// Distinct valid coordinates have distinct flat positions: the levels'
/// slabs are disjoint, and within a level the offset decides.
pub proof fn lemma_flat_injective(n: int, d1: int, o1: int, d2: int, o2: int)
    requires
        is_valid(n, d1, o1),
        is_valid(n, d2, o2),
        flat_of(n, d1, o1) == flat_of(n, d2, o2),
    ensures
        d1 == d2,
        o1 == o2,
{
    lemma_flat_bounds(n, d1, o1);
    lemma_flat_bounds(n, d2, o2);
    if d1 < d2 {
        lemma_level_start_mono(n, d1 + 1, d2);
    }
    if d2 < d1 {
        lemma_level_start_mono(n, d2 + 1, d1);
    }
}

/// Every flat position below `usize::MAX` is some valid coordinate's: with
/// [`lemma_flat_injective`], the coordinate-to-position map is a bijection
/// over the representable range.
pub proof fn lemma_flat_surjective(n: int, p: int)
    requires
        n >= 1,
        0 <= p < usize::MAX as int,
    ensures
        exists|d: int, o: int| is_valid(n, d, o) && #[trigger] flat_of(n, d, o) == p,
    decreases p,
{
    if p == 0 {
        reveal(pow);
        assert(is_valid(n, 0, 0) && flat_of(n, 0, 0) == 0);
    } else {
        lemma_div_pos_is_pos(p - 1, n);
        lemma_div_nonincreasing(p - 1, n);
        let q = (p - 1) / n;
        lemma_flat_surjective(n, q);
        let (d, o) = choose|d: int, o: int| is_valid(n, d, o) && #[trigger] flat_of(n, d, o) == q;
        lemma_fundamental_div_mod(p - 1, n);
        lemma_mod_division_less_than_divisor(p - 1, n);
        let k = (p - 1) % n;
        lemma_child_flat(n, d, o, k);
        assert(is_valid(n, d + 1, n * o + k) && flat_of(n, d + 1, n * o + k) == p);
    }
}

/// The depth-then-offset order on valid coordinates coincides with the order
/// of their flat positions.
pub proof fn lemma_flat_order(n: int, d1: int, o1: int, d2: int, o2: int)
    requires
        is_valid(n, d1, o1),
        is_valid(n, d2, o2),
    ensures
        (d1 < d2 || (d1 == d2 && o1 < o2)) <==> flat_of(n, d1, o1) < flat_of(n, d2, o2),
{
    lemma_flat_bounds(n, d1, o1);
    lemma_flat_bounds(n, d2, o2);
    if d1 < d2 {
        lemma_level_start_mono(n, d1 + 1, d2);
    }
    if d2 < d1 {
        lemma_level_start_mono(n, d2 + 1, d1);
    }
}

/// The `k`-th child of `(depth, offset)` sits at offset `n * offset + k` one
/// level deeper, which is within that level, and its flat position obeys the
/// classic heap-array formula `n * flat + k + 1`.
pub proof fn lemma_child_flat(n: int, depth: int, offset: int, k: int)
    requires
        n >= 1,
        depth >= 0,
        0 <= offset < pow(n, depth as nat),
        0 <= k < n,
    ensures
        0 <= n * offset + k < pow(n, (depth + 1) as nat),
        flat_of(n, depth + 1, n * offset + k) == n * flat_of(n, depth, offset) + k + 1,
{
    reveal(pow);
    lemma_level_start_step(n, depth);
    assert(pow(n, (depth + 1) as nat) == n * pow(n, depth as nat));
    assert(n * offset + k < n * pow(n, depth as nat)) by (nonlinear_arith)
        requires
            n >= 1,
            0 <= k < n,
            offset < pow(n, depth as nat),
            0 <= offset,
    ;
    assert(n * offset >= 0) by (nonlinear_arith)
        requires
            n >= 1,
            offset >= 0,
    ;
    assert(n * (level_start(n, depth) + offset) == n * level_start(n, depth) + n * offset)
        by (nonlinear_arith);
}

/// Every non-root valid coordinate has a valid parent one level up at offset
/// `offset / n`, and is that parent's `(offset % n)`-th child.
pub proof fn lemma_parent_valid(n: int, depth: int, offset: int)
    requires
        is_valid(n, depth, offset),
        depth >= 1,
    ensures
        is_valid(n, depth - 1, offset / n),
        n * (offset / n) + (offset % n) == offset,
        0 <= offset % n < n,
        flat_of(n, depth - 1, offset / n) < flat_of(n, depth, offset),
{
    reveal(pow);
    lemma_fundamental_div_mod(offset, n);
    lemma_div_pos_is_pos(offset, n);
    assert(pow(n, depth as nat) == n * pow(n, (depth - 1) as nat));
    assert(offset / n < pow(n, (depth - 1) as nat)) by {
        if offset / n >= pow(n, (depth - 1) as nat) {
            assert(n * (offset / n) >= n * pow(n, (depth - 1) as nat)) by (nonlinear_arith)
                requires
                    n >= 1,
                    offset / n >= pow(n, (depth - 1) as nat),
            ;
        }
    }
    lemma_child_flat(n, depth - 1, offset / n, offset % n);
    lemma_flat_bounds(n, depth - 1, offset / n);
    lemma_flat_bounds(n, depth, offset);
    lemma_level_start_mono(n, depth - 1, depth);
}

/// A subtree's root is the least position it contains.
pub proof fn lemma_subtree_contains_ge(n: int, root: int, pos: int)
    requires
        subtree_contains(n, root, pos),
    ensures
        root <= pos,
{
}

/// Stepping from a child `n * root + 1 + k` of `root` back up arrives at
/// `root`.
pub proof fn lemma_child_parent(n: int, root: int, k: int)
    requires
        n >= 1,
        root >= 0,
        0 <= k < n,
    ensures
        (n * root + 1 + k - 1) / n == root,
{
    lemma_div_multiples_vanish_fancy(root, k, n);
    assert(n * root + 1 + k - 1 == n * root + k);
}

/// The whole tree is the subtree of the root position 0.
pub proof fn lemma_subtree_of_root(n: int, pos: int)
    requires
        n >= 1,
        pos >= 0,
    ensures
        subtree_contains(n, 0, pos),
    decreases pos,
{
    if pos > 0 {
        lemma_div_pos_is_pos(pos - 1, n);
        lemma_div_nonincreasing(pos - 1, n);
        lemma_subtree_of_root(n, (pos - 1) / n);
    }
}

/// Containment is transitive along the parent chain.
pub proof fn lemma_subtree_trans(n: int, a: int, b: int, c: int)
    requires
        subtree_contains(n, a, b),
        subtree_contains(n, b, c),
    ensures
        subtree_contains(n, a, c),
    decreases c,
{
    if c != b {
        lemma_subtree_trans(n, a, b, (c - 1) / n);
    }
}

/// Two subtrees containing a common position are nested one way or the
/// other: the ancestors of a position form a single chain.
pub proof fn lemma_subtree_chain(n: int, a: int, b: int, pos: int)
    requires
        subtree_contains(n, a, pos),
        subtree_contains(n, b, pos),
    ensures
        subtree_contains(n, a, b) || subtree_contains(n, b, a),
    decreases pos,
{
    if pos != a && pos != b {
        lemma_subtree_chain(n, a, b, (pos - 1) / n);
    }
}

/// A position below a child of `root` is in `root`'s subtree.
pub proof fn lemma_subtree_via_child(n: int, root: int, k: int, pos: int)
    requires
        n >= 1,
        root >= 0,
        0 <= k < n,
        subtree_contains(n, n * root + 1 + k, pos),
    ensures
        subtree_contains(n, root, pos),
        pos > root,
{
    let c = n * root + 1 + k;
    lemma_child_parent(n, root, k);
    assert(n * root >= root) by (nonlinear_arith)
        requires
            n >= 1,
            root >= 0,
    ;
    assert(subtree_contains(n, root, root));
    assert(subtree_contains(n, root, c));
    lemma_subtree_trans(n, root, c, pos);
    lemma_subtree_contains_ge(n, c, pos);
}

/// A position in `root`'s subtree other than `root` itself lies below
/// exactly one child of `root`.
pub proof fn lemma_subtree_split(n: int, root: int, pos: int)
    requires
        n >= 1,
        root >= 0,
        subtree_contains(n, root, pos),
        pos != root,
    ensures
        exists|k: int| 0 <= k < n && #[trigger] subtree_contains(n, n * root + 1 + k, pos),
    decreases pos,
{
    let parent = (pos - 1) / n;
    if parent == root {
        lemma_fundamental_div_mod(pos - 1, n);
        let k = (pos - 1) % n;
        assert(pos == n * root + 1 + k);
        assert(subtree_contains(n, n * root + 1 + k, pos));
    } else {
        assert(subtree_contains(n, root, parent));
        lemma_subtree_split(n, root, parent);
        let k = choose|k: int|
            0 <= k < n && #[trigger] subtree_contains(n, n * root + 1 + k, parent);
        lemma_subtree_contains_ge(n, n * root + 1 + k, parent);
        assert(subtree_contains(n, n * root + 1 + k, pos));
    }
}

/// Subtrees of distinct children of one node share no position.
pub proof fn lemma_siblings_disjoint(n: int, root: int, k1: int, k2: int, pos: int)
    requires
        n >= 1,
        root >= 0,
        0 <= k1 < n,
        0 <= k2 < n,
        k1 != k2,
        subtree_contains(n, n * root + 1 + k1, pos),
    ensures
        !subtree_contains(n, n * root + 1 + k2, pos),
{
    let c1 = n * root + 1 + k1;
    let c2 = n * root + 1 + k2;
    if subtree_contains(n, c2, pos) {
        lemma_subtree_chain(n, c1, c2, pos);
        lemma_child_parent(n, root, k1);
        lemma_child_parent(n, root, k2);
        assert(n * root >= root) by (nonlinear_arith)
            requires
                n >= 1,
                root >= 0,
        ;
        if subtree_contains(n, c1, c2) {
            assert(subtree_contains(n, c1, root));
            lemma_subtree_contains_ge(n, c1, root);
        } else {
            assert(subtree_contains(n, c2, root));
            lemma_subtree_contains_ge(n, c2, root);
        }
    }
}

} // verus!
