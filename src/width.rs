//! Powers of two, and how many leaf slots a tree over `n` elements has.
use vstd::prelude::*;

verus! {

/// `n` is a power of two.
pub open spec fn is_pow2(n: nat) -> bool
    decreases n,
{
    if n == 0 {
        false
    } else if n == 1 {
        true
    } else {
        n % 2 == 0 && is_pow2(n / 2)
    }
}

/// The number of leaf slots of a tree over `n` logical leaves: the smallest
/// power of two that is at least `n` (one slot when `n <= 1`).
pub open spec fn leaf_width(n: nat) -> nat
    decreases n,
{
    if n <= 1 {
        1
    } else {
        2 * leaf_width(((n + 1) / 2) as nat)
    }
}

/// The length of the node array of a tree over `n` logical leaves.
pub open spec fn node_count(n: nat) -> nat {
    2 * leaf_width(n)
}

/// `leaf_width(n)` is a power of two and covers `n`.
pub proof fn lemma_leaf_width_covers(n: nat)
    ensures
        is_pow2(leaf_width(n)),
        n <= leaf_width(n),
        leaf_width(n) >= 1,
    decreases n,
{
    if n > 1 {
        lemma_leaf_width_covers(((n + 1) / 2) as nat);
        let h = leaf_width(((n + 1) / 2) as nat);
        assert((2 * h) % 2 == 0 && (2 * h) / 2 == h);
    }
}

/// Any power of two that covers `n` is at least `leaf_width(n)`.
pub proof fn lemma_leaf_width_least(n: nat, p: nat)
    requires
        is_pow2(p),
        n <= p,
    ensures
        leaf_width(n) <= p,
    decreases n,
{
    if n > 1 {
        lemma_leaf_width_least(((n + 1) / 2) as nat, p / 2);
    }
}

/// `leaf_width(n)` is the smallest power of two that is at least `n`.
pub proof fn lemma_leaf_width_is_least_cover(n: nat)
    ensures
        is_pow2(leaf_width(n)),
        n <= leaf_width(n),
        forall|p: nat| is_pow2(p) && n <= p ==> leaf_width(n) <= p,
{
    lemma_leaf_width_covers(n);
    assert forall|p: nat| is_pow2(p) && n <= p implies leaf_width(n) <= p by {
        lemma_leaf_width_least(n, p);
    }
}

/// A power of two covers itself exactly.
pub proof fn lemma_leaf_width_of_pow2(n: nat)
    requires
        is_pow2(n),
    ensures
        leaf_width(n) == n,
{
    lemma_leaf_width_covers(n);
    lemma_leaf_width_least(n, n);
}

/// Between two distinct powers of two the larger is at least twice the smaller.
pub proof fn lemma_pow2_gap(a: nat, b: nat)
    requires
        is_pow2(a),
        is_pow2(b),
        a < b,
    ensures
        2 * a <= b,
    decreases a,
{
    if a > 1 {
        lemma_pow2_gap(a / 2, b / 2);
    }
}

/// A tree whose leaf slots are exactly full doubles its slots when it takes one
/// more leaf.
pub proof fn lemma_leaf_width_past_pow2(n: nat)
    requires
        is_pow2(n),
    ensures
        leaf_width(n) == n,
        leaf_width(n + 1) == 2 * n,
{
    lemma_leaf_width_of_pow2(n);
    lemma_leaf_width_covers(n + 1);
    lemma_pow2_gap(n, leaf_width(n + 1));
    assert(is_pow2(2 * n)) by {
        assert((2 * n) % 2 == 0 && (2 * n) / 2 == n);
    }
    lemma_leaf_width_least(n + 1, 2 * n);
}

/// A tree over a power of two `n` of leaves has `2n` nodes, and one more leaf
/// doubles that count.
pub proof fn lemma_growth_doubles_nodes(n: nat)
    requires
        is_pow2(n),
    ensures
        node_count(n) == 2 * n,
        node_count(n + 1) == 2 * node_count(n),
{
    lemma_leaf_width_past_pow2(n);
}

/// A tree over `n + 1` leaves, `n` a power of two, that loses one leaf keeps
/// half of its nodes.
pub proof fn lemma_shrink_halves_nodes(n: nat)
    requires
        is_pow2(n),
    ensures
        node_count(n) == node_count(n + 1) / 2,
        node_count(n) == 2 * n,
{
    lemma_leaf_width_past_pow2(n);
}

} // verus!
