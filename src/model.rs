//! The mathematical model of a tree: its leaf slots, the digest at each array
//! index, the sibling path of a leaf, and how a path is climbed back to the root.
//!
//! Array indices follow the implicit layout: the root is at 1, the children of
//! `i` are at `2i` and `2i + 1`, and a tree with `w` leaf slots keeps them at
//! `[w, 2w)`.
use crate::digest::combine;
use crate::width::{is_pow2, leaf_width, lemma_leaf_width_covers};
use vstd::prelude::*;

verus! {

/// The leaf slots of a tree over `leaves`: the leaves in order, then copies of
/// the last one up to the next power of two.
pub open spec fn padded(leaves: Seq<Seq<char>>) -> Seq<Seq<char>> {
    Seq::new(
        leaf_width(leaves.len()),
        |i: int|
            if i < leaves.len() {
                leaves[i]
            } else {
                leaves.last()
            },
    )
}

/// The digest at array index `i` of the tree whose leaf slots are `slots`.
pub open spec fn node_digest(slots: Seq<Seq<char>>, i: nat) -> Seq<char>
    decreases 2 * slots.len() - i,
{
    if i >= slots.len() {
        slots[i - slots.len()]
    } else if i == 0 {
        Seq::empty()
    } else {
        combine(node_digest(slots, 2 * i), node_digest(slots, 2 * i + 1))
    }
}

/// The digest at array index `i` of the tree over `leaves`.
pub open spec fn node_digest_of(leaves: Seq<Seq<char>>, i: nat) -> Seq<char> {
    node_digest(padded(leaves), i)
}

/// The root digest of the tree over `leaves`.
pub open spec fn root_of(leaves: Seq<Seq<char>>) -> Seq<char> {
    node_digest(padded(leaves), 1)
}

/// The index of the other child of the parent of `i`.
pub open spec fn sibling(i: nat) -> nat {
    if i % 2 == 0 {
        i + 1
    } else {
        (i - 1) as nat
    }
}

/// The sibling digests met on the way from array index `a` up to the root.
pub open spec fn path(slots: Seq<Seq<char>>, a: nat) -> Seq<Seq<char>>
    decreases a,
{
    if a <= 1 {
        Seq::empty()
    } else {
        seq![node_digest(slots, sibling(a))] + path(slots, a / 2)
    }
}

/// The inclusion proof of the logical leaf at position `p` of the tree over
/// `leaves`.
pub open spec fn proof_path(leaves: Seq<Seq<char>>, p: nat) -> Seq<Seq<char>> {
    path(padded(leaves), leaf_width(leaves.len()) + p)
}

/// The digest reached from `digest` at position `index` by combining it with
/// each digest of `proof` in turn: from the left when the position is even,
/// from the right when it is odd, halving the position at each step.
pub open spec fn climb(digest: Seq<char>, index: nat, proof: Seq<Seq<char>>) -> Seq<char>
    decreases proof.len(),
{
    if proof.len() == 0 {
        digest
    } else {
        let up = if index % 2 == 0 {
            combine(digest, proof[0])
        } else {
            combine(proof[0], digest)
        };
        climb(up, index / 2, proof.drop_first())
    }
}

/// How many halvings take `a` to the root.
pub open spec fn depth(a: nat) -> nat
    decreases a,
{
    if a <= 1 {
        0
    } else {
        1 + depth(a / 2)
    }
}

/// The position of the first occurrence of `d` in `s`, or -1.
pub open spec fn first_index(s: Seq<Seq<char>>, d: Seq<char>) -> int
    decreases s.len(),
{
    if s.len() == 0 {
        -1
    } else if s[0] == d {
        0
    } else {
        let k = first_index(s.drop_first(), d);
        if k < 0 {
            -1
        } else {
            k + 1
        }
    }
}

/// A node array over `size` logical leaves is laid out as a tree: twice as many
/// slots as leaf slots, padding slots copying the last logical leaf, and every
/// internal node combining its two children.
pub open spec fn shaped(nodes: Seq<Seq<char>>, size: nat) -> bool {
    let w = leaf_width(size);
    &&& size >= 1
    &&& nodes.len() == 2 * w
    &&& forall|i: int| w + size <= i < 2 * w ==> #[trigger] nodes[i] == nodes[w + size - 1]
    &&& forall|i: int|
        1 <= i < w ==> #[trigger] nodes[i] == combine(nodes[2 * i], nodes[2 * i + 1])
}

/// The logical leaves held by a node array over `size` leaves.
pub open spec fn stored_leaves(nodes: Seq<Seq<char>>, size: nat) -> Seq<Seq<char>> {
    nodes.subrange(leaf_width(size) as int, (leaf_width(size) + size) as int)
}

/// Every slot of a shaped node array holds the model's digest for its index.
pub proof fn lemma_shaped_node(nodes: Seq<Seq<char>>, size: nat, i: nat)
    requires
        shaped(nodes, size),
        1 <= i < nodes.len(),
    ensures
        nodes[i as int] == node_digest(padded(stored_leaves(nodes, size)), i),
    decreases nodes.len() - i,
{
    let w = leaf_width(size);
    let slots = padded(stored_leaves(nodes, size));
    lemma_leaf_width_covers(size);
    assert(slots.len() == w);
    if i < w {
        lemma_shaped_node(nodes, size, 2 * i);
        lemma_shaped_node(nodes, size, 2 * i + 1);
        assert(nodes[i as int] == combine(nodes[2 * i as int], nodes[(2 * i + 1) as int]));
    } else if i >= w + size {
        assert(nodes[i as int] == nodes[w + size - 1]);
    }
}

/// Climbing from any node along its sibling path reaches the root digest.
pub proof fn lemma_climb_path(slots: Seq<Seq<char>>, a: nat)
    requires
        1 <= a < 2 * slots.len(),
    ensures
        climb(node_digest(slots, a), a, path(slots, a)) == node_digest(slots, 1),
    decreases a,
{
    if a > 1 {
        let parent = a / 2;
        let p = path(slots, a);
        assert(p[0] == node_digest(slots, sibling(a)));
        assert(p.drop_first() =~= path(slots, parent));
        assert(node_digest(slots, parent) == combine(
            node_digest(slots, 2 * parent),
            node_digest(slots, 2 * parent + 1),
        ));
        lemma_climb_path(slots, parent);
    }
}

/// A path has one digest per halving.
pub proof fn lemma_path_len(slots: Seq<Seq<char>>, a: nat)
    ensures
        path(slots, a).len() == depth(a),
    decreases a,
{
    if a > 1 {
        lemma_path_len(slots, a / 2);
    }
}

/// All indices of one level of a tree with `m` leaf slots lie at the same depth.
pub proof fn lemma_depth_of_level(m: nat, a: nat)
    requires
        is_pow2(m),
        m <= a < 2 * m,
    ensures
        depth(a) == depth(m),
    decreases m,
{
    if m > 1 {
        lemma_depth_of_level(m / 2, a / 2);
    }
}

/// Adding a power of two that has at least as many halvings as the proof is
/// long does not change which side each step combines from.
pub proof fn lemma_climb_offset(d: Seq<char>, m: nat, p: nat, proof: Seq<Seq<char>>)
    requires
        is_pow2(m),
        proof.len() <= depth(m),
    ensures
        climb(d, m + p, proof) == climb(d, p, proof),
    decreases proof.len(),
{
    if proof.len() > 0 {
        assert(m > 1 && m % 2 == 0);
        assert((m + p) % 2 == p % 2);
        assert((m + p) / 2 == m / 2 + p / 2);
        let up = if p % 2 == 0 {
            combine(d, proof[0])
        } else {
            combine(proof[0], d)
        };
        lemma_climb_offset(up, m / 2, p / 2, proof.drop_first());
    }
}

/// The inclusion proof of every logical leaf climbs from the leaf's digest, at
/// its logical position, to the root digest of the tree.
pub proof fn lemma_inclusion_proof_verifies(leaves: Seq<Seq<char>>, p: nat)
    requires
        p < leaves.len(),
    ensures
        climb(leaves[p as int], p, proof_path(leaves, p)) == root_of(leaves),
{
    let m = leaf_width(leaves.len());
    let slots = padded(leaves);
    lemma_leaf_width_covers(leaves.len());
    lemma_climb_path(slots, m + p);
    lemma_path_len(slots, m + p);
    lemma_depth_of_level(m, m + p);
    lemma_climb_offset(leaves[p as int], m, p, path(slots, m + p));
}

/// What `first_index` finds: a valid position holding `d`, or -1 exactly when
/// `d` is absent.
pub proof fn lemma_first_index(s: Seq<Seq<char>>, d: Seq<char>)
    ensures
        -1 <= first_index(s, d) < s.len(),
        first_index(s, d) >= 0 ==> s[first_index(s, d)] == d,
        first_index(s, d) < 0 <==> !s.contains(d),
    decreases s.len(),
{
    if s.len() > 0 && s[0] != d {
        lemma_first_index(s.drop_first(), d);
        if first_index(s, d) < 0 {
            assert forall|j: int| 0 <= j < s.len() implies s[j] != d by {
                if j > 0 {
                    assert(s[j] == s.drop_first()[j - 1]);
                }
            }
        } else {
            assert(s.contains(d));
        }
    } else if s.len() > 0 {
        assert(s.contains(d));
    }
}

/// A position holding `d` with no earlier occurrence is the first index of `d`.
pub proof fn lemma_first_index_at(s: Seq<Seq<char>>, d: Seq<char>, i: int)
    requires
        0 <= i < s.len(),
        s[i] == d,
        forall|j: int| 0 <= j < i ==> s[j] != d,
    ensures
        first_index(s, d) == i,
    decreases s.len(),
{
    if i > 0 {
        assert(s[0] != d);
        lemma_first_index_at(s.drop_first(), d, i - 1);
    }
}

/// Adding a digest that the leaves do not hold and then deleting its first
/// occurrence gives back the same leaves, and so the same root digest.
pub proof fn lemma_add_then_delete_restores(leaves: Seq<Seq<char>>, d: Seq<char>)
    requires
        leaves.len() >= 1,
        !leaves.contains(d),
    ensures
        leaves.push(d).contains(d),
        first_index(leaves.push(d), d) == leaves.len(),
        leaves.push(d).remove(first_index(leaves.push(d), d)) == leaves,
        root_of(leaves.push(d).remove(first_index(leaves.push(d), d))) == root_of(leaves),
{
    let grown = leaves.push(d);
    assert(grown[leaves.len() as int] == d);
    assert forall|j: int| 0 <= j < leaves.len() implies grown[j] != d by {
        assert(grown[j] == leaves[j]);
    }
    lemma_first_index_at(grown, d, leaves.len() as int);
    assert(grown.remove(leaves.len() as int) =~= leaves);
}

} // verus!
