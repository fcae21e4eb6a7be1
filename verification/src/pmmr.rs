//! Arithmetic on the positions of a Merkle mountain range.
//!
//! The nodes of a range are numbered from one in the order of a postorder
//! walk, so every prefix of a large enough perfect binary tree is a range. All
//! questions about a position are answered inside the perfect tree of height
//! [`TOP`], whose last position is `u64::MAX`.
use vstd::prelude::*;

verus! {

/// Height of the perfect tree that numbers every `u64` position.
pub const TOP: u64 = 63;

/// Number of nodes of a perfect binary tree of height `h`.
pub open spec fn perfect(h: nat) -> nat
    decreases h,
{
    if h == 0 {
        1
    } else {
        2 * perfect((h - 1) as nat) + 1
    }
}

/// Number of leaves of a perfect binary tree of height `h`.
pub open spec fn perfect_leaves(h: nat) -> nat
    decreases h,
{
    if h == 0 {
        1
    } else {
        2 * perfect_leaves((h - 1) as nat)
    }
}

/// Height above the leaves of the node that a postorder walk of the perfect
/// tree of height `h` visits at position `pos`.
pub open spec fn height_in(h: nat, pos: nat) -> nat
    decreases h,
{
    if h == 0 || pos == perfect(h) {
        h
    } else {
        let child = perfect((h - 1) as nat);
        if pos <= child {
            height_in((h - 1) as nat, pos)
        } else {
            height_in((h - 1) as nat, (pos - child) as nat)
        }
    }
}

/// Height of the node at position `pos`.
pub open spec fn node_height(pos: nat) -> nat {
    height_in(TOP as nat, pos)
}

/// Whether position `pos` holds a leaf.
pub open spec fn leaf_at(pos: nat) -> bool {
    node_height(pos) == 0
}

/// Number of leaves among the first `size` positions of the perfect tree of
/// height `h`.
pub open spec fn leaves_in(h: nat, size: nat) -> nat
    decreases size,
{
    if size == 0 {
        0
    } else {
        leaves_in(h, (size - 1) as nat) + if height_in(h, size) == 0 {
            1nat
        } else {
            0nat
        }
    }
}

/// Number of leaves among the first `size` positions.
pub open spec fn leaf_count(size: nat) -> nat {
    leaves_in(TOP as nat, size)
}

proof fn lemma_eight_levels(h: nat)
    ensures
        perfect(h + 8) == 256 * perfect(h) + 255,
        perfect_leaves(h + 8) == 256 * perfect_leaves(h),
{
    reveal_with_fuel(perfect, 9);
    reveal_with_fuel(perfect_leaves, 9);
}

proof fn lemma_top()
    ensures
        perfect(TOP as nat) == u64::MAX,
        perfect_leaves(TOP as nat) == 0x8000_0000_0000_0000,
{
    reveal_with_fuel(perfect, 8);
    reveal_with_fuel(perfect_leaves, 8);
    lemma_eight_levels(7);
    lemma_eight_levels(15);
    lemma_eight_levels(23);
    lemma_eight_levels(31);
    lemma_eight_levels(39);
    lemma_eight_levels(47);
    lemma_eight_levels(55);
}

/// A prefix that stays inside the left subtree has the leaves it has there.
pub proof fn lemma_leaves_left(h: nat, size: nat)
    requires
        h > 0,
        size <= perfect((h - 1) as nat),
    ensures
        leaves_in(h, size) == leaves_in((h - 1) as nat, size),
    decreases size,
{
    if size > 0 {
        lemma_leaves_left(h, (size - 1) as nat);
    }
}

/// A prefix that reaches into the right subtree has all leaves of the left one
/// and those of the matching prefix of the right one.
pub proof fn lemma_leaves_right(h: nat, size: nat)
    requires
        h > 0,
        perfect((h - 1) as nat) <= size <= 2 * perfect((h - 1) as nat),
    ensures
        leaves_in(h, size) == leaves_in((h - 1) as nat, perfect((h - 1) as nat)) + leaves_in(
            (h - 1) as nat,
            (size - perfect((h - 1) as nat)) as nat,
        ),
    decreases size,
{
    let child = perfect((h - 1) as nat);
    if size == child {
        lemma_leaves_left(h, size);
    } else {
        lemma_leaves_right(h, (size - 1) as nat);
        assert(height_in(h, size) == height_in((h - 1) as nat, (size - child) as nat));
        assert((size - 1 - child) as nat == ((size - child) as nat - 1) as nat);
    }
}

/// A whole perfect tree holds its leaves.
pub proof fn lemma_leaves_full(h: nat)
    ensures
        leaves_in(h, perfect(h)) == perfect_leaves(h),
    decreases h,
{
    if h == 0 {
        reveal_with_fuel(leaves_in, 2);
    } else {
        lemma_leaves_full((h - 1) as nat);
        lemma_leaves_right(h, (perfect(h) - 1) as nat);
    }
}

/// Height of the node at position `pos`; leaves have height zero.
pub fn bintree_postorder_height(pos: u64) -> (height: u64)
    requires
        pos >= 1,
    ensures
        height == node_height(pos as nat),
{
    proof {
        lemma_top();
    }
    let mut size: u64 = u64::MAX;
    let mut height: u64 = TOP;
    let mut at: u64 = pos;
    while at != size
        invariant
            1 <= at <= size,
            size == perfect(height as nat),
            node_height(pos as nat) == height_in(height as nat, at as nat),
        decreases height,
    {
        let child = (size - 1) / 2;
        if at > child {
            at = at - child;
        }
        size = child;
        height = height - 1;
    }
    height
}

/// Whether position `pos` holds a leaf.
pub fn is_leaf(pos: u64) -> (leaf: bool)
    requires
        pos >= 1,
    ensures
        leaf == leaf_at(pos as nat),
{
    bintree_postorder_height(pos) == 0
}

/// Number of leaves of a range of `size` nodes.
pub fn n_leaves(size: u64) -> (leaves: u64)
    ensures
        leaves == leaf_count(size as nat),
{
    if size == 0 {
        return 0;
    }
    proof {
        lemma_top();
    }
    let mut full: u64 = u64::MAX;
    let mut width: u64 = 0x8000_0000_0000_0000;
    let mut rest: u64 = size;
    let mut leaves: u64 = 0;
    let ghost mut height: nat = TOP as nat;
    while rest != full
        invariant
            1 <= rest <= full,
            full == perfect(height),
            width == perfect_leaves(height),
            leaf_count(size as nat) == leaves + leaves_in(height, rest as nat),
            leaves + width <= 0x8000_0000_0000_0000,
        decreases height,
    {
        let child: u64 = (full - 1) / 2;
        let half: u64 = width / 2;
        proof {
            let left = (height - 1) as nat;
            if rest as nat <= perfect(left) {
                lemma_leaves_left(height, rest as nat);
            } else {
                lemma_leaves_right(height, rest as nat);
                lemma_leaves_full(left);
            }
            height = left;
        }
        if rest > child {
            rest = rest - child;
            leaves = leaves + half;
        }
        full = child;
        width = half;
    }
    proof {
        lemma_leaves_full(height);
    }
    leaves + width
}

} // verus!
