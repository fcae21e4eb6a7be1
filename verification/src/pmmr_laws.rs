//! How the positions of a Merkle mountain range are laid out.
use crate::pmmr::{
    height_in, leaf_at, leaf_count, leaves_in, lemma_leaves_full, lemma_leaves_left,
    lemma_leaves_right, node_height, perfect, perfect_leaves, TOP,
};
use vstd::arithmetic::power2::{lemma2_to64, lemma_pow2_unfold, pow2};
use vstd::prelude::*;

verus! {

proof fn lemma_powers(h: nat)
    ensures
        perfect(h) == pow2(h + 1) - 1,
        perfect_leaves(h) == pow2(h),
    decreases h,
{
    lemma2_to64();
    if h > 0 {
        lemma_powers((h - 1) as nat);
        lemma_pow2_unfold(h + 1);
        lemma_pow2_unfold(h);
    }
}

proof fn lemma_grows(low: nat, high: nat)
    requires
        low <= high,
    ensures
        1 <= perfect(low) <= perfect(high),
    decreases high,
{
    if low < high {
        lemma_grows(low, (high - 1) as nat);
    } else if low > 0 {
        lemma_grows((low - 1) as nat, (low - 1) as nat);
    }
}

/// Inside a tree, the positions of its first part are as in that part.
proof fn lemma_inside(low: nat, high: nat, pos: nat)
    requires
        low <= high,
        pos <= perfect(low),
    ensures
        pos >= 1 ==> height_in(high, pos) == height_in(low, pos),
        leaves_in(high, pos) == leaves_in(low, pos),
    decreases high,
{
    if low < high {
        lemma_grows(low, (high - 1) as nat);
        lemma_inside(low, (high - 1) as nat, pos);
        lemma_leaves_left(high, pos);
    }
}

/// A full tree of any height ends with its root, and half of its positions,
/// rounded up, are leaves.
pub proof fn law_full_trees(h: nat)
    requires
        h <= TOP,
    ensures
        node_height((pow2(h + 1) - 1) as nat) == h,
        leaf_count((pow2(h + 1) - 1) as nat) == pow2(h),
{
    lemma_powers(h);
    lemma_grows(h, h);
    lemma_inside(h, TOP as nat, perfect(h));
    lemma_leaves_full(h);
}

/// What follows a full tree repeats it, up to another full tree: positions have
/// the same heights, and as many of them are leaves.
pub proof fn law_trees_repeat(h: nat, n: nat)
    requires
        h < TOP,
        n <= pow2(h + 1) - 1,
    ensures
        n >= 1 ==> node_height((pow2(h + 1) - 1 + n) as nat) == node_height(n),
        leaf_count((pow2(h + 1) - 1 + n) as nat) == pow2(h) + leaf_count(n),
{
    let full = perfect(h);
    let next = h + 1;
    lemma_powers(h);
    lemma_grows(h, h);
    assert(perfect(next) == 2 * full + 1);
    lemma_inside(next, TOP as nat, full + n);
    lemma_inside(h, TOP as nat, n);
    lemma_leaves_right(next, full + n);
    lemma_leaves_full(h);
    assert((full + n - full) as nat == n);
}

/// A range without positions has no leaves, and the position after a full tree is
/// a leaf.
pub proof fn law_leaves_come_first(h: nat)
    requires
        h < TOP,
    ensures
        leaf_count(0) == 0,
        leaf_at(1),
        leaf_at(pow2(h + 1)),
{
    lemma2_to64();
    lemma_powers(h);
    lemma_grows(h, h);
    law_full_trees(0);
    law_trees_repeat(h, 1);
}

} // verus!
