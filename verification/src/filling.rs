//! Counting the free leaves of a tree in which only leaves are used.

use vstd::prelude::*;
use vstd::arithmetic::power2::{pow2, lemma_pow2_unfold, lemma_pow2_strictly_increases, lemma2_to64};
use crate::order::{floor_log2, lemma_floor_log2_bounds};
use crate::tree::{
    USED, pristine, firm, firm_at, above, descend, lemma_child_depth, lemma_index_below,
};

verus! {

/// The number of nodes `height` levels below `node` that are not used.
pub open spec fn free_leaves(tree: Seq<i8>, node: nat, height: nat) -> nat
    decreases height,
{
    if height == 0 {
        if tree[node as int] == USED {
            0
        } else {
            1
        }
    } else {
        free_leaves(tree, 2 * node, (height - 1) as nat) + free_leaves(
            tree,
            2 * node + 1,
            (height - 1) as nat,
        )
    }
}

/// The node `levels` levels above `node` on its path to the root.
pub open spec fn lifted(node: nat, levels: nat) -> nat
    decreases levels,
{
    if levels == 0 {
        node
    } else {
        lifted(node, (levels - 1) as nat) / 2
    }
}

/// A firm tree in which no inner node is used.
pub open spec fn leafy(tree: Seq<i8>, max_order: nat, min_order: nat) -> bool {
    &&& firm(tree, max_order, min_order)
    &&& forall|i: int| 1 <= i < tree.len() / 2 ==> (#[trigger] tree[i]) != USED
}

/// A node `height` levels above the leaves is a leaf when `height` is zero,
/// and an inner node otherwise.
pub proof fn lemma_level_range(max_order: nat, min_order: nat, node: nat, height: nat)
    requires
        min_order <= max_order,
        node >= 1,
        floor_log2(node) + height == max_order - min_order,
    ensures
        node < 2 * pow2((max_order - min_order) as nat),
        height == 0 ==> node >= pow2((max_order - min_order) as nat),
        height > 0 ==> node < pow2((max_order - min_order) as nat),
{
    let total = (max_order - min_order) as nat;
    lemma_floor_log2_bounds(node);
    lemma_index_below(node, total);
    if height > 0 {
        lemma_pow2_unfold(floor_log2(node) + 1);
        if floor_log2(node) + 1 < total {
            lemma_pow2_strictly_increases(floor_log2(node) + 1, total);
        }
    }
}

/// In a leafy tree a node with a free leaf below it holds at least the
/// smallest order, and a node with none holds a value far below zero.
pub proof fn lemma_value_tells_free(
    tree: Seq<i8>,
    max_order: nat,
    min_order: nat,
    node: nat,
    height: nat,
)
    requires
        leafy(tree, max_order, min_order),
        node >= 1,
        floor_log2(node) + height == max_order - min_order,
    ensures
        free_leaves(tree, node, height) > 0 ==> tree[node as int] >= min_order,
        free_leaves(tree, node, height) == 0 ==> tree[node as int] <= -128 + height,
    decreases height,
{
    lemma_level_range(max_order, min_order, node, height);
    if height == 0 {
        assert(tree[node as int] == USED || tree[node as int] == min_order);
    } else {
        lemma_child_depth(node);
        lemma_value_tells_free(tree, max_order, min_order, 2 * node, (height - 1) as nat);
        lemma_value_tells_free(tree, max_order, min_order, 2 * node + 1, (height - 1) as nat);
        assert(firm_at(tree, max_order, node as int));
        assert(tree[node as int] != USED);
    }
}

/// In a leafy tree the descent for the smallest order, from a node that
/// holds at least that order, ends on a leaf that is not used.
pub proof fn lemma_descent_finds_free_leaf(
    tree: Seq<i8>,
    max_order: nat,
    min_order: nat,
    node: nat,
    height: nat,
)
    requires
        leafy(tree, max_order, min_order),
        node >= 1,
        floor_log2(node) + height == max_order - min_order,
        tree[node as int] >= min_order,
    ensures
        tree[descend(tree, min_order as int, node, height) as int] == min_order,
        floor_log2(descend(tree, min_order as int, node, height)) == max_order - min_order,
        descend(tree, min_order as int, node, height) >= 1,
    decreases height,
{
    lemma_level_range(max_order, min_order, node, height);
    if height == 0 {
        assert(tree[node as int] == USED || tree[node as int] == min_order);
    } else {
        let low = 2 * node;
        let below = (height - 1) as nat;
        lemma_child_depth(node);
        lemma_value_tells_free(tree, max_order, min_order, node, height);
        lemma_value_tells_free(tree, max_order, min_order, low, below);
        lemma_value_tells_free(tree, max_order, min_order, low + 1, below);
        let next = if tree[low as int] >= min_order as int {
            low
        } else {
            low + 1
        };
        lemma_descent_finds_free_leaf(tree, max_order, min_order, next, below);
    }
}

/// When one free leaf becomes used and no other leaf changes its state, the
/// count below a node drops by one if the leaf lies below it, and stays
/// otherwise.
pub proof fn lemma_free_leaves_after_mark(
    before: Seq<i8>,
    after: Seq<i8>,
    max_order: nat,
    min_order: nat,
    leaf: nat,
    node: nat,
    height: nat,
)
    requires
        min_order <= max_order,
        before.len() == 2 * pow2((max_order - min_order) as nat),
        after.len() == before.len(),
        before[leaf as int] != USED,
        forall|j: int|
            before.len() / 2 <= j < before.len() ==> ((#[trigger] after[j]) == USED <==> before[j]
                == USED || j == leaf),
        node >= 1,
        floor_log2(node) + height == max_order - min_order,
    ensures
        free_leaves(after, node, height) == free_leaves(before, node, height) - (if lifted(
            leaf,
            height,
        ) == node {
            1int
        } else {
            0int
        }),
    decreases height,
{
    lemma_level_range(max_order, min_order, node, height);
    if height == 0 {
        assert(after[node as int] == USED <==> before[node as int] == USED || node == leaf);
    } else {
        let below = (height - 1) as nat;
        lemma_child_depth(node);
        lemma_free_leaves_after_mark(before, after, max_order, min_order, leaf, 2 * node, below);
        lemma_free_leaves_after_mark(
            before,
            after,
            max_order,
            min_order,
            leaf,
            2 * node + 1,
            below,
        );
    }
}

/// Lifting a node by as many levels as it lies deep ends at the root.
pub proof fn lemma_lifted_depth(node: nat, levels: nat)
    requires
        node >= 1,
        levels <= floor_log2(node),
    ensures
        lifted(node, levels) >= 1,
        floor_log2(lifted(node, levels)) == floor_log2(node) - levels,
        levels == floor_log2(node) ==> lifted(node, levels) == 1,
    decreases levels,
{
    if levels > 0 {
        lemma_lifted_depth(node, (levels - 1) as nat);
    }
}

/// In the pristine tree every leaf is free.
pub proof fn lemma_pristine_free_leaves(max_order: nat, min_order: nat, node: nat, height: nat)
    requires
        min_order <= max_order <= 62,
        node >= 1,
        floor_log2(node) + height == max_order - min_order,
    ensures
        free_leaves(pristine(max_order, min_order), node, height) == pow2(height),
    decreases height,
{
    lemma_level_range(max_order, min_order, node, height);
    if height == 0 {
        lemma2_to64();
    } else {
        lemma_child_depth(node);
        lemma_pow2_unfold(height);
        lemma_pristine_free_leaves(max_order, min_order, 2 * node, (height - 1) as nat);
        lemma_pristine_free_leaves(max_order, min_order, 2 * node + 1, (height - 1) as nat);
    }
}

/// A node above a node of the tree is an inner node of the tree.
pub proof fn lemma_above_is_inner(a: nat, node: nat)
    requires
        above(a, node),
    ensures
        1 <= a <= node / 2,
    decreases node,
{
    if node / 2 != a {
        lemma_above_is_inner(a, node / 2);
    }
}

} // verus!
