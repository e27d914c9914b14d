//! The order tree as a sequence of small integers: node `i` has the children
//! `2 * i` and `2 * i + 1`, node `1` is the root and index `0` is unused.

use vstd::prelude::*;
use vstd::arithmetic::power2::{pow2, lemma_pow2_pos, lemma_pow2_unfold, lemma_pow2_strictly_increases};
use crate::order::{floor_log2, ceil_log2, lemma_floor_log2_bounds, lemma_floor_log2_unique};

verus! {

/// The value of a node that is itself an allocated block.
pub const USED: i8 = -128;

/// The value of a parent whose children hold `low` and `high`: the larger of
/// the two, and one more where they are equal.
pub open spec fn merged(low: int, high: int) -> int {
    if low == high {
        low + 1
    } else if low > high {
        low
    } else {
        high
    }
}

/// The order of the block that `node` stands for.
pub open spec fn order_of(max_order: nat, node: nat) -> int {
    max_order - floor_log2(node)
}

/// The number of entries of a tree, the unused entry `0` included.
pub open spec fn node_count(max_order: nat, min_order: nat) -> nat {
    2 * pow2((max_order - min_order) as nat)
}

/// The tree of a region that is one free block: every node holds its own order.
pub open spec fn pristine(max_order: nat, min_order: nat) -> Seq<i8> {
    Seq::new(
        node_count(max_order, min_order),
        |i: int|
            if i == 0 {
                USED
            } else {
                order_of(max_order, i as nat) as i8
            },
    )
}

/// The size of the tree, and the range of each entry.
pub open spec fn shaped(tree: Seq<i8>, max_order: nat, min_order: nat) -> bool {
    &&& min_order <= max_order <= 62
    &&& tree.len() == node_count(max_order, min_order)
    &&& tree[0] == USED
    &&& forall|i: int|
        1 <= i < tree.len() ==> (#[trigger] tree[i]) == USED || tree[i] <= order_of(
            max_order,
            i as nat,
        )
    &&& forall|i: int|
        tree.len() / 2 <= i < tree.len() ==> (#[trigger] tree[i]) == USED || tree[i] == min_order
}

/// An inner node is settled when it is used, holds what its children merge
/// to, or holds its own order.
pub open spec fn settled_at(tree: Seq<i8>, max_order: nat, i: int) -> bool {
    ||| tree[i] == USED
    ||| tree[i] == merged(tree[2 * i] as int, tree[2 * i + 1] as int)
    ||| tree[i] == order_of(max_order, i as nat)
}

/// Every inner node but `hole` is settled.
pub open spec fn consistent_but(tree: Seq<i8>, max_order: nat, min_order: nat, hole: int) -> bool {
    &&& shaped(tree, max_order, min_order)
    &&& forall|i: int|
        1 <= i < tree.len() / 2 && i != hole ==> #[trigger] settled_at(tree, max_order, i)
}

/// Every inner node is settled.
pub open spec fn consistent(tree: Seq<i8>, max_order: nat, min_order: nat) -> bool {
    consistent_but(tree, max_order, min_order, 0)
}

/// `a` lies on the path from the root to `n`, above `n`.
pub open spec fn above(a: nat, n: nat) -> bool
    decreases n,
{
    n >= 2 && (n / 2 == a || above(a, n / 2))
}

/// The tree after the change of `block` has been carried towards the root:
/// each parent takes what its children merge to, until one keeps its value.
pub open spec fn propagate(tree: Seq<i8>, block: nat) -> Seq<i8>
    decreases block,
{
    if block <= 1 {
        tree
    } else {
        let parent = (block / 2) as int;
        let value = merged(tree[2 * parent] as int, tree[2 * parent + 1] as int) as i8;
        if tree[parent] == value {
            tree
        } else {
            propagate(tree.update(parent, value), parent as nat)
        }
    }
}

/// The node reached from `node` in `levels` steps down, each to the lower
/// child where that holds at least `target`, else to the higher one.
pub open spec fn descend(tree: Seq<i8>, target: int, node: nat, levels: nat) -> nat
    decreases levels,
{
    if levels == 0 {
        node
    } else {
        let low = 2 * node;
        let next = if tree[low as int] >= target {
            low
        } else {
            low + 1
        };
        descend(tree, target, next, (levels - 1) as nat)
    }
}

/// The order of the block that a request for `len` elements is given.
pub open spec fn target_order(len: nat, min_order: nat) -> nat {
    if ceil_log2(len) >= min_order {
        ceil_log2(len)
    } else {
        min_order
    }
}

/// The node that a request of order `target` claims.
pub open spec fn claim_site(tree: Seq<i8>, max_order: nat, target: nat) -> nat {
    descend(tree, target as int, 1, (max_order - target) as nat)
}

/// The tree after a request of order `target` has been served.
pub open spec fn after_claim(tree: Seq<i8>, max_order: nat, target: nat) -> Seq<i8> {
    let node = claim_site(tree, max_order, target);
    propagate(tree.update(node as int, USED), node)
}

/// The tree after the block of `node` has been given back.
pub open spec fn after_release(tree: Seq<i8>, max_order: nat, node: nat) -> Seq<i8> {
    propagate(tree.update(node as int, order_of(max_order, node) as i8), node)
}

/// Both children of a node lie one level below it.
pub proof fn lemma_child_depth(i: nat)
    requires
        i >= 1,
    ensures
        floor_log2(2 * i) == floor_log2(i) + 1,
        floor_log2(2 * i + 1) == floor_log2(i) + 1,
{
    assert((2 * i) / 2 == i);
    assert((2 * i + 1) / 2 == i);
}

/// In a tree of height `h` no node lies below level `h`, and the upper half
/// of the indices lies on it.
pub proof fn lemma_depth_in_tree(i: nat, h: nat)
    requires
        1 <= i < 2 * pow2(h),
    ensures
        floor_log2(i) <= h,
        pow2(h) <= i ==> floor_log2(i) == h,
{
    lemma_floor_log2_bounds(i);
    lemma_pow2_unfold(h + 1);
    if floor_log2(i) > h + 1 {
        lemma_pow2_strictly_increases(h + 1, floor_log2(i));
    }
    if pow2(h) <= i {
        lemma_floor_log2_unique(i, h);
    }
}

/// Two values of a shaped tree merge to a value that fits the parent.
pub proof fn lemma_merged_fits(tree: Seq<i8>, max_order: nat, min_order: nat, parent: int)
    requires
        shaped(tree, max_order, min_order),
        1 <= parent < tree.len() / 2,
    ensures
        -128 < merged(tree[2 * parent] as int, tree[2 * parent + 1] as int) <= order_of(
            max_order,
            parent as nat,
        ) <= 62,
{
    lemma_child_depth(parent as nat);
    lemma_depth_in_tree(parent as nat, (max_order - min_order) as nat);
    let a = tree[2 * parent];
    let b = tree[2 * parent + 1];
    assert(a == USED || a <= order_of(max_order, (2 * parent) as nat));
    assert(b == USED || b <= order_of(max_order, (2 * parent + 1) as nat));
}

/// Writing a value that suits the node leaves the tree consistent but for the
/// node's parent.
pub proof fn lemma_update_keeps_rest(
    tree: Seq<i8>,
    max_order: nat,
    min_order: nat,
    node: int,
    value: i8,
)
    requires
        consistent(tree, max_order, min_order),
        1 <= node < tree.len(),
        value == USED || value == order_of(max_order, node as nat),
    ensures
        consistent_but(tree.update(node, value), max_order, min_order, node / 2),
{
    let next = tree.update(node, value);
    lemma_depth_in_tree(node as nat, (max_order - min_order) as nat);
    lemma_pow2_pos((max_order - min_order) as nat);
    assert forall|i: int| 1 <= i < next.len() implies (#[trigger] next[i]) == USED || next[i]
        <= order_of(max_order, i as nat) by {
        assert(tree[i] == USED || tree[i] <= order_of(max_order, i as nat));
    }
    assert forall|i: int| next.len() / 2 <= i < next.len() implies (#[trigger] next[i]) == USED
        || next[i] == min_order by {
        assert(tree[i] == USED || tree[i] == min_order);
    }
    assert forall|i: int| 1 <= i < next.len() / 2 && i != node / 2 implies #[trigger] settled_at(
        next,
        max_order,
        i,
    ) by {
        assert(settled_at(tree, max_order, i));
    }
}

/// One step of carrying a change upwards: the merged value fits the parent,
/// and once it is written the only node left open is the parent's parent.
pub proof fn lemma_lift(tree: Seq<i8>, max_order: nat, min_order: nat, parent: int)
    requires
        consistent_but(tree, max_order, min_order, parent),
        1 <= parent < tree.len() / 2,
    ensures
        -128 < merged(tree[2 * parent] as int, tree[2 * parent + 1] as int) <= 62,
        tree[parent] == merged(tree[2 * parent] as int, tree[2 * parent + 1] as int)
            ==> consistent(tree, max_order, min_order),
        consistent_but(
            tree.update(
                parent,
                merged(tree[2 * parent] as int, tree[2 * parent + 1] as int) as i8,
            ),
            max_order,
            min_order,
            parent / 2,
        ),
{
    let value = merged(tree[2 * parent] as int, tree[2 * parent + 1] as int) as i8;
    lemma_merged_fits(tree, max_order, min_order, parent);
    if tree[parent] == value {
        assert(settled_at(tree, max_order, parent));
        assert forall|i: int| 1 <= i < tree.len() / 2 && i != 0 implies #[trigger] settled_at(
            tree,
            max_order,
            i,
        ) by {
            if i != parent {
                assert(settled_at(tree, max_order, i));
            }
        }
    }
    let next = tree.update(parent, value);
    assert forall|i: int| 1 <= i < next.len() implies (#[trigger] next[i]) == USED || next[i]
        <= order_of(max_order, i as nat) by {
        assert(tree[i] == USED || tree[i] <= order_of(max_order, i as nat));
    }
    assert forall|i: int| next.len() / 2 <= i < next.len() implies (#[trigger] next[i]) == USED
        || next[i] == min_order by {
        assert(tree[i] == USED || tree[i] == min_order);
    }
    assert forall|i: int| 1 <= i < next.len() / 2 && i != parent / 2 implies #[trigger] settled_at(
        next,
        max_order,
        i,
    ) by {
        if i != parent {
            assert(settled_at(tree, max_order, i));
        }
    }
}

/// Carrying a change upwards settles the one node that was left open, writes
/// inner nodes on the path to the root only, and never marks a node used.
pub proof fn lemma_propagate(tree: Seq<i8>, max_order: nat, min_order: nat, block: nat)
    requires
        consistent_but(tree, max_order, min_order, (block / 2) as int),
        1 <= block < tree.len(),
    ensures
        consistent(propagate(tree, block), max_order, min_order),
        propagate(tree, block).len() == tree.len(),
        forall|j: int|
            0 <= j < tree.len() ==> (#[trigger] propagate(tree, block)[j]) == tree[j] || (above(
                j as nat,
                block,
            ) && propagate(tree, block)[j] != USED),
    decreases block,
{
    if block > 1 {
        let parent = (block / 2) as int;
        let value = merged(tree[2 * parent] as int, tree[2 * parent + 1] as int) as i8;
        lemma_lift(tree, max_order, min_order, parent);
        if tree[parent] != value {
            let next = tree.update(parent, value);
            lemma_propagate(next, max_order, min_order, parent as nat);
            let last = propagate(next, parent as nat);
            assert forall|j: int| 0 <= j < tree.len() implies (#[trigger] propagate(tree, block)[j])
                == tree[j] || (above(j as nat, block) && propagate(tree, block)[j] != USED) by {
                assert(last[j] == next[j] || (above(j as nat, parent as nat) && last[j] != USED));
            }
        }
    }
}

/// The pristine tree is consistent.
pub proof fn lemma_pristine_consistent(max_order: nat, min_order: nat)
    requires
        min_order <= max_order <= 62,
    ensures
        consistent(pristine(max_order, min_order), max_order, min_order),
{
    let tree = pristine(max_order, min_order);
    let h = (max_order - min_order) as nat;
    lemma_pow2_pos(h);
    assert forall|i: int| 1 <= i < tree.len() implies (#[trigger] tree[i]) == order_of(
        max_order,
        i as nat,
    ) by {
        lemma_depth_in_tree(i as nat, h);
    }
    assert forall|i: int| tree.len() / 2 <= i < tree.len() implies (#[trigger] tree[i]) == USED
        || tree[i] == min_order by {
        lemma_depth_in_tree(i as nat, h);
    }
    assert forall|i: int| 1 <= i < tree.len() / 2 && i != 0 implies #[trigger] settled_at(
        tree,
        max_order,
        i,
    ) by {
        assert(tree[i] == order_of(max_order, i as nat));
    }
}

/// A descent of `levels` steps ends `levels` levels lower.
pub proof fn lemma_descend_depth(tree: Seq<i8>, target: int, node: nat, levels: nat)
    requires
        node >= 1,
    ensures
        descend(tree, target, node, levels) >= 1,
        floor_log2(descend(tree, target, node, levels)) == floor_log2(node) + levels,
    decreases levels,
{
    if levels > 0 {
        lemma_child_depth(node);
        let low = 2 * node;
        let next = if tree[low as int] >= target {
            low
        } else {
            low + 1
        };
        lemma_descend_depth(tree, target, next, (levels - 1) as nat);
    }
}

/// A node on level `d` has an index below `2^(d+1)`.
pub proof fn lemma_index_below(node: nat, h: nat)
    requires
        node >= 1,
        floor_log2(node) <= h,
    ensures
        node < 2 * pow2(h),
{
    lemma_floor_log2_bounds(node);
    if floor_log2(node) < h {
        lemma_pow2_strictly_increases(floor_log2(node), h);
    }
}

/// A request of an order that the root can serve claims a node of the tree
/// on the level of that order, leaves the tree consistent, and marks no node
/// used but the one it claims.
pub proof fn lemma_claim(tree: Seq<i8>, max_order: nat, min_order: nat, target: nat)
    requires
        consistent(tree, max_order, min_order),
        min_order <= target <= max_order,
    ensures
        1 <= claim_site(tree, max_order, target) < tree.len(),
        order_of(max_order, claim_site(tree, max_order, target)) == target,
        consistent(after_claim(tree, max_order, target), max_order, min_order),
        after_claim(tree, max_order, target).len() == tree.len(),
        forall|j: int|
            0 <= j < tree.len() ==> (#[trigger] after_claim(tree, max_order, target)[j]) == (
            if j == claim_site(tree, max_order, target) {
                USED
            } else {
                tree[j]
            }) || (above(j as nat, claim_site(tree, max_order, target)) && after_claim(
                tree,
                max_order,
                target,
            )[j] != USED),
{
    let node = claim_site(tree, max_order, target);
    let levels = (max_order - target) as nat;
    let height = (max_order - min_order) as nat;
    lemma_descend_depth(tree, target as int, 1, levels);
    lemma_index_below(node, height);
    lemma_update_keeps_rest(tree, max_order, min_order, node as int, USED);
    let marked = tree.update(node as int, USED);
    lemma_propagate(marked, max_order, min_order, node);
    lemma_above_is_not_self(node, node);
    assert forall|j: int| 0 <= j < tree.len() implies (#[trigger] after_claim(
        tree,
        max_order,
        target,
    )[j]) == (if j == node {
        USED
    } else {
        tree[j]
    }) || (above(j as nat, node) && after_claim(tree, max_order, target)[j] != USED) by {
        assert(propagate(marked, node)[j] == marked[j] || (above(j as nat, node) && propagate(
            marked,
            node,
        )[j] != USED));
    }
}

/// Giving back the block of a node leaves the tree consistent, and leaves
/// no node marked used that was not, nor the node itself.
pub proof fn lemma_release(tree: Seq<i8>, max_order: nat, min_order: nat, node: nat)
    requires
        consistent(tree, max_order, min_order),
        1 <= node < tree.len(),
    ensures
        consistent(after_release(tree, max_order, node), max_order, min_order),
        after_release(tree, max_order, node).len() == tree.len(),
        after_release(tree, max_order, node)[node as int] != USED,
        forall|j: int|
            0 <= j < tree.len() ==> (#[trigger] after_release(tree, max_order, node)[j]) == (
            if j == node {
                order_of(max_order, node) as i8
            } else {
                tree[j]
            }) || (above(j as nat, node) && after_release(tree, max_order, node)[j] != USED),
{
    let height = (max_order - min_order) as nat;
    let value = order_of(max_order, node) as i8;
    lemma_depth_in_tree(node, height);
    lemma_update_keeps_rest(tree, max_order, min_order, node as int, value);
    let opened = tree.update(node as int, value);
    lemma_propagate(opened, max_order, min_order, node);
    lemma_above_is_not_self(node, node);
    assert(propagate(opened, node)[node as int] == opened[node as int] || above(node, node));
    assert forall|j: int| 0 <= j < tree.len() implies (#[trigger] after_release(
        tree,
        max_order,
        node,
    )[j]) == (if j == node {
        value
    } else {
        tree[j]
    }) || (above(j as nat, node) && after_release(tree, max_order, node)[j] != USED) by {
        assert(propagate(opened, node)[j] == opened[j] || (above(j as nat, node) && propagate(
            opened,
            node,
        )[j] != USED));
    }
}

/// A node above another has the smaller index.
pub proof fn lemma_above_is_not_self(a: nat, n: nat)
    requires
        a >= n,
    ensures
        !above(a, n),
    decreases n,
{
    if n >= 2 {
        lemma_above_is_not_self(a, n / 2);
    }
}

/// In a consistent tree where no node is used, `node` holds its own order.
pub proof fn lemma_unused_node_is_whole(tree: Seq<i8>, max_order: nat, min_order: nat, node: nat)
    requires
        consistent(tree, max_order, min_order),
        forall|i: int| 1 <= i < tree.len() ==> (#[trigger] tree[i]) != USED,
        1 <= node < tree.len(),
    ensures
        tree[node as int] == order_of(max_order, node),
    decreases tree.len() - node,
{
    let height = (max_order - min_order) as nat;
    lemma_depth_in_tree(node, height);
    if node >= tree.len() / 2 {
        assert(tree[node as int] == USED || tree[node as int] == min_order);
    } else {
        lemma_unused_node_is_whole(tree, max_order, min_order, 2 * node);
        lemma_unused_node_is_whole(tree, max_order, min_order, 2 * node + 1);
        lemma_child_depth(node);
        assert(settled_at(tree, max_order, node as int));
    }
}

/// A consistent tree where no node is used is the pristine one.
pub proof fn lemma_unused_is_pristine(tree: Seq<i8>, max_order: nat, min_order: nat)
    requires
        consistent(tree, max_order, min_order),
        forall|i: int| 1 <= i < tree.len() ==> (#[trigger] tree[i]) != USED,
    ensures
        tree == pristine(max_order, min_order),
{
    let fresh = pristine(max_order, min_order);
    assert forall|i: int| 0 <= i < tree.len() implies tree[i] == fresh[i] by {
        if i >= 1 {
            lemma_unused_node_is_whole(tree, max_order, min_order, i as nat);
        }
    }
    assert(tree =~= fresh);
}

/// An inner node is firm when it holds what its children merge to, or is
/// used while both its children hold their own orders.
pub open spec fn firm_at(tree: Seq<i8>, max_order: nat, i: int) -> bool {
    if tree[i] == USED {
        tree[2 * i] == order_of(max_order, (2 * i) as nat) && tree[2 * i + 1] == order_of(
            max_order,
            (2 * i + 1) as nat,
        )
    } else {
        tree[i] == merged(tree[2 * i] as int, tree[2 * i + 1] as int)
    }
}

/// Every inner node but `hole` is firm.
pub open spec fn firm_but(tree: Seq<i8>, max_order: nat, min_order: nat, hole: int) -> bool {
    &&& shaped(tree, max_order, min_order)
    &&& forall|i: int| 1 <= i < tree.len() / 2 && i != hole ==> #[trigger] firm_at(tree, max_order, i)
}

/// Every inner node is firm: no used block holds another, and every other
/// value is what the children merge to.
pub open spec fn firm(tree: Seq<i8>, max_order: nat, min_order: nat) -> bool {
    firm_but(tree, max_order, min_order, 0)
}

/// The block of `node` is free as a whole: the node holds its own order and
/// lies in no used block.
pub open spec fn vacant(tree: Seq<i8>, max_order: nat, node: nat) -> bool {
    &&& tree[node as int] == order_of(max_order, node)
    &&& forall|a: nat| #[trigger] above(a, node) ==> tree[a as int] != USED
}

/// A tree that is firm but for one node is consistent but for that node.
pub proof fn lemma_firm_is_consistent(tree: Seq<i8>, max_order: nat, min_order: nat, hole: int)
    requires
        firm_but(tree, max_order, min_order, hole),
    ensures
        consistent_but(tree, max_order, min_order, hole),
{
    assert forall|i: int| 1 <= i < tree.len() / 2 && i != hole implies #[trigger] settled_at(
        tree,
        max_order,
        i,
    ) by {
        assert(firm_at(tree, max_order, i));
    }
}

/// The pristine tree is firm.
pub proof fn lemma_pristine_firm(max_order: nat, min_order: nat)
    requires
        min_order <= max_order <= 62,
    ensures
        firm(pristine(max_order, min_order), max_order, min_order),
{
    let tree = pristine(max_order, min_order);
    let h = (max_order - min_order) as nat;
    lemma_pristine_consistent(max_order, min_order);
    assert forall|i: int| 1 <= i < tree.len() / 2 && i != 0 implies #[trigger] firm_at(
        tree,
        max_order,
        i,
    ) by {
        lemma_depth_in_tree(i as nat, h);
        lemma_depth_in_tree((2 * i) as nat, h);
        lemma_depth_in_tree((2 * i + 1) as nat, h);
        lemma_child_depth(i as nat);
    }
}

/// In a firm tree the children of a node that holds its own order hold theirs.
pub proof fn lemma_whole_children(tree: Seq<i8>, max_order: nat, min_order: nat, node: nat)
    requires
        firm(tree, max_order, min_order),
        1 <= node < tree.len() / 2,
        tree[node as int] == order_of(max_order, node),
    ensures
        tree[2 * node as int] == order_of(max_order, 2 * node),
        tree[2 * node as int + 1] == order_of(max_order, 2 * node + 1),
{
    let height = (max_order - min_order) as nat;
    lemma_depth_in_tree(node, height);
    lemma_child_depth(node);
    assert(firm_at(tree, max_order, node as int));
    let a = tree[2 * node as int];
    let b = tree[2 * node as int + 1];
    assert(a == USED || a <= order_of(max_order, 2 * node));
    assert(b == USED || b <= order_of(max_order, 2 * node + 1));
}

/// In a firm tree every node inside a used block holds its own order.
pub proof fn lemma_below_used_is_whole(
    tree: Seq<i8>,
    max_order: nat,
    min_order: nat,
    a: nat,
    node: nat,
)
    requires
        firm(tree, max_order, min_order),
        1 <= a,
        node < tree.len(),
        tree[a as int] == USED,
        above(a, node),
    ensures
        tree[node as int] == order_of(max_order, node),
    decreases node,
{
    let parent = node / 2;
    if parent == a {
        assert(firm_at(tree, max_order, a as int));
    } else {
        lemma_below_used_is_whole(tree, max_order, min_order, a, parent);
        lemma_above_is_not_self(a, 1);
        lemma_whole_children(tree, max_order, min_order, parent);
    }
}

/// Carrying a change upwards makes a tree firm that was firm but for the
/// parent of the changed node.
pub proof fn lemma_firm_propagate(tree: Seq<i8>, max_order: nat, min_order: nat, block: nat)
    requires
        firm_but(tree, max_order, min_order, (block / 2) as int),
        1 <= block < tree.len(),
    ensures
        firm(propagate(tree, block), max_order, min_order),
    decreases block,
{
    if block > 1 {
        let parent = (block / 2) as int;
        let value = merged(tree[2 * parent] as int, tree[2 * parent + 1] as int) as i8;
        lemma_firm_is_consistent(tree, max_order, min_order, parent);
        lemma_lift(tree, max_order, min_order, parent);
        if tree[parent] == value {
            assert forall|i: int| 1 <= i < tree.len() / 2 && i != 0 implies #[trigger] firm_at(
                tree,
                max_order,
                i,
            ) by {
                if i != parent {
                    assert(firm_at(tree, max_order, i));
                }
            }
        } else {
            let next = tree.update(parent, value);
            assert forall|i: int| 1 <= i < next.len() / 2 && i != parent / 2 implies
                #[trigger] firm_at(next, max_order, i) by {
                if i != parent {
                    assert(firm_at(tree, max_order, i));
                }
            }
            lemma_firm_propagate(next, max_order, min_order, parent as nat);
        }
    }
}

/// A request that claims a vacant block leaves a firm tree firm, and marks
/// that block used and no other node, nor clears any mark.
pub proof fn lemma_firm_claim(tree: Seq<i8>, max_order: nat, min_order: nat, target: nat)
    requires
        firm(tree, max_order, min_order),
        min_order <= target <= max_order,
        vacant(tree, max_order, claim_site(tree, max_order, target)),
    ensures
        firm(after_claim(tree, max_order, target), max_order, min_order),
        forall|j: int|
            0 <= j < tree.len() ==> ((#[trigger] after_claim(tree, max_order, target)[j]) == USED
                <==> tree[j] == USED || j == claim_site(tree, max_order, target)),
{
    let node = claim_site(tree, max_order, target);
    let after = after_claim(tree, max_order, target);
    lemma_firm_is_consistent(tree, max_order, min_order, 0);
    lemma_claim(tree, max_order, min_order, target);
    lemma_update_keeps_rest(tree, max_order, min_order, node as int, USED);
    let marked = tree.update(node as int, USED);
    if node < tree.len() / 2 {
        lemma_whole_children(tree, max_order, min_order, node);
    }
    assert forall|i: int| 1 <= i < marked.len() / 2 && i != node / 2 implies #[trigger] firm_at(
        marked,
        max_order,
        i,
    ) by {
        if i != node {
            assert(firm_at(tree, max_order, i));
        }
    }
    lemma_firm_propagate(marked, max_order, min_order, node);
    assert forall|j: int| 0 <= j < tree.len() implies ((#[trigger] after[j]) == USED <==> tree[j]
        == USED || j == node) by {
        if above(j as nat, node) {
            lemma_above_is_not_self(j as nat, j as nat);
        }
    }
}

/// The return of a used block leaves a firm tree firm, and clears the mark
/// of that block and no other, nor sets any.
pub proof fn lemma_firm_release(tree: Seq<i8>, max_order: nat, min_order: nat, node: nat)
    requires
        firm(tree, max_order, min_order),
        1 <= node < tree.len(),
        tree[node as int] == USED,
    ensures
        firm(after_release(tree, max_order, node), max_order, min_order),
        forall|j: int|
            0 <= j < tree.len() ==> ((#[trigger] after_release(tree, max_order, node)[j]) == USED
                <==> tree[j] == USED && j != node),
{
    let after = after_release(tree, max_order, node);
    let value = order_of(max_order, node) as i8;
    let height = (max_order - min_order) as nat;
    lemma_firm_is_consistent(tree, max_order, min_order, 0);
    lemma_release(tree, max_order, min_order, node);
    lemma_depth_in_tree(node, height);
    lemma_update_keeps_rest(tree, max_order, min_order, node as int, value);
    let opened = tree.update(node as int, value);
    assert forall|i: int| 1 <= i < opened.len() / 2 && i != node / 2 implies #[trigger] firm_at(
        opened,
        max_order,
        i,
    ) by {
        assert(firm_at(tree, max_order, i));
        if i == node {
            lemma_child_depth(node);
        }
    }
    lemma_firm_propagate(opened, max_order, min_order, node);
    assert forall|j: int| 0 <= j < tree.len() implies ((#[trigger] after[j]) == USED <==> tree[j]
        == USED && j != node) by {
        if above(j as nat, node) && tree[j] == USED {
            lemma_above_is_not_self(0, 0);
            if j >= 1 {
                lemma_below_used_is_whole(tree, max_order, min_order, j as nat, node);
            }
        }
    }
}

/// The parent of a node that lies above `node` lies above `node` too.
pub proof fn lemma_above_parent(a: nat, node: nat)
    requires
        above(a, node),
        a >= 2,
    ensures
        above(a / 2, node),
    decreases node,
{
    if node / 2 != a {
        lemma_above_parent(a, node / 2);
    } else {
        assert(above(a / 2, a));
    }
}

/// In a firm tree a node that does not hold its own order is used, or has a
/// used node below it.
pub proof fn lemma_broken_block_holds_used(
    tree: Seq<i8>,
    max_order: nat,
    min_order: nat,
    node: nat,
) -> (used: nat)
    requires
        firm(tree, max_order, min_order),
        1 <= node < tree.len(),
        tree[node as int] != order_of(max_order, node),
    ensures
        used == node || above(node, used),
        1 <= used < tree.len(),
        tree[used as int] == USED,
    decreases tree.len() - node,
{
    let height = (max_order - min_order) as nat;
    lemma_depth_in_tree(node, height);
    if tree[node as int] == USED {
        node
    } else if node >= tree.len() / 2 {
        assert(tree[node as int] == USED || tree[node as int] == min_order);
        node
    } else {
        lemma_child_depth(node);
        assert(firm_at(tree, max_order, node as int));
        let child = if tree[2 * node as int] != order_of(max_order, 2 * node) {
            2 * node
        } else {
            2 * node + 1
        };
        let used = lemma_broken_block_holds_used(tree, max_order, min_order, child);
        if used != child {
            lemma_above_parent(child, used);
        }
        used
    }
}

} // verus!
