//! Where the block of a node lies in the region.

use vstd::prelude::*;
use vstd::arithmetic::power2::{pow2, lemma_pow2_adds, lemma_pow2_unfold, lemma_pow2_pos};
use crate::order::{floor_log2, lemma_floor_log2_bounds};
use crate::tree::{order_of, above};

verus! {

/// The position of `node` among the nodes of its level, counted from zero.
pub open spec fn sibling_index(node: nat) -> nat {
    (node - pow2(floor_log2(node))) as nat
}

/// The number of elements in the block of `node`.
pub open spec fn block_len(max_order: nat, node: nat) -> nat {
    pow2(order_of(max_order, node) as nat)
}

/// The first element of the block of `node`.
pub open spec fn element_offset(max_order: nat, node: nat) -> nat {
    sibling_index(node) * pow2(order_of(max_order, node) as nat)
}

/// The first byte of the block of `node`, for elements of `stride` bytes.
pub open spec fn byte_offset(max_order: nat, node: nat, stride: nat) -> nat {
    sibling_index(node) * pow2(order_of(max_order, node) as nat) * stride
}

/// The number of bytes in the block of `node`, for elements of `stride` bytes.
pub open spec fn byte_len(max_order: nat, node: nat, stride: nat) -> nat {
    block_len(max_order, node) * stride
}

/// The blocks of `a` and `b` share no element.
pub open spec fn apart(max_order: nat, a: nat, b: nat) -> bool {
    ||| element_offset(max_order, a) + block_len(max_order, a) <= element_offset(max_order, b)
    ||| element_offset(max_order, b) + block_len(max_order, b) <= element_offset(max_order, a)
}

/// The blocks of `a` and `b` share no byte.
pub open spec fn apart_in_bytes(max_order: nat, a: nat, b: nat, stride: nat) -> bool {
    ||| byte_offset(max_order, a, stride) + byte_len(max_order, a, stride) <= byte_offset(
        max_order,
        b,
        stride,
    )
    ||| byte_offset(max_order, b, stride) + byte_len(max_order, b, stride) <= byte_offset(
        max_order,
        a,
        stride,
    )
}

/// The block of a node lies inside the region.
pub proof fn lemma_block_within(max_order: nat, node: nat)
    requires
        node >= 1,
        floor_log2(node) <= max_order,
    ensures
        element_offset(max_order, node) + block_len(max_order, node) <= pow2(max_order),
{
    let depth = floor_log2(node);
    let order = (max_order - depth) as nat;
    lemma_floor_log2_bounds(node);
    lemma_pow2_adds(depth, order);
    let k = sibling_index(node);
    let size = pow2(order);
    let row = pow2(depth);
    assert(k * size + size <= row * size) by (nonlinear_arith)
        requires
            k + 1 <= row,
            size >= 0,
    ;
}

/// The block of a node lies inside the block of its parent.
pub proof fn lemma_child_inside(max_order: nat, node: nat)
    requires
        node >= 2,
        floor_log2(node) <= max_order,
    ensures
        element_offset(max_order, node / 2) <= element_offset(max_order, node),
        element_offset(max_order, node) + block_len(max_order, node) <= element_offset(
            max_order,
            node / 2,
        ) + block_len(max_order, node / 2),
{
    let parent = node / 2;
    let depth = floor_log2(node);
    let order = (max_order - depth) as nat;
    lemma_floor_log2_bounds(node);
    lemma_floor_log2_bounds(parent);
    lemma_pow2_unfold(depth);
    lemma_pow2_unfold(order + 1);
    let size = pow2(order);
    let k = sibling_index(node);
    let kp = sibling_index(parent);
    let r = node % 2;
    assert(k == 2 * kp + r);
    assert(block_len(max_order, parent) == 2 * size);
    assert(kp * (2 * size) <= k * size && k * size + size <= kp * (2 * size) + 2 * size)
        by (nonlinear_arith)
        requires
            k == 2 * kp + r,
            0 <= r <= 1,
            size >= 0,
    ;
}

/// A node above another lies on a higher level.
pub proof fn lemma_above_depth(a: nat, n: nat)
    requires
        above(a, n),
    ensures
        floor_log2(a) < floor_log2(n),
    decreases n,
{
    if n / 2 != a {
        lemma_above_depth(a, n / 2);
    }
}

/// Two nodes of which neither lies above the other, the first on no lower a
/// level than the second, have blocks that share no element.
proof fn lemma_apart_from_deeper(max_order: nat, a: nat, b: nat)
    requires
        a >= 1,
        b >= 1,
        a != b,
        !above(a, b),
        !above(b, a),
        floor_log2(a) <= floor_log2(b) <= max_order,
    ensures
        apart(max_order, a, b),
    decreases b,
{
    lemma_floor_log2_bounds(a);
    lemma_floor_log2_bounds(b);
    if floor_log2(a) == floor_log2(b) {
        let size = block_len(max_order, a);
        let ka = sibling_index(a);
        let kb = sibling_index(b);
        if ka < kb {
            assert(ka * size + size <= kb * size) by (nonlinear_arith)
                requires
                    ka + 1 <= kb,
                    size >= 0,
            ;
        } else {
            assert(kb * size + size <= ka * size) by (nonlinear_arith)
                requires
                    kb + 1 <= ka,
                    size >= 0,
            ;
        }
    } else {
        let parent = b / 2;
        if above(parent, a) {
            lemma_above_depth(parent, a);
        }
        lemma_apart_from_deeper(max_order, a, parent);
        lemma_child_inside(max_order, b);
    }
}

/// Two nodes of which neither lies above the other have blocks that share
/// no element.
pub proof fn lemma_unrelated_blocks_apart(max_order: nat, a: nat, b: nat)
    requires
        a >= 1,
        b >= 1,
        a != b,
        !above(a, b),
        !above(b, a),
        floor_log2(a) <= max_order,
        floor_log2(b) <= max_order,
    ensures
        apart(max_order, a, b),
{
    if floor_log2(a) <= floor_log2(b) {
        lemma_apart_from_deeper(max_order, a, b);
    } else {
        lemma_apart_from_deeper(max_order, b, a);
    }
}

/// Blocks that share no element share no byte.
pub proof fn lemma_apart_in_bytes(max_order: nat, a: nat, b: nat, stride: nat)
    requires
        apart(max_order, a, b),
    ensures
        apart_in_bytes(max_order, a, b, stride),
{
    let oa = element_offset(max_order, a);
    let ob = element_offset(max_order, b);
    let la = block_len(max_order, a);
    let lb = block_len(max_order, b);
    if oa + la <= ob {
        assert(oa * stride + la * stride <= ob * stride) by (nonlinear_arith)
            requires
                oa + la <= ob,
                stride >= 0,
        ;
    } else {
        assert(ob * stride + lb * stride <= oa * stride) by (nonlinear_arith)
            requires
                ob + lb <= oa,
                stride >= 0,
        ;
    }
}

/// The block of a node lies inside the block of every node above it, so
/// the two are not apart.
pub proof fn lemma_block_inside_above(max_order: nat, a: nat, node: nat)
    requires
        above(a, node),
        floor_log2(node) <= max_order,
    ensures
        element_offset(max_order, a) <= element_offset(max_order, node),
        element_offset(max_order, node) + block_len(max_order, node) <= element_offset(
            max_order,
            a,
        ) + block_len(max_order, a),
        !apart(max_order, a, node),
        !apart(max_order, node, a),
    decreases node,
{
    lemma_child_inside(max_order, node);
    lemma_pow2_pos(order_of(max_order, node) as nat);
    if node / 2 != a {
        lemma_block_inside_above(max_order, a, node / 2);
    }
}

} // verus!
