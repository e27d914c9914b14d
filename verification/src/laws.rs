//! Histories of requests and returns on a fresh region, and what holds of
//! every one of them.

use vstd::prelude::*;
use vstd::multiset::Multiset;
use vstd::arithmetic::power2::{pow2, lemma_pow2_pos, lemma_pow2_strictly_increases};
use crate::order::{ceil_log2, lemma_ceil_log2_bounds, lemma_ceil_log2_least};
use crate::blocks::{
    apart, apart_in_bytes, lemma_unrelated_blocks_apart, lemma_apart_in_bytes,
    lemma_block_inside_above,
};
use crate::filling::{
    free_leaves, leafy, lemma_value_tells_free, lemma_descent_finds_free_leaf,
    lemma_free_leaves_after_mark, lemma_lifted_depth, lemma_pristine_free_leaves,
    lemma_above_is_inner, lemma_level_range,
};
use crate::tree::{
    USED, order_of, pristine, consistent, firm, vacant, above, target_order, claim_site,
    after_claim, after_release, lemma_claim, lemma_release, lemma_pristine_consistent,
    lemma_unused_is_pristine, lemma_pristine_firm, lemma_firm_claim, lemma_firm_release,
    lemma_firm_is_consistent, lemma_below_used_is_whole, lemma_depth_in_tree,
    lemma_broken_block_holds_used,
};

verus! {

/// One call on the allocator: a request for `len` elements, or the return of
/// the handle of `node`.
pub enum Step {
    Claim { len: nat },
    Release { node: nat },
}

/// The tree, and the handles that were handed out and not yet returned.
pub struct Ledger {
    pub tree: Seq<i8>,
    pub live: Multiset<nat>,
}

/// The ledger after one step.
pub open spec fn advance(ledger: Ledger, max_order: nat, min_order: nat, step: Step) -> Ledger {
    match step {
        Step::Claim { len } => {
            let target = target_order(len, min_order);
            if ledger.tree[1] >= target {
                Ledger {
                    tree: after_claim(ledger.tree, max_order, target),
                    live: ledger.live.insert(claim_site(ledger.tree, max_order, target)),
                }
            } else {
                ledger
            }
        },
        Step::Release { node } => Ledger {
            tree: after_release(ledger.tree, max_order, node),
            live: ledger.live.remove(node),
        },
    }
}

/// The ledger after the steps of a history, taken on a fresh region.
pub open spec fn run(max_order: nat, min_order: nat, steps: Seq<Step>) -> Ledger
    decreases steps.len(),
{
    if steps.len() == 0 {
        Ledger { tree: pristine(max_order, min_order), live: Multiset::empty() }
    } else {
        advance(run(max_order, min_order, steps.drop_last()), max_order, min_order, steps.last())
    }
}

/// Every return in the history gives back a handle that is live at that
/// moment: no handle is returned before it was handed out, nor more often.
pub open spec fn matched(max_order: nat, min_order: nat, steps: Seq<Step>) -> bool
    decreases steps.len(),
{
    steps.len() == 0 || (matched(max_order, min_order, steps.drop_last()) && match steps.last() {
        Step::Claim { len } => true,
        Step::Release { node } => run(max_order, min_order, steps.drop_last()).live.count(node)
            > 0,
    })
}

/// After a matched history the tree is consistent, every live handle names a
/// node of the tree, and every node marked used has a live handle.
pub proof fn lemma_matched_history(max_order: nat, min_order: nat, steps: Seq<Step>)
    requires
        min_order <= max_order <= 62,
        matched(max_order, min_order, steps),
    ensures
        consistent(run(max_order, min_order, steps).tree, max_order, min_order),
        forall|h: nat|
            run(max_order, min_order, steps).live.count(h) > 0 ==> 1 <= h < run(
                max_order,
                min_order,
                steps,
            ).tree.len(),
        forall|i: int|
            1 <= i < run(max_order, min_order, steps).tree.len() && (#[trigger] run(
                max_order,
                min_order,
                steps,
            ).tree[i]) == USED ==> run(max_order, min_order, steps).live.count(i as nat) > 0,
    decreases steps.len(),
{
    if steps.len() == 0 {
        lemma_pristine_consistent(max_order, min_order);
        let fresh = pristine(max_order, min_order);
        assert forall|i: int| 1 <= i < fresh.len() implies (#[trigger] fresh[i]) != USED by {
            lemma_depth_in_tree(i as nat, (max_order - min_order) as nat);
        }
    } else {
        let before = run(max_order, min_order, steps.drop_last());
        let after = run(max_order, min_order, steps);
        lemma_matched_history(max_order, min_order, steps.drop_last());
        lemma_pow2_pos((max_order - min_order) as nat);
        match steps.last() {
            Step::Claim { len } => {
                let target = target_order(len, min_order);
                if before.tree[1] >= target {
                    assert(before.tree[1] == USED || before.tree[1] <= order_of(max_order, 1));
                    lemma_claim(before.tree, max_order, min_order, target);
                    assert forall|i: int|
                        1 <= i < after.tree.len() && (#[trigger] after.tree[i])
                            == USED implies after.live.count(i as nat) > 0 by {
                        if i != claim_site(before.tree, max_order, target) {
                            assert(before.tree[i] == USED);
                        }
                    }
                }
            },
            Step::Release { node } => {
                lemma_release(before.tree, max_order, min_order, node);
                assert forall|i: int|
                    1 <= i < after.tree.len() && (#[trigger] after.tree[i])
                        == USED implies after.live.count(i as nat) > 0 by {
                    assert(i != node);
                    assert(before.tree[i] == USED);
                }
            },
        }
    }
}

/// Whatever was requested and in whatever order it was returned: once every
/// handle that was handed out has been returned, exactly once each, the tree
/// is again the tree of a fresh region.
pub proof fn lemma_returns_restore_the_tree(max_order: nat, min_order: nat, steps: Seq<Step>)
    requires
        min_order <= max_order <= 62,
        matched(max_order, min_order, steps),
        run(max_order, min_order, steps).live.len() == 0,
    ensures
        run(max_order, min_order, steps).tree == pristine(max_order, min_order),
{
    let last = run(max_order, min_order, steps);
    lemma_matched_history(max_order, min_order, steps);
    assert forall|i: int| 1 <= i < last.tree.len() implies (#[trigger] last.tree[i]) != USED by {
        if last.tree[i] == USED {
            assert(last.live.count(i as nat) > 0);
            assert(last.live.count(i as nat) <= last.live.len());
        }
    }
    lemma_unused_is_pristine(last.tree, max_order, min_order);
}

/// The order that a request is given is the binary logarithm, rounded up, of
/// the requested length or of the smallest block, whichever is larger.
pub proof fn lemma_target_order_rounds_up(len: nat, min_order: nat)
    ensures
        target_order(len, min_order) == ceil_log2(
            if len >= pow2(min_order) {
                len
            } else {
                pow2(min_order)
            },
        ),
        len <= pow2(target_order(len, min_order)),
        pow2(min_order) <= pow2(target_order(len, min_order)),
{
    let floor = pow2(min_order);
    lemma_ceil_log2_bounds(len);
    lemma_ceil_log2_bounds(floor);
    lemma_ceil_log2_least(floor, min_order);
    if ceil_log2(floor) < min_order {
        lemma_pow2_strictly_increases(ceil_log2(floor), min_order);
    }
    if len >= floor {
        if ceil_log2(len) < min_order {
            lemma_pow2_strictly_increases(ceil_log2(len), min_order);
        }
    } else {
        lemma_ceil_log2_least(len, min_order);
    }
    if min_order < target_order(len, min_order) {
        lemma_pow2_strictly_increases(
            min_order,
            target_order(len, min_order),
        );
    }
}

/// Every request of the history that was served claimed a block that was
/// free as a whole at that moment.
pub open spec fn clean(max_order: nat, min_order: nat, steps: Seq<Step>) -> bool
    decreases steps.len(),
{
    steps.len() == 0 || (clean(max_order, min_order, steps.drop_last()) && match steps.last() {
        Step::Claim { len } => {
            let before = run(max_order, min_order, steps.drop_last()).tree;
            let target = target_order(len, min_order);
            before[1] >= target ==> vacant(before, max_order, claim_site(before, max_order, target))
        },
        Step::Release { node } => true,
    })
}

/// After a matched and clean history the tree is firm, and the live handles
/// are the nodes marked used, each once.
pub proof fn lemma_clean_history(max_order: nat, min_order: nat, steps: Seq<Step>)
    requires
        min_order <= max_order <= 62,
        matched(max_order, min_order, steps),
        clean(max_order, min_order, steps),
    ensures
        firm(run(max_order, min_order, steps).tree, max_order, min_order),
        forall|h: nat|
            (#[trigger] run(max_order, min_order, steps).live.count(h)) == (if 1 <= h < run(
                max_order,
                min_order,
                steps,
            ).tree.len() && run(max_order, min_order, steps).tree[h as int] == USED {
                1nat
            } else {
                0nat
            }),
    decreases steps.len(),
{
    let after = run(max_order, min_order, steps);
    lemma_pow2_pos((max_order - min_order) as nat);
    if steps.len() == 0 {
        lemma_pristine_firm(max_order, min_order);
        let fresh = pristine(max_order, min_order);
        assert forall|h: nat| (#[trigger] after.live.count(h)) == (if 1 <= h < fresh.len()
            && fresh[h as int] == USED {
            1nat
        } else {
            0nat
        }) by {
            if 1 <= h < fresh.len() {
                lemma_depth_in_tree(h, (max_order - min_order) as nat);
            }
        }
    } else {
        let before = run(max_order, min_order, steps.drop_last());
        lemma_clean_history(max_order, min_order, steps.drop_last());
        lemma_firm_is_consistent(before.tree, max_order, min_order, 0);
        match steps.last() {
            Step::Claim { len } => {
                let target = target_order(len, min_order);
                if before.tree[1] >= target {
                    assert(before.tree[1] == USED || before.tree[1] <= order_of(max_order, 1));
                    let node = claim_site(before.tree, max_order, target);
                    lemma_claim(before.tree, max_order, min_order, target);
                    lemma_firm_claim(before.tree, max_order, min_order, target);
                    lemma_depth_in_tree(node, (max_order - min_order) as nat);
                    assert forall|h: nat| (#[trigger] after.live.count(h)) == (if 1 <= h
                        < after.tree.len() && after.tree[h as int] == USED {
                        1nat
                    } else {
                        0nat
                    }) by {
                        assert(before.live.count(h) == (if 1 <= h < before.tree.len()
                            && before.tree[h as int] == USED {
                            1nat
                        } else {
                            0nat
                        }));
                    }
                }
            },
            Step::Release { node } => {
                lemma_release(before.tree, max_order, min_order, node);
                lemma_firm_release(before.tree, max_order, min_order, node);
                assert forall|h: nat| (#[trigger] after.live.count(h)) == (if 1 <= h
                    < after.tree.len() && after.tree[h as int] == USED {
                    1nat
                } else {
                    0nat
                }) by {
                    assert(before.live.count(h) == (if 1 <= h < before.tree.len()
                        && before.tree[h as int] == USED {
                        1nat
                    } else {
                        0nat
                    }));
                }
            },
        }
    }
}

/// As long as every request that was served claimed a block that was free
/// as a whole, no handle is live twice, and the blocks of any two live
/// handles share no element and no byte, whatever the size of an element.
pub proof fn lemma_live_blocks_are_apart(
    max_order: nat,
    min_order: nat,
    steps: Seq<Step>,
    a: nat,
    b: nat,
    stride: nat,
)
    requires
        min_order <= max_order <= 62,
        matched(max_order, min_order, steps),
        clean(max_order, min_order, steps),
        run(max_order, min_order, steps).live.count(a) > 0,
        run(max_order, min_order, steps).live.count(b) > 0,
        a != b,
    ensures
        run(max_order, min_order, steps).live.count(a) == 1,
        apart(max_order, a, b),
        apart_in_bytes(max_order, a, b, stride),
{
    let last = run(max_order, min_order, steps);
    let height = (max_order - min_order) as nat;
    lemma_clean_history(max_order, min_order, steps);
    assert(last.live.count(a) == 1 && last.live.count(b) == 1);
    lemma_depth_in_tree(a, height);
    lemma_depth_in_tree(b, height);
    if above(a, b) {
        lemma_below_used_is_whole(last.tree, max_order, min_order, a, b);
    }
    if above(b, a) {
        lemma_below_used_is_whole(last.tree, max_order, min_order, b, a);
    }
    lemma_unrelated_blocks_apart(max_order, a, b);
    lemma_apart_in_bytes(max_order, a, b, stride);
}

/// Every step of the history is a request for no more elements than the
/// smallest block holds.
pub open spec fn smallest_requests(min_order: nat, steps: Seq<Step>) -> bool {
    forall|i: int|
        0 <= i < steps.len() ==> match #[trigger] steps[i] {
            Step::Claim { len } => len <= pow2(min_order),
            Step::Release { node } => false,
        }
}

/// The number of blocks of the smallest order in the region.
pub open spec fn smallest_blocks(max_order: nat, min_order: nat) -> nat {
    pow2((max_order - min_order) as nat)
}

/// After a history of requests for the smallest block only leaves are used,
/// each request that was served took a leaf that was free, and the leaves
/// that are still free are those that were not asked for.
pub proof fn lemma_filling(max_order: nat, min_order: nat, steps: Seq<Step>)
    requires
        min_order <= max_order <= 62,
        smallest_requests(min_order, steps),
    ensures
        matched(max_order, min_order, steps),
        clean(max_order, min_order, steps),
        leafy(run(max_order, min_order, steps).tree, max_order, min_order),
        free_leaves(
            run(max_order, min_order, steps).tree,
            1,
            (max_order - min_order) as nat,
        ) == (if steps.len() <= smallest_blocks(max_order, min_order) {
            smallest_blocks(max_order, min_order) - steps.len()
        } else {
            0
        }),
        run(max_order, min_order, steps).live.len() == (if steps.len() <= smallest_blocks(
            max_order,
            min_order,
        ) {
            steps.len()
        } else {
            smallest_blocks(max_order, min_order)
        }),
    decreases steps.len(),
{
    let height = (max_order - min_order) as nat;
    let after = run(max_order, min_order, steps);
    lemma_pow2_pos(height);
    if steps.len() == 0 {
        lemma_pristine_firm(max_order, min_order);
        lemma_pristine_free_leaves(max_order, min_order, 1, height);
        let fresh = pristine(max_order, min_order);
        assert forall|i: int| 1 <= i < fresh.len() / 2 implies (#[trigger] fresh[i]) != USED by {
            lemma_depth_in_tree(i as nat, height);
        }
    } else {
        let earlier = steps.drop_last();
        let before = run(max_order, min_order, earlier);
        assert forall|i: int| 0 <= i < earlier.len() implies match #[trigger] earlier[i] {
            Step::Claim { len } => len <= pow2(min_order),
            Step::Release { node } => false,
        } by {
            assert(earlier[i] == steps[i]);
        }
        lemma_filling(max_order, min_order, earlier);
        let step = steps[steps.len() - 1];
        match step {
            Step::Claim { len } => {
                lemma_ceil_log2_least(len, min_order);
                assert(target_order(len, min_order) == min_order);
                lemma_value_tells_free(before.tree, max_order, min_order, 1, height);
                if before.tree[1] >= min_order {
                    let leaf = claim_site(before.tree, max_order, min_order);
                    lemma_descent_finds_free_leaf(before.tree, max_order, min_order, 1, height);
                    lemma_firm_is_consistent(before.tree, max_order, min_order, 0);
                    lemma_claim(before.tree, max_order, min_order, min_order);
                    lemma_level_range(max_order, min_order, leaf, 0);
                    assert forall|a: nat| #[trigger] above(a, leaf) implies before.tree[a as int]
                        != USED by {
                        lemma_above_is_inner(a, leaf);
                    }
                    lemma_firm_claim(before.tree, max_order, min_order, min_order);
                    lemma_free_leaves_after_mark(
                        before.tree,
                        after.tree,
                        max_order,
                        min_order,
                        leaf,
                        1,
                        height,
                    );
                    lemma_lifted_depth(leaf, height);
                }
            },
            Step::Release { node } => {},
        }
    }
}

/// On a fresh region the requests for the smallest block are served until as
/// many were made as the region holds such blocks, and none after that.
pub proof fn lemma_smallest_requests_fill_the_region(
    max_order: nat,
    min_order: nat,
    steps: Seq<Step>,
)
    requires
        min_order <= max_order <= 62,
        smallest_requests(min_order, steps),
    ensures
        run(max_order, min_order, steps).tree[1] >= min_order <==> steps.len() < smallest_blocks(
            max_order,
            min_order,
        ),
{
    let height = (max_order - min_order) as nat;
    lemma_filling(max_order, min_order, steps);
    lemma_value_tells_free(run(max_order, min_order, steps).tree, max_order, min_order, 1, height);
}

/// The other way round: when, after a matched and clean history, a request
/// is served with a block that is not free as a whole, some handle that is
/// live already names a block that shares elements with it. That handle may
/// name the very same block.
pub proof fn lemma_unclean_claim_overlaps(
    max_order: nat,
    min_order: nat,
    steps: Seq<Step>,
    len: nat,
) -> (other: nat)
    requires
        min_order <= max_order <= 62,
        matched(max_order, min_order, steps),
        clean(max_order, min_order, steps),
        run(max_order, min_order, steps).tree[1] >= target_order(len, min_order),
        !vacant(
            run(max_order, min_order, steps).tree,
            max_order,
            claim_site(
                run(max_order, min_order, steps).tree,
                max_order,
                target_order(len, min_order),
            ),
        ),
    ensures
        run(max_order, min_order, steps).live.count(other) > 0,
        !apart(
            max_order,
            other,
            claim_site(
                run(max_order, min_order, steps).tree,
                max_order,
                target_order(len, min_order),
            ),
        ),
{
    let before = run(max_order, min_order, steps);
    let target = target_order(len, min_order);
    let node = claim_site(before.tree, max_order, target);
    let height = (max_order - min_order) as nat;
    lemma_clean_history(max_order, min_order, steps);
    lemma_firm_is_consistent(before.tree, max_order, min_order, 0);
    lemma_pow2_pos(height);
    assert(before.tree[1] == USED || before.tree[1] <= order_of(max_order, 1));
    lemma_claim(before.tree, max_order, min_order, target);
    lemma_depth_in_tree(node, height);
    lemma_pow2_pos(order_of(max_order, node) as nat);
    if before.tree[node as int] != order_of(max_order, node) {
        let used = lemma_broken_block_holds_used(before.tree, max_order, min_order, node);
        assert(before.live.count(used) == 1);
        if used != node {
            lemma_depth_in_tree(used, height);
            lemma_block_inside_above(max_order, node, used);
        }
        used
    } else {
        let a = choose|a: nat| #[trigger] above(a, node) && before.tree[a as int] == USED;
        lemma_above_is_inner(a, node);
        assert(before.live.count(a) == 1);
        lemma_block_inside_above(max_order, a, node);
        a
    }
}

} // verus!
