//! The allocator: an order tree over a region of `2^max_order` elements of
//! type `T`, and the handles that name its allocated blocks.

use std::marker::PhantomData;
use vstd::prelude::*;
use vstd::arithmetic::power2::{
    pow2, lemma_pow2_pos, lemma_pow2_unfold, lemma_pow2_strictly_increases, lemma2_to64,
};
use vstd::layout::size_of;
use crate::blocks::{byte_offset, lemma_block_within};
use crate::order::{
    floor_log2, ceil_log2, ilog2, next_log2, pow2_usize, lemma_ceil_log2_bounds,
    lemma_floor_log2_bounds,
};
use crate::tree::{
    USED, order_of, pristine, consistent, consistent_but, firm, vacant, propagate, descend,
    target_order, claim_site, after_claim, after_release, lemma_child_depth,
    lemma_depth_in_tree, lemma_update_keeps_rest, lemma_lift, lemma_propagate,
    lemma_pristine_consistent, lemma_pristine_firm, lemma_firm_claim, lemma_firm_release,
    lemma_index_below,
};

verus! {

/// The name of an allocated block: the index of its node, which is never
/// zero, tagged with the type of the elements that the block holds.
#[derive(Debug)]
pub struct Handle<T> {
    inner: usize,
    _casper: PhantomData<T>,
}

impl<T> View for Handle<T> {
    type V = nat;

    closed spec fn view(&self) -> nat {
        self.inner as nat
    }
}

impl<T> Handle<T> {
    /// The handle of node `block`; there is none for index zero.
    pub fn new(block: usize) -> (r: Option<Self>)
        ensures
            r is Some <==> block != 0,
            r is Some ==> r.unwrap()@ == block,
    {
        if block == 0 {
            None
        } else {
            Some(Handle { inner: block, _casper: PhantomData })
        }
    }

    /// The index of the node that the handle names.
    pub fn index(&self) -> (r: usize)
        ensures
            r == self@,
    {
        self.inner
    }
}

/// A buddy allocator for elements of type `T`.
#[derive(Debug)]
pub struct Buddy<T> {
    min_order: u8,
    max_order: u8,
    pub alloc_tree: Vec<i8>,
    _casper: PhantomData<T>,
}

impl<T> View for Buddy<T> {
    type V = Seq<i8>;

    /// The order tree, entry by entry.
    closed spec fn view(&self) -> Seq<i8> {
        self.alloc_tree@
    }
}

impl<T> Buddy<T> {
    /// The order of the smallest block that is handed out.
    pub closed spec fn spec_min_order(&self) -> nat {
        self.min_order as nat
    }

    /// The order of the whole region.
    pub closed spec fn spec_max_order(&self) -> nat {
        self.max_order as nat
    }

    /// The tree is consistent, and every byte offset in the region fits.
    pub open spec fn wf(&self) -> bool {
        &&& consistent(self@, self.spec_max_order(), self.spec_min_order())
        &&& 2 * pow2(self.spec_max_order()) <= usize::MAX
        &&& pow2(self.spec_max_order()) * size_of::<T>() <= u64::MAX
    }

    /// The number of elements that the region holds.
    pub fn capacity(&self) -> (r: usize)
        requires
            self.wf(),
        ensures
            r == pow2(self.spec_max_order()),
    {
        pow2_usize(self.max_order)
    }

    /// The order of the whole region.
    pub fn max_order(&self) -> (r: u8)
        ensures
            r == self.spec_max_order(),
    {
        self.max_order
    }

    /// The order of the smallest block that is handed out.
    pub fn min_order(&self) -> (r: u8)
        ensures
            r == self.spec_min_order(),
    {
        self.min_order
    }

    /// An allocator for `capacity` elements, rounded up to a power of two,
    /// whose region is one free block.
    pub fn new(capacity: usize, min_order: u8) -> (r: Self)
        requires
            min_order <= ceil_log2(capacity as nat),
            2 * pow2(ceil_log2(capacity as nat)) <= usize::MAX,
            pow2(ceil_log2(capacity as nat)) * size_of::<T>() <= u64::MAX,
        ensures
            r.wf(),
            r.spec_max_order() == ceil_log2(capacity as nat),
            r.spec_min_order() == min_order,
            r@ == pristine(ceil_log2(capacity as nat), min_order as nat),
            firm(r@, r.spec_max_order(), r.spec_min_order()),
    {
        let max_order = next_log2(capacity);
        let height = max_order - min_order;
        proof {
            lemma2_to64();
            if max_order >= 63 {
                lemma_pow2_unfold((max_order + 1) as nat);
                if max_order + 1 > 64 {
                    lemma_pow2_strictly_increases(64, (max_order + 1) as nat);
                }
            }
            if height < max_order {
                lemma_pow2_strictly_increases(height as nat, max_order as nat);
            }
        }
        let mut tree: Vec<i8> = Vec::new();
        tree.push(USED);
        let mut level: u8 = 0;
        let mut width: usize = 1;
        while level <= height
            invariant
                level <= height + 1,
                height == max_order - min_order,
                max_order <= 62,
                2 * pow2(height as nat) <= usize::MAX,
                width == pow2(level as nat),
                tree.len() == width,
                tree@[0] == USED,
                forall|j: int| 1 <= j < tree.len() ==> tree@[j] == order_of(max_order as nat, j as nat),
            decreases height + 1 - level,
        {
            let order = (max_order - level) as i8;
            let mut k: usize = 0;
            proof {
                lemma_pow2_unfold((level + 1) as nat);
                if level < height {
                    lemma_pow2_strictly_increases(level as nat, height as nat);
                }
            }
            while k < width
                invariant
                    k <= width,
                    level <= height,
                    max_order <= 62,
                    height == max_order - min_order,
                    2 * width <= usize::MAX,
                    width == pow2(level as nat),
                    order == max_order - level,
                    tree.len() == width + k,
                    tree@[0] == USED,
                    forall|j: int|
                        1 <= j < tree.len() ==> tree@[j] == order_of(max_order as nat, j as nat),
                decreases width - k,
            {
                proof {
                    lemma_depth_in_tree((width + k) as nat, level as nat);
                }
                tree.push(order);
                k = k + 1;
            }
            level = level + 1;
            width = width * 2;
        }
        proof {
            lemma_pow2_unfold((height + 1) as nat);
            lemma_pristine_consistent(max_order as nat, min_order as nat);
            lemma_pristine_firm(max_order as nat, min_order as nat);
            assert(tree@ =~= pristine(max_order as nat, min_order as nat));
        }
        Buddy { min_order, max_order, alloc_tree: tree, _casper: PhantomData }
    }

    /// Carries the change of `block` towards the root.
    fn update_parents(&mut self, block: usize)
        requires
            consistent_but(
                old(self).alloc_tree@,
                old(self).spec_max_order(),
                old(self).spec_min_order(),
                (block / 2) as int,
            ),
            1 <= block < old(self).alloc_tree.len(),
        ensures
            final(self).alloc_tree@ == propagate(old(self).alloc_tree@, block as nat),
            final(self).spec_max_order() == old(self).spec_max_order(),
            final(self).spec_min_order() == old(self).spec_min_order(),
    {
        let mut block = block;
        let mut done = false;
        let ghost start = block;
        let ghost first = self.alloc_tree@;
        while block > 1 && !done
            invariant
                1 <= block < self.alloc_tree.len(),
                self.spec_max_order() == old(self).spec_max_order(),
                self.spec_min_order() == old(self).spec_min_order(),
                first == old(self).alloc_tree@,
                !done ==> consistent_but(
                    self.alloc_tree@,
                    self.spec_max_order(),
                    self.spec_min_order(),
                    (block / 2) as int,
                ),
                !done ==> propagate(self.alloc_tree@, block as nat) == propagate(
                    first,
                    start as nat,
                ),
                done ==> self.alloc_tree@ == propagate(first, start as nat),
            decreases block + (if done { 0int } else { 1int }),
        {
            let parent = block / 2;
            let low = self.alloc_tree[2 * parent];
            let high = self.alloc_tree[2 * parent + 1];
            proof {
                lemma_lift(
                    self.alloc_tree@,
                    self.spec_max_order(),
                    self.spec_min_order(),
                    parent as int,
                );
            }
            let value: i8 = if low == high {
                low + 1
            } else if low > high {
                low
            } else {
                high
            };
            if self.alloc_tree[parent] == value {
                done = true;
            } else {
                self.alloc_tree.set(parent, value);
                block = parent;
            }
        }
    }

    /// Claims a free block for `len` elements: the block has the order
    /// `target_order(len, min_order)`, and is found by a descent from the root
    /// that prefers the lower child. There is none where the root holds less
    /// than that order; the tree is then left as it was.
    pub fn allocate(&mut self, len: usize) -> (r: Option<Handle<T>>)
        requires
            old(self).wf(),
        ensures
            final(self).wf(),
            final(self).spec_max_order() == old(self).spec_max_order(),
            final(self).spec_min_order() == old(self).spec_min_order(),
            r is Some <==> old(self)@[1] >= target_order(
                len as nat,
                old(self).spec_min_order(),
            ),
            r is None ==> final(self)@ == old(self)@,
            r is Some ==> {
                let target = target_order(len as nat, old(self).spec_min_order());
                &&& target <= old(self).spec_max_order()
                &&& r.unwrap()@ == claim_site(
                    old(self)@,
                    old(self).spec_max_order(),
                    target,
                )
                &&& 1 <= r.unwrap()@ < old(self)@.len()
                &&& order_of(old(self).spec_max_order(), r.unwrap()@) == target
                &&& final(self)@ == after_claim(
                    old(self)@,
                    old(self).spec_max_order(),
                    target,
                )
                &&& firm(old(self)@, old(self).spec_max_order(), old(self).spec_min_order())
                    && vacant(old(self)@, old(self).spec_max_order(), r.unwrap()@) ==> firm(
                    final(self)@,
                    old(self).spec_max_order(),
                    old(self).spec_min_order(),
                )
            },
    {
        let wanted = next_log2(len);
        let target = if wanted >= self.min_order {
            wanted
        } else {
            self.min_order
        };
        let ghost first = self.alloc_tree@;
        let ghost height = (self.max_order - self.min_order) as nat;
        proof {
            lemma_pow2_pos(height);
            assert(first[1] == USED || first[1] <= order_of(self.max_order as nat, 1));
        }
        if self.alloc_tree[1] < target as i8 {
            return None;
        }
        let levels = self.max_order - target;
        let mut block: usize = 1;
        let mut i: u8 = 0;
        while i < levels
            invariant
                i <= levels,
                levels == self.max_order - target,
                self.min_order <= target <= self.max_order <= 62,
                height == self.max_order - self.min_order,
                self.alloc_tree@ == first,
                first.len() == 2 * pow2(height),
                block >= 1,
                floor_log2(block as nat) == i,
                descend(first, target as int, block as nat, (levels - i) as nat) == descend(
                    first,
                    target as int,
                    1,
                    levels as nat,
                ),
            decreases levels - i,
        {
            proof {
                lemma_child_depth(block as nat);
                lemma_index_below((2 * block + 1) as nat, height);
                assert(first.len() == self.alloc_tree.len());
            }
            block = 2 * block;
            if self.alloc_tree[block] < target as i8 {
                block = block + 1;
            }
            i = i + 1;
        }
        proof {
            lemma_index_below(block as nat, height);
            lemma_update_keeps_rest(
                first,
                self.max_order as nat,
                self.min_order as nat,
                block as int,
                USED,
            );
        }
        self.alloc_tree.set(block, USED);
        self.update_parents(block);
        proof {
            lemma_propagate(
                first.update(block as int, USED),
                self.max_order as nat,
                self.min_order as nat,
                block as nat,
            );
            if firm(first, self.max_order as nat, self.min_order as nat) && vacant(
                first,
                self.max_order as nat,
                block as nat,
            ) {
                lemma_firm_claim(
                    first,
                    self.max_order as nat,
                    self.min_order as nat,
                    target as nat,
                );
            }
        }
        Handle::new(block)
    }

    /// Gives the block of `handle` back: its node takes its own order again,
    /// and the change is carried towards the root. A firm tree stays firm
    /// where the node was marked used.
    pub fn free(&mut self, handle: Handle<T>)
        requires
            old(self).wf(),
            1 <= handle@ < old(self)@.len(),
        ensures
            final(self).wf(),
            final(self).spec_max_order() == old(self).spec_max_order(),
            final(self).spec_min_order() == old(self).spec_min_order(),
            final(self)@ == after_release(
                old(self)@,
                old(self).spec_max_order(),
                handle@,
            ),
            firm(old(self)@, old(self).spec_max_order(), old(self).spec_min_order())
                && old(self)@[handle@ as int] == USED ==> firm(
                final(self)@,
                old(self).spec_max_order(),
                old(self).spec_min_order(),
            ),
    {
        let block = handle.inner;
        let ghost first = self.alloc_tree@;
        proof {
            lemma_depth_in_tree(block as nat, (self.max_order - self.min_order) as nat);
        }
        let order = self.max_order - ilog2(block);
        proof {
            lemma_update_keeps_rest(
                first,
                self.max_order as nat,
                self.min_order as nat,
                block as int,
                order as i8,
            );
        }
        self.alloc_tree.set(block, order as i8);
        self.update_parents(block);
        proof {
            lemma_propagate(
                first.update(block as int, order as i8),
                self.max_order as nat,
                self.min_order as nat,
                block as nat,
            );
            if firm(first, self.max_order as nat, self.min_order as nat) && first[block as int]
                == USED {
                lemma_firm_release(
                    first,
                    self.max_order as nat,
                    self.min_order as nat,
                    block as nat,
                );
            }
        }
    }

    /// The byte offset in the region at which `data` is to be placed: that
    /// of the first element of the block of `handle`. The block holds all of
    /// `data`, and ends inside the region.
    pub fn write(&self, handle: &Handle<T>, data: &[T]) -> (offset: u64)
        requires
            self.wf(),
            1 <= handle@ < self@.len(),
            data@.len() <= pow2(order_of(self.spec_max_order(), handle@) as nat),
        ensures
            offset == byte_offset(self.spec_max_order(), handle@, size_of::<T>()),
            offset + data@.len() * size_of::<T>() <= pow2(self.spec_max_order()) * size_of::<T>(),
    {
        let block = handle.inner;
        proof {
            lemma_depth_in_tree(block as nat, (self.max_order - self.min_order) as nat);
            lemma_floor_log2_bounds(block as nat);
            lemma_block_within(self.max_order as nat, block as nat);
            lemma_pow2_pos(order_of(self.max_order as nat, block as nat) as nat);
        }
        let depth = ilog2(block);
        let order = self.max_order - depth;
        let bias = pow2_usize(depth);
        let size = pow2_usize(order);
        let elements = (block - bias) * size;
        let stride = core::mem::size_of::<T>();
        proof {
            let total = pow2(self.max_order as nat);
            let width = size_of::<T>();
            let count = data@.len();
            assert(elements * width + count * width <= total * width) by (nonlinear_arith)
                requires
                    elements + count <= total,
                    width >= 0,
            ;
            assert(elements * width >= 0) by (nonlinear_arith)
                requires
                    elements >= 0,
                    width >= 0,
            ;
            assert(count * width >= 0) by (nonlinear_arith)
                requires
                    count >= 0,
                    width >= 0,
            ;
        }
        (elements as u64) * (stride as u64)
    }

    /// Claims a block for `data` as `allocate` does for its length, and
    /// gives the byte offset at which it is to be placed as `write` does.
    /// Where no block is free the tree is left as it was.
    pub fn load(&mut self, data: &[T]) -> (r: Option<(Handle<T>, u64)>)
        requires
            old(self).wf(),
        ensures
            final(self).wf(),
            final(self).spec_max_order() == old(self).spec_max_order(),
            final(self).spec_min_order() == old(self).spec_min_order(),
            r is Some <==> old(self)@[1] >= target_order(
                data@.len(),
                old(self).spec_min_order(),
            ),
            r is None ==> final(self)@ == old(self)@,
            r is Some ==> {
                let target = target_order(data@.len(), old(self).spec_min_order());
                let handle = r.unwrap().0;
                &&& target <= old(self).spec_max_order()
                &&& handle@ == claim_site(old(self)@, old(self).spec_max_order(), target)
                &&& 1 <= handle@ < old(self)@.len()
                &&& order_of(old(self).spec_max_order(), handle@) == target
                &&& final(self)@ == after_claim(old(self)@, old(self).spec_max_order(), target)
                &&& firm(old(self)@, old(self).spec_max_order(), old(self).spec_min_order())
                    && vacant(old(self)@, old(self).spec_max_order(), handle@) ==> firm(
                    final(self)@,
                    old(self).spec_max_order(),
                    old(self).spec_min_order(),
                )
                &&& r.unwrap().1 == byte_offset(
                    old(self).spec_max_order(),
                    handle@,
                    size_of::<T>(),
                )
            },
    {
        match self.allocate(data.len()) {
            None => None,
            Some(handle) => {
                proof {
                    let len = data@.len();
                    let target = target_order(len, self.min_order as nat);
                    lemma_ceil_log2_bounds(len);
                    if ceil_log2(len) < target {
                        lemma_pow2_strictly_increases(ceil_log2(len), target);
                    }
                }
                let offset = self.write(&handle, data);
                Some((handle, offset))
            },
        }
    }

    /// Equal when the two trees are, entry by entry.
    pub fn check_is_same(&self, other: &Self) -> (r: bool)
        ensures
            r == (self@ == other@),
    {
        if self.alloc_tree.len() != other.alloc_tree.len() {
            return false;
        }
        let mut i: usize = 0;
        while i < self.alloc_tree.len()
            invariant
                i <= self.alloc_tree.len(),
                self.alloc_tree.len() == other.alloc_tree.len(),
                forall|j: int| 0 <= j < i ==> self.alloc_tree@[j] == other.alloc_tree@[j],
            decreases self.alloc_tree.len() - i,
        {
            if self.alloc_tree[i] != other.alloc_tree[i] {
                return false;
            }
            i = i + 1;
        }
        assert(self.alloc_tree@ =~= other.alloc_tree@);
        true
    }
}

} // verus!
