use axial::buddy::{Buddy, Handle};

fn eight() -> Buddy<u64> {
    Buddy::<u64>::new(8, 0)
}

#[test]
fn fresh_tree_holds_each_nodes_order() {
    let buddy = eight();
    assert_eq!(
        buddy.alloc_tree,
        vec![-128, 3, 2, 2, 1, 1, 1, 1, 0, 0, 0, 0, 0, 0, 0, 0]
    );
    assert_eq!(buddy.capacity(), 8);
    assert_eq!(buddy.max_order(), 3);
    assert_eq!(buddy.min_order(), 0);
}

#[test]
fn capacity_is_rounded_up_to_a_power_of_two() {
    let buddy = Buddy::<u64>::new(5, 1);
    assert_eq!(buddy.capacity(), 8);
    assert_eq!(buddy.max_order(), 3);
    assert_eq!(buddy.alloc_tree, vec![-128, 3, 2, 2, 1, 1, 1, 1]);
    let one = Buddy::<u8>::new(1, 0);
    assert_eq!(one.capacity(), 1);
    assert_eq!(one.alloc_tree, vec![-128, 0]);
    let none = Buddy::<u8>::new(0, 0);
    assert_eq!(none.capacity(), 1);
}

#[test]
fn single_block_tree_serves_one_request() {
    let mut buddy = Buddy::<u32>::new(16, 4);
    assert_eq!(buddy.alloc_tree, vec![-128, 4]);
    let handle = buddy.allocate(3).unwrap();
    assert_eq!(handle.index(), 1);
    assert_eq!(buddy.alloc_tree, vec![-128, -128]);
    assert!(buddy.allocate(1).is_none());
    buddy.free(handle);
    assert_eq!(buddy.alloc_tree, vec![-128, 4]);
}

#[test]
fn first_allocation_takes_the_lowest_leaf() {
    let mut buddy = eight();
    let handle = buddy.allocate(1).unwrap();
    assert_eq!(handle.index(), 8);
    assert_eq!(
        buddy.alloc_tree,
        vec![-128, 2, 1, 2, 0, 1, 1, 1, -128, 0, 0, 0, 0, 0, 0, 0]
    );
    assert_eq!(buddy.write(&handle, &[7u64]), 0);
}

#[test]
fn two_used_siblings_merge_to_one_above_the_marker() {
    let mut buddy = eight();
    let a = buddy.allocate(2).unwrap();
    let b = buddy.allocate(2).unwrap();
    assert_eq!(a.index(), 4);
    assert_eq!(b.index(), 5);
    assert_eq!(
        buddy.alloc_tree,
        vec![-128, 2, -127, 2, -128, -128, 1, 1, 0, 0, 0, 0, 0, 0, 0, 0]
    );
}

#[test]
fn scenario_of_eight_elements() {
    let mut buddy = eight();
    let first = buddy.allocate(1).unwrap();
    assert_eq!(buddy.write(&first, &[1u64]), 0);
    let second = buddy.allocate(2).unwrap();
    assert_eq!(second.index(), 5);
    let offset = buddy.write(&second, &[2u64, 3u64]);
    assert_eq!(offset, 16);
    assert!(offset >= 2 * 8);
    buddy.free(first);
    let again = buddy.allocate(1).unwrap();
    assert_eq!(again.index(), 8);
    assert_eq!(buddy.write(&again, &[4u64]), 0);
}

#[test]
fn eight_single_allocations_succeed_and_the_ninth_fails() {
    let pristine = eight();
    let mut buddy = eight();
    let mut handles: Vec<Handle<u64>> = Vec::new();
    for i in 0..8 {
        let handle = buddy.allocate(1).unwrap();
        assert_eq!(handle.index(), 8 + i);
        assert_eq!(buddy.write(&handle, &[0u64]), 8 * i as u64);
        handles.push(handle);
    }
    assert!(buddy.allocate(1).is_none());
    assert!(buddy.allocate(0).is_none());
    assert!(!pristine.check_is_same(&buddy));
    for handle in handles {
        buddy.free(handle);
    }
    assert!(pristine.check_is_same(&buddy));
    assert_eq!(buddy.alloc_tree, pristine.alloc_tree);
}

#[test]
fn frees_in_any_order_restore_the_tree() {
    let pristine = eight();
    let mut buddy = eight();
    let a = buddy.allocate(2).unwrap();
    let b = buddy.allocate(1).unwrap();
    let c = buddy.allocate(4).unwrap();
    let d = buddy.allocate(1).unwrap();
    assert_eq!((a.index(), b.index(), c.index(), d.index()), (4, 10, 3, 11));
    assert!(buddy.allocate(1).is_none());
    buddy.free(c);
    buddy.free(a);
    buddy.free(d);
    buddy.free(b);
    assert!(buddy.check_is_same(&pristine));
}

#[test]
fn minimum_order_allocations_fill_the_region() {
    let mut buddy = Buddy::<u64>::new(1024, 8);
    assert_eq!(buddy.alloc_tree.len(), 8);
    for i in 0..4 {
        let handle = buddy.allocate(256).unwrap();
        assert_eq!(handle.index(), 4 + i);
    }
    assert!(buddy.allocate(1).is_none());
}

#[test]
fn requests_are_rounded_up_to_a_size_class() {
    let cases: [(usize, usize); 8] =
        [(0, 2), (1, 2), (2, 2), (3, 4), (4, 4), (5, 8), (8, 8), (16, 16)];
    for (len, size) in cases {
        let mut buddy = Buddy::<u16>::new(16, 1);
        let handle = buddy.allocate(len).unwrap();
        let depth = handle.index().ilog2() as u8;
        let order = buddy.max_order() - depth;
        assert_eq!(1usize << order, size);
    }
    let mut buddy = Buddy::<u16>::new(16, 1);
    assert!(buddy.allocate(17).is_none());
    assert!(buddy.allocate(usize::MAX).is_none());
}

#[test]
fn failed_allocation_leaves_the_tree_unchanged() {
    let mut buddy = eight();
    let _big = buddy.allocate(8).unwrap();
    let before = buddy.alloc_tree.clone();
    assert!(buddy.allocate(1).is_none());
    assert!(buddy.load(&[1u64, 2u64]).is_none());
    assert_eq!(buddy.alloc_tree, before);
}

#[test]
fn byte_offset_is_sibling_index_times_block_bytes() {
    let mut buddy = eight();
    let a = buddy.allocate(2).unwrap();
    let b = buddy.allocate(2).unwrap();
    let c = buddy.allocate(4).unwrap();
    assert_eq!(buddy.write(&a, &[]), 0);
    assert_eq!(buddy.write(&b, &[0u64, 0u64]), 1 * 2 * 8);
    assert_eq!(c.index(), 3);
    assert_eq!(buddy.write(&c, &[0u64; 4]), 1 * 4 * 8);
    let mut bytes = Buddy::<u8>::new(8, 0);
    for k in 0..8u64 {
        let h = bytes.allocate(1).unwrap();
        assert_eq!(bytes.write(&h, &[0u8]), k);
    }
}

#[test]
fn load_claims_and_places() {
    let mut buddy = eight();
    let (first, at) = buddy.load(&[1u64, 2, 3]).unwrap();
    assert_eq!(first.index(), 2);
    assert_eq!(at, 0);
    let (second, at) = buddy.load(&[9u64]).unwrap();
    assert_eq!(second.index(), 12);
    assert_eq!(at, 32);
}

#[test]
fn handle_is_never_zero() {
    assert!(Handle::<u64>::new(0).is_none());
    assert_eq!(Handle::<u64>::new(5).unwrap().index(), 5);
}

#[test]
fn trees_of_different_shape_are_not_the_same() {
    let a = Buddy::<u64>::new(8, 0);
    let b = Buddy::<u64>::new(16, 0);
    let c = Buddy::<u64>::new(16, 1);
    assert!(!a.check_is_same(&b));
    assert!(!b.check_is_same(&a));
    assert!(!a.check_is_same(&c));
    assert!(a.check_is_same(&a));
}

#[test]
fn equal_partly_used_siblings_pass_for_a_free_pair() {
    let mut buddy = eight();
    let a = buddy.allocate(2).unwrap();
    let b = buddy.allocate(2).unwrap();
    let c = buddy.allocate(2).unwrap();
    assert_eq!((a.index(), b.index(), c.index()), (4, 5, 6));
    buddy.free(b);
    assert_eq!(
        buddy.alloc_tree,
        vec![-128, 2, 1, 1, -128, 1, -128, 1, 0, 0, 0, 0, 0, 0, 0, 0]
    );
    let d = buddy.allocate(4).unwrap();
    assert_eq!(d.index(), 3);
    assert_eq!(buddy.write(&c, &[0u64, 0u64]), 32);
    assert_eq!(buddy.write(&d, &[0u64; 4]), 32);
    let pristine = eight();
    buddy.free(c);
    buddy.free(d);
    buddy.free(a);
    assert!(buddy.check_is_same(&pristine));
}

#[test]
fn live_blocks_share_no_byte() {
    let mut buddy = Buddy::<u32>::new(64, 1);
    let mut live: Vec<(u64, u64)> = Vec::new();
    let lens: [usize; 9] = [3, 1, 8, 2, 16, 5, 2, 1, 7];
    let mut kept: Vec<Handle<u32>> = Vec::new();
    for (i, len) in lens.iter().enumerate() {
        let handle = buddy.allocate(*len).unwrap();
        let order = buddy.max_order() - handle.index().ilog2() as u8;
        let start = buddy.write(&handle, &[]);
        let end = start + (4u64 << order);
        assert!(end <= 64 * 4);
        for (other_start, other_end) in &live {
            assert!(end <= *other_start || *other_end <= start);
        }
        if i % 3 == 1 {
            buddy.free(handle);
        } else {
            live.push((start, end));
            kept.push(handle);
        }
    }
    let pristine = Buddy::<u32>::new(64, 1);
    for handle in kept {
        buddy.free(handle);
    }
    assert!(buddy.check_is_same(&pristine));
}
