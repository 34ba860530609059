//! The buddy allocator: splitting, coalescing, region decomposition and
//! the fatal-error conditions.

use kmem::buddy::{Buddy, BuddyError};
use kmem::layout::Layout;

const MIB: u64 = 1 << 20;
const G: u64 = 4096;

fn blocks_sorted(b: &Buddy) -> Vec<(u64, usize)> {
    let mut v = b.free_blocks();
    v.sort();
    v
}

#[test]
fn fresh_allocator_is_empty() {
    let mut b = Buddy::new();
    assert_eq!(b.free_blocks(), vec![]);
    assert_eq!(b.alloc_order(4096, 0), None);
}

#[test]
fn free_region_unaligned_decomposition() {
    // a span of 5 granules at a 4-granule-aligned address becomes one
    // order-2 block plus one order-0 block
    let mut b = Buddy::new();
    b.free_region(MIB, 5 * G).unwrap();
    assert_eq!(blocks_sorted(&b), vec![(MIB, 2), (MIB + 4 * G, 0)]);
}

#[test]
fn free_region_trims_partial_granules() {
    let mut b = Buddy::new();
    // 3 leading unaligned bytes and a trailing partial granule are dropped
    b.free_region(MIB + 3, 2 * G + 100).unwrap();
    assert_eq!(blocks_sorted(&b), vec![(MIB + G, 0)]);
}

#[test]
fn alloc_splits_upper_half_kept() {
    let mut b = Buddy::new();
    b.free_region(MIB, 4 * G).unwrap();
    let a = b.alloc_order(G, 0);
    assert_eq!(a, Some(MIB));
    // the remainder is one order-0 and one order-1 block
    assert_eq!(blocks_sorted(&b), vec![(MIB + G, 0), (MIB + 2 * G, 1)]);
}

#[test]
fn round_trip_recoalesces_in_any_order() {
    // allocate four order-0 blocks out of an order-2 region, free them
    // in assorted permutations: always exactly one order-2 block again
    let perms: [[usize; 4]; 5] = [
        [0, 1, 2, 3],
        [3, 2, 1, 0],
        [2, 0, 3, 1],
        [1, 3, 0, 2],
        [0, 2, 1, 3],
    ];
    for perm in perms.iter() {
        let mut b = Buddy::new();
        b.free_region(MIB, 4 * G).unwrap();
        let mut addrs = vec![];
        for _ in 0..4 {
            addrs.push(b.alloc_order(G, 0).unwrap());
        }
        assert_eq!(b.free_blocks(), vec![]);
        for &i in perm.iter() {
            b.free_order_exact(addrs[i], 0).unwrap();
        }
        assert_eq!(blocks_sorted(&b), vec![(MIB, 2)]);
    }
}

#[test]
fn double_free_is_detected() {
    let mut b = Buddy::new();
    b.free_region(MIB, G).unwrap();
    let a = b.alloc_order(G, 0).unwrap();
    assert_eq!(a, MIB);
    b.free_order_exact(a, 0).unwrap();
    assert_eq!(b.free_order_exact(a, 0), Err(BuddyError::DoubleFree));
    // the state survived the detection unchanged
    assert_eq!(blocks_sorted(&b), vec![(MIB, 0)]);
}

#[test]
fn unaligned_free_is_detected() {
    let mut b = Buddy::new();
    assert_eq!(b.free_order_exact(MIB + 3, 0), Err(BuddyError::Unaligned));
    assert_eq!(b.free_order_exact(MIB + G, 2), Err(BuddyError::Unaligned));
}

#[test]
fn order_past_maximum_is_detected() {
    let mut b = Buddy::new();
    assert_eq!(b.free_order_exact(0, 52), Err(BuddyError::OrderTooLarge));
}

#[test]
fn alloc_honors_alignment() {
    let mut b = Buddy::new();
    b.free_region(MIB, MIB).unwrap();
    let l = Layout::from_size_align(4096, 65536).unwrap();
    let a = b.allocate(l).unwrap();
    assert_eq!(a % 65536, 0);
    assert!(a >= MIB && a + 65536 <= 2 * MIB);
}

#[test]
fn alloc_requested_order_raises_size() {
    let mut b = Buddy::new();
    b.free_region(MIB, 8 * G).unwrap();
    // one granule of size, but order 2: a 4-granule block leaves
    let a = b.alloc_order(G, 2).unwrap();
    assert_eq!(a % (4 * G), 0);
    assert_eq!(blocks_sorted(&b), vec![(a + 4 * G, 2)]);
}

#[test]
fn exhaustion_returns_none_not_abort() {
    let mut b = Buddy::new();
    b.free_region(MIB, 2 * G).unwrap();
    assert_eq!(b.alloc_order(4 * G, 0), None);
    assert!(b.alloc_order(G, 0).is_some());
    assert!(b.alloc_order(G, 0).is_some());
    assert_eq!(b.alloc_order(G, 0), None);
}

#[test]
fn clear_empties_everything() {
    let mut b = Buddy::new();
    b.free_region(MIB, 16 * G).unwrap();
    b.clear();
    assert_eq!(b.free_blocks(), vec![]);
}

#[test]
fn layout_free_reaches_the_allocating_order() {
    let mut b = Buddy::new();
    b.free_region(MIB, 16 * G).unwrap();
    let l = Layout::from_size_align(3 * G as u64, 8).unwrap();
    let a = b.allocate(l).unwrap();
    b.free(a, l).unwrap();
    assert_eq!(blocks_sorted(&b), vec![(MIB, 4)]);
}

#[test]
fn order_helpers_match_their_definitions() {
    assert_eq!(kmem::order::order_size(0), 4096);
    assert_eq!(kmem::order::order_size(2), 16384);
    assert_eq!(kmem::order::round_up_order_of_size(1), 0);
    assert_eq!(kmem::order::round_up_order_of_size(4096), 0);
    assert_eq!(kmem::order::round_up_order_of_size(4097), 1);
    assert_eq!(kmem::order::round_up_order_of_size(300 * 1024), 7);
    assert_eq!(kmem::order::max_order_of_size(5 * 4096), 2);
    assert_eq!(kmem::order::max_order_of_size(100), 0);
    assert_eq!(kmem::order::max_order_of_ptr(1 << 20), 8);
    assert_eq!(kmem::order::max_order_of_ptr(4096), 0);
    assert_eq!(kmem::order::order_aligned(1 << 20, 8), true);
    assert_eq!(kmem::order::order_aligned((1 << 20) + 4096, 1), false);
}
