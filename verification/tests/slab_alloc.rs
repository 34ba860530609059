//! The object slab allocator: cache selection, frame packing and the
//! caller-contract checks.

use kmem::buddy::Buddy;
use kmem::layout::Layout;
use kmem::slab::{SlabAllocator, SlabError};

const MIB: u64 = 1 << 20;
const G: u64 = 4096;

fn free_bytes(b: &Buddy) -> u64 {
    b.free_blocks().iter().map(|&(_, o)| 4096u64 << o).sum()
}

fn layout(size: u64, align: u64) -> Layout {
    Layout::from_size_align(size, align).unwrap()
}

#[test]
fn closest_fit_picks_the_next_class_up() {
    // ladder {16, 32, 64}: a request of size 20 with alignment 8 must be
    // served from the 32-byte class, never 16
    let mut buddy = Buddy::new();
    buddy.free_region(MIB, 16 * G).unwrap();
    let mut slab = SlabAllocator::new();
    slab.add_cache(layout(16, 8));
    slab.add_cache(layout(32, 8));
    slab.add_cache(layout(64, 8));
    let a = slab.allocate(&mut buddy, layout(20, 8)).unwrap();
    let b = slab.allocate(&mut buddy, layout(20, 8)).unwrap();
    // consecutive slots of a fresh frame are one class-size apart
    assert_eq!(b - a, 32);
    assert_eq!(a % 8, 0);
}

#[test]
fn packing_takes_one_frame_per_full_slot_count() {
    // a 1024-byte class packs exactly 4 slots per frame: allocating 4
    // objects costs one frame, the 5th costs a second
    let mut buddy = Buddy::new();
    buddy.free_region(MIB, 16 * G).unwrap();
    let mut slab = SlabAllocator::new();
    slab.add_cache(layout(1024, 8));
    let before = free_bytes(&buddy);
    let mut addrs = vec![];
    for _ in 0..4 {
        addrs.push(slab.allocate(&mut buddy, layout(1024, 8)).unwrap());
    }
    assert_eq!(free_bytes(&buddy), before - G);
    addrs.push(slab.allocate(&mut buddy, layout(1024, 8)).unwrap());
    assert_eq!(free_bytes(&buddy), before - 2 * G);
    // freeing everything returns every slot to the cache: the next five
    // allocations cost no further frame
    for &a in addrs.iter() {
        slab.free(a, layout(1024, 8)).unwrap();
    }
    assert_eq!(free_bytes(&buddy), before - 2 * G);
    for _ in 0..5 {
        slab.allocate(&mut buddy, layout(1024, 8)).unwrap();
    }
    assert_eq!(free_bytes(&buddy), before - 2 * G);
}

#[test]
fn slots_of_one_frame_are_distinct_and_inside_it() {
    let mut buddy = Buddy::new();
    buddy.free_region(MIB, 4 * G).unwrap();
    let mut slab = SlabAllocator::new();
    slab.add_cache(layout(512, 8));
    let mut addrs = vec![];
    for _ in 0..8 {
        addrs.push(slab.allocate(&mut buddy, layout(512, 8)).unwrap());
    }
    let base = addrs.iter().copied().min().unwrap();
    assert_eq!(base % G, 0);
    for (i, &a) in addrs.iter().enumerate() {
        assert!(a >= base && a + 512 <= base + G);
        assert_eq!((a - base) % 512, 0);
        for &b in addrs.iter().skip(i + 1) {
            assert_ne!(a, b);
        }
    }
}

#[test]
fn missing_class_is_a_configuration_error() {
    let mut buddy = Buddy::new();
    buddy.free_region(MIB, 4 * G).unwrap();
    let mut slab = SlabAllocator::new();
    slab.add_cache(layout(64, 8));
    assert_eq!(
        slab.allocate(&mut buddy, layout(128, 8)),
        Err(SlabError::NoCache)
    );
    assert_eq!(
        slab.allocate(&mut buddy, layout(64, 1024)),
        Err(SlabError::NoCache)
    );
}

#[test]
fn empty_buddy_means_out_of_memory() {
    let mut buddy = Buddy::new();
    let mut slab = SlabAllocator::new();
    slab.add_cache(layout(64, 8));
    assert_eq!(
        slab.allocate(&mut buddy, layout(64, 8)),
        Err(SlabError::OutOfMemory)
    );
}

#[test]
fn freeing_a_foreign_pointer_is_detected() {
    let mut slab = SlabAllocator::new();
    assert_eq!(
        slab.free(0x4000_0000, layout(64, 8)),
        Err(SlabError::UntrackedPointer)
    );
}

#[test]
fn registration_normalizes_and_deduplicates() {
    let mut buddy = Buddy::new();
    buddy.free_region(MIB, 4 * G).unwrap();
    let mut slab = SlabAllocator::new();
    // size 20 at alignment 1 normalizes to 24 bytes at alignment 8;
    // registering it twice keeps one class
    slab.add_cache(layout(20, 1));
    slab.add_cache(layout(20, 1));
    let a = slab.allocate(&mut buddy, layout(17, 1)).unwrap();
    let b = slab.allocate(&mut buddy, layout(17, 1)).unwrap();
    assert_eq!(b - a, 24);
}

#[test]
fn request_alignment_is_honored() {
    let mut buddy = Buddy::new();
    buddy.free_region(MIB, 4 * G).unwrap();
    let mut slab = SlabAllocator::new();
    slab.add_cache(layout(256, 256));
    let a = slab.allocate(&mut buddy, layout(100, 256)).unwrap();
    assert_eq!(a % 256, 0);
}

#[test]
fn freeing_the_same_slot_twice_is_detected() {
    let mut buddy = Buddy::new();
    buddy.free_region(MIB, 4 * G).unwrap();
    let mut slab = SlabAllocator::new();
    slab.add_cache(layout(64, 8));
    let a = slab.allocate(&mut buddy, layout(64, 8)).unwrap();
    let b = slab.allocate(&mut buddy, layout(64, 8)).unwrap();
    slab.free(a, layout(64, 8)).unwrap();
    assert_eq!(slab.free(a, layout(64, 8)), Err(SlabError::DoubleFree));
    // the report left the allocator intact: the live slot still frees,
    // and both slots come back out distinct
    slab.free(b, layout(64, 8)).unwrap();
    let c = slab.allocate(&mut buddy, layout(64, 8)).unwrap();
    let d = slab.allocate(&mut buddy, layout(64, 8)).unwrap();
    assert_ne!(c, d);
    assert_eq!(c, b);
}
