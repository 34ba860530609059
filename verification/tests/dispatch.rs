//! The allocation dispatcher: routing, the no-overlap and alignment
//! guarantees, and the end-to-end recoalescence scenario.

use kmem::buddy::BuddyError;
use kmem::kalloc::{Kalloc, KallocError};
use kmem::layout::Layout;

const MIB: u64 = 1 << 20;

fn layout(size: u64, align: u64) -> Layout {
    Layout::from_size_align(size, align).unwrap()
}

fn free_bytes(k: &Kalloc) -> u64 {
    k.buddy.free_blocks().iter().map(|&(_, o)| 4096u64 << o).sum()
}

#[test]
fn end_to_end_scenario_recoalesces() {
    // free one 1 MiB region at a 1 MiB-aligned address; allocate 4 KiB,
    // 64 KiB and 300 KiB; all three lie inside the region, are mutually
    // disjoint and aligned; freeing them in reverse order recoalesces
    // the region into a single block
    let mut k = Kalloc::new();
    k.init();
    k.free_region(16 * MIB, MIB).unwrap();

    let specs = [(4 * 1024u64, 4096u64), (64 * 1024, 4096), (300 * 1024, 4096)];
    let mut got: Vec<(u64, u64)> = vec![];
    for &(size, align) in specs.iter() {
        let a = k.allocate(layout(size, align)).unwrap();
        assert_eq!(a % align, 0);
        assert!(a >= 16 * MIB && a + size <= 17 * MIB);
        got.push((a, size));
    }
    // pairwise disjoint (as allocated power-of-two spans they cannot
    // even touch, but check the requested spans directly)
    for i in 0..got.len() {
        for j in (i + 1)..got.len() {
            let (a, sa) = got[i];
            let (b, sb) = got[j];
            assert!(a + sa <= b || b + sb <= a);
        }
    }
    for &(size, align) in specs.iter().rev() {
        let (a, _) = got.pop().map(|(a, _)| (a, 0u64)).unwrap();
        k.dealloc(a, layout(size, align)).unwrap();
    }
    let mut blocks = k.buddy.free_blocks();
    blocks.sort();
    assert_eq!(blocks, vec![(16 * MIB, 8)]);
}

#[test]
fn small_requests_route_to_the_slab() {
    let mut k = Kalloc::new();
    k.init();
    k.free_region(16 * MIB, MIB).unwrap();
    let before = free_bytes(&k);
    let a = k.allocate(layout(24, 8)).unwrap();
    let b = k.allocate(layout(24, 8)).unwrap();
    assert_ne!(a, b);
    assert_eq!(a % 8, 0);
    // one frame was carved for the whole class
    assert_eq!(free_bytes(&k), before - 4096);
    k.dealloc(a, layout(24, 8)).unwrap();
    k.dealloc(b, layout(24, 8)).unwrap();
    // frames are never returned to the buddy allocator automatically
    assert_eq!(free_bytes(&k), before - 4096);
}

#[test]
fn large_requests_route_to_the_buddy() {
    let mut k = Kalloc::new();
    k.init();
    k.free_region(16 * MIB, MIB).unwrap();
    let a = k.allocate(layout(8192, 8)).unwrap();
    assert_eq!(a % 4096, 0);
    k.dealloc(a, layout(8192, 8)).unwrap();
    let mut blocks = k.buddy.free_blocks();
    blocks.sort();
    assert_eq!(blocks, vec![(16 * MIB, 8)]);
}

#[test]
fn big_alignment_routes_to_the_buddy_and_holds() {
    let mut k = Kalloc::new();
    k.init();
    k.free_region(16 * MIB, MIB).unwrap();
    let a = k.allocate(layout(64, 65536)).unwrap();
    assert_eq!(a % 65536, 0);
}

#[test]
fn exhaustion_is_reported_not_fatal() {
    let mut k = Kalloc::new();
    k.init();
    k.free_region(16 * MIB, 2 * 4096).unwrap();
    assert_eq!(
        k.allocate(layout(MIB, 4096)),
        Err(KallocError::OutOfMemory)
    );
}

#[test]
fn double_free_through_the_dispatcher_aborts() {
    // the whole free span is one block, so the first free lists it at
    // its own order and the second free finds it there
    let mut k = Kalloc::new();
    k.init();
    k.free_region(16 * MIB, 8192).unwrap();
    let a = k.allocate(layout(8192, 8)).unwrap();
    k.dealloc(a, layout(8192, 8)).unwrap();
    assert_eq!(
        k.dealloc(a, layout(8192, 8)),
        Err(KallocError::Buddy(BuddyError::DoubleFree))
    );
}

#[test]
fn page_supply_hands_whole_frames() {
    let mut k = Kalloc::new();
    k.free_region(16 * MIB, MIB).unwrap();
    let p = kmem::mem::page_zeroed(&mut k.buddy).unwrap();
    assert_eq!(p % 4096, 0);
    let q = kmem::mem::pages_zeroed(&mut k.buddy, 3).unwrap();
    assert_eq!(q % 4096, 0);
    kmem::mem::free_page(&mut k.buddy, p).unwrap();
    kmem::mem::free_pages_contiguous(&mut k.buddy, q, 4).unwrap();
    let mut blocks = k.buddy.free_blocks();
    blocks.sort();
    assert_eq!(blocks, vec![(16 * MIB, 8)]);
}

#[test]
fn slab_double_free_through_the_dispatcher_aborts() {
    let mut k = Kalloc::new();
    k.init();
    k.free_region(16 * MIB, MIB).unwrap();
    let a = k.allocate(layout(24, 8)).unwrap();
    let b = k.allocate(layout(24, 8)).unwrap();
    k.dealloc(a, layout(24, 8)).unwrap();
    assert_eq!(
        k.dealloc(a, layout(24, 8)),
        Err(KallocError::Slab(kmem::slab::SlabError::DoubleFree))
    );
    // state is uncorrupted: the second live slot still frees cleanly
    k.dealloc(b, layout(24, 8)).unwrap();
}

#[test]
fn usable_granule_walk_skips_reserved_frames() {
    let mut b = kmem::buddy::Buddy::new();
    let base = 16 * MIB;
    let mem = kmem::mem::Region { start: base, end: base + 8 * 4096 };
    // one reserved byte inside the third granule costs exactly that granule
    let resv = vec![kmem::mem::Region {
        start: base + 2 * 4096 + 7,
        end: base + 2 * 4096 + 8,
    }];
    kmem::mem::free_usable(&mut b, mem, &resv);
    let mut blocks = b.free_blocks();
    blocks.sort();
    assert_eq!(
        blocks,
        vec![(base, 1), (base + 3 * 4096, 0), (base + 4 * 4096, 2)]
    );
}
