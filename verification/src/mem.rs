//! Memory discovery and the raw page supply.
//!
//! The device tree names one physical memory range and a set of reserved
//! ranges (firmware reservations, plus the kernel image and the blob
//! itself, supplied by the boot code). `discover` frees every whole
//! granule of the memory range that touches no reserved range into the
//! buddy allocator. The page-granular allocate/free pairs at the end are
//! the raw frame interface the rest of the kernel uses directly.

use vstd::prelude::*;

verus! {

use crate::buddy::{Buddy, BuddyError};
use crate::dtb::{Dtb, DtbError};
use crate::dtb::stream::eq_bytes;
use crate::order::{GRANULE, in_block, block_aligned, effective_order};

/// A half-open range of physical addresses.
#[derive(Clone, Copy, Debug, PartialEq, Eq, Structural)]
pub struct Region {
    pub start: u64,
    pub end: u64,
}

/// Byte `b` lies in the region.
pub open spec fn region_has(r: Region, b: int) -> bool {
    r.start <= b < r.end
}

/// The section ranges of the kernel image, as the boot code knows them.
/// Built outside this crate, from the link-time symbols.
#[derive(Clone, Copy, Debug, PartialEq, Eq, Structural)]
pub struct KernelLayout {
    pub text: Region,
    pub ro_data: Region,
    pub data: Region,
    pub bss: Region,
    pub stack: Region,
    pub total: Region,
}

impl KernelLayout {
    /// Collect the section ranges; the boot code reads each pair of
    /// bracketing link-time symbols and passes them in.
    pub fn new(
        text: Region,
        ro_data: Region,
        data: Region,
        bss: Region,
        stack: Region,
        total: Region,
    ) -> (r: KernelLayout)
        ensures
            r == (KernelLayout { text, ro_data, data, bss, stack, total }),
    {
        KernelLayout { text, ro_data, data, bss, stack, total }
    }
}

/// Read one `u32` property value of the node the iterator walks.
fn find_cells(props: crate::dtb::property::DtbPropertyIter, name: &[u8]) -> (r: Option<u32>) {
    match props.find(name) {
        Some(stream) => {
            let mut s = stream;
            s.u32()
        },
        None => None,
    }
}

/// The reserved address ranges the device tree names: the `reg` entries
/// of every child of a `reserved-memory` node, and the entries of the
/// reservation block. Ranges whose end would overflow are clamped to the
/// top of the address space, never dropped.
pub fn reserved_regions(dtb: &Dtb) -> (r: Vec<Region>)
    ensures
        forall|k: int| 0 <= k < r@.len() ==> (#[trigger] r@[k]).start <= r@[k].end,
{
    let mut out: Vec<Region> = Vec::new();
    let root = dtb.root();
    let addr_cells = find_cells(root.properties(), "#address-cells".as_bytes());
    let size_cells = find_cells(root.properties(), "#size-cells".as_bytes());
    match (addr_cells, size_cells) {
        (Some(ac), Some(sc)) => {
            let mut it = root.childern();
            loop
                invariant
                    forall|k: int| 0 <= k < out@.len() ==> (#[trigger] out@[k]).start <= out@[k].end,
                decreases it.spec_parser().spec_stream().data().len(),
            {
                match it.next() {
                    Some(node) => {
                        if eq_bytes(node.name(), "reserved-memory".as_bytes()) {
                            let mut ch = node.childern();
                            loop
                                invariant
                                    forall|k: int|
                                        0 <= k < out@.len() ==> (#[trigger] out@[k]).start
                                            <= out@[k].end,
                                decreases ch.spec_parser().spec_stream().data().len(),
                            {
                                match ch.next() {
                                    Some(resv) => {
                                        match resv.properties().find("reg".as_bytes()) {
                                            Some(stream) => {
                                                let mut s = stream;
                                                match s.u64_cells(ac) {
                                                    Some(start) => match s.u64_cells(sc) {
                                                        Some(size) => {
                                                            out.push(
                                                                Region {
                                                                    start,
                                                                    end: start.saturating_add(
                                                                        size,
                                                                    ),
                                                                },
                                                            );
                                                        },
                                                        None => {},
                                                    },
                                                    None => {},
                                                }
                                            },
                                            None => {},
                                        }
                                    },
                                    None => {
                                        break ;
                                    },
                                }
                            }
                        }
                    },
                    None => {
                        break ;
                    },
                }
            }
        },
        _ => {},
    }
    let mut rit = dtb.reserved();
    loop
        invariant
            forall|k: int| 0 <= k < out@.len() ==> (#[trigger] out@[k]).start <= out@[k].end,
        decreases rit.spec_stream().data().len(),
    {
        match rit.next() {
            Some(e) => {
                out.push(Region { start: e.address, end: e.address.saturating_add(e.size) });
            },
            None => {
                break ;
            },
        }
    }
    out
}

/// The physical memory range the device tree names: the `reg` entry of
/// the node whose `device_type` says it is memory. `None` when the tree
/// names none (a fatal configuration for a kernel).
pub fn physical_region(dtb: &Dtb) -> (r: Option<Region>)
    ensures
        match r {
            Some(reg) => reg.start <= reg.end,
            None => true,
        },
{
    let root = dtb.root();
    let addr_cells = match find_cells(root.properties(), "#address-cells".as_bytes()) {
        Some(v) => v,
        None => {
            return None;
        },
    };
    let size_cells = match find_cells(root.properties(), "#size-cells".as_bytes()) {
        Some(v) => v,
        None => {
            return None;
        },
    };
    let mut it = dtb.nodes();
    loop
        decreases it.spec_parser().spec_stream().data().len(),
    {
        match it.next() {
            Some(node) => {
                match node.properties().find("device_type".as_bytes()) {
                    Some(value) => {
                        if value.contains_str("memory".as_bytes()) {
                            let stream = match node.properties().find("reg".as_bytes()) {
                                Some(s) => s,
                                None => {
                                    return None;
                                },
                            };
                            let mut s = stream;
                            let start = match s.u64_cells(addr_cells) {
                                Some(v) => v,
                                None => {
                                    return None;
                                },
                            };
                            let size = match s.u64_cells(size_cells) {
                                Some(v) => v,
                                None => {
                                    return None;
                                },
                            };
                            return Some(Region { start, end: start.saturating_add(size) });
                        }
                    },
                    None => {},
                }
            },
            None => {
                return None;
            },
        }
    }
}

/// The granule based at `g` lies wholly inside `[lo, hi)` and touches
/// none of the listed regions: `free_usable` hands exactly these out.
pub open spec fn granule_usable(lo: int, hi: int, rs: Seq<Region>, g: int) -> bool {
    &&& g % (GRANULE as int) == 0
    &&& lo <= g
    &&& g + GRANULE <= hi
    &&& forall|k: int|
        0 <= k < rs.len() ==> !((#[trigger] rs[k]).start < g + GRANULE && g < rs[k].end)
}

/// Byte `b` lies in a usable granule whose end does not pass `cur`: the
/// prefix of the usable granules a left-to-right walk has freed so far.
pub open spec fn usable_below(lo: int, hi: int, rs: Seq<Region>, cur: int, b: int) -> bool {
    exists|g: int|
        #[trigger] granule_usable(lo, hi, rs, g) && g + GRANULE <= cur && g <= b < g + GRANULE
}

/// Byte `b` lies in some whole granule of `[lo, hi)` that touches none
/// of the listed regions.
pub open spec fn usable_byte(lo: int, hi: int, rs: Seq<Region>, b: int) -> bool {
    exists|g: int| #[trigger] granule_usable(lo, hi, rs, g) && g <= b < g + GRANULE
}

/// An aligned address at or past an arbitrary one clears the latter's
/// round-up to the next granule.
proof fn lemma_aligned_past(start: int, g: int)
    requires
        0 <= start,
        start <= g,
        g % (GRANULE as int) == 0,
        start % (GRANULE as int) != 0,
    ensures
        g >= start + (GRANULE as int - start % (GRANULE as int)),
{
    let gr = GRANULE as int;
    let rem = start % gr;
    if g < start + (gr - rem) {
        vstd::arithmetic::div_mod::lemma_fundamental_div_mod(start, gr);
        let q = start / gr;
        vstd::arithmetic::div_mod::lemma_mod_multiples_vanish(q, rem + (g - start), gr);
        vstd::arithmetic::div_mod::lemma_small_mod((rem + (g - start)) as nat, gr as nat);
        assert(g % gr == rem + (g - start));
        assert(false);
    }
}

/// Whether `[lo, hi)` touches any of the listed regions.
fn overlaps_any(rs: &Vec<Region>, lo: u64, hi: u64) -> (r: bool)
    ensures
        r == exists|k: int|
            0 <= k < rs@.len() && (#[trigger] rs@[k]).start < hi && lo < rs@[k].end,
{
    let n = rs.len();
    let mut i: usize = 0;
    while i < n
        invariant
            n == rs@.len(),
            0 <= i <= n,
            forall|k: int| 0 <= k < i ==> !((#[trigger] rs@[k]).start < hi && lo < rs@[k].end),
        decreases n - i,
    {
        let reg = *vstd::slice::slice_index_get(rs.as_slice(), i);
        if reg.start < hi && lo < reg.end {
            proof {
                assert(rs@[i as int].start < hi && lo < rs@[i as int].end);
            }
            return true;
        }
        i = i + 1;
    }
    false
}

/// Two granule-aligned addresses differ by at least one whole granule.
proof fn lemma_aligned_gap(g: int, c: int)
    requires
        0 <= g < c,
        g % (GRANULE as int) == 0,
        c % (GRANULE as int) == 0,
    ensures
        g + GRANULE <= c,
{
    let gr = GRANULE as int;
    vstd::arithmetic::div_mod::lemma_sub_mod_noop(c, g, gr);
    vstd::arithmetic::div_mod::lemma_small_mod(0nat, gr as nat);
    assert((c - g) % gr == 0);
    if c - g < gr {
        vstd::arithmetic::div_mod::lemma_small_mod((c - g) as nat, gr as nat);
    }
}

/// Free every whole granule of `[mem.start, mem.end)` that touches none
/// of the listed regions into the emptied buddy allocator. Afterwards a
/// byte is free exactly when it lies in such a granule: no usable
/// granule is skipped, and nothing else is handed out.
pub fn free_usable(buddy: &mut Buddy, mem: Region, resv: &Vec<Region>)
    requires
        old(buddy).wf(),
        old(buddy).is_empty_spec(),
    ensures
        final(buddy).wf(),
        forall|b: int|
            #[trigger] final(buddy).has_byte(b) <==> usable_byte(
                mem.start as int,
                mem.end as int,
                resv@,
                b,
            ),
{
    let ghost lo = mem.start as int;
    let ghost hi = mem.end as int;
    let ghost rs = resv@;
    proof {
        assert forall|b: int| !old(buddy).has_byte(b) by {}
    }
    if mem.end < GRANULE {
        proof {
            assert forall|b: int| !usable_byte(lo, hi, rs, b) by {
                if usable_byte(lo, hi, rs, b) {
                    let g = choose|g: int|
                        #[trigger] granule_usable(lo, hi, rs, g) && g <= b < g + GRANULE;
                }
            }
        }
        return ;
    }
    let lim = mem.end - GRANULE;
    let rem = mem.start % GRANULE;
    let mut cur: u64 = if rem == 0 {
        mem.start
    } else if mem.start > u64::MAX - (GRANULE - rem) {
        // no whole granule fits above the start
        proof {
            assert forall|b: int| !usable_byte(lo, hi, rs, b) by {
                if usable_byte(lo, hi, rs, b) {
                    let g = choose|g: int|
                        #[trigger] granule_usable(lo, hi, rs, g) && g <= b < g + GRANULE;
                    lemma_aligned_past(lo, g);
                }
            }
        }
        return ;
    } else {
        mem.start + (GRANULE - rem)
    };
    proof {
        // no usable granule ends at or before the first aligned address
        assert forall|b: int| !usable_below(lo, hi, rs, cur as int, b) by {
            if usable_below(lo, hi, rs, cur as int, b) {
                let g = choose|g: int|
                    #[trigger] granule_usable(lo, hi, rs, g) && g + GRANULE <= cur as int && g <= b
                        < g + GRANULE;
                if rem != 0 {
                    lemma_aligned_past(lo, g);
                }
            }
        }
    }
    while cur <= lim
        invariant
            buddy.wf(),
            rs == resv@,
            lo == mem.start as int,
            hi == mem.end as int,
            mem.start <= cur,
            lim == mem.end - GRANULE,
            mem.end >= GRANULE,
            cur as int % (GRANULE as int) == 0,
            forall|b: int|
                #[trigger] buddy.has_byte(b) <==> usable_below(lo, hi, rs, cur as int, b),
        decreases lim + GRANULE - cur,
    {
        let ghost prev = cur as int;
        let ghost gr = GRANULE as int;
        if !overlaps_any(resv, cur, cur + GRANULE) {
            let ghost pre = *buddy;
            proof {
                crate::order::lemma_order_size_values();
                assert(block_aligned(cur as int, 0));
                // nothing of this granule is free yet: every freed byte
                // lies in a usable granule that ends at or before it
                assert forall|b: int| in_block(cur as int, 0, b) implies !pre.has_byte(b) by {
                    if pre.has_byte(b) {
                        let g = choose|g: int|
                            #[trigger] granule_usable(lo, hi, rs, g) && g + gr <= prev && g <= b
                                < g + gr;
                    }
                }
            }
            let res = buddy.free_order_exact(cur, 0);
            proof {
                crate::order::lemma_order_size_values();
                if res is Err {
                    // the freed granule ends below the top of the
                    // address space, so coalescing cannot overflow
                    assert(!pre.has_byte(u64::MAX as int));
                    assert(!in_block(cur as int, 0, u64::MAX as int));
                    assert(false);
                }
                assert(granule_usable(lo, hi, rs, prev));
                assert forall|b: int| #[trigger] buddy.has_byte(b) <==> usable_below(
                    lo,
                    hi,
                    rs,
                    prev + gr,
                    b,
                ) by {
                    if buddy.has_byte(b) && !in_block(prev, 0, b) {
                        assert(pre.has_byte(b));
                        let g = choose|g: int|
                            #[trigger] granule_usable(lo, hi, rs, g) && g + gr <= prev && g <= b
                                < g + gr;
                        assert(usable_below(lo, hi, rs, prev + gr, b));
                    }
                    if in_block(prev, 0, b) {
                        assert(granule_usable(lo, hi, rs, prev) && prev + gr <= prev + gr && prev
                            <= b < prev + gr);
                        assert(usable_below(lo, hi, rs, prev + gr, b));
                    }
                    if usable_below(lo, hi, rs, prev + gr, b) {
                        let g = choose|g: int|
                            #[trigger] granule_usable(lo, hi, rs, g) && g + gr <= prev + gr && g
                                <= b < g + gr;
                        if g != prev {
                            if g > prev {
                                assert(false);
                            }
                            lemma_aligned_gap(g, prev);
                            assert(usable_below(lo, hi, rs, prev, b));
                            assert(pre.has_byte(b));
                        } else {
                            assert(in_block(prev, 0, b));
                        }
                        assert(buddy.has_byte(b));
                    }
                }
            }
        } else {
            proof {
                // the granule touches a reserved region: it is not
                // usable, so the freed prefix does not grow
                assert forall|b: int| #[trigger] buddy.has_byte(b) <==> usable_below(
                    lo,
                    hi,
                    rs,
                    prev + gr,
                    b,
                ) by {
                    if buddy.has_byte(b) {
                        let g = choose|g: int|
                            #[trigger] granule_usable(lo, hi, rs, g) && g + gr <= prev && g <= b
                                < g + gr;
                        assert(usable_below(lo, hi, rs, prev + gr, b));
                    }
                    if usable_below(lo, hi, rs, prev + gr, b) {
                        let g = choose|g: int|
                            #[trigger] granule_usable(lo, hi, rs, g) && g + gr <= prev + gr && g
                                <= b < g + gr;
                        if g == prev {
                            assert(!granule_usable(lo, hi, rs, prev));
                        } else {
                            if g > prev {
                                assert(false);
                            }
                            lemma_aligned_gap(g, prev);
                            assert(usable_below(lo, hi, rs, prev, b));
                        }
                        assert(buddy.has_byte(b));
                    }
                }
            }
        }
        cur = cur + GRANULE;
    }
    proof {
        // past the last whole granule, the freed prefix is everything
        assert forall|b: int| #[trigger] buddy.has_byte(b) <==> usable_byte(lo, hi, rs, b) by {
            if buddy.has_byte(b) {
                let g = choose|g: int|
                    #[trigger] granule_usable(lo, hi, rs, g) && g + GRANULE <= cur as int && g <= b
                        < g + GRANULE;
                assert(usable_byte(lo, hi, rs, b));
            }
            if usable_byte(lo, hi, rs, b) {
                let g = choose|g: int|
                    #[trigger] granule_usable(lo, hi, rs, g) && g <= b < g + GRANULE;
                assert(g <= lim);
                lemma_aligned_gap(g, cur as int);
                assert(usable_below(lo, hi, rs, cur as int, b));
            }
        }
    }
}

/// Populate the buddy allocator from the device tree: clear it, find the
/// physical memory range, and free every whole granule of it that
/// touches neither a reserved range of the tree, nor the kernel image,
/// nor the blob itself. Afterwards every free byte lies in the memory
/// range and outside the kernel and blob ranges; the exact byte set is
/// what `free_usable` states over the discovered ranges.
pub fn discover(
    buddy: &mut Buddy,
    dtb: &Dtb,
    kernel_phys: Region,
    dtb_phys: Region,
) -> (r: Result<(), DtbError>)
    ensures
        final(buddy).wf(),
        match r {
            Ok(()) => exists|mem: Region|
                #[trigger] mem.start <= mem.end && forall|b: int|
                    #[trigger] final(buddy).has_byte(b) ==> region_has(mem, b) && !region_has(
                        kernel_phys,
                        b,
                    ) && !region_has(dtb_phys, b),
            Err(e) => e == DtbError::ExpectedProperty && final(buddy).is_empty_spec(),
        },
{
    buddy.clear();
    let mem = match physical_region(dtb) {
        Some(m) => m,
        None => {
            return Err(DtbError::ExpectedProperty);
        },
    };
    let mut resv = reserved_regions(dtb);
    resv.push(kernel_phys);
    resv.push(dtb_phys);
    let ghost nres = resv@.len() as int;
    free_usable(buddy, mem, &resv);
    proof {
        assert(mem.start <= mem.end);
        assert forall|b: int| #[trigger] buddy.has_byte(b) implies region_has(mem, b)
            && !region_has(kernel_phys, b) && !region_has(dtb_phys, b) by {
            let g = choose|g: int|
                #[trigger] granule_usable(mem.start as int, mem.end as int, resv@, g) && g <= b < g
                    + GRANULE;
            assert(resv@[nres - 2] == kernel_phys && resv@[nres - 1] == dtb_phys);
            assert(!(kernel_phys.start < g + GRANULE && g < kernel_phys.end));
            assert(!(dtb_phys.start < g + GRANULE && g < dtb_phys.end));
        }
    }
    Ok(())
}

// ---------------------------------------------------------------------------
// The raw page supply: whole frames straight from the buddy allocator.
// ---------------------------------------------------------------------------
/// One fresh frame. The caller zeroes it at the pointer boundary; this
/// model tracks addresses, not contents.
pub fn page_zeroed(buddy: &mut Buddy) -> (r: Option<u64>)
    requires
        old(buddy).wf(),
    ensures
        final(buddy).wf(),
        match r {
            Some(a) => {
                &&& a as int % (GRANULE as int) == 0
                &&& forall|b: int|
                    #[trigger] final(buddy).has_byte(b) <==> (old(buddy).has_byte(b) && !in_block(
                        a as int,
                        0,
                        b,
                    ))
                &&& forall|b: int| in_block(a as int, 0, b) ==> old(buddy).has_byte(b)
            },
            None => *final(buddy) == *old(buddy) && forall|o: int|
                0 <= o < crate::order::ORDER_COUNT ==> #[trigger] old(buddy).list(o).len() == 0,
        },
{
    let r = buddy.alloc_order(GRANULE, 0);
    proof {
        crate::order::lemma_order_for_size_rec(GRANULE as int, 0);
        crate::order::lemma_order_size_values();
        assert(effective_order(GRANULE as int, 0) == 0);
    }
    r
}

/// `num` contiguous fresh frames (rounded up to a power of two of
/// frames, the documented space/time trade-off of the dispatcher).
pub fn pages_zeroed(buddy: &mut Buddy, num: u64) -> (r: Option<u64>)
    requires
        old(buddy).wf(),
    ensures
        final(buddy).wf(),
        ({
            let eff = effective_order(num * GRANULE, 0);
            match r {
                Some(a) => {
                    &&& eff <= crate::order::MAX_ORDER
                    &&& a as int % (GRANULE as int) == 0
                    &&& crate::order::valid_block(a as int, eff)
                    &&& forall|b: int|
                        #[trigger] final(buddy).has_byte(b) <==> (old(buddy).has_byte(b)
                            && !in_block(a as int, eff, b))
                    &&& forall|b: int| in_block(a as int, eff, b) ==> old(buddy).has_byte(b)
                },
                None => *final(buddy) == *old(buddy) && (num > u64::MAX / GRANULE || eff
                    > crate::order::MAX_ORDER || forall|o: int|
                    eff <= o < crate::order::ORDER_COUNT ==> #[trigger] old(buddy).list(o).len()
                        == 0),
            }
        }),
{
    if num > u64::MAX / GRANULE {
        return None;
    }
    let r = buddy.alloc_order(num * GRANULE, 0);
    proof {
        if let Some(a) = r {
            let eff = effective_order((num * GRANULE) as int, 0);
            crate::order::lemma_order_for_size_rec((num * GRANULE) as int, 0);
            crate::order::lemma_order_size_values();
            crate::order::lemma_align_lower(a as int, eff, 0);
        }
    }
    r
}

/// Return one frame.
pub fn free_page(buddy: &mut Buddy, page: u64) -> (r: Result<(), BuddyError>)
    requires
        old(buddy).wf(),
        page + GRANULE <= u64::MAX + 1,
        forall|b: int|
            crate::buddy::in_region(page as int, GRANULE as int, b) ==> !old(buddy).has_byte(b),
    ensures
        final(buddy).wf(),
        match r {
            Ok(()) => forall|b: int|
                #[trigger] final(buddy).has_byte(b) <==> old(buddy).has_byte(b)
                    || crate::buddy::in_region(page as int, GRANULE as int, b),
            Err(e) => e == BuddyError::OrderTooLarge && (forall|b: int|
                0 <= b <= u64::MAX ==> #[trigger] old(buddy).has_byte(b)
                    || crate::buddy::in_region(page as int, GRANULE as int, b)) && (forall|b: int|
                #[trigger] final(buddy).has_byte(b) ==> old(buddy).has_byte(b)
                    || crate::buddy::in_region(page as int, GRANULE as int, b)),
        },
{
    buddy.free_region(page, GRANULE)
}

/// Return `num` contiguous frames.
pub fn free_pages_contiguous(buddy: &mut Buddy, page: u64, num: u64) -> (r: Result<
    (),
    BuddyError,
>)
    requires
        old(buddy).wf(),
        num <= u64::MAX / GRANULE,
        page + num * GRANULE <= u64::MAX + 1,
        forall|b: int|
            crate::buddy::in_region(page as int, (num * GRANULE) as int, b) ==> !old(
                buddy,
            ).has_byte(b),
    ensures
        final(buddy).wf(),
        match r {
            Ok(()) => forall|b: int|
                #[trigger] final(buddy).has_byte(b) <==> old(buddy).has_byte(b)
                    || crate::buddy::in_region(page as int, (num * GRANULE) as int, b),
            Err(e) => e == BuddyError::OrderTooLarge && (forall|b: int|
                0 <= b <= u64::MAX ==> #[trigger] old(buddy).has_byte(b)
                    || crate::buddy::in_region(page as int, (num * GRANULE) as int, b)) && (
            forall|b: int|
                #[trigger] final(buddy).has_byte(b) ==> old(buddy).has_byte(b)
                    || crate::buddy::in_region(page as int, (num * GRANULE) as int, b)),
        },
{
    buddy.free_region(page, num * GRANULE)
}

} // verus!
