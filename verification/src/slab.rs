//! The object slab allocator: small fixed-size objects carved from whole
//! frames.
//!
//! Each registered cache serves one normalized `(size, alignment)` class
//! and keeps a free list of object slots. Frames are obtained from the
//! buddy allocator and threaded into equal-size slots; a page record per
//! frame tracks its occupancy. Caches are sorted by `(size, alignment)`
//! and page records by frame base address, both for binary search.

use vstd::prelude::*;

verus! {

use crate::buddy::{Buddy, find_index};
use crate::layout::Layout;
use crate::order::{GRANULE, in_block, valid_block};
use crate::page_vec::PageVec;
use vstd::arithmetic::power2::is_pow2;
use vstd::arithmetic::div_mod::{
    lemma_fundamental_div_mod, lemma_mod_multiples_basic, lemma_mod_multiples_vanish,
    lemma_small_mod, lemma_add_mod_noop, lemma_mod_division_less_than_divisor,
};

/// How a slab request can fail. Only `OutOfMemory` is ordinary; the
/// others mean the configuration or a caller broke the allocator's
/// contract, and the kernel is expected to halt on them.
#[derive(Clone, Copy, Debug, PartialEq, Eq, Structural)]
pub enum SlabError {
    /// No registered cache is large enough for the request: the ladder
    /// of size classes is misconfigured.
    NoCache,
    /// The buddy allocator had no frame left.
    OutOfMemory,
    /// The freed address lies in no frame this allocator ever carved.
    UntrackedPointer,
    /// The freed address already sits on its cache's free list: the
    /// same slot freed twice without an allocation in between.
    DoubleFree,
    /// A frame's occupancy counters contradict the requested operation.
    CountMismatch,
}

/// One allocation size class: its normalized layout and the free slots
/// currently available for it, newest last.
pub struct Cache {
    pub free_list: Vec<u64>,
    pub layout: Layout,
}

/// Bookkeeping for one frame currently carved into slots of one cache.
#[derive(Clone, Copy)]
pub struct PageMeta {
    pub ptr: u64,
    pub free: usize,
    pub allocated: usize,
    pub layout: Layout,
}

pub struct Caches {
    pub caches: PageVec<Cache>,
}

pub struct Pages {
    pub pages: PageVec<PageMeta>,
}

pub struct SlabAllocator {
    pub caches: Caches,
    pub pages: Pages,
}

// ---------------------------------------------------------------------------
// Normalization and ordering of layouts.
// ---------------------------------------------------------------------------
/// Alignment floored to the slab minimum of 8 bytes.
pub open spec fn norm_align(l: Layout) -> int {
    if l.spec_align() >= 8 {
        l.spec_align()
    } else {
        8
    }
}

/// Size rounded up to a multiple of the normalized alignment.
pub open spec fn norm_size(l: Layout) -> int {
    ((l.spec_size() + norm_align(l) - 1) / norm_align(l)) * norm_align(l)
}

/// Strict ordering of cache classes by `(size, alignment)`.
pub open spec fn layout_lt(a: Layout, b: Layout) -> bool {
    a.spec_size() < b.spec_size() || (a.spec_size() == b.spec_size() && a.spec_align()
        < b.spec_align())
}

/// The cache class can serve the (normalized) request.
pub open spec fn layout_dominates(c: Layout, req: Layout) -> bool {
    c.spec_size() >= req.spec_size() && c.spec_align() >= req.spec_align()
}

impl Cache {
    pub open spec fn wf(self) -> bool {
        &&& self.layout.wf()
        &&& 8 <= self.layout.spec_align() <= GRANULE
        &&& 8 <= self.layout.spec_size() <= GRANULE
        &&& self.layout.spec_size() % self.layout.spec_align() == 0
    }

    /// Slots each frame of this cache holds.
    pub open spec fn slots_per_frame(self) -> int {
        GRANULE as int / self.layout.spec_size()
    }
}

impl PageMeta {
    pub open spec fn wf(self) -> bool {
        &&& self.ptr as int % (GRANULE as int) == 0
        &&& self.ptr + GRANULE <= u64::MAX + 1
        &&& 8 <= self.layout.spec_size() <= GRANULE
        &&& self.free + self.allocated == GRANULE as int / self.layout.spec_size()
    }

    /// Byte `b` lies in this frame.
    pub open spec fn holds_byte(self, b: int) -> bool {
        self.ptr <= b < self.ptr + GRANULE
    }
}

impl SlabAllocator {
    pub open spec fn cache_seq(self) -> Seq<Cache> {
        self.caches.caches@
    }

    pub open spec fn page_seq(self) -> Seq<PageMeta> {
        self.pages.pages@
    }

    /// Caches strictly sorted by `(size, alignment)`: unique classes,
    /// binary-searchable.
    pub open spec fn caches_sorted(self) -> bool {
        forall|i: int, j: int|
            0 <= i < j < self.cache_seq().len() ==> layout_lt(
                (#[trigger] self.cache_seq()[i]).layout,
                (#[trigger] self.cache_seq()[j]).layout,
            )
    }

    /// Page records strictly sorted by frame base address.
    pub open spec fn pages_sorted(self) -> bool {
        forall|i: int, j: int|
            0 <= i < j < self.page_seq().len() ==> (#[trigger] self.page_seq()[i]).ptr < (
            #[trigger] self.page_seq()[j]).ptr
    }

    /// Every page record's layout belongs to a registered cache.
    pub open spec fn pages_registered(self) -> bool {
        forall|pi: int|
            0 <= pi < self.page_seq().len() ==> exists|ci: int|
                0 <= ci < self.cache_seq().len() && (#[trigger] self.cache_seq()[ci]).layout == (
                #[trigger] self.page_seq()[pi]).layout
    }

    /// Every listed free slot lies inside a carved frame of the same
    /// layout, at a slot-aligned offset.
    pub open spec fn slot_backed(self, slot: u64, l: Layout) -> bool {
        exists|pi: int|
            0 <= pi < self.page_seq().len() && (#[trigger] self.page_seq()[pi]).layout == l && self
                .page_seq()[pi].ptr <= slot && slot + l.spec_size() <= self.page_seq()[pi].ptr
                + GRANULE && (slot - self.page_seq()[pi].ptr) % l.spec_size() == 0
    }

    pub open spec fn slots_valid(self) -> bool {
        forall|ci: int, si: int|
            0 <= ci < self.cache_seq().len() && 0 <= si < self.cache_seq()[ci].free_list@.len()
                ==> self.slot_backed(
                #[trigger] self.cache_seq()[ci].free_list@[si],
                self.cache_seq()[ci].layout,
            )
    }

    /// No slot address appears twice across all free lists.
    pub open spec fn slots_distinct(self) -> bool {
        forall|ci: int, si: int, cj: int, sj: int|
            0 <= ci < self.cache_seq().len() && 0 <= si < self.cache_seq()[ci].free_list@.len() && 0
                <= cj < self.cache_seq().len() && 0 <= sj
                < self.cache_seq()[cj].free_list@.len() && (ci != cj || si != sj)
                ==> #[trigger] self.cache_seq()[ci].free_list@[si] != #[trigger] self.cache_seq()[cj].free_list@[sj]
    }

    pub open spec fn wf(self) -> bool {
        &&& self.caches.caches.wf()
        &&& self.pages.pages.wf()
        &&& forall|ci: int|
            0 <= ci < self.cache_seq().len() ==> (#[trigger] self.cache_seq()[ci]).wf()
        &&& forall|pi: int|
            0 <= pi < self.page_seq().len() ==> (#[trigger] self.page_seq()[pi]).wf()
        &&& self.caches_sorted()
        &&& self.pages_sorted()
        &&& self.pages_registered()
        &&& self.slots_valid()
        &&& self.slots_distinct()
    }

    /// A cache for this exact class exists.
    pub open spec fn registered(self, l: Layout) -> bool {
        exists|ci: int|
            0 <= ci < self.cache_seq().len() && (#[trigger] self.cache_seq()[ci]).layout == l
    }

    /// A cache whose class has this size and alignment exists.
    pub open spec fn registered_class(self, sz: int, al: int) -> bool {
        exists|ci: int|
            0 <= ci < self.cache_seq().len() && (#[trigger] self.cache_seq()[ci]).layout.spec_size()
                == sz && self.cache_seq()[ci].layout.spec_align() == al
    }

    /// Byte `b` lies in some carved frame.
    pub open spec fn owns_byte(self, b: int) -> bool {
        exists|pi: int|
            0 <= pi < self.page_seq().len() && (#[trigger] self.page_seq()[pi]).holds_byte(b)
    }
}

/// The slab's carved frames and the buddy allocator's free bytes are
/// disjoint: the slab owns its frames exclusively.
pub open spec fn slab_buddy_compat(s: SlabAllocator, bd: Buddy) -> bool {
    forall|b: int| #[trigger] s.owns_byte(b) ==> !bd.has_byte(b)
}

/// The cache entry `c` — its class and its whole free list — stands,
/// unchanged, somewhere in `b`.
pub open spec fn entry_in(c: Cache, b: Seq<Cache>) -> bool {
    exists|j: int| 0 <= j < b.len() && #[trigger] b[j] == c
}

/// Every cache entry of `a` is present, unchanged, in `b`.
pub open spec fn entries_kept(a: Seq<Cache>, b: Seq<Cache>) -> bool {
    forall|i: int| 0 <= i < a.len() ==> entry_in(#[trigger] a[i], b)
}

/// Keeping every entry is transitive across two steps.
pub proof fn lemma_entries_kept_trans(a: Seq<Cache>, b: Seq<Cache>, c: Seq<Cache>)
    requires
        entries_kept(a, b),
        entries_kept(b, c),
    ensures
        entries_kept(a, c),
{
    assert forall|i: int| 0 <= i < a.len() implies entry_in(#[trigger] a[i], c) by {
        let ai = a[i];
        assert(entry_in(ai, b));
        let j = choose|j: int| 0 <= j < b.len() && #[trigger] b[j] == ai;
        assert(entry_in(b[j], c));
        let k = choose|k: int| 0 <= k < c.len() && #[trigger] c[k] == b[j];
        assert(c[k] == ai);
    }
}

impl SlabAllocator {
    /// An allocator with no caches and no carved frames.
    pub fn new() -> (r: SlabAllocator)
        ensures
            r.wf(),
            r.cache_seq().len() == 0,
            r.page_seq().len() == 0,
            forall|b: int| !r.owns_byte(b),
    {
        SlabAllocator {
            caches: Caches { caches: PageVec::new() },
            pages: Pages { pages: PageVec::new() },
        }
    }
}

impl Caches {
    /// Binary search for the exact class, or the position where it would
    /// be inserted to keep the array sorted.
    fn search_cache(&self, layout: Layout) -> (r: Result<usize, usize>)
        requires
            self.caches.wf(),
            forall|i: int, j: int|
                0 <= i < j < self.caches@.len() ==> layout_lt(
                    (#[trigger] self.caches@[i]).layout,
                    (#[trigger] self.caches@[j]).layout,
                ),
        ensures
            match r {
                Ok(i) => 0 <= i < self.caches@.len() && self.caches@[i as int].layout == layout,
                Err(i) => {
                    &&& 0 <= i <= self.caches@.len()
                    &&& forall|j: int|
                        0 <= j < i ==> layout_lt((#[trigger] self.caches@[j]).layout, layout)
                    &&& forall|j: int|
                        i <= j < self.caches@.len() ==> layout_lt(
                            layout,
                            (#[trigger] self.caches@[j]).layout,
                        )
                },
            },
    {
        let mut lo: usize = 0;
        let mut hi: usize = self.caches.len();
        while lo < hi
            invariant
                self.caches.wf(),
                forall|i: int, j: int|
                    0 <= i < j < self.caches@.len() ==> layout_lt(
                        (#[trigger] self.caches@[i]).layout,
                        (#[trigger] self.caches@[j]).layout,
                    ),
                0 <= lo <= hi <= self.caches@.len(),
                forall|j: int| 0 <= j < lo ==> layout_lt((#[trigger] self.caches@[j]).layout, layout),
                forall|j: int|
                    hi <= j < self.caches@.len() ==> layout_lt(
                        layout,
                        (#[trigger] self.caches@[j]).layout,
                    ),
            decreases hi - lo,
        {
            let mid = lo + (hi - lo) / 2;
            let cl = *self.caches.get(mid).layout_ref();
            if cl.size() < layout.size() || (cl.size() == layout.size() && cl.align()
                < layout.align()) {
                proof {
                    assert forall|j: int| 0 <= j < mid + 1 implies layout_lt(
                        (#[trigger] self.caches@[j]).layout,
                        layout,
                    ) by {
                        if j < mid {
                            assert(layout_lt(self.caches@[j].layout, self.caches@[mid as int].layout));
                        }
                    }
                }
                lo = mid + 1;
            } else if cl.size() == layout.size() && cl.align() == layout.align() {
                proof {
                    crate::layout::lemma_layout_ext(cl, layout);
                }
                return Ok(mid);
            } else {
                proof {
                    assert(layout_lt(layout, self.caches@[mid as int].layout));
                    assert forall|j: int| mid <= j < self.caches@.len() implies layout_lt(
                        layout,
                        (#[trigger] self.caches@[j]).layout,
                    ) by {
                        if j > mid {
                            assert(layout_lt(self.caches@[mid as int].layout, self.caches@[j].layout));
                        }
                    }
                }
                hi = mid;
            }
        }
        Err(lo)
    }
}

impl Cache {
    /// The cache's class, for binary search.
    pub fn layout_ref(&self) -> (r: &Layout)
        ensures
            *r == self.layout,
    {
        &self.layout
    }
}

impl Pages {
    /// Binary search for the record of the frame based at `ptr`, or the
    /// position where such a record would be inserted.
    pub fn search_page(&self, ptr: u64) -> (r: Result<usize, usize>)
        requires
            self.pages.wf(),
            forall|i: int, j: int|
                0 <= i < j < self.pages@.len() ==> (#[trigger] self.pages@[i]).ptr < (
                #[trigger] self.pages@[j]).ptr,
        ensures
            match r {
                Ok(i) => 0 <= i < self.pages@.len() && self.pages@[i as int].ptr == ptr,
                Err(i) => {
                    &&& 0 <= i <= self.pages@.len()
                    &&& forall|j: int| 0 <= j < i ==> (#[trigger] self.pages@[j]).ptr < ptr
                    &&& forall|j: int|
                        i <= j < self.pages@.len() ==> ptr < (#[trigger] self.pages@[j]).ptr
                },
            },
    {
        let mut lo: usize = 0;
        let mut hi: usize = self.pages.len();
        while lo < hi
            invariant
                self.pages.wf(),
                forall|i: int, j: int|
                    0 <= i < j < self.pages@.len() ==> (#[trigger] self.pages@[i]).ptr < (
                    #[trigger] self.pages@[j]).ptr,
                0 <= lo <= hi <= self.pages@.len(),
                forall|j: int| 0 <= j < lo ==> (#[trigger] self.pages@[j]).ptr < ptr,
                forall|j: int| hi <= j < self.pages@.len() ==> ptr < (#[trigger] self.pages@[j]).ptr,
            decreases hi - lo,
        {
            let mid = lo + (hi - lo) / 2;
            let base = self.pages.get(mid).ptr;
            if base < ptr {
                proof {
                    assert forall|j: int| 0 <= j < mid + 1 implies (
                    #[trigger] self.pages@[j]).ptr < ptr by {
                        if j < mid {
                            assert(self.pages@[j].ptr < self.pages@[mid as int].ptr);
                        }
                    }
                }
                lo = mid + 1;
            } else if base == ptr {
                return Ok(mid);
            } else {
                proof {
                    assert forall|j: int| mid <= j < self.pages@.len() implies ptr < (
                    #[trigger] self.pages@[j]).ptr by {
                        if j > mid {
                            assert(self.pages@[mid as int].ptr < self.pages@[j].ptr);
                        }
                    }
                }
                hi = mid;
            }
        }
        Err(lo)
    }
}

/// Inserting a cache with an empty free list at its sorted position
/// keeps the allocator well-formed and owns the same frames.
proof fn lemma_cache_insert(pre: SlabAllocator, post: SlabAllocator, i: int, c: Cache)
    requires
        pre.wf(),
        c.wf(),
        c.free_list@.len() == 0,
        0 <= i <= pre.cache_seq().len(),
        post.cache_seq() == pre.cache_seq().insert(i, c),
        post.page_seq() == pre.page_seq(),
        post.caches.caches.wf(),
        post.pages.pages.wf(),
        forall|j: int|
            0 <= j < i ==> layout_lt((#[trigger] pre.cache_seq()[j]).layout, c.layout),
        forall|j: int|
            i <= j < pre.cache_seq().len() ==> layout_lt(
                c.layout,
                (#[trigger] pre.cache_seq()[j]).layout,
            ),
    ensures
        post.wf(),
        forall|b: int| #[trigger] post.owns_byte(b) == pre.owns_byte(b),
        forall|l: Layout| #[trigger] pre.registered(l) ==> post.registered(l),
        post.registered(c.layout),
{
    pre.cache_seq().insert_ensures(i, c);
    let m = |cj: int| if cj > i { cj - 1 } else { cj };
    assert forall|cj: int|
        0 <= cj < post.cache_seq().len() && cj != i implies #[trigger] post.cache_seq()[cj]
        == pre.cache_seq()[m(cj)] && 0 <= m(cj) < pre.cache_seq().len() by {
        if cj > i {
            assert(post.cache_seq()[m(cj) + 1] == pre.cache_seq()[m(cj)]);
        }
    }
    assert(post.cache_seq()[i] == c);
    assert forall|x: int, y: int|
        0 <= x < y < post.cache_seq().len() implies layout_lt(
        (#[trigger] post.cache_seq()[x]).layout,
        (#[trigger] post.cache_seq()[y]).layout,
    ) by {
        if x != i && y != i {
            assert(post.cache_seq()[x] == pre.cache_seq()[m(x)]);
            assert(post.cache_seq()[y] == pre.cache_seq()[m(y)]);
        } else if x == i {
            assert(post.cache_seq()[y] == pre.cache_seq()[m(y)]);
        } else {
            assert(post.cache_seq()[x] == pre.cache_seq()[m(x)]);
        }
    }
    assert(post.caches_sorted());
    assert forall|pi: int| 0 <= pi < post.page_seq().len() implies exists|ci: int|
        0 <= ci < post.cache_seq().len() && (#[trigger] post.cache_seq()[ci]).layout == (
        #[trigger] post.page_seq()[pi]).layout by {
        let ci = choose|ci: int|
            0 <= ci < pre.cache_seq().len() && (#[trigger] pre.cache_seq()[ci]).layout
                == pre.page_seq()[pi].layout;
        if ci < i {
            assert(post.cache_seq()[ci].layout == post.page_seq()[pi].layout);
        } else {
            assert(post.cache_seq()[ci + 1] == pre.cache_seq()[ci]);
            assert(post.cache_seq()[ci + 1].layout == post.page_seq()[pi].layout);
        }
    }
    assert forall|ci: int, si: int|
        0 <= ci < post.cache_seq().len() && 0 <= si
            < post.cache_seq()[ci].free_list@.len() implies post.slot_backed(
        #[trigger] post.cache_seq()[ci].free_list@[si],
        post.cache_seq()[ci].layout,
    ) by {
        assert(ci != i);
        assert(post.cache_seq()[ci] == pre.cache_seq()[m(ci)]);
        assert(pre.slot_backed(pre.cache_seq()[m(ci)].free_list@[si], pre.cache_seq()[m(ci)].layout));
        let pi = choose|pi: int|
            0 <= pi < pre.page_seq().len() && (#[trigger] pre.page_seq()[pi]).layout
                == pre.cache_seq()[m(ci)].layout && pre.page_seq()[pi].ptr <= pre.cache_seq()[m(
                ci,
            )].free_list@[si] && pre.cache_seq()[m(ci)].free_list@[si] + pre.cache_seq()[m(
                ci,
            )].layout.spec_size() <= pre.page_seq()[pi].ptr + GRANULE && (pre.cache_seq()[m(
                ci,
            )].free_list@[si] - pre.page_seq()[pi].ptr) % pre.cache_seq()[m(
                ci,
            )].layout.spec_size() == 0;
        assert(post.page_seq()[pi] == pre.page_seq()[pi]);
    }
    assert(post.slots_valid());
    assert forall|ci: int, si: int, cj: int, sj: int|
        0 <= ci < post.cache_seq().len() && 0 <= si < post.cache_seq()[ci].free_list@.len() && 0
            <= cj < post.cache_seq().len() && 0 <= sj < post.cache_seq()[cj].free_list@.len() && (
        ci != cj || si != sj) implies #[trigger] post.cache_seq()[ci].free_list@[si]
        != #[trigger] post.cache_seq()[cj].free_list@[sj] by {
        assert(ci != i && cj != i);
        assert(post.cache_seq()[ci] == pre.cache_seq()[m(ci)]);
        assert(post.cache_seq()[cj] == pre.cache_seq()[m(cj)]);
    }
    assert(post.slots_distinct());
    assert forall|b: int| #[trigger] post.owns_byte(b) == pre.owns_byte(b) by {
        if post.owns_byte(b) {
            let pi = choose|pi: int|
                0 <= pi < post.page_seq().len() && (#[trigger] post.page_seq()[pi]).holds_byte(b);
            assert(pre.page_seq()[pi].holds_byte(b));
        }
        if pre.owns_byte(b) {
            let pi = choose|pi: int|
                0 <= pi < pre.page_seq().len() && (#[trigger] pre.page_seq()[pi]).holds_byte(b);
            assert(post.page_seq()[pi].holds_byte(b));
        }
    }
    assert forall|l: Layout| #[trigger] pre.registered(l) implies post.registered(l) by {
        let ci = choose|ci: int|
            0 <= ci < pre.cache_seq().len() && (#[trigger] pre.cache_seq()[ci]).layout == l;
        if ci < i {
            assert(post.cache_seq()[ci].layout == l);
        } else {
            assert(post.cache_seq()[ci + 1] == pre.cache_seq()[ci]);
        }
    }
    assert(post.cache_seq()[i].layout == c.layout);
}

/// Properties of the normalized size: it contains the requested size,
/// overshoots by less than one alignment, and is alignment-multiple.
pub proof fn lemma_norm_size(l: Layout)
    requires
        l.spec_size() >= 0,
    ensures
        l.spec_size() <= norm_size(l),
        norm_size(l) < l.spec_size() + norm_align(l),
        norm_size(l) % norm_align(l) == 0,
        norm_align(l) >= 8,
        l.spec_size() >= 1 ==> norm_size(l) >= norm_align(l),
{
    let a = norm_align(l);
    let s = l.spec_size();
    let q = (s + a - 1) / a;
    lemma_fundamental_div_mod(s + a - 1, a);
    lemma_mod_division_less_than_divisor(s + a - 1, a);
    assert(q * a == a * q) by (nonlinear_arith);
    lemma_mod_multiples_basic(q, a);
    if s >= 1 && norm_size(l) < a {
        lemma_small_mod(norm_size(l) as nat, a as nat);
    }
}

impl SlabAllocator {
    /// Normalize a request: alignment floored to the slab minimum, size
    /// rounded up to a multiple of the alignment.
    fn round_layout(layout: Layout) -> (r: Layout)
        requires
            layout.wf(),
            layout.spec_size() + norm_align(layout) <= u64::MAX,
        ensures
            r.wf(),
            r.spec_size() == norm_size(layout),
            r.spec_align() == norm_align(layout),
    {
        let align: u64 = if layout.align() >= 8 {
            layout.align()
        } else {
            8
        };
        proof {
            if layout.spec_align() < 8 {
                reveal_with_fuel(is_pow2, 5);
                assert(is_pow2(8));
            }
            lemma_norm_size(layout);
        }
        let size = layout.size();
        let rsize = ((size + align - 1) / align) * align;
        crate::layout::with_size_align(rsize, align)
    }

    /// Register a cache for the normalized form of `layout`: inserted at
    /// its sorted position, or a no-op when the class already exists.
    /// Called during initialization with the fixed ladder of classes.
    pub fn add_cache(&mut self, layout: Layout)
        requires
            old(self).wf(),
            layout.wf(),
            1 <= layout.spec_size(),
            norm_size(layout) <= GRANULE,
            norm_align(layout) <= GRANULE,
        ensures
            final(self).wf(),
            final(self).page_seq() == old(self).page_seq(),
            forall|b: int| #[trigger] final(self).owns_byte(b) == old(self).owns_byte(b),
            forall|l: Layout| #[trigger] old(self).registered(l) ==> final(self).registered(l),
            forall|s: int, al: int|
                #[trigger] old(self).registered_class(s, al) ==> final(self).registered_class(
                    s,
                    al,
                ),
            final(self).registered_class(norm_size(layout), norm_align(layout)),
            entries_kept(old(self).cache_seq(), final(self).cache_seq()),
            if old(self).registered_class(norm_size(layout), norm_align(layout)) {
                final(self).cache_seq() == old(self).cache_seq()
            } else {
                exists|i: int|
                    {
                        &&& 0 <= i <= old(self).cache_seq().len()
                        &&& final(self).cache_seq() == (#[trigger] old(self).cache_seq().insert(
                            i,
                            final(self).cache_seq()[i],
                        ))
                        &&& final(self).cache_seq()[i].free_list@.len() == 0
                        &&& final(self).cache_seq()[i].layout.spec_size() == norm_size(layout)
                        &&& final(self).cache_seq()[i].layout.spec_align() == norm_align(layout)
                    }
            },
            final(self).cache_seq().len() <= old(self).cache_seq().len() + 1,
    {
        proof {
            lemma_norm_size(layout);
        }
        let norm = Self::round_layout(layout);
        proof {
            assert(self.caches.caches@ == self.cache_seq());
        }
        match self.caches.search_cache(norm) {
            Ok(ci) => {
                proof {
                    assert(self.cache_seq()[ci as int].layout == norm);
                    assert(entries_kept(self.cache_seq(), self.cache_seq()));
                }
            },
            Err(ci) => {
                let ghost pre = *self;
                let c = Cache { free_list: Vec::new(), layout: norm };
                proof {
                    assert(c.wf());
                    // no cache of the normalized class exists: the search
                    // put every entry strictly on one side of it
                    assert(!pre.registered_class(norm_size(layout), norm_align(layout))) by {
                        if pre.registered_class(norm_size(layout), norm_align(layout)) {
                            let cj = choose|cj: int|
                                0 <= cj < pre.cache_seq().len() && (#[trigger] pre.cache_seq()[cj]).layout.spec_size()
                                    == norm_size(layout) && pre.cache_seq()[cj].layout.spec_align()
                                    == norm_align(layout);
                            if cj < ci as int {
                                assert(layout_lt(pre.cache_seq()[cj].layout, norm));
                            } else {
                                assert(layout_lt(norm, pre.cache_seq()[cj].layout));
                            }
                        }
                    }
                }
                self.caches.caches.insert(ci, c);
                proof {
                    lemma_cache_insert(pre, *self, ci as int, c);
                    pre.cache_seq().insert_ensures(ci as int, c);
                    assert(self.cache_seq()[ci as int] == c);
                    assert forall|i: int| 0 <= i < pre.cache_seq().len() implies entry_in(
                        #[trigger] pre.cache_seq()[i],
                        self.cache_seq(),
                    ) by {
                        if i < ci as int {
                            assert(self.cache_seq()[i] == pre.cache_seq()[i]);
                        } else {
                            assert(self.cache_seq()[i + 1] == pre.cache_seq()[i]);
                        }
                    }
                    assert forall|s: int, al: int|
                        #[trigger] pre.registered_class(s, al) implies self.registered_class(
                        s,
                        al,
                    ) by {
                        let cj = choose|cj: int|
                            0 <= cj < pre.cache_seq().len() && (#[trigger] pre.cache_seq()[cj]).layout.spec_size()
                                == s && pre.cache_seq()[cj].layout.spec_align() == al;
                        if cj < ci as int {
                            assert(self.cache_seq()[cj] == pre.cache_seq()[cj]);
                        } else {
                            assert(self.cache_seq()[cj + 1] == pre.cache_seq()[cj]);
                        }
                    }
                }
            },
        }
    }

    /// The smallest cache whose class dominates the (already normalized)
    /// request, by index; `None` when no class is large enough.
    fn find_closest_cache(&self, layout: Layout) -> (r: Option<usize>)
        requires
            self.wf(),
        ensures
            match r {
                Some(ci) => {
                    &&& 0 <= ci < self.cache_seq().len()
                    &&& layout_dominates(self.cache_seq()[ci as int].layout, layout)
                    &&& forall|j: int|
                        0 <= j < ci ==> !layout_dominates(
                            (#[trigger] self.cache_seq()[j]).layout,
                            layout,
                        )
                },
                None => forall|j: int|
                    0 <= j < self.cache_seq().len() ==> !layout_dominates(
                        (#[trigger] self.cache_seq()[j]).layout,
                        layout,
                    ),
            },
    {
        proof {
            assert(self.caches.caches@ == self.cache_seq());
        }
        let start = match self.caches.search_cache(layout) {
            Ok(i) => i,
            Err(i) => i,
        };
        let mut k = start;
        while k < self.caches.caches.len()
            invariant
                self.wf(),
                start <= k <= self.cache_seq().len(),
                forall|j: int|
                    0 <= j < k ==> !layout_dominates(
                        (#[trigger] self.cache_seq()[j]).layout,
                        layout,
                    ),
            decreases self.cache_seq().len() - k,
        {
            let cl = *self.caches.caches.get(k).layout_ref();
            if cl.size() >= layout.size() && cl.align() >= layout.align() {
                return Some(k);
            }
            k = k + 1;
        }
        None
    }
}

/// What a successful frame refill did: frame `f`, wholly free before,
/// left the buddy's free set; its page record was inserted at sorted
/// position `idx`; the cache's free list became the frame's slots, the
/// lowest-addressed slot last.
pub open spec fn refill_ok(
    pre_pages: Seq<PageMeta>,
    post_pages: Seq<PageMeta>,
    buddy_pre: Buddy,
    buddy_post: Buddy,
    l: Layout,
    cache_post: Cache,
    f: u64,
    idx: int,
) -> bool {
    let ns = l.spec_size();
    let k = GRANULE as int / ns;
    &&& valid_block(f as int, 0)
    &&& forall|b: int| in_block(f as int, 0, b) ==> buddy_pre.has_byte(b)
    &&& forall|b: int|
        #[trigger] buddy_post.has_byte(b) <==> (buddy_pre.has_byte(b) && !in_block(f as int, 0, b))
    &&& 0 <= idx <= pre_pages.len()
    &&& forall|j: int| 0 <= j < idx ==> (#[trigger] pre_pages[j]).ptr < f
    &&& forall|j: int| idx <= j < pre_pages.len() ==> f < (#[trigger] pre_pages[j]).ptr
    &&& post_pages == pre_pages.insert(
        idx,
        (PageMeta { ptr: f, free: k as usize, allocated: 0, layout: l }),
    )
    &&& cache_post.layout == l
    &&& cache_post.free_list@.len() == k
    &&& forall|si: int|
        0 <= si < k ==> #[trigger] cache_post.free_list@[si] == f + (k - 1 - si) * ns
}

impl Pages {
    /// Obtain one fresh frame from the buddy allocator and thread it
    /// into equal-size slots for the cache: a record for the frame joins
    /// the sorted page array, and the cache's free list becomes exactly
    /// the frame's slots, the lowest-addressed slot last (popped first).
    /// The frame is not zeroed.
    fn allocate_new_page(&mut self, buddy: &mut Buddy, cache: &mut Cache) -> (r: Result<
        (),
        SlabError,
    >)
        requires
            old(buddy).wf(),
            old(cache).wf(),
            old(cache).free_list@.len() == 0,
            old(self).pages.wf(),
            forall|i: int, j: int|
                0 <= i < j < old(self).pages@.len() ==> (#[trigger] old(self).pages@[i]).ptr < (
                #[trigger] old(self).pages@[j]).ptr,
            forall|pi: int|
                0 <= pi < old(self).pages@.len() ==> (#[trigger] old(self).pages@[pi]).wf(),
            forall|pi: int, b: int|
                #![trigger old(self).pages@[pi].holds_byte(b)]
                0 <= pi < old(self).pages@.len() && old(self).pages@[pi].holds_byte(b) ==> !old(
                    buddy,
                ).has_byte(b),
        ensures
            final(buddy).wf(),
            final(cache).layout == old(cache).layout,
            final(self).pages.wf(),
            match r {
                Ok(()) => exists|f: u64, idx: int|
                    #[trigger] refill_ok(
                        old(self).pages@,
                        final(self).pages@,
                        *old(buddy),
                        *final(buddy),
                        old(cache).layout,
                        *final(cache),
                        f,
                        idx,
                    ),
                Err(e) => {
                    &&& e == SlabError::OutOfMemory
                    &&& *final(self) == *old(self)
                    &&& *final(buddy) == *old(buddy)
                    &&& *final(cache) == *old(cache)
                    &&& forall|o: int|
                        0 <= o < crate::order::ORDER_COUNT ==> #[trigger] old(buddy).list(o).len()
                            == 0
                },
            },
    {
        let ns: u64 = {
            let l = *cache.layout_ref();
            l.size()
        };
        proof {
            crate::order::lemma_order_for_size_rec(GRANULE as int, 0);
            crate::order::lemma_order_size_values();
            assert(crate::order::effective_order(GRANULE as int, 0) == 0);
        }
        let frame = match buddy.alloc_order(GRANULE, 0) {
            Some(f) => f,
            None => {
                return Err(SlabError::OutOfMemory);
            },
        };
        proof {
            lemma_fundamental_div_mod(GRANULE as int, ns as int);
            lemma_mod_division_less_than_divisor(GRANULE as int, ns as int);
        }
        let k: usize = (GRANULE / ns) as usize;
        let ghost gk = GRANULE as int / (ns as int);
        let ghost grem = (GRANULE as int) % (ns as int);
        proof {
            assert(1 <= gk <= GRANULE && gk * (ns as int) <= GRANULE as int) by (nonlinear_arith)
                requires
                    GRANULE as int == (ns as int) * gk + grem,
                    0 <= grem < ns as int,
                    8 <= ns as int <= GRANULE as int,
            ;
            assert(k == gk);
        }
        let idx = match self.search_page(frame) {
            Ok(i) => {
                proof {
                    // a recorded frame is never handed out by the buddy
                    assert(self.pages@[i as int].holds_byte(frame as int));
                    assert(in_block(frame as int, 0, frame as int));
                    assert(false);
                }
                i
            },
            Err(i) => i,
        };
        self.pages.insert(idx, PageMeta { ptr: frame, free: k, allocated: 0, layout: *cache.layout_ref() });
        let mut j: usize = k;
        while j > 0
            invariant
                0 <= j <= k,
                k == gk,
                gk == GRANULE as int / (ns as int),
                8 <= ns <= GRANULE,
                gk * ns <= GRANULE as int,
                valid_block(frame as int, 0),
                cache.free_list@.len() == k - j,
                forall|si: int|
                    0 <= si < k - j ==> #[trigger] cache.free_list@[si] == frame + (gk - 1 - si) * (
                    ns as int),
                cache.layout == old(cache).layout,
            decreases j,
        {
            j = j - 1;
            proof {
                assert((j as int) * (ns as int) <= GRANULE - ns) by (nonlinear_arith)
                    requires
                        0 <= j as int <= gk - 1,
                        8 <= ns as int,
                        gk * (ns as int) <= GRANULE as int,
                ;
                crate::order::lemma_order_size_values();
            }
            cache.free_list.push(frame + (j as u64) * ns);
        }
        proof {
            assert(refill_ok(
                old(self).pages@,
                self.pages@,
                *old(buddy),
                *buddy,
                old(cache).layout,
                *cache,
                frame,
                idx as int,
            ));
        }
        Ok(())
    }
}

/// An address inside a frame masks down to that frame's base.
proof fn lemma_slot_base(p: int, s: int)
    requires
        p % (GRANULE as int) == 0,
        p <= s < p + GRANULE,
    ensures
        s % (GRANULE as int) == s - p,
        s - s % (GRANULE as int) == p,
{
    let g = GRANULE as int;
    let d = s - p;
    lemma_fundamental_div_mod(p, g);
    let q = p / g;
    lemma_mod_multiples_vanish(q, d, g);
    lemma_small_mod(d as nat, g as nat);
}

/// After a frame refill, the whole allocator is still well-formed; it
/// owns the old frames plus the new one, and stays compatible with the
/// buddy allocator the frame came from.
proof fn lemma_refill_wf(
    pre: SlabAllocator,
    post: SlabAllocator,
    buddy_pre: Buddy,
    buddy_post: Buddy,
    ci: int,
    f: u64,
    idx: int,
)
    requires
        pre.wf(),
        buddy_pre.wf(),
        slab_buddy_compat(pre, buddy_pre),
        0 <= ci < pre.cache_seq().len(),
        pre.cache_seq()[ci].free_list@.len() == 0,
        post.cache_seq().len() == pre.cache_seq().len(),
        forall|cj: int|
            0 <= cj < pre.cache_seq().len() && cj != ci ==> #[trigger] post.cache_seq()[cj]
                == pre.cache_seq()[cj],
        post.caches.caches.wf(),
        post.pages.pages.wf(),
        refill_ok(
            pre.page_seq(),
            post.page_seq(),
            buddy_pre,
            buddy_post,
            pre.cache_seq()[ci].layout,
            post.cache_seq()[ci],
            f,
            idx,
        ),
    ensures
        post.wf(),
        slab_buddy_compat(post, buddy_post),
        forall|b: int|
            #[trigger] post.owns_byte(b) == (pre.owns_byte(b) || in_block(f as int, 0, b)),
{
    let l = pre.cache_seq()[ci].layout;
    let ns = l.spec_size();
    let k = GRANULE as int / ns;
    let pm = (PageMeta { ptr: f, free: k as usize, allocated: 0, layout: l });
    crate::order::lemma_order_size_values();
    assert(f as int % (GRANULE as int) == 0);
    pre.page_seq().insert_ensures(idx, pm);
    let m = |pj: int| if pj > idx { pj - 1 } else { pj };
    assert forall|pj: int|
        0 <= pj < post.page_seq().len() && pj != idx implies #[trigger] post.page_seq()[pj]
        == pre.page_seq()[m(pj)] && 0 <= m(pj) < pre.page_seq().len() by {
        if pj > idx {
            assert(post.page_seq()[m(pj) + 1] == pre.page_seq()[m(pj)]);
        }
    }
    assert(post.page_seq()[idx] == pm);
    // the new record keeps the array sorted
    assert forall|x: int, y: int|
        0 <= x < y < post.page_seq().len() implies (#[trigger] post.page_seq()[x]).ptr < (
    #[trigger] post.page_seq()[y]).ptr by {
        if x != idx && y != idx {
            assert(post.page_seq()[x] == pre.page_seq()[m(x)]);
            assert(post.page_seq()[y] == pre.page_seq()[m(y)]);
        } else if x == idx {
            assert(post.page_seq()[y] == pre.page_seq()[m(y)]);
        } else {
            assert(post.page_seq()[x] == pre.page_seq()[m(x)]);
        }
    }
    // the new record is a well-formed page
    lemma_fundamental_div_mod(GRANULE as int, ns);
    lemma_mod_division_less_than_divisor(GRANULE as int, ns);
    assert(1 <= k && k * ns <= GRANULE as int) by (nonlinear_arith)
        requires
            GRANULE as int == ns * k + (GRANULE as int) % ns,
            0 <= (GRANULE as int) % ns < ns,
            8 <= ns <= GRANULE as int,
    ;
    assert(pm.wf());
    assert forall|pj: int| 0 <= pj < post.page_seq().len() implies (
    #[trigger] post.page_seq()[pj]).wf() by {
        if pj != idx {
            assert(post.page_seq()[pj] == pre.page_seq()[m(pj)]);
        }
    }
    // every page's class is still registered
    assert forall|pj: int| 0 <= pj < post.page_seq().len() implies exists|cj: int|
        0 <= cj < post.cache_seq().len() && (#[trigger] post.cache_seq()[cj]).layout == (
        #[trigger] post.page_seq()[pj]).layout by {
        if pj == idx {
            assert(post.cache_seq()[ci].layout == post.page_seq()[pj].layout);
        } else {
            let cj = choose|cj: int|
                0 <= cj < pre.cache_seq().len() && (#[trigger] pre.cache_seq()[cj]).layout
                    == pre.page_seq()[m(pj)].layout;
            if cj == ci {
                assert(post.cache_seq()[ci].layout == post.page_seq()[pj].layout);
            } else {
                assert(post.cache_seq()[cj].layout == post.page_seq()[pj].layout);
            }
        }
    }
    // old frames and the new frame are disjoint: the frame's bytes were
    // free in the buddy, no owned byte is
    assert forall|b: int| in_block(f as int, 0, b) implies !pre.owns_byte(b) by {
        if pre.owns_byte(b) {
            assert(buddy_pre.has_byte(b));
        }
    }
    // free slots all lie in a backing frame of their class
    assert forall|cj: int, si: int|
        0 <= cj < post.cache_seq().len() && 0 <= si
            < post.cache_seq()[cj].free_list@.len() implies post.slot_backed(
        #[trigger] post.cache_seq()[cj].free_list@[si],
        post.cache_seq()[cj].layout,
    ) by {
        if cj != ci {
            assert(post.cache_seq()[cj] == pre.cache_seq()[cj]);
            assert(pre.slot_backed(pre.cache_seq()[cj].free_list@[si], pre.cache_seq()[cj].layout));
            let pi = choose|pi: int|
                0 <= pi < pre.page_seq().len() && (#[trigger] pre.page_seq()[pi]).layout
                    == pre.cache_seq()[cj].layout && pre.page_seq()[pi].ptr <= pre.cache_seq()[cj].free_list@[si]
                    && pre.cache_seq()[cj].free_list@[si] + pre.cache_seq()[cj].layout.spec_size()
                    <= pre.page_seq()[pi].ptr + GRANULE && (pre.cache_seq()[cj].free_list@[si]
                    - pre.page_seq()[pi].ptr) % pre.cache_seq()[cj].layout.spec_size() == 0;
            let pj = if pi < idx {
                pi
            } else {
                pi + 1
            };
            assert(post.page_seq()[pj] == pre.page_seq()[pi]);
        } else {
            let slot = post.cache_seq()[ci].free_list@[si];
            assert(slot == f + (k - 1 - si) * ns);
            assert(0 <= (k - 1 - si) * ns && (k - 1 - si) * ns + ns <= k * ns) by (nonlinear_arith)
                requires
                    0 <= si < k,
                    8 <= ns,
            ;
            assert((slot - f) % ns == 0) by {
                lemma_mod_multiples_basic(k - 1 - si, ns);
                assert((k - 1 - si) * ns % ns == 0);
            }
            assert(post.page_seq()[idx].ptr <= slot);
            assert(slot + ns <= post.page_seq()[idx].ptr + GRANULE);
        }
    }
    // distinctness: refilled slots are in the new frame, old slots in
    // old frames, and the two never meet
    assert forall|cj: int, si: int, cl: int, sj: int|
        0 <= cj < post.cache_seq().len() && 0 <= si < post.cache_seq()[cj].free_list@.len() && 0
            <= cl < post.cache_seq().len() && 0 <= sj < post.cache_seq()[cl].free_list@.len() && (cj
            != cl || si != sj) implies #[trigger] post.cache_seq()[cj].free_list@[si]
        != #[trigger] post.cache_seq()[cl].free_list@[sj] by {
        if cj != ci && cl != ci {
            assert(post.cache_seq()[cj] == pre.cache_seq()[cj]);
            assert(post.cache_seq()[cl] == pre.cache_seq()[cl]);
        } else if cj == ci && cl == ci {
            assert((k - 1 - si) * ns != (k - 1 - sj) * ns) by (nonlinear_arith)
                requires
                    si != sj,
                    8 <= ns,
            ;
        } else {
            let (co, so, sn) = if cj == ci {
                (cl, sj, si)
            } else {
                (cj, si, sj)
            };
            // the old slot's byte is owned, the new slot's byte is not
            let oslot = post.cache_seq()[co].free_list@[so];
            assert(post.cache_seq()[co] == pre.cache_seq()[co]);
            assert(pre.slot_backed(pre.cache_seq()[co].free_list@[so], pre.cache_seq()[co].layout));
            let pi = choose|pi: int|
                0 <= pi < pre.page_seq().len() && (#[trigger] pre.page_seq()[pi]).layout
                    == pre.cache_seq()[co].layout && pre.page_seq()[pi].ptr <= pre.cache_seq()[co].free_list@[so]
                    && pre.cache_seq()[co].free_list@[so]
                    + pre.cache_seq()[co].layout.spec_size() <= pre.page_seq()[pi].ptr + GRANULE
                    && (pre.cache_seq()[co].free_list@[so] - pre.page_seq()[pi].ptr)
                    % pre.cache_seq()[co].layout.spec_size() == 0;
            assert(pre.page_seq()[pi].holds_byte(oslot as int)) by {
                assert(pre.cache_seq()[co].layout.spec_size() >= 8);
            }
            assert(pre.owns_byte(oslot as int));
            let nslot = post.cache_seq()[ci].free_list@[sn];
            assert(nslot == f + (k - 1 - sn) * ns);
            assert(0 <= (k - 1 - sn) * ns && (k - 1 - sn) * ns + ns <= k * ns) by (nonlinear_arith)
                requires
                    0 <= sn < k,
                    8 <= ns,
            ;
            assert(in_block(f as int, 0, nslot as int));
            assert(!pre.owns_byte(nslot as int));
        }
    }
    // ownership and compatibility afterwards
    assert forall|b: int|
        #[trigger] post.owns_byte(b) == (pre.owns_byte(b) || in_block(f as int, 0, b)) by {
        if post.owns_byte(b) {
            let pj = choose|pj: int|
                0 <= pj < post.page_seq().len() && (#[trigger] post.page_seq()[pj]).holds_byte(b);
            if pj != idx {
                assert(pre.page_seq()[m(pj)].holds_byte(b));
            }
        }
        if pre.owns_byte(b) {
            let pi = choose|pi: int|
                0 <= pi < pre.page_seq().len() && (#[trigger] pre.page_seq()[pi]).holds_byte(b);
            let pj = if pi < idx {
                pi
            } else {
                pi + 1
            };
            assert(post.page_seq()[pj] == pre.page_seq()[pi]);
            assert(post.page_seq()[pj].holds_byte(b));
        }
        if in_block(f as int, 0, b) {
            assert(post.page_seq()[idx].holds_byte(b));
        }
    }
    assert forall|b: int| #[trigger] post.owns_byte(b) implies !buddy_post.has_byte(b) by {
        if pre.owns_byte(b) {
            assert(!buddy_pre.has_byte(b));
        }
    }
}

/// Popping the newest free slot of a cache and moving one unit from the
/// backing frame's free count to its allocated count keeps the allocator
/// well-formed and owning the same frames.
proof fn lemma_take_slot(pre: SlabAllocator, post: SlabAllocator, ci: int, pidx: int)
    requires
        pre.wf(),
        0 <= ci < pre.cache_seq().len(),
        0 <= pidx < pre.page_seq().len(),
        pre.cache_seq()[ci].free_list@.len() > 0,
        post.cache_seq().len() == pre.cache_seq().len(),
        forall|cj: int|
            0 <= cj < pre.cache_seq().len() && cj != ci ==> #[trigger] post.cache_seq()[cj]
                == pre.cache_seq()[cj],
        post.cache_seq()[ci].layout == pre.cache_seq()[ci].layout,
        post.cache_seq()[ci].free_list@ == pre.cache_seq()[ci].free_list@.drop_last(),
        post.page_seq().len() == pre.page_seq().len(),
        forall|pj: int|
            0 <= pj < pre.page_seq().len() && pj != pidx ==> #[trigger] post.page_seq()[pj]
                == pre.page_seq()[pj],
        post.page_seq()[pidx].ptr == pre.page_seq()[pidx].ptr,
        post.page_seq()[pidx].layout == pre.page_seq()[pidx].layout,
        post.page_seq()[pidx].free + post.page_seq()[pidx].allocated == pre.page_seq()[pidx].free
            + pre.page_seq()[pidx].allocated,
        post.caches.caches.wf(),
        post.pages.pages.wf(),
    ensures
        post.wf(),
        forall|b: int| #[trigger] post.owns_byte(b) == pre.owns_byte(b),
{
    assert forall|cj: int, si: int|
        0 <= cj < post.cache_seq().len() && 0 <= si
            < post.cache_seq()[cj].free_list@.len() implies post.slot_backed(
        #[trigger] post.cache_seq()[cj].free_list@[si],
        post.cache_seq()[cj].layout,
    ) by {
        assert(post.cache_seq()[cj].free_list@[si] == pre.cache_seq()[cj].free_list@[si]);
        assert(post.cache_seq()[cj].layout == pre.cache_seq()[cj].layout);
        assert(pre.slot_backed(pre.cache_seq()[cj].free_list@[si], pre.cache_seq()[cj].layout));
        let l = pre.cache_seq()[cj].layout;
        let pi = choose|pi: int|
            0 <= pi < pre.page_seq().len() && (#[trigger] pre.page_seq()[pi]).layout == l
                && pre.page_seq()[pi].ptr <= pre.cache_seq()[cj].free_list@[si]
                && pre.cache_seq()[cj].free_list@[si] + l.spec_size() <= pre.page_seq()[pi].ptr
                + GRANULE && (pre.cache_seq()[cj].free_list@[si] - pre.page_seq()[pi].ptr)
                % l.spec_size() == 0;
        assert(post.page_seq()[pi].ptr == pre.page_seq()[pi].ptr && post.page_seq()[pi].layout
            == pre.page_seq()[pi].layout);
    }
    assert forall|cj: int, si: int, cl: int, sj: int|
        0 <= cj < post.cache_seq().len() && 0 <= si < post.cache_seq()[cj].free_list@.len() && 0
            <= cl < post.cache_seq().len() && 0 <= sj < post.cache_seq()[cl].free_list@.len() && (cj
            != cl || si != sj) implies #[trigger] post.cache_seq()[cj].free_list@[si]
        != #[trigger] post.cache_seq()[cl].free_list@[sj] by {
        assert(post.cache_seq()[cj].free_list@[si] == pre.cache_seq()[cj].free_list@[si]);
        assert(post.cache_seq()[cl].free_list@[sj] == pre.cache_seq()[cl].free_list@[sj]);
    }
    assert forall|pj: int| 0 <= pj < post.page_seq().len() implies exists|cj: int|
        0 <= cj < post.cache_seq().len() && (#[trigger] post.cache_seq()[cj]).layout == (
        #[trigger] post.page_seq()[pj]).layout by {
        let cj = choose|cj: int|
            0 <= cj < pre.cache_seq().len() && (#[trigger] pre.cache_seq()[cj]).layout
                == pre.page_seq()[pj].layout;
        assert(post.cache_seq()[cj].layout == post.page_seq()[pj].layout);
    }
    assert forall|b: int| #[trigger] post.owns_byte(b) == pre.owns_byte(b) by {
        if post.owns_byte(b) {
            let pj = choose|pj: int|
                0 <= pj < post.page_seq().len() && (#[trigger] post.page_seq()[pj]).holds_byte(b);
            assert(pre.page_seq()[pj].holds_byte(b));
        }
        if pre.owns_byte(b) {
            let pj = choose|pj: int|
                0 <= pj < pre.page_seq().len() && (#[trigger] pre.page_seq()[pj]).holds_byte(b);
            assert(post.page_seq()[pj].holds_byte(b));
        }
    }
}

/// The closest-fit choice: the first cache, in ascending class order,
/// whose size and alignment both dominate the normalized request.
pub open spec fn chosen_cache(cs: Seq<Cache>, ci: int, ns: int, na: int) -> bool {
    &&& 0 <= ci < cs.len()
    &&& cs[ci].layout.spec_size() >= ns
    &&& cs[ci].layout.spec_align() >= na
    &&& forall|j: int|
        0 <= j < ci ==> !((#[trigger] cs[j]).layout.spec_size() >= ns && cs[j].layout.spec_align()
            >= na)
}

/// What a served slab allocation did: the request's closest-fit cache
/// `ci` handed out its newest slot, after at most one frame refill from
/// the buddy allocator. Either the cache had a free slot — it is popped,
/// its frame's occupancy moves one unit from free to allocated, the
/// buddy allocator is untouched — or the cache was empty: one wholly
/// free frame leaves the buddy allocator, a fresh record for it joins
/// the page array, its base is returned and its remaining slots become
/// the cache's free list. Every other cache and page record is
/// unchanged either way.
pub open spec fn slab_served(
    pre: SlabAllocator,
    post: SlabAllocator,
    buddy_pre: Buddy,
    buddy_post: Buddy,
    layout: Layout,
    a: u64,
) -> bool {
    exists|ci: int|
        {
            &&& #[trigger] chosen_cache(pre.cache_seq(), ci, norm_size(layout), norm_align(layout))
            &&& forall|cj: int|
                0 <= cj < pre.cache_seq().len() && cj != ci
                    ==> (#[trigger] post.cache_seq()[cj]).free_list@
                    == pre.cache_seq()[cj].free_list@
            &&& if pre.cache_seq()[ci].free_list@.len() > 0 {
                &&& buddy_post == buddy_pre
                &&& a == pre.cache_seq()[ci].free_list@.last()
                &&& post.cache_seq()[ci].free_list@ == pre.cache_seq()[ci].free_list@.drop_last()
                &&& forall|b: int| #[trigger] post.owns_byte(b) == pre.owns_byte(b)
                &&& exists|pi: int|
                    {
                        &&& 0 <= pi < pre.page_seq().len()
                        &&& (#[trigger] pre.page_seq()[pi]).holds_byte(a as int)
                        &&& pre.page_seq()[pi].layout == pre.cache_seq()[ci].layout
                        &&& pre.page_seq()[pi].free >= 1
                        &&& post.page_seq() == pre.page_seq().update(
                            pi,
                            (PageMeta {
                                ptr: pre.page_seq()[pi].ptr,
                                free: (pre.page_seq()[pi].free - 1) as usize,
                                allocated: (pre.page_seq()[pi].allocated + 1) as usize,
                                layout: pre.page_seq()[pi].layout,
                            }),
                        )
                    }
            } else {
                ({
                    let lc = pre.cache_seq()[ci].layout;
                    let k = GRANULE as int / lc.spec_size();
                    &&& post.cache_seq()[ci].free_list@.len() == k - 1
                    &&& forall|si: int|
                        0 <= si < k - 1 ==> (#[trigger] post.cache_seq()[ci].free_list@[si]) == a
                            + (k - 1 - si) * lc.spec_size()
                    &&& exists|f: u64, idx: int|
                        {
                            &&& a == f
                            &&& valid_block(f as int, 0)
                            &&& (forall|b: int|
                                in_block(f as int, 0, b) ==> buddy_pre.has_byte(b))
                            &&& (forall|b: int|
                                #[trigger] buddy_post.has_byte(b) <==> (buddy_pre.has_byte(b)
                                    && !in_block(f as int, 0, b)))
                            &&& 0 <= idx <= pre.page_seq().len()
                            &&& post.page_seq() == (#[trigger] pre.page_seq().insert(
                                idx,
                                (PageMeta { ptr: f, free: (k - 1) as usize, allocated: 1, layout: lc }),
                            ))
                        }
                })
            }
        }
}

impl SlabAllocator {
    /// Serve a small allocation: normalize the request, pick the closest
    /// dominating cache, refill it with one fresh frame from the buddy
    /// allocator if its free list is empty, and hand out the newest free
    /// slot. The returned address satisfies the requested alignment.
    #[verifier::rlimit(100)]
    pub fn allocate(&mut self, buddy: &mut Buddy, layout: Layout) -> (r: Result<u64, SlabError>)
        requires
            old(self).wf(),
            old(buddy).wf(),
            slab_buddy_compat(*old(self), *old(buddy)),
            layout.wf(),
        ensures
            final(self).wf(),
            final(buddy).wf(),
            slab_buddy_compat(*final(self), *final(buddy)),
            final(self).cache_seq().len() == old(self).cache_seq().len(),
            forall|cj: int|
                0 <= cj < old(self).cache_seq().len() ==> (#[trigger] final(self).cache_seq()[cj]).layout
                    == old(self).cache_seq()[cj].layout,
            match r {
                Ok(a) => {
                    &&& a as int % layout.spec_align() == 0
                    &&& a as int % norm_align(layout) == 0
                    &&& final(self).owns_byte(a as int)
                    &&& slab_served(
                        *old(self),
                        *final(self),
                        *old(buddy),
                        *final(buddy),
                        layout,
                        a,
                    )
                },
                Err(SlabError::NoCache) => {
                    &&& final(self).cache_seq() == old(self).cache_seq()
                    &&& final(self).page_seq() == old(self).page_seq()
                    &&& *final(buddy) == *old(buddy)
                    &&& forall|ci: int|
                        0 <= ci < old(self).cache_seq().len() ==> !((#[trigger] old(
                            self,
                        ).cache_seq()[ci]).layout.spec_size() >= norm_size(layout) && old(
                            self,
                        ).cache_seq()[ci].layout.spec_align() >= norm_align(layout))
                },
                Err(SlabError::OutOfMemory) => {
                    &&& final(self).cache_seq() == old(self).cache_seq()
                    &&& final(self).page_seq() == old(self).page_seq()
                    &&& *final(buddy) == *old(buddy)
                    &&& forall|o: int|
                        0 <= o < crate::order::ORDER_COUNT ==> #[trigger] old(buddy).list(o).len()
                            == 0
                },
                Err(SlabError::UntrackedPointer) => false,
                Err(SlabError::DoubleFree) => false,
                Err(SlabError::CountMismatch) => {
                    &&& final(self).cache_seq() == old(self).cache_seq()
                    &&& final(self).page_seq() == old(self).page_seq()
                    &&& *final(buddy) == *old(buddy)
                    &&& exists|ci: int, pi: int|
                        {
                            &&& #[trigger] chosen_cache(
                                old(self).cache_seq(),
                                ci,
                                norm_size(layout),
                                norm_align(layout),
                            )
                            &&& old(self).cache_seq()[ci].free_list@.len() > 0
                            &&& 0 <= pi < old(self).page_seq().len()
                            &&& (#[trigger] old(self).page_seq()[pi]).holds_byte(
                                old(self).cache_seq()[ci].free_list@.last() as int,
                            )
                            &&& old(self).page_seq()[pi].free == 0
                        }
                },
            },
    {
        proof {
            lemma_norm_size(layout);
        }
        if layout.size() > GRANULE || layout.align() > GRANULE {
            proof {
                assert forall|ci: int| 0 <= ci < self.cache_seq().len() implies !((#[trigger] self
                    .cache_seq()[ci]).layout.spec_size() >= norm_size(layout) && self.cache_seq()[ci].layout.spec_align()
                    >= norm_align(layout)) by {
                    assert(self.cache_seq()[ci].wf());
                }
            }
            return Err(SlabError::NoCache);
        }
        let norm = Self::round_layout(layout);
        let ci = match self.find_closest_cache(norm) {
            Some(ci) => ci,
            None => {
                return Err(SlabError::NoCache);
            },
        };
        let ghost pre = *self;
        let ghost buddy_pre = *buddy;
        let ghost refilled = pre.cache_seq()[ci as int].free_list@.len() == 0;
        proof {
            assert forall|pi: int, b: int|
                #![trigger self.pages.pages@[pi].holds_byte(b)]
                0 <= pi < self.pages.pages@.len() && self.pages.pages@[pi].holds_byte(
                    b,
                ) implies !buddy.has_byte(b) by {
                assert(self.page_seq()[pi].holds_byte(b));
                assert(self.owns_byte(b));
            }
        }
        if self.caches.caches.get(ci).free_list.len() == 0 {
            let c = self.caches.caches.get_mut(ci);
            let res = self.pages.allocate_new_page(buddy, c);
            proof {
                if res is Err {
                    assert(*c == pre.cache_seq()[ci as int]);
                    assert(self.caches.caches@ =~= pre.caches.caches@);
                    assert(self.cache_seq() == pre.cache_seq());
                }
            }
            match res {
                Ok(()) => {},
                Err(e) => {
                    return Err(e);
                },
            }
            proof {
                let (f, idx) = choose|f: u64, idx: int|
                    #[trigger] refill_ok(
                        pre.page_seq(),
                        self.page_seq(),
                        buddy_pre,
                        *buddy,
                        pre.cache_seq()[ci as int].layout,
                        self.cache_seq()[ci as int],
                        f,
                        idx,
                    );
                lemma_refill_wf(pre, *self, buddy_pre, *buddy, ci as int, f, idx);
            }
        }
        let ghost mid = *self;
        let n = self.caches.caches.get(ci).free_list.len();
        proof {
            if refilled {
                let ns0 = pre.cache_seq()[ci as int].layout.spec_size();
                lemma_fundamental_div_mod(GRANULE as int, ns0);
                lemma_mod_division_less_than_divisor(GRANULE as int, ns0);
                assert(GRANULE as int / ns0 >= 1) by (nonlinear_arith)
                    requires
                        GRANULE as int == ns0 * (GRANULE as int / ns0) + (GRANULE as int) % ns0,
                        0 <= (GRANULE as int) % ns0 < ns0,
                        8 <= ns0 <= GRANULE as int,
                ;
            }
            assert(n > 0);
        }
        let slot = self.caches.caches.get(ci).free_list[n - 1];
        proof {
            assert(mid.slot_backed(slot, mid.cache_seq()[ci as int].layout));
        }
        let base = page_base(slot);
        let ghost gpi = choose|pi: int|
            0 <= pi < mid.page_seq().len() && (#[trigger] mid.page_seq()[pi]).layout
                == mid.cache_seq()[ci as int].layout && mid.page_seq()[pi].ptr <= slot && slot
                + mid.cache_seq()[ci as int].layout.spec_size() <= mid.page_seq()[pi].ptr + GRANULE
                && (slot - mid.page_seq()[pi].ptr) % mid.cache_seq()[
                ci as int
            ].layout.spec_size() == 0;
        proof {
            lemma_slot_base(mid.page_seq()[gpi].ptr as int, slot as int);
            assert(base == mid.page_seq()[gpi].ptr);
        }
        let pidx = match self.pages.search_page(base) {
            Ok(i) => i,
            Err(i) => {
                proof {
                    assert(mid.page_seq()[gpi].ptr == base);
                    assert(false);
                }
                i
            },
        };
        proof {
            // sorted page records make the hit unique: it is the backing
            // frame itself
            assert(pidx as int == gpi) by {
                if pidx as int != gpi {
                    assert(mid.page_seq()[pidx as int].ptr == mid.page_seq()[gpi].ptr);
                }
            }
        }
        let pm = *self.pages.pages.get(pidx);
        if pm.free == 0 {
            proof {
                // a refilled frame starts with every slot free, so this
                // can only happen before any refill
                if refilled {
                    let (f, idx) = choose|f: u64, idx: int|
                        #[trigger] refill_ok(
                            pre.page_seq(),
                            mid.page_seq(),
                            buddy_pre,
                            *buddy,
                            pre.cache_seq()[ci as int].layout,
                            mid.cache_seq()[ci as int],
                            f,
                            idx,
                        );
                    let ns = pre.cache_seq()[ci as int].layout.spec_size();
                    assert(mid.cache_seq()[ci as int].free_list@.len() == GRANULE as int / ns);
                    assert(n == GRANULE as int / ns);
                    assert(mid.cache_seq()[ci as int].free_list@[n - 1] == f + (GRANULE as int / ns
                        - 1 - (n - 1)) * ns);
                    assert((GRANULE as int / ns - 1 - (n - 1)) == 0);
                    assert(slot == f);
                    assert(mid.page_seq()[idx].ptr == f);
                    assert(gpi == idx) by {
                        if gpi != idx {
                            assert(mid.page_seq()[gpi].ptr == mid.page_seq()[idx].ptr);
                        }
                    }
                    lemma_fundamental_div_mod(GRANULE as int, ns);
                    lemma_mod_division_less_than_divisor(GRANULE as int, ns);
                    assert(GRANULE as int / ns >= 1) by (nonlinear_arith)
                        requires
                            GRANULE as int == ns * (GRANULE as int / ns) + (GRANULE as int) % ns,
                            0 <= (GRANULE as int) % ns < ns,
                            8 <= ns <= GRANULE as int,
                    ;
                    assert(false);
                }
                // before any refill the state is untouched and the
                // chosen cache's newest slot names a zero-free frame
                assert(*self == pre);
                assert(chosen_cache(
                    pre.cache_seq(),
                    ci as int,
                    norm_size(layout),
                    norm_align(layout),
                ));
                assert(pre.cache_seq()[ci as int].free_list@.len() > 0);
                assert(slot == pre.cache_seq()[ci as int].free_list@.last());
                assert(pre.cache_seq()[ci as int].layout.spec_size() >= 8) by {
                    assert(pre.cache_seq()[ci as int].wf());
                }
                assert(pre.page_seq()[pidx as int].holds_byte(slot as int));
                assert(pre.page_seq()[pidx as int].free == 0);
            }
            return Err(SlabError::CountMismatch);
        }
        let mut pm2 = pm;
        pm2.free = pm2.free - 1;
        pm2.allocated = pm2.allocated + 1;
        self.pages.pages.set(pidx, pm2);
        let c = self.caches.caches.get_mut(ci);
        let a = match c.free_list.pop() {
            Some(x) => x,
            None => {
                proof {
                    assert(false);
                }
                return Err(SlabError::CountMismatch);
            },
        };
        proof {
            lemma_take_slot(mid, *self, ci as int, pidx as int);
            // the slot is aligned to its class, hence to the request
            let l = mid.cache_seq()[ci as int].layout;
            let p = mid.page_seq()[gpi].ptr as int;
            crate::order::lemma_order_size_values();
            assert(is_pow2(GRANULE as int)) by {
                reveal_with_fuel(is_pow2, 14);
            }
            crate::layout::lemma_pow2_mod_trans(p, l.spec_align(), GRANULE as int);
            let off = slot as int - p;
            assert(mid.cache_seq()[ci as int].wf());
            assert(off % l.spec_size() == 0);
            lemma_fundamental_div_mod(off, l.spec_size());
            let q = off / l.spec_size();
            let u = l.spec_size() / l.spec_align();
            lemma_fundamental_div_mod(l.spec_size(), l.spec_align());
            assert(l.spec_size() == l.spec_align() * u);
            assert(off == (q * u) * l.spec_align()) by (nonlinear_arith)
                requires
                    off == l.spec_size() * q,
                    l.spec_size() == l.spec_align() * u,
            ;
            lemma_mod_multiples_basic(q * u, l.spec_align());
            assert(off % l.spec_align() == 0) by {
                assert((q * u) * l.spec_align() % l.spec_align() == 0);
            }
            lemma_add_mod_noop(p, off, l.spec_align());
            lemma_small_mod(0, l.spec_align() as nat);
            assert((slot as int) % l.spec_align() == 0);
            // and the request's alignment divides the class's
            assert(norm_align(layout) <= l.spec_align());
            if layout.spec_align() < l.spec_align() {
                crate::layout::lemma_pow2_mod_trans(
                    slot as int,
                    layout.spec_align(),
                    l.spec_align(),
                );
            }
            // likewise the normalized alignment, itself a power of two
            assert(is_pow2(norm_align(layout))) by {
                if layout.spec_align() < 8 {
                    reveal_with_fuel(is_pow2, 5);
                }
            }
            if norm_align(layout) < l.spec_align() {
                crate::layout::lemma_pow2_mod_trans(
                    slot as int,
                    norm_align(layout),
                    l.spec_align(),
                );
            }
            assert((slot as int) % norm_align(layout) == 0);
            assert(a == slot);
            assert(final(self).owns_byte(a as int)) by {
                assert(self.page_seq()[gpi].holds_byte(a as int));
            }
            // the executable index is the closest-fit choice, and the
            // final state is the served-from-it state the contract names
            let gci = ci as int;
            assert(pre == *old(self));
            assert(chosen_cache(
                old(self).cache_seq(),
                gci,
                norm_size(layout),
                norm_align(layout),
            ));
            assert forall|cj: int|
                0 <= cj < pre.cache_seq().len() && cj != gci implies (#[trigger] self.cache_seq()[cj]).free_list@
                == pre.cache_seq()[cj].free_list@ by {
                assert(mid.cache_seq()[cj] == pre.cache_seq()[cj]);
                assert(self.cache_seq()[cj] == mid.cache_seq()[cj]);
            }
            if !refilled {
                assert(mid == pre);
                assert(a == pre.cache_seq()[gci].free_list@.last());
                assert(self.cache_seq()[gci].free_list@ == pre.cache_seq()[
                gci
                ].free_list@.drop_last());
                assert(self.page_seq().len() == pre.page_seq().len());
                // the serving frame's record moves one unit from free to
                // allocated; every other record is untouched
                assert(pre.page_seq()[gpi].free >= 1);
                assert(pre.page_seq()[gpi].layout == pre.cache_seq()[gci].layout);
                assert(pre.page_seq()[gpi].holds_byte(a as int));
                assert(pm2 == (PageMeta {
                    ptr: pre.page_seq()[gpi].ptr,
                    free: (pre.page_seq()[gpi].free - 1) as usize,
                    allocated: (pre.page_seq()[gpi].allocated + 1) as usize,
                    layout: pre.page_seq()[gpi].layout,
                }));
                assert(self.page_seq() =~= pre.page_seq().update(gpi, pm2));
            } else {
                let (f, idx) = choose|f: u64, idx: int|
                    #[trigger] refill_ok(
                        pre.page_seq(),
                        mid.page_seq(),
                        buddy_pre,
                        *buddy,
                        pre.cache_seq()[gci].layout,
                        mid.cache_seq()[gci],
                        f,
                        idx,
                    );
                pre.page_seq().insert_ensures(
                    idx,
                    (PageMeta {
                        ptr: f,
                        free: (GRANULE as int / pre.cache_seq()[gci].layout.spec_size()) as usize,
                        allocated: 0,
                        layout: pre.cache_seq()[gci].layout,
                    }),
                );
                assert(mid.page_seq().len() == pre.page_seq().len() + 1);
                assert(self.page_seq().len() == mid.page_seq().len());
                assert(self.cache_seq()[gci].free_list@.len() == GRANULE as int / pre.cache_seq()[
                gci
                ].layout.spec_size() - 1);
                assert(valid_block(f as int, 0) && (forall|b: int|
                    in_block(f as int, 0, b) ==> buddy_pre.has_byte(b)) && (forall|b: int|
                    #[trigger] buddy.has_byte(b) <==> (buddy_pre.has_byte(b) && !in_block(
                        f as int,
                        0,
                        b,
                    ))));
                // the popped slot is the refilled frame's base, and the
                // frame's fresh record moves one unit to allocated
                let lc = pre.cache_seq()[gci].layout;
                let ns = lc.spec_size();
                let k = GRANULE as int / ns;
                assert(n == k);
                pre.page_seq().insert_ensures(idx, pm2);
                assert(mid.cache_seq()[gci].free_list@[n - 1] == f + (k - 1 - (n - 1)) * ns);
                assert((k - 1 - (n - 1)) * ns == 0) by (nonlinear_arith)
                    requires
                        k - 1 - (n - 1) == 0,
                ;
                assert(slot == f);
                assert(mid.page_seq()[idx].ptr == f);
                assert(gpi == idx) by {
                    if gpi != idx {
                        assert(mid.page_seq()[gpi].ptr == mid.page_seq()[idx].ptr);
                    }
                }
                assert(mid.page_seq()[idx] == (PageMeta {
                    ptr: f,
                    free: k as usize,
                    allocated: 0,
                    layout: lc,
                }));
                assert(pm2 == (PageMeta { ptr: f, free: (k - 1) as usize, allocated: 1, layout: lc }));
                assert(self.page_seq() =~= pre.page_seq().insert(idx, pm2));
                assert forall|si: int| 0 <= si < k - 1 implies #[trigger] self.cache_seq()[
                gci
                ].free_list@[si] == a + (k - 1 - si) * ns by {
                    assert(self.cache_seq()[gci].free_list@[si] == mid.cache_seq()[
                    gci
                    ].free_list@[si]);
                    assert(mid.cache_seq()[gci].free_list@[si] == f + (k - 1 - si) * ns);
                }
            }
        }
        Ok(a)
    }
}

impl SlabAllocator {
    /// `ptr` sits on some cache's free list.
    pub open spec fn slot_listed(self, ptr: u64) -> bool {
        exists|ci: int, si: int|
            0 <= ci < self.cache_seq().len() && 0 <= si < self.cache_seq()[ci].free_list@.len()
                && (#[trigger] self.cache_seq()[ci].free_list@[si]) == ptr
    }

    /// `ptr` has the shape of a slot of the frame holding it: it sits at
    /// a slot-aligned offset and a whole slot fits behind it.
    pub open spec fn slot_shaped(self, ptr: u64) -> bool {
        exists|pi: int|
            0 <= pi < self.page_seq().len() && (#[trigger] self.page_seq()[pi]).holds_byte(
                ptr as int,
            ) && (ptr - self.page_seq()[pi].ptr) % self.page_seq()[pi].layout.spec_size() == 0
                && ptr + self.page_seq()[pi].layout.spec_size() <= self.page_seq()[pi].ptr + GRANULE
    }
}

/// Pushing a live slot back on the cache of its frame's class, moving
/// one unit of the frame's occupancy from allocated to free, keeps the
/// allocator well-formed and owning the same frames.
proof fn lemma_return_slot(pre: SlabAllocator, post: SlabAllocator, ci: int, pidx: int, ptr: u64)
    requires
        pre.wf(),
        0 <= ci < pre.cache_seq().len(),
        0 <= pidx < pre.page_seq().len(),
        pre.page_seq()[pidx].holds_byte(ptr as int),
        (ptr - pre.page_seq()[pidx].ptr) % pre.page_seq()[pidx].layout.spec_size() == 0,
        ptr + pre.page_seq()[pidx].layout.spec_size() <= pre.page_seq()[pidx].ptr + GRANULE,
        pre.cache_seq()[ci].layout == pre.page_seq()[pidx].layout,
        !pre.slot_listed(ptr),
        post.cache_seq().len() == pre.cache_seq().len(),
        forall|cj: int|
            0 <= cj < pre.cache_seq().len() && cj != ci ==> #[trigger] post.cache_seq()[cj]
                == pre.cache_seq()[cj],
        post.cache_seq()[ci].layout == pre.cache_seq()[ci].layout,
        post.cache_seq()[ci].free_list@ == pre.cache_seq()[ci].free_list@.push(ptr),
        post.page_seq().len() == pre.page_seq().len(),
        forall|pj: int|
            0 <= pj < pre.page_seq().len() && pj != pidx ==> #[trigger] post.page_seq()[pj]
                == pre.page_seq()[pj],
        post.page_seq()[pidx].ptr == pre.page_seq()[pidx].ptr,
        post.page_seq()[pidx].layout == pre.page_seq()[pidx].layout,
        post.page_seq()[pidx].free + post.page_seq()[pidx].allocated == pre.page_seq()[pidx].free
            + pre.page_seq()[pidx].allocated,
        post.caches.caches.wf(),
        post.pages.pages.wf(),
    ensures
        post.wf(),
        forall|b: int| #[trigger] post.owns_byte(b) == pre.owns_byte(b),
{
    let nlen = pre.cache_seq()[ci].free_list@.len() as int;
    assert forall|cj: int, si: int|
        0 <= cj < post.cache_seq().len() && 0 <= si
            < post.cache_seq()[cj].free_list@.len() implies post.slot_backed(
        #[trigger] post.cache_seq()[cj].free_list@[si],
        post.cache_seq()[cj].layout,
    ) by {
        if cj == ci && si == nlen {
            assert(post.cache_seq()[cj].free_list@[si] == ptr);
            assert(post.page_seq()[pidx].layout == post.cache_seq()[ci].layout);
            assert(post.page_seq()[pidx].ptr == pre.page_seq()[pidx].ptr);
        } else {
            assert(post.cache_seq()[cj].free_list@[si] == pre.cache_seq()[cj].free_list@[si]);
            assert(pre.slot_backed(
                pre.cache_seq()[cj].free_list@[si],
                pre.cache_seq()[cj].layout,
            ));
            let l = pre.cache_seq()[cj].layout;
            let pi = choose|pi: int|
                0 <= pi < pre.page_seq().len() && (#[trigger] pre.page_seq()[pi]).layout == l
                    && pre.page_seq()[pi].ptr <= pre.cache_seq()[cj].free_list@[si]
                    && pre.cache_seq()[cj].free_list@[si] + l.spec_size() <= pre.page_seq()[pi].ptr
                    + GRANULE && (pre.cache_seq()[cj].free_list@[si] - pre.page_seq()[pi].ptr)
                    % l.spec_size() == 0;
            assert(post.page_seq()[pi].ptr == pre.page_seq()[pi].ptr && post.page_seq()[pi].layout
                == pre.page_seq()[pi].layout);
        }
    }
    assert forall|cj: int, si: int, cl: int, sj: int|
        0 <= cj < post.cache_seq().len() && 0 <= si < post.cache_seq()[cj].free_list@.len() && 0
            <= cl < post.cache_seq().len() && 0 <= sj < post.cache_seq()[cl].free_list@.len() && (cj
            != cl || si != sj) implies #[trigger] post.cache_seq()[cj].free_list@[si]
        != #[trigger] post.cache_seq()[cl].free_list@[sj] by {
        if cj == ci && si == nlen {
            assert(post.cache_seq()[cl].free_list@[sj] == pre.cache_seq()[cl].free_list@[sj]);
        } else if cl == ci && sj == nlen {
            assert(post.cache_seq()[cj].free_list@[si] == pre.cache_seq()[cj].free_list@[si]);
        } else {
            assert(post.cache_seq()[cj].free_list@[si] == pre.cache_seq()[cj].free_list@[si]);
            assert(post.cache_seq()[cl].free_list@[sj] == pre.cache_seq()[cl].free_list@[sj]);
        }
    }
    assert forall|pj: int| 0 <= pj < post.page_seq().len() implies exists|cj: int|
        0 <= cj < post.cache_seq().len() && (#[trigger] post.cache_seq()[cj]).layout == (
        #[trigger] post.page_seq()[pj]).layout by {
        let cj = choose|cj: int|
            0 <= cj < pre.cache_seq().len() && (#[trigger] pre.cache_seq()[cj]).layout
                == pre.page_seq()[pj].layout;
        assert(post.cache_seq()[cj].layout == post.page_seq()[pj].layout);
    }
    assert forall|b: int| #[trigger] post.owns_byte(b) == pre.owns_byte(b) by {
        if post.owns_byte(b) {
            let pj = choose|pj: int|
                0 <= pj < post.page_seq().len() && (#[trigger] post.page_seq()[pj]).holds_byte(b);
            assert(pre.page_seq()[pj].holds_byte(b));
        }
        if pre.owns_byte(b) {
            let pj = choose|pj: int|
                0 <= pj < pre.page_seq().len() && (#[trigger] pre.page_seq()[pj]).holds_byte(b);
            assert(post.page_seq()[pj].holds_byte(b));
        }
    }
}

/// What a served slab free did: the slot rejoined the free list of its
/// frame's cache, and the frame's occupancy moved one unit from
/// allocated back to free. Every other cache and page record is
/// unchanged.
pub open spec fn slot_returned(pre: SlabAllocator, post: SlabAllocator, ptr: u64) -> bool {
    exists|pi: int, ci: int|
        {
            &&& 0 <= pi < pre.page_seq().len()
            &&& (#[trigger] pre.page_seq()[pi]).holds_byte(ptr as int)
            &&& 0 <= ci < pre.cache_seq().len()
            &&& (#[trigger] pre.cache_seq()[ci]).layout == pre.page_seq()[pi].layout
            &&& post.cache_seq()[ci].free_list@ == pre.cache_seq()[ci].free_list@.push(ptr)
            &&& forall|cj: int|
                0 <= cj < pre.cache_seq().len() && cj != ci
                    ==> (#[trigger] post.cache_seq()[cj]).free_list@
                    == pre.cache_seq()[cj].free_list@
            &&& pre.page_seq()[pi].allocated >= 1
            &&& post.page_seq() == pre.page_seq().update(
                pi,
                (PageMeta {
                    ptr: pre.page_seq()[pi].ptr,
                    free: (pre.page_seq()[pi].free + 1) as usize,
                    allocated: (pre.page_seq()[pi].allocated - 1) as usize,
                    layout: pre.page_seq()[pi].layout,
                }),
            )
        }
}

impl SlabAllocator {
    /// Return one object slot. The frame holding `ptr` is looked up by
    /// masking the address down to its base; its occupancy moves one
    /// unit from allocated to free and the slot rejoins the free list of
    /// the cache serving the frame's class. An address in no carved
    /// frame, or one already sitting on its cache's free list (a double
    /// free), is reported and the state left untouched; frames are never
    /// returned to the buddy allocator here.
    pub fn free(&mut self, ptr: u64, layout: Layout) -> (r: Result<(), SlabError>)
        requires
            old(self).wf(),
            old(self).owns_byte(ptr as int) ==> old(self).slot_shaped(ptr),
        ensures
            final(self).wf(),
            final(self).cache_seq().len() == old(self).cache_seq().len(),
            forall|cj: int|
                0 <= cj < old(self).cache_seq().len() ==> (#[trigger] final(self).cache_seq()[cj]).layout
                    == old(self).cache_seq()[cj].layout,
            forall|b: int| #[trigger] final(self).owns_byte(b) == old(self).owns_byte(b),
            match r {
                Ok(()) => {
                    &&& old(self).owns_byte(ptr as int)
                    &&& !old(self).slot_listed(ptr)
                    &&& slot_returned(*old(self), *final(self), ptr)
                },
                Err(SlabError::UntrackedPointer) => {
                    &&& !old(self).owns_byte(ptr as int)
                    &&& final(self).cache_seq() == old(self).cache_seq()
                    &&& final(self).page_seq() == old(self).page_seq()
                },
                Err(SlabError::DoubleFree) => {
                    &&& old(self).owns_byte(ptr as int)
                    &&& old(self).slot_listed(ptr)
                    &&& final(self).cache_seq() == old(self).cache_seq()
                    &&& final(self).page_seq() == old(self).page_seq()
                },
                Err(SlabError::CountMismatch) => {
                    &&& final(self).cache_seq() == old(self).cache_seq()
                    &&& final(self).page_seq() == old(self).page_seq()
                    &&& exists|pi: int|
                        0 <= pi < old(self).page_seq().len() && (#[trigger] old(
                            self,
                        ).page_seq()[pi]).holds_byte(ptr as int) && old(
                            self,
                        ).page_seq()[pi].allocated == 0
                },
                _ => false,
            },
    {
        let ghost pre = *self;
        let base = page_base(ptr);
        proof {
            assert(self.pages.pages@ == self.page_seq());
        }
        let pidx = match self.pages.search_page(base) {
            Ok(i) => i,
            Err(i) => {
                proof {
                    // an owned byte's frame would have been found
                    if pre.owns_byte(ptr as int) {
                        let pi = choose|pi: int|
                            0 <= pi < pre.page_seq().len() && (#[trigger] pre.page_seq()[pi]).holds_byte(
                                ptr as int,
                            );
                        lemma_slot_base(pre.page_seq()[pi].ptr as int, ptr as int);
                        assert(pre.page_seq()[pi].ptr == base);
                        assert(false);
                    }
                }
                return Err(SlabError::UntrackedPointer);
            },
        };
        proof {
            lemma_mod_division_less_than_divisor(ptr as int, GRANULE as int);
            assert(pre.page_seq()[pidx as int].holds_byte(ptr as int));
            assert(pre.owns_byte(ptr as int));
        }
        let pm = *self.pages.pages.get(pidx);
        if pm.allocated == 0 {
            return Err(SlabError::CountMismatch);
        }
        proof {
            assert(self.caches.caches@ == self.cache_seq());
        }
        let cidx = match self.caches.search_cache(pm.layout) {
            Ok(i) => i,
            Err(_) => {
                proof {
                    // the page's class is always registered
                    let cj = choose|cj: int|
                        0 <= cj < pre.cache_seq().len() && (#[trigger] pre.cache_seq()[cj]).layout
                            == pre.page_seq()[pidx as int].layout;
                    assert(false);
                }
                return Err(SlabError::NoCache);
            },
        };
        // a slot already on its cache's free list is a double free: the
        // frame's class has exactly one cache, so one scan decides it
        match find_index(&self.caches.caches.get(cidx).free_list, ptr) {
            Some(si) => {
                proof {
                    assert(pre.cache_seq()[cidx as int].free_list@[si as int] == ptr);
                }
                return Err(SlabError::DoubleFree);
            },
            None => {},
        }
        proof {
            assert(!pre.slot_listed(ptr)) by {
                if pre.slot_listed(ptr) {
                    let (cj, sj) = choose|cj: int, sj: int|
                        0 <= cj < pre.cache_seq().len() && 0 <= sj < pre.cache_seq()[cj].free_list@.len()
                            && (#[trigger] pre.cache_seq()[cj].free_list@[sj]) == ptr;
                    assert(pre.slot_backed(
                        pre.cache_seq()[cj].free_list@[sj],
                        pre.cache_seq()[cj].layout,
                    ));
                    let l = pre.cache_seq()[cj].layout;
                    let pj = choose|pj: int|
                        0 <= pj < pre.page_seq().len() && (#[trigger] pre.page_seq()[pj]).layout
                            == l && pre.page_seq()[pj].ptr <= ptr && ptr + l.spec_size()
                            <= pre.page_seq()[pj].ptr + GRANULE && (ptr - pre.page_seq()[pj].ptr)
                            % l.spec_size() == 0;
                    assert(pre.cache_seq()[cj].wf());
                    lemma_slot_base(pre.page_seq()[pj].ptr as int, ptr as int);
                    assert(pre.page_seq()[pj].ptr == base);
                    // the frame holding the slot is the one found by search
                    assert(pj == pidx as int) by {
                        if pj != pidx as int {
                            assert(pre.page_seq()[pj].ptr == pre.page_seq()[pidx as int].ptr);
                        }
                    }
                    // and its class has exactly one cache in the sorted array
                    assert(pre.cache_seq()[cj].layout == pre.cache_seq()[cidx as int].layout);
                    assert(cj == cidx as int) by {
                        if cj < cidx as int {
                            assert(layout_lt(
                                pre.cache_seq()[cj].layout,
                                pre.cache_seq()[cidx as int].layout,
                            ));
                        } else if cj > cidx as int {
                            assert(layout_lt(
                                pre.cache_seq()[cidx as int].layout,
                                pre.cache_seq()[cj].layout,
                            ));
                        }
                    }
                    assert(false);
                }
            }
        }
        let mut pm2 = pm;
        proof {
            // the frame's slot count bounds its free count
            lemma_fundamental_div_mod(GRANULE as int, pm.layout.spec_size());
            lemma_mod_division_less_than_divisor(GRANULE as int, pm.layout.spec_size());
            assert(GRANULE as int / pm.layout.spec_size() <= GRANULE) by (nonlinear_arith)
                requires
                    GRANULE as int == pm.layout.spec_size() * (GRANULE as int
                        / pm.layout.spec_size()) + (GRANULE as int) % pm.layout.spec_size(),
                    0 <= (GRANULE as int) % pm.layout.spec_size() < pm.layout.spec_size(),
                    8 <= pm.layout.spec_size() <= GRANULE as int,
            ;
        }
        pm2.free = pm2.free + 1;
        pm2.allocated = pm2.allocated - 1;
        self.pages.pages.set(pidx, pm2);
        let ghost gpidx = pidx as int;
        let ghost gcidx = cidx as int;
        let c = self.caches.caches.get_mut(cidx);
        c.free_list.push(ptr);
        proof {
            // the slot's shape was given for its own frame, which sorted
            // search found uniquely
            let spi = choose|pi: int|
                0 <= pi < pre.page_seq().len() && (#[trigger] pre.page_seq()[pi]).holds_byte(
                    ptr as int,
                ) && (ptr - pre.page_seq()[pi].ptr) % pre.page_seq()[pi].layout.spec_size() == 0
                    && ptr + pre.page_seq()[pi].layout.spec_size() <= pre.page_seq()[pi].ptr
                    + GRANULE;
            lemma_slot_base(pre.page_seq()[spi].ptr as int, ptr as int);
            assert(spi == gpidx) by {
                if spi != gpidx {
                    assert(pre.page_seq()[spi].ptr == pre.page_seq()[gpidx].ptr);
                }
            }
            lemma_return_slot(pre, *self, gcidx, gpidx, ptr);
            assert(pre == *old(self));
            assert(old(self).page_seq()[gpidx].holds_byte(ptr as int));
            assert(old(self).cache_seq()[gcidx].layout == old(self).page_seq()[gpidx].layout);
            assert forall|cj: int|
                0 <= cj < old(self).cache_seq().len() && cj != gcidx implies (#[trigger] self
                .cache_seq()[cj]).free_list@ == old(self).cache_seq()[cj].free_list@ by {
                assert(self.cache_seq()[cj] == pre.cache_seq()[cj]);
            }
            assert(pm2 == (PageMeta {
                ptr: pre.page_seq()[gpidx].ptr,
                free: (pre.page_seq()[gpidx].free + 1) as usize,
                allocated: (pre.page_seq()[gpidx].allocated - 1) as usize,
                layout: pre.page_seq()[gpidx].layout,
            }));
            assert(self.page_seq() == pre.page_seq().update(gpidx, pm2));
        }
        Ok(())
    }
}

/// Mask an arbitrary address down to the base of the frame holding it.
fn page_base(ptr: u64) -> (r: u64)
    ensures
        r == ptr - (ptr as int % (GRANULE as int)),
        r as int % (GRANULE as int) == 0,
{
    let r = ptr - ptr % GRANULE;
    proof {
        lemma_fundamental_div_mod(ptr as int, GRANULE as int);
        lemma_mod_multiples_basic(ptr as int / (GRANULE as int), GRANULE as int);
        assert((ptr as int / (GRANULE as int)) * (GRANULE as int) == (GRANULE as int) * (
        ptr as int / (GRANULE as int)));
    }
    r
}

} // verus!
