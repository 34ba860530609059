//! The buddy allocator: the leaf allocator of physical memory.
//!
//! The whole flat physical span is managed as power-of-two-sized blocks.
//! The entire state is one free list per order, holding the addresses of
//! the free blocks of that order. Three invariants carry every guarantee
//! the allocator gives: every listed block is aligned to its own size,
//! the listed blocks are pairwise disjoint, and no block sits in the same
//! list as its buddy (a buddy pair is always merged into the next order).

use vstd::prelude::*;

verus! {

use crate::order::{
    GRANULE, MAX_ORDER, ORDER_COUNT, order_size_spec, block_aligned, valid_block, in_block,
    blocks_overlap, buddy_addr, order_size, order_aligned, max_order_of_ptr, max_order_of_size,
    round_up_order_of_size, order_for_size, effective_order, lemma_aligned_fits,
    lemma_order_size_pos, lemma_order_size_double, lemma_order_size_increases,
    lemma_order_size_values, lemma_buddy_properties, lemma_xor_buddy, lemma_order_for_size_rec,
    lemma_fit_order_rec, lemma_align_order_rec,
};
use crate::layout::Layout;

/// A condition under which the allocator cannot safely continue: the
/// caller handed back a block that violates the allocator's contract.
/// The kernel is expected to halt on any of these.
#[derive(Clone, Copy, Debug, PartialEq, Eq, Structural)]
pub enum BuddyError {
    /// The freed address is not aligned to the order it was freed at.
    Unaligned,
    /// The freed block is already on a free list.
    DoubleFree,
    /// The freed order is past `MAX_ORDER`, or coalescing tried to build
    /// a block larger than the whole address space.
    OrderTooLarge,
}

/// State of the buddy allocator: one free list of block addresses per
/// order. Born empty; populated only by explicit frees.
pub struct Buddy {
    free_area: Vec<Vec<u64>>,
}

impl Buddy {
    /// The free list of the given order, as the sequence of block base
    /// addresses it holds.
    pub closed spec fn list(self, o: int) -> Seq<u64> {
        self.free_area@[o]@
    }

    /// Number of free lists kept; always `ORDER_COUNT` in a well-formed
    /// allocator.
    pub closed spec fn num_orders(self) -> int {
        self.free_area@.len() as int
    }

    /// Every listed block is a valid block of its order: aligned to its
    /// own size and inside the address space.
    pub open spec fn blocks_valid(self) -> bool {
        forall|o: int, i: int|
            0 <= o < ORDER_COUNT && 0 <= i < self.list(o).len() ==> valid_block(
                #[trigger] self.list(o)[i] as int,
                o,
            )
    }

    /// No byte is covered by two listed blocks.
    pub open spec fn blocks_disjoint(self) -> bool {
        forall|o1: int, i1: int, o2: int, i2: int|
            0 <= o1 < ORDER_COUNT && 0 <= i1 < self.list(o1).len() && 0 <= o2 < ORDER_COUNT && 0
                <= i2 < self.list(o2).len() && (o1 != o2 || i1 != i2) ==> !blocks_overlap(
                #[trigger] self.list(o1)[i1] as int,
                o1,
                #[trigger] self.list(o2)[i2] as int,
                o2,
            )
    }

    /// No free list holds both a block and that block's buddy: such a
    /// pair is always coalesced into the next order.
    pub open spec fn no_buddy_pairs(self) -> bool {
        forall|o: int, i: int, j: int|
            0 <= o < ORDER_COUNT && 0 <= i < self.list(o).len() && 0 <= j < self.list(o).len()
                ==> #[trigger] self.list(o)[j] as int != buddy_addr(
                #[trigger] self.list(o)[i] as int,
                o,
            )
    }

    pub open spec fn wf(self) -> bool {
        &&& self.num_orders() == ORDER_COUNT
        &&& self.blocks_valid()
        &&& self.blocks_disjoint()
        &&& self.no_buddy_pairs()
    }

    /// Byte `b` is free: covered by some listed block.
    pub open spec fn has_byte(self, b: int) -> bool {
        exists|o: int, i: int|
            0 <= o < ORDER_COUNT && 0 <= i < self.list(o).len() && in_block(
                #[trigger] self.list(o)[i] as int,
                o,
                b,
            )
    }

    /// No block on any free list.
    pub open spec fn is_empty_spec(self) -> bool {
        forall|o: int| 0 <= o < ORDER_COUNT ==> #[trigger] self.list(o).len() == 0
    }

    /// Number of listed blocks in the orders below `o`.
    pub closed spec fn count_below(self, o: int) -> int
        decreases o,
    {
        if o <= 0 {
            0
        } else {
            self.count_below(o - 1) + self.list(o - 1).len()
        }
    }

    /// Total number of blocks on all free lists.
    pub open spec fn total_blocks(self) -> int {
        self.count_below(ORDER_COUNT as int)
    }

    /// A fresh allocator with nothing to hand out.
    pub fn new() -> (r: Buddy)
        ensures
            r.wf(),
            r.is_empty_spec(),
            forall|b: int| !r.has_byte(b),
            r.total_blocks() == 0,
    {
        let mut free_area: Vec<Vec<u64>> = Vec::new();
        while free_area.len() < ORDER_COUNT
            invariant
                free_area@.len() <= ORDER_COUNT,
                forall|o: int| 0 <= o < free_area@.len() ==> #[trigger] free_area@[o]@.len() == 0,
            decreases ORDER_COUNT - free_area@.len(),
        {
            free_area.push(Vec::new());
        }
        let r = Buddy { free_area };
        proof {
            lemma_count_empty(r, ORDER_COUNT as int);
        }
        r
    }

    /// Drop all free blocks, returning to the freshly-built state.
    pub fn clear(&mut self)
        ensures
            final(self).wf(),
            final(self).is_empty_spec(),
            forall|b: int| !final(self).has_byte(b),
            final(self).total_blocks() == 0,
    {
        *self = Buddy::new();
    }

    /// Every free block, as `(address, order)` pairs, lowest order first.
    /// This is the whole observable state of the allocator.
    pub fn free_blocks(&self) -> (r: Vec<(u64, usize)>)
        requires
            self.wf(),
        ensures
            r@.len() == self.total_blocks(),
            forall|o: int, i: int|
                0 <= o < ORDER_COUNT && 0 <= i < self.list(o).len() ==> r@.contains(
                    (#[trigger] self.list(o)[i], o as usize),
                ),
            forall|k: int|
                0 <= k < r@.len() ==> (#[trigger] r@[k]).1 < ORDER_COUNT && self.list(
                    r@[k].1 as int,
                ).contains(r@[k].0),
    {
        let mut r: Vec<(u64, usize)> = Vec::new();
        let mut o: usize = 0;
        while o < ORDER_COUNT
            invariant
                self.wf(),
                0 <= o <= ORDER_COUNT,
                r@.len() == self.count_below(o as int),
                forall|oo: int, i: int|
                    0 <= oo < o && 0 <= i < self.list(oo).len() ==> r@.contains(
                        (#[trigger] self.list(oo)[i], oo as usize),
                    ),
                forall|k: int|
                    0 <= k < r@.len() ==> (#[trigger] r@[k]).1 < o && self.list(
                        r@[k].1 as int,
                    ).contains(r@[k].0),
            decreases ORDER_COUNT - o,
        {
            let mut i: usize = 0;
            let n = self.free_area[o].len();
            while i < n
                invariant
                    self.wf(),
                    0 <= o < ORDER_COUNT,
                    n == self.list(o as int).len(),
                    0 <= i <= n,
                    r@.len() == self.count_below(o as int) + i,
                    forall|oo: int, ii: int|
                        0 <= oo < o && 0 <= ii < self.list(oo).len() ==> r@.contains(
                            (#[trigger] self.list(oo)[ii], oo as usize),
                        ),
                    forall|ii: int|
                        0 <= ii < i ==> r@.contains((#[trigger] self.list(o as int)[ii], o)),
                    forall|k: int|
                        0 <= k < r@.len() ==> (#[trigger] r@[k]).1 <= o && self.list(
                            r@[k].1 as int,
                        ).contains(r@[k].0),
                decreases n - i,
            {
                let a = self.free_area[o][i];
                let ghost r0 = r@;
                r.push((a, o));
                proof {
                    assert(self.list(o as int)[i as int] == a);
                    assert(r@ == r0.push((a, o)));
                    assert forall|x: (u64, usize)| r0.contains(x) implies r@.contains(x) by {
                        let k = choose|k: int| 0 <= k < r0.len() && r0[k] == x;
                        assert(r@[k] == x);
                    }
                    assert(r@[r@.len() - 1] == (a, o));
                    assert(r@.contains((a, o)));
                }
                i = i + 1;
            }
            o = o + 1;
        }
        r
    }
}

/// The two states hold the same free lists except possibly at order `o`.
pub open spec fn same_except(pre: Buddy, post: Buddy, o: int) -> bool {
    &&& post.num_orders() == pre.num_orders()
    &&& forall|oo: int|
        0 <= oo < ORDER_COUNT && oo != o ==> #[trigger] post.list(oo) == pre.list(oo)
}

/// Removing one block from a free list keeps the allocator well-formed;
/// the free bytes afterwards are the old ones minus the removed block's.
proof fn lemma_remove_block(pre: Buddy, post: Buddy, o: int, i: int)
    requires
        pre.wf(),
        0 <= o < ORDER_COUNT,
        0 <= i < pre.list(o).len(),
        post.list(o) == pre.list(o).remove(i),
        same_except(pre, post, o),
    ensures
        post.wf(),
        forall|b: int| #[trigger] post.has_byte(b) ==> pre.has_byte(b),
        forall|b: int|
            #[trigger] pre.has_byte(b) ==> post.has_byte(b) || in_block(
                pre.list(o)[i] as int,
                o,
                b,
            ),
        forall|b: int| in_block(pre.list(o)[i] as int, o, b) ==> !post.has_byte(b),
{
    pre.list(o).remove_ensures(i);
    let x = pre.list(o)[i];
    // Each index of the new lists maps to an index of the old ones, other
    // than the removed one, holding the same block.
    let m = |oo: int, jj: int| if oo == o && jj >= i { jj + 1 } else { jj };
    assert forall|oo: int, jj: int|
        0 <= oo < ORDER_COUNT && 0 <= jj < post.list(oo).len() implies {
        &&& 0 <= m(oo, jj) < pre.list(oo).len()
        &&& pre.list(oo)[m(oo, jj)] == post.list(oo)[jj]
        &&& (oo != o || m(oo, jj) != i)
    } by {
        if oo == o {
            assert(post.list(o).len() == pre.list(o).len() - 1);
        }
    }
    assert(post.blocks_valid());
    assert forall|o1: int, i1: int, o2: int, i2: int|
        0 <= o1 < ORDER_COUNT && 0 <= i1 < post.list(o1).len() && 0 <= o2 < ORDER_COUNT && 0 <= i2
            < post.list(o2).len() && (o1 != o2 || i1 != i2) implies !blocks_overlap(
        post.list(o1)[i1] as int,
        o1,
        post.list(o2)[i2] as int,
        o2,
    ) by {
        assert(pre.list(o1)[m(o1, i1)] == post.list(o1)[i1]);
        assert(pre.list(o2)[m(o2, i2)] == post.list(o2)[i2]);
    }
    assert(post.blocks_disjoint());
    assert forall|oo: int, i1: int, j1: int|
        0 <= oo < ORDER_COUNT && 0 <= i1 < post.list(oo).len() && 0 <= j1 < post.list(
            oo,
        ).len() implies post.list(oo)[j1] as int != buddy_addr(post.list(oo)[i1] as int, oo) by {
        assert(pre.list(oo)[m(oo, i1)] == post.list(oo)[i1]);
        assert(pre.list(oo)[m(oo, j1)] == post.list(oo)[j1]);
    }
    assert(post.no_buddy_pairs());
    assert forall|b: int| #[trigger] post.has_byte(b) implies pre.has_byte(b) by {
        let (oo, jj) = choose|oo: int, jj: int|
            0 <= oo < ORDER_COUNT && 0 <= jj < post.list(oo).len() && in_block(
                #[trigger] post.list(oo)[jj] as int,
                oo,
                b,
            );
        assert(in_block(pre.list(oo)[m(oo, jj)] as int, oo, b));
    }
    assert forall|b: int| #[trigger] pre.has_byte(b) implies post.has_byte(b) || in_block(
        x as int,
        o,
        b,
    ) by {
        let (oo, jj) = choose|oo: int, jj: int|
            0 <= oo < ORDER_COUNT && 0 <= jj < pre.list(oo).len() && in_block(
                #[trigger] pre.list(oo)[jj] as int,
                oo,
                b,
            );
        if oo == o && jj == i {
        } else if oo == o && jj > i {
            assert(post.list(oo)[jj - 1] == pre.list(oo)[jj]);
            assert(in_block(post.list(oo)[jj - 1] as int, oo, b));
        } else {
            assert(post.list(oo)[jj] == pre.list(oo)[jj]);
            assert(in_block(post.list(oo)[jj] as int, oo, b));
        }
    }
    assert forall|b: int| in_block(x as int, o, b) implies !post.has_byte(b) by {
        if post.has_byte(b) {
            let (oo, jj) = choose|oo: int, jj: int|
                0 <= oo < ORDER_COUNT && 0 <= jj < post.list(oo).len() && in_block(
                    #[trigger] post.list(oo)[jj] as int,
                    oo,
                    b,
                );
            assert(pre.list(oo)[m(oo, jj)] == post.list(oo)[jj]);
            assert(blocks_overlap(pre.list(oo)[m(oo, jj)] as int, oo, x as int, o));
        }
    }
}

/// Pushing a fresh block (disjoint from every free byte, with its buddy
/// absent from the target list) keeps the allocator well-formed; the free
/// bytes afterwards are the old ones plus the new block's.
proof fn lemma_push_block(pre: Buddy, post: Buddy, o: int, x: u64)
    requires
        pre.wf(),
        0 <= o < ORDER_COUNT,
        o <= MAX_ORDER,
        valid_block(x as int, o),
        post.list(o) == pre.list(o).push(x),
        same_except(pre, post, o),
        forall|b: int| in_block(x as int, o, b) ==> !pre.has_byte(b),
        forall|j: int|
            0 <= j < pre.list(o).len() ==> #[trigger] pre.list(o)[j] as int != buddy_addr(
                x as int,
                o,
            ),
    ensures
        post.wf(),
        forall|b: int|
            #[trigger] post.has_byte(b) <==> pre.has_byte(b) || in_block(x as int, o, b),
{
    lemma_buddy_properties(x as int, o);
    let n = pre.list(o).len() as int;
    assert(post.list(o)[n] == x);
    assert forall|oo: int, jj: int|
        0 <= oo < ORDER_COUNT && 0 <= jj < post.list(oo).len() && (oo != o || jj
            != n) implies post.list(oo)[jj] == pre.list(oo)[jj] && 0 <= jj < pre.list(
        oo,
    ).len() by {}
    assert(post.blocks_valid());
    // the new block overlaps no old block: an overlap would share a byte
    assert forall|oo: int, jj: int|
        0 <= oo < ORDER_COUNT && 0 <= jj < pre.list(oo).len() implies !blocks_overlap(
        pre.list(oo)[jj] as int,
        oo,
        x as int,
        o,
    ) by {
        if blocks_overlap(pre.list(oo)[jj] as int, oo, x as int, o) {
            let y = pre.list(oo)[jj] as int;
            let b = if y <= x as int {
                x as int
            } else {
                y
            };
            assert(in_block(y, oo, b) && in_block(x as int, o, b));
            assert(pre.has_byte(b));
        }
    }
    assert(post.blocks_disjoint());
    assert forall|oo: int, i1: int, j1: int|
        0 <= oo < ORDER_COUNT && 0 <= i1 < post.list(oo).len() && 0 <= j1 < post.list(
            oo,
        ).len() implies post.list(oo)[j1] as int != buddy_addr(post.list(oo)[i1] as int, oo) by {
        if oo == o && i1 == n && j1 == n {
            assert(buddy_addr(x as int, o) != x as int);
        } else if oo == o && i1 == n {
            // an old entry equal to the new block's buddy is excluded
            assert(post.list(o)[j1] == pre.list(o)[j1]);
        } else if oo == o && j1 == n {
            // the new block equal to an old entry's buddy would make the
            // old entry the new block's buddy, by involution
            if post.list(oo)[j1] as int == buddy_addr(post.list(oo)[i1] as int, oo) {
                let y = pre.list(o)[i1];
                assert(x as int == buddy_addr(y as int, o));
                lemma_buddy_properties(y as int, o);
                assert(y as int == buddy_addr(x as int, o));
            }
        } else {
        }
    }
    assert(post.no_buddy_pairs());
    assert forall|b: int| #[trigger] post.has_byte(b) implies pre.has_byte(b) || in_block(
        x as int,
        o,
        b,
    ) by {
        let (oo, jj) = choose|oo: int, jj: int|
            0 <= oo < ORDER_COUNT && 0 <= jj < post.list(oo).len() && in_block(
                #[trigger] post.list(oo)[jj] as int,
                oo,
                b,
            );
        if oo == o && jj == n {
        } else {
            assert(in_block(pre.list(oo)[jj] as int, oo, b));
        }
    }
    assert forall|b: int| pre.has_byte(b) || in_block(x as int, o, b) implies #[trigger] post
        .has_byte(b) by {
        if in_block(x as int, o, b) {
            assert(in_block(post.list(o)[n] as int, o, b));
        } else {
            let (oo, jj) = choose|oo: int, jj: int|
                0 <= oo < ORDER_COUNT && 0 <= jj < pre.list(oo).len() && in_block(
                    #[trigger] pre.list(oo)[jj] as int,
                    oo,
                    b,
                );
            assert(in_block(post.list(oo)[jj] as int, oo, b));
        }
    }
}

proof fn lemma_count_empty(b: Buddy, o: int)
    requires
        0 <= o,
        forall|oo: int| 0 <= oo < o ==> #[trigger] b.list(oo).len() == 0,
    ensures
        b.count_below(o) == 0,
    decreases o,
{
    if o > 0 {
        lemma_count_empty(b, o - 1);
    }
}

/// Index of `x` in the list, or `None` when absent.
pub(crate) fn find_index(v: &Vec<u64>, x: u64) -> (r: Option<usize>)
    ensures
        match r {
            Some(i) => 0 <= i < v@.len() && v@[i as int] == x,
            None => !v@.contains(x),
        },
{
    let mut i: usize = 0;
    while i < v.len()
        invariant
            0 <= i <= v@.len(),
            forall|j: int| 0 <= j < i ==> v@[j] != x,
        decreases v@.len() - i,
    {
        if v[i] == x {
            return Some(i);
        }
        i = i + 1;
    }
    None
}

impl Buddy {
    /// Serve a request for `size` bytes at an order no smaller than
    /// `order`. The request is rounded up to the effective order; the
    /// lists are scanned upward from it for the first free block, which is
    /// split in half, upper half returned to the next lower list, until it
    /// has the effective order. Returns the block's base address, or
    /// `None` when no free block of sufficient order exists: out of
    /// memory is a caller-visible condition, never an abort. The block's
    /// bytes are not zeroed; they leave the free set exactly.
    pub fn alloc_order(&mut self, size: u64, order: usize) -> (r: Option<u64>)
        requires
            old(self).wf(),
        ensures
            final(self).wf(),
            ({
                let eff = effective_order(size as int, order as int);
                match r {
                    None => *final(self) == *old(self) && (eff > MAX_ORDER || forall|o: int|
                        eff <= o < ORDER_COUNT ==> #[trigger] old(self).list(o).len() == 0),
                    Some(a) => {
                        &&& eff <= MAX_ORDER
                        &&& valid_block(a as int, eff)
                        &&& forall|b: int|
                            #[trigger] final(self).has_byte(b) <==> (old(self).has_byte(b)
                                && !in_block(a as int, eff, b))
                        &&& forall|b: int|
                            in_block(a as int, eff, b) ==> old(self).has_byte(b)
                    },
                }
            }),
    {
        let ro = round_up_order_of_size(size);
        let eff: usize = if ro > order {
            ro
        } else {
            order
        };
        if eff > MAX_ORDER {
            return None;
        }
        let ghost pre = *self;
        // Scan upward for the first non-empty free list.
        let mut bo: usize = eff;
        while bo < ORDER_COUNT && self.free_area[bo].len() == 0
            invariant
                *self == pre,
                pre.wf(),
                eff <= bo <= ORDER_COUNT,
                forall|o: int| eff <= o < bo ==> #[trigger] pre.list(o).len() == 0,
            decreases ORDER_COUNT - bo,
        {
            bo = bo + 1;
        }
        if bo == ORDER_COUNT {
            return None;
        }
        // Pop the head block of that list.
        let n = self.free_area[bo].len();
        let a = self.free_area[bo].remove(n - 1);
        proof {
            lemma_remove_block(pre, *self, bo as int, n - 1);
            assert(valid_block(a as int, bo as int));
            assert forall|b: int| in_block(a as int, bo as int, b) implies pre.has_byte(b) by {
                assert(in_block(pre.list(bo as int)[n - 1] as int, bo as int, b));
            }
        }
        // Split the block in half until it has the requested order,
        // returning each upper half to the next lower list.
        let mut cur: usize = bo;
        while cur > eff
            invariant
                self.wf(),
                pre.wf(),
                eff <= cur <= bo <= MAX_ORDER,
                valid_block(a as int, cur as int),
                forall|b: int|
                    #[trigger] pre.has_byte(b) <==> self.has_byte(b) || in_block(
                        a as int,
                        cur as int,
                        b,
                    ),
                forall|b: int| in_block(a as int, cur as int, b) ==> !self.has_byte(b),
            decreases cur,
        {
            cur = cur - 1;
            let ghost mid = *self;
            proof {
                lemma_order_size_double(cur as int);
                lemma_order_size_pos(cur as int);
            }
            let upper = a + order_size(cur);
            proof {
                crate::order::lemma_align_half(a as int, order_size_spec(cur as int));
                crate::order::lemma_align_two_cases(a as int, order_size_spec(cur as int));
                lemma_buddy_properties(a as int, cur as int);
                assert(buddy_addr(a as int, cur as int) == upper as int);
                lemma_buddy_properties(upper as int, cur as int);
                assert(buddy_addr(upper as int, cur as int) == a as int);
            }
            self.free_area[cur].push(upper);
            proof {
                assert forall|b: int| in_block(upper as int, cur as int, b) implies !mid.has_byte(
                    b,
                ) by {
                    crate::order::lemma_split_bytes(a as int, cur as int, b);
                }
                assert forall|j: int| 0 <= j < mid.list(cur as int).len() implies #[trigger] mid
                    .list(cur as int)[j] as int != buddy_addr(upper as int, cur as int) by {
                    if mid.list(cur as int)[j] as int == a as int {
                        assert(in_block(mid.list(cur as int)[j] as int, cur as int, a as int));
                        assert(mid.has_byte(a as int));
                        assert(in_block(a as int, (cur + 1) as int, a as int));
                    }
                }
                lemma_push_block(mid, *self, cur as int, upper);
                assert forall|b: int| #[trigger] pre.has_byte(b) <==> self.has_byte(b) || in_block(
                    a as int,
                    cur as int,
                    b,
                ) by {
                    crate::order::lemma_split_bytes(a as int, cur as int, b);
                }
                assert forall|b: int| in_block(a as int, cur as int, b) implies !self.has_byte(
                    b,
                ) by {
                    crate::order::lemma_split_bytes(a as int, cur as int, b);
                }
            }
        }
        Some(a)
    }

    /// The block sits, as one whole entry, on the free list of this
    /// order: the state a second free of the same block finds.
    pub open spec fn listed(self, data: u64, o: int) -> bool {
        self.list(o).contains(data)
    }

    /// None of the block's bytes is free: the state the first free of a
    /// live block finds.
    pub open spec fn range_unfree(self, a: int, o: int) -> bool {
        forall|b: int| in_block(a, o, b) ==> !self.has_byte(b)
    }

    /// Return one block to the free set, coalescing with its buddy as
    /// long as the buddy is free ("buddy coalescing"). The freed block
    /// must either be wholly live (an ordinary free) or be listed exactly
    /// at this order (a double free, which is detected and reported); a
    /// partial overlap with the free set would corrupt the allocator
    /// undetectably and is therefore excluded by contract.
    ///
    /// Every error is fatal to the kernel: the caller is expected to
    /// halt. `Ok` adds exactly the block's bytes to the free set.
    pub fn free_order_exact(&mut self, data: u64, order: usize) -> (r: Result<
        (),
        BuddyError,
    >)
        requires
            old(self).wf(),
            order <= MAX_ORDER && block_aligned(data as int, order as int) ==> old(
                self,
            ).range_unfree(data as int, order as int) || old(self).listed(data, order as int),
        ensures
            final(self).wf(),
            match r {
                Ok(()) => {
                    &&& order <= MAX_ORDER
                    &&& block_aligned(data as int, order as int)
                    &&& old(self).range_unfree(data as int, order as int)
                    &&& forall|b: int|
                        #[trigger] final(self).has_byte(b) <==> old(self).has_byte(b) || in_block(
                            data as int,
                            order as int,
                            b,
                        )
                },
                Err(BuddyError::Unaligned) => {
                    &&& order <= MAX_ORDER
                    &&& !block_aligned(data as int, order as int)
                    &&& *final(self) == *old(self)
                },
                Err(BuddyError::DoubleFree) => {
                    &&& order <= MAX_ORDER
                    &&& block_aligned(data as int, order as int)
                    &&& old(self).listed(data, order as int)
                    &&& *final(self) == *old(self)
                },
                Err(BuddyError::OrderTooLarge) => {
                    ||| (order > MAX_ORDER && *final(self) == *old(self))
                    ||| ({
                        // coalescing overflowed the address space: every
                        // 64-bit byte was already free or is being freed
                        &&& order <= MAX_ORDER
                        &&& block_aligned(data as int, order as int)
                        &&& old(self).range_unfree(data as int, order as int)
                        &&& (forall|b: int|
                            0 <= b <= u64::MAX ==> #[trigger] old(self).has_byte(b) || in_block(
                                data as int,
                                order as int,
                                b,
                            ))
                        &&& (forall|b: int|
                            #[trigger] final(self).has_byte(b) ==> old(self).has_byte(b)
                                || in_block(data as int, order as int, b))
                    })
                },
            },
            old(self).wf() && order <= MAX_ORDER && block_aligned(data as int, order as int)
                && old(self).listed(data, order as int) ==> r == Err::<(), BuddyError>(BuddyError::DoubleFree),
            order <= MAX_ORDER && block_aligned(data as int, order as int) && old(
                self,
            ).range_unfree(data as int, order as int) && (exists|b: int|
                0 <= b <= u64::MAX && !old(self).has_byte(b) && !in_block(
                    data as int,
                    order as int,
                    b,
                )) ==> r == Ok::<(), BuddyError>(()),
    {
        if order > MAX_ORDER {
            return Err(BuddyError::OrderTooLarge);
        }
        if !order_aligned(data, order) {
            return Err(BuddyError::Unaligned);
        }
        let ghost pre = *self;
        proof {
            lemma_aligned_fits(data, order as int);
            lemma_order_size_pos(order as int);
        }
        // A block already on its own list is a double free.
        match find_index(&self.free_area[order], data) {
            Some(_) => {
                proof {
                    assert(pre.listed(data, order as int));
                    // a listed block's own first byte is free, so the
                    // block is not wholly live
                    let i = choose|i: int|
                        0 <= i < pre.list(order as int).len() && pre.list(order as int)[i] == data;
                    assert(in_block(pre.list(order as int)[i] as int, order as int, data as int));
                    assert(pre.has_byte(data as int));
                    assert(in_block(data as int, order as int, data as int));
                }
                return Err(BuddyError::DoubleFree);
            },
            None => {},
        }
        proof {
            // not listed, so by the caller's obligation the block is live
            assert(pre.range_unfree(data as int, order as int));
        }
        let mut a = data;
        let mut o = order;
        loop
            invariant
                self.wf(),
                pre.wf(),
                pre == *old(self),
                order <= MAX_ORDER,
                block_aligned(data as int, order as int),
                !pre.listed(data, order as int),
                pre.range_unfree(data as int, order as int),
                order <= o <= MAX_ORDER,
                valid_block(a as int, o as int),
                forall|b: int|
                    (pre.has_byte(b) || in_block(data as int, order as int, b)) <==> (
                    #[trigger] self.has_byte(b) || in_block(a as int, o as int, b)),
                forall|b: int| in_block(a as int, o as int, b) ==> !self.has_byte(b),
                forall|b: int|
                    in_block(data as int, order as int, b) ==> in_block(a as int, o as int, b),
            decreases MAX_ORDER - o,
        {
            let sz = order_size(o);
            let bdy = a ^ sz;
            proof {
                lemma_xor_buddy(a, o);
                lemma_buddy_properties(a as int, o as int);
                assert(bdy as int == buddy_addr(a as int, o as int));
            }
            match find_index(&self.free_area[o], bdy) {
                None => {
                    // no free buddy at this order: insert and stop
                    let ghost mid = *self;
                    self.free_area[o].push(a);
                    proof {
                        assert forall|j: int| 0 <= j < mid.list(o as int).len() implies #[trigger] mid.list(
                            o as int,
                        )[j] as int != buddy_addr(a as int, o as int) by {
                            assert(mid.list(o as int)[j] != bdy);
                        }
                        lemma_push_block(mid, *self, o as int, a);
                        assert(*old(self) == pre);
                        assert(!pre.listed(data, order as int));
                        assert forall|b: int| #[trigger] self.has_byte(b) <==> pre.has_byte(b)
                            || in_block(data as int, order as int, b) by {
                            assert(self.has_byte(b) <==> mid.has_byte(b) || in_block(
                                a as int,
                                o as int,
                                b,
                            ));
                            assert((pre.has_byte(b) || in_block(data as int, order as int, b))
                                <==> (mid.has_byte(b) || in_block(a as int, o as int, b)));
                        }
                    }
                    return Ok(());
                },
                Some(i) => {
                    // merge with the buddy and retry one order higher
                    let ghost mid = *self;
                    let ghost gi = i as int;
                    self.free_area[o].remove(i);
                    let lower = if bdy < a {
                        bdy
                    } else {
                        a
                    };
                    proof {
                        lemma_remove_block(mid, *self, o as int, gi);
                        assert(mid.list(o as int)[gi] == bdy);
                        lemma_order_size_double(o as int);
                        // the merged block is the two halves side by side
                        assert(block_aligned(lower as int, o + 1));
                        assert forall|b: int|
                            in_block(lower as int, o + 1, b) <==> (in_block(a as int, o as int, b)
                                || in_block(bdy as int, o as int, b)) by {
                            crate::order::lemma_split_bytes(lower as int, o as int, b);
                        }
                        // the removed buddy's bytes were free before the
                        // removal, so the old equivalence extends to the
                        // merged block
                        assert forall|b: int|
                            #![trigger self.has_byte(b)]
                            #![trigger in_block(lower as int, o + 1, b)]
                            (pre.has_byte(b) || in_block(data as int, order as int, b)) <==> (self
                                .has_byte(b) || in_block(lower as int, o + 1, b)) by {
                            assert(mid.has_byte(b) <==> self.has_byte(b) || in_block(
                                bdy as int,
                                o as int,
                                b,
                            )) by {
                                if in_block(bdy as int, o as int, b) && !self.has_byte(b) {
                                    assert(in_block(mid.list(o as int)[gi] as int, o as int, b));
                                }
                            }
                            assert((pre.has_byte(b) || in_block(data as int, order as int, b))
                                <==> (mid.has_byte(b) || in_block(a as int, o as int, b)));
                            assert(in_block(lower as int, o + 1, b) <==> (in_block(
                                a as int,
                                o as int,
                                b,
                            ) || in_block(bdy as int, o as int, b)));
                        }
                        assert forall|b: int| in_block(lower as int, o + 1, b) implies !self
                            .has_byte(b) by {
                            if in_block(a as int, o as int, b) {
                                assert(!mid.has_byte(b));
                            }
                        }
                        assert forall|b: int|
                            in_block(data as int, order as int, b) implies in_block(
                            lower as int,
                            o + 1,
                            b,
                        ) by {}
                    }
                    if o == MAX_ORDER {
                        // the merge would span the whole address space,
                        // which proves the top byte was covered
                        proof {
                            lemma_order_size_values();
                            assert(block_aligned(lower as int, ORDER_COUNT as int));
                            vstd::arithmetic::div_mod::lemma_small_mod(
                                lower as nat,
                                (u64::MAX + 1) as nat,
                            );
                            assert(lower == 0);
                            let b = u64::MAX as int;
                            assert(o + 1 == ORDER_COUNT as int);
                            assert(in_block(lower as int, o + 1, b));
                            assert(self.has_byte(b) || in_block(lower as int, o + 1, b));
                            assert(pre.has_byte(b) || in_block(data as int, order as int, b));
                            assert forall|b2: int| #[trigger] self.has_byte(b2) implies pre
                                .has_byte(b2) || in_block(data as int, order as int, b2) by {
                                assert(self.has_byte(b2) || in_block(lower as int, o + 1, b2));
                            }
                            assert forall|b2: int| 0 <= b2 <= u64::MAX implies #[trigger] pre
                                .has_byte(b2) || in_block(data as int, order as int, b2) by {
                                assert(in_block(lower as int, o + 1, b2));
                                assert(self.has_byte(b2) || in_block(lower as int, o + 1, b2));
                            }
                        }
                        return Err(BuddyError::OrderTooLarge);
                    }
                    let ghost go = o as int;
                    a = lower;
                    o = o + 1;
                    proof {
                        lemma_aligned_fits(a, o as int);
                        assert(a == lower && o as int == go + 1);
                        assert forall|b: int|
                            (pre.has_byte(b) || in_block(data as int, order as int, b)) <==> (
                            #[trigger] self.has_byte(b) || in_block(a as int, o as int, b)) by {
                            assert(in_block(a as int, o as int, b) == in_block(
                                lower as int,
                                go + 1,
                                b,
                            ));
                        }
                        assert forall|b: int| in_block(a as int, o as int, b) implies !self
                            .has_byte(b) by {
                            assert(in_block(a as int, o as int, b) == in_block(
                                lower as int,
                                go + 1,
                                b,
                            ));
                        }
                        assert forall|b: int|
                            in_block(data as int, order as int, b) implies in_block(
                            a as int,
                            o as int,
                            b,
                        ) by {
                            assert(in_block(a as int, o as int, b) == in_block(
                                lower as int,
                                go + 1,
                                b,
                            ));
                        }
                    }
                },
            }
        }
    }
}

/// Core of the round-trip law: inside a well-formed allocator, an
/// aligned power-of-two region whose bytes are all free, and which no
/// free block straddles, is held as exactly one block of its own order.
/// A finer decomposition would put two buddies on the same list, which
/// well-formedness forbids.
proof fn lemma_region_is_one_block(bd: Buddy, a: int, o: int)
    requires
        bd.wf(),
        valid_block(a, o),
        forall|b: int| in_block(a, o, b) ==> bd.has_byte(b),
        forall|oo: int, i: int|
            0 <= oo < ORDER_COUNT && 0 <= i < bd.list(oo).len() && blocks_overlap(
                #[trigger] bd.list(oo)[i] as int,
                oo,
                a,
                o,
            ) ==> a <= bd.list(oo)[i] as int && bd.list(oo)[i] + order_size_spec(oo) <= a
                + order_size_spec(o),
    ensures
        exists|i: int| 0 <= i < bd.list(o).len() && bd.list(o)[i] == a,
    decreases o,
{
    lemma_order_size_pos(o);
    // some free block covers the region's first byte; it must start at
    // the region's base and fit inside
    assert(bd.has_byte(a)) by {
        assert(in_block(a, o, a));
    }
    let (o1, i1) = choose|o1: int, i1: int|
        0 <= o1 < ORDER_COUNT && 0 <= i1 < bd.list(o1).len() && in_block(
            #[trigger] bd.list(o1)[i1] as int,
            o1,
            a,
        );
    let y = bd.list(o1)[i1] as int;
    assert(blocks_overlap(y, o1, a, o)) by {
        lemma_order_size_pos(o1);
    }
    assert(y == a);
    assert(o1 <= o) by {
        if o1 > o {
            lemma_order_size_increases(o, o1);
        }
    }
    if o1 == o {
        assert(bd.list(o)[i1] == a);
    } else {
        // the region splits in two halves, each wholly free and not
        // straddled; each is then a single block, and the two are
        // buddies at the same order: contradiction
        let h = o - 1;
        let s = order_size_spec(h);
        let m = a + s;
        lemma_order_size_double(h);
        lemma_order_size_pos(h);
        crate::order::lemma_align_lower(a, o, h);
        crate::order::lemma_align_two_cases(a, s);
        assert(block_aligned(m, h));
        assert forall|oo: int, i: int|
            0 <= oo < ORDER_COUNT && 0 <= i < bd.list(oo).len() && blocks_overlap(
                #[trigger] bd.list(oo)[i] as int,
                oo,
                a,
                o,
            ) implies oo < o by {
            if oo >= o {
                let z = bd.list(oo)[i] as int;
                lemma_order_size_pos(oo);
                if oo > o {
                    lemma_order_size_increases(o, oo);
                    assert(false);
                }
                // a block as large as the region coincides with it and
                // overlaps the strictly smaller block at the base
                assert(z == a);
                assert(blocks_overlap(z, oo, y, o1)) by {
                    lemma_order_size_pos(o1);
                }
                assert((oo != o1 || i != i1));
                assert(false);
            }
        }
        // no block crosses the midpoint: both its base and the midpoint
        // are aligned to the block's size
        assert forall|oo: int, i: int|
            0 <= oo < ORDER_COUNT && 0 <= i < bd.list(oo).len() && blocks_overlap(
                #[trigger] bd.list(oo)[i] as int,
                oo,
                a,
                o,
            ) implies (bd.list(oo)[i] + order_size_spec(oo) <= m || m <= bd.list(oo)[i] as int) by {
            let z = bd.list(oo)[i] as int;
            let zs = order_size_spec(oo);
            if z < m < z + zs {
                crate::order::lemma_align_lower(m, h, oo);
                assert(z % zs == 0);
                assert(m % zs == 0);
                vstd::arithmetic::div_mod::lemma_sub_mod_noop(m, z, zs);
                vstd::arithmetic::div_mod::lemma_small_mod(0, zs as nat);
                assert((m - z) % zs == 0);
                vstd::arithmetic::div_mod::lemma_small_mod((m - z) as nat, zs as nat);
                assert(false);
            }
        }
        lemma_region_is_one_block(bd, a, h);
        lemma_region_is_one_block(bd, m, h);
        let il = choose|i: int| 0 <= i < bd.list(h).len() && bd.list(h)[i] == a;
        let iu = choose|i: int| 0 <= i < bd.list(h).len() && bd.list(h)[i] == m;
        assert(buddy_addr(a, h) == m);
        assert(bd.list(h)[iu] as int == buddy_addr(bd.list(h)[il] as int, h));
        assert(false);
    }
}

/// Round-trip law: when the free bytes form exactly one aligned
/// power-of-two region, the free lists hold exactly that one block and
/// nothing else. Freeing every block carved from a region, in any order,
/// therefore coalesces back to the single original block.
pub proof fn lemma_full_coalescence(bd: Buddy, a: u64, o: int)
    requires
        bd.wf(),
        valid_block(a as int, o),
        forall|b: int| bd.has_byte(b) <==> in_block(a as int, o, b),
    ensures
        bd.list(o).len() == 1,
        bd.list(o)[0] == a,
        forall|oo: int| 0 <= oo < ORDER_COUNT && oo != o ==> #[trigger] bd.list(oo).len() == 0,
        bd.total_blocks() == 1,
{
    // every free block lies wholly inside the region: each of its bytes
    // is free, hence a region byte
    assert forall|oo: int, i: int|
        0 <= oo < ORDER_COUNT && 0 <= i < bd.list(oo).len() && blocks_overlap(
            #[trigger] bd.list(oo)[i] as int,
            oo,
            a as int,
            o,
        ) implies a as int <= bd.list(oo)[i] as int && bd.list(oo)[i] + order_size_spec(oo)
        <= a as int + order_size_spec(o) by {
        let z = bd.list(oo)[i] as int;
        let zs = order_size_spec(oo);
        lemma_order_size_pos(oo);
        assert(in_block(z, oo, z));
        assert(bd.has_byte(z));
        assert(in_block(z, oo, z + zs - 1));
        assert(bd.has_byte(z + zs - 1));
    }
    lemma_region_is_one_block(bd, a as int, o);
    let i0 = choose|i: int| 0 <= i < bd.list(o).len() && bd.list(o)[i] == a;
    // and nothing besides that one block can be listed: any other entry
    // would lie inside the region and overlap it
    assert(bd.list(o).len() == 1) by {
        if bd.list(o).len() > 1 {
            let j: int = if i0 == 0 {
                1
            } else {
                0
            };
            let z = bd.list(o)[j] as int;
            lemma_order_size_pos(o);
            assert(in_block(z, o, z));
            assert(bd.has_byte(z));
            assert(in_block(a as int, o, z));
            assert(blocks_overlap(bd.list(o)[j] as int, o, bd.list(o)[i0] as int, o));
        }
    }
    assert(i0 == 0);
    assert forall|oo: int| 0 <= oo < ORDER_COUNT && oo != o implies #[trigger] bd.list(
        oo,
    ).len() == 0 by {
        if bd.list(oo).len() > 0 {
            let z = bd.list(oo)[0] as int;
            lemma_order_size_pos(oo);
            assert(in_block(z, oo, z));
            assert(bd.has_byte(z));
            assert(in_block(a as int, o, z));
            assert(blocks_overlap(bd.list(oo)[0] as int, oo, bd.list(o)[i0] as int, o));
        }
    }
    lemma_count_single(bd, o, ORDER_COUNT as int);
}

/// Unaligned-region decomposition law, in its smallest nontrivial
/// shape: when the free bytes form exactly a five-granule span whose
/// base is aligned to four granules, the free lists hold exactly the
/// two largest naturally-aligned blocks that fit — one four-granule
/// block at the base and the single granule behind it, nothing dropped
/// and nothing counted twice. `free_region` on such a span of an empty
/// allocator leaves exactly this state: its contract gives the byte
/// set, and well-formedness forces this decomposition of it.
pub proof fn lemma_five_granule_decomposition(bd: Buddy, a: int)
    requires
        bd.wf(),
        valid_block(a, 2),
        a + 5 * (GRANULE as int) <= u64::MAX + 1,
        forall|b: int| bd.has_byte(b) <==> a <= b < a + 5 * (GRANULE as int),
    ensures
        bd.list(2).len() == 1,
        bd.list(2)[0] == a,
        bd.list(0).len() == 1,
        bd.list(0)[0] == a + 4 * (GRANULE as int),
        forall|oo: int|
            0 <= oo < ORDER_COUNT && oo != 0 && oo != 2 ==> #[trigger] bd.list(oo).len() == 0,
{
    let g = GRANULE as int;
    let tail = a + 4 * g;
    lemma_order_size_values();
    // every listed block lies wholly inside the span: both its first and
    // its last byte are free
    assert forall|oo: int, i: int|
        0 <= oo < ORDER_COUNT && 0 <= i < bd.list(oo).len() implies a <= (
    #[trigger] bd.list(oo)[i]) as int && bd.list(oo)[i] + order_size_spec(oo) <= a + 5 * g
        && oo <= 2 by {
        let z = bd.list(oo)[i] as int;
        let zs = order_size_spec(oo);
        lemma_order_size_pos(oo);
        assert(in_block(z, oo, z));
        assert(bd.has_byte(z));
        assert(in_block(z, oo, z + zs - 1));
        assert(bd.has_byte(z + zs - 1));
        if oo >= 3 {
            if oo > 3 {
                lemma_order_size_increases(3, oo);
            }
            assert(false);
        }
    }
    // the base is aligned to every block size in play
    vstd::arithmetic::div_mod::lemma_mod_mod(a, g, 4);
    vstd::arithmetic::div_mod::lemma_mod_mod(a, 2 * g, 2);
    assert(a % g == 0 && a % (2 * g) == 0);
    // no listed block straddles the four-granule region's end: block
    // base and region end are both aligned to the block's size
    assert forall|oo: int, i: int|
        0 <= oo < ORDER_COUNT && 0 <= i < bd.list(oo).len() && blocks_overlap(
            #[trigger] bd.list(oo)[i] as int,
            oo,
            a,
            2,
        ) implies a <= bd.list(oo)[i] as int && bd.list(oo)[i] + order_size_spec(oo) <= a + 4
        * g by {
        let z = bd.list(oo)[i] as int;
        let zs = order_size_spec(oo);
        assert(valid_block(z, oo));
        if z + zs > a + 4 * g {
            assert(z < a + 4 * g);
            let e = a + 4 * g - z;
            assert(0 < e < zs);
            assert((4 * g) % zs == 0 && a % zs == 0 && z % zs == 0);
            vstd::arithmetic::div_mod::lemma_add_mod_noop(a, 4 * g, zs);
            vstd::arithmetic::div_mod::lemma_sub_mod_noop(a + 4 * g, z, zs);
            vstd::arithmetic::div_mod::lemma_small_mod(0, zs as nat);
            assert(e % zs == 0);
            vstd::arithmetic::div_mod::lemma_small_mod(e as nat, zs as nat);
            assert(false);
        }
    }
    // nor does any listed block straddle the tail granule's bounds
    assert forall|oo: int, i: int|
        0 <= oo < ORDER_COUNT && 0 <= i < bd.list(oo).len() && blocks_overlap(
            #[trigger] bd.list(oo)[i] as int,
            oo,
            tail,
            0,
        ) implies tail <= bd.list(oo)[i] as int && bd.list(oo)[i] + order_size_spec(oo) <= tail
        + g by {
        let z = bd.list(oo)[i] as int;
        let zs = order_size_spec(oo);
        assert(valid_block(z, oo));
        assert(a % zs == 0 && z % zs == 0);
        let d = z - a;
        vstd::arithmetic::div_mod::lemma_sub_mod_noop(z, a, zs);
        vstd::arithmetic::div_mod::lemma_small_mod(0, zs as nat);
        assert(d % zs == 0);
        // the overlap pins the block: its span must reach past the
        // region, and the only aligned candidate is the granule itself
        assert(z + zs > tail && z < tail + g);
        if oo == 2 {
            vstd::arithmetic::div_mod::lemma_small_mod(d as nat, zs as nat);
            assert(z == a);
            assert(false);
        } else if oo == 1 {
            assert(0 <= d <= 3 * g);
            if d <= 2 * g {
                vstd::arithmetic::div_mod::lemma_mod_multiples_basic(1, zs);
                vstd::arithmetic::div_mod::lemma_sub_mod_noop(d, zs, zs);
                vstd::arithmetic::div_mod::lemma_small_mod((d - zs) as nat, zs as nat);
                assert(d == 0 || d == 2 * g);
            }
            assert(false);
        } else {
            assert(0 <= d <= 4 * g);
            assert(d > 3 * g);
            if d != 4 * g {
                vstd::arithmetic::div_mod::lemma_mod_multiples_basic(3, zs);
                vstd::arithmetic::div_mod::lemma_sub_mod_noop(d, 3 * zs, zs);
                vstd::arithmetic::div_mod::lemma_small_mod((d - 3 * zs) as nat, zs as nat);
                assert(false);
            }
            assert(d == 4 * g);
        }
    }
    // each of the two spans is wholly free, so each is one listed block
    assert forall|b: int| in_block(a, 2, b) implies bd.has_byte(b) by {}
    assert forall|b: int| in_block(tail, 0, b) implies bd.has_byte(b) by {}
    assert(valid_block(tail, 0)) by {
        vstd::arithmetic::div_mod::lemma_mod_multiples_basic(4, g);
        vstd::arithmetic::div_mod::lemma_add_mod_noop(a, 4 * g, g);
        vstd::arithmetic::div_mod::lemma_small_mod(0, g as nat);
    }
    lemma_region_is_one_block(bd, a, 2);
    lemma_region_is_one_block(bd, tail, 0);
    let i2 = choose|i: int| 0 <= i < bd.list(2).len() && bd.list(2)[i] == a;
    let i0 = choose|i: int| 0 <= i < bd.list(0).len() && bd.list(0)[i] == tail;
    // every listed entry coincides with one of the two: a third would
    // overlap one of them, which disjointness forbids
    assert forall|oo: int, i: int|
        0 <= oo < ORDER_COUNT && 0 <= i < bd.list(oo).len() implies (oo == 2 && i == i2 && (
    #[trigger] bd.list(oo)[i]) == a) || (oo == 0 && i == i0 && bd.list(oo)[i] as int
        == tail) by {
        let z = bd.list(oo)[i] as int;
        lemma_order_size_pos(oo);
        if z < a + 4 * g {
            assert(blocks_overlap(z, oo, bd.list(2)[i2] as int, 2));
            if oo != 2 || i != i2 {
                assert(false);
            }
        } else {
            assert(blocks_overlap(z, oo, bd.list(0)[i0] as int, 0));
            if oo != 0 || i != i0 {
                assert(false);
            }
        }
    }
    assert(bd.list(2).len() == 1) by {
        if bd.list(2).len() > 1 {
            let x0 = bd.list(2)[0];
            let x1 = bd.list(2)[1];
            assert(0 == i2 && 1 == i2);
        }
    }
    assert(bd.list(0).len() == 1) by {
        if bd.list(0).len() > 1 {
            let y0 = bd.list(0)[0];
            let y1 = bd.list(0)[1];
            assert(0 == i0 && 1 == i0);
        }
    }
    assert(i2 == 0 && i0 == 0);
    assert forall|oo: int|
        0 <= oo < ORDER_COUNT && oo != 0 && oo != 2 implies #[trigger] bd.list(oo).len()
        == 0 by {
        if bd.list(oo).len() > 0 {
            let z0 = bd.list(oo)[0];
            assert(false);
        }
    }
}

/// No-overlap law: in a well-formed allocator no byte is covered by two
/// free blocks, and a block just returned by an allocation covers no
/// free byte (its span was carved out of the free set exactly; the
/// allocation contracts state the set equation). Together with the byte
/// conservation of every allocate and free, the live and free spans
/// always partition what was originally freed in.
pub proof fn lemma_no_overlap(bd: Buddy)
    requires
        bd.wf(),
    ensures
        forall|o1: int, i1: int, o2: int, i2: int|
            0 <= o1 < ORDER_COUNT && 0 <= i1 < bd.list(o1).len() && 0 <= o2 < ORDER_COUNT && 0
                <= i2 < bd.list(o2).len() && (o1 != o2 || i1 != i2) ==> !blocks_overlap(
                #[trigger] bd.list(o1)[i1] as int,
                o1,
                #[trigger] bd.list(o2)[i2] as int,
                o2,
            ),
{
}

/// Counting helper: lists empty everywhere below `upto` except one
/// singleton yield a total of one.
proof fn lemma_count_single(bd: Buddy, o: int, upto: int)
    requires
        0 <= upto <= ORDER_COUNT,
        0 <= o < ORDER_COUNT,
        bd.list(o).len() == 1,
        forall|oo: int| 0 <= oo < ORDER_COUNT && oo != o ==> #[trigger] bd.list(oo).len() == 0,
    ensures
        bd.count_below(upto) == if o < upto {
            1int
        } else {
            0int
        },
    decreases upto,
{
    if upto > 0 {
        lemma_count_single(bd, o, upto - 1);
    }
}

/// Order derived from a layout's alignment: the smallest order whose
/// natural alignment satisfies it.
fn layout_order(layout: Layout) -> (r: usize)
    requires
        layout.wf(),
    ensures
        r == order_for_size(layout.spec_align()),
        r <= MAX_ORDER,
    {
    let r = round_up_order_of_size(layout.align());
    proof {
        lemma_order_for_size_rec(layout.spec_align(), 0);
        if r > MAX_ORDER {
            crate::order::lemma_pow2_fits_max_order(layout.spec_align());
            assert(layout.spec_align() > order_size_spec(MAX_ORDER as int));
        }
    }
    r
}

// ---------------------------------------------------------------------------
// Regions: the granule-trimmed form of an arbitrary byte span.
// ---------------------------------------------------------------------------
/// First granule-aligned address at or after `data`.
pub open spec fn region_start(data: int) -> int {
    data + ((GRANULE as int - data % (GRANULE as int)) % (GRANULE as int))
}

/// Length of the whole granules of `[data, data + size)` from
/// `region_start` on; what a region free actually frees.
pub open spec fn region_len(data: int, size: int) -> int {
    if size >= region_start(data) - data {
        ((size - (region_start(data) - data)) / (GRANULE as int)) * (GRANULE as int)
    } else {
        0
    }
}

/// Byte `b` belongs to the granule-trimmed region.
pub open spec fn in_region(data: int, size: int, b: int) -> bool {
    region_start(data) <= b < region_start(data) + region_len(data, size)
}

impl Buddy {
    /// Serve an allocation request described by a layout. The effective
    /// order satisfies both the size and the alignment; the returned
    /// address is therefore a multiple of the requested alignment.
    pub fn allocate(&mut self, layout: Layout) -> (r: Option<u64>)
        requires
            old(self).wf(),
            layout.wf(),
        ensures
            final(self).wf(),
            ({
                let eff = effective_order(layout.spec_size(), order_for_size(layout.spec_align()));
                match r {
                    None => *final(self) == *old(self) && (eff > MAX_ORDER || forall|o: int|
                        eff <= o < ORDER_COUNT ==> #[trigger] old(self).list(o).len() == 0),
                    Some(a) => {
                        &&& eff <= MAX_ORDER
                        &&& valid_block(a as int, eff)
                        &&& a as int % layout.spec_align() == 0
                        &&& forall|b: int|
                            #[trigger] final(self).has_byte(b) <==> (old(self).has_byte(b)
                                && !in_block(a as int, eff, b))
                        &&& forall|b: int|
                            in_block(a as int, eff, b) ==> old(self).has_byte(b)
                    },
                }
            }),
    {
        let order = layout_order(layout);
        let r = self.alloc_order(layout.size(), order);
        proof {
            if let Some(a) = r {
                let eff = effective_order(layout.spec_size(), order_for_size(layout.spec_align()));
                lemma_order_for_size_rec(layout.spec_align(), 0);
                assert(layout.spec_align() <= order_size_spec(order as int));
                if (order as int) < eff {
                    lemma_order_size_increases(order as int, eff);
                }
                crate::order::lemma_pow2_align_divides(a as int, layout.spec_align(), eff);
            }
        }
        r
    }

    /// Return a block obtained from `alloc` with the same layout. The
    /// identical order derivation is applied, so the free reaches the
    /// list the allocation was served from.
    pub fn free(&mut self, data: u64, layout: Layout) -> (r: Result<(), BuddyError>)
        requires
            old(self).wf(),
            layout.wf(),
            ({
                let eff = effective_order(layout.spec_size(), order_for_size(layout.spec_align()));
                eff <= MAX_ORDER && block_aligned(data as int, eff) ==> old(self).range_unfree(
                    data as int,
                    eff,
                ) || old(self).listed(data, eff)
            }),
        ensures
            final(self).wf(),
            ({
                let eff = effective_order(layout.spec_size(), order_for_size(layout.spec_align()));
                match r {
                    Ok(()) => {
                        &&& eff <= MAX_ORDER
                        &&& block_aligned(data as int, eff)
                        &&& old(self).range_unfree(data as int, eff)
                        &&& forall|b: int|
                            #[trigger] final(self).has_byte(b) <==> old(self).has_byte(b)
                                || in_block(data as int, eff, b)
                    },
                    Err(BuddyError::Unaligned) => {
                        &&& !block_aligned(data as int, eff)
                        &&& *final(self) == *old(self)
                    },
                    Err(BuddyError::DoubleFree) => {
                        &&& old(self).listed(data, eff)
                        &&& *final(self) == *old(self)
                    },
                    Err(BuddyError::OrderTooLarge) => {
                        ||| (eff > MAX_ORDER && *final(self) == *old(self))
                        ||| ({
                            &&& eff <= MAX_ORDER
                            &&& block_aligned(data as int, eff)
                            &&& old(self).range_unfree(data as int, eff)
                            &&& (forall|b: int|
                                0 <= b <= u64::MAX ==> #[trigger] old(self).has_byte(b)
                                    || in_block(data as int, eff, b))
                            &&& (forall|b: int|
                                #[trigger] final(self).has_byte(b) ==> old(self).has_byte(b)
                                    || in_block(data as int, eff, b))
                        })
                    },
                }
            }),
            ({
                let eff = effective_order(layout.spec_size(), order_for_size(layout.spec_align()));
                eff <= MAX_ORDER && block_aligned(data as int, eff) && old(self).range_unfree(
                    data as int,
                    eff,
                ) && (exists|b: int|
                    0 <= b <= u64::MAX && !old(self).has_byte(b) && !in_block(data as int, eff, b))
                    ==> r == Ok::<(), BuddyError>(())
            }),
    {
        let ro = round_up_order_of_size(layout.size());
        let lo = layout_order(layout);
        let order: usize = if ro > lo {
            ro
        } else {
            lo
        };
        self.free_order_exact(data, order)
    }

    /// Free an arbitrary byte span: the boot-time path that hands the
    /// allocator large, irregular physical regions. The span is trimmed
    /// to whole granules (a remainder below one granule is dropped), then
    /// decomposed greedily into the largest naturally-aligned blocks that
    /// fit, each freed exactly.
    pub fn free_region(&mut self, data: u64, size: u64) -> (r: Result<(), BuddyError>)
        requires
            old(self).wf(),
            data + size <= u64::MAX + 1,
            forall|b: int| in_region(data as int, size as int, b) ==> !old(self).has_byte(b),
        ensures
            final(self).wf(),
            match r {
                Ok(()) => forall|b: int|
                    #[trigger] final(self).has_byte(b) <==> old(self).has_byte(b) || in_region(
                        data as int,
                        size as int,
                        b,
                    ),
                Err(e) => {
                    // only a coalescing overflow fails a region free, and
                    // it proves the whole address space was covered
                    &&& e == BuddyError::OrderTooLarge
                    &&& (forall|b: int|
                        0 <= b <= u64::MAX ==> #[trigger] old(self).has_byte(b) || in_region(
                            data as int,
                            size as int,
                            b,
                        ))
                    &&& (forall|b: int|
                        #[trigger] final(self).has_byte(b) ==> old(self).has_byte(b) || in_region(
                            data as int,
                            size as int,
                            b,
                        ))
                },
            },
    {
        let rem = data % GRANULE;
        let off = if rem == 0 {
            0
        } else {
            GRANULE - rem
        };
        proof {
            vstd::arithmetic::div_mod::lemma_mod_self_0(GRANULE as int);
            if rem != 0 {
                vstd::arithmetic::div_mod::lemma_small_mod(
                    (GRANULE - rem) as nat,
                    GRANULE as nat,
                );
            }
            assert(region_start(data as int) == data + off);
        }
        if size < off {
            proof {
                assert(region_len(data as int, size as int) == 0);
            }
            return Ok(());
        }
        let avail = size - off;
        let len = avail - (avail % GRANULE);
        proof {
            vstd::arithmetic::div_mod::lemma_fundamental_div_mod(avail as int, GRANULE as int);
            assert(region_len(data as int, size as int) == len);
        }
        if len == 0 {
            return Ok(());
        }
        let ghost start = (data + off) as int;
        let mut cur = data + off;
        let mut left = len;
        proof {
            lemma_order_size_values();
            vstd::arithmetic::div_mod::lemma_mod_adds(data as int, off as int, GRANULE as int);
            assert(cur as int % GRANULE as int == 0) by {
                if rem == 0 {
                } else {
                    vstd::arithmetic::div_mod::lemma_fundamental_div_mod(data as int, GRANULE as int);
                    vstd::arithmetic::div_mod::lemma_mod_multiples_vanish(
                        data as int / GRANULE as int + 1,
                        0,
                        GRANULE as int,
                    );
                }
            }
            assert(left as int % GRANULE as int == 0);
        }
        while left > 0
            invariant
                self.wf(),
                left as int % GRANULE as int == 0,
                0 <= left <= len,
                start + len <= u64::MAX + 1,
                left > 0 ==> cur as int == start + len - left && cur as int % GRANULE as int == 0,
                forall|b: int|
                    #[trigger] self.has_byte(b) <==> old(self).has_byte(b) || (start <= b < start
                        + len - left),
                forall|b: int| start + len - left <= b < start + len ==> !self.has_byte(b),
                forall|b: int| (start <= b < start + len) == in_region(data as int, size as int, b),
                forall|b: int| in_region(data as int, size as int, b) ==> !old(self).has_byte(b),
            decreases left,
        {
            let po = max_order_of_ptr(cur);
            let so = max_order_of_size(left);
            let o: usize = if po < so {
                po
            } else {
                so
            };
            proof {
                lemma_align_order_rec(cur as int, MAX_ORDER as int);
                lemma_fit_order_rec(left as int, MAX_ORDER as int);
                lemma_order_size_values();
                // the chunk is aligned to the chosen order
                if po > 0 {
                    crate::order::lemma_align_lower(cur as int, po as int, o as int);
                } else {
                    assert(o == 0);
                }
                assert(block_aligned(cur as int, o as int));
                // and no larger than what is left
                if so > 0 && o == so {
                    assert(order_size_spec(o as int) <= left as int);
                } else if so == 0 {
                    assert(o == 0);
                    assert(order_size_spec(0) == GRANULE as int);
                } else {
                    lemma_order_size_increases(o as int, so as int);
                }
                assert(order_size_spec(o as int) <= left as int);
                lemma_aligned_fits(cur, o as int);
            }
            let ghost before = *self;
            let res = self.free_order_exact(cur, o);
            match res {
                Ok(()) => {},
                Err(e) => {
                    proof {
                        // only an order overflow can reach this point: the
                        // chunk is aligned and its bytes are not yet free
                        assert(before.range_unfree(cur as int, o as int));
                        if e == BuddyError::DoubleFree {
                            let i = choose|i: int|
                                0 <= i < before.list(o as int).len() && before.list(o as int)[i]
                                    == cur;
                            assert(in_block(
                                before.list(o as int)[i] as int,
                                o as int,
                                cur as int,
                            ));
                            assert(before.has_byte(cur as int));
                            assert(in_block(cur as int, o as int, cur as int));
                        }
                        assert(e == BuddyError::OrderTooLarge);
                        assert forall|b: int| 0 <= b <= u64::MAX implies #[trigger] old(
                            self,
                        ).has_byte(b) || in_region(data as int, size as int, b) by {
                            assert(before.has_byte(b) || in_block(cur as int, o as int, b));
                            if in_block(cur as int, o as int, b) {
                                assert(start + len - left <= b < start + len);
                            } else if !old(self).has_byte(b) {
                                assert(start <= b < start + len - left);
                            }
                        }
                    }
                    return Err(e);
                },
            }
            let osz = order_size(o);
            left = left - osz;
            if left > 0 {
                cur = cur + osz;
            }
            proof {
                vstd::arithmetic::div_mod::lemma_sub_mod_noop(
                    left as int + osz as int,
                    osz as int,
                    GRANULE as int,
                );
                assert(osz as int % GRANULE as int == 0) by {
                    lemma_order_size_pos(o as int);
                    crate::order::lemma_align_lower(osz as int, o as int, 0);
                    assert(block_aligned(osz as int, o as int)) by {
                        vstd::arithmetic::div_mod::lemma_mod_self_0(order_size_spec(o as int));
                    }
                }
                assert(left as int % GRANULE as int == 0);
            }
        }
        Ok(())
    }
}

} // verus!
