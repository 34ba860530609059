//! The allocation dispatcher: the single entry point for every
//! allocate/free call.
//!
//! Requests at most half a frame long with less than half a frame's
//! alignment go to the object slab allocator; everything larger is
//! served frame-granular straight from the buddy allocator. The free
//! path applies the identical routing test, so a free always reaches the
//! sub-allocator that served the allocation. Mutual exclusion around the
//! pair is the embedder's duty: both allocators live behind one lock
//! that also masks interrupts, outside this crate.

use vstd::prelude::*;

verus! {

use crate::buddy::{Buddy, BuddyError};
use crate::layout::Layout;
use crate::order::{
    MAX_ORDER, ORDER_COUNT, order_for_size, effective_order, valid_block, in_block, block_aligned,
};
use crate::slab::{
    SlabAllocator, SlabError, slab_buddy_compat, norm_size, norm_align, chosen_cache,
    entries_kept, lemma_entries_kept_trans,
};

/// Failure of a dispatched request, from whichever allocator served it.
#[derive(Clone, Copy, Debug, PartialEq, Eq, Structural)]
pub enum KallocError {
    Buddy(BuddyError),
    Slab(SlabError),
    /// No free block large enough anywhere.
    OutOfMemory,
}

/// Half a frame: the largest request the slab allocator serves.
pub const SLAB_MAX_SIZE: u64 = 2048;

/// Half a frame's natural alignment: the slab bound on alignment.
pub const SLAB_MAX_ALIGN: u64 = 2048;

/// The routing test, applied identically on allocate and on free.
pub open spec fn routes_to_slab(layout: Layout) -> bool {
    layout.spec_size() <= SLAB_MAX_SIZE && layout.spec_align() < SLAB_MAX_ALIGN
}

/// The single global allocation authority: the buddy allocator and the
/// object slab allocator built on top of it, dispatched to by size.
pub struct Kalloc {
    pub buddy: Buddy,
    pub slab: SlabAllocator,
}

impl Kalloc {
    pub open spec fn wf(self) -> bool {
        &&& self.buddy.wf()
        &&& self.slab.wf()
        &&& slab_buddy_compat(self.slab, self.buddy)
    }

    /// An empty allocator: no free memory, no caches, no carved frames.
    pub fn new() -> (r: Kalloc)
        ensures
            r.wf(),
            r.buddy.is_empty_spec(),
            r.slab.cache_seq().len() == 0,
            r.slab.page_seq().len() == 0,
    {
        Kalloc { buddy: Buddy::new(), slab: SlabAllocator::new() }
    }

    /// Register the fixed ascending ladder of slab size classes, all
    /// 8-byte aligned, from one machine word up to half a frame.
    /// Afterwards every ladder class has a cache; every cache that
    /// existed before — class and free list — is still there unchanged,
    /// and at most the fourteen ladder entries were added.
    #[verifier::rlimit(100)]
    pub fn init(&mut self)
        requires
            old(self).wf(),
        ensures
            final(self).wf(),
            final(self).buddy == old(self).buddy,
            final(self).slab.page_seq() == old(self).slab.page_seq(),
            final(self).slab.cache_seq().len() <= old(self).slab.cache_seq().len() + 14,
            entries_kept(old(self).slab.cache_seq(), final(self).slab.cache_seq()),
            forall|s: int, al: int|
                #[trigger] old(self).slab.registered_class(s, al)
                    ==> final(self).slab.registered_class(s, al),
            final(self).slab.registered_class(8, 8),
            final(self).slab.registered_class(16, 8),
            final(self).slab.registered_class(24, 8),
            final(self).slab.registered_class(32, 8),
            final(self).slab.registered_class(48, 8),
            final(self).slab.registered_class(64, 8),
            final(self).slab.registered_class(96, 8),
            final(self).slab.registered_class(128, 8),
            final(self).slab.registered_class(192, 8),
            final(self).slab.registered_class(256, 8),
            final(self).slab.registered_class(384, 8),
            final(self).slab.registered_class(512, 8),
            final(self).slab.registered_class(1024, 8),
            final(self).slab.registered_class(2048, 8),
    {
        let ghost c0 = self.slab.cache_seq();
        self.add_word_class(8);
        let ghost c1 = self.slab.cache_seq();
        self.add_word_class(16);
        proof {
            lemma_entries_kept_trans(c0, c1, self.slab.cache_seq());
        }
        let ghost c2 = self.slab.cache_seq();
        self.add_word_class(24);
        proof {
            lemma_entries_kept_trans(c0, c2, self.slab.cache_seq());
        }
        let ghost c3 = self.slab.cache_seq();
        self.add_word_class(32);
        proof {
            lemma_entries_kept_trans(c0, c3, self.slab.cache_seq());
        }
        let ghost c4 = self.slab.cache_seq();
        self.add_word_class(48);
        proof {
            lemma_entries_kept_trans(c0, c4, self.slab.cache_seq());
        }
        let ghost c5 = self.slab.cache_seq();
        self.add_word_class(64);
        proof {
            lemma_entries_kept_trans(c0, c5, self.slab.cache_seq());
        }
        let ghost c6 = self.slab.cache_seq();
        self.add_word_class(96);
        proof {
            lemma_entries_kept_trans(c0, c6, self.slab.cache_seq());
        }
        let ghost c7 = self.slab.cache_seq();
        self.add_word_class(128);
        proof {
            lemma_entries_kept_trans(c0, c7, self.slab.cache_seq());
        }
        let ghost c8 = self.slab.cache_seq();
        self.add_word_class(192);
        proof {
            lemma_entries_kept_trans(c0, c8, self.slab.cache_seq());
        }
        let ghost c9 = self.slab.cache_seq();
        self.add_word_class(256);
        proof {
            lemma_entries_kept_trans(c0, c9, self.slab.cache_seq());
        }
        let ghost c10 = self.slab.cache_seq();
        self.add_word_class(384);
        proof {
            lemma_entries_kept_trans(c0, c10, self.slab.cache_seq());
        }
        let ghost c11 = self.slab.cache_seq();
        self.add_word_class(512);
        proof {
            lemma_entries_kept_trans(c0, c11, self.slab.cache_seq());
        }
        let ghost c12 = self.slab.cache_seq();
        self.add_word_class(1024);
        proof {
            lemma_entries_kept_trans(c0, c12, self.slab.cache_seq());
        }
        let ghost c13 = self.slab.cache_seq();
        self.add_word_class(2048);
        proof {
            lemma_entries_kept_trans(c0, c13, self.slab.cache_seq());
        }
    }

    /// Register one ladder class: a multiple of the machine word, up to
    /// half a frame, at word alignment.
    fn add_word_class(&mut self, sz: u64)
        requires
            old(self).wf(),
            8 <= sz <= SLAB_MAX_SIZE,
            sz % 8 == 0,
        ensures
            final(self).wf(),
            final(self).buddy == old(self).buddy,
            final(self).slab.page_seq() == old(self).slab.page_seq(),
            final(self).slab.cache_seq().len() <= old(self).slab.cache_seq().len() + 1,
            final(self).slab.registered_class(sz as int, 8),
            forall|s: int, al: int|
                #[trigger] old(self).slab.registered_class(s, al)
                    ==> final(self).slab.registered_class(s, al),
            entries_kept(old(self).slab.cache_seq(), final(self).slab.cache_seq()),
    {
        let l = match Layout::from_size_align(sz, 8) {
            Some(l) => l,
            None => {
                proof {
                    vstd::arithmetic::power2::lemma2_to64();
                    vstd::arithmetic::power2::is_pow2_equiv(8);
                    vstd::arithmetic::power::lemma_pow_positive(2, 3);
                    assert(vstd::arithmetic::power2::pow2(3) == 8);
                    assert(false);
                }
                return ;
            },
        };
        proof {
            crate::slab::lemma_norm_size(l);
            // a word multiple is its own normalized size
            vstd::arithmetic::div_mod::lemma_fundamental_div_mod(l.spec_size() + 7, 8);
            assert(norm_size(l) < l.spec_size() + 8);
            assert(norm_align(l) == 8);
            assert(norm_size(l) == sz) by {
                if norm_size(l) != sz {
                    assert(sz < norm_size(l) < sz + 8);
                    vstd::arithmetic::div_mod::lemma_sub_mod_noop(norm_size(l), sz as int, 8);
                    vstd::arithmetic::div_mod::lemma_small_mod((norm_size(l) - sz) as nat, 8);
                }
            }
            assert forall|b: int| #[trigger] self.slab.owns_byte(b) implies !self
                .buddy.has_byte(b) by {}
        }
        let ghost pre_slab = self.slab;
        self.slab.add_cache(l);
        proof {
            assert forall|b: int| #[trigger] self.slab.owns_byte(b) implies !self
                .buddy.has_byte(b) by {
                assert(pre_slab.owns_byte(b));
            }
        }
    }

    /// Serve an allocation request: small ones from the slab allocator,
    /// large ones as whole frames from the buddy allocator. The address
    /// returned satisfies the requested alignment; failure to find
    /// memory is an error value, never an abort.
    pub fn allocate(&mut self, layout: Layout) -> (r: Result<u64, KallocError>)
        requires
            old(self).wf(),
            layout.wf(),
        ensures
            final(self).wf(),
            match r {
                Ok(a) => {
                    &&& a as int % layout.spec_align() == 0
                    &&& if routes_to_slab(layout) {
                        &&& final(self).slab.owns_byte(a as int)
                        &&& a as int % norm_align(layout) == 0
                        &&& crate::slab::slab_served(
                            old(self).slab,
                            final(self).slab,
                            old(self).buddy,
                            final(self).buddy,
                            layout,
                            a,
                        )
                    } else {
                        ({
                            let eff = effective_order(
                                layout.spec_size(),
                                order_for_size(layout.spec_align()),
                            );
                            &&& valid_block(a as int, eff)
                            &&& *final(self) == (Kalloc {
                                buddy: final(self).buddy,
                                slab: old(self).slab,
                            })
                            &&& forall|b: int|
                                #[trigger] final(self).buddy.has_byte(b) <==> (old(
                                    self,
                                ).buddy.has_byte(b) && !in_block(a as int, eff, b))
                            &&& forall|b: int|
                                in_block(a as int, eff, b) ==> old(self).buddy.has_byte(b)
                        })
                    }
                },
                Err(KallocError::OutOfMemory) => {
                    &&& !routes_to_slab(layout)
                    &&& *final(self) == *old(self)
                    &&& ({
                        let eff = effective_order(
                            layout.spec_size(),
                            order_for_size(layout.spec_align()),
                        );
                        eff > MAX_ORDER || forall|o: int|
                            eff <= o < ORDER_COUNT ==> #[trigger] old(self).buddy.list(o).len()
                                == 0
                    })
                },
                Err(KallocError::Slab(e)) => {
                    &&& routes_to_slab(layout)
                    &&& final(self).buddy == old(self).buddy
                    &&& final(self).slab.cache_seq() == old(self).slab.cache_seq()
                    &&& final(self).slab.page_seq() == old(self).slab.page_seq()
                    &&& match e {
                        SlabError::NoCache => forall|ci: int|
                            0 <= ci < old(self).slab.cache_seq().len() ==> !((#[trigger] old(
                                self,
                            ).slab.cache_seq()[ci]).layout.spec_size() >= norm_size(layout) && old(
                                self,
                            ).slab.cache_seq()[ci].layout.spec_align() >= norm_align(layout)),
                        SlabError::OutOfMemory => forall|o: int|
                            0 <= o < ORDER_COUNT ==> #[trigger] old(self).buddy.list(o).len() == 0,
                        SlabError::CountMismatch => exists|ci: int, pi: int|
                            {
                                &&& #[trigger] chosen_cache(
                                    old(self).slab.cache_seq(),
                                    ci,
                                    norm_size(layout),
                                    norm_align(layout),
                                )
                                &&& old(self).slab.cache_seq()[ci].free_list@.len() > 0
                                &&& 0 <= pi < old(self).slab.page_seq().len()
                                &&& (#[trigger] old(self).slab.page_seq()[pi]).holds_byte(
                                    old(self).slab.cache_seq()[ci].free_list@.last() as int,
                                )
                                &&& old(self).slab.page_seq()[pi].free == 0
                            },
                        _ => false,
                    }
                },
                Err(KallocError::Buddy(e)) => false,
            },
    {
        if layout.size() <= SLAB_MAX_SIZE && layout.align() < SLAB_MAX_ALIGN {
            match self.slab.allocate(&mut self.buddy, layout) {
                Ok(a) => Ok(a),
                Err(e) => Err(KallocError::Slab(e)),
            }
        } else {
            match self.buddy.allocate(layout) {
                Some(a) => Ok(a),
                None => Err(KallocError::OutOfMemory),
            }
        }
    }

    /// Free through the identical routing test used at allocation time,
    /// with the original request's layout.
    pub fn dealloc(&mut self, ptr: u64, layout: Layout) -> (r: Result<(), KallocError>)
        requires
            old(self).wf(),
            layout.wf(),
            routes_to_slab(layout) ==> (old(self).slab.owns_byte(ptr as int) ==> old(
                self,
            ).slab.slot_shaped(ptr)),
            !routes_to_slab(layout) ==> ({
                let eff = effective_order(layout.spec_size(), order_for_size(layout.spec_align()));
                &&& (eff <= MAX_ORDER && block_aligned(ptr as int, eff) ==> old(
                    self,
                ).buddy.range_unfree(ptr as int, eff) || old(self).buddy.listed(ptr, eff))
                &&& forall|b: int|
                    in_block(ptr as int, eff, b) ==> !old(self).slab.owns_byte(b)
            }),
        ensures
            final(self).wf(),
            match r {
                Ok(()) => {
                    if routes_to_slab(layout) {
                        &&& *final(self) == (Kalloc {
                            buddy: old(self).buddy,
                            slab: final(self).slab,
                        })
                        &&& final(self).slab.slot_listed(ptr)
                        &&& old(self).slab.owns_byte(ptr as int)
                        &&& !old(self).slab.slot_listed(ptr)
                        &&& crate::slab::slot_returned(old(self).slab, final(self).slab, ptr)
                    } else {
                        ({
                            let eff = effective_order(
                                layout.spec_size(),
                                order_for_size(layout.spec_align()),
                            );
                            &&& *final(self) == (Kalloc {
                                buddy: final(self).buddy,
                                slab: old(self).slab,
                            })
                            &&& forall|b: int|
                                #[trigger] final(self).buddy.has_byte(b) <==> old(
                                    self,
                                ).buddy.has_byte(b) || in_block(ptr as int, eff, b)
                        })
                    }
                },
                Err(KallocError::Buddy(e)) => {
                    &&& !routes_to_slab(layout)
                    &&& ({
                        let eff = effective_order(
                            layout.spec_size(),
                            order_for_size(layout.spec_align()),
                        );
                        match e {
                            BuddyError::Unaligned => !block_aligned(ptr as int, eff)
                                && *final(self) == *old(self),
                            BuddyError::DoubleFree => old(self).buddy.listed(ptr, eff)
                                && *final(self) == *old(self),
                            BuddyError::OrderTooLarge => {
                                ||| (eff > MAX_ORDER && *final(self) == *old(self))
                                ||| ({
                                    &&& block_aligned(ptr as int, eff)
                                    &&& old(self).buddy.range_unfree(ptr as int, eff)
                                    &&& (forall|b: int|
                                        0 <= b <= u64::MAX ==> #[trigger] old(
                                            self,
                                        ).buddy.has_byte(b) || in_block(ptr as int, eff, b))
                                    &&& final(self).slab == old(self).slab
                                    &&& (forall|b: int|
                                        #[trigger] final(self).buddy.has_byte(b) ==> old(
                                            self,
                                        ).buddy.has_byte(b) || in_block(ptr as int, eff, b))
                                })
                            },
                        }
                    })
                },
                Err(KallocError::Slab(e)) => {
                    &&& routes_to_slab(layout)
                    &&& final(self).buddy == old(self).buddy
                    &&& final(self).slab.cache_seq() == old(self).slab.cache_seq()
                    &&& final(self).slab.page_seq() == old(self).slab.page_seq()
                    &&& match e {
                        SlabError::UntrackedPointer => !old(self).slab.owns_byte(ptr as int),
                        SlabError::DoubleFree => old(self).slab.owns_byte(ptr as int) && old(
                            self,
                        ).slab.slot_listed(ptr),
                        SlabError::CountMismatch => exists|pi: int|
                            0 <= pi < old(self).slab.page_seq().len() && (#[trigger] old(
                                self,
                            ).slab.page_seq()[pi]).holds_byte(ptr as int) && old(
                                self,
                            ).slab.page_seq()[pi].allocated == 0,
                        _ => false,
                    }
                },
                Err(KallocError::OutOfMemory) => false,
            },
    {
        if layout.size() <= SLAB_MAX_SIZE && layout.align() < SLAB_MAX_ALIGN {
            let r = self.slab.free(ptr, layout);
            proof {
                assert forall|b: int| #[trigger] self.slab.owns_byte(b) implies !self
                    .buddy.has_byte(b) by {
                    assert(old(self).slab.owns_byte(b));
                }
            }
            match r {
                Ok(()) => {
                    proof {
                        let (pi, ci) = choose|pi: int, ci: int|
                            {
                                &&& 0 <= pi < old(self).slab.page_seq().len()
                                &&& (#[trigger] old(self).slab.page_seq()[pi]).holds_byte(
                                    ptr as int,
                                )
                                &&& 0 <= ci < old(self).slab.cache_seq().len()
                                &&& (#[trigger] old(self).slab.cache_seq()[ci]).layout == old(
                                    self,
                                ).slab.page_seq()[pi].layout
                                &&& self.slab.cache_seq()[ci].free_list@ == old(
                                    self,
                                ).slab.cache_seq()[ci].free_list@.push(ptr)
                            };
                        let n = old(self).slab.cache_seq()[ci].free_list@.len() as int;
                        assert(self.slab.cache_seq()[ci].free_list@[n] == ptr);
                    }
                    Ok(())
                },
                Err(e) => Err(KallocError::Slab(e)),
            }
        } else {
            let r = self.buddy.free(ptr, layout);
            proof {
                assert forall|b: int| #[trigger] self.slab.owns_byte(b) implies !self
                    .buddy.has_byte(b) by {
                    assert(old(self).slab.owns_byte(b));
                    assert(!old(self).buddy.has_byte(b));
                    let eff = effective_order(
                        layout.spec_size(),
                        order_for_size(layout.spec_align()),
                    );
                    assert(!in_block(ptr as int, eff, b));
                }
            }
            match r {
                Ok(()) => Ok(()),
                Err(e) => Err(KallocError::Buddy(e)),
            }
        }
    }

    /// Hand the allocator a span of physical memory discovered at boot:
    /// trimmed to whole granules and freed into the buddy allocator.
    pub fn free_region(&mut self, data: u64, size: u64) -> (r: Result<(), BuddyError>)
        requires
            old(self).wf(),
            data + size <= u64::MAX + 1,
            forall|b: int|
                crate::buddy::in_region(data as int, size as int, b) ==> !old(
                    self,
                ).buddy.has_byte(b) && !old(self).slab.owns_byte(b),
        ensures
            final(self).wf(),
            *final(self) == (Kalloc { buddy: final(self).buddy, slab: old(self).slab }),
            match r {
                Ok(()) => forall|b: int|
                    #[trigger] final(self).buddy.has_byte(b) <==> old(self).buddy.has_byte(b)
                        || crate::buddy::in_region(data as int, size as int, b),
                Err(e) => e == BuddyError::OrderTooLarge && (forall|b: int|
                    0 <= b <= u64::MAX ==> #[trigger] old(self).buddy.has_byte(b)
                        || crate::buddy::in_region(data as int, size as int, b)) && (forall|b: int|
                    #[trigger] final(self).buddy.has_byte(b) ==> old(self).buddy.has_byte(b)
                        || crate::buddy::in_region(data as int, size as int, b)),
            },
    {
        let r = self.buddy.free_region(data, size);
        proof {
            if r is Ok {
                assert forall|b: int| #[trigger] self.slab.owns_byte(b) implies !self
                    .buddy.has_byte(b) by {
                    assert(!old(self).buddy.has_byte(b));
                    assert(!crate::buddy::in_region(data as int, size as int, b));
                }
            }
        }
        r
    }
}

} // verus!
