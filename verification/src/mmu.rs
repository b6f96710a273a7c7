//! The memory-management unit state: physical memory, the page allocator
//! and the model of the hardware TLB, with the page-level allocation API.

use vstd::prelude::*;
use vstd::arithmetic::power2::pow2;
use crate::addr::{PPN, VA};
use crate::layout::{NASID, PAGE_SIZE, PAGE_WORDS};
use crate::page::{buddy_of, order_of, Page, PageAllocator, PhysMem, ORDER};

verus! {

/// One cached translation in the hardware TLB, keyed by its EntryHi value
/// (virtual page number and ASID) and carrying the two EntryLo halves.
/// The protocol proved here is about which tags are cached — stale tags
/// gone after invalidation and teardown; what the refill path wrote is
/// stated where it records an entry, and only there: the contracts do not
/// otherwise constrain the `lo` words a tag carries.
#[derive(Clone, Copy, Debug, PartialEq, Eq, Structural)]
pub struct TlbEntry {
    /// The EntryHi tag: `vpn * PAGE_SIZE + asid`.
    pub hi: usize,
    /// EntryLo for the even page of the pair.
    pub lo0: u32,
    /// EntryLo for the odd page of the pair.
    pub lo1: u32,
}

/// The hardware TLB, modelled as the set of cached translations.
pub struct Tlb {
    /// The cached entries.
    pub entries: Vec<TlbEntry>,
}

/// The EntryHi tag for a virtual address and ASID.
pub open spec fn tlb_key(va: VA, asid: int) -> int {
    va.0 as int / PAGE_SIZE as int * PAGE_SIZE as int + asid
}

impl Tlb {
    /// Whether the TLB caches a translation with EntryHi tag `hi`.
    pub open spec fn has(self, hi: int) -> bool {
        exists|k: int| 0 <= k < self.entries@.len() && (#[trigger] self.entries@[k]).hi == hi
    }

    /// An empty TLB.
    pub fn new() -> (r: Self)
        ensures
            forall|h: int| !r.has(h),
    {
        let r = Tlb { entries: Vec::new() };
        proof {
            assert forall|h: int| !r.has(h) by {
                if r.has(h) {
                    let k = choose|k: int|
                        0 <= k < r.entries@.len() && (#[trigger] r.entries@[k]).hi == h;
                }
            }
        }
        r
    }

    /// Drops every entry tagged `hi`, keeping all others.
    fn invalidate(&mut self, hi: usize)
        ensures
            !final(self).has(hi as int),
            forall|h: int| h != hi ==> (final(self).has(h) <==> old(self).has(h)),
    {
        let mut kept: Vec<TlbEntry> = Vec::new();
        let mut i: usize = 0;
        let n = self.entries.len();
        while i < n
            invariant
                i <= n,
                n == self.entries@.len(),
                forall|k: int| 0 <= k < kept@.len() ==> (#[trigger] kept@[k]).hi != hi,
                forall|k: int|
                    0 <= k < kept@.len()
                        ==> exists|j: int|
                            0 <= j < i && (#[trigger] kept@[k]) == self.entries@[j],
                forall|j: int|
                    0 <= j < i && (#[trigger] self.entries@[j]).hi != hi
                        ==> exists|k: int|
                            0 <= k < kept@.len() && kept@[k] == self.entries@[j],
            decreases n - i,
        {
            let e = self.entries[i];
            let ghost kept0 = kept@;
            if e.hi != hi {
                kept.push(e);
            }
            proof {
                assert forall|j: int|
                    0 <= j < i + 1 && (#[trigger] self.entries@[j]).hi != hi
                        implies exists|k: int|
                            0 <= k < kept@.len() && kept@[k] == self.entries@[j] by {
                    if j == i {
                        assert(kept@[kept@.len() - 1] == self.entries@[j]);
                    } else {
                        let k = choose|k: int|
                            0 <= k < kept0.len() && kept0[k] == self.entries@[j];
                        assert(kept@[k] == self.entries@[j]);
                    }
                }
            }
            i = i + 1;
        }
        self.entries = kept;
        proof {
            assert forall|h: int| h != hi && old(self).has(h)
                implies self.has(h) by {
                let j = choose|j: int|
                    0 <= j < old(self).entries@.len() && (#[trigger] old(self).entries@[j]).hi == h;
                let k = choose|k: int|
                    0 <= k < self.entries@.len() && self.entries@[k] == old(self).entries@[j];
                assert(self.entries@[k].hi == h);
            }
            assert forall|h: int| self.has(h) implies old(self).has(h) && h != hi by {
                let k = choose|k: int|
                    0 <= k < self.entries@.len() && (#[trigger] self.entries@[k]).hi == h;
                let j = choose|j: int|
                    0 <= j < old(self).entries@.len()
                        && self.entries@[k] == old(self).entries@[j];
            }
        }
    }

    /// Records a translation, as the refill trampoline writes it into the
    /// hardware TLB.
    fn record(&mut self, hi: usize, lo0: u32, lo1: u32)
        ensures
            final(self).has(hi as int),
            forall|h: int| h != hi ==> (final(self).has(h) <==> old(self).has(h)),
    {
        let n = self.entries.len();
        self.entries.push(TlbEntry { hi, lo0, lo1 });
        proof {
            assert(self.entries@[n as int].hi == hi);
            assert forall|h: int| h != hi && old(self).has(h) implies self.has(h) by {
                let k = choose|k: int|
                    0 <= k < old(self).entries@.len() && (#[trigger] old(self).entries@[k]).hi == h;
                assert(self.entries@[k].hi == h);
            }
            assert forall|h: int| h != hi && self.has(h) implies old(self).has(h) by {
                let k = choose|k: int|
                    0 <= k < self.entries@.len() && (#[trigger] self.entries@[k]).hi == h;
                assert(k < n);
            }
        }
    }
}

/// The kernel's memory-management state: physical memory, the buddy
/// allocator with its reference counts, and the hardware TLB.
pub struct Mmu {
    /// Physical memory.
    pub mem: PhysMem,
    /// The buddy page allocator and reference-count tracker.
    pub allocator: PageAllocator,
    /// The hardware TLB cache.
    pub tlb: Tlb,
}

impl Mmu {
    /// Well-formed: memory and allocator agree on the number of pages.
    pub open spec fn wf(self) -> bool {
        &&& self.mem.wf()
        &&& self.allocator.wf()
        &&& self.allocator.npages() == self.mem.page_count
    }

    /// The number of physical pages.
    pub open spec fn npages(self) -> int {
        self.mem.page_count as int
    }

    /// The reference count of page `p`.
    pub open spec fn rc_of(self, p: int) -> u16 {
        self.allocator.tracker.rc_at(p)
    }

    /// Whether page `p` is on a free list.
    pub open spec fn is_free(self, p: int) -> bool {
        self.allocator.free_in(p)
    }

    /// A free page carries no references: it is covered by some free
    /// block, and a well-formed allocator keeps covered pages at count
    /// zero.
    pub proof fn lemma_free_rc_zero(self, q: int)
        requires
            self.wf(),
            self.is_free(q),
        ensures
            self.rc_of(q) == 0,
    {
        let (bi, bj) = choose|bi: int, bj: int|
            self.allocator.block_in_range(bi, bj) && #[trigger] self.allocator.covers(bi, bj, q);
        assert(self.allocator.tracker.rc_at(q) == 0);
    }

    /// The reference count of `page`, or `None` for a page outside memory.
    pub fn ref_count(&self, page: Page) -> (r: Option<u16>)
        requires
            self.wf(),
        ensures
            r == if page.ppn.0 < self.npages() {
                Some(self.rc_of(page.ppn.0 as int))
            } else {
                None::<u16>
            },
    {
        self.allocator.tracker.ref_count(page.ppn)
    }

    /// Allocates one page, clearing it if asked. Returns `None` exactly
    /// when no page is free.
    pub fn page_alloc(&mut self, clear: bool) -> (r: Option<Page>)
        requires
            old(self).wf(),
        ensures
            final(self).wf(),
            final(self).npages() == old(self).npages(),
            final(self).tlb == old(self).tlb,
            final(self).allocator.tracker == old(self).allocator.tracker,
            match r {
                None => {
                    &&& *final(self) == *old(self)
                    &&& forall|q: int| !old(self).is_free(q)
                },
                Some(page) => {
                    &&& page.ppn.0 < old(self).npages()
                    &&& old(self).is_free(page.ppn.0 as int)
                    &&& old(self).rc_of(page.ppn.0 as int) == 0
                    &&& (old(self).allocator.free_list@[0]@.len() > 0
                        ==> page.ppn == old(self).allocator.free_list@[0]@.last()
                            && final(self).allocator.free_list@[0]@
                                == old(self).allocator.free_list@[0]@.drop_last())
                    &&& (forall|q: int|
                        #[trigger] final(self).is_free(q)
                            <==> (old(self).is_free(q) && q != page.ppn.0))
                    &&& (clear ==> forall|k: int|
                        0 <= k < PAGE_WORDS
                            ==> #[trigger] final(self).mem.word(page.ppn.0 as int, k) == 0)
                    &&& (forall|p: int, k: int|
                        0 <= p < old(self).npages() && 0 <= k < PAGE_WORDS && p != page.ppn.0
                            ==> #[trigger] final(self).mem.word(p, k) == old(self).mem.word(p, k))
                    &&& (!clear ==> final(self).mem == old(self).mem)
                },
            },
    {
        proof {
            vstd::arithmetic::power::lemma_pow0(2);
        }
        let r = self.allocator.alloc_block(&mut self.mem, clear, 1);
        match r {
            Some(ppn) => {
                proof {
                    assert(old(self).is_free(ppn.0 as int));
                    assert forall|q: int|
                        #[trigger] self.is_free(q)
                            implies (old(self).is_free(q) && q != ppn.0) by {}
                    assert forall|q: int|
                        old(self).is_free(q) && q != ppn.0
                            implies #[trigger] self.is_free(q) by {}
                }
                Some(Page::new(ppn))
            },
            None => {
                proof {
                    assert forall|q: int| !old(self).is_free(q) by {
                        if old(self).is_free(q) {
                            let (i2, j2) = choose|i2: int, j2: int|
                                old(self).allocator.block_in_range(i2, j2)
                                    && #[trigger] old(self).allocator.covers(i2, j2, q);
                            assert(old(self).allocator.free_list@[i2]@.len() == 0);
                        }
                    }
                }
                None
            },
        }
    }

    /// Allocates a contiguous block of `size` pages (rounded up to a power
    /// of two), clearing it if asked.
    pub fn page_alloc_contiguous(&mut self, clear: bool, size: usize) -> (r: Option<Page>)
        requires
            old(self).wf(),
            1 <= size <= 0x8000_0000,
        ensures
            final(self).wf(),
            final(self).npages() == old(self).npages(),
            final(self).tlb == old(self).tlb,
            final(self).allocator.tracker == old(self).allocator.tracker,
            match r {
                None => {
                    &&& *final(self) == *old(self)
                    &&& forall|i: int|
                        order_of(size as int) <= i < ORDER
                            ==> (#[trigger] old(self).allocator.free_list@[i]@.len()) == 0
                },
                Some(page) => {
                    &&& page.ppn.0 as int % pow2(order_of(size as int)) as int == 0
                    &&& page.ppn.0 + pow2(order_of(size as int)) <= old(self).npages()
                    &&& (forall|q: int|
                        page.ppn.0 <= q < page.ppn.0 + pow2(order_of(size as int))
                            ==> #[trigger] old(self).is_free(q))
                    &&& (forall|q: int|
                        #[trigger] final(self).is_free(q)
                            <==> (old(self).is_free(q)
                                && !(page.ppn.0 <= q < page.ppn.0 + pow2(order_of(size as int)))))
                },
            },
    {
        let r = self.allocator.alloc_block(&mut self.mem, clear, size);
        r.map(Page::new)
    }

    /// Frees one page whose reference count has already reached zero.
    pub fn page_dealloc(&mut self, page: Page)
        requires
            old(self).wf(),
            page.ppn.0 < old(self).npages(),
            !old(self).is_free(page.ppn.0 as int),
            old(self).rc_of(page.ppn.0 as int) == 0,
        ensures
            final(self).wf(),
            final(self).npages() == old(self).npages(),
            final(self).mem == old(self).mem,
            final(self).tlb == old(self).tlb,
            final(self).allocator.tracker == old(self).allocator.tracker,
            forall|q: int|
                #[trigger] final(self).is_free(q)
                    <==> (old(self).is_free(q) || q == page.ppn.0),
            // without a free buddy, the page is pushed on the order-zero
            // list, newest last, and no other list changes
            (forall|j: int|
                0 <= j < old(self).allocator.free_list@[0]@.len()
                    ==> (#[trigger] old(self).allocator.free_list@[0]@[j]).0
                        != buddy_of(page.ppn.0 as int, 0))
                ==> final(self).allocator.free_list@[0]@
                    == old(self).allocator.free_list@[0]@.push(page.ppn)
                    && (forall|i: int|
                        1 <= i < ORDER
                            ==> #[trigger] final(self).allocator.free_list@[i]@
                                == old(self).allocator.free_list@[i]@),
            // with its buddy free, the page now lies inside a single free
            // block of at least two pages: the buddies were merged eagerly
            (exists|j: int|
                0 <= j < old(self).allocator.free_list@[0]@.len()
                    && (#[trigger] old(self).allocator.free_list@[0]@[j]).0
                        == buddy_of(page.ppn.0 as int, 0))
                ==> exists|fi: int, fj: int|
                    final(self).allocator.block_in_range(fi, fj) && 1 <= fi
                        && #[trigger] final(self).allocator.block_base(fi, fj) <= page.ppn.0
                        && page.ppn.0 + 1
                            <= final(self).allocator.block_base(fi, fj) + pow2(fi as nat),
    {
        proof {
            vstd::arithmetic::power::lemma_pow0(2);
            assert(1int % 1int == 0);
            assert forall|q: int| page.ppn.0 <= q < page.ppn.0 + 1
                implies !(#[trigger] self.allocator.free_in(q)) by {
                assert(!old(self).is_free(q));
            }
            assert forall|q: int| page.ppn.0 <= q < page.ppn.0 + 1
                implies (#[trigger] self.allocator.tracker.rc_at(q)) == 0 by {
                assert(old(self).rc_of(q) == 0);
            }
        }
        self.allocator.dealloc(page.ppn, 1);
    }

    /// Frees a contiguous block of `size` pages whose reference counts have
    /// already reached zero.
    pub fn page_dealloc_contiguous(&mut self, page: Page, size: usize)
        requires
            old(self).wf(),
            1 <= size <= 0x8000_0000,
            size == pow2(order_of(size as int)),
            page.ppn.0 as int % size as int == 0,
            page.ppn.0 + size <= old(self).npages(),
            forall|q: int|
                page.ppn.0 <= q < page.ppn.0 + size ==> !(#[trigger] old(self).is_free(q)),
            forall|q: int|
                page.ppn.0 <= q < page.ppn.0 + size
                    ==> (#[trigger] old(self).rc_of(q)) == 0,
        ensures
            final(self).wf(),
            final(self).npages() == old(self).npages(),
            final(self).mem == old(self).mem,
            final(self).tlb == old(self).tlb,
            final(self).allocator.tracker == old(self).allocator.tracker,
            forall|q: int|
                #[trigger] final(self).is_free(q)
                    <==> (old(self).is_free(q) || (page.ppn.0 <= q < page.ppn.0 + size)),
            (forall|j: int|
                0 <= j < old(self).allocator.free_list@[order_of(size as int) as int]@.len()
                    ==> (#[trigger] old(self).allocator.free_list@[
                        order_of(size as int) as int]@[j]).0
                        != buddy_of(page.ppn.0 as int, order_of(size as int)))
                ==> final(self).allocator.free_list@[order_of(size as int) as int]@
                    == old(self).allocator.free_list@[
                        order_of(size as int) as int]@.push(page.ppn),
            (exists|j: int|
                0 <= j < old(self).allocator.free_list@[order_of(size as int) as int]@.len()
                    && (#[trigger] old(self).allocator.free_list@[
                        order_of(size as int) as int]@[j]).0
                        == buddy_of(page.ppn.0 as int, order_of(size as int)))
                ==> exists|fi: int, fj: int|
                    final(self).allocator.block_in_range(fi, fj)
                        && order_of(size as int) + 1 <= fi
                        && #[trigger] final(self).allocator.block_base(fi, fj) <= page.ppn.0
                        && page.ppn.0 + size
                            <= final(self).allocator.block_base(fi, fj) + pow2(fi as nat),
    {
        proof {
            assert forall|q: int| page.ppn.0 <= q < page.ppn.0 + size
                implies !(#[trigger] self.allocator.free_in(q)) by {
                assert(!old(self).is_free(q));
            }
            assert forall|q: int| page.ppn.0 <= q < page.ppn.0 + size
                implies (#[trigger] self.allocator.tracker.rc_at(q)) == 0 by {
                assert(old(self).rc_of(q) == 0);
            }
        }
        self.allocator.dealloc(page.ppn, size);
    }

    /// Increments a page's reference count. The page must be in use (not on
    /// a free list).
    pub fn page_inc_ref(&mut self, page: Page)
        requires
            old(self).wf(),
            page.ppn.0 < old(self).npages(),
            !old(self).is_free(page.ppn.0 as int),
            old(self).rc_of(page.ppn.0 as int) < 0xffff,
        ensures
            final(self).wf(),
            final(self).npages() == old(self).npages(),
            final(self).mem == old(self).mem,
            final(self).tlb == old(self).tlb,
            final(self).rc_of(page.ppn.0 as int) == old(self).rc_of(page.ppn.0 as int) + 1,
            forall|p: int|
                0 <= p < old(self).npages() && p != page.ppn.0
                    ==> (#[trigger] final(self).rc_of(p)) == old(self).rc_of(p),
            forall|q: int| #[trigger] final(self).is_free(q) <==> old(self).is_free(q),
            final(self).allocator.free_list == old(self).allocator.free_list,
            final(self).allocator.tracker.ppn == old(self).allocator.tracker.ppn,
            final(self).allocator.tracker.size == old(self).allocator.tracker.size,
            final(self).allocator.tracker.page_count == old(self).allocator.tracker.page_count,
    {
        let ghost pre = self.allocator;
        self.allocator.tracker.inc_ref(page.ppn);
        proof {
            crate::page::lemma_wf_update_rc(pre, self.allocator, page.ppn.0 as int);
            assert forall|p: int|
                0 <= p < old(self).npages() && p != page.ppn.0
                    implies (#[trigger] self.rc_of(p)) == old(self).rc_of(p) by {}
        }
    }

    /// Decrements a page's reference count, stopping at zero.
    pub fn page_dec_ref(&mut self, page: Page)
        requires
            old(self).wf(),
            page.ppn.0 < old(self).npages(),
        ensures
            final(self).wf(),
            final(self).npages() == old(self).npages(),
            final(self).mem == old(self).mem,
            final(self).tlb == old(self).tlb,
            final(self).rc_of(page.ppn.0 as int)
                == if old(self).rc_of(page.ppn.0 as int) > 0 {
                    old(self).rc_of(page.ppn.0 as int) - 1
                } else {
                    0
                },
            forall|p: int|
                0 <= p < old(self).npages() && p != page.ppn.0
                    ==> (#[trigger] final(self).rc_of(p)) == old(self).rc_of(p),
            forall|q: int| #[trigger] final(self).is_free(q) <==> old(self).is_free(q),
            final(self).allocator.free_list == old(self).allocator.free_list,
            final(self).allocator.tracker.ppn == old(self).allocator.tracker.ppn,
            final(self).allocator.tracker.size == old(self).allocator.tracker.size,
            final(self).allocator.tracker.page_count == old(self).allocator.tracker.page_count,
    {
        let rc = self.allocator.tracker.ref_count(page.ppn).unwrap();
        if rc > 0 {
            proof {
                // A referenced page is never on a free list.
                if self.is_free(page.ppn.0 as int) {
                    let (i2, j2) = choose|i2: int, j2: int|
                        self.allocator.block_in_range(i2, j2)
                            && #[trigger] self.allocator.covers(i2, j2, page.ppn.0 as int);
                    assert(false);
                }
            }
            let ghost pre = self.allocator;
            self.allocator.tracker.dec_ref(page.ppn);
            proof {
                crate::page::lemma_wf_update_rc(pre, self.allocator, page.ppn.0 as int);
                assert forall|p: int|
                    0 <= p < old(self).npages() && p != page.ppn.0
                        implies (#[trigger] self.rc_of(p)) == old(self).rc_of(p) by {}
            }
        }
    }

    /// Drops one reference to `page`: decrements its count and frees the
    /// page when the count reaches zero.
    ///
    /// Calling this on an unreferenced page is a fatal kernel bug, so a
    /// count of at least one is required.
    pub fn try_recycle(&mut self, page: Page)
        requires
            old(self).wf(),
            page.ppn.0 < old(self).npages(),
            old(self).rc_of(page.ppn.0 as int) >= 1,
        ensures
            final(self).wf(),
            final(self).npages() == old(self).npages(),
            final(self).mem == old(self).mem,
            final(self).tlb == old(self).tlb,
            final(self).rc_of(page.ppn.0 as int) == old(self).rc_of(page.ppn.0 as int) - 1,
            forall|p: int|
                0 <= p < old(self).npages() && p != page.ppn.0
                    ==> (#[trigger] final(self).rc_of(p)) == old(self).rc_of(p),
            forall|q: int|
                #[trigger] final(self).is_free(q)
                    <==> (old(self).is_free(q)
                        || (old(self).rc_of(page.ppn.0 as int) == 1 && q == page.ppn.0)),
            // dropping the last reference with no free buddy pushes the
            // page on the order-zero list, newest last
            (old(self).rc_of(page.ppn.0 as int) == 1 && forall|j: int|
                0 <= j < old(self).allocator.free_list@[0]@.len()
                    ==> (#[trigger] old(self).allocator.free_list@[0]@[j]).0
                        != buddy_of(page.ppn.0 as int, 0))
                ==> final(self).allocator.free_list@[0]@
                    == old(self).allocator.free_list@[0]@.push(page.ppn),
            old(self).rc_of(page.ppn.0 as int) > 1
                ==> final(self).allocator.free_list == old(self).allocator.free_list,
    {
        proof {
            // A referenced page is never on a free list.
            if old(self).is_free(page.ppn.0 as int) {
                let (i2, j2) = choose|i2: int, j2: int|
                    old(self).allocator.block_in_range(i2, j2)
                        && #[trigger] old(self).allocator.covers(i2, j2, page.ppn.0 as int);
            }
        }
        let rc = self.allocator.tracker.ref_count(page.ppn).unwrap();
        if rc == 1 {
            self.page_dec_ref(page);
            let ghost mid = *self;
            self.page_dealloc(page);
            proof {
                assert forall|p: int|
                    0 <= p < old(self).npages() && p != page.ppn.0
                        implies (#[trigger] self.rc_of(p)) == old(self).rc_of(p) by {
                    assert(mid.rc_of(p) == old(self).rc_of(p));
                    assert(self.rc_of(p) == mid.rc_of(p));
                }
                assert(self.rc_of(page.ppn.0 as int) == mid.rc_of(page.ppn.0 as int));
                assert forall|q: int|
                    #[trigger] self.is_free(q)
                        implies (old(self).is_free(q)
                            || (old(self).rc_of(page.ppn.0 as int) == 1 && q == page.ppn.0)) by {
                    assert(mid.is_free(q) || q == page.ppn.0);
                }
                assert forall|q: int|
                    old(self).is_free(q)
                        || (old(self).rc_of(page.ppn.0 as int) == 1 && q == page.ppn.0)
                        implies #[trigger] self.is_free(q) by {
                    if old(self).is_free(q) {
                        assert(mid.is_free(q));
                    }
                }
            }
        } else {
            self.page_dec_ref(page);
        }
    }

    /// Drops the cached translation for `(asid, va)` from the hardware TLB,
    /// so that no stale entry can outlive a page-table change.
    pub fn tlb_invalidate(&mut self, asid: usize, va: VA)
        requires
            asid < NASID,
            va.0 < 0x1_0000_0000,
        ensures
            final(self).mem == old(self).mem,
            final(self).allocator == old(self).allocator,
            !final(self).tlb.has(tlb_key(va, asid as int)),
            forall|h: int|
                h != tlb_key(va, asid as int)
                    ==> (final(self).tlb.has(h) <==> old(self).tlb.has(h)),
    {
        let vpn = va.0 / PAGE_SIZE;
        proof {
            assert(vpn * PAGE_SIZE + asid < 0x1_0000_0000) by (nonlinear_arith)
                requires
                    vpn == va.0 as int / PAGE_SIZE as int,
                    va.0 < 0x1_0000_0000,
                    asid < PAGE_SIZE,
                    PAGE_SIZE == 4096,
            {}
        }
        let hi = vpn * PAGE_SIZE + asid;
        self.tlb.invalidate(hi);
    }

    /// Records the translation for `(asid, va)` in the TLB model, as the
    /// hardware refill trampoline writes it.
    pub(crate) fn tlb_record(&mut self, va: VA, asid: usize, lo0: u32, lo1: u32)
        requires
            asid < NASID,
            va.0 < 0x1_0000_0000,
        ensures
            final(self).mem == old(self).mem,
            final(self).allocator == old(self).allocator,
            final(self).tlb.has(tlb_key(va, asid as int)),
            forall|h: int|
                h != tlb_key(va, asid as int)
                    ==> (final(self).tlb.has(h) <==> old(self).tlb.has(h)),
    {
        let vpn = va.0 / PAGE_SIZE;
        proof {
            assert(vpn * PAGE_SIZE + asid < 0x1_0000_0000) by (nonlinear_arith)
                requires
                    vpn == va.0 as int / PAGE_SIZE as int,
                    va.0 < 0x1_0000_0000,
                    asid < PAGE_SIZE,
                    PAGE_SIZE == 4096,
            {}
        }
        let hi = vpn * PAGE_SIZE + asid;
        self.tlb.record(hi, lo0, lo1);
    }
}

} // verus!
