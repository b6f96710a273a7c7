//! The software TLB protocol: passive allocation on a miss and refill.
//!
//! When a translation misses and the page table has no valid entry, the
//! kernel lazily materializes a zeroed page ("passive allocation") and
//! retries; the refill path then emits the hardware EntryLo pair for the
//! faulting address's even/odd page pair.

use vstd::prelude::*;
use crate::addr::{PPN, VA};
use crate::layout::{NASID, PAGE_SIZE, PteFlags, UENVS, ULIM, UPAGES, USTACKTOP, UTEMP, UVPT};
use crate::map::{dir_ok, mapped_page, pde_of, pte_of, va_mapped, va_ok, PageDirectory, Pte, UVPT_PDX};
use crate::mmu::{tlb_key, Mmu};
use crate::page::Page;

verus! {

/// Whether `va` may be passively allocated: it lies in the user region and
/// outside the exception-stack guard page and the read-only metadata
/// windows for environments and pages.
pub open spec fn passive_alloc_legal(va: VA) -> bool {
    &&& va.0 >= UTEMP
    &&& !(USTACKTOP <= va.0 < USTACKTOP + PAGE_SIZE)
    &&& !(UENVS <= va.0 < UPAGES)
    &&& !(UPAGES <= va.0 < UVPT)
    &&& va.0 < ULIM
}

impl Mmu {
    /// Lazily materializes the page for `va`: allocates one zeroed page and
    /// inserts it at `va`'s page base, writable unless `va` lies in the
    /// read-only page-table window.
    ///
    /// An address outside the allowed regions is a fatal address-space
    /// violation, so legality is required, as are two free pages (one for
    /// the page itself, one for a possible table page).
    pub fn passive_alloc(&mut self, va: VA, pgdir: PageDirectory, asid: usize)
        requires
            old(self).wf(),
            passive_alloc_legal(va),
            dir_ok(old(self).mem, pgdir.dir()),
            old(self).rc_of(pgdir.dir()) >= 1,
            va_ok(*old(self), pgdir.dir(), va.spec_page_base()),
            asid < NASID,
            exists|p1: int, p2: int|
                p1 != p2 && #[trigger] old(self).is_free(p1) && #[trigger] old(self).is_free(p2),
            // a fault in the page-table window lazily materializes the
            // named table through the self-map: the self-map must be in
            // place, the slot still empty, and the self-map slot itself
            // can never be materialized this way
            va.0 >= UVPT ==> {
                let dir = pgdir.dir();
                &&& va.spec_ptx() != UVPT_PDX
                &&& Pte(old(self).mem.word(dir, UVPT_PDX as int)).spec_flags().v
                &&& Pte(old(self).mem.word(dir, UVPT_PDX as int)).spec_ppn() == dir
                &&& !Pte(old(self).mem.word(dir, va.spec_ptx())).spec_flags().v
            },
            // an existing table for the address must be a referenced page
            crate::map::pde_valid(old(self).mem, pgdir.dir(), va.spec_page_base())
                ==> old(self).rc_of(pde_of(
                    old(self).mem, pgdir.dir(), va.spec_page_base()).spec_ppn()) >= 1,
        ensures
            final(self).wf(),
            final(self).npages() == old(self).npages(),
            dir_ok(final(self).mem, pgdir.dir()),
            final(self).rc_of(pgdir.dir()) == old(self).rc_of(pgdir.dir()),
            va_mapped(final(self).mem, pgdir.dir(), va.spec_page_base()),
            pte_of(final(self).mem, pgdir.dir(), va.spec_page_base()).spec_flags()
                == (PteFlags {
                    v: true,
                    c0: true,
                    c1: true,
                    d: va.0 < UVPT,
                    ..PteFlags::spec_empty()
                }),
            // the materialized page carries exactly its one reference and
            // reads back zero
            final(self).rc_of(mapped_page(final(self).mem, pgdir.dir(), va.spec_page_base()))
                == 1,
            forall|w: int|
                0 <= w < crate::layout::PAGE_WORDS
                    ==> (#[trigger] final(self).mem.word(
                        mapped_page(final(self).mem, pgdir.dir(), va.spec_page_base()), w))
                        == 0,
            !final(self).tlb.has(tlb_key(va.spec_page_base(), asid as int)),
    {
        let alloced = self.page_alloc(true);
        let page = match alloced {
            Some(p) => p,
            None => {
                proof {
                    let (p1, p2) = choose|p1: int, p2: int|
                        p1 != p2 && #[trigger] old(self).is_free(p1)
                            && #[trigger] old(self).is_free(p2);
                    assert(false);
                }
                Page::new(PPN(0))
            },
        };
        let ghost m1 = *self;
        let target = va.pte_addr();
        if va.0 >= UVPT {
            // the read-only page-table window: install the fresh zeroed
            // page as the table the faulting slot names, through the
            // self-map
            let idx = va.ptx();
            self.tlb_invalidate(asid, target);
            let ghost m2 = *self;
            let npde = Pte::new(page.ppn(), PteFlags::flag_v().or(PteFlags::cacheable()));
            pgdir.set_pte_at(&mut self.mem, idx, npde);
            let ghost m3 = *self;
            proof {
                assert(m2.allocator == m1.allocator);
                assert(m3.allocator == m2.allocator);
                assert(!m3.is_free(page.ppn.0 as int)) by {
                    assert(!m1.is_free(page.ppn.0 as int));
                }
                assert(m3.rc_of(page.ppn.0 as int) == 0) by {
                    assert(m1.rc_of(page.ppn.0 as int) == 0);
                }
            }
            self.page_inc_ref(page);
            proof {
                let d = pgdir.dir();
                assert(page.ppn.0 != d);
                assert(m2.mem == m1.mem && m2.allocator == m1.allocator);
                assert(m3.allocator == m2.allocator);
                assert(self.mem == m3.mem);
                assert(self.mem.word(d, UVPT_PDX as int) == m1.mem.word(d, UVPT_PDX as int));
                assert(m1.mem.word(d, UVPT_PDX as int) == old(self).mem.word(d, UVPT_PDX as int));
                assert(target.spec_pdx() == UVPT_PDX) by {
                    let v = va.0 as int;
                    let q = v / (crate::layout::PDMAP as int);
                    vstd::arithmetic::div_mod::lemma_div_pos_is_pos(
                        v, crate::layout::PDMAP as int);
                    assert(q == 511) by (nonlinear_arith)
                        requires q == v / 0x40_0000, 0x7fc0_0000 <= v < 0x8000_0000,
                    {}
                    vstd::arithmetic::div_mod::lemma_small_mod(
                        q as nat, crate::layout::PAGE_WORDS as nat);
                    assert(target.0 == va.0 - va.0 as int % PAGE_SIZE as int);
                    let q2 = target.0 as int / (crate::layout::PDMAP as int);
                    vstd::arithmetic::div_mod::lemma_div_pos_is_pos(
                        target.0 as int, crate::layout::PDMAP as int);
                    assert(q2 == 511) by (nonlinear_arith)
                        requires
                            q2 == target.0 as int / 0x40_0000,
                            0x7fc0_0000 <= target.0 < 0x8000_0000,
                    {}
                    vstd::arithmetic::div_mod::lemma_small_mod(
                        q2 as nat, crate::layout::PAGE_WORDS as nat);
                }
                assert(target.spec_ptx() == va.spec_ptx()) by {
                    let v = va.0 as int;
                    vstd::arithmetic::div_mod::lemma_fundamental_div_mod(
                        v, PAGE_SIZE as int);
                    assert(target.0 as int == PAGE_SIZE as int * (v / PAGE_SIZE as int) + 0)
                        by (nonlinear_arith)
                        requires
                            target.0 as int == v - v % PAGE_SIZE as int,
                            v == PAGE_SIZE as int * (v / PAGE_SIZE as int)
                                + v % PAGE_SIZE as int,
                    {}
                    vstd::arithmetic::div_mod::lemma_fundamental_div_mod_converse(
                        target.0 as int, PAGE_SIZE as int, v / PAGE_SIZE as int, 0);
                }
                assert(pde_of(self.mem, d, target).spec_ppn() == d);
                assert(pde_of(self.mem, d, target).spec_flags().v);
                assert(self.mem.word(d, va.spec_ptx()) == npde.0);
                assert(va_mapped(self.mem, d, target));
                assert(mapped_page(self.mem, d, target) == page.ppn.0);
                assert(self.rc_of(page.ppn.0 as int) == 1);
                assert(self.rc_of(d) == old(self).rc_of(d));
                assert forall|w: int|
                    0 <= w < crate::layout::PAGE_WORDS
                        implies (#[trigger] self.mem.word(page.ppn.0 as int, w)) == 0 by {
                    assert(m1.mem.word(page.ppn.0 as int, w) == 0);
                    assert(self.mem.word(page.ppn.0 as int, w)
                        == m1.mem.word(page.ppn.0 as int, w));
                }
                assert(dir_ok(self.mem, d)) by {
                    assert forall|i: int| 0 <= i < crate::layout::PAGE_WORDS implies {
                        let p2 = Pte(#[trigger] self.mem.word(d, i));
                        p2.spec_flags().v
                            ==> p2.spec_ppn() < self.mem.page_count
                                && (i != UVPT_PDX ==> p2.spec_ppn() != d)
                    } by {
                        if i != va.spec_ptx() {
                            assert(self.mem.word(d, i) == old(self).mem.word(d, i));
                        }
                    }
                }
                assert(!self.tlb.has(crate::mmu::tlb_key(target, asid as int)));
            }
            return ;
        }
        let flags = PteFlags::flag_d();
        proof {
            let d = pgdir.dir();
            assert(page.ppn.0 != d);
            // After clearing the fresh page, the target either became
            // unmapped (its table was the cleared page) or kept its old
            // translation, which satisfies the change precondition.
            assert(va_ok(m1, d, target)) by {
                if va_mapped(m1.mem, d, target) {
                    assert(m1.mem.word(d, target.spec_pdx())
                        == old(self).mem.word(d, target.spec_pdx()));
                    assert(pde_of(m1.mem, d, target) == pde_of(old(self).mem, d, target));
                    let t = pde_of(m1.mem, d, target).spec_ppn();
                    if t == page.ppn.0 {
                        assert(m1.mem.word(t, target.spec_ptx()) == 0);
                        assert(!pte_of(m1.mem, d, target).spec_flags().v);
                    } else {
                        assert(m1.mem.word(t, target.spec_ptx())
                            == old(self).mem.word(t, target.spec_ptx()));
                        assert(pte_of(m1.mem, d, target) == pte_of(old(self).mem, d, target));
                        assert(va_mapped(old(self).mem, d, target));
                        let p = mapped_page(old(self).mem, d, target);
                        assert(m1.rc_of(p) == old(self).rc_of(p));
                    }
                }
            }
            assert(m1.rc_of(d) == old(self).rc_of(d));
            assert(m1.rc_of(page.ppn.0 as int) == 0);
            // One of the two free pages survives the allocation.
            let (p1, p2) = choose|p1: int, p2: int|
                p1 != p2 && #[trigger] old(self).is_free(p1) && #[trigger] old(self).is_free(p2);
            assert(m1.is_free(p1) || m1.is_free(p2));
        }
        let r = pgdir.insert(self, asid, page, target, flags);
        proof {
            let d = pgdir.dir();
            if r is Err {
                let (p1, p2) = choose|p1: int, p2: int|
                    p1 != p2 && #[trigger] old(self).is_free(p1)
                        && #[trigger] old(self).is_free(p2);
                assert(m1.is_free(p1) || m1.is_free(p2));
                assert(false);
            }
            assert(self.rc_of(d) == old(self).rc_of(d));
            assert(mapped_page(self.mem, d, target) == page.ppn.0);
            assert(!(va_mapped(m1.mem, d, target)
                && mapped_page(m1.mem, d, target) == page.ppn.0)) by {
                if va_mapped(m1.mem, d, target)
                    && mapped_page(m1.mem, d, target) == page.ppn.0 {
                    assert(m1.rc_of(page.ppn.0 as int) >= 1);
                }
            }
            assert(self.rc_of(page.ppn.0 as int) == 1) by {
                assert(m1.rc_of(page.ppn.0 as int) == 0);
            }
            // the page's zero fill survives the insertion: the written
            // entry lives in the table, which is a referenced page, never
            // the fresh one
            assert forall|w: int|
                0 <= w < crate::layout::PAGE_WORDS
                    implies (#[trigger] self.mem.word(page.ppn.0 as int, w)) == 0 by {
                let t = pde_of(self.mem, d, target).spec_ppn();
                assert(page.ppn.0 != t) by {
                    if crate::map::pde_valid(m1.mem, d, target) {
                        assert(pde_of(m1.mem, d, target)
                            == pde_of(old(self).mem, d, target));
                        assert(pde_of(self.mem, d, target) == pde_of(m1.mem, d, target));
                        assert(old(self).rc_of(t) >= 1);
                        assert(m1.rc_of(t) == old(self).rc_of(t));
                        assert(m1.rc_of(page.ppn.0 as int) == 0);
                    } else {
                        assert(m1.is_free(t));
                    }
                }
                assert(m1.mem.word(page.ppn.0 as int, w) == 0);
                assert(self.mem.word(page.ppn.0 as int, w)
                    == m1.mem.word(page.ppn.0 as int, w));
            }
        }
    }

    /// The TLB-refill path for a miss at `va` under `pgdir` and `asid`.
    ///
    /// Invalidates any stale entry, looks the address up — passively
    /// allocating its page if the table has no valid entry yet — and
    /// returns the hardware EntryLo pair for the even/odd page pair, which
    /// the low-level trampoline writes into the TLB (recorded here in the
    /// TLB model).
    pub fn do_tlb_refill(&mut self, pgdir: PageDirectory, va: VA, asid: usize) -> (r: (u32, u32))
        requires
            old(self).wf(),
            dir_ok(old(self).mem, pgdir.dir()),
            old(self).rc_of(pgdir.dir()) >= 1,
            va_ok(*old(self), pgdir.dir(), va.spec_page_base()),
            asid < NASID,
            va.0 < 0x1_0000_0000,
            // Either the address is already mapped or it may be passively
            // allocated from two spare pages.
            va_mapped(old(self).mem, pgdir.dir(), va.spec_page_base())
                || (passive_alloc_legal(va)
                    && (crate::map::pde_valid(old(self).mem, pgdir.dir(), va.spec_page_base())
                        ==> old(self).rc_of(pde_of(old(self).mem, pgdir.dir(),
                            va.spec_page_base()).spec_ppn()) >= 1)
                    && (va.0 >= UVPT ==> {
                        let dir = pgdir.dir();
                        &&& va.spec_ptx() != UVPT_PDX
                        &&& Pte(old(self).mem.word(dir, UVPT_PDX as int)).spec_flags().v
                        &&& Pte(old(self).mem.word(dir, UVPT_PDX as int)).spec_ppn() == dir
                        &&& !Pte(old(self).mem.word(dir, va.spec_ptx())).spec_flags().v
                    })
                    && exists|p1: int, p2: int|
                        p1 != p2 && #[trigger] old(self).is_free(p1)
                            && #[trigger] old(self).is_free(p2)),
        ensures
            final(self).wf(),
            final(self).npages() == old(self).npages(),
            dir_ok(final(self).mem, pgdir.dir()),
            va_mapped(final(self).mem, pgdir.dir(), va.spec_page_base()),
            final(self).tlb.has(tlb_key(va.spec_page_base(), asid as int)),
            ({
                let t = pde_of(final(self).mem, pgdir.dir(), va.spec_page_base()).spec_ppn();
                let even = va.spec_ptx() - va.spec_ptx() % 2;
                &&& r.0 == final(self).mem.word(t, even) as int / 0x40
                &&& r.1 == final(self).mem.word(t, even + 1) as int / 0x40
            }),
    {
        self.tlb_invalidate(asid, va);
        let ghost m1 = *self;
        let target = va.pte_addr();
        let found = pgdir.lookup_table(self, target);
        let t: PPN = match found {
            Some(t) => t,
            None => {
                proof {
                    assert(self.mem == old(self).mem);
                    assert(self.allocator == old(self).allocator);
                    assert(!va_mapped(old(self).mem, pgdir.dir(), target));
                    let (p1, p2) = choose|p1: int, p2: int|
                        p1 != p2 && #[trigger] old(self).is_free(p1)
                            && #[trigger] old(self).is_free(p2);
                    assert(self.is_free(p1) && self.is_free(p2));
                    assert(self.rc_of(pgdir.dir()) == old(self).rc_of(pgdir.dir()));
                    assert(va_ok(*self, pgdir.dir(), target)) by {
                        assert(!va_mapped(self.mem, pgdir.dir(), target));
                    }
                }
                self.passive_alloc(va, pgdir, asid);
                proof {
                    assert(va_mapped(self.mem, pgdir.dir(), target));
                }
                match pgdir.lookup_table(self, target) {
                    Some(t) => t,
                    None => {
                        proof {
                            assert(false);
                        }
                        PPN(0)
                    },
                }
            },
        };
        let ptx = va.ptx();
        let even = ptx - ptx % 2;
        let lo0 = Pte(self.mem.read_word(t, even)).as_entrylo();
        let lo1 = Pte(self.mem.read_word(t, even + 1)).as_entrylo();
        self.tlb_record(target, asid, lo0, lo1);
        (lo0, lo1)
    }
}

impl PageDirectory {
    /// The table page for `va` when `va` is mapped, used by the refill path
    /// to locate the even/odd entry pair.
    fn lookup_table(&self, mmu: &Mmu, va: VA) -> (r: Option<PPN>)
        requires
            mmu.wf(),
            dir_ok(mmu.mem, self.dir()),
        ensures
            match r {
                Some(t) => {
                    &&& va_mapped(mmu.mem, self.dir(), va)
                    &&& t.0 == pde_of(mmu.mem, self.dir(), va).spec_ppn()
                    &&& t.0 < mmu.npages()
                },
                None => !va_mapped(mmu.mem, self.dir(), va),
            },
    {
        let pde = self.pte_at(&mmu.mem, va.pdx());
        if !pde.is_valid() {
            return None;
        }
        let pte = Pte(mmu.mem.read_word(pde.ppn(), va.ptx()));
        if pte.is_valid() {
            Some(pde.ppn())
        } else {
            None
        }
    }
}

} // verus!
