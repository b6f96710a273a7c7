//! Page-table entries and the two-level page table.
//!
//! A page table is one physical page (the directory) whose 1024 word slots
//! either are zero or hold a page-directory entry pointing at a second-level
//! table page, whose 1024 slots are page-table entries. Directory and table
//! pages are reference-counted like any other page, and every structural
//! change is preceded by a TLB invalidation for the affected address.

use vstd::prelude::*;
use crate::addr::{PA, PPN, VA};
use crate::error::MosError;
use crate::layout::{lemma_flags_roundtrip, NASID, PAGE_SIZE, PAGE_WORDS, PDMAP, PteFlags, ULIM, UVPT};
use crate::mmu::{tlb_key, Mmu};
use crate::page::{Page, PhysMem};

verus! {

/// A packed page-table entry: the page number in the high bits, the flag
/// word in the low 12 bits.
#[derive(Clone, Copy, Debug, PartialEq, Eq, Structural)]
pub struct Pte(pub usize);

/// A page-directory entry has the same layout as a page-table entry.
pub type Pde = Pte;

impl Pte {
    /// The page number packed into the entry.
    pub open spec fn spec_ppn(self) -> int {
        self.0 as int / PAGE_SIZE as int
    }

    /// The flags packed into the entry's low 12 bits.
    pub open spec fn spec_flags(self) -> PteFlags {
        PteFlags::spec_from_bits(self.0 as int % PAGE_SIZE as int)
    }

    /// Packs a page number and flags into an entry.
    pub fn new(ppn: PPN, flags: PteFlags) -> (r: Self)
        requires
            ppn.0 < 0x10_0000,
        ensures
            r.0 == ppn.0 * PAGE_SIZE + flags.spec_bits(),
            r.0 < 0x1_0000_0000,
            r.spec_ppn() == ppn.0,
            r.spec_flags() == flags,
    {
        proof {
            lemma_flags_roundtrip(flags);
        }
        let bits = flags.bits();
        let r = Pte(ppn.0 * PAGE_SIZE + bits);
        proof {
            vstd::arithmetic::div_mod::lemma_fundamental_div_mod_converse(
                r.0 as int, PAGE_SIZE as int, ppn.0 as int, flags.spec_bits());
        }
        r
    }

    /// The all-zero, always-invalid entry.
    pub fn empty() -> (r: Self)
        ensures
            r.0 == 0,
            !r.spec_flags().v,
    {
        Pte(0)
    }

    /// The entry's page number.
    pub fn ppn(self) -> (r: PPN)
        ensures
            r.0 == self.spec_ppn(),
    {
        PPN(self.0 / PAGE_SIZE)
    }

    /// The entry's flags.
    pub fn flags(self) -> (r: PteFlags)
        ensures
            r == self.spec_flags(),
    {
        PteFlags::from_bits_truncate(self.0)
    }

    /// The base physical address of the mapped page.
    pub fn addr(self) -> (r: PA)
        requires
            self.0 < 0x1_0000_0000,
        ensures
            r.0 == self.spec_ppn() * PAGE_SIZE,
    {
        proof {
            let w = self.0 as int;
            assert(w / 4096 < 0x10_0000) by (nonlinear_arith)
                requires 0 <= w < 0x1_0000_0000,
            {}
        }
        PA::from(self.ppn())
    }

    /// Replaces the entry's page number and flags.
    pub fn set(&mut self, ppn: PPN, flags: PteFlags)
        requires
            ppn.0 < 0x10_0000,
        ensures
            final(self).spec_ppn() == ppn.0,
            final(self).spec_flags() == flags,
            final(self).0 < 0x1_0000_0000,
    {
        *self = Pte::new(ppn, flags);
    }

    /// Replaces only the entry's flag bits.
    pub fn set_flags(&mut self, flags: PteFlags)
        requires
            old(self).0 < 0x1_0000_0000,
        ensures
            final(self).spec_ppn() == old(self).spec_ppn(),
            final(self).spec_flags() == flags,
            final(self).0 < 0x1_0000_0000,
    {
        proof {
            lemma_flags_roundtrip(flags);
            vstd::arithmetic::div_mod::lemma_fundamental_div_mod(self.0 as int, PAGE_SIZE as int);
        }
        let base = self.0 - self.0 % PAGE_SIZE;
        let ghost p = old(self).spec_ppn();
        let r = Pte(base + flags.bits());
        proof {
            assert(base == p * PAGE_SIZE);
            vstd::arithmetic::div_mod::lemma_fundamental_div_mod_converse(
                r.0 as int, PAGE_SIZE as int, p, flags.spec_bits());
        }
        *self = r;
    }

    /// Whether the entry maps a page (its valid flag is set).
    pub fn is_valid(self) -> (r: bool)
        ensures
            r == self.spec_flags().v,
    {
        self.flags().contains(PteFlags::flag_v())
    }

    /// The hardware EntryLo word for this entry: the packed word shifted
    /// down past the software flag bits.
    pub fn as_entrylo(self) -> (r: u32)
        requires
            self.0 < 0x1_0000_0000,
        ensures
            r == self.0 as int / 0x40,
    {
        (self.0 / 0x40) as u32
    }
}

/// The page-directory entry of `va` in the directory page `pgdir`.
pub open spec fn pde_of(mem: PhysMem, pgdir: int, va: VA) -> Pte {
    Pte(mem.word(pgdir, va.spec_pdx()))
}

/// Whether `va`'s page-directory entry points at a table.
pub open spec fn pde_valid(mem: PhysMem, pgdir: int, va: VA) -> bool {
    pde_of(mem, pgdir, va).spec_flags().v
}

/// The page-table entry of `va` under the directory page `pgdir`.
pub open spec fn pte_of(mem: PhysMem, pgdir: int, va: VA) -> Pte {
    Pte(mem.word(pde_of(mem, pgdir, va).spec_ppn(), va.spec_ptx()))
}

/// Whether `va` is mapped: its directory and table entries are both valid.
pub open spec fn va_mapped(mem: PhysMem, pgdir: int, va: VA) -> bool {
    pde_valid(mem, pgdir, va) && pte_of(mem, pgdir, va).spec_flags().v
}

/// The page that `va` maps to.
pub open spec fn mapped_page(mem: PhysMem, pgdir: int, va: VA) -> int {
    pte_of(mem, pgdir, va).spec_ppn()
}

/// The directory slot of the `UVPT` window, which an address space maps to
/// its own directory page so that user code can read its page tables.
pub const UVPT_PDX: usize = UVPT / PDMAP % PAGE_WORDS;

/// Whether `va` lies outside the `UVPT` self-map window. Only such
/// addresses may be mapped and unmapped; the self-map slot is written once
/// when the address space is built.
pub open spec fn outside_vpt(va: VA) -> bool {
    va.0 < UVPT || (ULIM <= va.0 < 0x1_0000_0000)
}

/// An address outside the `UVPT` window never selects the self-map slot.
pub proof fn lemma_outside_vpt_pdx(va: VA)
    requires
        outside_vpt(va),
    ensures
        va.spec_pdx() != UVPT_PDX,
{
    let v = va.0 as int;
    let q = v / (PDMAP as int);
    vstd::arithmetic::div_mod::lemma_div_pos_is_pos(v, PDMAP as int);
    if va.0 < UVPT {
        assert(q < 511) by (nonlinear_arith)
            requires q == v / 0x40_0000, 0 <= v < 0x7fc0_0000,
        {}
        vstd::arithmetic::div_mod::lemma_small_mod(q as nat, PAGE_WORDS as nat);
    } else {
        assert(512 <= q < 1024) by (nonlinear_arith)
            requires q == v / 0x40_0000, 0x8000_0000 <= v < 0x1_0000_0000,
        {}
        vstd::arithmetic::div_mod::lemma_small_mod(q as nat, PAGE_WORDS as nat);
    }
}

/// The directory page is sound: it lies in memory and every valid entry in
/// it points at a table page inside memory; outside the `UVPT` self-map
/// slot, never the directory itself.
pub open spec fn dir_ok(mem: PhysMem, pgdir: int) -> bool {
    &&& 0 <= pgdir < mem.page_count
    &&& forall|i: int|
        0 <= i < PAGE_WORDS ==> {
            let pde = Pte(#[trigger] mem.word(pgdir, i));
            pde.spec_flags().v ==> pde.spec_ppn() < mem.page_count
                && (i != UVPT_PDX ==> pde.spec_ppn() != pgdir)
        }
}

/// Every valid directory entry names a referenced table page.
pub open spec fn tables_ok(mmu: Mmu, pgdir: int) -> bool {
    forall|i: int|
        0 <= i < PAGE_WORDS ==> {
            let pde = Pte(#[trigger] mmu.mem.word(pgdir, i));
            pde.spec_flags().v ==> mmu.rc_of(pde.spec_ppn()) >= 1
        }
}

/// Distinct valid directory entries name distinct table pages.
pub open spec fn tables_distinct(mem: PhysMem, pgdir: int) -> bool {
    forall|i1: int, i2: int|
        0 <= i1 < PAGE_WORDS && 0 <= i2 < PAGE_WORDS && i1 != i2 ==> {
            let a = Pte(#[trigger] mem.word(pgdir, i1));
            let b = Pte(#[trigger] mem.word(pgdir, i2));
            a.spec_flags().v && b.spec_flags().v ==> a.spec_ppn() != b.spec_ppn()
        }
}

/// A page-aligned 32-bit address is determined by its directory and table
/// indices.
pub proof fn lemma_page_base_index(pb: int)
    requires
        0 <= pb < 0x1_0000_0000,
        pb % PAGE_SIZE as int == 0,
    ensures
        pb == (VA(pb as usize).spec_pdx() * PAGE_WORDS + VA(pb as usize).spec_ptx())
            * PAGE_SIZE,
{
    let q = pb / PAGE_SIZE as int;
    vstd::arithmetic::div_mod::lemma_fundamental_div_mod(pb, PAGE_SIZE as int);
    assert(pb == PAGE_SIZE as int * q);
    assert(0 <= q < 0x10_0000) by (nonlinear_arith)
        requires pb == 4096 * q, 0 <= pb < 0x1_0000_0000,
    {}
    vstd::arithmetic::div_mod::lemma_fundamental_div_mod(q, PAGE_WORDS as int);
    let hi = q / PAGE_WORDS as int;
    let lo = q % PAGE_WORDS as int;
    assert(q == PAGE_WORDS as int * hi + lo);
    // the directory index is the upper ten bits of the page number
    assert(VA(pb as usize).spec_pdx() == hi) by {
        assert(pb == PDMAP as int * hi + lo * PAGE_SIZE as int) by (nonlinear_arith)
            requires
                pb == 4096 * q,
                q == 1024 * hi + lo,
                PDMAP == 0x40_0000,
        {}
        assert(0 <= lo * 4096 && lo * 4096 < 0x40_0000) by (nonlinear_arith)
            requires 0 <= lo < 1024,
        {}
        vstd::arithmetic::div_mod::lemma_fundamental_div_mod_converse(
            pb, PDMAP as int, hi, lo * PAGE_SIZE as int);
        assert(0 <= hi < 1024) by (nonlinear_arith)
            requires q == 1024 * hi + lo, 0 <= q < 0x10_0000, 0 <= lo < 1024,
        {}
        vstd::arithmetic::div_mod::lemma_small_mod(hi as nat, PAGE_WORDS as nat);
    }
    assert(VA(pb as usize).spec_ptx() == lo) by {
        vstd::arithmetic::div_mod::lemma_fundamental_div_mod_converse(
            pb, PAGE_SIZE as int, q, 0);
    }
    assert((hi * PAGE_WORDS as int + lo) * PAGE_SIZE as int == pb) by (nonlinear_arith)
        requires
            pb == 4096 * q,
            q == 1024 * hi + lo,
            PAGE_WORDS == 1024,
            PAGE_SIZE == 4096,
    {}
}

/// What a mapped address must satisfy before the mapping may be changed:
/// the mapped page lies in memory, is referenced, and is not the directory
/// page itself.
pub open spec fn va_ok(mmu: Mmu, pgdir: int, va: VA) -> bool {
    va_mapped(mmu.mem, pgdir, va) ==> {
        let p = mapped_page(mmu.mem, pgdir, va);
        &&& 0 <= p < mmu.npages()
        &&& mmu.rc_of(p) >= 1
        &&& p != pgdir
    }
}

/// A two-level page table, identified by its directory page. A page
/// directory is the same structure.
#[derive(Clone, Copy, Debug, PartialEq, Eq, Structural)]
pub struct PageTable {
    /// The directory page.
    pub page: Page,
}

/// A page directory is a page table.
pub type PageDirectory = PageTable;

impl PageTable {
    /// The directory's page number.
    pub open spec fn dir(self) -> int {
        self.page.ppn.0 as int
    }

    /// Allocates and zeroes a fresh directory page with one reference.
    /// Fails with `NoMem` exactly when no page is free.
    pub fn init(mmu: &mut Mmu) -> (r: Result<(Self, Page), MosError>)
        requires
            old(mmu).wf(),
        ensures
            final(mmu).wf(),
            final(mmu).npages() == old(mmu).npages(),
            final(mmu).tlb == old(mmu).tlb,
            final(mmu).allocator.tracker.ppn == old(mmu).allocator.tracker.ppn,
            final(mmu).allocator.tracker.page_count == old(mmu).allocator.tracker.page_count,
            match r {
                Ok((pt, page)) => {
                    &&& pt.page == page
                    &&& page.ppn.0 < old(mmu).npages()
                    &&& old(mmu).is_free(page.ppn.0 as int)
                    &&& final(mmu).rc_of(page.ppn.0 as int) == 1
                    &&& dir_ok(final(mmu).mem, pt.dir())
                    &&& (forall|k: int|
                        0 <= k < PAGE_WORDS
                            ==> #[trigger] final(mmu).mem.word(page.ppn.0 as int, k) == 0)
                    &&& (forall|p: int|
                        0 <= p < old(mmu).npages() && p != page.ppn.0
                            ==> (#[trigger] final(mmu).rc_of(p)) == old(mmu).rc_of(p))
                    &&& (forall|p: int, k: int|
                        0 <= p < old(mmu).npages() && 0 <= k < PAGE_WORDS && p != page.ppn.0
                            ==> #[trigger] final(mmu).mem.word(p, k) == old(mmu).mem.word(p, k))
                    &&& (forall|q: int|
                        #[trigger] final(mmu).is_free(q)
                            <==> (old(mmu).is_free(q) && q != page.ppn.0))
                },
                Err(e) => {
                    &&& e == MosError::NoMem
                    &&& *final(mmu) == *old(mmu)
                    &&& (forall|q: int| !old(mmu).is_free(q))
                },
            },
    {
        match mmu.page_alloc(true) {
            None => Err(MosError::NoMem),
            Some(page) => {
                mmu.page_inc_ref(page);
                let pt = PageTable { page };
                proof {
                    assert(dir_ok(mmu.mem, pt.dir())) by {
                        assert forall|i: int| 0 <= i < PAGE_WORDS implies {
                            let pde = Pte(#[trigger] mmu.mem.word(pt.dir(), i));
                            pde.spec_flags().v
                                ==> pde.spec_ppn() < mmu.mem.page_count
                                    && (i != UVPT_PDX ==> pde.spec_ppn() != pt.dir())
                        } by {
                            assert(mmu.mem.word(pt.dir(), i) == 0);
                        }
                    }
                }
                Ok((pt, page))
            },
        }
    }

    /// A page table that does not exist yet, so that a process control
    /// block can hold the field before one is allocated.
    pub fn empty() -> (r: Self)
        ensures
            r.page.ppn.0 == 0,
    {
        PageTable { page: Page::new(PPN(0)) }
    }

    /// Reads the directory slot at `offset`.
    pub fn pte_at(&self, mem: &PhysMem, offset: usize) -> (r: Pte)
        requires
            mem.wf(),
            self.page.ppn.0 < mem.page_count,
            offset < PAGE_WORDS,
        ensures
            r.0 == mem.word(self.dir(), offset as int),
            r.0 < 0x1_0000_0000,
    {
        Pte(mem.read_word(self.page.ppn, offset))
    }

    /// Writes the directory slot at `offset`.
    pub fn set_pte_at(&self, mem: &mut PhysMem, offset: usize, pte: Pte)
        requires
            old(mem).wf(),
            self.page.ppn.0 < old(mem).page_count,
            offset < PAGE_WORDS,
            pte.0 < 0x1_0000_0000,
        ensures
            final(mem).wf(),
            final(mem).page_count == old(mem).page_count,
            final(mem).word(self.dir(), offset as int) == pte.0,
            forall|p: int, k: int|
                0 <= p < final(mem).page_count && 0 <= k < PAGE_WORDS
                    && !(p == self.dir() && k == offset)
                    ==> #[trigger] final(mem).word(p, k) == old(mem).word(p, k),
    {
        mem.write_word(self.page.ppn, offset, pte.0)
    }

    /// Locates `va`'s page-table entry, returning its table page and index.
    ///
    /// When the directory slot is empty: without `create` the result is
    /// `Ok(None)`; with `create` a zeroed, referenced table page is
    /// installed first, and `NoMem` is returned exactly when no page is
    /// free.
    pub fn walk(&self, mmu: &mut Mmu, va: VA, create: bool) -> (r: Result<
        Option<(PPN, usize)>,
        MosError,
    >)
        requires
            old(mmu).wf(),
            dir_ok(old(mmu).mem, self.dir()),
            old(mmu).rc_of(self.dir()) >= 1,
            outside_vpt(va),
        ensures
            final(mmu).wf(),
            final(mmu).npages() == old(mmu).npages(),
            final(mmu).tlb == old(mmu).tlb,
            dir_ok(final(mmu).mem, self.dir()),
            final(mmu).rc_of(self.dir()) == old(mmu).rc_of(self.dir()),
            match r {
                Err(e) => {
                    &&& e == MosError::NoMem
                    &&& create
                    &&& !pde_valid(old(mmu).mem, self.dir(), va)
                    &&& (forall|q: int| !old(mmu).is_free(q))
                    &&& *final(mmu) == *old(mmu)
                },
                Ok(None) => {
                    &&& !create
                    &&& !pde_valid(old(mmu).mem, self.dir(), va)
                    &&& *final(mmu) == *old(mmu)
                },
                Ok(Some((t, idx))) => {
                    &&& idx == va.spec_ptx()
                    &&& pde_valid(final(mmu).mem, self.dir(), va)
                    &&& t.0 == pde_of(final(mmu).mem, self.dir(), va).spec_ppn()
                    &&& t.0 < old(mmu).npages()
                    &&& t.0 != self.dir()
                    &&& if pde_valid(old(mmu).mem, self.dir(), va) {
                        *final(mmu) == *old(mmu)
                    } else {
                        &&& create
                        &&& old(mmu).is_free(t.0 as int)
                        &&& final(mmu).rc_of(t.0 as int) == 1
                        &&& pde_of(final(mmu).mem, self.dir(), va).spec_flags()
                            == (PteFlags { v: true, c0: true, c1: true, ..PteFlags::spec_empty() })
                        &&& (forall|k: int|
                            0 <= k < PAGE_WORDS
                                ==> #[trigger] final(mmu).mem.word(t.0 as int, k) == 0)
                        &&& (forall|p: int|
                            0 <= p < old(mmu).npages() && p != t.0
                                ==> (#[trigger] final(mmu).rc_of(p)) == old(mmu).rc_of(p))
                        &&& (forall|p: int, k: int|
                            0 <= p < old(mmu).npages() && 0 <= k < PAGE_WORDS && p != t.0
                                && !(p == self.dir() && k == va.spec_pdx())
                                ==> #[trigger] final(mmu).mem.word(p, k)
                                    == old(mmu).mem.word(p, k))
                        &&& (forall|q: int|
                            #[trigger] final(mmu).is_free(q)
                                <==> (old(mmu).is_free(q) && q != t.0))
                    }
                },
            },
    {
        proof {
            lemma_outside_vpt_pdx(va);
        }
        let pdx = va.pdx();
        let pde = self.pte_at(&mmu.mem, pdx);
        if !pde.is_valid() {
            if !create {
                return Ok(None);
            }
            match mmu.page_alloc(true) {
                None => Err(MosError::NoMem),
                Some(page) => {
                    proof {
                        // A free page cannot be the directory, whose count
                        // is at least one.
                        assert(page.ppn.0 != self.dir());
                    }
                    let ghost m1 = *mmu;
                    mmu.page_inc_ref(page);
                    let ghost m2 = *mmu;
                    let npde = Pte::new(page.ppn(), PteFlags::flag_v().or(PteFlags::cacheable()));
                    self.set_pte_at(&mut mmu.mem, pdx, npde);
                    proof {
                        let d = self.dir();
                        let np = old(mmu).npages();
                        assert(m2.mem == m1.mem);
                        assert(mmu.allocator == m2.allocator);
                        assert forall|p: int, k: int|
                            0 <= p < np && 0 <= k < PAGE_WORDS && p != page.ppn.0
                                && !(p == d && k == va.spec_pdx())
                                implies #[trigger] mmu.mem.word(p, k)
                                    == old(mmu).mem.word(p, k) by {
                            assert(m1.mem.word(p, k) == old(mmu).mem.word(p, k));
                            assert(mmu.mem.word(p, k) == m2.mem.word(p, k));
                        }
                        assert forall|k: int| 0 <= k < PAGE_WORDS
                            implies #[trigger] mmu.mem.word(page.ppn.0 as int, k) == 0 by {
                            assert(m1.mem.word(page.ppn.0 as int, k) == 0);
                            assert(mmu.mem.word(page.ppn.0 as int, k)
                                == m2.mem.word(page.ppn.0 as int, k));
                        }
                        assert(mmu.rc_of(d) == old(mmu).rc_of(d)) by {
                            assert(m1.rc_of(d) == old(mmu).rc_of(d));
                            assert(m2.rc_of(d) == m1.rc_of(d));
                        }
                        assert(mmu.rc_of(page.ppn.0 as int) == 1) by {
                            assert(m1.rc_of(page.ppn.0 as int) == 0);
                            assert(m2.rc_of(page.ppn.0 as int) == 1);
                        }
                        assert forall|p: int|
                            0 <= p < np && p != page.ppn.0
                                implies (#[trigger] mmu.rc_of(p)) == old(mmu).rc_of(p) by {
                            assert(m1.rc_of(p) == old(mmu).rc_of(p));
                            assert(m2.rc_of(p) == m1.rc_of(p));
                            assert(mmu.rc_of(p) == m2.rc_of(p));
                        }
                        assert forall|q: int|
                            #[trigger] mmu.is_free(q)
                                <==> (old(mmu).is_free(q) && q != page.ppn.0) by {
                            assert(m1.is_free(q) <==> (old(mmu).is_free(q) && q != page.ppn.0));
                            assert(m2.is_free(q) <==> m1.is_free(q));
                            assert(mmu.is_free(q) <==> m2.is_free(q));
                        }
                        assert(pde_of(mmu.mem, d, va).0 == npde.0);
                        assert(dir_ok(mmu.mem, d)) by {
                            assert forall|i: int| 0 <= i < PAGE_WORDS implies {
                                let p2 = Pte(#[trigger] mmu.mem.word(d, i));
                                p2.spec_flags().v
                                    ==> p2.spec_ppn() < mmu.mem.page_count
                                        && (i != UVPT_PDX ==> p2.spec_ppn() != d)
                            } by {
                                if i != pdx {
                                    assert(mmu.mem.word(d, i)
                                        == old(mmu).mem.word(d, i));
                                }
                            }
                        }
                    }
                    Ok(Some((page.ppn(), va.ptx())))
                },
            }
        } else {
            proof {
                assert(pde.spec_ppn() < old(mmu).npages() && pde.spec_ppn() != self.dir());
            }
            Ok(Some((pde.ppn(), va.ptx())))
        }
    }

    /// Looks up the page that `va` is mapped to, with its entry.
    pub fn lookup(&self, mmu: &Mmu, va: VA) -> (r: Option<(Pte, Page)>)
        requires
            mmu.wf(),
            dir_ok(mmu.mem, self.dir()),
        ensures
            match r {
                Some((pte, page)) => {
                    &&& va_mapped(mmu.mem, self.dir(), va)
                    &&& pte == pte_of(mmu.mem, self.dir(), va)
                    &&& page.ppn.0 == mapped_page(mmu.mem, self.dir(), va)
                },
                None => !va_mapped(mmu.mem, self.dir(), va),
            },
    {
        let pde = self.pte_at(&mmu.mem, va.pdx());
        if !pde.is_valid() {
            return None;
        }
        let pte = Pte(mmu.mem.read_word(pde.ppn(), va.ptx()));
        if pte.is_valid() {
            Some((pte, Page::new(pte.ppn())))
        } else {
            None
        }
    }

    /// Unmaps `va`: invalidates the TLB entry, drops one reference to the
    /// mapped page (freeing it on zero), and clears the entry. Does nothing
    /// when `va` is not mapped.
    pub fn remove(&self, mmu: &mut Mmu, asid: usize, va: VA)
        requires
            old(mmu).wf(),
            dir_ok(old(mmu).mem, self.dir()),
            va_ok(*old(mmu), self.dir(), va),
            asid < NASID,
            va.0 < 0x1_0000_0000,
            outside_vpt(va),
        ensures
            final(mmu).wf(),
            final(mmu).npages() == old(mmu).npages(),
            dir_ok(final(mmu).mem, self.dir()),
            if va_mapped(old(mmu).mem, self.dir(), va) {
                let p = mapped_page(old(mmu).mem, self.dir(), va);
                let t = pde_of(old(mmu).mem, self.dir(), va).spec_ppn();
                &&& !va_mapped(final(mmu).mem, self.dir(), va)
                &&& pte_of(final(mmu).mem, self.dir(), va).0 == 0
                &&& final(mmu).rc_of(p) == old(mmu).rc_of(p) - 1
                &&& (forall|p2: int|
                    0 <= p2 < old(mmu).npages() && p2 != p
                        ==> (#[trigger] final(mmu).rc_of(p2)) == old(mmu).rc_of(p2))
                &&& (forall|q: int|
                    #[trigger] final(mmu).is_free(q)
                        <==> (old(mmu).is_free(q)
                            || (old(mmu).rc_of(p) == 1 && q == p)))
                // dropping the last reference with no free buddy pushes
                // the page on the order-zero free list, newest last
                &&& ((old(mmu).rc_of(p) == 1 && forall|j: int|
                    0 <= j < old(mmu).allocator.free_list@[0]@.len()
                        ==> (#[trigger] old(mmu).allocator.free_list@[0]@[j]).0
                            != crate::page::buddy_of(p, 0))
                    ==> final(mmu).allocator.free_list@[0]@
                        == old(mmu).allocator.free_list@[0]@.push(PPN(p as usize)))
                &&& (forall|p2: int, k: int|
                    0 <= p2 < old(mmu).npages() && 0 <= k < PAGE_WORDS
                        && !(p2 == t && k == va.spec_ptx())
                        ==> #[trigger] final(mmu).mem.word(p2, k) == old(mmu).mem.word(p2, k))
                &&& !final(mmu).tlb.has(tlb_key(va, asid as int))
                &&& (forall|h: int|
                    h != tlb_key(va, asid as int)
                        ==> (final(mmu).tlb.has(h) <==> old(mmu).tlb.has(h)))
            } else {
                *final(mmu) == *old(mmu)
            },
    {
        proof {
            lemma_outside_vpt_pdx(va);
        }
        let found = self.lookup(mmu, va);
        match found {
            None => (),
            Some((pte, page)) => {
                let pde = self.pte_at(&mmu.mem, va.pdx());
                mmu.tlb_invalidate(asid, va);
                let ghost m1 = *mmu;
                mmu.try_recycle(page);
                let ghost m2 = *mmu;
                mmu.mem.write_word(pde.ppn(), va.ptx(), 0);
                proof {
                    let d = self.dir();
                    let np = old(mmu).npages();
                    let p = mapped_page(old(mmu).mem, d, va);
                    let t = pde_of(old(mmu).mem, d, va).spec_ppn();
                    assert(page.ppn.0 == p);
                    assert(pde.spec_ppn() == t);
                    assert(t != d);
                    assert(m1.mem == old(mmu).mem);
                    assert(m2.mem == m1.mem);
                    assert(mmu.allocator == m2.allocator);
                    assert(mmu.tlb == m2.tlb && m2.tlb == m1.tlb);
                    assert(mmu.rc_of(p) == old(mmu).rc_of(p) - 1) by {
                        assert(m1.rc_of(p) == old(mmu).rc_of(p));
                        assert(m2.rc_of(p) == m1.rc_of(p) - 1);
                        assert(mmu.rc_of(p) == m2.rc_of(p));
                    }
                    assert forall|p2: int|
                        0 <= p2 < np && p2 != p
                            implies (#[trigger] mmu.rc_of(p2)) == old(mmu).rc_of(p2) by {
                        assert(m1.rc_of(p2) == old(mmu).rc_of(p2));
                        assert(m2.rc_of(p2) == m1.rc_of(p2));
                        assert(mmu.rc_of(p2) == m2.rc_of(p2));
                    }
                    assert forall|q: int|
                        #[trigger] mmu.is_free(q)
                            <==> (old(mmu).is_free(q)
                                || (old(mmu).rc_of(p) == 1 && q == p)) by {
                        assert(m1.is_free(q) <==> old(mmu).is_free(q));
                        assert(m2.is_free(q) <==> (m1.is_free(q)
                            || (m1.rc_of(p) == 1 && q == p)));
                        assert(mmu.is_free(q) <==> m2.is_free(q));
                        assert(m1.rc_of(p) == old(mmu).rc_of(p));
                    }
                    assert forall|p2: int, k: int|
                        0 <= p2 < np && 0 <= k < PAGE_WORDS
                            && !(p2 == t && k == va.spec_ptx())
                            implies #[trigger] mmu.mem.word(p2, k)
                                == old(mmu).mem.word(p2, k) by {
                        assert(mmu.mem.word(p2, k) == m2.mem.word(p2, k));
                    }
                    if old(mmu).rc_of(p) == 1 && forall|j: int|
                        0 <= j < old(mmu).allocator.free_list@[0]@.len()
                            ==> (#[trigger] old(mmu).allocator.free_list@[0]@[j]).0
                                != crate::page::buddy_of(p, 0) {
                        assert(m1.allocator == old(mmu).allocator);
                        assert(m1.rc_of(p) == 1);
                        assert(m2.allocator.free_list@[0]@
                            == m1.allocator.free_list@[0]@.push(PPN(p as usize)));
                        assert(mmu.allocator == m2.allocator);
                    }
                    assert(pte_of(mmu.mem, d, va).0 == 0) by {
                        assert(mmu.mem.word(d, va.spec_pdx())
                            == old(mmu).mem.word(d, va.spec_pdx()));
                        assert(pde_of(mmu.mem, d, va) == pde_of(old(mmu).mem, d, va));
                        assert(mmu.mem.word(t, va.spec_ptx()) == 0);
                    }
                    assert(dir_ok(mmu.mem, d)) by {
                        assert forall|i: int| 0 <= i < PAGE_WORDS implies {
                            let p2 = Pte(#[trigger] mmu.mem.word(d, i));
                            p2.spec_flags().v
                                ==> p2.spec_ppn() < mmu.mem.page_count
                                    && (i != UVPT_PDX ==> p2.spec_ppn() != d)
                        } by {
                            assert(mmu.mem.word(d, i)
                                == old(mmu).mem.word(d, i));
                        }
                    }
                }
            },
        }
    }
}


impl PageTable {
    /// Maps `page` at `va` with `flags` (plus the valid and cacheable
    /// bits).
    ///
    /// If `va` already maps the same page the entry's flags are simply
    /// rewritten; if it maps another page that mapping is removed first,
    /// dropping one reference to the old page and freeing it on zero. The
    /// TLB entry for `(asid, va)` is invalidated before any change, and
    /// `NoMem` is returned — with nothing but the TLB changed — exactly
    /// when a table page is needed and no page is free.
    pub fn insert(&self, mmu: &mut Mmu, asid: usize, page: Page, va: VA, flags: PteFlags) -> (r:
        Result<(), MosError>)
        requires
            old(mmu).wf(),
            dir_ok(old(mmu).mem, self.dir()),
            va_ok(*old(mmu), self.dir(), va),
            old(mmu).rc_of(self.dir()) >= 1,
            page.ppn.0 < old(mmu).npages(),
            page.ppn.0 != self.dir(),
            !old(mmu).is_free(page.ppn.0 as int),
            old(mmu).rc_of(page.ppn.0 as int) < 0xffff,
            asid < NASID,
            va.0 < 0x1_0000_0000,
            outside_vpt(va),
        ensures
            final(mmu).wf(),
            final(mmu).npages() == old(mmu).npages(),
            dir_ok(final(mmu).mem, self.dir()),
            final(mmu).rc_of(self.dir()) == old(mmu).rc_of(self.dir()),
            !final(mmu).tlb.has(tlb_key(va, asid as int)),
            forall|h: int|
                h != tlb_key(va, asid as int)
                    ==> (final(mmu).tlb.has(h) <==> old(mmu).tlb.has(h)),
            r is Err <==> (!pde_valid(old(mmu).mem, self.dir(), va)
                && (forall|q: int| !old(mmu).is_free(q))),
            match r {
                Err(e) => {
                    &&& e == MosError::NoMem
                    &&& final(mmu).mem == old(mmu).mem
                    &&& final(mmu).allocator == old(mmu).allocator
                },
                Ok(()) => {
                    let was_same = va_mapped(old(mmu).mem, self.dir(), va)
                        && mapped_page(old(mmu).mem, self.dir(), va) == page.ppn.0;
                    let was_other = va_mapped(old(mmu).mem, self.dir(), va)
                        && mapped_page(old(mmu).mem, self.dir(), va) != page.ppn.0;
                    let q = mapped_page(old(mmu).mem, self.dir(), va);
                    let t = pde_of(final(mmu).mem, self.dir(), va).spec_ppn();
                    &&& va_mapped(final(mmu).mem, self.dir(), va)
                    &&& mapped_page(final(mmu).mem, self.dir(), va) == page.ppn.0
                    &&& pte_of(final(mmu).mem, self.dir(), va).spec_flags()
                        == flags.spec_or(PteFlags { v: true, c0: true, c1: true, ..PteFlags::spec_empty() })
                    &&& final(mmu).rc_of(page.ppn.0 as int)
                        == if was_same {
                            old(mmu).rc_of(page.ppn.0 as int)
                        } else {
                            (old(mmu).rc_of(page.ppn.0 as int) + 1) as u16
                        }
                    &&& (was_other ==> final(mmu).rc_of(q) == old(mmu).rc_of(q) - 1)
                    &&& (was_other && old(mmu).rc_of(q) == 1 ==> final(mmu).is_free(q))
                    &&& (forall|p2: int|
                        0 <= p2 < old(mmu).npages() && p2 != page.ppn.0
                            && (va_mapped(old(mmu).mem, self.dir(), va) ==> p2 != q)
                            && (!pde_valid(old(mmu).mem, self.dir(), va) ==> p2 != t)
                            ==> (#[trigger] final(mmu).rc_of(p2)) == old(mmu).rc_of(p2))
                    &&& (!pde_valid(old(mmu).mem, self.dir(), va)
                        ==> old(mmu).is_free(t) && final(mmu).rc_of(t) == 1
                            && (forall|q2: int|
                                #[trigger] final(mmu).is_free(q2)
                                    <==> (old(mmu).is_free(q2) && q2 != t)))
                    &&& (pde_valid(old(mmu).mem, self.dir(), va)
                        && !(va_mapped(old(mmu).mem, self.dir(), va)
                            && mapped_page(old(mmu).mem, self.dir(), va) != page.ppn.0)
                        ==> (forall|q2: int|
                            #[trigger] final(mmu).is_free(q2) <==> old(mmu).is_free(q2)))
                    &&& (forall|q2: int|
                        #[trigger] final(mmu).is_free(q2) ==> old(mmu).is_free(q2)
                            || (va_mapped(old(mmu).mem, self.dir(), va) && q2 == q))
                    &&& (forall|p2: int, k: int|
                        0 <= p2 < old(mmu).npages() && 0 <= k < PAGE_WORDS
                            && !(p2 == self.dir() && k == va.spec_pdx()) && p2 != t
                            ==> #[trigger] final(mmu).mem.word(p2, k) == old(mmu).mem.word(p2, k))
                    &&& (pde_valid(old(mmu).mem, self.dir(), va)
                        ==> forall|k: int|
                            0 <= k < PAGE_WORDS && k != va.spec_ptx()
                                ==> #[trigger] final(mmu).mem.word(t, k)
                                    == old(mmu).mem.word(t, k))
                    &&& (!pde_valid(old(mmu).mem, self.dir(), va)
                        ==> forall|k: int|
                            0 <= k < PAGE_WORDS && k != va.spec_ptx()
                                ==> #[trigger] final(mmu).mem.word(t, k) == 0)
                    &&& (pde_valid(old(mmu).mem, self.dir(), va)
                        ==> pde_of(final(mmu).mem, self.dir(), va)
                            == pde_of(old(mmu).mem, self.dir(), va))
                },
            },
    {
        proof {
            lemma_outside_vpt_pdx(va);
        }
        let dir = self.dir_ppn();
        let pdx = va.pdx();
        let ptx = va.ptx();
        let pde = self.pte_at(&mmu.mem, pdx);
        if pde.is_valid() {
            let pte = Pte(mmu.mem.read_word(pde.ppn(), ptx));
            if pte.is_valid() {
                if page.ppn().0 == pte.ppn().0 {
                    // Same page: just rewrite the flags after invalidating
                    // any cached translation.
                    mmu.tlb_invalidate(asid, va);
                    let ghost m1 = *mmu;
                    let npte = Pte::new(
                        page.ppn(),
                        flags.or(PteFlags::flag_v()).or(PteFlags::cacheable()),
                    );
                    mmu.mem.write_word(pde.ppn(), ptx, npte.0);
                    proof {
                        let d = self.dir();
                        let t = pde_of(old(mmu).mem, d, va).spec_ppn();
                        assert(mmu.allocator == m1.allocator && m1.allocator == old(mmu).allocator);
                        assert(mmu.tlb == m1.tlb);
                        assert forall|p2: int, k: int|
                            0 <= p2 < old(mmu).npages() && 0 <= k < PAGE_WORDS
                                && !(p2 == d && k == va.spec_pdx()) && p2 != t
                                implies #[trigger] mmu.mem.word(p2, k)
                                    == old(mmu).mem.word(p2, k) by {}
                        assert forall|p2: int|
                            0 <= p2 < old(mmu).npages()
                                implies (#[trigger] mmu.rc_of(p2)) == old(mmu).rc_of(p2) by {}
                        assert(mmu.mem.word(d, va.spec_pdx())
                            == old(mmu).mem.word(d, va.spec_pdx()));
                        assert(pde_of(mmu.mem, d, va) == pde_of(old(mmu).mem, d, va));
                        assert(pte_of(mmu.mem, d, va).0 == npte.0);
                        assert forall|k: int|
                            0 <= k < PAGE_WORDS && k != va.spec_ptx()
                                implies #[trigger] mmu.mem.word(t, k)
                                    == old(mmu).mem.word(t, k) by {}
                        assert(dir_ok(mmu.mem, d)) by {
                            assert forall|i: int| 0 <= i < PAGE_WORDS implies {
                                let p2 = Pte(#[trigger] mmu.mem.word(d, i));
                                p2.spec_flags().v
                                    ==> p2.spec_ppn() < mmu.mem.page_count
                                        && (i != UVPT_PDX ==> p2.spec_ppn() != d)
                            } by {
                                assert(mmu.mem.word(d, i) == old(mmu).mem.word(d, i));
                            }
                        }
                    }
                    return Ok(());
                }
                self.remove(mmu, asid, va);
            }
        }
        let ghost mrm = *mmu;
        mmu.tlb_invalidate(asid, va);
        let ghost mtlb = *mmu;
        proof {
            assert(mtlb.mem == mrm.mem && mtlb.allocator == mrm.allocator);
            assert(dir_ok(mtlb.mem, self.dir()));
            assert(mrm.rc_of(self.dir()) == old(mmu).rc_of(self.dir())) by {
                if va_mapped(old(mmu).mem, self.dir(), va) {
                    assert(mapped_page(old(mmu).mem, self.dir(), va) != self.dir());
                }
            }
            assert(mtlb.rc_of(self.dir()) == mrm.rc_of(self.dir()));
            assert(mtlb.rc_of(self.dir()) >= 1);
        }
        let r = self.walk(mmu, va, true);
        match r {
            Err(e) => {
                proof {
                    assert(e == MosError::NoMem);
                    assert(!pde_valid(old(mmu).mem, self.dir(), va));
                    assert forall|q2: int| !old(mmu).is_free(q2) by {
                        assert(!mtlb.is_free(q2));
                        assert(mrm.is_free(q2) <==> mtlb.is_free(q2));
                    }
                }
                Err(e)
            },
            Ok(None) => {
                proof {
                    assert(false);
                }
                Err(MosError::NoMem)
            },
            Ok(Some((t, idx))) => {
                let ghost mw = *mmu;
                proof {
                    let pp = page.ppn.0 as int;
                    assert(!mrm.is_free(pp)) by {
                        if va_mapped(old(mmu).mem, self.dir(), va)
                            && mapped_page(old(mmu).mem, self.dir(), va) != pp {
                        }
                    }
                    assert(!mtlb.is_free(pp));
                    assert(!mw.is_free(pp)) by {
                        if !pde_valid(mtlb.mem, self.dir(), va) {
                            assert(mw.is_free(pp) <==> (mtlb.is_free(pp) && pp != t.0));
                        }
                    }
                    assert(mrm.rc_of(pp) == old(mmu).rc_of(pp)) by {
                        if va_mapped(old(mmu).mem, self.dir(), va)
                            && mapped_page(old(mmu).mem, self.dir(), va) != pp {
                        }
                    }
                    assert(mtlb.rc_of(pp) == mrm.rc_of(pp));
                    assert(mw.rc_of(pp) == mtlb.rc_of(pp)) by {
                        if !pde_valid(mtlb.mem, self.dir(), va) {
                            assert(mtlb.is_free(t.0 as int));
                            assert(pp != t.0);
                        }
                    }
                }
                let npte = Pte::new(
                    page.ppn(),
                    flags.or(PteFlags::flag_v()).or(PteFlags::cacheable()),
                );
                mmu.mem.write_word(t, idx, npte.0);
                let ghost mwr = *mmu;
                proof {
                    let pp = page.ppn.0 as int;
                    assert(mwr.allocator == mw.allocator);
                    assert(!mwr.is_free(pp));
                    assert(mwr.rc_of(pp) == mw.rc_of(pp));
                }
                mmu.page_inc_ref(page);
                proof {
                    let d = self.dir();
                    let np = old(mmu).npages();
                    let q = mapped_page(old(mmu).mem, d, va);
                    let was_other = va_mapped(old(mmu).mem, d, va) && q != page.ppn.0;
                    assert(mmu.mem == mwr.mem);
                    assert(mwr.allocator == mw.allocator);
                    assert(mmu.tlb == mwr.tlb && mwr.tlb == mw.tlb && mw.tlb == mtlb.tlb);
                    // the directory slot is not the written table slot
                    assert(t.0 != d);
                    assert(mwr.mem.word(d, va.spec_pdx()) == mw.mem.word(d, va.spec_pdx()));
                    assert(pde_of(mmu.mem, d, va) == pde_of(mw.mem, d, va));
                    assert(pde_valid(mmu.mem, d, va));
                    assert(pte_of(mmu.mem, d, va).0 == npte.0);
                    assert(va_mapped(mmu.mem, d, va));
                    assert(mapped_page(mmu.mem, d, va) == page.ppn.0);
                    // reference counts
                    assert(mmu.rc_of(page.ppn.0 as int)
                        == old(mmu).rc_of(page.ppn.0 as int) + 1) by {
                        assert(mwr.rc_of(page.ppn.0 as int)
                            == old(mmu).rc_of(page.ppn.0 as int));
                        assert(mmu.rc_of(page.ppn.0 as int)
                            == mwr.rc_of(page.ppn.0 as int) + 1);
                    }
                    // the result cannot be the out-of-memory case
                    assert(pde_valid(mtlb.mem, d, va) == pde_valid(old(mmu).mem, d, va)) by {
                        if va_mapped(old(mmu).mem, d, va) {
                            let told = pde_of(old(mmu).mem, d, va).spec_ppn();
                            assert(told != d);
                            assert(mrm.mem.word(d, va.spec_pdx())
                                == old(mmu).mem.word(d, va.spec_pdx()));
                        }
                    }
                    if !pde_valid(old(mmu).mem, d, va) {
                        assert(mrm == *old(mmu));
                        assert(mtlb.is_free(t.0 as int));
                        assert(old(mmu).is_free(t.0 as int));
                        assert(mmu.rc_of(t.0 as int) == 1) by {
                            assert(mw.rc_of(t.0 as int) == 1);
                            assert(mwr.rc_of(t.0 as int) == mw.rc_of(t.0 as int));
                            assert(page.ppn.0 != t.0);
                            assert(mmu.rc_of(t.0 as int) == mwr.rc_of(t.0 as int));
                        }
                    }
                    if !pde_valid(old(mmu).mem, d, va) {
                        assert forall|q2: int|
                            #[trigger] mmu.is_free(q2)
                                <==> (old(mmu).is_free(q2) && q2 != t.0) by {
                            assert(mrm == *old(mmu));
                            assert(mtlb.is_free(q2) <==> mrm.is_free(q2));
                            assert(mw.is_free(q2) <==> (mtlb.is_free(q2) && q2 != t.0));
                            assert(mwr.is_free(q2) <==> mw.is_free(q2));
                            assert(mmu.is_free(q2) <==> mwr.is_free(q2));
                        }
                    }
                    if pde_valid(old(mmu).mem, d, va)
                        && !(va_mapped(old(mmu).mem, d, va)
                            && mapped_page(old(mmu).mem, d, va) != page.ppn.0) {
                        assert forall|q2: int|
                            #[trigger] mmu.is_free(q2) <==> old(mmu).is_free(q2) by {
                            assert(mrm == *old(mmu));
                            assert(mtlb.is_free(q2) <==> mrm.is_free(q2));
                            assert(mw == mtlb);
                            assert(mwr.is_free(q2) <==> mw.is_free(q2));
                            assert(mmu.is_free(q2) <==> mwr.is_free(q2));
                        }
                    }
                    assert forall|q2: int|
                        #[trigger] mmu.is_free(q2)
                            implies old(mmu).is_free(q2)
                                || (va_mapped(old(mmu).mem, d, va) && q2 == q) by {
                        assert(mwr.is_free(q2) <==> mw.is_free(q2));
                        assert(mmu.is_free(q2) <==> mwr.is_free(q2));
                        if pde_valid(mtlb.mem, d, va) {
                            assert(mw == mtlb);
                        } else {
                            assert(mw.is_free(q2) <==> (mtlb.is_free(q2) && q2 != t.0));
                        }
                        assert(mtlb.is_free(q2) <==> mrm.is_free(q2));
                        if mrm.is_free(q2) && !old(mmu).is_free(q2) {
                            assert(va_mapped(old(mmu).mem, d, va));
                            assert(q2 == q);
                        }
                    }
                    assert(was_other ==> mmu.rc_of(q) == old(mmu).rc_of(q) - 1
                        && (old(mmu).rc_of(q) == 1 ==> mmu.is_free(q))) by {
                        if was_other {
                            assert(pde_valid(mtlb.mem, d, va));
                            assert(mw == mtlb);
                            assert(mrm.rc_of(q) == old(mmu).rc_of(q) - 1);
                            assert(mtlb.rc_of(q) == mrm.rc_of(q));
                            assert(mwr.rc_of(q) == mw.rc_of(q));
                            assert(q != page.ppn.0);
                            assert(mmu.rc_of(q) == mwr.rc_of(q));
                            if old(mmu).rc_of(q) == 1 {
                                assert(mrm.is_free(q));
                                assert(mtlb.is_free(q));
                                assert(mwr.is_free(q) <==> mw.is_free(q));
                                assert(mmu.is_free(q) <==> mwr.is_free(q));
                            }
                        }
                    }
                    assert forall|p2: int|
                        0 <= p2 < np && p2 != page.ppn.0
                            && (va_mapped(old(mmu).mem, d, va) ==> p2 != q)
                            && (!pde_valid(old(mmu).mem, d, va) ==> p2 != t.0)
                            implies (#[trigger] mmu.rc_of(p2)) == old(mmu).rc_of(p2) by {
                        assert(mrm.rc_of(p2) == old(mmu).rc_of(p2));
                        assert(mtlb.rc_of(p2) == mrm.rc_of(p2));
                        assert(mw.rc_of(p2) == mtlb.rc_of(p2)) by {
                            if pde_valid(mtlb.mem, d, va) {
                                assert(mw == mtlb);
                            }
                        }
                        assert(mwr.rc_of(p2) == mw.rc_of(p2));
                        assert(mmu.rc_of(p2) == mwr.rc_of(p2));
                    }
                    if !pde_valid(old(mmu).mem, d, va) {
                        assert(mrm == *old(mmu));
                        assert(mtlb.is_free(t.0 as int));
                        assert(old(mmu).is_free(t.0 as int));
                        assert(mmu.rc_of(t.0 as int) == 1) by {
                            assert(mw.rc_of(t.0 as int) == 1);
                            assert(mwr.rc_of(t.0 as int) == mw.rc_of(t.0 as int));
                            assert(page.ppn.0 != t.0);
                            assert(mmu.rc_of(t.0 as int) == mwr.rc_of(t.0 as int));
                        }
                    }
                    if !pde_valid(old(mmu).mem, d, va) {
                        assert forall|q2: int|
                            #[trigger] mmu.is_free(q2)
                                <==> (old(mmu).is_free(q2) && q2 != t.0) by {
                            assert(mrm == *old(mmu));
                            assert(mtlb.is_free(q2) <==> mrm.is_free(q2));
                            assert(mw.is_free(q2) <==> (mtlb.is_free(q2) && q2 != t.0));
                            assert(mwr.is_free(q2) <==> mw.is_free(q2));
                            assert(mmu.is_free(q2) <==> mwr.is_free(q2));
                        }
                    }
                    if pde_valid(old(mmu).mem, d, va)
                        && !(va_mapped(old(mmu).mem, d, va)
                            && mapped_page(old(mmu).mem, d, va) != page.ppn.0) {
                        assert forall|q2: int|
                            #[trigger] mmu.is_free(q2) <==> old(mmu).is_free(q2) by {
                            assert(mrm == *old(mmu));
                            assert(mtlb.is_free(q2) <==> mrm.is_free(q2));
                            assert(mw == mtlb);
                            assert(mwr.is_free(q2) <==> mw.is_free(q2));
                            assert(mmu.is_free(q2) <==> mwr.is_free(q2));
                        }
                    }
                    assert forall|q2: int|
                        #[trigger] mmu.is_free(q2)
                            implies old(mmu).is_free(q2)
                                || (va_mapped(old(mmu).mem, d, va) && q2 == q) by {
                        assert(mwr.is_free(q2) <==> mw.is_free(q2));
                        assert(mmu.is_free(q2) <==> mwr.is_free(q2));
                        if pde_valid(mtlb.mem, d, va) {
                            assert(mw == mtlb);
                        } else {
                            assert(mw.is_free(q2) <==> (mtlb.is_free(q2) && q2 != t.0));
                        }
                        assert(mtlb.is_free(q2) <==> mrm.is_free(q2));
                        if mrm.is_free(q2) && !old(mmu).is_free(q2) {
                            assert(va_mapped(old(mmu).mem, d, va));
                            assert(q2 == q);
                        }
                    }
                    assert forall|p2: int, k: int|
                        0 <= p2 < np && 0 <= k < PAGE_WORDS
                            && !(p2 == d && k == va.spec_pdx()) && p2 != t.0
                            implies #[trigger] mmu.mem.word(p2, k)
                                == old(mmu).mem.word(p2, k) by {
                        let told = pde_of(old(mmu).mem, d, va).spec_ppn();
                        if va_mapped(old(mmu).mem, d, va) {
                            assert(told == t.0);
                            assert(mrm.mem.word(p2, k) == old(mmu).mem.word(p2, k));
                        } else {
                            assert(mrm.mem == old(mmu).mem);
                        }
                        assert(mtlb.mem == mrm.mem);
                        assert(mw.mem.word(p2, k) == mtlb.mem.word(p2, k));
                        assert(mwr.mem.word(p2, k) == mw.mem.word(p2, k));
                    }
                    if pde_valid(old(mmu).mem, d, va) {
                        // the directory slot itself is untouched
                        assert(pde_of(mmu.mem, d, va) == pde_of(old(mmu).mem, d, va)) by {
                            let told = pde_of(old(mmu).mem, d, va).spec_ppn();
                            assert(told != d);
                            assert(mrm.mem.word(d, va.spec_pdx())
                                == old(mmu).mem.word(d, va.spec_pdx()));
                            assert(mw.mem.word(d, va.spec_pdx())
                                == mrm.mem.word(d, va.spec_pdx()));
                            assert(mmu.mem.word(d, va.spec_pdx())
                                == mw.mem.word(d, va.spec_pdx()));
                        }
                        // the table existed throughout; only its slot for
                        // `va` was rewritten (and possibly cleared by the
                        // removal first, at the same slot)
                        assert forall|k2: int|
                            0 <= k2 < PAGE_WORDS && k2 != va.spec_ptx()
                                implies #[trigger] mmu.mem.word(t.0 as int, k2)
                                    == old(mmu).mem.word(t.0 as int, k2) by {
                            assert(mrm.mem.word(t.0 as int, k2)
                                == old(mmu).mem.word(t.0 as int, k2));
                            assert(mw.mem.word(t.0 as int, k2)
                                == mrm.mem.word(t.0 as int, k2));
                            assert(mmu.mem.word(t.0 as int, k2)
                                == mw.mem.word(t.0 as int, k2));
                        }
                    } else {
                        // the table is fresh and zeroed apart from the new
                        // entry
                        assert forall|k2: int|
                            0 <= k2 < PAGE_WORDS && k2 != va.spec_ptx()
                                implies #[trigger] mmu.mem.word(t.0 as int, k2) == 0 by {
                            assert(mw.mem.word(t.0 as int, k2) == 0);
                            assert(mmu.mem.word(t.0 as int, k2)
                                == mw.mem.word(t.0 as int, k2));
                        }
                    }
                    assert(mmu.rc_of(d) == old(mmu).rc_of(d)) by {
                        assert(mrm.rc_of(d) == old(mmu).rc_of(d)) by {
                            if va_mapped(old(mmu).mem, d, va) {
                                assert(mapped_page(old(mmu).mem, d, va) != d);
                            }
                        }
                        assert(mtlb.rc_of(d) == mrm.rc_of(d));
                        assert(mw.rc_of(d) == mtlb.rc_of(d));
                        assert(mwr.rc_of(d) == mw.rc_of(d));
                        assert(mmu.rc_of(d) == mwr.rc_of(d));
                    }
                    assert(dir_ok(mmu.mem, d)) by {
                        assert forall|i: int| 0 <= i < PAGE_WORDS implies {
                            let p2 = Pte(#[trigger] mmu.mem.word(d, i));
                            p2.spec_flags().v
                                ==> p2.spec_ppn() < mmu.mem.page_count
                                    && (i != UVPT_PDX ==> p2.spec_ppn() != d)
                        } by {
                            assert(mmu.mem.word(d, i) == mw.mem.word(d, i));
                        }
                    }
                }
                Ok(())
            },
        }
    }

    /// The directory page's number.
    fn dir_ppn(&self) -> (r: PPN)
        ensures
            r.0 == self.dir(),
    {
        self.page.ppn
    }
}


/// Mapping a page and looking the address up again: after an insertion of
/// `p` at `va` — whose contract states the new translation and the count
/// increment over `va_mapped`, `mapped_page`, `pte_of` and `rc_of` — a
/// lookup at `va` reports exactly `p`, because [`PageTable::lookup`]'s
/// result is specified by those same functions. The two contracts meet in
/// one vocabulary, so the law is immediate: any lookup outcome other than
/// `Some` of `p` would contradict the insertion's postcondition.
pub proof fn lemma_insert_then_lookup(
    pre: Mmu,
    post: Mmu,
    pgdir: int,
    va: VA,
    p: int,
    flags: crate::layout::PteFlags,
    looked: Option<(Pte, crate::page::Page)>,
)
    requires
        // what the insertion ensured
        va_mapped(post.mem, pgdir, va),
        mapped_page(post.mem, pgdir, va) == p,
        pte_of(post.mem, pgdir, va).spec_flags() == flags,
        post.rc_of(p) == pre.rc_of(p) + 1,
        // what any lookup on the new state may report
        match looked {
            Some((pte, page)) => va_mapped(post.mem, pgdir, va)
                && pte == pte_of(post.mem, pgdir, va)
                && page.ppn.0 == mapped_page(post.mem, pgdir, va),
            None => !va_mapped(post.mem, pgdir, va),
        },
    ensures
        looked matches Some(r) && r.1.ppn.0 == p && r.0.spec_flags() == flags,
        post.rc_of(p) == pre.rc_of(p) + 1,
{
}

} // verus!


