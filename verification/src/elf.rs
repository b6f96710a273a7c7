//! The ELF loader collaborator: header parsing and segment loading.
//!
//! The loader walks the program headers of a 32-bit little-endian ELF
//! image and materializes each loadable segment by allocating zeroed
//! pages, filling them from the file bytes, and handing them to the page
//! table's insertion primitive.

use vstd::prelude::*;
use crate::addr::VA;
use crate::error::MosError;
use crate::layout::{NASID, PAGE_SIZE, PAGE_WORDS, PteFlags, UTEMP, UTOP};
use crate::map::{dir_ok, tables_distinct, tables_ok, va_mapped, PageDirectory, Pte};
use crate::mmu::Mmu;
use crate::page::Page;

verus! {

/// Size of the ELF identification prefix.
pub const EI_NIDENT: usize = 16;

/// Program-header type of a loadable segment.
pub const PT_LOAD: u32 = 1;

/// Segment permission flag: writable.
pub const PF_W: u32 = 2;

/// The little-endian 16-bit value at `off`.
pub open spec fn spec_u16(b: Seq<u8>, off: int) -> int {
    b[off] + 0x100 * b[off + 1]
}

/// The little-endian 32-bit value at `off`.
pub open spec fn spec_u32(b: Seq<u8>, off: int) -> int {
    b[off] + 0x100 * b[off + 1] + 0x1_0000 * b[off + 2] + 0x100_0000 * b[off + 3]
}

/// Reads the little-endian 16-bit value at `off`.
fn read_u16(b: &Vec<u8>, off: usize) -> (r: u16)
    requires
        off + 2 <= b@.len(),
    ensures
        r == spec_u16(b@, off as int),
{
    let n = b.len();
    b[off] as u16 + 0x100 * (b[off + 1] as u16)
}

/// Reads the little-endian 32-bit value at `off`.
fn read_u32(b: &Vec<u8>, off: usize) -> (r: u32)
    requires
        off + 4 <= b@.len(),
    ensures
        r == spec_u32(b@, off as int),
{
    let n = b.len();
    b[off] as u32 + 0x100 * (b[off + 1] as u32) + 0x1_0000 * (b[off + 2] as u32)
        + 0x100_0000 * (b[off + 3] as u32)
}

/// Whether the bytes start with the 32-bit ELF magic.
pub open spec fn spec_is_elf32(b: Seq<u8>) -> bool {
    b.len() >= 5 && b[0] == 0x7f && b[1] == 0x45 && b[2] == 0x4c && b[3] == 0x46 && b[4] == 1
}

/// An ELF file header, decoded.
#[derive(Clone, Copy, Debug)]
pub struct Elf32Ehdr {
    /// The program entry point.
    pub e_entry: u32,
    /// Byte offset of the program-header table.
    pub e_phoff: u32,
    /// Size in bytes of one program header.
    pub e_phentsize: u16,
    /// Number of program headers.
    pub e_phnum: u16,
}

/// A program header, decoded.
#[derive(Clone, Copy, Debug)]
pub struct Elf32Phdr {
    /// Segment type.
    pub p_type: u32,
    /// Byte offset of the segment's file image.
    pub p_offset: u32,
    /// Virtual address the segment loads at.
    pub p_vaddr: u32,
    /// Physical address, unused by this kernel.
    pub p_paddr: u32,
    /// Size of the file image.
    pub p_filesz: u32,
    /// Size of the segment in memory.
    pub p_memsz: u32,
    /// Segment permission flags.
    pub p_flags: u32,
    /// Requested alignment.
    pub p_align: u32,
}

/// A 32-bit ELF image.
pub struct Elf32<'a> {
    /// The file bytes.
    pub binary: &'a Vec<u8>,
}

impl<'a> Elf32<'a> {
    /// Whether the bytes carry the 32-bit ELF magic.
    pub fn is_elf32_format(data: &Vec<u8>) -> (r: bool)
        ensures
            r == spec_is_elf32(data@),
    {
        data.len() >= 5 && data[0] == 0x7f && data[1] == 0x45 && data[2] == 0x4c
            && data[3] == 0x46 && data[4] == 1
    }

    /// Wraps the file bytes.
    pub fn from_bytes(data: &'a Vec<u8>) -> (r: Self)
        ensures
            r.binary == data,
    {
        Elf32 { binary: data }
    }

    /// Decodes the file header.
    pub fn ehdr(&self) -> (r: Elf32Ehdr)
        requires
            self.binary@.len() >= 52,
        ensures
            r.e_entry == spec_u32(self.binary@, 24),
            r.e_phoff == spec_u32(self.binary@, 28),
            r.e_phentsize == spec_u16(self.binary@, 42),
            r.e_phnum == spec_u16(self.binary@, 44),
    {
        Elf32Ehdr {
            e_entry: read_u32(self.binary, 24),
            e_phoff: read_u32(self.binary, 28),
            e_phentsize: read_u16(self.binary, 42),
            e_phnum: read_u16(self.binary, 44),
        }
    }

    /// Decodes program header `n`. Returns `Some` exactly when `n` is in
    /// range and the header fits inside the file.
    pub fn phdr(&self, n: usize) -> (r: Option<Elf32Phdr>)
        ensures
            r is Some <==> {
                &&& self.binary@.len() >= 52
                &&& n < spec_u16(self.binary@, 44)
                &&& spec_u32(self.binary@, 28) + n * spec_u16(self.binary@, 42) + 32
                    <= self.binary@.len()
            },
            r matches Some(ph) ==> {
                let base = spec_u32(self.binary@, 28) + n * spec_u16(self.binary@, 42);
                &&& self.binary@.len() >= 52
                &&& base + 32 <= self.binary@.len()
                &&& ph.p_type == spec_u32(self.binary@, base)
                &&& ph.p_offset == spec_u32(self.binary@, base + 4)
                &&& ph.p_vaddr == spec_u32(self.binary@, base + 8)
                &&& ph.p_filesz == spec_u32(self.binary@, base + 16)
                &&& ph.p_memsz == spec_u32(self.binary@, base + 20)
                &&& ph.p_paddr == spec_u32(self.binary@, base + 12)
                &&& ph.p_flags == spec_u32(self.binary@, base + 24)
                &&& ph.p_align == spec_u32(self.binary@, base + 28)
            },
    {
        if self.binary.len() < 52 {
            return None;
        }
        let eh = self.ehdr();
        if n >= eh.e_phnum as usize {
            return None;
        }
        let entsize = eh.e_phentsize as usize;
        let off = eh.e_phoff as usize;
        if n > 0xffff || entsize > 0xffff {
            return None;
        }
        proof {
            assert(n * entsize <= 0xffff * 0xffff) by (nonlinear_arith)
                requires n <= 0xffff, entsize <= 0xffff,
            {}
        }
        let start = match off.checked_add(n * entsize) {
            Some(v) => v,
            None => {
                return None;
            },
        };
        if start > self.binary.len() || self.binary.len() - start < 32 {
            return None;
        }
        Some(Elf32Phdr {
            p_type: read_u32(self.binary, start),
            p_offset: read_u32(self.binary, start + 4),
            p_vaddr: read_u32(self.binary, start + 8),
            p_paddr: read_u32(self.binary, start + 12),
            p_filesz: read_u32(self.binary, start + 16),
            p_memsz: read_u32(self.binary, start + 20),
            p_flags: read_u32(self.binary, start + 24),
            p_align: read_u32(self.binary, start + 28),
        })
    }
}

/// The byte at page offset `pos` of a page whose bytes
/// `[dst, dst + len)` come from `b[src ..]` and whose other bytes are
/// zero.
pub open spec fn spec_fill_byte(b: Seq<u8>, src: int, dst: int, len: int, pos: int) -> int {
    if dst <= pos < dst + len {
        b[src + (pos - dst)] as int
    } else {
        0
    }
}

/// Word `w` of that page, packed little-endian.
pub open spec fn spec_fill_word(b: Seq<u8>, src: int, dst: int, len: int, w: int) -> int {
    spec_fill_byte(b, src, dst, len, 4 * w) + 0x100 * spec_fill_byte(b, src, dst, len, 4 * w + 1)
        + 0x1_0000 * spec_fill_byte(b, src, dst, len, 4 * w + 2)
        + 0x100_0000 * spec_fill_byte(b, src, dst, len, 4 * w + 3)
}

/// Allocates a zeroed page, fills bytes `[dst_off, dst_off + len)` of it
/// from `binary[src_off ..]`, and maps it at the page base `va` with
/// `perm` plus the valid bit. The target must be unmapped and the
/// directory's tables referenced and distinct; both facts survive the
/// call, and everything outside the fresh page, the touched directory
/// slot and the touched table slot is left alone. This is the mapper the
/// loader hands each page-sized chunk to.
pub fn load_icode_mapper(
    mmu: &mut Mmu,
    pgdir: PageDirectory,
    asid: usize,
    va: VA,
    binary: &Vec<u8>,
    src_off: usize,
    dst_off: usize,
    len: usize,
    perm: PteFlags,
) -> (r: Result<(), MosError>)
    requires
        old(mmu).wf(),
        dir_ok(old(mmu).mem, pgdir.dir()),
        old(mmu).rc_of(pgdir.dir()) >= 1,
        tables_ok(*old(mmu), pgdir.dir()),
        tables_distinct(old(mmu).mem, pgdir.dir()),
        !va_mapped(old(mmu).mem, pgdir.dir(), va),
        asid < NASID,
        va.0 as int % PAGE_SIZE as int == 0,
        UTEMP <= va.0 && va.0 < UTOP,
        dst_off + len <= PAGE_SIZE,
        src_off + len <= binary@.len(),
    ensures
        final(mmu).wf(),
        final(mmu).npages() == old(mmu).npages(),
        dir_ok(final(mmu).mem, pgdir.dir()),
        final(mmu).rc_of(pgdir.dir()) == old(mmu).rc_of(pgdir.dir()),
        r matches Ok(()) ==> ({
            let p = crate::map::mapped_page(final(mmu).mem, pgdir.dir(), va);
            let t = crate::map::pde_of(final(mmu).mem, pgdir.dir(), va).spec_ppn();
            &&& va_mapped(final(mmu).mem, pgdir.dir(), va)
            &&& crate::map::pte_of(final(mmu).mem, pgdir.dir(), va).spec_flags()
                == perm.spec_or(PteFlags {
                    v: true,
                    c0: true,
                    c1: true,
                    ..PteFlags::spec_empty()
                })
            &&& 0 <= p < old(mmu).npages()
            &&& old(mmu).is_free(p)
            &&& final(mmu).rc_of(p) == 1
            &&& (forall|w: int|
                0 <= w < PAGE_WORDS
                    ==> (#[trigger] final(mmu).mem.word(p, w))
                        == spec_fill_word(binary@, src_off as int, dst_off as int,
                            len as int, w))
            &&& tables_ok(*final(mmu), pgdir.dir())
            &&& tables_distinct(final(mmu).mem, pgdir.dir())
            &&& 0 <= t < old(mmu).npages()
            &&& t != p
            &&& t != pgdir.dir()
            &&& (crate::map::pde_valid(old(mmu).mem, pgdir.dir(), va) ==> {
                &&& crate::map::pde_of(final(mmu).mem, pgdir.dir(), va)
                    == crate::map::pde_of(old(mmu).mem, pgdir.dir(), va)
                &&& final(mmu).rc_of(t) == old(mmu).rc_of(t)
                &&& (forall|k: int|
                    0 <= k < PAGE_WORDS && k != va.spec_ptx()
                        ==> (#[trigger] final(mmu).mem.word(t, k))
                            == old(mmu).mem.word(t, k))
                &&& (forall|q2: int|
                    #[trigger] final(mmu).is_free(q2)
                        <==> (old(mmu).is_free(q2) && q2 != p))
            })
            &&& (!crate::map::pde_valid(old(mmu).mem, pgdir.dir(), va) ==> {
                &&& old(mmu).is_free(t)
                &&& final(mmu).rc_of(t) == 1
                &&& (forall|k: int|
                    0 <= k < PAGE_WORDS && k != va.spec_ptx()
                        ==> (#[trigger] final(mmu).mem.word(t, k)) == 0)
                &&& (forall|q2: int|
                    #[trigger] final(mmu).is_free(q2)
                        <==> (old(mmu).is_free(q2) && q2 != p && q2 != t))
            })
            &&& (forall|i: int|
                0 <= i < PAGE_WORDS && i != va.spec_pdx()
                    ==> (#[trigger] final(mmu).mem.word(pgdir.dir(), i))
                        == old(mmu).mem.word(pgdir.dir(), i))
            &&& (forall|p2: int, k: int|
                0 <= p2 < old(mmu).npages() && 0 <= k < PAGE_WORDS && p2 != p && p2 != t
                    && !(p2 == pgdir.dir() && k == va.spec_pdx())
                    ==> (#[trigger] final(mmu).mem.word(p2, k)) == old(mmu).mem.word(p2, k))
            &&& (forall|p2: int|
                0 <= p2 < old(mmu).npages() && p2 != p && p2 != t
                    ==> (#[trigger] final(mmu).rc_of(p2)) == old(mmu).rc_of(p2))
        }),
        r matches Err(e) ==> e == MosError::NoMem,
        r is Err
            ==> !(exists|p1: int, p2: int|
                p1 != p2 && #[trigger] old(mmu).is_free(p1) && #[trigger] old(mmu).is_free(p2)),
        r is Err ==> {
            &&& tables_ok(*final(mmu), pgdir.dir())
            &&& tables_distinct(final(mmu).mem, pgdir.dir())
            &&& (forall|q2: int|
                #[trigger] final(mmu).is_free(q2) ==> old(mmu).is_free(q2))
        },
{
    let page = match mmu.page_alloc(true) {
        Some(p) => p,
        None => {
            return Err(MosError::NoMem);
        },
    };
    let ghost ma = *mmu;
    proof {
        // a fresh page is never the (referenced) directory
        assert(pgdir.dir() != page.ppn.0);
        assert(ma.rc_of(pgdir.dir()) == old(mmu).rc_of(pgdir.dir()));
    }
    // Fill the page word by word from the file bytes.
    let mut w: usize = 0;
    while w < PAGE_WORDS
        invariant
            w <= PAGE_WORDS,
            mmu.wf(),
            mmu.npages() == old(mmu).npages(),
            page.ppn.0 < mmu.npages(),
            pgdir.dir() != page.ppn.0,
            dst_off + len <= PAGE_SIZE,
            src_off + len <= binary@.len(),
            mmu.allocator == ma.allocator,
            mmu.tlb == ma.tlb,
            forall|p: int, k: int|
                0 <= p < mmu.npages() && 0 <= k < PAGE_WORDS && p != page.ppn.0
                    ==> #[trigger] mmu.mem.word(p, k) == ma.mem.word(p, k),
            forall|w2: int|
                0 <= w2 < w
                    ==> (#[trigger] mmu.mem.word(page.ppn.0 as int, w2))
                        == spec_fill_word(binary@, src_off as int, dst_off as int,
                            len as int, w2),
        decreases PAGE_WORDS - w,
    {
        let b0 = page_byte(binary, src_off, dst_off, len, 4 * w);
        let b1 = page_byte(binary, src_off, dst_off, len, 4 * w + 1);
        let b2 = page_byte(binary, src_off, dst_off, len, 4 * w + 2);
        let b3 = page_byte(binary, src_off, dst_off, len, 4 * w + 3);
        let word = b0 as usize + 0x100 * (b1 as usize) + 0x1_0000 * (b2 as usize)
            + 0x100_0000 * (b3 as usize);
        mmu.mem.write_word(page.ppn, w, word);
        w = w + 1;
    }
    let ghost m1 = *mmu;
    proof {
        let d = pgdir.dir();
        let pp = page.ppn.0 as int;
        assert(dir_ok(m1.mem, d)) by {
            assert forall|i: int| 0 <= i < PAGE_WORDS implies {
                let pde = Pte(#[trigger] m1.mem.word(d, i));
                pde.spec_flags().v ==> pde.spec_ppn() < m1.mem.page_count
                    && (i != crate::map::UVPT_PDX ==> pde.spec_ppn() != d)
            } by {
                assert(m1.mem.word(d, i) == ma.mem.word(d, i));
                assert(ma.mem.word(d, i) == old(mmu).mem.word(d, i));
            }
        }
        assert(m1.rc_of(d) == ma.rc_of(d));
        assert(!m1.is_free(pp)) by {
            assert(!ma.is_free(pp));
        }
        assert(m1.rc_of(pp) == 0) by {
            assert(ma.rc_of(pp) == 0);
        }
        // the fresh page was free, so its count was zero: it is none of
        // the directory's referenced tables, and the target page-table
        // entry, if its table exists, is the untouched invalid one
        assert(m1.mem.word(d, va.spec_pdx()) == old(mmu).mem.word(d, va.spec_pdx()));
        assert(!va_mapped(m1.mem, d, va)) by {
            if crate::map::pde_valid(m1.mem, d, va) {
                let t0 = crate::map::pde_of(old(mmu).mem, d, va).spec_ppn();
                assert(old(mmu).rc_of(t0) >= 1);
                assert(t0 != pp);
                assert(m1.mem.word(t0, va.spec_ptx()) == old(mmu).mem.word(t0, va.spec_ptx()));
            }
        }
        assert forall|q2: int| #[trigger] m1.is_free(q2)
            implies (old(mmu).is_free(q2) && q2 != pp) by {
            assert(m1.allocator == ma.allocator);
            assert(ma.is_free(q2));
        }
        assert forall|q2: int| old(mmu).is_free(q2) && q2 != pp
            implies #[trigger] m1.is_free(q2) by {
            assert(m1.allocator == ma.allocator);
            assert(ma.is_free(q2));
        }
    }
    let ghost m1s = *mmu;
    let r = pgdir.insert(mmu, asid, page, va, perm);
    match r {
        Ok(()) => {
            proof {
                let d = pgdir.dir();
                let pp = page.ppn.0 as int;
                let t = crate::map::pde_of(mmu.mem, d, va).spec_ppn();
                let oldvalid = crate::map::pde_valid(old(mmu).mem, d, va);
                assert(crate::map::pde_valid(m1s.mem, d, va) == oldvalid);
                assert(crate::map::pde_of(m1s.mem, d, va) == crate::map::pde_of(old(mmu).mem, d, va));
                assert(crate::map::mapped_page(mmu.mem, d, va) == pp);
                assert(old(mmu).is_free(pp));
                assert(mmu.rc_of(pp) == 1) by {
                    assert(m1s.rc_of(pp) == 0);
                }
                // where the entry's table already existed it is a
                // referenced page, distinct from the fresh one
                if oldvalid {
                    assert(t == crate::map::pde_of(old(mmu).mem, d, va).spec_ppn());
                    assert(old(mmu).rc_of(t) >= 1);
                    assert(t != pp);
                    assert(m1s.rc_of(t) == old(mmu).rc_of(t));
                    assert(mmu.rc_of(t) == old(mmu).rc_of(t)) by {
                        assert(t != pp);
                        assert(!va_mapped(m1s.mem, d, va));
                    }
                    assert(t != d);
                    assert forall|k: int| 0 <= k < PAGE_WORDS && k != va.spec_ptx()
                        implies (#[trigger] mmu.mem.word(t, k)) == old(mmu).mem.word(t, k) by {
                        assert(mmu.mem.word(t, k) == m1s.mem.word(t, k));
                        assert(m1s.mem.word(t, k) == old(mmu).mem.word(t, k));
                    }
                    assert forall|q2: int| #[trigger] mmu.is_free(q2)
                        implies (old(mmu).is_free(q2) && q2 != pp) by {
                        assert(m1s.is_free(q2));
                    }
                    assert forall|q2: int| old(mmu).is_free(q2) && q2 != pp
                        implies #[trigger] mmu.is_free(q2) by {
                        assert(m1s.is_free(q2));
                    }
                } else {
                    assert(m1s.is_free(t));
                    assert(old(mmu).is_free(t));
                    assert(t != pp);
                    assert(mmu.rc_of(t) == 1);
                    assert(t != d) by {
                        assert(old(mmu).rc_of(d) >= 1);
                        assert(old(mmu).rc_of(t) == 0) by {
                            let (bi, bj) = choose|bi: int, bj: int|
                                old(mmu).allocator.block_in_range(bi, bj)
                                    && #[trigger] old(mmu).allocator.covers(bi, bj, t);
                            assert(old(mmu).allocator.tracker.rc_at(t) == 0);
                        }
                    }
                    assert forall|q2: int| #[trigger] mmu.is_free(q2)
                        implies (old(mmu).is_free(q2) && q2 != pp && q2 != t) by {
                        assert(m1s.is_free(q2) && q2 != t);
                    }
                    assert forall|q2: int| old(mmu).is_free(q2) && q2 != pp && q2 != t
                        implies #[trigger] mmu.is_free(q2) by {
                        assert(m1s.is_free(q2));
                    }
                }
                // free pages carry no references, so every referenced
                // table survives with its count, and the fresh additions
                // stay apart from them
                assert forall|q2: int|
                    0 <= q2 < old(mmu).npages() && old(mmu).rc_of(q2) >= 1
                    implies q2 != pp && (oldvalid || q2 != t) by {}
                assert forall|p2: int, k: int|
                    0 <= p2 < old(mmu).npages() && 0 <= k < PAGE_WORDS && p2 != pp && p2 != t
                        && !(p2 == d && k == va.spec_pdx())
                    implies (#[trigger] mmu.mem.word(p2, k)) == old(mmu).mem.word(p2, k) by {
                    assert(mmu.mem.word(p2, k) == m1s.mem.word(p2, k));
                    assert(m1s.mem.word(p2, k) == old(mmu).mem.word(p2, k));
                }
                assert forall|p2: int|
                    0 <= p2 < old(mmu).npages() && p2 != pp && p2 != t
                    implies (#[trigger] mmu.rc_of(p2)) == old(mmu).rc_of(p2) by {
                    assert(!va_mapped(m1s.mem, d, va));
                    assert(m1s.rc_of(p2) == old(mmu).rc_of(p2));
                }
                assert forall|i: int|
                    0 <= i < PAGE_WORDS && i != va.spec_pdx()
                    implies (#[trigger] mmu.mem.word(d, i)) == old(mmu).mem.word(d, i) by {
                    assert(d != pp);
                    assert(d != t);
                }
                // the filled words survive the insertion: the written
                // entry lives in the table, not in the fresh page
                assert forall|w2: int|
                    0 <= w2 < PAGE_WORDS
                        implies (#[trigger] mmu.mem.word(pp, w2))
                            == spec_fill_word(binary@, src_off as int, dst_off as int,
                                len as int, w2) by {
                    assert(pp != t);
                    assert(!(pp == d && w2 == va.spec_pdx()));
                    assert(mmu.mem.word(pp, w2) == m1s.mem.word(pp, w2));
                }
                // every valid slot still names a referenced table
                assert(tables_ok(*mmu, d)) by {
                    assert forall|i: int| 0 <= i < PAGE_WORDS implies {
                        let pde = Pte(#[trigger] mmu.mem.word(d, i));
                        pde.spec_flags().v ==> mmu.rc_of(pde.spec_ppn()) >= 1
                    } by {
                        let pde = Pte(mmu.mem.word(d, i));
                        if pde.spec_flags().v {
                            if i == va.spec_pdx() {
                                assert(pde.spec_ppn() == t);
                                assert(mmu.rc_of(t) >= 1);
                            } else {
                                assert(mmu.mem.word(d, i) == old(mmu).mem.word(d, i));
                                let ti = pde.spec_ppn();
                                assert(old(mmu).rc_of(ti) >= 1);
                                if ti == pp {
                                    assert(old(mmu).rc_of(pp) == 0) by {
                                        let (bi, bj) = choose|bi: int, bj: int|
                                            old(mmu).allocator.block_in_range(bi, bj)
                                                && #[trigger] old(mmu).allocator.covers(bi, bj, pp);
                                        assert(old(mmu).allocator.tracker.rc_at(pp) == 0);
                                    }
                                    assert(false);
                                }
                                if ti == t {
                                    assert(mmu.rc_of(t) >= 1);
                                } else {
                                    assert(mmu.rc_of(ti) == old(mmu).rc_of(ti));
                                }
                            }
                        }
                    }
                }
                // and distinct slots still name distinct tables
                assert(tables_distinct(mmu.mem, d)) by {
                    assert forall|i1: int, i2: int|
                        0 <= i1 < PAGE_WORDS && 0 <= i2 < PAGE_WORDS && i1 != i2 implies {
                        let a = Pte(#[trigger] mmu.mem.word(d, i1));
                        let b = Pte(#[trigger] mmu.mem.word(d, i2));
                        a.spec_flags().v && b.spec_flags().v ==> a.spec_ppn() != b.spec_ppn()
                    } by {
                        let a = Pte(mmu.mem.word(d, i1));
                        let b = Pte(mmu.mem.word(d, i2));
                        if a.spec_flags().v && b.spec_flags().v {
                            if i1 != va.spec_pdx() && i2 != va.spec_pdx() {
                                assert(mmu.mem.word(d, i1) == old(mmu).mem.word(d, i1));
                                assert(mmu.mem.word(d, i2) == old(mmu).mem.word(d, i2));
                            } else if i1 == va.spec_pdx() {
                                assert(a.spec_ppn() == t);
                                assert(mmu.mem.word(d, i2) == old(mmu).mem.word(d, i2));
                                if oldvalid {
                                    assert(Pte(old(mmu).mem.word(d, i1)).spec_flags().v);
                                } else {
                                    assert(old(mmu).is_free(t));
                                    assert(old(mmu).rc_of(b.spec_ppn()) >= 1);
                                    assert(old(mmu).rc_of(t) == 0) by {
                                        let (bi, bj) = choose|bi: int, bj: int|
                                            old(mmu).allocator.block_in_range(bi, bj)
                                                && #[trigger] old(mmu).allocator.covers(bi, bj, t);
                                        assert(old(mmu).allocator.tracker.rc_at(t) == 0);
                                    }
                                }
                            } else {
                                assert(b.spec_ppn() == t);
                                assert(mmu.mem.word(d, i1) == old(mmu).mem.word(d, i1));
                                if oldvalid {
                                    assert(Pte(old(mmu).mem.word(d, i2)).spec_flags().v);
                                } else {
                                    assert(old(mmu).is_free(t));
                                    assert(old(mmu).rc_of(a.spec_ppn()) >= 1);
                                    assert(old(mmu).rc_of(t) == 0) by {
                                        let (bi, bj) = choose|bi: int, bj: int|
                                            old(mmu).allocator.block_in_range(bi, bj)
                                                && #[trigger] old(mmu).allocator.covers(bi, bj, t);
                                        assert(old(mmu).allocator.tracker.rc_at(t) == 0);
                                    }
                                }
                            }
                        }
                    }
                }
            }
            Ok(())
        },
        Err(e) => {
            proof {
                let d = pgdir.dir();
                let pp = page.ppn.0 as int;
                assert forall|i: int| 0 <= i < PAGE_WORDS implies {
                    let pde = Pte(#[trigger] mmu.mem.word(d, i));
                    pde.spec_flags().v ==> mmu.rc_of(pde.spec_ppn()) >= 1
                } by {
                    assert(mmu.mem.word(d, i) == m1s.mem.word(d, i));
                    assert(m1s.mem.word(d, i) == old(mmu).mem.word(d, i));
                    let pde = Pte(mmu.mem.word(d, i));
                    if pde.spec_flags().v {
                        assert(old(mmu).rc_of(pde.spec_ppn()) >= 1);
                        assert(mmu.rc_of(pde.spec_ppn()) == old(mmu).rc_of(pde.spec_ppn()));
                    }
                }
                assert forall|i1: int, i2: int|
                    0 <= i1 < PAGE_WORDS && 0 <= i2 < PAGE_WORDS && i1 != i2 implies {
                    let a = Pte(#[trigger] mmu.mem.word(d, i1));
                    let b = Pte(#[trigger] mmu.mem.word(d, i2));
                    a.spec_flags().v && b.spec_flags().v ==> a.spec_ppn() != b.spec_ppn()
                } by {
                    assert(mmu.mem.word(d, i1) == old(mmu).mem.word(d, i1));
                    assert(mmu.mem.word(d, i2) == old(mmu).mem.word(d, i2));
                }
                assert forall|q2: int| #[trigger] mmu.is_free(q2)
                    implies old(mmu).is_free(q2) by {
                    assert(mmu.is_free(q2) <==> m1s.is_free(q2));
                }
                if e == MosError::NoMem {
                    // the page took the only free page, and a table was
                    // still needed
                    if exists|p1: int, p2: int|
                        p1 != p2 && #[trigger] old(mmu).is_free(p1)
                            && #[trigger] old(mmu).is_free(p2) {
                        let (p1, p2) = choose|p1: int, p2: int|
                            p1 != p2 && #[trigger] old(mmu).is_free(p1)
                                && #[trigger] old(mmu).is_free(p2);
                        assert(m1s.allocator == ma.allocator);
                        assert(ma.is_free(p1) || ma.is_free(p2));
                        assert(m1s.is_free(p1) <==> ma.is_free(p1));
                        assert(m1s.is_free(p2) <==> ma.is_free(p2));
                        assert(false);
                    }
                }
            }
            Err(e)
        },
    }
}

/// The byte at page offset `pos` of a page whose bytes
/// `[dst_off, dst_off + len)` come from `binary[src_off ..]` and whose
/// other bytes are zero.
fn page_byte(binary: &Vec<u8>, src_off: usize, dst_off: usize, len: usize, pos: usize) -> (r: u8)
    requires
        src_off + len <= binary@.len(),
        dst_off + len <= PAGE_SIZE,
    ensures
        r as int == spec_fill_byte(binary@, src_off as int, dst_off as int, len as int, pos as int),
{
    if dst_off <= pos && pos < dst_off + len {
        let n = binary.len();
        binary[src_off + (pos - dst_off)]
    } else {
        0
    }
}

/// The page base of the first page a segment touches.
pub open spec fn seg_page_base(ph: Elf32Phdr) -> int {
    ph.p_vaddr - ph.p_vaddr as int % PAGE_SIZE as int
}

/// How many page-sized chunks the segment covers.
pub open spec fn seg_page_count(ph: Elf32Phdr) -> int {
    (ph.p_vaddr as int % PAGE_SIZE as int + ph.p_memsz + PAGE_SIZE - 1) / PAGE_SIZE as int
}

/// The page base of the segment's chunk `k`.
pub open spec fn seg_page_va(ph: Elf32Phdr, k: int) -> VA {
    VA((seg_page_base(ph) + k * PAGE_SIZE) as usize)
}

/// The first byte of the segment's file window that lands in chunk `k`.
pub open spec fn seg_chunk_lo(ph: Elf32Phdr, k: int) -> int {
    let off = ph.p_vaddr as int % PAGE_SIZE as int;
    let l0 = if k * PAGE_SIZE > off { k * PAGE_SIZE - off } else { 0 };
    if l0 > ph.p_filesz { ph.p_filesz as int } else { l0 }
}

/// The page offset at which chunk `k`'s file bytes start.
pub open spec fn seg_chunk_dst(ph: Elf32Phdr, k: int) -> int {
    let off = ph.p_vaddr as int % PAGE_SIZE as int;
    if k * PAGE_SIZE > off { 0 } else { off - k * PAGE_SIZE }
}

/// How many file bytes land in chunk `k`; the rest of the page is zero.
pub open spec fn seg_chunk_len(ph: Elf32Phdr, k: int) -> int {
    let off = ph.p_vaddr as int % PAGE_SIZE as int;
    let hi_excl = k * PAGE_SIZE + PAGE_SIZE - off;
    let hi = if hi_excl > ph.p_filesz { ph.p_filesz as int } else { hi_excl };
    let lo = seg_chunk_lo(ph, k);
    if hi > lo { hi - lo } else { 0 }
}

/// A segment header the loader rejects: its sizes are inconsistent, its
/// file window leaves the image, or its pages leave user space.
pub open spec fn seg_malformed(ph: Elf32Phdr, bin_len: int) -> bool {
    ||| ph.p_memsz < ph.p_filesz
    ||| ph.p_offset > bin_len
    ||| bin_len - ph.p_offset < ph.p_filesz
    ||| ph.p_memsz > UTOP
    ||| seg_page_base(ph) > UTOP
    ||| ph.p_vaddr as int % PAGE_SIZE as int + ph.p_memsz > UTOP - seg_page_base(ph)
    ||| (seg_page_count(ph) > 0 && seg_page_base(ph) < UTEMP)
}

/// A loading step keeps every chunk before it mapped with its
/// contents, flags and single reference.
#[verifier::rlimit(100)]
#[verifier::spinoff_prover]
proof fn lemma_seg_chunk_kept(
    m0: Mmu,
    mpre: Mmu,
    mcur: Mmu,
    pgdir: PageDirectory,
    ph: Elf32Phdr,
    binary: Seq<u8>,
    done: int,
    k0: int,
)
    requires
        m0.wf(),
        mpre.wf(),
        mcur.wf(),
        dir_ok(mpre.mem, pgdir.dir()),
        dir_ok(mcur.mem, pgdir.dir()),
        mpre.npages() == m0.npages(),
        mcur.npages() == mpre.npages(),
        m0.rc_of(pgdir.dir()) >= 1,
        mpre.rc_of(pgdir.dir()) >= 1,
        tables_ok(mpre, pgdir.dir()),
        tables_distinct(mpre.mem, pgdir.dir()),
        forall|q: int| #[trigger] mpre.is_free(q) ==> m0.is_free(q),
        0 <= k0,
        done == k0 * PAGE_SIZE,
        done < ph.p_vaddr as int % PAGE_SIZE as int + ph.p_memsz,
        seg_page_base(ph) >= UTEMP,
        seg_page_base(ph) + ph.p_vaddr as int % PAGE_SIZE as int + ph.p_memsz <= UTOP,
        seg_page_count(ph) * PAGE_SIZE
            >= ph.p_vaddr as int % PAGE_SIZE as int + ph.p_memsz,
        (seg_page_count(ph) - 1) * PAGE_SIZE
            < ph.p_vaddr as int % PAGE_SIZE as int + ph.p_memsz,
        !va_mapped(mpre.mem, pgdir.dir(), seg_page_va(ph, k0)),
        forall|j: int|
            0 <= j && j * PAGE_SIZE < done ==> {
                let cva = #[trigger] seg_page_va(ph, j);
                let f = crate::map::pte_of(mpre.mem, pgdir.dir(), cva).spec_flags();
                let p = crate::map::mapped_page(mpre.mem, pgdir.dir(), cva);
                &&& va_mapped(mpre.mem, pgdir.dir(), cva)
                &&& f.v
                &&& f.d == (ph.p_flags as int / 2 % 2 == 1)
                &&& 0 <= p < mpre.npages()
                &&& mpre.rc_of(p) == 1
                &&& m0.is_free(p)
                &&& (forall|w: int|
                    0 <= w < PAGE_WORDS
                        ==> (#[trigger] mpre.mem.word(p, w))
                            == spec_fill_word(binary,
                                ph.p_offset + seg_chunk_lo(ph, j),
                                seg_chunk_dst(ph, j), seg_chunk_len(ph, j), w))
            },
        forall|j: int|
            0 <= j < seg_page_count(ph) && j * PAGE_SIZE >= done
                ==> !va_mapped(mpre.mem, pgdir.dir(), #[trigger] seg_page_va(ph, j)),
        forall|j: int, i: int|
            0 <= j && j * PAGE_SIZE < done && 0 <= i < PAGE_WORDS ==> {
                let pde = Pte(#[trigger] mpre.mem.word(pgdir.dir(), i));
                pde.spec_flags().v
                    ==> pde.spec_ppn() != crate::map::mapped_page(mpre.mem, pgdir.dir(),
                        #[trigger] seg_page_va(ph, j))
            },
        ({
            let cva0 = seg_page_va(ph, k0);
            let pnew = crate::map::mapped_page(mcur.mem, pgdir.dir(), cva0);
            let tnew = crate::map::pde_of(mcur.mem, pgdir.dir(), cva0).spec_ppn();
            let oldvalid = crate::map::pde_valid(mpre.mem, pgdir.dir(), cva0);
            &&& va_mapped(mcur.mem, pgdir.dir(), cva0)
            &&& crate::map::pte_of(mcur.mem, pgdir.dir(), cva0).spec_flags().v
            &&& crate::map::pte_of(mcur.mem, pgdir.dir(), cva0).spec_flags().d
                == (ph.p_flags as int / 2 % 2 == 1)
            &&& 0 <= pnew < mcur.npages()
            &&& mpre.is_free(pnew)
            &&& mcur.rc_of(pnew) == 1
            &&& (forall|w: int|
                0 <= w < PAGE_WORDS
                    ==> (#[trigger] mcur.mem.word(pnew, w))
                        == spec_fill_word(binary,
                            ph.p_offset + seg_chunk_lo(ph, k0),
                            seg_chunk_dst(ph, k0), seg_chunk_len(ph, k0), w))
            &&& 0 <= tnew < mcur.npages()
            &&& tnew != pnew
            &&& tnew != pgdir.dir()
            &&& (oldvalid ==> {
                &&& crate::map::pde_of(mcur.mem, pgdir.dir(), cva0)
                    == crate::map::pde_of(mpre.mem, pgdir.dir(), cva0)
                &&& mcur.rc_of(tnew) == mpre.rc_of(tnew)
                &&& (forall|k: int|
                    0 <= k < PAGE_WORDS && k != cva0.spec_ptx()
                        ==> (#[trigger] mcur.mem.word(tnew, k))
                            == mpre.mem.word(tnew, k))
            })
            &&& (!oldvalid ==> {
                &&& mpre.is_free(tnew)
                &&& mcur.rc_of(tnew) == 1
                &&& (forall|k: int|
                    0 <= k < PAGE_WORDS && k != cva0.spec_ptx()
                        ==> (#[trigger] mcur.mem.word(tnew, k)) == 0)
            })
            &&& (forall|i: int|
                0 <= i < PAGE_WORDS && i != cva0.spec_pdx()
                    ==> (#[trigger] mcur.mem.word(pgdir.dir(), i))
                        == mpre.mem.word(pgdir.dir(), i))
            &&& (forall|p2: int, k: int|
                0 <= p2 < mpre.npages() && 0 <= k < PAGE_WORDS && p2 != pnew && p2 != tnew
                    && !(p2 == pgdir.dir() && k == cva0.spec_pdx())
                    ==> (#[trigger] mcur.mem.word(p2, k)) == mpre.mem.word(p2, k))
            &&& (forall|p2: int|
                0 <= p2 < mpre.npages() && p2 != pnew && p2 != tnew
                    ==> (#[trigger] mcur.rc_of(p2)) == mpre.rc_of(p2))
        }),
    ensures
        forall|j: int|
            0 <= j && j * PAGE_SIZE < done + PAGE_SIZE ==> {
                let cva = #[trigger] seg_page_va(ph, j);
                let f = crate::map::pte_of(mcur.mem, pgdir.dir(), cva).spec_flags();
                let p = crate::map::mapped_page(mcur.mem, pgdir.dir(), cva);
                &&& va_mapped(mcur.mem, pgdir.dir(), cva)
                &&& f.v
                &&& f.d == (ph.p_flags as int / 2 % 2 == 1)
                &&& 0 <= p < mcur.npages()
                &&& mcur.rc_of(p) == 1
                &&& m0.is_free(p)
                &&& (forall|w: int|
                    0 <= w < PAGE_WORDS
                        ==> (#[trigger] mcur.mem.word(p, w))
                            == spec_fill_word(binary,
                                ph.p_offset + seg_chunk_lo(ph, j),
                                seg_chunk_dst(ph, j), seg_chunk_len(ph, j), w))
            },
{
    let base = seg_page_base(ph);
    let total = ph.p_vaddr as int % PAGE_SIZE as int + ph.p_memsz;
        let d = pgdir.dir();
        let cva0 = seg_page_va(ph, k0);
        let pnew = crate::map::mapped_page(mcur.mem, d, cva0);
        let tnew = crate::map::pde_of(mcur.mem, d, cva0).spec_ppn();
        let oldvalid = crate::map::pde_valid(mpre.mem, d, cva0);
        crate::map::lemma_page_base_index(cva0.0 as int);
        // earlier chunks: their directory slot, table slot and page
        // words all lie outside what the mapper touched
        assert forall|j: int| 0 <= j && j * PAGE_SIZE < done + PAGE_SIZE implies {
            let cva = #[trigger] seg_page_va(ph, j);
            let f = crate::map::pte_of(mcur.mem, d, cva).spec_flags();
            let p = crate::map::mapped_page(mcur.mem, d, cva);
            &&& va_mapped(mcur.mem, d, cva)
            &&& f.v
            &&& f.d == (ph.p_flags as int / 2 % 2 == 1)
            &&& 0 <= p < mcur.npages()
            &&& mcur.rc_of(p) == 1
            &&& m0.is_free(p)
            &&& (forall|w: int|
                0 <= w < PAGE_WORDS
                    ==> (#[trigger] mcur.mem.word(p, w))
                        == spec_fill_word(binary,
                            ph.p_offset + seg_chunk_lo(ph, j),
                            seg_chunk_dst(ph, j), seg_chunk_len(ph, j), w))
        } by {
            if j * PAGE_SIZE < done {
                let cva = seg_page_va(ph, j);
                let pj = crate::map::mapped_page(mpre.mem, d, cva);
                let tj = crate::map::pde_of(mpre.mem, d, cva).spec_ppn();
                assert(va_mapped(mpre.mem, d, cva));
                assert(cva.0 == base + j * PAGE_SIZE);
                assert(cva.0 < 0x1_0000_0000 && cva.0 as int % PAGE_SIZE as int == 0) by {
                    vstd::arithmetic::div_mod::lemma_mod_multiples_basic(j, PAGE_SIZE as int);
                    vstd::arithmetic::div_mod::lemma_mod_adds(
                        base as int, j * PAGE_SIZE, PAGE_SIZE as int);
                }
                crate::map::lemma_page_base_index(cva.0 as int);
                assert(cva.0 != cva0.0);
                assert(tj != pnew) by {
                    mpre.lemma_free_rc_zero(pnew);
                }
                assert(pj != pnew) by {
                    mpre.lemma_free_rc_zero(pnew);
                }
                assert(pj != d) by {
                    m0.lemma_free_rc_zero(pj);
                }
                assert(pj != tnew) by {
                    if oldvalid {
                        assert(Pte(mpre.mem.word(d, cva0.spec_pdx())).spec_flags().v);
                        assert(tnew == crate::map::pde_of(mpre.mem, d, cva0).spec_ppn());
                    } else {
                        mpre.lemma_free_rc_zero(tnew);
                    }
                }
                // the directory slot of this chunk kept its entry
                assert(crate::map::pde_of(mcur.mem, d, cva)
                    == crate::map::pde_of(mpre.mem, d, cva)) by {
                    if cva.spec_pdx() == cva0.spec_pdx() {
                        assert(oldvalid);
                    }
                }
                // and the table slot its word
                assert(mcur.mem.word(tj, cva.spec_ptx()) == mpre.mem.word(tj, cva.spec_ptx())) by {
                    assert(tj != d);
                    if cva.spec_pdx() == cva0.spec_pdx() {
                        assert(oldvalid);
                        assert(tj == tnew);
                        assert(cva.spec_ptx() != cva0.spec_ptx());
                    } else {
                        if oldvalid {
                            assert(Pte(mpre.mem.word(d, cva0.spec_pdx())).spec_flags().v);
                            assert(tj != tnew);
                        } else {
                            mpre.lemma_free_rc_zero(tnew);
                            assert(tj != tnew);
                        }
                    }
                }
                assert(va_mapped(mcur.mem, d, cva));
                assert(crate::map::mapped_page(mcur.mem, d, cva) == pj);
                assert(mcur.rc_of(pj) == 1);
                assert forall|w: int| 0 <= w < PAGE_WORDS
                    implies (#[trigger] mcur.mem.word(pj, w)) == mpre.mem.word(pj, w) by {
                    assert(pj != pnew && pj != tnew && pj != d);
                }
            } else {
                assert(j == k0) by (nonlinear_arith)
                    requires
                        j * 4096 < done + 4096,
                        j * 4096 >= done,
                        done == k0 * 4096,
                        0 <= j,
                        PAGE_SIZE == 4096,
                {}
                assert(seg_page_va(ph, j) == cva0);
                assert(m0.is_free(pnew)) by {
                    assert(mpre.is_free(pnew));
                }
            }
        }
    }

/// A loading step leaves every chunk past it unmapped.
#[verifier::rlimit(100)]
#[verifier::spinoff_prover]
proof fn lemma_seg_chunk_ahead(
    m0: Mmu,
    mpre: Mmu,
    mcur: Mmu,
    pgdir: PageDirectory,
    ph: Elf32Phdr,
    binary: Seq<u8>,
    done: int,
    k0: int,
)
    requires
        m0.wf(),
        mpre.wf(),
        mcur.wf(),
        dir_ok(mpre.mem, pgdir.dir()),
        dir_ok(mcur.mem, pgdir.dir()),
        mpre.npages() == m0.npages(),
        mcur.npages() == mpre.npages(),
        m0.rc_of(pgdir.dir()) >= 1,
        mpre.rc_of(pgdir.dir()) >= 1,
        tables_ok(mpre, pgdir.dir()),
        tables_distinct(mpre.mem, pgdir.dir()),
        forall|q: int| #[trigger] mpre.is_free(q) ==> m0.is_free(q),
        0 <= k0,
        done == k0 * PAGE_SIZE,
        done < ph.p_vaddr as int % PAGE_SIZE as int + ph.p_memsz,
        seg_page_base(ph) >= UTEMP,
        seg_page_base(ph) + ph.p_vaddr as int % PAGE_SIZE as int + ph.p_memsz <= UTOP,
        seg_page_count(ph) * PAGE_SIZE
            >= ph.p_vaddr as int % PAGE_SIZE as int + ph.p_memsz,
        (seg_page_count(ph) - 1) * PAGE_SIZE
            < ph.p_vaddr as int % PAGE_SIZE as int + ph.p_memsz,
        !va_mapped(mpre.mem, pgdir.dir(), seg_page_va(ph, k0)),
        forall|j: int|
            0 <= j && j * PAGE_SIZE < done ==> {
                let cva = #[trigger] seg_page_va(ph, j);
                let f = crate::map::pte_of(mpre.mem, pgdir.dir(), cva).spec_flags();
                let p = crate::map::mapped_page(mpre.mem, pgdir.dir(), cva);
                &&& va_mapped(mpre.mem, pgdir.dir(), cva)
                &&& f.v
                &&& f.d == (ph.p_flags as int / 2 % 2 == 1)
                &&& 0 <= p < mpre.npages()
                &&& mpre.rc_of(p) == 1
                &&& m0.is_free(p)
                &&& (forall|w: int|
                    0 <= w < PAGE_WORDS
                        ==> (#[trigger] mpre.mem.word(p, w))
                            == spec_fill_word(binary,
                                ph.p_offset + seg_chunk_lo(ph, j),
                                seg_chunk_dst(ph, j), seg_chunk_len(ph, j), w))
            },
        forall|j: int|
            0 <= j < seg_page_count(ph) && j * PAGE_SIZE >= done
                ==> !va_mapped(mpre.mem, pgdir.dir(), #[trigger] seg_page_va(ph, j)),
        forall|j: int, i: int|
            0 <= j && j * PAGE_SIZE < done && 0 <= i < PAGE_WORDS ==> {
                let pde = Pte(#[trigger] mpre.mem.word(pgdir.dir(), i));
                pde.spec_flags().v
                    ==> pde.spec_ppn() != crate::map::mapped_page(mpre.mem, pgdir.dir(),
                        #[trigger] seg_page_va(ph, j))
            },
        ({
            let cva0 = seg_page_va(ph, k0);
            let pnew = crate::map::mapped_page(mcur.mem, pgdir.dir(), cva0);
            let tnew = crate::map::pde_of(mcur.mem, pgdir.dir(), cva0).spec_ppn();
            let oldvalid = crate::map::pde_valid(mpre.mem, pgdir.dir(), cva0);
            &&& va_mapped(mcur.mem, pgdir.dir(), cva0)
            &&& crate::map::pte_of(mcur.mem, pgdir.dir(), cva0).spec_flags().v
            &&& crate::map::pte_of(mcur.mem, pgdir.dir(), cva0).spec_flags().d
                == (ph.p_flags as int / 2 % 2 == 1)
            &&& 0 <= pnew < mcur.npages()
            &&& mpre.is_free(pnew)
            &&& mcur.rc_of(pnew) == 1
            &&& (forall|w: int|
                0 <= w < PAGE_WORDS
                    ==> (#[trigger] mcur.mem.word(pnew, w))
                        == spec_fill_word(binary,
                            ph.p_offset + seg_chunk_lo(ph, k0),
                            seg_chunk_dst(ph, k0), seg_chunk_len(ph, k0), w))
            &&& 0 <= tnew < mcur.npages()
            &&& tnew != pnew
            &&& tnew != pgdir.dir()
            &&& (oldvalid ==> {
                &&& crate::map::pde_of(mcur.mem, pgdir.dir(), cva0)
                    == crate::map::pde_of(mpre.mem, pgdir.dir(), cva0)
                &&& mcur.rc_of(tnew) == mpre.rc_of(tnew)
                &&& (forall|k: int|
                    0 <= k < PAGE_WORDS && k != cva0.spec_ptx()
                        ==> (#[trigger] mcur.mem.word(tnew, k))
                            == mpre.mem.word(tnew, k))
            })
            &&& (!oldvalid ==> {
                &&& mpre.is_free(tnew)
                &&& mcur.rc_of(tnew) == 1
                &&& (forall|k: int|
                    0 <= k < PAGE_WORDS && k != cva0.spec_ptx()
                        ==> (#[trigger] mcur.mem.word(tnew, k)) == 0)
            })
            &&& (forall|i: int|
                0 <= i < PAGE_WORDS && i != cva0.spec_pdx()
                    ==> (#[trigger] mcur.mem.word(pgdir.dir(), i))
                        == mpre.mem.word(pgdir.dir(), i))
            &&& (forall|p2: int, k: int|
                0 <= p2 < mpre.npages() && 0 <= k < PAGE_WORDS && p2 != pnew && p2 != tnew
                    && !(p2 == pgdir.dir() && k == cva0.spec_pdx())
                    ==> (#[trigger] mcur.mem.word(p2, k)) == mpre.mem.word(p2, k))
            &&& (forall|p2: int|
                0 <= p2 < mpre.npages() && p2 != pnew && p2 != tnew
                    ==> (#[trigger] mcur.rc_of(p2)) == mpre.rc_of(p2))
        }),
    ensures
        forall|j: int|
            0 <= j < seg_page_count(ph) && j * PAGE_SIZE >= done + PAGE_SIZE
                ==> !va_mapped(mcur.mem, pgdir.dir(), #[trigger] seg_page_va(ph, j)),
{
    let base = seg_page_base(ph);
    let total = ph.p_vaddr as int % PAGE_SIZE as int + ph.p_memsz;
        let d = pgdir.dir();
        let cva0 = seg_page_va(ph, k0);
        let pnew = crate::map::mapped_page(mcur.mem, d, cva0);
        let tnew = crate::map::pde_of(mcur.mem, d, cva0).spec_ppn();
        let oldvalid = crate::map::pde_valid(mpre.mem, d, cva0);
        crate::map::lemma_page_base_index(cva0.0 as int);
        // chunks beyond this one stay unmapped
        assert forall|j: int|
            0 <= j < seg_page_count(ph) && j * PAGE_SIZE >= done + PAGE_SIZE
            implies !va_mapped(mcur.mem, d, #[trigger] seg_page_va(ph, j)) by {
            let cva = seg_page_va(ph, j);
            assert(cva.0 == base + j * PAGE_SIZE) by {
                assert(j * PAGE_SIZE < total);
                assert(base + j * PAGE_SIZE < base + total);
            }
            assert(cva.0 as int % PAGE_SIZE as int == 0) by {
                vstd::arithmetic::div_mod::lemma_mod_multiples_basic(j, PAGE_SIZE as int);
                vstd::arithmetic::div_mod::lemma_mod_adds(
                    base as int, j * PAGE_SIZE, PAGE_SIZE as int);
            }
            crate::map::lemma_page_base_index(cva.0 as int);
            assert(cva.0 != cva0.0);
            assert(!va_mapped(mpre.mem, d, cva));
            if cva.spec_pdx() == cva0.spec_pdx() {
                assert(cva.spec_ptx() != cva0.spec_ptx());
                assert(crate::map::pde_of(mcur.mem, d, cva).spec_ppn() == tnew);
                if oldvalid {
                    assert(tnew == crate::map::pde_of(mpre.mem, d, cva0).spec_ppn());
                    assert(mcur.mem.word(tnew, cva.spec_ptx())
                        == mpre.mem.word(tnew, cva.spec_ptx()));
                    assert(crate::map::pde_of(mpre.mem, d, cva)
                        == crate::map::pde_of(mpre.mem, d, cva0));
                    assert(!crate::map::pte_of(mpre.mem, d, cva).spec_flags().v);
                } else {
                    assert(mcur.mem.word(tnew, cva.spec_ptx()) == 0);
                    assert(!Pte(0).spec_flags().v) by {
                        crate::layout::lemma_flags_roundtrip(PteFlags::spec_empty());
                    }
                }
            } else {
                assert(mcur.mem.word(d, cva.spec_pdx()) == mpre.mem.word(d, cva.spec_pdx()));
                if crate::map::pde_valid(mpre.mem, d, cva) {
                    let tj = crate::map::pde_of(mpre.mem, d, cva).spec_ppn();
                    assert(tj != d);
                    assert(tj != pnew) by {
                        mpre.lemma_free_rc_zero(pnew);
                    }
                    assert(tj != tnew) by {
                        if oldvalid {
                            assert(Pte(mpre.mem.word(d, cva0.spec_pdx())).spec_flags().v);
                        } else {
                            mpre.lemma_free_rc_zero(tnew);
                        }
                    }
                    assert(mcur.mem.word(tj, cva.spec_ptx()) == mpre.mem.word(tj, cva.spec_ptx()));
                }
            }
        }
    }

/// After a loading step no table of the directory is one of the
/// loaded data pages.
#[verifier::rlimit(100)]
#[verifier::spinoff_prover]
proof fn lemma_seg_chunk_tables(
    m0: Mmu,
    mpre: Mmu,
    mcur: Mmu,
    pgdir: PageDirectory,
    ph: Elf32Phdr,
    binary: Seq<u8>,
    done: int,
    k0: int,
)
    requires
        m0.wf(),
        mpre.wf(),
        mcur.wf(),
        dir_ok(mpre.mem, pgdir.dir()),
        dir_ok(mcur.mem, pgdir.dir()),
        mpre.npages() == m0.npages(),
        mcur.npages() == mpre.npages(),
        m0.rc_of(pgdir.dir()) >= 1,
        mpre.rc_of(pgdir.dir()) >= 1,
        tables_ok(mpre, pgdir.dir()),
        tables_distinct(mpre.mem, pgdir.dir()),
        forall|q: int| #[trigger] mpre.is_free(q) ==> m0.is_free(q),
        0 <= k0,
        done == k0 * PAGE_SIZE,
        done < ph.p_vaddr as int % PAGE_SIZE as int + ph.p_memsz,
        seg_page_base(ph) >= UTEMP,
        seg_page_base(ph) + ph.p_vaddr as int % PAGE_SIZE as int + ph.p_memsz <= UTOP,
        seg_page_count(ph) * PAGE_SIZE
            >= ph.p_vaddr as int % PAGE_SIZE as int + ph.p_memsz,
        (seg_page_count(ph) - 1) * PAGE_SIZE
            < ph.p_vaddr as int % PAGE_SIZE as int + ph.p_memsz,
        !va_mapped(mpre.mem, pgdir.dir(), seg_page_va(ph, k0)),
        forall|j: int|
            0 <= j && j * PAGE_SIZE < done ==> {
                let cva = #[trigger] seg_page_va(ph, j);
                let f = crate::map::pte_of(mpre.mem, pgdir.dir(), cva).spec_flags();
                let p = crate::map::mapped_page(mpre.mem, pgdir.dir(), cva);
                &&& va_mapped(mpre.mem, pgdir.dir(), cva)
                &&& f.v
                &&& f.d == (ph.p_flags as int / 2 % 2 == 1)
                &&& 0 <= p < mpre.npages()
                &&& mpre.rc_of(p) == 1
                &&& m0.is_free(p)
                &&& (forall|w: int|
                    0 <= w < PAGE_WORDS
                        ==> (#[trigger] mpre.mem.word(p, w))
                            == spec_fill_word(binary,
                                ph.p_offset + seg_chunk_lo(ph, j),
                                seg_chunk_dst(ph, j), seg_chunk_len(ph, j), w))
            },
        forall|j: int|
            0 <= j < seg_page_count(ph) && j * PAGE_SIZE >= done
                ==> !va_mapped(mpre.mem, pgdir.dir(), #[trigger] seg_page_va(ph, j)),
        forall|j: int, i: int|
            0 <= j && j * PAGE_SIZE < done && 0 <= i < PAGE_WORDS ==> {
                let pde = Pte(#[trigger] mpre.mem.word(pgdir.dir(), i));
                pde.spec_flags().v
                    ==> pde.spec_ppn() != crate::map::mapped_page(mpre.mem, pgdir.dir(),
                        #[trigger] seg_page_va(ph, j))
            },
        ({
            let cva0 = seg_page_va(ph, k0);
            let pnew = crate::map::mapped_page(mcur.mem, pgdir.dir(), cva0);
            let tnew = crate::map::pde_of(mcur.mem, pgdir.dir(), cva0).spec_ppn();
            let oldvalid = crate::map::pde_valid(mpre.mem, pgdir.dir(), cva0);
            &&& va_mapped(mcur.mem, pgdir.dir(), cva0)
            &&& crate::map::pte_of(mcur.mem, pgdir.dir(), cva0).spec_flags().v
            &&& crate::map::pte_of(mcur.mem, pgdir.dir(), cva0).spec_flags().d
                == (ph.p_flags as int / 2 % 2 == 1)
            &&& 0 <= pnew < mcur.npages()
            &&& mpre.is_free(pnew)
            &&& mcur.rc_of(pnew) == 1
            &&& (forall|w: int|
                0 <= w < PAGE_WORDS
                    ==> (#[trigger] mcur.mem.word(pnew, w))
                        == spec_fill_word(binary,
                            ph.p_offset + seg_chunk_lo(ph, k0),
                            seg_chunk_dst(ph, k0), seg_chunk_len(ph, k0), w))
            &&& 0 <= tnew < mcur.npages()
            &&& tnew != pnew
            &&& tnew != pgdir.dir()
            &&& (oldvalid ==> {
                &&& crate::map::pde_of(mcur.mem, pgdir.dir(), cva0)
                    == crate::map::pde_of(mpre.mem, pgdir.dir(), cva0)
                &&& mcur.rc_of(tnew) == mpre.rc_of(tnew)
                &&& (forall|k: int|
                    0 <= k < PAGE_WORDS && k != cva0.spec_ptx()
                        ==> (#[trigger] mcur.mem.word(tnew, k))
                            == mpre.mem.word(tnew, k))
            })
            &&& (!oldvalid ==> {
                &&& mpre.is_free(tnew)
                &&& mcur.rc_of(tnew) == 1
                &&& (forall|k: int|
                    0 <= k < PAGE_WORDS && k != cva0.spec_ptx()
                        ==> (#[trigger] mcur.mem.word(tnew, k)) == 0)
            })
            &&& (forall|i: int|
                0 <= i < PAGE_WORDS && i != cva0.spec_pdx()
                    ==> (#[trigger] mcur.mem.word(pgdir.dir(), i))
                        == mpre.mem.word(pgdir.dir(), i))
            &&& (forall|p2: int, k: int|
                0 <= p2 < mpre.npages() && 0 <= k < PAGE_WORDS && p2 != pnew && p2 != tnew
                    && !(p2 == pgdir.dir() && k == cva0.spec_pdx())
                    ==> (#[trigger] mcur.mem.word(p2, k)) == mpre.mem.word(p2, k))
            &&& (forall|p2: int|
                0 <= p2 < mpre.npages() && p2 != pnew && p2 != tnew
                    ==> (#[trigger] mcur.rc_of(p2)) == mpre.rc_of(p2))
        }),
    ensures
        forall|j: int, i: int|
            0 <= j && j * PAGE_SIZE < done + PAGE_SIZE && 0 <= i < PAGE_WORDS ==> {
                let pde = Pte(#[trigger] mcur.mem.word(pgdir.dir(), i));
                pde.spec_flags().v
                    ==> pde.spec_ppn() != crate::map::mapped_page(mcur.mem, pgdir.dir(),
                        #[trigger] seg_page_va(ph, j))
            },
{
    let base = seg_page_base(ph);
    let total = ph.p_vaddr as int % PAGE_SIZE as int + ph.p_memsz;
        let d = pgdir.dir();
        let cva0 = seg_page_va(ph, k0);
        let pnew = crate::map::mapped_page(mcur.mem, d, cva0);
        let tnew = crate::map::pde_of(mcur.mem, d, cva0).spec_ppn();
        let oldvalid = crate::map::pde_valid(mpre.mem, d, cva0);
        crate::map::lemma_page_base_index(cva0.0 as int);
        // the new page joins the data pages no table may alias
        assert forall|j: int, i: int|
            0 <= j && j * PAGE_SIZE < done + PAGE_SIZE && 0 <= i < PAGE_WORDS implies {
            let pde = Pte(#[trigger] mcur.mem.word(d, i));
            pde.spec_flags().v
                ==> pde.spec_ppn() != crate::map::mapped_page(mcur.mem, d,
                    #[trigger] seg_page_va(ph, j))
        } by {
            let pde = Pte(mcur.mem.word(d, i));
            if pde.spec_flags().v {
                let pj = crate::map::mapped_page(mcur.mem, d, seg_page_va(ph, j));
                assert(mcur.rc_of(pj) == 1);
                if i == cva0.spec_pdx() {
                    assert(pde.spec_ppn() == tnew);
                    if j * PAGE_SIZE < done {
                        let cva = seg_page_va(ph, j);
                        assert(crate::map::mapped_page(mpre.mem, d, cva) == pj);
                        assert(pj != tnew) by {
                            if oldvalid {
                                assert(Pte(mpre.mem.word(d, cva0.spec_pdx())).spec_flags().v);
                            } else {
                                mpre.lemma_free_rc_zero(tnew);
                            }
                        }
                    } else {
                        assert(j == k0) by (nonlinear_arith)
                            requires
                                j * 4096 < done + 4096,
                                j * 4096 >= done,
                                done == k0 * 4096,
                                0 <= j,
                                PAGE_SIZE == 4096,
                        {}
                        assert(pj == pnew);
                        assert(tnew != pnew);
                    }
                } else {
                    assert(mcur.mem.word(d, i) == mpre.mem.word(d, i));
                    let ti = pde.spec_ppn();
                    assert(mpre.rc_of(ti) >= 1);
                    if j * PAGE_SIZE < done {
                        let cva = seg_page_va(ph, j);
                        assert(crate::map::mapped_page(mpre.mem, d, cva) == pj);
                        assert(Pte(mpre.mem.word(d, i)).spec_flags().v);
                    } else {
                        assert(j == k0) by (nonlinear_arith)
                            requires
                                j * 4096 < done + 4096,
                                j * 4096 >= done,
                                done == k0 * 4096,
                                0 <= j,
                                PAGE_SIZE == 4096,
                        {}
                        assert(pj == pnew);
                        assert(ti != pnew) by {
                            mpre.lemma_free_rc_zero(pnew);
                        }
                    }
                }
            }
        }
}

/// Maps one chunk of a segment: the page at `done` bytes past the
/// segment's first page base. Everything loaded before it survives, the
/// chunks past it stay unmapped, and the directory's tables stay sound.
#[verifier::rlimit(100)]
#[verifier::spinoff_prover]
fn load_seg_chunk(
    mmu: &mut Mmu,
    pgdir: PageDirectory,
    asid: usize,
    ph: &Elf32Phdr,
    binary: &Vec<u8>,
    done: usize,
    Ghost(m0): Ghost<Mmu>,
) -> (r: Result<(), MosError>)
    requires
        old(mmu).wf(),
        m0.wf(),
        dir_ok(old(mmu).mem, pgdir.dir()),
        old(mmu).rc_of(pgdir.dir()) >= 1,
        m0.rc_of(pgdir.dir()) >= 1,
        old(mmu).npages() == m0.npages(),
        tables_ok(*old(mmu), pgdir.dir()),
        tables_distinct(old(mmu).mem, pgdir.dir()),
        forall|q: int| #[trigger] old(mmu).is_free(q) ==> m0.is_free(q),
        asid < NASID,
        done as int % PAGE_SIZE as int == 0,
        done < ph.p_vaddr as int % PAGE_SIZE as int + ph.p_memsz,
        ph.p_filesz <= ph.p_memsz,
        ph.p_offset + ph.p_filesz <= binary@.len(),
        seg_page_base(*ph) >= UTEMP,
        seg_page_base(*ph) + ph.p_vaddr as int % PAGE_SIZE as int + ph.p_memsz <= UTOP,
        forall|j: int|
            0 <= j && j * PAGE_SIZE < done ==> {
                let cva = #[trigger] seg_page_va(*ph, j);
                let f = crate::map::pte_of(old(mmu).mem, pgdir.dir(), cva).spec_flags();
                let p = crate::map::mapped_page(old(mmu).mem, pgdir.dir(), cva);
                &&& va_mapped(old(mmu).mem, pgdir.dir(), cva)
                &&& f.v
                &&& f.d == (ph.p_flags as int / 2 % 2 == 1)
                &&& 0 <= p < old(mmu).npages()
                &&& old(mmu).rc_of(p) == 1
                &&& m0.is_free(p)
                &&& (forall|w: int|
                    0 <= w < PAGE_WORDS
                        ==> (#[trigger] old(mmu).mem.word(p, w))
                            == spec_fill_word(binary@,
                                ph.p_offset + seg_chunk_lo(*ph, j),
                                seg_chunk_dst(*ph, j), seg_chunk_len(*ph, j), w))
            },
        forall|j: int|
            0 <= j < seg_page_count(*ph) && j * PAGE_SIZE >= done
                ==> !va_mapped(old(mmu).mem, pgdir.dir(), #[trigger] seg_page_va(*ph, j)),
        forall|j: int, i: int|
            0 <= j && j * PAGE_SIZE < done && 0 <= i < PAGE_WORDS ==> {
                let pde = Pte(#[trigger] old(mmu).mem.word(pgdir.dir(), i));
                pde.spec_flags().v
                    ==> pde.spec_ppn() != crate::map::mapped_page(old(mmu).mem, pgdir.dir(),
                        #[trigger] seg_page_va(*ph, j))
            },
    ensures
        final(mmu).wf(),
        final(mmu).npages() == old(mmu).npages(),
        dir_ok(final(mmu).mem, pgdir.dir()),
        final(mmu).rc_of(pgdir.dir()) == old(mmu).rc_of(pgdir.dir()),
        tables_ok(*final(mmu), pgdir.dir()),
        tables_distinct(final(mmu).mem, pgdir.dir()),
        forall|q: int| #[trigger] final(mmu).is_free(q) ==> old(mmu).is_free(q),
        r matches Err(e) ==> e == MosError::NoMem,
        r matches Ok(()) ==> forall|j: int|
            0 <= j && j * PAGE_SIZE < done + PAGE_SIZE ==> {
                let cva = #[trigger] seg_page_va(*ph, j);
                let f = crate::map::pte_of(final(mmu).mem, pgdir.dir(), cva).spec_flags();
                let p = crate::map::mapped_page(final(mmu).mem, pgdir.dir(), cva);
                &&& va_mapped(final(mmu).mem, pgdir.dir(), cva)
                &&& f.v
                &&& f.d == (ph.p_flags as int / 2 % 2 == 1)
                &&& 0 <= p < final(mmu).npages()
                &&& final(mmu).rc_of(p) == 1
                &&& m0.is_free(p)
                &&& (forall|w: int|
                    0 <= w < PAGE_WORDS
                        ==> (#[trigger] final(mmu).mem.word(p, w))
                            == spec_fill_word(binary@,
                                ph.p_offset + seg_chunk_lo(*ph, j),
                                seg_chunk_dst(*ph, j), seg_chunk_len(*ph, j), w))
            },
        r matches Ok(()) ==> forall|j: int|
            0 <= j < seg_page_count(*ph) && j * PAGE_SIZE >= done + PAGE_SIZE
                ==> !va_mapped(final(mmu).mem, pgdir.dir(), #[trigger] seg_page_va(*ph, j)),
        r matches Ok(()) ==> forall|j: int, i: int|
            0 <= j && j * PAGE_SIZE < done + PAGE_SIZE && 0 <= i < PAGE_WORDS ==> {
                let pde = Pte(#[trigger] final(mmu).mem.word(pgdir.dir(), i));
                pde.spec_flags().v
                    ==> pde.spec_ppn() != crate::map::mapped_page(final(mmu).mem, pgdir.dir(),
                        #[trigger] seg_page_va(*ph, j))
            },
{
    let va = ph.p_vaddr as usize;
    let bin_size = ph.p_filesz as usize;
    let sg_size = ph.p_memsz as usize;
    let src = ph.p_offset as usize;
    let perm = if ph.p_flags / 2 % 2 == 1 {
        PteFlags::flag_d()
    } else {
        PteFlags::empty()
    };
    let offset = va % PAGE_SIZE;
    let base = va - offset;
    let total = offset + sg_size;
    proof {
        assert(base == seg_page_base(*ph));
        let tot = total as int;
        let c = seg_page_count(*ph);
        vstd::arithmetic::div_mod::lemma_fundamental_div_mod(
            tot + PAGE_SIZE - 1, PAGE_SIZE as int);
        assert(c * PAGE_SIZE >= tot && (c - 1) * PAGE_SIZE < tot) by (nonlinear_arith)
            requires
                tot + 4095 == 4096 * c + (tot + 4095) % 4096,
                0 <= (tot + 4095) % 4096 < 4096,
                c == (tot + 4095) / 4096,
                PAGE_SIZE == 4096,
        {}
    }
        let page_va = base + done;
        // bytes of this page that come from the file image:
        // page covers segment offsets [done - offset, done - offset + PAGE_SIZE)
        let lo0 = if done > offset { done - offset } else { 0 };
        let lo = if lo0 > bin_size { bin_size } else { lo0 };
        let dst = if done > offset { 0 } else { offset - done };
        let hi_excl = done + PAGE_SIZE - offset;
        let hi = if hi_excl > bin_size { bin_size } else { hi_excl };
        let copy_len = if hi > lo { hi - lo } else { 0 };
        let ghost k0 = done as int / PAGE_SIZE as int;
        proof {
            vstd::arithmetic::div_mod::lemma_mod_adds(base as int, done as int, PAGE_SIZE as int);
            vstd::arithmetic::div_mod::lemma_fundamental_div_mod(done as int, PAGE_SIZE as int);
            assert(done == k0 * PAGE_SIZE);
            assert(seg_page_va(*ph, k0) == VA(page_va));
            assert(k0 < seg_page_count(*ph)) by (nonlinear_arith)
                requires
                    k0 * 4096 < total,
                    seg_page_count(*ph) * 4096 >= total,
                    PAGE_SIZE == 4096,
            {}
            assert(lo == seg_chunk_lo(*ph, k0));
            assert(dst == seg_chunk_dst(*ph, k0));
            assert(copy_len == seg_chunk_len(*ph, k0));
            assert(lo <= bin_size && copy_len <= bin_size);
            assert(src + lo <= binary@.len());
            assert(!va_mapped(mmu.mem, pgdir.dir(), VA(page_va)));
        }
        let ghost mpre = *mmu;
        let blen = binary.len();
        let src_lo = if src <= blen && lo <= blen - src { src + lo } else { blen };
        proof {
            assert(src_lo == src + lo);
        }
        let r = load_icode_mapper(mmu, pgdir, asid, VA(page_va), binary, src_lo, dst, copy_len, perm);
        match r {
            Ok(()) => (),
            Err(e) => {
                return Err(e);
            },
        }
        proof {
            let d = pgdir.dir();
            let cva0 = seg_page_va(*ph, k0);
            assert(cva0 == VA(page_va));
            let pnew = crate::map::mapped_page(mmu.mem, d, cva0);
            let f = crate::map::pte_of(mmu.mem, d, cva0).spec_flags();
            assert(f.v && f.d == (ph.p_flags as int / 2 % 2 == 1));
            assert forall|w: int| 0 <= w < PAGE_WORDS
                implies (#[trigger] mmu.mem.word(pnew, w))
                    == spec_fill_word(binary@,
                        ph.p_offset + seg_chunk_lo(*ph, k0),
                        seg_chunk_dst(*ph, k0), seg_chunk_len(*ph, k0), w) by {
                assert(src + lo == ph.p_offset + seg_chunk_lo(*ph, k0));
            }
            assert forall|q: int| #[trigger] mmu.is_free(q)
                implies old(mmu).is_free(q) by {}
            lemma_seg_chunk_kept(m0, mpre, *mmu, pgdir, *ph, binary@, done as int, k0);
            lemma_seg_chunk_ahead(m0, mpre, *mmu, pgdir, *ph, binary@, done as int, k0);
            lemma_seg_chunk_tables(m0, mpre, *mmu, pgdir, *ph, binary@, done as int, k0);
        }
        Ok(())
}

/// Loads one `PT_LOAD` segment into unmapped addresses: on success every
/// page of the segment's range is mapped, writable exactly when the
/// segment is, and holds the corresponding file bytes, zero past them.
#[verifier::rlimit(100)]
#[verifier::spinoff_prover]
pub fn elf_load_seg(
    mmu: &mut Mmu,
    pgdir: PageDirectory,
    asid: usize,
    ph: &Elf32Phdr,
    binary: &Vec<u8>,
) -> (r: Result<(), MosError>)
    requires
        old(mmu).wf(),
        dir_ok(old(mmu).mem, pgdir.dir()),
        old(mmu).rc_of(pgdir.dir()) >= 1,
        tables_ok(*old(mmu), pgdir.dir()),
        tables_distinct(old(mmu).mem, pgdir.dir()),
        forall|k: int|
            0 <= k < seg_page_count(*ph)
                ==> !va_mapped(old(mmu).mem, pgdir.dir(), #[trigger] seg_page_va(*ph, k)),
        asid < NASID,
    ensures
        final(mmu).wf(),
        final(mmu).npages() == old(mmu).npages(),
        dir_ok(final(mmu).mem, pgdir.dir()),
        final(mmu).rc_of(pgdir.dir()) == old(mmu).rc_of(pgdir.dir()),
        tables_ok(*final(mmu), pgdir.dir()),
        tables_distinct(final(mmu).mem, pgdir.dir()),
        forall|q: int| #[trigger] final(mmu).is_free(q) ==> old(mmu).is_free(q),
        r matches Err(e) ==> e == MosError::NoMem || e == MosError::NotExec,
        (r == Err::<(), MosError>(MosError::NotExec))
            <==> seg_malformed(*ph, binary@.len() as int),
        // every page of the loaded segment is mapped, dirty-writable
        // exactly when the segment is writable, and holds its window of
        // the file bytes with zero fill around them
        r matches Ok(()) ==> forall|k: int|
            0 <= k < seg_page_count(*ph) ==> {
                let cva = #[trigger] seg_page_va(*ph, k);
                let f = crate::map::pte_of(final(mmu).mem, pgdir.dir(), cva).spec_flags();
                let p = crate::map::mapped_page(final(mmu).mem, pgdir.dir(), cva);
                &&& va_mapped(final(mmu).mem, pgdir.dir(), cva)
                &&& f.v
                &&& f.d == (ph.p_flags as int / 2 % 2 == 1)
                &&& 0 <= p < final(mmu).npages()
                &&& final(mmu).rc_of(p) == 1
                &&& (forall|w: int|
                    0 <= w < PAGE_WORDS
                        ==> (#[trigger] final(mmu).mem.word(p, w))
                            == spec_fill_word(binary@,
                                ph.p_offset + seg_chunk_lo(*ph, k),
                                seg_chunk_dst(*ph, k), seg_chunk_len(*ph, k), w))
            },
{
    let va = ph.p_vaddr as usize;
    let bin_size = ph.p_filesz as usize;
    let sg_size = ph.p_memsz as usize;
    let src = ph.p_offset as usize;
    if sg_size < bin_size {
        return Err(MosError::NotExec);
    }
    if src > binary.len() || binary.len() - src < bin_size {
        return Err(MosError::NotExec);
    }
    let perm = if ph.p_flags / 2 % 2 == 1 {
        PteFlags::flag_d()
    } else {
        PteFlags::empty()
    };
    let offset = va % PAGE_SIZE;
    let base = va - offset;
    // walk the segment page by page; the whole range must fit in user space
    if sg_size > UTOP || base > UTOP || offset + sg_size > UTOP - base {
        return Err(MosError::NotExec);
    }
    let total = offset + sg_size;
    let blen = binary.len();
    proof {
        // the chunk count covers the range and nothing more
        let tot = total as int;
        let c = seg_page_count(*ph);
        vstd::arithmetic::div_mod::lemma_fundamental_div_mod(
            tot + PAGE_SIZE - 1, PAGE_SIZE as int);
        assert(c * PAGE_SIZE >= tot && (c - 1) * PAGE_SIZE < tot) by (nonlinear_arith)
            requires
                tot + 4095 == 4096 * c + (tot + 4095) % 4096,
                0 <= (tot + 4095) % 4096 < 4096,
                c == (tot + 4095) / 4096,
                PAGE_SIZE == 4096,
        {}
    }
    let mut done: usize = 0;
    while done < total
        invariant
            mmu.wf(),
            old(mmu).wf(),
            mmu.npages() == old(mmu).npages(),
            dir_ok(mmu.mem, pgdir.dir()),
            mmu.rc_of(pgdir.dir()) == old(mmu).rc_of(pgdir.dir()),
            old(mmu).rc_of(pgdir.dir()) >= 1,
            tables_ok(*mmu, pgdir.dir()),
            tables_distinct(mmu.mem, pgdir.dir()),
            forall|q: int| #[trigger] mmu.is_free(q) ==> old(mmu).is_free(q),
            asid < NASID,
            done as int % PAGE_SIZE as int == 0,
            base as int % PAGE_SIZE as int == 0,
            offset < PAGE_SIZE,
            total == offset + sg_size,
            bin_size <= sg_size,
            src + bin_size <= blen,
            blen == binary@.len(),
            base + total <= UTOP,
            done <= total + PAGE_SIZE,
            done > 0 ==> done - PAGE_SIZE < total,
            done > 0 ==> base >= UTEMP,
            ph.p_vaddr == va && offset == va as int % PAGE_SIZE as int
                && base == va - offset && sg_size == ph.p_memsz
                && bin_size == ph.p_filesz && src == ph.p_offset,
            base == seg_page_base(*ph),
            seg_page_count(*ph) * PAGE_SIZE >= total,
            (seg_page_count(*ph) - 1) * PAGE_SIZE < total,
            perm == if ph.p_flags as int / 2 % 2 == 1 {
                PteFlags { d: true, ..PteFlags::spec_empty() }
            } else {
                PteFlags::spec_empty()
            },
            !seg_malformed(*ph, binary@.len() as int) || (done == 0 && base < UTEMP),
            // chunks already written are mapped with their contents and
            // a single reference
            forall|j: int|
                0 <= j && j * PAGE_SIZE < done ==> {
                    let cva = #[trigger] seg_page_va(*ph, j);
                    let f = crate::map::pte_of(mmu.mem, pgdir.dir(), cva).spec_flags();
                    let p = crate::map::mapped_page(mmu.mem, pgdir.dir(), cva);
                    &&& va_mapped(mmu.mem, pgdir.dir(), cva)
                    &&& f.v
                    &&& f.d == (ph.p_flags as int / 2 % 2 == 1)
                    &&& 0 <= p < mmu.npages()
                    &&& mmu.rc_of(p) == 1
                    &&& old(mmu).is_free(p)
                    &&& (forall|w: int|
                        0 <= w < PAGE_WORDS
                            ==> (#[trigger] mmu.mem.word(p, w))
                                == spec_fill_word(binary@,
                                    ph.p_offset + seg_chunk_lo(*ph, j),
                                    seg_chunk_dst(*ph, j), seg_chunk_len(*ph, j), w))
                },
            // chunks not yet reached stay unmapped
            forall|j: int|
                0 <= j < seg_page_count(*ph) && j * PAGE_SIZE >= done
                    ==> !va_mapped(mmu.mem, pgdir.dir(), #[trigger] seg_page_va(*ph, j)),
            // no table of the directory is one of the data pages written
            forall|j: int, i: int|
                0 <= j && j * PAGE_SIZE < done && 0 <= i < PAGE_WORDS ==> {
                    let pde = Pte(#[trigger] mmu.mem.word(pgdir.dir(), i));
                    pde.spec_flags().v
                        ==> pde.spec_ppn() != crate::map::mapped_page(mmu.mem, pgdir.dir(),
                            #[trigger] seg_page_va(*ph, j))
                },
        decreases total + PAGE_SIZE - done,
    {
        let page_va = base + done;
        if page_va < UTEMP {
            return Err(MosError::NotExec);
        }
        let ghost miter = *mmu;
        let r = load_seg_chunk(mmu, pgdir, asid, ph, binary, done, Ghost(*old(mmu)));
        match r {
            Ok(()) => (),
            Err(e) => {
                proof {
                    assert forall|q: int| #[trigger] mmu.is_free(q)
                        implies old(mmu).is_free(q) by {
                        assert(miter.is_free(q));
                    }
                }
                return Err(e);
            },
        }
        proof {
            assert forall|q: int| #[trigger] mmu.is_free(q)
                implies old(mmu).is_free(q) by {
                assert(miter.is_free(q));
            }
        }
        done = done + PAGE_SIZE;
    }
    proof {
        assert forall|k: int| 0 <= k < seg_page_count(*ph)
            implies #[trigger] (k * PAGE_SIZE) < done by {
            assert(k * PAGE_SIZE <= (seg_page_count(*ph) - 1) * PAGE_SIZE) by (nonlinear_arith)
                requires k <= seg_page_count(*ph) - 1, PAGE_SIZE == 4096,
            {}
        }
    }
    Ok(())
}

/// Whether the loader will reject this segment header outright.
fn seg_is_malformed(ph: &Elf32Phdr, blen: usize) -> (r: bool)
    ensures
        r == seg_malformed(*ph, blen as int),
{
    let va = ph.p_vaddr as usize;
    let bin_size = ph.p_filesz as usize;
    let sg_size = ph.p_memsz as usize;
    let src = ph.p_offset as usize;
    let offset = va % PAGE_SIZE;
    let base = va - offset;
    proof {
        let tot = (offset + sg_size) as int;
        let c = seg_page_count(*ph);
        vstd::arithmetic::div_mod::lemma_fundamental_div_mod(
            tot + PAGE_SIZE - 1, PAGE_SIZE as int);
        assert((c > 0) == (tot > 0)) by (nonlinear_arith)
            requires
                tot + 4095 == 4096 * c + (tot + 4095) % 4096,
                0 <= (tot + 4095) % 4096 < 4096,
                0 <= tot,
        {}
        assert(base == seg_page_base(*ph));
    }
    sg_size < bin_size || src > blen || blen - src < bin_size || sg_size > UTOP
        || base > UTOP || offset + sg_size > UTOP - base
        || (offset + sg_size > 0 && base < UTEMP)
}

/// Whether none of the pages a segment would occupy is mapped yet.
fn seg_range_unmapped(mmu: &Mmu, pgdir: PageDirectory, ph: &Elf32Phdr) -> (r: bool)
    requires
        mmu.wf(),
        dir_ok(mmu.mem, pgdir.dir()),
        seg_page_base(*ph) + ph.p_vaddr as int % PAGE_SIZE as int + ph.p_memsz <= UTOP,
        seg_page_base(*ph) >= 0,
    ensures
        r <==> (forall|k: int|
            0 <= k < seg_page_count(*ph)
                ==> !va_mapped(mmu.mem, pgdir.dir(), #[trigger] seg_page_va(*ph, k))),
{
    let va = ph.p_vaddr as usize;
    let sg_size = ph.p_memsz as usize;
    let offset = va % PAGE_SIZE;
    let base = va - offset;
    let total = offset + sg_size;
    proof {
        assert(base == seg_page_base(*ph));
        let tot = total as int;
        let c = seg_page_count(*ph);
        vstd::arithmetic::div_mod::lemma_fundamental_div_mod(
            tot + PAGE_SIZE - 1, PAGE_SIZE as int);
        assert(c * PAGE_SIZE >= tot && (c - 1) * PAGE_SIZE < tot) by (nonlinear_arith)
            requires
                tot + 4095 == 4096 * c + (tot + 4095) % 4096,
                0 <= (tot + 4095) % 4096 < 4096,
                c == (tot + 4095) / 4096,
                PAGE_SIZE == 4096,
        {}
    }
    let mut done: usize = 0;
    while done < total
        invariant
            mmu.wf(),
            dir_ok(mmu.mem, pgdir.dir()),
            done as int % PAGE_SIZE as int == 0,
            base as int % PAGE_SIZE as int == 0,
            offset < PAGE_SIZE,
            total == offset + sg_size,
            base + total <= UTOP,
            done <= total + PAGE_SIZE,
            done > 0 ==> done - PAGE_SIZE < total,
            ph.p_vaddr == va && offset == va as int % PAGE_SIZE as int
                && base == va - offset && sg_size == ph.p_memsz,
            base == seg_page_base(*ph),
            seg_page_count(*ph) * PAGE_SIZE >= total,
            (seg_page_count(*ph) - 1) * PAGE_SIZE < total,
            forall|j: int|
                0 <= j && j * PAGE_SIZE < done
                    ==> !va_mapped(mmu.mem, pgdir.dir(), #[trigger] seg_page_va(*ph, j)),
        decreases total + PAGE_SIZE - done,
    {
        let page_va = base + done;
        let ghost k0 = done as int / PAGE_SIZE as int;
        proof {
            vstd::arithmetic::div_mod::lemma_mod_adds(base as int, done as int, PAGE_SIZE as int);
            vstd::arithmetic::div_mod::lemma_fundamental_div_mod(done as int, PAGE_SIZE as int);
            assert(done == k0 * PAGE_SIZE);
            assert(seg_page_va(*ph, k0) == VA(page_va));
            assert(k0 < seg_page_count(*ph)) by (nonlinear_arith)
                requires
                    k0 * 4096 < total,
                    seg_page_count(*ph) * 4096 >= total,
                    PAGE_SIZE == 4096,
            {}
        }
        if pgdir.lookup(mmu, VA(page_va)).is_some() {
            proof {
                assert(va_mapped(mmu.mem, pgdir.dir(), seg_page_va(*ph, k0)));
                assert(0 <= k0 < seg_page_count(*ph));
            }
            return false;
        }
        done = done + PAGE_SIZE;
    }
    proof {
        assert forall|k: int| 0 <= k < seg_page_count(*ph)
            implies #[trigger] (k * PAGE_SIZE) < done by {
            assert(k * PAGE_SIZE <= (seg_page_count(*ph) - 1) * PAGE_SIZE) by (nonlinear_arith)
                requires k <= seg_page_count(*ph) - 1, PAGE_SIZE == 4096,
            {}
        }
    }
    true
}

/// Loads a 32-bit ELF image into the address space: walks the program
/// headers and loads each `PT_LOAD` segment, returning the entry point.
pub fn load_icode(
    mmu: &mut Mmu,
    pgdir: PageDirectory,
    asid: usize,
    binary: &Vec<u8>,
) -> (r: Result<u32, MosError>)
    requires
        old(mmu).wf(),
        dir_ok(old(mmu).mem, pgdir.dir()),
        old(mmu).rc_of(pgdir.dir()) >= 1,
        tables_ok(*old(mmu), pgdir.dir()),
        tables_distinct(old(mmu).mem, pgdir.dir()),
        asid < NASID,
        spec_is_elf32(binary@),
    ensures
        final(mmu).wf(),
        final(mmu).npages() == old(mmu).npages(),
        dir_ok(final(mmu).mem, pgdir.dir()),
        final(mmu).rc_of(pgdir.dir()) == old(mmu).rc_of(pgdir.dir()),
        tables_ok(*final(mmu), pgdir.dir()),
        tables_distinct(final(mmu).mem, pgdir.dir()),
        r matches Ok(entry) ==> binary@.len() >= 52 && entry == spec_u32(binary@, 24),
        r matches Err(e) ==> e == MosError::NoMem || e == MosError::Inval
            || e == MosError::NotExec,
        // an image without program headers always loads
        binary@.len() >= 52 && spec_u16(binary@, 44) == 0 ==> r is Ok,
    {
        if binary.len() < 52 {
            return Err(MosError::NotExec);
        }
        let elf = Elf32::from_bytes(binary);
        let eh = elf.ehdr();
        let phnum = eh.e_phnum as usize;
        let mut i: usize = 0;
        while i < phnum
            invariant
                mmu.wf(),
                mmu.npages() == old(mmu).npages(),
                dir_ok(mmu.mem, pgdir.dir()),
                mmu.rc_of(pgdir.dir()) == old(mmu).rc_of(pgdir.dir()),
                old(mmu).rc_of(pgdir.dir()) >= 1,
                tables_ok(*mmu, pgdir.dir()),
                tables_distinct(mmu.mem, pgdir.dir()),
                asid < NASID,
                elf.binary == binary,
                binary@.len() >= 52,
                phnum == spec_u16(binary@, 44),
            decreases phnum - i,
        {
            let got = elf.phdr(i);
            match got {
                Some(ph) => {
                    if ph.p_type == PT_LOAD {
                        // reject what the segment loader would reject, so
                        // that the remaining pages can be scanned safely
                        if seg_is_malformed(&ph, binary.len()) {
                            return Err(MosError::NotExec);
                        }
                        // a load segment over pages something already maps
                        // cannot go into this address space
                        if !seg_range_unmapped(&*mmu, pgdir, &ph) {
                            return Err(MosError::Inval);
                        }
                        let r = elf_load_seg(mmu, pgdir, asid, &ph, binary);
                        if r.is_err() {
                            return Err(r.unwrap_err());
                        }
                    }
                },
                None => {
                    return Err(MosError::NotExec);
                },
            }
            i = i + 1;
        }
        Ok(eh.e_entry)
    }

} // verus!
