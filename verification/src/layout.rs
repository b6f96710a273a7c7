//! Memory-layout constants and page-table-entry flags.
//!
//! The virtual address space is split into a user segment below `ULIM` and a
//! kernel segment above it. Fixed windows near the top of user space expose
//! the page tracker array (`UPAGES`), the environment array (`UENVS`) and the
//! address space's own page tables (`UVPT`) read-only to user code.

use vstd::prelude::*;

verus! {

/// Number of address-space identifiers the hardware TLB can tag.
pub const NASID: usize = 256;
/// Bytes per page.
pub const PAGE_SIZE: usize = 4096;
/// Words (page-table entries) per page.
pub const PAGE_WORDS: usize = 1024;
/// Bytes mapped by one page-table entry.
pub const PTMAP: usize = PAGE_SIZE;
/// Bytes mapped by one page-directory entry (4 MiB).
pub const PDMAP: usize = 0x0040_0000;
/// Page shift: log2 of `PAGE_SIZE`.
pub const PGSHIFT: usize = 12;
/// Page-directory shift: log2 of `PDMAP`.
pub const PDSHIFT: usize = 22;
/// Shift between a page-table entry's flag field and the hardware EntryLo layout.
pub const PTE_HARDFLAG_SHIFT: usize = 6;

/// Base of the cached, unmapped kernel segment.
pub const KSEG0: usize = 0x8000_0000;
/// Base of the uncached, unmapped kernel segment.
pub const KSEG1: usize = 0xa000_0000;
/// Top of the kernel stack.
pub const KSTACKTOP: usize = 0x8040_0000;
/// Lowest kernel-only address; user space lies below it.
pub const ULIM: usize = 0x8000_0000;
/// Window mapping the current address space's page tables.
pub const UVPT: usize = ULIM - PDMAP;
/// Window mapping the physical page tracker array.
pub const UPAGES: usize = UVPT - PDMAP;
/// Window mapping the environment array.
pub const UENVS: usize = UPAGES - PDMAP;
/// Top of the region user mappings may occupy.
pub const UTOP: usize = UENVS;
/// Top of the user exception stack.
pub const UXSTACKTOP: usize = UTOP;
/// Top of the normal user stack (one guard page below the exception stack).
pub const USTACKTOP: usize = UTOP - 2 * PTMAP;
/// Base of the user program text.
pub const UTEXT: usize = PDMAP;
/// Page reserved for copy-on-write support.
pub const UCOW: usize = UTEXT - PTMAP;
/// Page reserved for temporary mappings.
pub const UTEMP: usize = UCOW - PTMAP;

/// Base physical address of the serial device window.
pub const SERIAL_BASE: usize = 0x18000000 + 0x3f8;
/// Length of the serial device window.
pub const SERIAL_ADDR_LEN: usize = 0x20;
/// Base physical address of the IDE device window.
pub const IDE_BASE: usize = 0x18000000 + 0x01f0;
/// Length of the IDE device window.
pub const IDE_ADDR_LEN: usize = 0x8;

/// Flags of a page-table entry, one field per hardware or software bit.
///
/// In the packed entry word the hardware bits live at `1 << bit << PTE_HARDFLAG_SHIFT`
/// (global 0x40, valid 0x80, dirty 0x100, cache attributes 0x200/0x400/0x800)
/// and the two software bits at 0x1 (copy-on-write) and 0x2 (shared).
#[derive(Clone, Copy, Debug, PartialEq, Eq, Structural)]
pub struct PteFlags {
    /// Global: the TLB ignores the ASID for this entry.
    pub g: bool,
    /// Valid: the entry maps a page.
    pub v: bool,
    /// Dirty: the hardware permits writes through this entry.
    pub d: bool,
    /// Cache attribute bit 0.
    pub c0: bool,
    /// Cache attribute bit 1.
    pub c1: bool,
    /// Cache attribute bit 2.
    pub c2: bool,
    /// Software copy-on-write bit.
    pub cow: bool,
    /// Software shared bit.
    pub shared: bool,
}

impl PteFlags {
    /// The packed flag word, as stored in the low 12 bits of an entry.
    pub open spec fn spec_bits(self) -> int {
        (if self.cow { 0x1int } else { 0 }) + (if self.shared { 0x2int } else { 0 })
            + (if self.g { 0x40int } else { 0 }) + (if self.v { 0x80int } else { 0 })
            + (if self.d { 0x100int } else { 0 }) + (if self.c0 { 0x200int } else { 0 })
            + (if self.c1 { 0x400int } else { 0 }) + (if self.c2 { 0x800int } else { 0 })
    }

    /// No flag set.
    pub fn empty() -> (r: Self)
        ensures r == Self::spec_empty(),
    {
        PteFlags { g: false, v: false, d: false, c0: false, c1: false, c2: false, cow: false, shared: false }
    }

    /// No flag set.
    pub open spec fn spec_empty() -> Self {
        PteFlags { g: false, v: false, d: false, c0: false, c1: false, c2: false, cow: false, shared: false }
    }

    /// Only the global bit.
    pub fn flag_g() -> (r: Self)
        ensures r == (PteFlags { g: true, ..Self::spec_empty() }),
    {
        PteFlags { g: true, ..Self::empty() }
    }

    /// Only the valid bit.
    pub fn flag_v() -> (r: Self)
        ensures r == (PteFlags { v: true, ..Self::spec_empty() }),
    {
        PteFlags { v: true, ..Self::empty() }
    }

    /// Only the dirty (writable) bit.
    pub fn flag_d() -> (r: Self)
        ensures r == (PteFlags { d: true, ..Self::spec_empty() }),
    {
        PteFlags { d: true, ..Self::empty() }
    }

    /// The cacheable attribute (cache bits 0 and 1).
    pub fn cacheable() -> (r: Self)
        ensures r == (PteFlags { c0: true, c1: true, ..Self::spec_empty() }),
    {
        PteFlags { c0: true, c1: true, ..Self::empty() }
    }

    /// The uncached attribute (cache bit 1 alone).
    pub fn uncached() -> (r: Self)
        ensures r == (PteFlags { c1: true, ..Self::spec_empty() }),
    {
        PteFlags { c1: true, ..Self::empty() }
    }

    /// Only the software copy-on-write bit.
    pub fn flag_cow() -> (r: Self)
        ensures r == (PteFlags { cow: true, ..Self::spec_empty() }),
    {
        PteFlags { cow: true, ..Self::empty() }
    }

    /// Only the software shared bit.
    pub fn flag_shared() -> (r: Self)
        ensures r == (PteFlags { shared: true, ..Self::spec_empty() }),
    {
        PteFlags { shared: true, ..Self::empty() }
    }

    /// The union of two flag sets.
    pub open spec fn spec_or(self, o: Self) -> Self {
        PteFlags {
            g: self.g || o.g,
            v: self.v || o.v,
            d: self.d || o.d,
            c0: self.c0 || o.c0,
            c1: self.c1 || o.c1,
            c2: self.c2 || o.c2,
            cow: self.cow || o.cow,
            shared: self.shared || o.shared,
        }
    }

    /// The union of two flag sets.
    pub fn or(self, o: Self) -> (r: Self)
        ensures r == self.spec_or(o),
    {
        PteFlags {
            g: self.g || o.g,
            v: self.v || o.v,
            d: self.d || o.d,
            c0: self.c0 || o.c0,
            c1: self.c1 || o.c1,
            c2: self.c2 || o.c2,
            cow: self.cow || o.cow,
            shared: self.shared || o.shared,
        }
    }

    /// Whether every flag of `o` is also set in `self`.
    pub open spec fn spec_contains(self, o: Self) -> bool {
        &&& (o.g ==> self.g)
        &&& (o.v ==> self.v)
        &&& (o.d ==> self.d)
        &&& (o.c0 ==> self.c0)
        &&& (o.c1 ==> self.c1)
        &&& (o.c2 ==> self.c2)
        &&& (o.cow ==> self.cow)
        &&& (o.shared ==> self.shared)
    }

    /// Whether every flag of `o` is also set in `self`.
    pub fn contains(self, o: Self) -> (r: bool)
        ensures r == self.spec_contains(o),
    {
        (!o.g || self.g) && (!o.v || self.v) && (!o.d || self.d) && (!o.c0 || self.c0)
            && (!o.c1 || self.c1) && (!o.c2 || self.c2) && (!o.cow || self.cow)
            && (!o.shared || self.shared)
    }

    /// The packed flag word.
    #[verifier::rlimit(30)]
    #[verifier::spinoff_prover]
    pub fn bits(self) -> (r: usize)
        ensures r == self.spec_bits(), r < 4096,
    {
        let mut r: usize = 0;
        if self.cow { r = r + 0x1; }
        if self.shared { r = r + 0x2; }
        if self.g { r = r + 0x40; }
        if self.v { r = r + 0x80; }
        if self.d { r = r + 0x100; }
        if self.c0 { r = r + 0x200; }
        if self.c1 { r = r + 0x400; }
        if self.c2 { r = r + 0x800; }
        r
    }

    /// Decodes a packed word, keeping only the defined flag bits.
    pub open spec fn spec_from_bits(w: int) -> Self {
        PteFlags {
            g: w / 0x40 % 2 == 1,
            v: w / 0x80 % 2 == 1,
            d: w / 0x100 % 2 == 1,
            c0: w / 0x200 % 2 == 1,
            c1: w / 0x400 % 2 == 1,
            c2: w / 0x800 % 2 == 1,
            cow: w % 2 == 1,
            shared: w / 0x2 % 2 == 1,
        }
    }

    /// Decodes a packed word, keeping only the defined flag bits.
    pub fn from_bits_truncate(w: usize) -> (r: Self)
        ensures r == Self::spec_from_bits(w as int % 4096),
    {
        let w = w % 4096;
        PteFlags {
            g: w / 0x40 % 2 == 1,
            v: w / 0x80 % 2 == 1,
            d: w / 0x100 % 2 == 1,
            c0: w / 0x200 % 2 == 1,
            c1: w / 0x400 % 2 == 1,
            c2: w / 0x800 % 2 == 1,
            cow: w % 2 == 1,
            shared: w / 0x2 % 2 == 1,
        }
    }
}

/// Packing a flag set and decoding it again yields the same flags.
#[verifier::rlimit(100)]
#[verifier::spinoff_prover]
pub proof fn lemma_flags_roundtrip(f: PteFlags)
    ensures
        PteFlags::spec_from_bits(f.spec_bits()) == f,
        0 <= f.spec_bits() < 4096,
{
    let w = f.spec_bits();
    let c: int = if f.cow { 1 } else { 0 };
    let s: int = if f.shared { 1 } else { 0 };
    let g: int = if f.g { 1 } else { 0 };
    let v: int = if f.v { 1 } else { 0 };
    let d: int = if f.d { 1 } else { 0 };
    let c0: int = if f.c0 { 1 } else { 0 };
    let c1: int = if f.c1 { 1 } else { 0 };
    let c2: int = if f.c2 { 1 } else { 0 };
    assert(w == c + 2 * s + 0x40 * g + 0x80 * v + 0x100 * d + 0x200 * c0 + 0x400 * c1 + 0x800 * c2);
    lemma_bit_extract(w, c, 1, s + 0x20 * g + 0x40 * v + 0x80 * d + 0x100 * c0 + 0x200 * c1 + 0x400 * c2);
    lemma_bit_extract(w, s, 2, 0x10 * g + 0x20 * v + 0x40 * d + 0x80 * c0 + 0x100 * c1 + 0x200 * c2);
    lemma_bit_extract(w, g, 0x40, v + 2 * d + 4 * c0 + 8 * c1 + 0x10 * c2);
    lemma_bit_extract(w, v, 0x80, d + 2 * c0 + 4 * c1 + 8 * c2);
    lemma_bit_extract(w, d, 0x100, c0 + 2 * c1 + 4 * c2);
    lemma_bit_extract(w, c0, 0x200, c1 + 2 * c2);
    lemma_bit_extract(w, c1, 0x400, c2);
    lemma_bit_extract(w, c2, 0x800, 0);
}

/// If `w = low + weight * (b + 2 * high)` with `low < weight`, then the base-2
/// digit of `w` at `weight` is `b`.
proof fn lemma_bit_extract(w: int, b: int, weight: int, high: int)
    requires
        weight >= 1,
        0 <= b < 2,
        0 <= high,
        0 <= w - weight * (b + 2 * high) < weight,
    ensures
        w / weight % 2 == b,
{
    let q = b + 2 * high;
    let low = w - weight * q;
    assert(weight * q == q * weight) by {
        vstd::arithmetic::mul::lemma_mul_is_commutative(weight, q);
    }
    vstd::arithmetic::div_mod::lemma_fundamental_div_mod_converse(w, weight, q, low);
    vstd::arithmetic::div_mod::lemma_fundamental_div_mod_converse(q, 2, high, b);
}

/// Whether `va` lies outside the region user mappings may occupy.
pub open spec fn spec_is_illegal_user_va(va: usize) -> bool {
    va < UTEMP || va >= UTOP
}

/// Whether `va` lies outside the region user mappings may occupy.
pub fn is_illegal_user_va(va: usize) -> (r: bool)
    ensures r == spec_is_illegal_user_va(va),
{
    va < UTEMP || va >= UTOP
}

/// Whether the range `[va, va + len)` is not entirely inside the user region.
/// An empty range is never illegal.
pub open spec fn spec_is_illegal_user_va_range(va: usize, len: usize) -> bool {
    len != 0 && (va < UTEMP || va as int + len as int > UTOP as int)
}

/// Whether the range `[va, va + len)` is not entirely inside the user region.
pub fn is_illegal_user_va_range(va: usize, len: usize) -> (r: bool)
    ensures r == spec_is_illegal_user_va_range(va, len),
{
    if len == 0 {
        return false;
    }
    va < UTEMP || va > UTOP || len > UTOP - va
}

/// Whether the range `[va, va + len)` falls entirely inside one of the
/// memory-mapped device windows (serial or IDE).
pub open spec fn spec_is_dev_va_range(va: usize, len: usize) -> bool {
    ||| (va >= SERIAL_BASE && va as int + len as int <= SERIAL_BASE as int + SERIAL_ADDR_LEN as int)
    ||| (va >= IDE_BASE && va as int + len as int <= IDE_BASE as int + IDE_ADDR_LEN as int)
}

/// Whether the range `[va, va + len)` falls entirely inside one of the
/// memory-mapped device windows (serial or IDE).
pub fn is_dev_va_range(va: usize, len: usize) -> (r: bool)
    ensures r == spec_is_dev_va_range(va, len),
{
    (va >= SERIAL_BASE && va <= SERIAL_BASE + SERIAL_ADDR_LEN
        && len <= SERIAL_BASE + SERIAL_ADDR_LEN - va)
        || (va >= IDE_BASE && va <= IDE_BASE + IDE_ADDR_LEN && len <= IDE_BASE + IDE_ADDR_LEN - va)
}

} // verus!
