//! Address value types: physical and virtual addresses and page numbers.

use vstd::prelude::*;
use crate::layout::{KSEG0, PAGE_SIZE, PAGE_WORDS, PDMAP};

verus! {

/// A physical address.
#[derive(Clone, Copy, Debug, PartialEq, Eq, Structural)]
pub struct PA(pub usize);

/// A virtual address.
#[derive(Clone, Copy, Debug, PartialEq, Eq, Structural)]
pub struct VA(pub usize);

/// A physical page number: a physical address shifted right by the page shift.
#[derive(Clone, Copy, Debug, PartialEq, Eq, Structural)]
pub struct PPN(pub usize);

/// A virtual page number: a virtual address shifted right by the page shift.
#[derive(Clone, Copy, Debug, PartialEq, Eq, Structural)]
pub struct VPN(pub usize);

impl From<PA> for PPN {
    /// The page number containing the physical address.
    fn from(pa: PA) -> (r: Self) {
        PPN(pa.0 / PAGE_SIZE)
    }
}

impl vstd::std_specs::convert::FromSpecImpl<PA> for PPN {
    open spec fn obeys_from_spec() -> bool {
        true
    }

    open spec fn from_spec(pa: PA) -> Self {
        PPN(pa.0 / PAGE_SIZE)
    }
}

impl From<PPN> for PA {
    /// The base physical address of the page. The address word is 32 bits
    /// wide on this machine; higher bits are discarded as the hardware shift
    /// would discard them.
    fn from(ppn: PPN) -> (r: Self) {
        PA(ppn.0 % 0x10_0000 * PAGE_SIZE)
    }
}

impl vstd::std_specs::convert::FromSpecImpl<PPN> for PA {
    open spec fn obeys_from_spec() -> bool {
        true
    }

    open spec fn from_spec(ppn: PPN) -> Self {
        PA((ppn.0 % 0x10_0000 * PAGE_SIZE) as usize)
    }
}

impl From<VA> for VPN {
    /// The page number containing the virtual address.
    fn from(va: VA) -> (r: Self) {
        VPN(va.0 / PAGE_SIZE)
    }
}

impl vstd::std_specs::convert::FromSpecImpl<VA> for VPN {
    open spec fn obeys_from_spec() -> bool {
        true
    }

    open spec fn from_spec(va: VA) -> Self {
        VPN(va.0 / PAGE_SIZE)
    }
}

impl From<VPN> for VA {
    /// The base virtual address of the page. The address word is 32 bits
    /// wide on this machine; higher bits are discarded as the hardware shift
    /// would discard them.
    fn from(vpn: VPN) -> (r: Self) {
        VA(vpn.0 % 0x10_0000 * PAGE_SIZE)
    }
}

impl vstd::std_specs::convert::FromSpecImpl<VPN> for VA {
    open spec fn obeys_from_spec() -> bool {
        true
    }

    open spec fn from_spec(vpn: VPN) -> Self {
        VA((vpn.0 % 0x10_0000 * PAGE_SIZE) as usize)
    }
}

impl PA {
    /// Translates a physical address to its kernel virtual address in `KSEG0`.
    ///
    /// On the real machine this is only meaningful for addresses inside
    /// physical memory, all of which lie below `KSEG0`.
    pub fn kaddr(self) -> (r: VA)
        requires
            self.0 < KSEG0,
        ensures
            r.0 == self.0 + KSEG0,
    {
        VA(self.0 + KSEG0)
    }
}

impl VA {
    /// The page-directory index of the address: bits 22 to 31.
    pub open spec fn spec_pdx(self) -> int {
        self.0 as int / PDMAP as int % PAGE_WORDS as int
    }

    /// The page-directory index of the address: bits 22 to 31.
    pub fn pdx(self) -> (r: usize)
        ensures
            r == self.spec_pdx(),
            r < PAGE_WORDS,
    {
        self.0 / PDMAP % PAGE_WORDS
    }

    /// The page-table index of the address: bits 12 to 21.
    pub open spec fn spec_ptx(self) -> int {
        self.0 as int / PAGE_SIZE as int % PAGE_WORDS as int
    }

    /// The page-table index of the address: bits 12 to 21.
    pub fn ptx(self) -> (r: usize)
        ensures
            r == self.spec_ptx(),
            r < PAGE_WORDS,
    {
        self.0 / PAGE_SIZE % PAGE_WORDS
    }

    /// Translates a kernel virtual address in `KSEG0` back to a physical address.
    pub fn paddr(self) -> (r: PA)
        requires
            self.0 >= KSEG0,
        ensures
            r.0 == self.0 - KSEG0,
    {
        PA(self.0 - KSEG0)
    }

    /// The address rounded down to its page base.
    pub open spec fn spec_page_base(self) -> VA {
        VA((self.0 - self.0 as int % PAGE_SIZE as int) as usize)
    }

    /// The address rounded down to its page base.
    pub fn pte_addr(self) -> (r: Self)
        ensures
            r == self.spec_page_base(),
            r.0 == self.0 - self.0 as int % PAGE_SIZE as int,
            r.0 <= self.0,
    {
        VA(self.0 - self.0 % PAGE_SIZE)
    }
}

impl PPN {
    /// The kernel virtual address of the page's base.
    pub fn kaddr(self) -> (r: VA)
        requires
            self.0 * PAGE_SIZE < KSEG0,
        ensures
            r.0 == self.0 * PAGE_SIZE + KSEG0,
    {
        PA(self.0 * PAGE_SIZE).kaddr()
    }
}

} // verus!
