//! The saved CPU state captured on every exception entry.

use vstd::prelude::*;

verus! {

/// Size in bytes of the in-memory trap frame layout, which the low-level
/// exception-entry code relies on.
pub const TF_SIZE: usize = 0x98;

/// The register snapshot saved on exception entry and restored on return:
/// the 32 general registers and the relevant CP0 registers.
#[derive(Clone, Copy, Debug)]
pub struct Trapframe {
    /// The general-purpose registers.
    pub regs: [u32; 32],
    /// CP0 status register.
    pub cp0_status: u32,
    /// The HI multiply/divide result register.
    pub hi: u32,
    /// The LO multiply/divide result register.
    pub lo: u32,
    /// CP0 bad virtual address register.
    pub cp0_badvaddr: u32,
    /// CP0 cause register.
    pub cp0_cause: u32,
    /// CP0 exception program counter.
    pub cp0_epc: u32,
}

impl Trapframe {
    /// An all-zero trap frame.
    pub fn new() -> (r: Self)
        ensures
            forall|i: int| 0 <= i < 32 ==> r.regs@[i] == 0,
            r.cp0_status == 0,
            r.hi == 0,
            r.lo == 0,
            r.cp0_badvaddr == 0,
            r.cp0_cause == 0,
            r.cp0_epc == 0,
    {
        Trapframe {
            regs: [0; 32],
            cp0_status: 0,
            hi: 0,
            lo: 0,
            cp0_badvaddr: 0,
            cp0_cause: 0,
            cp0_epc: 0,
        }
    }
}

} // verus!
