//! Decoding of the CP0 cause register's exception code.

use vstd::prelude::*;

verus! {

/// The CP0 cause register value.
#[derive(Clone, Copy, Debug, PartialEq, Eq, Structural)]
pub struct Cause {
    /// The raw register bits.
    pub bits: u32,
}

/// The exception kinds the cause register can report.
#[derive(Clone, Copy, Debug, PartialEq, Eq, Structural)]
pub enum Exception {
    /// Interrupt.
    Int,
    /// TLB modified (write to a read-only page).
    Mod,
    /// TLB miss on a load or fetch.
    TLBL,
    /// TLB miss on a store.
    TLBS,
    /// Address error on a load or fetch.
    AdEL,
    /// Address error on a store.
    AdES,
    /// Instruction bus error.
    IBE,
    /// Data bus error.
    DBE,
    /// System call.
    Sys,
    /// Breakpoint.
    Bp,
    /// Reserved instruction.
    RI,
    /// Coprocessor unusable.
    CpU,
    /// Arithmetic overflow.
    Ov,
    /// Trap.
    Tr,
    /// Floating-point exception.
    FPE,
    /// Implementation-specific exception 1.
    IS1,
    /// CorExtend unusable.
    CEU,
    /// Coprocessor 2 exception.
    C2E,
    /// Watchpoint.
    WATCH,
    /// Machine check.
    MCheck,
    /// Cache error.
    CacheErr,
    /// A code the architecture reserves.
    Reserved,
    /// A code outside the field's range.
    Unknown,
}

impl Exception {
    /// Decodes an exception code.
    pub fn from(exccode: u32) -> (r: Self)
        ensures
            r == Exception::spec_from(exccode),
    {
        match exccode {
            0 => Exception::Int,
            1 => Exception::Mod,
            2 => Exception::TLBL,
            3 => Exception::TLBS,
            4 => Exception::AdEL,
            5 => Exception::AdES,
            6 => Exception::IBE,
            7 => Exception::DBE,
            8 => Exception::Sys,
            9 => Exception::Bp,
            10 => Exception::RI,
            11 => Exception::CpU,
            12 => Exception::Ov,
            13 => Exception::Tr,
            15 => Exception::FPE,
            16 => Exception::IS1,
            17 => Exception::CEU,
            18 => Exception::C2E,
            23 => Exception::WATCH,
            24 => Exception::MCheck,
            30 => Exception::CacheErr,
            14 => Exception::Reserved,
            19 | 20 | 21 | 22 => Exception::Reserved,
            25 | 26 | 27 | 28 | 29 => Exception::Reserved,
            _ => Exception::Unknown,
        }
    }

    /// The decoding, as a function.
    pub open spec fn spec_from(exccode: u32) -> Self {
        match exccode {
            0 => Exception::Int,
            1 => Exception::Mod,
            2 => Exception::TLBL,
            3 => Exception::TLBS,
            4 => Exception::AdEL,
            5 => Exception::AdES,
            6 => Exception::IBE,
            7 => Exception::DBE,
            8 => Exception::Sys,
            9 => Exception::Bp,
            10 => Exception::RI,
            11 => Exception::CpU,
            12 => Exception::Ov,
            13 => Exception::Tr,
            15 => Exception::FPE,
            16 => Exception::IS1,
            17 => Exception::CEU,
            18 => Exception::C2E,
            23 => Exception::WATCH,
            24 => Exception::MCheck,
            30 => Exception::CacheErr,
            14 => Exception::Reserved,
            19 | 20 | 21 | 22 => Exception::Reserved,
            25 | 26 | 27 | 28 | 29 => Exception::Reserved,
            _ => Exception::Unknown,
        }
    }
}

impl Cause {
    /// The exception the register reports: bits 2 to 6 of the register.
    pub fn exception(&self) -> (r: Exception)
        ensures
            r == Exception::spec_from((self.bits / 4) as u32 % 32),
    {
        Exception::from(self.bits / 4 % 32)
    }
}

} // verus!
