//! Core of a small MIPS teaching kernel: the buddy physical-page allocator
//! with reference counting, the two-level page table, the software TLB
//! protocol, and the environment (process) manager with its round-robin
//! scheduler.
//!
//! Hardware state that the kernel manipulates through raw pointers on the
//! real machine — physical memory, the TLB cache, the console — is held here
//! as explicit data owned by the [`kernel::Kernel`] value, so that every
//! operation on it can be specified and verified.

pub mod addr;
pub mod cp0;
pub mod env;
pub mod elf;
pub mod error;
pub mod ipc;
pub mod kernel;
pub mod layout;
pub mod map;
pub mod mmu;
pub mod page;
pub mod schedule;
pub mod syscall;
pub mod tlb;
pub mod tools;
pub mod trapframe;
