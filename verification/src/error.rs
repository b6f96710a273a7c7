//! Kernel error codes.
//!
//! Errors cross the syscall boundary as negative numbers in a `u32` register,
//! so each variant has a fixed positive code whose two's-complement negation
//! is what user code sees.

use vstd::prelude::*;

verus! {

/// The recoverable error conditions of the kernel.
#[derive(Clone, Copy, Debug, PartialEq, Eq, Structural)]
pub enum MosError {
    /// Unspecified failure.
    Unspecified,
    /// Environment does not exist or cannot be used in the requested action.
    BadEnv,
    /// Invalid parameter.
    Inval,
    /// Request failed because no physical memory is left.
    NoMem,
    /// Invalid syscall number.
    NoSys,
    /// No free environment slot is left.
    NoFreeEnv,
    /// The target environment of a send is not receiving.
    IpcNotRecv,
    /// No free space left on disk.
    NoDisk,
    /// Too many files are open.
    MaxOpen,
    /// File, block or pool not found.
    NotFound,
    /// Bad path.
    BadPath,
    /// File already exists.
    FileExists,
    /// File is not a valid executable.
    NotExec,
    /// Another kind of pool operation is in progress.
    PoolBusy,
    /// A pool lock was not released before leaving the pool.
    PoolNotReleased,
}

impl MosError {
    /// The positive code of the error.
    pub open spec fn spec_code(self) -> u32 {
        match self {
            MosError::Unspecified => 1,
            MosError::BadEnv => 2,
            MosError::Inval => 3,
            MosError::NoMem => 4,
            MosError::NoSys => 5,
            MosError::NoFreeEnv => 6,
            MosError::IpcNotRecv => 7,
            MosError::NoDisk => 8,
            MosError::MaxOpen => 9,
            MosError::NotFound => 10,
            MosError::BadPath => 11,
            MosError::FileExists => 12,
            MosError::NotExec => 13,
            MosError::PoolBusy => 14,
            MosError::PoolNotReleased => 15,
        }
    }

    /// The positive code of the error.
    pub fn code(self) -> (r: u32)
        ensures r == self.spec_code(),
    {
        match self {
            MosError::Unspecified => 1,
            MosError::BadEnv => 2,
            MosError::Inval => 3,
            MosError::NoMem => 4,
            MosError::NoSys => 5,
            MosError::NoFreeEnv => 6,
            MosError::IpcNotRecv => 7,
            MosError::NoDisk => 8,
            MosError::MaxOpen => 9,
            MosError::NotFound => 10,
            MosError::BadPath => 11,
            MosError::FileExists => 12,
            MosError::NotExec => 13,
            MosError::PoolBusy => 14,
            MosError::PoolNotReleased => 15,
        }
    }

    /// The error as it is returned to user code: the two's-complement
    /// negation of its code.
    pub open spec fn spec_to_u32(self) -> u32 {
        (0x1_0000_0000 - self.spec_code()) as u32
    }
}

impl From<MosError> for u32 {
    /// The register value that reports this error to user code.
    fn from(e: MosError) -> (r: u32) {
        0xffff_ffffu32 - e.code() + 1
    }
}

impl vstd::std_specs::convert::FromSpecImpl<MosError> for u32 {
    open spec fn obeys_from_spec() -> bool {
        true
    }

    open spec fn from_spec(e: MosError) -> u32 {
        e.spec_to_u32()
    }
}

} // verus!
