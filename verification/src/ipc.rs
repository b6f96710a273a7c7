//! Inter-process-communication mailbox state held in each environment.

use vstd::prelude::*;
use crate::addr::VA;

verus! {

/// Whether an environment is waiting to receive a message.
#[derive(Clone, Copy, Debug, PartialEq, Eq, Structural)]
pub enum IpcStatus {
    /// Not receiving: a send to this environment is rejected.
    NotReceiving,
    /// Blocked in receive, waiting for a sender.
    Receiving,
}

/// An environment's IPC mailbox.
#[derive(Clone, Copy, Debug, PartialEq, Eq, Structural)]
pub struct IpcInfo {
    /// The value transferred by the last send.
    pub value: u32,
    /// The id of the sending environment.
    pub from: usize,
    /// Whether the owner is waiting to receive.
    pub recving: IpcStatus,
    /// Where a transferred page should be mapped in the receiver.
    pub dstva: VA,
    /// The permission bits for a transferred page.
    pub perm: usize,
}

impl IpcInfo {
    /// An empty mailbox, not receiving.
    pub fn new() -> (r: Self)
        ensures
            r == (IpcInfo {
                value: 0,
                from: 0,
                recving: IpcStatus::NotReceiving,
                dstva: VA(0),
                perm: 0,
            }),
    {
        IpcInfo { value: 0, from: 0, recving: IpcStatus::NotReceiving, dstva: VA(0), perm: 0 }
    }
}

} // verus!
