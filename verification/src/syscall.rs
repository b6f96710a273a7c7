//! The syscall layer: argument validation and dispatch into the core.
//!
//! Handlers take the raw `u32` arguments the trap path marshals and return
//! the `u32` that lands in the caller's result register; errors travel as
//! two's-complement negated codes.

use vstd::prelude::*;
use crate::addr::VA;
use crate::env::{Env, EnvStatus, EnvTracker, NENV};
use crate::error::MosError;
use crate::ipc::IpcStatus;
use crate::kernel::Kernel;
use crate::layout::{is_illegal_user_va, spec_is_illegal_user_va, KSEG0, NASID, PteFlags};
use crate::map::{dir_ok, va_ok};

verus! {

/// The syscall numbers the kernel understands.
#[derive(Clone, Copy, Debug, PartialEq, Eq, Structural)]
pub enum Syscall {
    /// Print one character.
    Putchar,
    /// Print a byte range from user memory.
    PrintConsole,
    /// Return the caller's environment id.
    GetEnvId,
    /// Give up the rest of the quantum.
    Yield,
    /// Destroy an environment.
    EnvDestroy,
    /// Register a TLB-modified fault handler.
    SetTlbModEntry,
    /// Allocate and map a page.
    MemAlloc,
    /// Map another environment's page.
    MemMap,
    /// Unmap a page.
    MemUnmap,
    /// Fork a child sharing the caller's registers.
    Exofork,
    /// Set an environment's status.
    SetEnvStatus,
    /// Overwrite an environment's trap frame.
    SetTrapframe,
    /// Panic with a message.
    Panic,
    /// Try to send an IPC message.
    IpcTrySend,
    /// Block waiting for an IPC message.
    IpcRecv,
    /// Read one character.
    Getchar,
    /// Write to a device register.
    WriteDev,
    /// Read from a device register.
    ReadDev,
    /// Operate on a shared memory pool.
    MempoolOp,
    /// Any out-of-range number.
    Unhandled,
}

impl Syscall {
    /// The decoding, as a function.
    pub open spec fn spec_from_u32(num: u32) -> Self {
        match num {
            0 => Self::Putchar,
            1 => Self::PrintConsole,
            2 => Self::GetEnvId,
            3 => Self::Yield,
            4 => Self::EnvDestroy,
            5 => Self::SetTlbModEntry,
            6 => Self::MemAlloc,
            7 => Self::MemMap,
            8 => Self::MemUnmap,
            9 => Self::Exofork,
            10 => Self::SetEnvStatus,
            11 => Self::SetTrapframe,
            12 => Self::Panic,
            13 => Self::IpcTrySend,
            14 => Self::IpcRecv,
            15 => Self::Getchar,
            16 => Self::WriteDev,
            17 => Self::ReadDev,
            18 => Self::MempoolOp,
            _ => Self::Unhandled,
        }
    }

    /// Decodes a syscall number.
    pub fn from_u32(num: u32) -> (r: Self)
        ensures
            r == Syscall::spec_from_u32(num),
    {
        match num {
            0 => Self::Putchar,
            1 => Self::PrintConsole,
            2 => Self::GetEnvId,
            3 => Self::Yield,
            4 => Self::EnvDestroy,
            5 => Self::SetTlbModEntry,
            6 => Self::MemAlloc,
            7 => Self::MemMap,
            8 => Self::MemUnmap,
            9 => Self::Exofork,
            10 => Self::SetEnvStatus,
            11 => Self::SetTrapframe,
            12 => Self::Panic,
            13 => Self::IpcTrySend,
            14 => Self::IpcRecv,
            15 => Self::Getchar,
            16 => Self::WriteDev,
            17 => Self::ReadDev,
            18 => Self::MempoolOp,
            _ => Self::Unhandled,
        }
    }
}

/// The register value reporting `e` to user code.
fn err_ret(e: MosError) -> (r: u32)
    ensures
        r == e.spec_to_u32(),
{
    u32::from(e)
}

impl Kernel {
    /// Appends one character to the console output.
    pub fn sys_putchar(&mut self, ch: u32, _a2: u32, _a3: u32, _a4: u32, _a5: u32) -> (r: u32)
        ensures
            r == 0,
            final(self).console_out@ == old(self).console_out@.push((ch % 0x100) as u8),
            final(self).mmu == old(self).mmu,
            final(self).env_manager == old(self).env_manager,
    {
        self.console_out.push((ch % 0x100) as u8);
        0
    }

    /// Takes console input bytes until one is not NUL and returns it. The
    /// real machine spins on an empty console; here a non-NUL byte must be
    /// waiting.
    pub fn sys_getchar(&mut self, _a1: u32, _a2: u32, _a3: u32, _a4: u32, _a5: u32) -> (r: u32)
        requires
            old(self).wf(),
            exists|i: int|
                0 <= i < old(self).console_in@.len()
                    && (#[trigger] old(self).console_in@[i]) != 0,
        ensures
            final(self).wf(),
            r != 0,
            final(self).mmu == old(self).mmu,
            final(self).env_manager == old(self).env_manager,
            final(self).console_out == old(self).console_out,
            final(self).kstack_tf == old(self).kstack_tf,
            final(self).sched_count == old(self).sched_count,
            // the result is the first non-NUL byte waiting, and exactly
            // the bytes through it are consumed
            exists|i: int| {
                &&& 0 <= i < old(self).console_in@.len()
                &&& (#[trigger] old(self).console_in@[i]) != 0
                &&& (forall|j: int| 0 <= j < i ==> old(self).console_in@[j] == 0)
                &&& r == old(self).console_in@[i]
                &&& final(self).console_in@ == old(self).console_in@.subrange(
                    i + 1, old(self).console_in@.len() as int)
            },
    {
        let ghost mut dropped: int = 0;
        loop
            invariant
                self.wf(),
                self.mmu == old(self).mmu,
                self.env_manager == old(self).env_manager,
                self.kstack_tf == old(self).kstack_tf,
                self.sched_count == old(self).sched_count,
                self.console_out == old(self).console_out,
                0 <= dropped <= old(self).console_in@.len(),
                forall|j: int| 0 <= j < dropped ==> old(self).console_in@[j] == 0,
                self.console_in@ == old(self).console_in@.subrange(
                    dropped, old(self).console_in@.len() as int),
                exists|i: int|
                    0 <= i < self.console_in@.len() && (#[trigger] self.console_in@[i]) != 0,
            ensures
                self.wf(),
                self.mmu == old(self).mmu,
                self.env_manager == old(self).env_manager,
            decreases self.console_in@.len(),
        {
            let ghost pre = self.console_in@;
            let c = self.console_in.remove(0);
            if c != 0 {
                proof {
                    assert(old(self).console_in@[dropped] == pre[0]);
                    assert(self.console_in@ =~= old(self).console_in@.subrange(
                        dropped + 1, old(self).console_in@.len() as int));
                }
                return c as u32;
            }
            proof {
                let i = choose|i: int| 0 <= i < pre.len() && (#[trigger] pre[i]) != 0;
                assert(i >= 1);
                assert(self.console_in@[i - 1] == pre[i]);
                assert(old(self).console_in@[dropped] == pre[0]);
                assert(self.console_in@ =~= old(self).console_in@.subrange(
                    dropped + 1, old(self).console_in@.len() as int));
                dropped = dropped + 1;
            }
        }
    }

    /// Returns the caller's environment id.
    pub fn sys_get_env_id(&self, _a1: u32, _a2: u32, _a3: u32, _a4: u32, _a5: u32) -> (r: u32)
        requires
            self.wf(),
            self.env_manager.cur is Some,
        ensures
            r == self.env_manager.env_at_spec(
                self.env_manager.cur.unwrap().pos as int).id as u32,
    {
        let c = self.env_manager.curenv().unwrap();
        self.env_manager.env_at(c).id as u32
    }

    /// Registers the user-space TLB-modified handler of `envid`: succeeds
    /// exactly when the id names a live environment, setting that slot's
    /// handler entry and touching nothing else; a stale or unknown id
    /// reports `BadEnv` and changes nothing.
    pub fn sys_set_tlb_mod_entry(&mut self, envid: u32, func: u32, _a3: u32, _a4: u32, _a5: u32) -> (r: u32)
        requires
            old(self).wf(),
            envid == 0 ==> old(self).env_manager.cur is Some,
        ensures
            final(self).wf(),
            r == 0 <==> old(self).env_manager.spec_resolves(envid as int),
            r != 0 ==> r == MosError::BadEnv.spec_to_u32() && *final(self) == *old(self),
            r == 0 ==> {
                let idx = old(self).env_manager.spec_resolved(envid as int);
                &&& final(self).env_manager.envs.env_array@
                    == old(self).env_manager.envs.env_array@.update(idx, Env {
                        user_tlb_mod_entry: func as usize,
                        ..old(self).env_manager.env_at_spec(idx)
                    })
                &&& final(self).env_manager == (crate::env::EnvManager {
                    envs: final(self).env_manager.envs,
                    ..old(self).env_manager
                })
                &&& *final(self) == (Kernel {
                    env_manager: final(self).env_manager,
                    ..*old(self)
                })
            },
    {
        let got = self.env_manager.env_from_id(envid as usize, false);
        match got {
            Ok(idx) => {
                let mut e = *self.env_manager.env_at(idx);
                e.user_tlb_mod_entry = func as usize;
                self.env_manager.envs.env_array[idx] = e;
                0
            },
            Err(err) => err_ret(err),
        }
    }

    /// Sets `envid`'s status to runnable or not runnable: succeeds exactly
    /// when the status value is known and the id names a live environment
    /// the caller may act on. On the transition to runnable the target
    /// joins the back of the schedule list; on the transition away it
    /// leaves the list; otherwise the list is untouched. Failure changes
    /// nothing.
    pub fn sys_set_env_status(&mut self, envid: u32, status: u32, _a3: u32, _a4: u32, _a5: u32) -> (r: u32)
        requires
            old(self).wf(),
            old(self).env_manager.cur is Some,
        ensures
            final(self).wf(),
            r == 0 <==> (status == 0 || status == 1)
                && old(self).env_manager.spec_resolves(envid as int)
                && old(self).env_manager.spec_permitted(envid as int),
            r != 0 ==> *final(self) == *old(self),
            status != 0 && status != 1 ==> r == MosError::Inval.spec_to_u32(),
            r == 0 ==> {
                let idx = old(self).env_manager.spec_resolved(envid as int);
                let olde = old(self).env_manager.env_at_spec(idx);
                let newst = if status == 1 { EnvStatus::Runnable } else { EnvStatus::NotRunnable };
                &&& final(self).env_manager.envs.env_array@
                    == old(self).env_manager.envs.env_array@.update(idx, Env {
                        status: newst,
                        ..olde
                    })
                &&& final(self).env_manager.schedule_list@
                    == if newst == EnvStatus::Runnable && olde.status == EnvStatus::NotRunnable {
                        old(self).env_manager.schedule_list@.push(EnvTracker {
                            pos: (olde.id % NENV) as usize,
                        })
                    } else if newst == EnvStatus::NotRunnable
                        && olde.status == EnvStatus::Runnable {
                        old(self).env_manager.schedule_list@.filter(
                            |t: EnvTracker| t.pos != olde.id as int % NENV as int)
                    } else {
                        old(self).env_manager.schedule_list@
                    }
                &&& final(self).env_manager == (crate::env::EnvManager {
                    envs: final(self).env_manager.envs,
                    schedule_list: final(self).env_manager.schedule_list,
                    ..old(self).env_manager
                })
                &&& *final(self) == (Kernel {
                    env_manager: final(self).env_manager,
                    ..*old(self)
                })
            },
    {
        let newstatus = match status {
            0 => EnvStatus::NotRunnable,
            1 => EnvStatus::Runnable,
            _ => {
                return err_ret(MosError::Inval);
            },
        };
        let got = self.env_manager.env_from_id(envid as usize, true);
        match got {
            Ok(idx) => {
                let e = *self.env_manager.env_at(idx);
                if matches!(newstatus, EnvStatus::Runnable)
                    && matches!(e.status, EnvStatus::NotRunnable) {
                    self.env_manager.insert_to_end(e.id);
                } else if matches!(newstatus, EnvStatus::NotRunnable)
                    && matches!(e.status, EnvStatus::Runnable) {
                    self.env_manager.remove_from_schedule(e.id);
                }
                let mut e2 = *self.env_manager.env_at(idx);
                e2.status = newstatus;
                self.env_manager.envs.env_array[idx] = e2;
                0
            },
            Err(err) => err_ret(err),
        }
    }

    /// Allocates a zeroed page and maps it at `va`'s page base in
    /// `envid`'s address space: succeeds exactly when the address is a
    /// legal user address, the id names a live environment the caller may
    /// act on, and pages remain for the mapping (and its table, when one
    /// must be created). On success the page base maps a fresh zeroed page
    /// with the requested permission bits; on failure no count, no free
    /// page and no environment changes.
    pub fn sys_mem_alloc(&mut self, envid: u32, va: u32, perm: u32, _a4: u32, _a5: u32) -> (r: u32)
        requires
            old(self).wf(),
            old(self).env_manager.cur is Some,
            old(self).env_manager.env_at_spec(
                old(self).env_manager.cur.unwrap().pos as int).status != EnvStatus::Free,
            old(self).envs_sound(),
            forall|j: int| 0 <= j < NENV ==> {
                let e = #[trigger] old(self).env_manager.env_at_spec(j);
                e.status != EnvStatus::Free ==> {
                    &&& va_ok(old(self).mmu, e.spec_pgdir_ppn(),
                        VA(va as usize).spec_page_base())
                    &&& (crate::map::pde_valid(old(self).mmu.mem, e.spec_pgdir_ppn(),
                        VA(va as usize).spec_page_base())
                        ==> old(self).mmu.rc_of(crate::map::pde_of(
                            old(self).mmu.mem, e.spec_pgdir_ppn(),
                            VA(va as usize).spec_page_base()).spec_ppn()) >= 1)
                }
            },
        ensures
            final(self).wf(),
            r == 0 || r == MosError::Inval.spec_to_u32()
                || r == MosError::BadEnv.spec_to_u32() || r == MosError::NoMem.spec_to_u32(),
            spec_is_illegal_user_va(va as usize)
                ==> r == MosError::Inval.spec_to_u32() && *final(self) == *old(self),
            !spec_is_illegal_user_va(va as usize)
                && !(old(self).env_manager.spec_resolves(envid as int)
                    && old(self).env_manager.spec_permitted(envid as int))
                ==> r == MosError::BadEnv.spec_to_u32() && *final(self) == *old(self),
            // out of memory exactly when no page was free, or the single
            // free page was taken and a fresh table was still needed; the
            // roundtrip changes no count and no free page
            r == MosError::NoMem.spec_to_u32() <==> {
                &&& !spec_is_illegal_user_va(va as usize)
                &&& old(self).env_manager.spec_resolves(envid as int)
                &&& old(self).env_manager.spec_permitted(envid as int)
                &&& ((forall|q: int| !old(self).mmu.is_free(q))
                    || (!crate::map::pde_valid(
                        old(self).mmu.mem,
                        old(self).env_manager.env_at_spec(
                            old(self).env_manager.spec_resolved(envid as int))
                            .spec_pgdir_ppn(),
                        VA(va as usize).spec_page_base())
                        && forall|q1: int, q2: int|
                            #[trigger] old(self).mmu.is_free(q1)
                                && #[trigger] old(self).mmu.is_free(q2) ==> q1 == q2))
            },
            r == MosError::NoMem.spec_to_u32() ==> {
                &&& final(self).env_manager == old(self).env_manager
                &&& (forall|q: int|
                    #[trigger] final(self).mmu.is_free(q) <==> old(self).mmu.is_free(q))
                &&& (forall|p: int|
                    0 <= p < old(self).mmu.npages()
                        ==> (#[trigger] final(self).mmu.rc_of(p)) == old(self).mmu.rc_of(p))
            },
            r == 0 ==> {
                let idx = old(self).env_manager.spec_resolved(envid as int);
                let e = old(self).env_manager.env_at_spec(idx);
                let dir = e.spec_pgdir_ppn();
                let target = VA(va as usize).spec_page_base();
                let p = crate::map::mapped_page(final(self).mmu.mem, dir, target);
                &&& crate::map::va_mapped(final(self).mmu.mem, dir, target)
                &&& old(self).mmu.is_free(p)
                &&& final(self).mmu.rc_of(p) == 1
                &&& (forall|w: int|
                    0 <= w < crate::layout::PAGE_WORDS
                        ==> (#[trigger] final(self).mmu.mem.word(p, w)) == 0)
                &&& crate::map::pte_of(final(self).mmu.mem, dir, target).spec_flags()
                    == PteFlags::spec_from_bits(perm as int % 4096).spec_or(PteFlags {
                        v: true,
                        c0: true,
                        c1: true,
                        ..PteFlags::spec_empty()
                    })
                &&& final(self).env_manager == old(self).env_manager
                &&& final(self).console_out == old(self).console_out
                &&& final(self).console_in == old(self).console_in
                &&& final(self).kstack_tf == old(self).kstack_tf
                &&& final(self).sched_count == old(self).sched_count
            },
    {
        if is_illegal_user_va(va as usize) {
            return err_ret(MosError::Inval);
        }
        let got = self.env_manager.env_from_id(envid as usize, true);
        let idx = match got {
            Ok(idx) => idx,
            Err(err) => {
                return err_ret(err);
            },
        };
        let e = *self.env_manager.env_at(idx);
        let page = match self.mmu.page_alloc(true) {
            Some(p) => p,
            None => {
                proof {
                    assert forall|q: int|
                        #[trigger] self.mmu.is_free(q) <==> old(self).mmu.is_free(q) by {}
                    assert(forall|q: int| !old(self).mmu.is_free(q));
                }
                return err_ret(MosError::NoMem);
            },
        };
        let ghost ma = *self;
        let target = VA(va as usize).pte_addr();
        let pgdir = e.pgdir();
        let ghost m0 = old(self).mmu;
        proof {
            let d = pgdir.dir();
            assert(d != page.ppn.0);
            assert(dir_ok(self.mmu.mem, d)) by {
                assert forall|i: int| 0 <= i < crate::layout::PAGE_WORDS implies {
                    let pde = crate::map::Pte(#[trigger] self.mmu.mem.word(d, i));
                    pde.spec_flags().v ==> pde.spec_ppn() < self.mmu.mem.page_count
                        && (i != crate::map::UVPT_PDX ==> pde.spec_ppn() != d)
                } by {
                    assert(self.mmu.mem.word(d, i) == m0.mem.word(d, i));
                }
            }
            assert(va_ok(self.mmu, d, target)) by {
                if crate::map::va_mapped(self.mmu.mem, d, target) {
                    let t = crate::map::pde_of(self.mmu.mem, d, target).spec_ppn();
                    assert(self.mmu.mem.word(d, target.spec_pdx())
                        == m0.mem.word(d, target.spec_pdx()));
                    assert(crate::map::pde_of(self.mmu.mem, d, target)
                        == crate::map::pde_of(m0.mem, d, target));
                    if t == page.ppn.0 {
                        assert(self.mmu.mem.word(t, target.spec_ptx()) == 0);
                    } else {
                        assert(self.mmu.mem.word(t, target.spec_ptx())
                            == m0.mem.word(t, target.spec_ptx()));
                        assert(crate::map::pte_of(self.mmu.mem, d, target)
                            == crate::map::pte_of(m0.mem, d, target));
                        let p = crate::map::mapped_page(m0.mem, d, target);
                        assert(self.mmu.rc_of(p) == m0.rc_of(p));
                    }
                }
            }
            assert(self.mmu.rc_of(d) == m0.rc_of(d));
            assert(self.mmu.rc_of(page.ppn.0 as int) == 0);
            assert(!self.mmu.is_free(page.ppn.0 as int));
        }
        let res = pgdir.insert(
            &mut self.mmu,
            e.asid,
            page,
            target,
            PteFlags::from_bits_truncate(perm as usize),
        );
        match res {
            Ok(()) => {
                proof {
                    let dir = e.spec_pgdir_ppn();
                    let target = VA(va as usize).spec_page_base();
                    // success refutes both exhaustion cases
                    assert(old(self).mmu.is_free(page.ppn.0 as int));
                    if !crate::map::pde_valid(old(self).mmu.mem, dir, target) {
                        let t = crate::map::pde_of(self.mmu.mem, dir, target).spec_ppn();
                        assert(!crate::map::pde_valid(ma.mmu.mem, dir, target));
                        assert(ma.mmu.is_free(t));
                        assert(old(self).mmu.is_free(t) && t != page.ppn.0);
                    }
                    // the fresh page keeps its zero fill: the written entry
                    // lives in the table, a referenced page
                    assert forall|w: int|
                        0 <= w < crate::layout::PAGE_WORDS
                            implies (#[trigger] self.mmu.mem.word(page.ppn.0 as int, w))
                                == 0 by {
                        let t = crate::map::pde_of(self.mmu.mem, dir, target).spec_ppn();
                        assert(page.ppn.0 != t) by {
                            if crate::map::pde_valid(ma.mmu.mem, dir, target) {
                                assert(crate::map::pde_of(ma.mmu.mem, dir, target)
                                    == crate::map::pde_of(old(self).mmu.mem, dir, target));
                                assert(crate::map::pde_of(self.mmu.mem, dir, target)
                                    == crate::map::pde_of(ma.mmu.mem, dir, target));
                                assert(old(self).mmu.rc_of(t) >= 1);
                                assert(ma.mmu.rc_of(t) == old(self).mmu.rc_of(t));
                                assert(ma.mmu.rc_of(page.ppn.0 as int) == 0);
                            } else {
                                assert(ma.mmu.is_free(t));
                            }
                        }
                        assert(ma.mmu.mem.word(page.ppn.0 as int, w) == 0);
                        assert(self.mmu.mem.word(page.ppn.0 as int, w)
                            == ma.mmu.mem.word(page.ppn.0 as int, w));
                    }
                    assert(crate::map::mapped_page(self.mmu.mem, dir, target)
                        == page.ppn.0 as int);
                    assert(self.mmu.rc_of(page.ppn.0 as int) == 1) by {
                        // mapping an already-free page is excluded, so the
                        // fast path cannot have been taken
                        assert(!(crate::map::va_mapped(old(self).mmu.mem, dir, target)
                            && crate::map::mapped_page(old(self).mmu.mem, dir, target)
                                == page.ppn.0)) by {
                            if crate::map::va_mapped(old(self).mmu.mem, dir, target) {
                                assert(old(self).mmu.rc_of(crate::map::mapped_page(
                                    old(self).mmu.mem, dir, target)) >= 1);
                            }
                        }
                    }
                }
                0
            },
            Err(err) => {
                let ghost mm = *self;
                proof {
                    assert(self.mmu.rc_of(page.ppn.0 as int) == 0);
                    assert(!self.mmu.is_free(page.ppn.0 as int));
                    // the insertion failed for want of a table page: at
                    // most the taken page was free
                    let dir = e.spec_pgdir_ppn();
                    let target = VA(va as usize).spec_page_base();
                    assert(!crate::map::pde_valid(old(self).mmu.mem, dir, target)) by {
                        assert(!crate::map::pde_valid(ma.mmu.mem, dir, target));
                        assert(crate::map::pde_of(ma.mmu.mem, dir, target)
                            == crate::map::pde_of(old(self).mmu.mem, dir, target));
                    }
                    assert forall|q1: int, q2: int|
                        #[trigger] old(self).mmu.is_free(q1)
                            && #[trigger] old(self).mmu.is_free(q2)
                            implies q1 == q2 by {
                        assert(!ma.mmu.is_free(q1) && !ma.mmu.is_free(q2));
                    }
                }
                self.mmu.page_dealloc(page);
                proof {
                    assert(mm.mmu.mem == ma.mmu.mem && mm.mmu.allocator == ma.mmu.allocator);
                    assert forall|q: int|
                        #[trigger] self.mmu.is_free(q) <==> old(self).mmu.is_free(q) by {
                        assert(ma.mmu.is_free(q)
                            <==> (old(self).mmu.is_free(q) && q != page.ppn.0));
                        assert(mm.mmu.is_free(q) <==> ma.mmu.is_free(q));
                        assert(self.mmu.is_free(q)
                            <==> (mm.mmu.is_free(q) || q == page.ppn.0));
                        assert(old(self).mmu.is_free(page.ppn.0 as int));
                    }
                    assert forall|p: int|
                        0 <= p < old(self).mmu.npages()
                            implies (#[trigger] self.mmu.rc_of(p))
                                == old(self).mmu.rc_of(p) by {
                        assert(ma.mmu.rc_of(p) == old(self).mmu.rc_of(p));
                        assert(mm.mmu.rc_of(p) == ma.mmu.rc_of(p));
                        assert(self.mmu.rc_of(p) == mm.mmu.rc_of(p));
                    }
                }
                err_ret(err)
            },
        }
    }

    /// Unmaps `va` in `envid`'s address space: succeeds exactly when the
    /// address is a legal user address and the id names a live environment
    /// the caller may act on. Afterwards nothing is mapped at `va`; if a
    /// page was mapped, one reference to it is dropped and it is freed on
    /// zero. Silently succeeds when nothing was mapped; failure changes
    /// nothing.
    pub fn sys_mem_unmap(&mut self, envid: u32, va: u32, _a3: u32, _a4: u32, _a5: u32) -> (r: u32)
        requires
            old(self).wf(),
            old(self).env_manager.cur is Some,
            old(self).env_manager.env_at_spec(
                old(self).env_manager.cur.unwrap().pos as int).status != EnvStatus::Free,
            old(self).envs_sound(),
            forall|j: int| 0 <= j < NENV ==> {
                let e = #[trigger] old(self).env_manager.env_at_spec(j);
                e.status != EnvStatus::Free
                    ==> va_ok(old(self).mmu, e.spec_pgdir_ppn(), VA(va as usize))
            },
        ensures
            final(self).wf(),
            r == 0 <==> !spec_is_illegal_user_va(va as usize)
                && old(self).env_manager.spec_resolves(envid as int)
                && old(self).env_manager.spec_permitted(envid as int),
            r != 0 ==> *final(self) == *old(self),
            spec_is_illegal_user_va(va as usize) ==> r == MosError::Inval.spec_to_u32(),
            !spec_is_illegal_user_va(va as usize)
                && !(old(self).env_manager.spec_resolves(envid as int)
                    && old(self).env_manager.spec_permitted(envid as int))
                ==> r == MosError::BadEnv.spec_to_u32(),
            r == 0 ==> {
                let idx = old(self).env_manager.spec_resolved(envid as int);
                let e = old(self).env_manager.env_at_spec(idx);
                let dir = e.spec_pgdir_ppn();
                &&& !crate::map::va_mapped(final(self).mmu.mem, dir, VA(va as usize))
                &&& (crate::map::va_mapped(old(self).mmu.mem, dir, VA(va as usize)) ==> {
                    let p = crate::map::mapped_page(old(self).mmu.mem, dir, VA(va as usize));
                    &&& final(self).mmu.rc_of(p) == old(self).mmu.rc_of(p) - 1
                    &&& (old(self).mmu.rc_of(p) == 1 ==> final(self).mmu.is_free(p))
                })
                &&& (!crate::map::va_mapped(old(self).mmu.mem, dir, VA(va as usize))
                    ==> final(self).mmu == old(self).mmu)
                &&& final(self).env_manager == old(self).env_manager
                &&& final(self).console_out == old(self).console_out
                &&& final(self).console_in == old(self).console_in
                &&& final(self).kstack_tf == old(self).kstack_tf
                &&& final(self).sched_count == old(self).sched_count
            },
    {
        if is_illegal_user_va(va as usize) {
            return err_ret(MosError::Inval);
        }
        let got = self.env_manager.env_from_id(envid as usize, true);
        let idx = match got {
            Ok(idx) => idx,
            Err(err) => {
                return err_ret(err);
            },
        };
        let e = *self.env_manager.env_at(idx);
        let pgdir = e.pgdir();
        pgdir.remove(&mut self.mmu, e.asid, VA(va as usize));
        0
    }

    /// Gives up the rest of the quantum: forces a switch and returns the
    /// slot of the environment now running.
    pub fn sys_yield(&mut self, _a1: u32, _a2: u32, _a3: u32, _a4: u32, _a5: u32) -> (r: u32)
        requires
            old(self).wf(),
            (old(self).env_manager.cur is Some
                && old(self).env_manager.env_at_spec(
                    old(self).env_manager.cur.unwrap().pos as int).status
                    == EnvStatus::Runnable) ==> {
                &&& old(self).env_manager.schedule_list@.len() > 0
                &&& old(self).env_manager.schedule_list@.first().pos
                    == old(self).env_manager.env_at_spec(
                        old(self).env_manager.cur.unwrap().pos as int).id
                        as int % NENV as int
            },
            crate::schedule::rotated(*old(self)).len() > 0,
            ({
                let head = crate::schedule::rotated(*old(self)).first();
                let e = old(self).env_manager.env_at_spec(head.pos as int);
                &&& e.status == EnvStatus::Runnable
                &&& e.pgdir.0 >= KSEG0
                &&& e.runs < 0xffff_ffff
                &&& e.priority >= 1
            }),
        ensures
            final(self).wf(),
            r == crate::schedule::rotated(*old(self)).first().pos,
    {
        let next = self.schedule(true);
        next as u32
    }

    /// Tries to deliver `value` to `envid`: succeeds exactly when the id
    /// names a live environment that is blocked receiving (and `srcva`, if
    /// given, is a legal user address). On success the target's mailbox is
    /// filled, it becomes runnable at the back of the schedule list, and a
    /// non-zero `srcva` additionally maps the sender's page at that
    /// address into the receiver at its announced destination. Failure
    /// before the mailbox is filled changes nothing; a failing page
    /// transfer leaves the delivered message in place, as the trap path
    /// does.
    #[verifier::rlimit(60)]
    #[verifier::spinoff_prover]
    pub fn sys_ipc_try_send(&mut self, envid: u32, value: u32, srcva: u32, perm: u32, _a5: u32) -> (r: u32)
        requires
            old(self).wf(),
            old(self).env_manager.cur is Some,
            // when a page travels along, both address spaces must be sound
            srcva != 0 ==> old(self).env_manager.env_at_spec(
                old(self).env_manager.cur.unwrap().pos as int).status != EnvStatus::Free,
            srcva != 0 ==> old(self).envs_sound(),
            srcva != 0 ==> forall|j: int| 0 <= j < NENV ==> {
                let e = #[trigger] old(self).env_manager.env_at_spec(j);
                e.status != EnvStatus::Free ==> {
                    &&& e.ipc_info.dstva.spec_page_base().0 < 0x1_0000_0000
                    &&& crate::map::outside_vpt(e.ipc_info.dstva.spec_page_base())
                    &&& va_ok(old(self).mmu, e.spec_pgdir_ppn(),
                        e.ipc_info.dstva.spec_page_base())
                    &&& (crate::map::va_mapped(
                        old(self).mmu.mem, e.spec_pgdir_ppn(), VA(srcva as usize))
                        ==> {
                        let p = crate::map::mapped_page(
                            old(self).mmu.mem, e.spec_pgdir_ppn(), VA(srcva as usize));
                        &&& 0 <= p < old(self).mmu.npages()
                        &&& 1 <= old(self).mmu.rc_of(p) < 0xffff
                        &&& !old(self).mmu.is_free(p)
                    })
                }
            },
            srcva != 0 ==> forall|j1: int, j2: int|
                0 <= j1 < NENV && 0 <= j2 < NENV ==> {
                    let e1 = #[trigger] old(self).env_manager.env_at_spec(j1);
                    let e2 = #[trigger] old(self).env_manager.env_at_spec(j2);
                    (e1.status != EnvStatus::Free && e2.status != EnvStatus::Free
                        && crate::map::va_mapped(
                            old(self).mmu.mem, e1.spec_pgdir_ppn(), VA(srcva as usize)))
                        ==> crate::map::mapped_page(
                            old(self).mmu.mem, e1.spec_pgdir_ppn(), VA(srcva as usize))
                            != e2.spec_pgdir_ppn()
                },
        ensures
            final(self).wf(),
            final(self).mmu.npages() == old(self).mmu.npages(),
            srcva == 0 ==> final(self).mmu == old(self).mmu,
            ({
                let delivered = old(self).env_manager.spec_resolves(envid as int)
                    && old(self).env_manager.env_at_spec(
                        old(self).env_manager.spec_resolved(envid as int))
                        .ipc_info.recving == IpcStatus::Receiving
                    && !(srcva != 0 && spec_is_illegal_user_va(srcva as usize));
                &&& (srcva != 0 && spec_is_illegal_user_va(srcva as usize)
                    ==> r == MosError::Inval.spec_to_u32() && *final(self) == *old(self))
                &&& (!delivered ==> r != 0 && final(self).env_manager == old(self).env_manager)
                &&& (delivered ==> {
                    let idx = old(self).env_manager.spec_resolved(envid as int);
                    let olde = old(self).env_manager.env_at_spec(idx);
                    let newe = final(self).env_manager.env_at_spec(idx);
                    &&& newe.ipc_info.value == value
                    &&& newe.ipc_info.from == old(self).env_manager.env_at_spec(
                        old(self).env_manager.cur.unwrap().pos as int).id
                    &&& newe.ipc_info.recving == IpcStatus::NotReceiving
                    &&& newe.status == EnvStatus::Runnable
                    &&& final(self).env_manager.schedule_list@
                        == old(self).env_manager.schedule_list@.push(EnvTracker {
                            pos: (olde.id % NENV) as usize,
                        })
                    &&& (r == 0 && srcva != 0 ==> crate::map::va_mapped(
                        final(self).mmu.mem, olde.spec_pgdir_ppn(),
                        olde.ipc_info.dstva.spec_page_base()))
                    &&& (srcva == 0 ==> r == 0)
                })
            }),
    {
        if srcva != 0 && is_illegal_user_va(srcva as usize) {
            return err_ret(MosError::Inval);
        }
        let got = self.env_manager.env_from_id(envid as usize, false);
        let idx = match got {
            Ok(idx) => idx,
            Err(err) => {
                return err_ret(err);
            },
        };
        let mut e = *self.env_manager.env_at(idx);
        if matches!(e.ipc_info.recving, IpcStatus::NotReceiving) {
            return err_ret(MosError::IpcNotRecv);
        }
        let c = self.env_manager.curenv().unwrap();
        let cur_env = *self.env_manager.env_at(c);
        let from = cur_env.id;
        e.ipc_info.recving = IpcStatus::NotReceiving;
        e.ipc_info.value = value;
        e.ipc_info.from = from;
        let pbits = perm as usize % 0x1000;
        e.ipc_info.perm = if pbits / 0x80 % 2 == 1 {
            pbits
        } else {
            pbits + 0x80
        };
        e.status = EnvStatus::Runnable;
        let id = e.id;
        let dstva = e.ipc_info.dstva;
        self.env_manager.envs.env_array[idx] = e;
        self.env_manager.insert_to_end(id);
        proof {
            assert(self.env_manager.env_at_spec(idx as int) == e);
        }
        if srcva != 0 {
            // carry the sender's page across, mapped at the receiver's
            // announced destination
            let found = cur_env.pgdir().lookup(&self.mmu, VA(srcva as usize));
            let page = match found {
                Some((_, page)) => page,
                None => {
                    return err_ret(MosError::Inval);
                },
            };
            let target = dstva.pte_addr();
            proof {
                let d = e.spec_pgdir_ppn();
                assert(self.mmu == old(self).mmu);
                assert(va_ok(self.mmu, d, target));
            }
            let res = e.pgdir().insert(
                &mut self.mmu,
                e.asid,
                page,
                target,
                PteFlags::from_bits_truncate(perm as usize),
            );
            match res {
                Ok(()) => 0,
                Err(err) => err_ret(err),
            }
        } else {
            0
        }
    }
}


impl Kernel {
    /// Finds the page mapped at `srcva` in `srcid`'s address space and maps
    /// it at `dstva` in `dstid`'s with `perm`, sharing the page: succeeds
    /// exactly when both addresses are legal user addresses, both ids name
    /// live environments the caller may act on, the source is mapped, and
    /// a page remains for a table when one must be created. Failure before
    /// the insertion changes nothing.
    pub fn sys_mem_map(&mut self, srcid: u32, srcva: u32, dstid: u32, dstva: u32, perm: u32) -> (r: u32)
        requires
            old(self).wf(),
            old(self).env_manager.cur is Some,
            old(self).env_manager.env_at_spec(
                old(self).env_manager.cur.unwrap().pos as int).status != EnvStatus::Free,
            old(self).envs_sound(),
            forall|j: int| 0 <= j < NENV ==> {
                let e = #[trigger] old(self).env_manager.env_at_spec(j);
                e.status != EnvStatus::Free ==> {
                    &&& va_ok(old(self).mmu, e.spec_pgdir_ppn(), VA(dstva as usize))
                    &&& (crate::map::va_mapped(
                        old(self).mmu.mem, e.spec_pgdir_ppn(), VA(srcva as usize))
                        ==> {
                        let p = crate::map::mapped_page(
                            old(self).mmu.mem, e.spec_pgdir_ppn(), VA(srcva as usize));
                        &&& 0 <= p < old(self).mmu.npages()
                        &&& 1 <= old(self).mmu.rc_of(p) < 0xffff
                        &&& !old(self).mmu.is_free(p)
                    })
                }
            },
            // distinct address spaces: the shared page is not the
            // destination directory
            forall|j1: int, j2: int|
                0 <= j1 < NENV && 0 <= j2 < NENV ==> {
                    let e1 = #[trigger] old(self).env_manager.env_at_spec(j1);
                    let e2 = #[trigger] old(self).env_manager.env_at_spec(j2);
                    (e1.status != EnvStatus::Free && e2.status != EnvStatus::Free
                        && crate::map::va_mapped(
                            old(self).mmu.mem, e1.spec_pgdir_ppn(), VA(srcva as usize)))
                        ==> crate::map::mapped_page(
                            old(self).mmu.mem, e1.spec_pgdir_ppn(), VA(srcva as usize))
                            != e2.spec_pgdir_ppn()
                },
        ensures
            final(self).wf(),
            spec_is_illegal_user_va(srcva as usize) || spec_is_illegal_user_va(dstva as usize)
                ==> r == MosError::Inval.spec_to_u32() && *final(self) == *old(self),
            ({
                let legal = !spec_is_illegal_user_va(srcva as usize)
                    && !spec_is_illegal_user_va(dstva as usize);
                let src_ok = old(self).env_manager.spec_resolves(srcid as int)
                    && old(self).env_manager.spec_permitted(srcid as int);
                let dst_ok = old(self).env_manager.spec_resolves(dstid as int)
                    && old(self).env_manager.spec_permitted(dstid as int);
                let sdir = old(self).env_manager.env_at_spec(
                    old(self).env_manager.spec_resolved(srcid as int)).spec_pgdir_ppn();
                &&& (legal && !(src_ok && dst_ok)
                    ==> r == MosError::BadEnv.spec_to_u32() && *final(self) == *old(self))
                &&& (legal && src_ok && dst_ok
                    && !crate::map::va_mapped(old(self).mmu.mem, sdir, VA(srcva as usize))
                    ==> r == MosError::Inval.spec_to_u32() && *final(self) == *old(self))
                &&& (r == 0 ==> {
                    let ddir = old(self).env_manager.env_at_spec(
                        old(self).env_manager.spec_resolved(dstid as int)).spec_pgdir_ppn();
                    let p = crate::map::mapped_page(old(self).mmu.mem, sdir,
                        VA(srcva as usize));
                    &&& legal && src_ok && dst_ok
                    &&& crate::map::va_mapped(old(self).mmu.mem, sdir, VA(srcva as usize))
                    &&& crate::map::va_mapped(final(self).mmu.mem, ddir, VA(dstva as usize))
                    &&& crate::map::mapped_page(final(self).mmu.mem, ddir, VA(dstva as usize))
                        == p
                    &&& final(self).env_manager == old(self).env_manager
                })
                // sharing is owed when the source is mapped and either the
                // destination's table exists or a page is free to build it
                &&& ((legal && src_ok && dst_ok
                    && crate::map::va_mapped(old(self).mmu.mem, sdir, VA(srcva as usize))
                    && (crate::map::pde_valid(
                        old(self).mmu.mem,
                        old(self).env_manager.env_at_spec(
                            old(self).env_manager.spec_resolved(dstid as int))
                            .spec_pgdir_ppn(),
                        VA(dstva as usize))
                        || exists|q: int| old(self).mmu.is_free(q)))
                    ==> r == 0)
            }),
    {
        if is_illegal_user_va(srcva as usize) || is_illegal_user_va(dstva as usize) {
            return err_ret(MosError::Inval);
        }
        let got_src = self.env_manager.env_from_id(srcid as usize, true);
        let src_idx = match got_src {
            Ok(i) => i,
            Err(e) => {
                return err_ret(e);
            },
        };
        let got_dst = self.env_manager.env_from_id(dstid as usize, true);
        let dst_idx = match got_dst {
            Ok(i) => i,
            Err(e) => {
                return err_ret(e);
            },
        };
        let se = *self.env_manager.env_at(src_idx);
        let de = *self.env_manager.env_at(dst_idx);
        let spgdir = se.pgdir();
        let found = spgdir.lookup(&self.mmu, VA(srcva as usize));
        let page = match found {
            Some((_, page)) => page,
            None => {
                return err_ret(MosError::Inval);
            },
        };
        let dpgdir = de.pgdir();
        let res = dpgdir.insert(
            &mut self.mmu,
            de.asid,
            page,
            VA(dstva as usize),
            PteFlags::from_bits_truncate(perm as usize),
        );
        match res {
            Ok(()) => 0,
            Err(e) => err_ret(e),
        }
    }
}


impl Kernel {
    /// Destroys the environment `envid` (0 for the caller itself):
    /// succeeds exactly when the id names a live environment the caller
    /// may act on, tearing its address space down and freeing its slot and
    /// ASID. If the caller destroys itself the scheduler immediately picks
    /// the next environment, whose slot is reported in the second result;
    /// failure changes nothing.
    #[verifier::rlimit(60)]
    #[verifier::spinoff_prover]
    pub fn sys_env_destroy(&mut self, envid: u32, _a2: u32, _a3: u32, _a4: u32, _a5: u32) -> (r: (
        u32,
        Option<usize>,
    ))
        requires
            old(self).wf(),
            old(self).env_manager.cur is Some,
            old(self).envs_sound(),
            forall|j: int| 0 <= j < NENV ==> {
                let e = #[trigger] old(self).env_manager.env_at_spec(j);
                e.status != EnvStatus::Free ==> {
                    &&& crate::env::EnvManager::aspace_sound_for(
                        old(self).mmu, e.spec_pgdir_ppn())
                    &&& ({
                        let survivors = old(self).env_manager.schedule_list@.filter(
                            |t: EnvTracker|
                                t.pos != e.id as int % NENV as int);
                        (old(self).env_manager.cur matches Some(c) && c.pos == e.spec_pos())
                            ==> {
                            &&& survivors.len() > 0
                            &&& survivors.first().pos != j
                            &&& {
                                let h = old(self).env_manager.env_at_spec(
                                    survivors.first().pos as int);
                                &&& h.status == EnvStatus::Runnable
                                &&& h.pgdir.0 >= KSEG0
                                &&& h.runs < 0xffff_ffff
                                &&& h.priority >= 1
                            }
                        }
                    })
                }
            },
        ensures
            final(self).wf(),
            r.0 == 0 <==> old(self).env_manager.spec_resolves(envid as int)
                && old(self).env_manager.spec_permitted(envid as int)
                && old(self).env_manager.env_at_spec(
                    old(self).env_manager.spec_resolved(envid as int)).status
                    != EnvStatus::Free,
            r.0 != 0 ==> r.0 == MosError::BadEnv.spec_to_u32() && *final(self) == *old(self)
                && r.1 is None,
            r.0 == 0 ==> {
                let idx = old(self).env_manager.spec_resolved(envid as int);
                let e = old(self).env_manager.env_at_spec(idx);
                &&& final(self).env_manager.env_at_spec(idx).status == EnvStatus::Free
                &&& final(self).env_manager.asid_bitmap@
                    == old(self).env_manager.asid_bitmap@.update(e.asid as int, false)
                // no stale TLB entry of the destroyed environment's ASID
                // survives for its previously mapped addresses
                &&& (forall|i: int, j: int|
                    0 <= i < crate::env::UTOP_PDX && 0 <= j < crate::layout::PAGE_WORDS
                        && crate::map::Pte(#[trigger] old(self).mmu.mem.word(
                            e.spec_pgdir_ppn(), i)).spec_flags().v
                        && crate::map::Pte(#[trigger] old(self).mmu.mem.word(
                            crate::map::Pte(old(self).mmu.mem.word(
                                e.spec_pgdir_ppn(), i)).spec_ppn(), j)).spec_flags().v
                        ==> !final(self).mmu.tlb.has(crate::mmu::tlb_key(
                            VA((i * crate::layout::PDMAP
                                + j * crate::layout::PAGE_SIZE) as usize),
                            e.asid as int)))
                &&& (old(self).mmu.rc_of(e.spec_pgdir_ppn()) == 1
                    ==> final(self).mmu.is_free(e.spec_pgdir_ppn()))
                &&& (forall|p: int|
                    0 <= p < old(self).mmu.npages()
                        ==> (#[trigger] final(self).mmu.rc_of(p)) <= old(self).mmu.rc_of(p))
                &&& match r.1 {
                    Some(next) => (old(self).env_manager.cur matches Some(c)
                        && c.pos == e.spec_pos())
                        && next == old(self).env_manager.schedule_list@.filter(
                            |t: EnvTracker| t.pos != e.id as int % NENV as int).first().pos,
                    None => !(old(self).env_manager.cur matches Some(c)
                        && c.pos == e.spec_pos()),
                }
            },
    {
        let got = self.env_manager.env_from_id(envid as usize, true);
        let idx = match got {
            Ok(i) => i,
            Err(e) => {
                return (err_ret(e), None);
            },
        };
        let e = *self.env_manager.env_at(idx);
        if matches!(e.status, EnvStatus::Free) {
            return (err_ret(MosError::BadEnv), None);
        }
        let next = self.env_destroy(idx);
        (0, next)
    }
}


impl Kernel {
    /// Forks a child of the caller: a fresh environment that inherits the
    /// caller's saved registers (with a zero result register so the child
    /// can tell itself apart) and priority, left not runnable for the
    /// parent to set up. Returns the child's id; success is owed whenever
    /// a slot, a page and an ASID are free.
    pub fn sys_exofork(&mut self, _a1: u32, _a2: u32, _a3: u32, _a4: u32, _a5: u32) -> (r: u32)
        requires
            old(self).wf(),
            old(self).env_manager.cur is Some,
            old(self).env_manager.env_count < 0xf_ffff,
            old(self).env_manager.base_windows_ok(old(self).mmu),
            old(self).mmu.npages() <= 0x80000,
        ensures
            final(self).wf(),
            final(self).mmu.npages() == old(self).mmu.npages(),
            (old(self).env_manager.free_list@.len() > 0
                && (exists|q: int| old(self).mmu.is_free(q))
                && (exists|a: int|
                    0 <= a < NASID && !old(self).env_manager.asid_bitmap@[a]))
                ==> r < 0xf000_0000,
            r >= 0xf000_0000 ==> r == MosError::NoFreeEnv.spec_to_u32()
                || r == MosError::NoMem.spec_to_u32(),
            r < 0xf000_0000 ==> {
                let idx = old(self).env_manager.free_list@.last().pos;
                let child = final(self).env_manager.env_at_spec(idx as int);
                let parent = old(self).env_manager.env_at_spec(
                    old(self).env_manager.cur.unwrap().pos as int);
                &&& r == child.id
                &&& child.id as int % NENV as int == idx
                &&& child.status == EnvStatus::NotRunnable
                &&& child.tf.regs@ == old(self).kstack_tf.regs@.update(2, 0u32)
                &&& child.tf.cp0_epc == old(self).kstack_tf.cp0_epc
                &&& child.tf.cp0_status == old(self).kstack_tf.cp0_status
                &&& child.parent_id == parent.id
                &&& child.priority == parent.priority
                &&& final(self).env_manager.schedule_list
                    == old(self).env_manager.schedule_list
                &&& final(self).env_manager.cur == old(self).env_manager.cur
            },
    {
        let c = self.env_manager.curenv().unwrap();
        let parent = *self.env_manager.env_at(c);
        let got = self.env_manager.alloc_env(&mut self.mmu, parent.id);
        let idx = match got {
            Ok(i) => i,
            Err(e) => {
                return err_ret(e);
            },
        };
        let mut child = *self.env_manager.env_at(idx);
        child.tf = self.kstack_tf;
        child.tf.regs[2] = 0;
        child.status = EnvStatus::NotRunnable;
        child.priority = parent.priority;
        let id = child.id;
        self.env_manager.envs.env_array[idx] = child;
        proof {
            assert(self.env_manager.env_at_spec(idx as int) == child);
            assert(child.tf.regs@ == old(self).kstack_tf.regs@.update(2, 0u32)) by {
                assert(child.tf.regs@ =~= old(self).kstack_tf.regs@.update(2, 0u32));
            }
            assert(id < 0xf000_0000) by {
                let g = old(self).env_manager.env_count + 1;
                assert(id == g * NENV + idx);
                assert(g * NENV <= 0x10_0000 * 1024) by (nonlinear_arith)
                    requires g <= 0x10_0000, NENV == 1024,
                {}
            }
        }
        id as u32
    }
}

/// What [`Kernel::sys_getchar`] asks of the kernel state.
pub open spec fn spec_sys_getchar_pre(k: Kernel) -> bool {
    &&& (k.wf())
    &&& (exists|i: int|
                0 <= i < k.console_in@.len()
                    && (#[trigger] k.console_in@[i]) != 0)
}

/// What [`Kernel::sys_get_env_id`] asks of the kernel state.
pub open spec fn spec_sys_get_env_id_pre(k: Kernel) -> bool {
    &&& (k.wf())
    &&& (k.env_manager.cur is Some)
}

/// What [`Kernel::sys_set_tlb_mod_entry`] asks of the kernel state.
pub open spec fn spec_sys_set_tlb_mod_entry_pre(k: Kernel, envid: u32) -> bool {
    &&& (k.wf())
    &&& (envid == 0 ==> k.env_manager.cur is Some)
}

/// What [`Kernel::sys_set_env_status`] asks of the kernel state.
pub open spec fn spec_sys_set_env_status_pre(k: Kernel) -> bool {
    &&& (k.wf())
    &&& (k.env_manager.cur is Some)
}

/// What [`Kernel::sys_mem_alloc`] asks of the kernel state.
pub open spec fn spec_sys_mem_alloc_pre(k: Kernel, va: u32) -> bool {
    &&& (k.wf())
    &&& (k.env_manager.cur is Some)
    &&& (k.env_manager.env_at_spec(
                k.env_manager.cur.unwrap().pos as int).status != EnvStatus::Free)
    &&& (k.envs_sound())
    &&& (forall|j: int| 0 <= j < NENV ==> {
                let e = #[trigger] k.env_manager.env_at_spec(j);
                e.status != EnvStatus::Free ==> {
                    &&& va_ok(k.mmu, e.spec_pgdir_ppn(),
                        VA(va as usize).spec_page_base())
                    &&& (crate::map::pde_valid(k.mmu.mem, e.spec_pgdir_ppn(),
                        VA(va as usize).spec_page_base())
                        ==> k.mmu.rc_of(crate::map::pde_of(
                            k.mmu.mem, e.spec_pgdir_ppn(),
                            VA(va as usize).spec_page_base()).spec_ppn()) >= 1)
                }
            })
}

/// What [`Kernel::sys_mem_unmap`] asks of the kernel state.
pub open spec fn spec_sys_mem_unmap_pre(k: Kernel, va: u32) -> bool {
    &&& (k.wf())
    &&& (k.env_manager.cur is Some)
    &&& (k.env_manager.env_at_spec(
                k.env_manager.cur.unwrap().pos as int).status != EnvStatus::Free)
    &&& (k.envs_sound())
    &&& (forall|j: int| 0 <= j < NENV ==> {
                let e = #[trigger] k.env_manager.env_at_spec(j);
                e.status != EnvStatus::Free
                    ==> va_ok(k.mmu, e.spec_pgdir_ppn(), VA(va as usize))
            })
}

/// What [`Kernel::sys_yield`] asks of the kernel state.
pub open spec fn spec_sys_yield_pre(k: Kernel) -> bool {
    &&& (k.wf())
    &&& ((k.env_manager.cur is Some
                && k.env_manager.env_at_spec(
                    k.env_manager.cur.unwrap().pos as int).status
                    == EnvStatus::Runnable) ==> {
                &&& k.env_manager.schedule_list@.len() > 0
                &&& k.env_manager.schedule_list@.first().pos
                    == k.env_manager.env_at_spec(
                        k.env_manager.cur.unwrap().pos as int).id
                        as int % NENV as int
            })
    &&& (crate::schedule::rotated(k).len() > 0)
    &&& (({
                let head = crate::schedule::rotated(k).first();
                let e = k.env_manager.env_at_spec(head.pos as int);
                &&& e.status == EnvStatus::Runnable
                &&& e.pgdir.0 >= KSEG0
                &&& e.runs < 0xffff_ffff
                &&& e.priority >= 1
            }))
}

/// What [`Kernel::sys_ipc_try_send`] asks of the kernel state.
pub open spec fn spec_sys_ipc_try_send_pre(k: Kernel, srcva: u32) -> bool {
    &&& (k.wf())
    &&& (k.env_manager.cur is Some)
    &&& (// when a page travels along, both address spaces must be sound
            srcva != 0 ==> k.env_manager.env_at_spec(
                k.env_manager.cur.unwrap().pos as int).status != EnvStatus::Free)
    &&& (srcva != 0 ==> k.envs_sound())
    &&& (srcva != 0 ==> forall|j: int| 0 <= j < NENV ==> {
                let e = #[trigger] k.env_manager.env_at_spec(j);
                e.status != EnvStatus::Free ==> {
                    &&& e.ipc_info.dstva.spec_page_base().0 < 0x1_0000_0000
                    &&& crate::map::outside_vpt(e.ipc_info.dstva.spec_page_base())
                    &&& va_ok(k.mmu, e.spec_pgdir_ppn(),
                        e.ipc_info.dstva.spec_page_base())
                    &&& (crate::map::va_mapped(
                        k.mmu.mem, e.spec_pgdir_ppn(), VA(srcva as usize))
                        ==> {
                        let p = crate::map::mapped_page(
                            k.mmu.mem, e.spec_pgdir_ppn(), VA(srcva as usize));
                        &&& 0 <= p < k.mmu.npages()
                        &&& 1 <= k.mmu.rc_of(p) < 0xffff
                        &&& !k.mmu.is_free(p)
                    })
                }
            })
    &&& (srcva != 0 ==> forall|j1: int, j2: int|
                0 <= j1 < NENV && 0 <= j2 < NENV ==> {
                    let e1 = #[trigger] k.env_manager.env_at_spec(j1);
                    let e2 = #[trigger] k.env_manager.env_at_spec(j2);
                    (e1.status != EnvStatus::Free && e2.status != EnvStatus::Free
                        && crate::map::va_mapped(
                            k.mmu.mem, e1.spec_pgdir_ppn(), VA(srcva as usize)))
                        ==> crate::map::mapped_page(
                            k.mmu.mem, e1.spec_pgdir_ppn(), VA(srcva as usize))
                            != e2.spec_pgdir_ppn()
                })
}

/// What [`Kernel::sys_mem_map`] asks of the kernel state.
pub open spec fn spec_sys_mem_map_pre(k: Kernel, srcva: u32, dstva: u32) -> bool {
    &&& (k.wf())
    &&& (k.env_manager.cur is Some)
    &&& (k.env_manager.env_at_spec(
                k.env_manager.cur.unwrap().pos as int).status != EnvStatus::Free)
    &&& (k.envs_sound())
    &&& (forall|j: int| 0 <= j < NENV ==> {
                let e = #[trigger] k.env_manager.env_at_spec(j);
                e.status != EnvStatus::Free ==> {
                    &&& va_ok(k.mmu, e.spec_pgdir_ppn(), VA(dstva as usize))
                    &&& (crate::map::va_mapped(
                        k.mmu.mem, e.spec_pgdir_ppn(), VA(srcva as usize))
                        ==> {
                        let p = crate::map::mapped_page(
                            k.mmu.mem, e.spec_pgdir_ppn(), VA(srcva as usize));
                        &&& 0 <= p < k.mmu.npages()
                        &&& 1 <= k.mmu.rc_of(p) < 0xffff
                        &&& !k.mmu.is_free(p)
                    })
                }
            })
    &&& (// distinct address spaces: the shared page is not the
            // destination directory
            forall|j1: int, j2: int|
                0 <= j1 < NENV && 0 <= j2 < NENV ==> {
                    let e1 = #[trigger] k.env_manager.env_at_spec(j1);
                    let e2 = #[trigger] k.env_manager.env_at_spec(j2);
                    (e1.status != EnvStatus::Free && e2.status != EnvStatus::Free
                        && crate::map::va_mapped(
                            k.mmu.mem, e1.spec_pgdir_ppn(), VA(srcva as usize)))
                        ==> crate::map::mapped_page(
                            k.mmu.mem, e1.spec_pgdir_ppn(), VA(srcva as usize))
                            != e2.spec_pgdir_ppn()
                })
}

/// What [`Kernel::sys_env_destroy`] asks of the kernel state.
pub open spec fn spec_sys_env_destroy_pre(k: Kernel) -> bool {
    &&& (k.wf())
    &&& (k.env_manager.cur is Some)
    &&& (k.envs_sound())
    &&& (forall|j: int| 0 <= j < NENV ==> {
                let e = #[trigger] k.env_manager.env_at_spec(j);
                e.status != EnvStatus::Free ==> {
                    &&& crate::env::EnvManager::aspace_sound_for(
                        k.mmu, e.spec_pgdir_ppn())
                    &&& ({
                        let survivors = k.env_manager.schedule_list@.filter(
                            |t: EnvTracker|
                                t.pos != e.id as int % NENV as int);
                        (k.env_manager.cur matches Some(c) && c.pos == e.spec_pos())
                            ==> {
                            &&& survivors.len() > 0
                            &&& survivors.first().pos != j
                            &&& {
                                let h = k.env_manager.env_at_spec(
                                    survivors.first().pos as int);
                                &&& h.status == EnvStatus::Runnable
                                &&& h.pgdir.0 >= KSEG0
                                &&& h.runs < 0xffff_ffff
                                &&& h.priority >= 1
                            }
                        }
                    })
                }
            })
}

/// What [`Kernel::sys_exofork`] asks of the kernel state.
pub open spec fn spec_sys_exofork_pre(k: Kernel) -> bool {
    &&& (k.wf())
    &&& (k.env_manager.cur is Some)
    &&& (k.env_manager.env_count < 0xf_ffff)
    &&& (k.env_manager.base_windows_ok(k.mmu))
    &&& (k.mmu.npages() <= 0x80000)
}

impl Kernel {
    /// The system-call gate: decodes the call number and hands the
    /// arguments to its handler. A number past the table answers
    /// `NoSys` and changes nothing; so do the console, device, blocking
    /// and pool calls, whose kernel sides live outside this core.
    #[verifier::rlimit(100)]
    #[verifier::spinoff_prover]
    pub fn do_syscall(&mut self, no: u32, a1: u32, a2: u32, a3: u32, a4: u32, a5: u32) -> (r: u32)
        requires
            old(self).wf(),
            Syscall::spec_from_u32(no) == Syscall::Getchar ==> spec_sys_getchar_pre(*old(self)),
            Syscall::spec_from_u32(no) == Syscall::GetEnvId ==> spec_sys_get_env_id_pre(*old(self)),
            Syscall::spec_from_u32(no) == Syscall::SetTlbModEntry
                ==> spec_sys_set_tlb_mod_entry_pre(*old(self), a1),
            Syscall::spec_from_u32(no) == Syscall::SetEnvStatus
                ==> spec_sys_set_env_status_pre(*old(self)),
            Syscall::spec_from_u32(no) == Syscall::MemAlloc
                ==> spec_sys_mem_alloc_pre(*old(self), a2),
            Syscall::spec_from_u32(no) == Syscall::MemUnmap
                ==> spec_sys_mem_unmap_pre(*old(self), a2),
            Syscall::spec_from_u32(no) == Syscall::Yield ==> spec_sys_yield_pre(*old(self)),
            Syscall::spec_from_u32(no) == Syscall::IpcTrySend
                ==> spec_sys_ipc_try_send_pre(*old(self), a3),
            Syscall::spec_from_u32(no) == Syscall::MemMap
                ==> spec_sys_mem_map_pre(*old(self), a2, a4),
            Syscall::spec_from_u32(no) == Syscall::EnvDestroy
                ==> spec_sys_env_destroy_pre(*old(self)),
            Syscall::spec_from_u32(no) == Syscall::Exofork ==> spec_sys_exofork_pre(*old(self)),
        ensures
            (match Syscall::spec_from_u32(no) {
                Syscall::Unhandled | Syscall::PrintConsole | Syscall::SetTrapframe
                | Syscall::Panic | Syscall::IpcRecv | Syscall::WriteDev | Syscall::ReadDev
                | Syscall::MempoolOp => {
                    &&& r == MosError::NoSys.spec_to_u32()
                    &&& *final(self) == *old(self)
                },
                _ => true,
            }),
    {
        match Syscall::from_u32(no) {
            Syscall::Putchar => self.sys_putchar(a1, a2, a3, a4, a5),
            Syscall::GetEnvId => self.sys_get_env_id(a1, a2, a3, a4, a5),
            Syscall::Yield => self.sys_yield(a1, a2, a3, a4, a5),
            Syscall::EnvDestroy => self.sys_env_destroy(a1, a2, a3, a4, a5).0,
            Syscall::SetTlbModEntry => self.sys_set_tlb_mod_entry(a1, a2, a3, a4, a5),
            Syscall::MemAlloc => self.sys_mem_alloc(a1, a2, a3, a4, a5),
            Syscall::MemMap => self.sys_mem_map(a1, a2, a3, a4, a5),
            Syscall::MemUnmap => self.sys_mem_unmap(a1, a2, a3, a4, a5),
            Syscall::Exofork => self.sys_exofork(a1, a2, a3, a4, a5),
            Syscall::SetEnvStatus => self.sys_set_env_status(a1, a2, a3, a4, a5),
            Syscall::IpcTrySend => self.sys_ipc_try_send(a1, a2, a3, a4, a5),
            Syscall::Getchar => self.sys_getchar(a1, a2, a3, a4, a5),
            Syscall::PrintConsole | Syscall::SetTrapframe | Syscall::Panic
            | Syscall::IpcRecv | Syscall::WriteDev | Syscall::ReadDev
            | Syscall::MempoolOp | Syscall::Unhandled => err_ret(MosError::NoSys),
        }
    }
}

} // verus!
