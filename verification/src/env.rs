//! Environment (process) control blocks and their manager: the free list,
//! the schedule list, the ASID bitmap, and the address-space lifecycle.

use vstd::prelude::*;
use crate::addr::{PA, PPN, VA};
use crate::error::MosError;
use crate::ipc::IpcInfo;
use crate::layout::{KSEG0, NASID, PAGE_SIZE, PAGE_WORDS, PDMAP, PteFlags, UENVS, UPAGES, USTACKTOP, UTOP, UVPT};
use crate::map::{dir_ok, pde_of, pde_valid, pte_of, va_mapped, va_ok, PageDirectory, Pte, UVPT_PDX};
use crate::mmu::Mmu;
use crate::page::Page;
use crate::trapframe::Trapframe;

verus! {

/// Number of environment slots.
pub const NENV: usize = 1024;

/// The page-directory index of `UTOP`: the first slot at or above it
/// belongs to the kernel-shared windows, not to user mappings.
pub const UTOP_PDX: usize = UTOP / PDMAP % PAGE_WORDS;

/// CP0 status value seeded into a fresh environment's trap frame: timer
/// interrupt mask, interrupts enabled, exception level, user mode.
pub const ENV_INIT_STATUS: u32 = 0x8013;

/// A process control block's lifecycle state.
#[derive(Clone, Copy, Debug, PartialEq, Eq, Structural)]
pub enum EnvStatus {
    /// The slot is unused.
    Free,
    /// The environment can be scheduled.
    Runnable,
    /// The environment exists but must not be scheduled.
    NotRunnable,
}

/// A process control block: saved trap frame, identity, address space and
/// scheduling state.
#[derive(Clone, Copy, Debug)]
pub struct Env {
    /// The saved user register state.
    pub tf: Trapframe,
    /// The environment id: a generation counter packed with the slot index.
    pub id: usize,
    /// The address-space identifier owned by this environment.
    pub asid: usize,
    /// The id of the parent environment.
    pub parent_id: usize,
    /// The lifecycle state.
    pub status: EnvStatus,
    /// Kernel virtual address of the page directory.
    pub pgdir: VA,
    /// Scheduling priority, used as the quantum length.
    pub priority: u32,
    /// The IPC mailbox.
    pub ipc_info: IpcInfo,
    /// Entry point of the user's TLB-modified fault handler, 0 if none.
    pub user_tlb_mod_entry: usize,
    /// How many times this environment has been scheduled.
    pub runs: u32,
}

impl Env {
    /// An empty control block.
    pub fn new() -> (r: Self)
        ensures
            r.id == 0,
            r.asid == 0,
            r.parent_id == 0,
            r.status == EnvStatus::Free,
            r.pgdir.0 == 0,
            r.priority == 0,
            r.user_tlb_mod_entry == 0,
            r.runs == 0,
            forall|i: int| 0 <= i < 32 ==> r.tf.regs@[i] == 0,
            r.tf.cp0_status == 0 && r.tf.hi == 0 && r.tf.lo == 0 && r.tf.cp0_badvaddr == 0
                && r.tf.cp0_cause == 0 && r.tf.cp0_epc == 0,
            r.ipc_info == (IpcInfo {
                value: 0,
                from: 0,
                recving: crate::ipc::IpcStatus::NotReceiving,
                dstva: VA(0),
                perm: 0,
            }),
    {
        Env {
            tf: Trapframe::new(),
            id: 0,
            asid: 0,
            parent_id: 0,
            status: EnvStatus::Free,
            pgdir: VA(0),
            priority: 0,
            ipc_info: IpcInfo::new(),
            user_tlb_mod_entry: 0,
            runs: 0,
        }
    }

    /// The slot index packed into the environment's id.
    pub open spec fn spec_pos(self) -> int {
        self.id as int % NENV as int
    }

    /// The slot index packed into the environment's id.
    pub fn pos(&self) -> (r: usize)
        ensures
            r == self.spec_pos(),
            r < NENV,
    {
        self.id % NENV
    }

    /// The directory page number behind the `pgdir` kernel address.
    pub open spec fn spec_pgdir_ppn(self) -> int {
        (self.pgdir.0 - KSEG0) / PAGE_SIZE as int
    }

    /// The environment's page directory.
    pub fn pgdir(&self) -> (r: PageDirectory)
        requires
            self.pgdir.0 >= KSEG0,
        ensures
            r.dir() == self.spec_pgdir_ppn(),
    {
        PageDirectory { page: Page::new(PPN::from(self.pgdir.paddr())) }
    }

    /// The handle used on the free and schedule lists for this block.
    pub fn tracker(&self) -> (r: EnvTracker)
        ensures
            r.pos == self.spec_pos(),
    {
        EnvTracker::new(self.pos())
    }

    /// Whether the environment can be scheduled.
    pub fn runnable(&self) -> (r: bool)
        ensures
            r == (self.status == EnvStatus::Runnable),
    {
        self.status == EnvStatus::Runnable
    }

    /// Registers the user-space TLB-modified fault handler.
    pub fn set_tlb_mod_entry(&mut self, entry: usize)
        ensures
            *final(self) == (Env { user_tlb_mod_entry: entry, ..*old(self) }),
    {
        self.user_tlb_mod_entry = entry;
    }
}

/// The slot index of the environment with id `id`.
pub fn envx(id: usize) -> (r: usize)
    ensures
        r == id as int % NENV as int,
        r < NENV,
{
    id % NENV
}

/// A lightweight handle on an environment slot, used on the free and
/// schedule lists instead of a reference.
#[derive(Clone, Copy, Debug, PartialEq, Eq, Structural)]
pub struct EnvTracker {
    /// The slot index.
    pub pos: usize,
}

impl EnvTracker {
    /// A handle on slot `pos`.
    pub fn new(pos: usize) -> (r: Self)
        ensures
            r.pos == pos,
    {
        EnvTracker { pos }
    }
}

/// The fixed array of environment control blocks.
pub struct Envs {
    /// The blocks, one per slot.
    pub env_array: Vec<Env>,
}

/// The environment manager: the control-block array, the free and schedule
/// lists, the ASID bitmap, and the base (kernel-shared) page directory.
pub struct EnvManager {
    /// The control blocks.
    pub envs: Envs,
    /// The kernel-shared page directory whose upper entries every address
    /// space inherits.
    pub base_pgdir: PageDirectory,
    /// Free slots; the last entry is handed out first.
    pub free_list: Vec<EnvTracker>,
    /// Runnable environments in round-robin order.
    pub schedule_list: Vec<EnvTracker>,
    /// The currently running environment, if any.
    pub cur: Option<EnvTracker>,
    /// The page directory of the current address space, published for the
    /// TLB refill path.
    pub cur_pgdir: PageDirectory,
    /// Which ASIDs are owned by a live environment.
    pub asid_bitmap: Vec<bool>,
    /// Generation counter for environment ids.
    pub env_count: usize,
}

impl EnvManager {
    /// Basic shape: full array, full bitmap, list entries in range.
    pub open spec fn wf(self) -> bool {
        &&& self.envs.env_array@.len() == NENV
        &&& self.asid_bitmap@.len() == NASID
        &&& (forall|i: int|
            0 <= i < self.free_list@.len() ==> (#[trigger] self.free_list@[i]).pos < NENV)
        &&& (forall|i: int|
            0 <= i < self.schedule_list@.len()
                ==> (#[trigger] self.schedule_list@[i]).pos < NENV)
        &&& self.env_count <= 0xf_ffff
        &&& (self.cur matches Some(t) ==> t.pos < NENV)
    }

    /// The control block of slot `i`.
    pub open spec fn env_at_spec(self, i: int) -> Env {
        self.envs.env_array@[i]
    }

    /// A fresh manager: all slots free and empty, nothing scheduled, no
    /// ASID taken.
    pub fn new() -> (r: Self)
        ensures
            r.wf(),
            r.free_list@.len() == 0,
            r.schedule_list@.len() == 0,
            r.cur is None,
            r.env_count == 0,
            forall|i: int| 0 <= i < NENV ==> (#[trigger] r.env_at_spec(i)).status == EnvStatus::Free,
            forall|i: int| 0 <= i < NASID ==> !(#[trigger] r.asid_bitmap@[i]),
    {
        let mut env_array: Vec<Env> = Vec::new();
        let mut i: usize = 0;
        while i < NENV
            invariant
                i <= NENV,
                env_array@.len() == i,
                forall|k: int| 0 <= k < i ==> (#[trigger] env_array@[k]).status == EnvStatus::Free,
            decreases NENV - i,
        {
            env_array.push(Env::new());
            i = i + 1;
        }
        let asid_bitmap = vec![false; NASID];
        EnvManager {
            envs: Envs { env_array },
            base_pgdir: PageDirectory::empty(),
            free_list: Vec::new(),
            schedule_list: Vec::new(),
            cur: None,
            cur_pgdir: PageDirectory::empty(),
            asid_bitmap,
            env_count: 0,
        }
    }

    /// Reads the control block of slot `idx`.
    pub fn env_at(&self, idx: usize) -> (r: &Env)
        requires
            self.wf(),
            idx < NENV,
        ensures
            *r == self.env_at_spec(idx as int),
    {
        &self.envs.env_array[idx]
    }

    /// The slot index of the current environment, if one is running.
    pub fn curenv(&self) -> (r: Option<usize>)
        ensures
            r == match self.cur {
                Some(t) => Some(t.pos),
                None => None::<usize>,
            },
    {
        match self.cur {
            Some(t) => Some(t.pos),
            None => None,
        }
    }

    /// The page directory of the current address space.
    pub fn cur_pgdir(&self) -> (r: PageDirectory)
        ensures
            r == self.cur_pgdir,
    {
        self.cur_pgdir
    }

    /// Pops a free slot, preferring low slot numbers. Fails with
    /// `NoFreeEnv` exactly when no slot is free.
    pub fn get_free_env(&mut self) -> (r: Result<usize, MosError>)
        requires
            old(self).wf(),
        ensures
            final(self).wf(),
            match r {
                Ok(idx) => {
                    &&& old(self).free_list@.len() > 0
                    &&& idx == old(self).free_list@.last().pos
                    &&& idx < NENV
                    &&& final(self).free_list@ == old(self).free_list@.drop_last()
                    &&& *final(self) == (EnvManager {
                        free_list: final(self).free_list,
                        ..*old(self)
                    })
                },
                Err(e) => {
                    &&& e == MosError::NoFreeEnv
                    &&& old(self).free_list@.len() == 0
                    &&& *final(self) == *old(self)
                },
            },
    {
        if self.free_list.len() == 0 {
            return Err(MosError::NoFreeEnv);
        }
        let t = self.free_list.pop().unwrap();
        Ok(t.pos)
    }

    /// Whether `id` names a live environment: 0 meaning the caller, any
    /// other value only when the slot it packs still holds that exact id.
    pub open spec fn spec_resolves(self, id: int) -> bool {
        id == 0 || {
            let e = self.env_at_spec(id % NENV as int);
            e.status != EnvStatus::Free && e.id == id
        }
    }

    /// The slot `id` resolves to.
    pub open spec fn spec_resolved(self, id: int) -> int {
        if id == 0 {
            self.cur.unwrap().pos as int
        } else {
            id % NENV as int
        }
    }

    /// Whether the caller may act on the environment `id` resolves to:
    /// the target is the caller itself or its direct child.
    pub open spec fn spec_permitted(self, id: int) -> bool {
        id == 0 || {
            let cur = self.env_at_spec(self.cur.unwrap().pos as int);
            let e = self.env_at_spec(id % NENV as int);
            cur.id == e.id || cur.id == e.parent_id
        }
    }

    /// Resolves an environment id to its slot, rejecting stale ids. Id 0
    /// means the caller itself; with `check_perm` the caller must be the
    /// target or its direct parent.
    pub fn env_from_id(&self, id: usize, check_perm: bool) -> (r: Result<usize, MosError>)
        requires
            self.wf(),
            id == 0 || check_perm ==> self.cur is Some,
        ensures
            r is Ok <==> self.spec_resolves(id as int)
                && (check_perm ==> self.spec_permitted(id as int)),
            r matches Ok(idx) ==> idx == self.spec_resolved(id as int),
            match r {
                Ok(idx) => {
                    &&& idx < NENV
                    &&& (id == 0 ==> (self.cur matches Some(t) && idx == t.pos))
                    &&& (id != 0 ==> {
                        &&& idx == id as int % NENV as int
                        &&& self.env_at_spec(idx as int).status != EnvStatus::Free
                        &&& self.env_at_spec(idx as int).id == id
                    })
                },
                Err(e) => {
                    &&& e == MosError::BadEnv
                    &&& id != 0
                    &&& {
                        let idx = id as int % NENV as int;
                        ||| self.env_at_spec(idx).status == EnvStatus::Free
                        ||| self.env_at_spec(idx).id != id
                        ||| (check_perm && {
                            let cur = self.env_at_spec(self.cur.unwrap().pos as int);
                            cur.id != id && cur.id != self.env_at_spec(idx).parent_id
                        })
                    }
                },
            },
    {
        if id == 0 {
            let cur = self.curenv().unwrap();
            return Ok(cur);
        }
        let pos = envx(id);
        let env = self.env_at(pos);
        if matches!(env.status, EnvStatus::Free) || env.id != id {
            return Err(MosError::BadEnv);
        }
        if check_perm {
            let cur = self.curenv().unwrap();
            let cur_env = self.env_at(cur);
            if cur_env.id != env.id && cur_env.id != env.parent_id {
                return Err(MosError::BadEnv);
            }
        }
        Ok(pos)
    }

    /// Allocates a fresh ASID, the lowest free one. Fails exactly when all
    /// are owned.
    fn asid_alloc(&mut self) -> (r: Result<usize, MosError>)
        requires
            old(self).wf(),
        ensures
            final(self).wf(),
            match r {
                Ok(a) => {
                    &&& a < NASID
                    &&& !old(self).asid_bitmap@[a as int]
                    &&& (forall|j: int| 0 <= j < a ==> old(self).asid_bitmap@[j])
                    &&& final(self).asid_bitmap@ == old(self).asid_bitmap@.update(a as int, true)
                    &&& *final(self) == (EnvManager {
                        asid_bitmap: final(self).asid_bitmap,
                        ..*old(self)
                    })
                },
                Err(e) => {
                    &&& e == MosError::NoFreeEnv
                    &&& (forall|j: int| 0 <= j < NASID ==> old(self).asid_bitmap@[j])
                    &&& *final(self) == *old(self)
                },
            },
    {
        let mut i: usize = 0;
        while i < NASID
            invariant
                i <= NASID,
                self.wf(),
                *self == *old(self),
                forall|j: int| 0 <= j < i ==> old(self).asid_bitmap@[j],
            decreases NASID - i,
        {
            if !self.asid_bitmap[i] {
                self.asid_bitmap[i] = true;
                return Ok(i);
            }
            i = i + 1;
        }
        Err(MosError::NoFreeEnv)
    }

    /// Releases an ASID.
    fn asid_free(&mut self, asid: usize)
        requires
            old(self).wf(),
            asid < NASID,
        ensures
            final(self).wf(),
            final(self).asid_bitmap@ == old(self).asid_bitmap@.update(asid as int, false),
            *final(self) == (EnvManager { asid_bitmap: final(self).asid_bitmap, ..*old(self) }),
    {
        self.asid_bitmap[asid] = false;
    }

    /// A fresh environment id for slot `pos`: the bumped generation
    /// counter shifted past the ten slot-index bits.
    fn mkenvid(&mut self, pos: usize) -> (r: usize)
        requires
            old(self).wf(),
            old(self).env_count < 0xf_ffff,
            pos < NENV,
        ensures
            final(self).wf(),
            final(self).env_count == old(self).env_count + 1,
            r == (old(self).env_count + 1) * NENV + pos,
            r as int % NENV as int == pos,
            r != 0,
            *final(self) == (EnvManager { env_count: final(self).env_count, ..*old(self) }),
    {
        self.env_count = self.env_count + 1;
        let r = self.env_count * NENV + pos;
        proof {
            vstd::arithmetic::div_mod::lemma_fundamental_div_mod_converse(
                r as int, NENV as int, self.env_count as int, pos as int);
        }
        r
    }

    /// The first environment on the schedule list, if any.
    pub fn get_first(&self) -> (r: Option<usize>)
        requires
            self.wf(),
        ensures
            r == if self.schedule_list@.len() > 0 {
                Some(self.schedule_list@.first().pos)
            } else {
                None::<usize>
            },
            r matches Some(idx) ==> idx < NENV,
    {
        if self.schedule_list.len() > 0 {
            Some(self.schedule_list[0].pos)
        } else {
            None
        }
    }

    /// Appends the environment with id `envid` to the schedule list.
    pub fn insert_to_end(&mut self, envid: usize)
        requires
            old(self).wf(),
        ensures
            final(self).wf(),
            final(self).schedule_list@
                == old(self).schedule_list@.push(EnvTracker { pos: (envid % NENV) as usize }),
            *final(self) == (EnvManager {
                schedule_list: final(self).schedule_list,
                ..*old(self)
            }),
    {
        let pos = envx(envid);
        self.schedule_list.push(EnvTracker::new(pos));
    }

    /// Removes the environment with id `envid` from the schedule list,
    /// keeping the order of the others.
    pub fn remove_from_schedule(&mut self, envid: usize)
        requires
            old(self).wf(),
        ensures
            final(self).wf(),
            final(self).schedule_list@
                == old(self).schedule_list@.filter(
                    |t: EnvTracker| t.pos != envid as int % NENV as int),
            *final(self) == (EnvManager {
                schedule_list: final(self).schedule_list,
                ..*old(self)
            }),
    {
        let pos = envx(envid);
        let n = self.schedule_list.len();
        let mut kept: Vec<EnvTracker> = Vec::new();
        let mut i: usize = 0;
        proof {
            assert(self.schedule_list@.take(0int)
                =~= Seq::<EnvTracker>::empty());
            assert(Seq::<EnvTracker>::empty().filter(
                |t: EnvTracker| t.pos != envid as int % NENV as int) =~= Seq::<EnvTracker>::empty());
        }
        while i < n
            invariant
                i <= n,
                pos == envid as int % NENV as int,
                n == self.schedule_list@.len(),
                self.wf(),
                forall|k: int| 0 <= k < kept@.len() ==> (#[trigger] kept@[k]).pos < NENV,
                kept@ == self.schedule_list@.take(i as int).filter(
                    |t: EnvTracker| t.pos != envid as int % NENV as int),
            decreases n - i,
        {
            let e = self.schedule_list[i];
            proof {
                reveal_with_fuel(Seq::filter, 2);
                assert(self.schedule_list@.take(i + 1).drop_last()
                    =~= self.schedule_list@.take(i as int));
                assert(self.schedule_list@.take(i + 1).last() == e);
            }
            if e.pos != pos {
                kept.push(e);
            }
            i = i + 1;
        }
        proof {
            assert(self.schedule_list@.take(n as int) =~= self.schedule_list@);
        }
        self.schedule_list = kept;
    }

    /// Rotates the current environment, which must stand at the front of
    /// the schedule list, to the back.
    pub fn move_to_end(&mut self, pos: usize)
        requires
            old(self).wf(),
            old(self).schedule_list@.len() > 0,
            old(self).schedule_list@.first().pos == pos,
        ensures
            final(self).wf(),
            final(self).schedule_list@
                == old(self).schedule_list@.drop_first().push(old(self).schedule_list@.first()),
            *final(self) == (EnvManager {
                schedule_list: final(self).schedule_list,
                ..*old(self)
            }),
    {
        let t = self.schedule_list.remove(0);
        self.schedule_list.push(t);
        proof {
            assert(self.schedule_list@
                =~= old(self).schedule_list@.drop_first().push(old(self).schedule_list@.first()));
        }
    }
}


/// The `k`-th page address of a segment starting at `va`.
pub open spec fn seg_va(va: VA, k: int) -> VA {
    VA((va.0 + k * PAGE_SIZE) as usize)
}

/// Within a directory-aligned window, page `k` keeps the window's
/// directory index and has table index `k`.
proof fn lemma_seg_indices(va: VA, k: int)
    requires
        va.0 as int % crate::layout::PDMAP as int == 0,
        va.0 + crate::layout::PDMAP <= 0x1_0000_0000,
        0 <= k < PAGE_WORDS,
    ensures
        seg_va(va, k).spec_pdx() == va.spec_pdx(),
        seg_va(va, k).spec_ptx() == k,
        seg_va(va, k).0 == va.0 + k * PAGE_SIZE,
        seg_va(va, k).0 < 0x1_0000_0000,
    decreases k,
{
    let pd = crate::layout::PDMAP as int;
    let v = va.0 as int;
    vstd::arithmetic::div_mod::lemma_fundamental_div_mod(v, pd);
    let m = v / pd;
    assert(v == pd * m);
    assert(m >= 0) by (nonlinear_arith)
        requires v >= 0, v == pd * m, pd > 0,
    {}
    assert(0 <= k * PAGE_SIZE < pd) by (nonlinear_arith)
        requires 0 <= k < 1024, PAGE_SIZE == 4096, pd == 0x40_0000,
    {}
    let vk = v + k * PAGE_SIZE;
    assert(pd * m == m * pd) by (nonlinear_arith) {}
    vstd::arithmetic::div_mod::lemma_fundamental_div_mod_converse(vk, pd, m, k * PAGE_SIZE);
    vstd::arithmetic::div_mod::lemma_fundamental_div_mod_converse(v, pd, m, 0);
    // both addresses have directory index m % PAGE_WORDS
    assert(seg_va(va, k).spec_pdx() == m % PAGE_WORDS as int);
    assert(va.spec_pdx() == m % PAGE_WORDS as int);
    // table index: vk / PAGE_SIZE == m * PAGE_WORDS + k
    assert(vk == PAGE_SIZE as int * (m * PAGE_WORDS as int + k) + 0) by (nonlinear_arith)
        requires
            vk == v + k * PAGE_SIZE,
            v == pd * m,
            pd == 0x40_0000,
            PAGE_SIZE == 4096,
            PAGE_WORDS == 1024,
    {}
    vstd::arithmetic::div_mod::lemma_fundamental_div_mod_converse(
        vk, PAGE_SIZE as int, m * PAGE_WORDS as int + k, 0);
    assert(m * PAGE_WORDS as int + k == PAGE_WORDS as int * m + k) by (nonlinear_arith) {}
    vstd::arithmetic::div_mod::lemma_fundamental_div_mod_converse(
        m * PAGE_WORDS as int + k, PAGE_WORDS as int, m, k);
}

/// Maps the physical range `[pa, pa + size)` at `[va, va + size)` in
/// `pgdir`, with `flags` plus the valid bit, one page at a time.
///
/// The window must lie within a single directory entry below the `UVPT`
/// window, be unmapped, and cover only referenced (kernel-owned) pages.
/// Fails with `NoMem`, leaving a prefix mapped, exactly when a table page
/// was needed and no page was free.
#[verifier::rlimit(60)]
#[verifier::spinoff_prover]
pub fn map_segment(
    mmu: &mut Mmu,
    pgdir: PageDirectory,
    asid: usize,
    pa: PA,
    va: VA,
    size: usize,
    flags: PteFlags,
) -> (r: Result<(), MosError>)
    requires
        old(mmu).wf(),
        dir_ok(old(mmu).mem, pgdir.dir()),
        old(mmu).rc_of(pgdir.dir()) >= 1,
        forall|i: int|
            0 <= i < PAGE_WORDS ==> {
                let pde = Pte(#[trigger] old(mmu).mem.word(pgdir.dir(), i));
                pde.spec_flags().v ==> old(mmu).rc_of(pde.spec_ppn()) >= 1
            },
        asid < NASID,
        pa.0 as int % PAGE_SIZE as int == 0,
        va.0 as int % crate::layout::PDMAP as int == 0,
        va.0 < UVPT,
        size as int % PAGE_SIZE as int == 0,
        size <= crate::layout::PDMAP,
        pa.0 as int / PAGE_SIZE as int + size as int / PAGE_SIZE as int <= old(mmu).npages(),
        forall|k: int|
            0 <= k < size as int / PAGE_SIZE as int
                ==> 1 <= (#[trigger] old(mmu).rc_of(pa.0 as int / PAGE_SIZE as int + k)) < 0xffff
                    && pa.0 as int / PAGE_SIZE as int + k != pgdir.dir(),
        forall|k: int|
            0 <= k < size as int / PAGE_SIZE as int
                ==> !va_mapped(old(mmu).mem, pgdir.dir(), #[trigger] seg_va(va, k)),
        !pde_valid(old(mmu).mem, pgdir.dir(), va),
    ensures
        final(mmu).wf(),
        final(mmu).npages() == old(mmu).npages(),
        dir_ok(final(mmu).mem, pgdir.dir()),
        final(mmu).rc_of(pgdir.dir()) == old(mmu).rc_of(pgdir.dir()),
        forall|k2: int|
            0 <= k2 < PAGE_WORDS && k2 != va.spec_pdx()
                ==> #[trigger] final(mmu).mem.word(pgdir.dir(), k2)
                    == old(mmu).mem.word(pgdir.dir(), k2),
        forall|p: int, k2: int|
            0 <= p < old(mmu).npages() && 0 <= k2 < PAGE_WORDS && p != pgdir.dir()
                && !old(mmu).is_free(p)
                ==> #[trigger] final(mmu).mem.word(p, k2) == old(mmu).mem.word(p, k2),
        forall|p: int|
            0 <= p < old(mmu).npages() && !old(mmu).is_free(p)
                && !(pa.0 as int / PAGE_SIZE as int <= p
                    < pa.0 as int / PAGE_SIZE as int + size as int / PAGE_SIZE as int)
                ==> (#[trigger] final(mmu).rc_of(p)) == old(mmu).rc_of(p),
        forall|i: int|
            0 <= i < PAGE_WORDS ==> {
                let pde = Pte(#[trigger] final(mmu).mem.word(pgdir.dir(), i));
                pde.spec_flags().v ==> final(mmu).rc_of(pde.spec_ppn()) >= 1
            },
        match r {
            Ok(()) => forall|k: int|
                0 <= k < size as int / PAGE_SIZE as int ==> {
                    &&& va_mapped(final(mmu).mem, pgdir.dir(), #[trigger] seg_va(va, k))
                    &&& crate::map::mapped_page(final(mmu).mem, pgdir.dir(), seg_va(va, k))
                        == pa.0 as int / PAGE_SIZE as int + k
                    &&& crate::map::pte_of(final(mmu).mem, pgdir.dir(),
                        seg_va(va, k)).spec_flags()
                        == flags.spec_or(PteFlags {
                            v: true,
                            c0: true,
                            c1: true,
                            ..PteFlags::spec_empty()
                        })
                    &&& final(mmu).rc_of(pa.0 as int / PAGE_SIZE as int + k)
                        == old(mmu).rc_of(pa.0 as int / PAGE_SIZE as int + k) + 1
                },
            Err(e) => e == MosError::NoMem,
        },
        // the mapping fails exactly when a table page was needed and none
        // was free; on success only the one fresh table page left the
        // free lists
        r is Err <==> size > 0 && (forall|q: int| !old(mmu).is_free(q)),
        r is Ok && size > 0 ==> exists|tp: int|
            #[trigger] old(mmu).is_free(tp)
                && (forall|q: int|
                    #[trigger] final(mmu).is_free(q) <==> (old(mmu).is_free(q) && q != tp)),
        r is Ok && size == 0 ==> *final(mmu) == *old(mmu),
        // the one fresh table is the window's new directory entry
        r is Ok && size > 0 ==> pde_valid(final(mmu).mem, pgdir.dir(), va)
            && old(mmu).is_free(pde_of(final(mmu).mem, pgdir.dir(), va).spec_ppn()),
{
    let n = size / PAGE_SIZE;
    let base = pa.0 / PAGE_SIZE;
    let mflags = flags.or(PteFlags::flag_v());
    let mut k: usize = 0;
    proof {
        assert(va.0 + crate::layout::PDMAP <= 0x1_0000_0000);
    }
    while k < n
        invariant
            k <= n,
            n == size as int / PAGE_SIZE as int,
            n <= PAGE_WORDS,
            base == pa.0 as int / PAGE_SIZE as int,
            base + n <= old(mmu).npages(),
            va.0 as int % crate::layout::PDMAP as int == 0,
            va.0 < UVPT,
            va.0 + crate::layout::PDMAP <= 0x1_0000_0000,
            asid < NASID,
            mflags == flags.spec_or(PteFlags { v: true, ..PteFlags::spec_empty() }),
            mmu.wf(),
            mmu.npages() == old(mmu).npages(),
            dir_ok(mmu.mem, pgdir.dir()),
            mmu.rc_of(pgdir.dir()) == old(mmu).rc_of(pgdir.dir()),
            old(mmu).rc_of(pgdir.dir()) >= 1,
            0 <= pgdir.dir() < old(mmu).npages(),
            forall|j: int|
                0 <= j < n
                    ==> 1 <= (#[trigger] old(mmu).rc_of(base + j)) < 0xffff
                        && base + j != pgdir.dir(),
            forall|j: int|
                k <= j < n
                    ==> !va_mapped(mmu.mem, pgdir.dir(), #[trigger] seg_va(va, j)),
            forall|j: int|
                k <= j < n
                    ==> (#[trigger] mmu.rc_of(base + j)) == old(mmu).rc_of(base + j),
            forall|j: int|
                0 <= j < k ==> {
                    &&& va_mapped(mmu.mem, pgdir.dir(), #[trigger] seg_va(va, j))
                    &&& crate::map::mapped_page(mmu.mem, pgdir.dir(), seg_va(va, j))
                        == base + j
                    &&& crate::map::pte_of(mmu.mem, pgdir.dir(), seg_va(va, j)).spec_flags()
                        == flags.spec_or(PteFlags {
                            v: true,
                            c0: true,
                            c1: true,
                            ..PteFlags::spec_empty()
                        })
                    &&& mmu.rc_of(base + j) == old(mmu).rc_of(base + j) + 1
                },
            k == 0 ==> *mmu == *old(mmu),
            k > 0 ==> exists|tp: int|
                #[trigger] old(mmu).is_free(tp)
                    && (forall|q: int|
                        #[trigger] mmu.is_free(q) <==> (old(mmu).is_free(q) && q != tp)),
            k == 0 ==> !pde_valid(mmu.mem, pgdir.dir(), va),
            k > 0 ==> pde_valid(mmu.mem, pgdir.dir(), va)
                && old(mmu).is_free(pde_of(mmu.mem, pgdir.dir(), va).spec_ppn()),
            forall|k2: int|
                0 <= k2 < PAGE_WORDS && k2 != va.spec_pdx()
                    ==> #[trigger] mmu.mem.word(pgdir.dir(), k2)
                        == old(mmu).mem.word(pgdir.dir(), k2),
            forall|p: int, k2: int|
                0 <= p < old(mmu).npages() && 0 <= k2 < PAGE_WORDS && p != pgdir.dir()
                    && !old(mmu).is_free(p)
                    ==> #[trigger] mmu.mem.word(p, k2) == old(mmu).mem.word(p, k2),
            forall|p: int|
                0 <= p < old(mmu).npages() && !old(mmu).is_free(p)
                    && !(base <= p < base + n)
                    ==> (#[trigger] mmu.rc_of(p)) == old(mmu).rc_of(p),
            forall|i2: int|
                0 <= i2 < PAGE_WORDS ==> {
                    let pde = Pte(#[trigger] mmu.mem.word(pgdir.dir(), i2));
                    pde.spec_flags().v ==> mmu.rc_of(pde.spec_ppn()) >= 1
                },
            forall|q2: int| #[trigger] mmu.is_free(q2) ==> old(mmu).is_free(q2),
        decreases n - k,
    {
        proof {
            lemma_seg_indices(va, k as int);
            crate::map::lemma_outside_vpt_pdx(seg_va(va, k as int));
        }
        let page = Page::new(PPN(base + k));
        let target = VA(va.0 + k * PAGE_SIZE);
        proof {
            // the target is unmapped, so the change precondition is vacuous
            assert(va_ok(*mmu, pgdir.dir(), target));
            // a referenced page is not free
            assert(mmu.rc_of(base + k as int) == old(mmu).rc_of(base + k as int));
            assert(old(mmu).rc_of(base + k as int) >= 1);
            if mmu.is_free(base + k as int) {
                let (i2, j2) = choose|i2: int, j2: int|
                    mmu.allocator.block_in_range(i2, j2)
                        && #[trigger] mmu.allocator.covers(i2, j2, base + k as int);
                assert(false);
            }
        }
        let ghost pre = *mmu;
        let res = pgdir.insert(mmu, asid, page, target, mflags);
        if res.is_err() {
            proof {
                let d = pgdir.dir();
                assert(mmu.mem == pre.mem && mmu.allocator == pre.allocator);
                // only the very first insertion can fail, for want of a
                // free table page
                assert(k == 0) by {
                    if k > 0 {
                        assert(pde_valid(pre.mem, d, target)) by {
                            assert(seg_va(va, k as int).spec_pdx() == va.spec_pdx());
                        }
                    }
                }
                assert(pre == *old(mmu));
                assert forall|q: int| !old(mmu).is_free(q) by {
                    assert(!pre.is_free(q));
                }
                assert forall|p: int|
                    0 <= p < old(mmu).npages() && !old(mmu).is_free(p)
                        && !(base <= p < base + n)
                        implies (#[trigger] mmu.rc_of(p)) == old(mmu).rc_of(p) by {
                    assert(mmu.rc_of(p) == pre.rc_of(p));
                }
                assert forall|k2: int|
                    0 <= k2 < PAGE_WORDS && k2 != va.spec_pdx()
                        implies #[trigger] mmu.mem.word(d, k2)
                            == old(mmu).mem.word(d, k2) by {
                    assert(mmu.mem.word(d, k2) == pre.mem.word(d, k2));
                }
                assert forall|p: int, k2: int|
                    0 <= p < old(mmu).npages() && 0 <= k2 < PAGE_WORDS && p != d
                        && !old(mmu).is_free(p)
                        implies #[trigger] mmu.mem.word(p, k2)
                            == old(mmu).mem.word(p, k2) by {
                    assert(mmu.mem.word(p, k2) == pre.mem.word(p, k2));
                }
                assert forall|i2: int|
                    0 <= i2 < PAGE_WORDS implies {
                        let pde = Pte(#[trigger] mmu.mem.word(d, i2));
                        pde.spec_flags().v ==> mmu.rc_of(pde.spec_ppn()) >= 1
                    } by {
                    let pde = Pte(mmu.mem.word(d, i2));
                    assert(mmu.mem.word(d, i2) == pre.mem.word(d, i2));
                    if pde.spec_flags().v {
                        assert(pre.rc_of(pde.spec_ppn()) >= 1);
                        assert(mmu.rc_of(pde.spec_ppn()) == pre.rc_of(pde.spec_ppn()));
                    }
                }
            }
            return Err(MosError::NoMem);
        }
        proof {
            let d = pgdir.dir();
            let t = pde_of(mmu.mem, d, target).spec_ppn();
            // previously mapped pages keep their translation: their table
            // is `t` itself (same window) and only slot `k` was written
            assert forall|j: int| 0 <= j < k implies {
                &&& va_mapped(mmu.mem, d, #[trigger] seg_va(va, j))
                &&& crate::map::mapped_page(mmu.mem, d, seg_va(va, j)) == base + j
                &&& mmu.rc_of(base + j) == old(mmu).rc_of(base + j) + 1
            } by {
                lemma_seg_indices(va, j);
                assert(seg_va(va, j).spec_pdx() == target.spec_pdx());
                assert(va_mapped(pre.mem, d, seg_va(va, j)));
                let tj = pde_of(pre.mem, d, seg_va(va, j)).spec_ppn();
                if pde_valid(pre.mem, d, target) {
                    assert(tj == t);
                    assert(mmu.mem.word(t, j) == pre.mem.word(t, j));
                    assert(pde_of(mmu.mem, d, seg_va(va, j)).spec_ppn() == tj);
                } else {
                    // a fresh table would contradict a previously mapped page
                    assert(pde_valid(pre.mem, d, seg_va(va, j)));
                    assert(false);
                }
                assert(mmu.rc_of(base + j) == pre.rc_of(base + j)) by {
                    assert(base + j != base + k as int);
                    if !pde_valid(pre.mem, d, target) {
                        assert(pre.is_free(t));
                        assert(pre.rc_of(t) == 0);
                        assert(pre.rc_of(base + j) >= 1);
                    }
                }
            }
            // remaining pages stay unmapped: their slot in `t` is j != k
            assert forall|j: int| k < j < n
                implies !va_mapped(mmu.mem, d, #[trigger] seg_va(va, j)) by {
                lemma_seg_indices(va, j);
                assert(seg_va(va, j).spec_pdx() == target.spec_pdx());
                assert(pde_of(mmu.mem, d, seg_va(va, j)).spec_ppn() == t);
                if pde_valid(pre.mem, d, target) {
                    assert(mmu.mem.word(t, j) == pre.mem.word(t, j));
                    assert(pde_of(pre.mem, d, seg_va(va, j)).spec_ppn() == t);
                    assert(!pte_of(pre.mem, d, seg_va(va, j)).spec_flags().v);
                } else {
                    assert(mmu.mem.word(t, j) == 0);
                }
            }
            // remaining pages keep their counts
            assert forall|j: int| k < j < n
                implies (#[trigger] mmu.rc_of(base + j)) == old(mmu).rc_of(base + j) by {
                assert(pre.rc_of(base + j) == old(mmu).rc_of(base + j));
                assert(base + j != base + k as int);
                if !pde_valid(pre.mem, d, target) {
                    assert(pre.is_free(t));
                    assert(pre.rc_of(t) == 0);
                    assert(pre.rc_of(base + j) >= 1);
                }
            }
            assert(va_mapped(mmu.mem, d, seg_va(va, k as int)));
            assert(crate::map::mapped_page(mmu.mem, d, seg_va(va, k as int)) == base + k);
            assert(mmu.rc_of(base + k as int) == old(mmu).rc_of(base + k as int) + 1);
            // track the single table page that left the free lists
            if k == 0 {
                assert(!pde_valid(pre.mem, d, target)) by {
                    assert(seg_va(va, 0).spec_pdx() == va.spec_pdx());
                }
                assert(old(mmu).is_free(t));
                assert forall|q: int|
                    #[trigger] mmu.is_free(q) <==> (old(mmu).is_free(q) && q != t) by {
                    assert(mmu.is_free(q) <==> (pre.is_free(q) && q != t));
                }
            } else {
                assert(pde_valid(pre.mem, d, target)) by {
                    assert(seg_va(va, k as int).spec_pdx() == va.spec_pdx());
                }
                let tp0 = choose|tp: int|
                    #[trigger] old(mmu).is_free(tp)
                        && (forall|q: int|
                            #[trigger] pre.is_free(q)
                                <==> (old(mmu).is_free(q) && q != tp));
                assert(!(va_mapped(pre.mem, d, target)
                    && crate::map::mapped_page(pre.mem, d, target) != base + k));
                assert forall|q: int|
                    #[trigger] mmu.is_free(q) <==> (old(mmu).is_free(q) && q != tp0) by {
                    assert(mmu.is_free(q) <==> pre.is_free(q));
                    assert(pre.is_free(q) <==> (old(mmu).is_free(q) && q != tp0));
                }
            }
            // the table stays a previously-free page
            assert(pde_valid(mmu.mem, d, va)) by {
                assert(seg_va(va, k as int).spec_pdx() == va.spec_pdx());
            }
            assert(old(mmu).is_free(pde_of(mmu.mem, d, va).spec_ppn())) by {
                assert(pde_of(mmu.mem, d, va).spec_ppn() == t) by {
                    assert(seg_va(va, k as int).spec_pdx() == va.spec_pdx());
                }
                if k == 0 {
                    assert(!pde_valid(pre.mem, d, target)) by {
                        assert(seg_va(va, 0).spec_pdx() == va.spec_pdx());
                    }
                    assert(pre.is_free(t));
                    assert(old(mmu).is_free(t));
                } else {
                    assert(pde_of(pre.mem, d, va).spec_ppn() == t);
                }
            }
            // directory slots other than the window's are untouched
            assert forall|k2: int|
                0 <= k2 < PAGE_WORDS && k2 != va.spec_pdx()
                    implies #[trigger] mmu.mem.word(d, k2)
                        == old(mmu).mem.word(d, k2) by {
                assert(mmu.mem.word(d, k2) == pre.mem.word(d, k2));
            }
            // words of pages that were in use are untouched
            assert forall|p: int, k2: int|
                0 <= p < old(mmu).npages() && 0 <= k2 < PAGE_WORDS && p != d
                    && !old(mmu).is_free(p)
                    implies #[trigger] mmu.mem.word(p, k2) == old(mmu).mem.word(p, k2) by {
                assert(p != t) by {
                    if p == t {
                        assert(old(mmu).is_free(t));
                    }
                }
                assert(mmu.mem.word(p, k2) == pre.mem.word(p, k2));
            }
            // counts of in-use pages outside the segment are untouched
            assert forall|p: int|
                0 <= p < old(mmu).npages() && !old(mmu).is_free(p)
                    && !(base <= p < base + n)
                    implies (#[trigger] mmu.rc_of(p)) == old(mmu).rc_of(p) by {
                assert(p != base + k as int);
                assert(p != t) by {
                    if p == t {
                        assert(old(mmu).is_free(t));
                    }
                }
                assert(mmu.rc_of(p) == pre.rc_of(p));
            }
            // the free set only shrinks
            assert forall|q2: int| #[trigger] mmu.is_free(q2)
                implies old(mmu).is_free(q2) by {
                assert(pre.is_free(q2) ==> old(mmu).is_free(q2));
            }
            // every valid directory entry still points at a referenced page
            assert forall|i2: int|
                0 <= i2 < PAGE_WORDS implies {
                    let pde = Pte(#[trigger] mmu.mem.word(d, i2));
                    pde.spec_flags().v ==> mmu.rc_of(pde.spec_ppn()) >= 1
                } by {
                let pde = Pte(mmu.mem.word(d, i2));
                if pde.spec_flags().v {
                    if i2 == va.spec_pdx() {
                        assert(pde.spec_ppn() == t) by {
                            assert(seg_va(va, k as int).spec_pdx() == va.spec_pdx());
                        }
                        assert(mmu.rc_of(t) >= 1) by {
                            assert(seg_va(va, k as int).spec_pdx() == va.spec_pdx());
                            if !pde_valid(pre.mem, d, target) {
                                assert(mmu.rc_of(t) == 1);
                            } else {
                                assert(pre.rc_of(t) >= 1) by {
                                    assert(pde_of(pre.mem, d, va).spec_ppn() == t);
                                }
                                if t != base + k as int {
                                    assert(mmu.rc_of(t) == pre.rc_of(t));
                                } else {
                                    assert(mmu.rc_of(t) == pre.rc_of(t) + 1);
                                }
                            }
                        }
                    } else {
                        assert(mmu.mem.word(d, i2) == pre.mem.word(d, i2));
                        assert(pre.rc_of(pde.spec_ppn()) >= 1);
                        assert(mmu.rc_of(pde.spec_ppn()) >= 1) by {
                            if pde.spec_ppn() == base + k as int {
                                assert(mmu.rc_of(pde.spec_ppn())
                                    == pre.rc_of(pde.spec_ppn()) + 1);
                            } else if pde.spec_ppn() == t {
                            } else {
                                assert(mmu.rc_of(pde.spec_ppn())
                                    == pre.rc_of(pde.spec_ppn()));
                            }
                        }
                    }
                }
            }
        }
        k = k + 1;
    }
    Ok(())
}


impl EnvManager {
    /// The base directory's kernel-window entries are sound for copying:
    /// every valid entry there points at a referenced table page.
    pub open spec fn base_windows_ok(self, mmu: Mmu) -> bool {
        &&& dir_ok(mmu.mem, self.base_pgdir.dir())
        &&& mmu.rc_of(self.base_pgdir.dir()) >= 1
        &&& forall|i: int|
            0 <= i < PAGE_WORDS ==> {
                let pde = Pte(#[trigger] mmu.mem.word(self.base_pgdir.dir(), i));
                pde.spec_flags().v ==> mmu.rc_of(pde.spec_ppn()) >= 1
            }
        &&& crate::map::tables_distinct(mmu.mem, self.base_pgdir.dir())
    }

    /// Builds a private address space for slot `idx`: a fresh directory
    /// that inherits the kernel-window entries of the base directory and
    /// maps itself at the `UVPT` slot. Fails with `NoMem` exactly when no
    /// page is free.
    pub fn setup_vm(&mut self, mmu: &mut Mmu, idx: usize) -> (r: Result<(), MosError>)
        requires
            old(self).wf(),
            old(mmu).wf(),
            idx < NENV,
            old(self).base_windows_ok(*old(mmu)),
            old(mmu).npages() <= 0x80000,
        ensures
            final(self).wf(),
            final(mmu).wf(),
            final(mmu).npages() == old(mmu).npages(),
            final(self).base_pgdir == old(self).base_pgdir,
            final(self).free_list == old(self).free_list,
            final(self).schedule_list == old(self).schedule_list,
            final(self).cur == old(self).cur,
            final(self).asid_bitmap == old(self).asid_bitmap,
            final(self).env_count == old(self).env_count,
            match r {
                Ok(()) => {
                    let e = final(self).env_at_spec(idx as int);
                    &&& e.pgdir.0 >= KSEG0
                    &&& 0 <= e.spec_pgdir_ppn() < old(mmu).npages()
                    &&& dir_ok(final(mmu).mem, e.spec_pgdir_ppn())
                    &&& crate::map::tables_ok(*final(mmu), e.spec_pgdir_ppn())
                    &&& crate::map::tables_distinct(final(mmu).mem, e.spec_pgdir_ppn())
                    &&& final(mmu).rc_of(e.spec_pgdir_ppn()) == 1
                    &&& old(mmu).is_free(e.spec_pgdir_ppn())
                    &&& (forall|j: int|
                        0 <= j < NENV && j != idx
                            ==> #[trigger] final(self).env_at_spec(j)
                                == old(self).env_at_spec(j))
                    &&& e == (Env {
                        pgdir: e.pgdir,
                        ..old(self).env_at_spec(idx as int)
                    })
                },
                Err(e) => {
                    &&& e == MosError::NoMem
                    &&& *final(self) == *old(self)
                    &&& (forall|q: int| !old(mmu).is_free(q))
                },
            },
    {
        let created = PageDirectory::init(mmu);
        let (pt, page) = match created {
            Ok(v) => v,
            Err(e) => {
                return Err(e);
            },
        };
        let ghost m1 = *mmu;
        let base = self.base_pgdir;
        proof {
            // the fresh directory was free, the base and its tables are
            // referenced, so they are all distinct from it
            assert(base.dir() != page.ppn.0);
        }
        let utop_pdx = VA(UTOP).pdx();
        let mut i: usize = utop_pdx;
        while i < UVPT_PDX
            invariant
                utop_pdx <= i <= UVPT_PDX,
                utop_pdx == VA(UTOP).spec_pdx(),
                UVPT_PDX < PAGE_WORDS,
                self.wf(),
                mmu.wf(),
                mmu.npages() == old(mmu).npages(),
                *self == *old(self),
                base == old(self).base_pgdir,
                old(self).base_windows_ok(m1),
                page.ppn.0 < old(mmu).npages(),
                pt.page == page,
                base.dir() < old(mmu).npages(),
                base.dir() != page.ppn.0,
                mmu.rc_of(page.ppn.0 as int) == 1,
                mmu.allocator == m1.allocator,
                forall|p: int, k: int|
                    0 <= p < old(mmu).npages() && 0 <= k < PAGE_WORDS && p != page.ppn.0
                        ==> #[trigger] mmu.mem.word(p, k) == m1.mem.word(p, k),
                forall|k: int|
                    utop_pdx <= k < i
                        ==> #[trigger] mmu.mem.word(page.ppn.0 as int, k)
                            == m1.mem.word(base.dir(), k),
                forall|k: int|
                    0 <= k < PAGE_WORDS && !(utop_pdx <= k < i)
                        ==> #[trigger] mmu.mem.word(page.ppn.0 as int, k) == 0,
            decreases UVPT_PDX - i,
        {
            let w = base.pte_at(&mmu.mem, i);
            pt.set_pte_at(&mut mmu.mem, i, w);
            i = i + 1;
        }
        let selfmap = Pte::new(page.ppn(), PteFlags::flag_v());
        pt.set_pte_at(&mut mmu.mem, UVPT_PDX, selfmap);
        let va = page.ppn().kaddr();
        let mut e = *self.env_at(idx);
        e.pgdir = va;
        self.envs.env_array[idx] = e;
        proof {
            let d = page.ppn.0 as int;
            assert(e.spec_pgdir_ppn() == d) by {
                assert(va.0 == d * PAGE_SIZE + KSEG0);
                vstd::arithmetic::div_mod::lemma_fundamental_div_mod_converse(
                    va.0 - KSEG0, PAGE_SIZE as int, d, 0);
            }
            assert(dir_ok(mmu.mem, d)) by {
                assert forall|k: int| 0 <= k < PAGE_WORDS implies {
                    let pde = Pte(#[trigger] mmu.mem.word(d, k));
                    pde.spec_flags().v ==> pde.spec_ppn() < mmu.mem.page_count
                        && (k != UVPT_PDX ==> pde.spec_ppn() != d)
                } by {
                    if k == UVPT_PDX {
                    } else if VA(UTOP).spec_pdx() <= k < UVPT_PDX {
                        let pde = Pte(mmu.mem.word(d, k));
                        assert(mmu.mem.word(d, k) == m1.mem.word(base.dir(), k));
                        if pde.spec_flags().v {
                            assert(m1.rc_of(pde.spec_ppn()) >= 1) by {
                                assert(old(self).base_windows_ok(m1));
                            }
                            assert(pde.spec_ppn() != d) by {
                                assert(old(mmu).is_free(d));
                                assert(old(mmu).rc_of(d) == 0);
                                if pde.spec_ppn() == d {
                                    assert(m1.rc_of(d) >= 1);
                                    assert(m1.rc_of(d) == 1);
                                    // the base window table is referenced in
                                    // the pre-allocation state as well
                                    assert(old(mmu).rc_of(pde.spec_ppn()) == 0);
                                    assert(m1.rc_of(pde.spec_ppn())
                                        == old(mmu).rc_of(pde.spec_ppn()) + 1);
                                }
                            }
                        }
                    } else {
                        assert(mmu.mem.word(d, k) == 0);
                    }
                }
            }
            assert(crate::map::tables_ok(*mmu, d)) by {
                assert forall|k: int| 0 <= k < PAGE_WORDS implies {
                    let pde = Pte(#[trigger] mmu.mem.word(d, k));
                    pde.spec_flags().v ==> mmu.rc_of(pde.spec_ppn()) >= 1
                } by {
                    let pde = Pte(mmu.mem.word(d, k));
                    if pde.spec_flags().v {
                        if k == UVPT_PDX {
                            assert(pde.spec_ppn() == d);
                            assert(mmu.rc_of(d) == 1);
                        } else if VA(UTOP).spec_pdx() <= k < UVPT_PDX {
                            assert(mmu.mem.word(d, k) == m1.mem.word(base.dir(), k));
                            assert(m1.rc_of(pde.spec_ppn()) >= 1) by {
                                assert(old(self).base_windows_ok(m1));
                            }
                            assert(mmu.rc_of(pde.spec_ppn()) == m1.rc_of(pde.spec_ppn()));
                        } else {
                            assert(mmu.mem.word(d, k) == 0);
                        }
                    }
                }
            }
            assert(crate::map::tables_distinct(mmu.mem, d)) by {
                assert forall|i1: int, i2: int|
                    0 <= i1 < PAGE_WORDS && 0 <= i2 < PAGE_WORDS && i1 != i2 implies {
                    let a = Pte(#[trigger] mmu.mem.word(d, i1));
                    let b = Pte(#[trigger] mmu.mem.word(d, i2));
                    a.spec_flags().v && b.spec_flags().v ==> a.spec_ppn() != b.spec_ppn()
                } by {
                    let a = Pte(mmu.mem.word(d, i1));
                    let b = Pte(mmu.mem.word(d, i2));
                    if a.spec_flags().v && b.spec_flags().v {
                        let w1 = VA(UTOP).spec_pdx() <= i1 < UVPT_PDX;
                        let w2 = VA(UTOP).spec_pdx() <= i2 < UVPT_PDX;
                        if !w1 && i1 != UVPT_PDX {
                            assert(mmu.mem.word(d, i1) == 0);
                        } else if !w2 && i2 != UVPT_PDX {
                            assert(mmu.mem.word(d, i2) == 0);
                        } else if w1 && w2 {
                            // both copied from the base directory, whose
                            // tables are distinct
                            assert(mmu.mem.word(d, i1) == m1.mem.word(base.dir(), i1));
                            assert(mmu.mem.word(d, i2) == m1.mem.word(base.dir(), i2));
                            assert(old(self).base_windows_ok(m1));
                        } else if i1 == UVPT_PDX && w2 {
                            // the self-map names the fresh directory, which
                            // was free while the base tables were referenced
                            assert(a.spec_ppn() == d);
                            assert(mmu.mem.word(d, i2) == m1.mem.word(base.dir(), i2));
                            assert(m1.rc_of(b.spec_ppn()) >= 1) by {
                                assert(old(self).base_windows_ok(m1));
                            }
                            assert(b.spec_ppn() != d) by {
                                assert(old(mmu).is_free(d));
                                assert(old(mmu).rc_of(d) == 0);
                                if b.spec_ppn() == d {
                                    assert(m1.rc_of(d) == 1);
                                    assert(old(mmu).rc_of(b.spec_ppn()) == 0);
                                    assert(m1.rc_of(b.spec_ppn())
                                        == old(mmu).rc_of(b.spec_ppn()) + 1);
                                }
                            }
                        } else {
                            assert(i2 == UVPT_PDX && w1);
                            assert(b.spec_ppn() == d);
                            assert(mmu.mem.word(d, i1) == m1.mem.word(base.dir(), i1));
                            assert(m1.rc_of(a.spec_ppn()) >= 1) by {
                                assert(old(self).base_windows_ok(m1));
                            }
                            assert(a.spec_ppn() != d) by {
                                assert(old(mmu).is_free(d));
                                assert(old(mmu).rc_of(d) == 0);
                                if a.spec_ppn() == d {
                                    assert(m1.rc_of(d) == 1);
                                    assert(old(mmu).rc_of(a.spec_ppn()) == 0);
                                    assert(m1.rc_of(a.spec_ppn())
                                        == old(mmu).rc_of(a.spec_ppn()) + 1);
                                }
                            }
                        }
                    }
                }
            }
        }
        Ok(())
    }
}


impl EnvManager {
    /// Allocates and initializes a fresh environment: pops a free slot,
    /// builds its address space, assigns a fresh id and ASID, and seeds its
    /// trap frame for user mode. The new block stays `Free` until its
    /// creator marks it runnable.
    pub fn alloc_env(&mut self, mmu: &mut Mmu, parent_id: usize) -> (r: Result<usize, MosError>)
        requires
            old(self).wf(),
            old(mmu).wf(),
            old(self).env_count < 0xf_ffff,
            old(self).base_windows_ok(*old(mmu)),
            old(mmu).npages() <= 0x80000,
        ensures
            final(self).wf(),
            final(mmu).wf(),
            final(mmu).npages() == old(mmu).npages(),
            final(self).schedule_list == old(self).schedule_list,
            final(self).cur == old(self).cur,
            final(self).base_pgdir == old(self).base_pgdir,
            match r {
                Ok(idx) => {
                    let e = final(self).env_at_spec(idx as int);
                    &&& idx < NENV
                    &&& old(self).free_list@.len() > 0
                    &&& idx == old(self).free_list@.last().pos
                    &&& final(self).free_list@ == old(self).free_list@.drop_last()
                    &&& e.parent_id == parent_id
                    &&& e.user_tlb_mod_entry == 0
                    &&& e.runs == 0
                    &&& e.id == (old(self).env_count + 1) * NENV + idx
                    &&& e.id as int % NENV as int == idx
                    &&& e.spec_pos() == idx
                    &&& final(self).env_count == old(self).env_count + 1
                    &&& e.asid < NASID
                    &&& !old(self).asid_bitmap@[e.asid as int]
                    &&& (forall|a: int| 0 <= a < e.asid ==> old(self).asid_bitmap@[a])
                    &&& final(self).asid_bitmap@
                        == old(self).asid_bitmap@.update(e.asid as int, true)
                    &&& e.tf.cp0_status == ENV_INIT_STATUS
                    &&& e.tf.regs@[29] == USTACKTOP - 8
                    &&& e.status == old(self).env_at_spec(idx as int).status
                    &&& e.pgdir.0 >= KSEG0
                    &&& 0 <= e.spec_pgdir_ppn() < old(mmu).npages()
                    &&& dir_ok(final(mmu).mem, e.spec_pgdir_ppn())
                    &&& crate::map::tables_ok(*final(mmu), e.spec_pgdir_ppn())
                    &&& crate::map::tables_distinct(final(mmu).mem, e.spec_pgdir_ppn())
                    &&& final(mmu).rc_of(e.spec_pgdir_ppn()) == 1
                    &&& (forall|j: int|
                        0 <= j < NENV && j != idx
                            ==> #[trigger] final(self).env_at_spec(j)
                                == old(self).env_at_spec(j))
                },
                Err(e) => e == MosError::NoFreeEnv || e == MosError::NoMem,
            },
            // success is owed when a slot, a page and an ASID are free
            (old(self).free_list@.len() > 0
                && (exists|q: int| old(mmu).is_free(q))
                && (exists|a: int| 0 <= a < NASID && !old(self).asid_bitmap@[a]))
                ==> r is Ok,
    {
        let got = self.get_free_env();
        let idx = match got {
            Ok(idx) => idx,
            Err(e) => {
                return Err(e);
            },
        };
        let ghost s1 = *self;
        let made = self.setup_vm(mmu, idx);
        match made {
            Ok(()) => (),
            Err(e) => {
                proof {
                    if exists|q: int| old(mmu).is_free(q) {
                        let q = choose|q: int| old(mmu).is_free(q);
                        assert(false);
                    }
                }
                return Err(e);
            },
        }
        let ghost s2 = *self;
        let aid = match self.asid_alloc() {
            Ok(a) => a,
            Err(e) => {
                proof {
                    if exists|a: int| 0 <= a < NASID && !old(self).asid_bitmap@[a] {
                        let a = choose|a: int| 0 <= a < NASID && !old(self).asid_bitmap@[a];
                        assert(s2.asid_bitmap@[a] == old(self).asid_bitmap@[a]);
                        assert(false);
                    }
                }
                return Err(MosError::NoFreeEnv);
            },
        };
        let ghost s3 = *self;
        proof {
            assert(s2.asid_bitmap@ == old(self).asid_bitmap@);
        }
        let id = self.mkenvid(idx);
        let mut e = *self.env_at(idx);
        e.user_tlb_mod_entry = 0;
        e.runs = 0;
        e.id = id;
        e.asid = aid;
        e.parent_id = parent_id;
        e.tf.cp0_status = ENV_INIT_STATUS;
        e.tf.regs[29] = (USTACKTOP - 8) as u32;
        self.envs.env_array[idx] = e;
        proof {
            assert(e.spec_pos() == idx);
            assert(self.env_at_spec(idx as int) == e);
            assert forall|j: int|
                0 <= j < NENV && j != idx
                    implies #[trigger] self.env_at_spec(j) == old(self).env_at_spec(j) by {
                assert(s2.env_at_spec(j) == s1.env_at_spec(j));
            }
        }
        Ok(idx)
    }

    /// The user region of the address space rooted at `dir` is sound for
    /// teardown: every valid directory entry below `UTOP` points at a
    /// referenced table page, distinct entries hold distinct tables, and
    /// every mapped page is a referenced page in memory that is neither
    /// the directory nor one of the tables. A violation is a corrupted
    /// address space, fatal in this kernel.
    pub open spec fn aspace_sound_for(mmu: Mmu, dir: int) -> bool {
        forall|i: int| 0 <= i < UTOP_PDX ==> {
            let pde = Pte(#[trigger] mmu.mem.word(dir, i));
            pde.spec_flags().v ==> {
                let t = pde.spec_ppn();
                &&& mmu.rc_of(t) >= 1
                &&& (forall|i2: int|
                    0 <= i2 < UTOP_PDX && i2 != i ==> {
                        let pde2 = Pte(#[trigger] mmu.mem.word(dir, i2));
                        pde2.spec_flags().v ==> pde2.spec_ppn() != t
                    })
                &&& (forall|j: int|
                    0 <= j < PAGE_WORDS ==> {
                        let pte = Pte(#[trigger] mmu.mem.word(t, j));
                        pte.spec_flags().v ==> {
                            let p = pte.spec_ppn();
                            &&& 0 <= p < mmu.npages()
                            &&& mmu.rc_of(p) >= 1
                            &&& p != dir
                            &&& (forall|i2: int|
                                0 <= i2 < UTOP_PDX ==> {
                                    let pde2 = Pte(#[trigger] mmu.mem.word(dir, i2));
                                    pde2.spec_flags().v ==> pde2.spec_ppn() != p
                                })
                        }
                    })
            }
        }
    }

    /// Tears an environment down: unmaps every user page (freeing pages
    /// and table pages whose counts reach zero), frees the directory,
    /// releases the ASID, marks the slot free and takes it off the
    /// schedule list.
    pub fn env_free(&mut self, mmu: &mut Mmu, idx: usize)
        requires
            old(self).wf(),
            old(mmu).wf(),
            idx < NENV,
            old(self).env_at_spec(idx as int).pgdir.0 >= KSEG0,
            0 <= old(self).env_at_spec(idx as int).spec_pgdir_ppn() < old(mmu).npages(),
            dir_ok(old(mmu).mem, old(self).env_at_spec(idx as int).spec_pgdir_ppn()),
            Self::aspace_sound_for(*old(mmu), old(self).env_at_spec(idx as int).spec_pgdir_ppn()),
            old(self).env_at_spec(idx as int).asid < NASID,
        ensures
            final(self).wf(),
            final(mmu).wf(),
            final(mmu).npages() == old(mmu).npages(),
            final(self).env_at_spec(idx as int).status == EnvStatus::Free,
            final(self).asid_bitmap@
                == old(self).asid_bitmap@.update(
                    old(self).env_at_spec(idx as int).asid as int, false),
            final(self).free_list@
                == old(self).free_list@.push(EnvTracker {
                    pos: (old(self).env_at_spec(idx as int).id % NENV) as usize,
                }),
            final(self).schedule_list@
                == old(self).schedule_list@.filter(
                    |t: EnvTracker|
                        t.pos != old(self).env_at_spec(idx as int).id as int % NENV as int),
            forall|j: int|
                0 <= j < NENV && j != idx
                    ==> #[trigger] final(self).env_at_spec(j) == old(self).env_at_spec(j),
            final(self).cur == old(self).cur,
            final(self).base_pgdir == old(self).base_pgdir,
            final(self).env_count == old(self).env_count,
            // the user region of the directory holds no valid entry any
            // more: nothing is mapped below UTOP afterwards
            ({
                let dir = old(self).env_at_spec(idx as int).spec_pgdir_ppn();
                &&& (forall|i: int|
                    0 <= i < UTOP_PDX
                        ==> !Pte(#[trigger] final(mmu).mem.word(dir, i)).spec_flags().v)
                &&& (forall|i: int|
                    UTOP_PDX <= i < PAGE_WORDS
                        ==> (#[trigger] final(mmu).mem.word(dir, i))
                            == old(mmu).mem.word(dir, i))
                // the directory's own reference is dropped, freeing it on zero
                &&& (old(mmu).rc_of(dir) >= 1 ==> {
                    &&& final(mmu).rc_of(dir) == old(mmu).rc_of(dir) - 1
                    &&& (old(mmu).rc_of(dir) == 1 ==> final(mmu).is_free(dir))
                })
                // each table page of the user region is recycled
                &&& (forall|i: int|
                    0 <= i < UTOP_PDX
                        && Pte(#[trigger] old(mmu).mem.word(dir, i)).spec_flags().v ==> {
                        let t = Pte(old(mmu).mem.word(dir, i)).spec_ppn();
                        &&& final(mmu).rc_of(t) == old(mmu).rc_of(t) - 1
                        &&& (old(mmu).rc_of(t) == 1 ==> final(mmu).is_free(t))
                    })
                // every page mapped below UTOP lost at least one reference
                &&& (forall|i: int, j: int|
                    0 <= i < UTOP_PDX && 0 <= j < PAGE_WORDS
                        && Pte(#[trigger] old(mmu).mem.word(dir, i)).spec_flags().v
                        && Pte(#[trigger] old(mmu).mem.word(
                            Pte(old(mmu).mem.word(dir, i)).spec_ppn(), j)).spec_flags().v
                        ==> final(mmu).rc_of(Pte(old(mmu).mem.word(
                                Pte(old(mmu).mem.word(dir, i)).spec_ppn(), j)).spec_ppn())
                            < old(mmu).rc_of(Pte(old(mmu).mem.word(
                                Pte(old(mmu).mem.word(dir, i)).spec_ppn(), j)).spec_ppn()))
            }),
            // counts never rise, and freed pages stay free
            forall|p: int|
                0 <= p < old(mmu).npages()
                    ==> (#[trigger] final(mmu).rc_of(p)) <= old(mmu).rc_of(p),
            forall|q: int| old(mmu).is_free(q) ==> #[trigger] final(mmu).is_free(q),
            // no stale TLB entry of the freed ASID survives the teardown:
            // neither for a previously mapped address, nor for the
            // page-table window's shadow of a table, nor for the self-map
            ({
                let dir = old(self).env_at_spec(idx as int).spec_pgdir_ppn();
                let asid = old(self).env_at_spec(idx as int).asid as int;
                &&& (forall|i: int, j: int|
                    0 <= i < UTOP_PDX && 0 <= j < PAGE_WORDS
                        && Pte(#[trigger] old(mmu).mem.word(dir, i)).spec_flags().v
                        && Pte(#[trigger] old(mmu).mem.word(
                            Pte(old(mmu).mem.word(dir, i)).spec_ppn(), j)).spec_flags().v
                        ==> !final(mmu).tlb.has(crate::mmu::tlb_key(
                            VA((i * crate::layout::PDMAP + j * PAGE_SIZE) as usize), asid)))
                &&& (forall|i: int|
                    0 <= i < UTOP_PDX
                        && Pte(#[trigger] old(mmu).mem.word(dir, i)).spec_flags().v
                        ==> !final(mmu).tlb.has(crate::mmu::tlb_key(
                            VA((UVPT + i * PAGE_SIZE) as usize), asid)))
                &&& !final(mmu).tlb.has(crate::mmu::tlb_key(
                    VA((UVPT + UVPT_PDX * PAGE_SIZE) as usize),
                    old(self).env_at_spec(idx as int).asid as int))
            }),
    {
        let env = *self.env_at(idx);
        let pgdir = env.pgdir();
        let asid = env.asid;
        let dirppn = PPN(pgdir.page.ppn.0);
        let ghost dir = dirppn.0 as int;
        let utop_pdx = VA(UTOP).pdx();
        proof {
            assert(utop_pdx == UTOP_PDX);
        }
        let mut i: usize = 0;
        while i < utop_pdx
            invariant
                i <= utop_pdx,
                utop_pdx == UTOP_PDX,
                UTOP_PDX < UVPT_PDX < PAGE_WORDS,
                old(mmu).wf(),
                mmu.wf(),
                mmu.npages() == old(mmu).npages(),
                dir_ok(mmu.mem, dir),
                dir_ok(old(mmu).mem, dir),
                Self::aspace_sound_for(*old(mmu), dir),
                dirppn.0 == dir,
                dirppn.0 == pgdir.dir(),
                0 <= dir < old(mmu).npages(),
                asid < NASID,
                // processed directory slots hold no valid entry
                forall|k: int|
                    0 <= k < i ==> !Pte(#[trigger] mmu.mem.word(dir, k)).spec_flags().v,
                // the rest of the directory is untouched
                forall|k: int|
                    i <= k < PAGE_WORDS
                        ==> (#[trigger] mmu.mem.word(dir, k)) == old(mmu).mem.word(dir, k),
                // pages other than the directory and the processed tables
                // are untouched
                forall|p: int, k: int|
                    0 <= p < old(mmu).npages() && 0 <= k < PAGE_WORDS && p != dir
                        && (forall|k2: int|
                            0 <= k2 < i ==> !(Pte(
                                #[trigger] old(mmu).mem.word(dir, k2)).spec_flags().v
                                && Pte(old(mmu).mem.word(dir, k2)).spec_ppn() == p))
                        ==> (#[trigger] mmu.mem.word(p, k)) == old(mmu).mem.word(p, k),
                // counts never rise
                forall|p: int|
                    0 <= p < old(mmu).npages()
                        ==> (#[trigger] mmu.rc_of(p)) <= old(mmu).rc_of(p),
                // processed tables are recycled, unprocessed ones untouched
                forall|k: int|
                    0 <= k < i && Pte(#[trigger] old(mmu).mem.word(dir, k)).spec_flags().v
                        ==> {
                        let t = Pte(old(mmu).mem.word(dir, k)).spec_ppn();
                        &&& mmu.rc_of(t) == old(mmu).rc_of(t) - 1
                        &&& (old(mmu).rc_of(t) == 1 ==> mmu.is_free(t))
                    },
                forall|k: int|
                    i <= k < UTOP_PDX
                        && Pte(#[trigger] old(mmu).mem.word(dir, k)).spec_flags().v
                        ==> mmu.rc_of(Pte(old(mmu).mem.word(dir, k)).spec_ppn())
                            == old(mmu).rc_of(Pte(old(mmu).mem.word(dir, k)).spec_ppn()),
                mmu.rc_of(dir) == old(mmu).rc_of(dir),
                // pages of processed mappings lost a reference
                forall|k: int, j: int|
                    0 <= k < i && 0 <= j < PAGE_WORDS
                        && Pte(#[trigger] old(mmu).mem.word(dir, k)).spec_flags().v
                        && Pte(#[trigger] old(mmu).mem.word(
                            Pte(old(mmu).mem.word(dir, k)).spec_ppn(), j)).spec_flags().v
                        ==> mmu.rc_of(Pte(old(mmu).mem.word(
                                Pte(old(mmu).mem.word(dir, k)).spec_ppn(), j)).spec_ppn())
                            < old(mmu).rc_of(Pte(old(mmu).mem.word(
                                Pte(old(mmu).mem.word(dir, k)).spec_ppn(), j)).spec_ppn()),
                // freed pages stay free
                forall|q: int| old(mmu).is_free(q) ==> #[trigger] mmu.is_free(q),
                // the processed mappings' TLB keys are gone
                forall|k: int, j: int|
                    0 <= k < i && 0 <= j < PAGE_WORDS
                        && Pte(#[trigger] old(mmu).mem.word(dir, k)).spec_flags().v
                        && Pte(#[trigger] old(mmu).mem.word(
                            Pte(old(mmu).mem.word(dir, k)).spec_ppn(), j)).spec_flags().v
                        ==> !mmu.tlb.has(crate::mmu::tlb_key(
                            VA((k * crate::layout::PDMAP + j * PAGE_SIZE) as usize),
                            asid as int)),
                forall|k: int|
                    0 <= k < i && Pte(#[trigger] old(mmu).mem.word(dir, k)).spec_flags().v
                        ==> !mmu.tlb.has(crate::mmu::tlb_key(
                            VA((UVPT + k * PAGE_SIZE) as usize), asid as int)),
            decreases utop_pdx - i,
        {
            let pde = pgdir.pte_at(&mmu.mem, i);
            if pde.is_valid() {
                let t = pde.ppn();
                proof {
                    assert(mmu.mem.word(dir, i as int) == old(mmu).mem.word(dir, i as int));
                    assert(t.0 == Pte(old(mmu).mem.word(dir, i as int)).spec_ppn());
                    assert(old(mmu).rc_of(t.0 as int) >= 1);
                    assert(t.0 < old(mmu).npages());
                    assert(t.0 != dir);
                }
                let mut j: usize = 0;
                while j < PAGE_WORDS
                    invariant
                        j <= PAGE_WORDS,
                        i < utop_pdx,
                        utop_pdx == UTOP_PDX,
                        UTOP_PDX < UVPT_PDX < PAGE_WORDS,
                        old(mmu).wf(),
                        mmu.wf(),
                        mmu.npages() == old(mmu).npages(),
                        dir_ok(mmu.mem, dir),
                        dir_ok(old(mmu).mem, dir),
                        Self::aspace_sound_for(*old(mmu), dir),
                        dirppn.0 == dir,
                        dirppn.0 == pgdir.dir(),
                        0 <= dir < old(mmu).npages(),
                        asid < NASID,
                        Pte(old(mmu).mem.word(dir, i as int)).spec_flags().v,
                        t.0 == Pte(old(mmu).mem.word(dir, i as int)).spec_ppn(),
                        t.0 < old(mmu).npages(),
                        t.0 != dir,
                        forall|k: int|
                            0 <= k < i
                                ==> !Pte(#[trigger] mmu.mem.word(dir, k)).spec_flags().v,
                        forall|k: int|
                            i <= k < PAGE_WORDS
                                ==> (#[trigger] mmu.mem.word(dir, k))
                                    == old(mmu).mem.word(dir, k),
                        // pages other than the directory, the processed
                        // tables and this table are untouched
                        forall|p: int, k: int|
                            0 <= p < old(mmu).npages() && 0 <= k < PAGE_WORDS && p != dir
                                && p != t.0
                                && (forall|k2: int|
                                    0 <= k2 < i ==> !(Pte(
                                        #[trigger] old(mmu).mem.word(dir, k2)).spec_flags().v
                                        && Pte(old(mmu).mem.word(dir, k2)).spec_ppn() == p))
                                ==> (#[trigger] mmu.mem.word(p, k))
                                    == old(mmu).mem.word(p, k),
                        // this table: slots from j on are untouched
                        forall|j2: int|
                            j <= j2 < PAGE_WORDS
                                ==> (#[trigger] mmu.mem.word(t.0 as int, j2))
                                    == old(mmu).mem.word(t.0 as int, j2),
                        forall|p: int|
                            0 <= p < old(mmu).npages()
                                ==> (#[trigger] mmu.rc_of(p)) <= old(mmu).rc_of(p),
                        forall|k: int|
                            0 <= k < i
                                && Pte(#[trigger] old(mmu).mem.word(dir, k)).spec_flags().v
                                ==> {
                                let t2 = Pte(old(mmu).mem.word(dir, k)).spec_ppn();
                                &&& mmu.rc_of(t2) == old(mmu).rc_of(t2) - 1
                                &&& (old(mmu).rc_of(t2) == 1 ==> mmu.is_free(t2))
                            },
                        forall|k: int|
                            i <= k < UTOP_PDX
                                && Pte(#[trigger] old(mmu).mem.word(dir, k)).spec_flags().v
                                ==> mmu.rc_of(Pte(old(mmu).mem.word(dir, k)).spec_ppn())
                                    == old(mmu).rc_of(
                                        Pte(old(mmu).mem.word(dir, k)).spec_ppn()),
                        mmu.rc_of(dir) == old(mmu).rc_of(dir),
                        forall|k: int, j2: int|
                            0 <= k < i && 0 <= j2 < PAGE_WORDS
                                && Pte(#[trigger] old(mmu).mem.word(dir, k)).spec_flags().v
                                && Pte(#[trigger] old(mmu).mem.word(
                                    Pte(old(mmu).mem.word(dir, k)).spec_ppn(),
                                    j2)).spec_flags().v
                                ==> mmu.rc_of(Pte(old(mmu).mem.word(
                                        Pte(old(mmu).mem.word(dir, k)).spec_ppn(),
                                        j2)).spec_ppn())
                                    < old(mmu).rc_of(Pte(old(mmu).mem.word(
                                        Pte(old(mmu).mem.word(dir, k)).spec_ppn(),
                                        j2)).spec_ppn()),
                        // this table's mappings processed so far lost a
                        // reference
                        forall|j2: int|
                            0 <= j2 < j
                                && Pte(#[trigger] old(mmu).mem.word(
                                    t.0 as int, j2)).spec_flags().v
                                ==> mmu.rc_of(Pte(old(mmu).mem.word(
                                        t.0 as int, j2)).spec_ppn())
                                    < old(mmu).rc_of(Pte(old(mmu).mem.word(
                                        t.0 as int, j2)).spec_ppn()),
                        mmu.rc_of(t.0 as int) == old(mmu).rc_of(t.0 as int),
                        forall|q: int| old(mmu).is_free(q) ==> #[trigger] mmu.is_free(q),
                        forall|k: int, j2: int|
                            0 <= k < i && 0 <= j2 < PAGE_WORDS
                                && Pte(#[trigger] old(mmu).mem.word(dir, k)).spec_flags().v
                                && Pte(#[trigger] old(mmu).mem.word(
                                    Pte(old(mmu).mem.word(dir, k)).spec_ppn(),
                                    j2)).spec_flags().v
                                ==> !mmu.tlb.has(crate::mmu::tlb_key(
                                    VA((k * crate::layout::PDMAP + j2 * PAGE_SIZE) as usize),
                                    asid as int)),
                        forall|k: int|
                            0 <= k < i
                                && Pte(#[trigger] old(mmu).mem.word(dir, k)).spec_flags().v
                                ==> !mmu.tlb.has(crate::mmu::tlb_key(
                                    VA((UVPT + k * PAGE_SIZE) as usize), asid as int)),
                        forall|j2: int|
                            0 <= j2 < j
                                && Pte(#[trigger] old(mmu).mem.word(
                                    t.0 as int, j2)).spec_flags().v
                                ==> !mmu.tlb.has(crate::mmu::tlb_key(
                                    VA((i * crate::layout::PDMAP + j2 * PAGE_SIZE) as usize),
                                    asid as int)),
                    decreases PAGE_WORDS - j,
                {
                    let pte = Pte(mmu.mem.read_word(t, j));
                    proof {
                        assert(mmu.mem.word(t.0 as int, j as int)
                            == old(mmu).mem.word(t.0 as int, j as int));
                    }
                    if pte.is_valid() {
                        let fault_va = VA(i * crate::layout::PDMAP + j * PAGE_SIZE);
                        proof {
                            assert(i * crate::layout::PDMAP + j * PAGE_SIZE
                                < 0x1_0000_0000) by (nonlinear_arith)
                                requires i < 1024, j < 1024,
                            {}
                            // the mapped page is a referenced non-table page
                            assert(Pte(old(mmu).mem.word(t.0 as int, j as int))
                                .spec_flags().v);
                            assert(old(mmu).rc_of(pte.spec_ppn()) >= 1);
                            assert(0 <= pte.spec_ppn() < old(mmu).npages());
                        }
                        let ghost ma = *mmu;
                        mmu.tlb_invalidate(asid, fault_va);
                        let ghost mb = *mmu;
                        let page = Page::new(pte.ppn());
                        let rc = mmu.ref_count(page);
                        match rc {
                            Some(c) => {
                                if c >= 1 {
                                    mmu.try_recycle(page);
                                }
                            },
                            None => (),
                        }
                        let ghost mc = *mmu;
                        mmu.mem.write_word(t, j, 0);
                        proof {
                            let p = pte.spec_ppn();
                            // frame: all words but this slot are untouched
                            assert forall|p2: int, k: int|
                                0 <= p2 < old(mmu).npages() && 0 <= k < PAGE_WORDS
                                    && !(p2 == t.0 && k == j)
                                    implies (#[trigger] mmu.mem.word(p2, k))
                                        == ma.mem.word(p2, k) by {
                                assert(mb.mem == ma.mem && mc.mem == mb.mem);
                                assert(mmu.mem.word(p2, k) == mc.mem.word(p2, k));
                            }
                            // frame: all counts but the page's are untouched
                            assert forall|p2: int|
                                0 <= p2 < old(mmu).npages() && p2 != p
                                    implies (#[trigger] mmu.rc_of(p2)) == ma.rc_of(p2) by {
                                assert(mb.allocator == ma.allocator);
                                assert(mc.rc_of(p2) == mb.rc_of(p2));
                                assert(mmu.rc_of(p2) == mc.rc_of(p2));
                            }
                            assert(mmu.rc_of(p) <= ma.rc_of(p)) by {
                                assert(mb.allocator == ma.allocator);
                                assert(mmu.rc_of(p) == mc.rc_of(p));
                            }
                            assert(mmu.rc_of(p) < old(mmu).rc_of(p)) by {
                                assert(old(mmu).rc_of(p) >= 1);
                                assert(ma.rc_of(p) <= old(mmu).rc_of(p));
                                if mb.rc_of(p) >= 1 {
                                    assert(mc.rc_of(p) == mb.rc_of(p) - 1);
                                }
                            }
                            // the free set only grows
                            assert forall|q: int| ma.is_free(q)
                                implies #[trigger] mmu.is_free(q) by {
                                assert(mb.is_free(q) <==> ma.is_free(q));
                                assert(mc.is_free(q));
                                assert(mmu.is_free(q) <==> mc.is_free(q));
                            }
                            assert(dir_ok(mmu.mem, dir)) by {
                                assert forall|k: int| 0 <= k < PAGE_WORDS implies {
                                    let p2 = Pte(#[trigger] mmu.mem.word(dir, k));
                                    p2.spec_flags().v
                                        ==> p2.spec_ppn() < mmu.mem.page_count
                                            && (k != UVPT_PDX ==> p2.spec_ppn() != dir)
                                } by {
                                    assert(mmu.mem.word(dir, k) == ma.mem.word(dir, k));
                                }
                            }
                        }
                    }
                    j = j + 1;
                }
                // drop the table page and clear the directory slot
                let ghost md = *mmu;
                let trc = mmu.ref_count(Page::new(t));
                match trc {
                    Some(c) => {
                        if c >= 1 {
                            mmu.try_recycle(Page::new(t));
                        }
                    },
                    None => (),
                }
                let ghost me = *mmu;
                pgdir.set_pte_at(&mut mmu.mem, i, Pte::empty());
                let uvpt_va = VA(UVPT + i * PAGE_SIZE);
                mmu.tlb_invalidate(asid, uvpt_va);
                proof {
                    // frame: all words but this directory slot are untouched
                    assert forall|p2: int, k: int|
                        0 <= p2 < old(mmu).npages() && 0 <= k < PAGE_WORDS
                            && !(p2 == dir && k == i)
                            implies (#[trigger] mmu.mem.word(p2, k))
                                == md.mem.word(p2, k) by {
                        assert(me.mem.word(p2, k) == md.mem.word(p2, k));
                        assert(mmu.mem.word(p2, k) == me.mem.word(p2, k));
                    }
                    assert(mmu.mem.word(dir, i as int) == 0);
                    // frame: all counts but the table's are untouched
                    assert forall|p2: int|
                        0 <= p2 < old(mmu).npages() && p2 != t.0
                            implies (#[trigger] mmu.rc_of(p2)) == md.rc_of(p2) by {
                        assert(me.rc_of(p2) == md.rc_of(p2));
                        assert(mmu.rc_of(p2) == me.rc_of(p2));
                    }
                    // the table's reference is dropped, freed at one
                    assert(md.rc_of(t.0 as int) == old(mmu).rc_of(t.0 as int));
                    assert(old(mmu).rc_of(t.0 as int) >= 1);
                    assert(mmu.rc_of(t.0 as int) == old(mmu).rc_of(t.0 as int) - 1) by {
                        assert(me.rc_of(t.0 as int) == md.rc_of(t.0 as int) - 1);
                        assert(mmu.rc_of(t.0 as int) == me.rc_of(t.0 as int));
                    }
                    assert(old(mmu).rc_of(t.0 as int) == 1 ==> mmu.is_free(t.0 as int)) by {
                        if old(mmu).rc_of(t.0 as int) == 1 {
                            assert(me.is_free(t.0 as int));
                            assert(mmu.is_free(t.0 as int) <==> me.is_free(t.0 as int));
                        }
                    }
                    assert forall|q: int| md.is_free(q)
                        implies #[trigger] mmu.is_free(q) by {
                        assert(me.is_free(q));
                        assert(mmu.is_free(q) <==> me.is_free(q));
                    }
                    assert(dir_ok(mmu.mem, dir)) by {
                        assert forall|k: int| 0 <= k < PAGE_WORDS implies {
                            let p2 = Pte(#[trigger] mmu.mem.word(dir, k));
                            p2.spec_flags().v
                                ==> p2.spec_ppn() < mmu.mem.page_count
                                    && (k != UVPT_PDX ==> p2.spec_ppn() != dir)
                        } by {
                            if k != i {
                                assert(mmu.mem.word(dir, k) == md.mem.word(dir, k));
                            }
                        }
                    }
                }
            }
            i = i + 1;
        }
        // drop the directory page itself
        let ghost mf = *mmu;
        let drc = mmu.ref_count(pgdir.page);
        match drc {
            Some(c) => {
                if c >= 1 {
                    mmu.try_recycle(pgdir.page);
                }
            },
            None => (),
        }
        proof {
            assert forall|p2: int|
                0 <= p2 < old(mmu).npages() && p2 != dir
                    implies (#[trigger] mmu.rc_of(p2)) == mf.rc_of(p2) by {}
            assert forall|p2: int, k: int|
                0 <= p2 < old(mmu).npages() && 0 <= k < PAGE_WORDS
                    implies (#[trigger] mmu.mem.word(p2, k)) == mf.mem.word(p2, k) by {}
            assert(mf.rc_of(dir) == old(mmu).rc_of(dir));
            assert(old(mmu).rc_of(dir) >= 1 ==> mmu.rc_of(dir) == old(mmu).rc_of(dir) - 1
                && (old(mmu).rc_of(dir) == 1 ==> mmu.is_free(dir)));
            assert(mmu.rc_of(dir) <= old(mmu).rc_of(dir));
            assert forall|q: int| mf.is_free(q) implies #[trigger] mmu.is_free(q) by {}
        }
        self.asid_free(asid);
        let uvpt_self = VA(UVPT + UVPT_PDX * PAGE_SIZE);
        let ghost mg = *mmu;
        mmu.tlb_invalidate(asid, uvpt_self);
        proof {
            assert(mmu.mem == mg.mem && mmu.allocator == mg.allocator);
            assert forall|p: int|
                0 <= p < old(mmu).npages()
                    implies (#[trigger] mmu.rc_of(p)) <= old(mmu).rc_of(p) by {
                assert(mmu.rc_of(p) == mg.rc_of(p));
                if p != dir {
                    assert(mg.rc_of(p) == mf.rc_of(p));
                }
            }
            assert forall|q: int| old(mmu).is_free(q)
                implies #[trigger] mmu.is_free(q) by {
                assert(mf.is_free(q));
                assert(mg.is_free(q));
                assert(mmu.is_free(q) <==> mg.is_free(q));
            }
            assert forall|p2: int, k: int|
                0 <= p2 < old(mmu).npages() && 0 <= k < PAGE_WORDS
                    implies (#[trigger] mmu.mem.word(p2, k)) == mf.mem.word(p2, k) by {
                assert(mmu.mem.word(p2, k) == mg.mem.word(p2, k));
            }
            assert forall|i2: int|
                0 <= i2 < UTOP_PDX
                    implies !Pte(#[trigger] mmu.mem.word(dir, i2)).spec_flags().v by {
                assert(mmu.mem.word(dir, i2) == mf.mem.word(dir, i2));
            }
            assert forall|i2: int|
                UTOP_PDX <= i2 < PAGE_WORDS
                    implies (#[trigger] mmu.mem.word(dir, i2))
                        == old(mmu).mem.word(dir, i2) by {
                assert(mmu.mem.word(dir, i2) == mf.mem.word(dir, i2));
            }
            assert(old(mmu).rc_of(dir) >= 1 ==> mmu.rc_of(dir) == old(mmu).rc_of(dir) - 1
                && (old(mmu).rc_of(dir) == 1 ==> mmu.is_free(dir))) by {
                if old(mmu).rc_of(dir) >= 1 {
                    assert(mmu.rc_of(dir) == mg.rc_of(dir));
                    if old(mmu).rc_of(dir) == 1 {
                        assert(mg.is_free(dir));
                        assert(mmu.is_free(dir) <==> mg.is_free(dir));
                    }
                }
            }
            assert forall|i2: int|
                0 <= i2 < UTOP_PDX
                    && Pte(#[trigger] old(mmu).mem.word(dir, i2)).spec_flags().v
                    implies {
                    let t2 = Pte(old(mmu).mem.word(dir, i2)).spec_ppn();
                    &&& mmu.rc_of(t2) == old(mmu).rc_of(t2) - 1
                    &&& (old(mmu).rc_of(t2) == 1 ==> mmu.is_free(t2))
                } by {
                let t2 = Pte(old(mmu).mem.word(dir, i2)).spec_ppn();
                assert(mf.rc_of(t2) == old(mmu).rc_of(t2) - 1);
                assert(t2 != dir);
                assert(mg.rc_of(t2) == mf.rc_of(t2));
                assert(mmu.rc_of(t2) == mg.rc_of(t2));
                if old(mmu).rc_of(t2) == 1 {
                    assert(mf.is_free(t2));
                    assert(mg.is_free(t2));
                    assert(mmu.is_free(t2) <==> mg.is_free(t2));
                }
            }
            assert forall|i2: int, j2: int|
                0 <= i2 < UTOP_PDX && 0 <= j2 < PAGE_WORDS
                    && Pte(#[trigger] old(mmu).mem.word(dir, i2)).spec_flags().v
                    && Pte(#[trigger] old(mmu).mem.word(
                        Pte(old(mmu).mem.word(dir, i2)).spec_ppn(), j2)).spec_flags().v
                    implies mmu.rc_of(Pte(old(mmu).mem.word(
                            Pte(old(mmu).mem.word(dir, i2)).spec_ppn(), j2)).spec_ppn())
                        < old(mmu).rc_of(Pte(old(mmu).mem.word(
                            Pte(old(mmu).mem.word(dir, i2)).spec_ppn(), j2)).spec_ppn()) by {
                let p2 = Pte(old(mmu).mem.word(
                    Pte(old(mmu).mem.word(dir, i2)).spec_ppn(), j2)).spec_ppn();
                assert(mf.rc_of(p2) < old(mmu).rc_of(p2));
                assert(0 <= p2 < old(mmu).npages());
                assert(p2 != dir);
                assert(mg.rc_of(p2) == mf.rc_of(p2));
                assert(mmu.rc_of(p2) == mg.rc_of(p2));
            }
        }
        let mut e = *self.env_at(idx);
        e.status = EnvStatus::Free;
        self.envs.env_array[idx] = e;
        let ghost s1 = *self;
        self.free_list.push(e.tracker());
        let ghost s2 = *self;
        self.remove_from_schedule(e.id);
        proof {
            assert(e.id == env.id);
            assert(self.env_at_spec(idx as int).status == EnvStatus::Free) by {
                assert(s2.env_at_spec(idx as int) == e);
            }
            assert forall|j: int|
                0 <= j < NENV && j != idx
                    implies #[trigger] self.env_at_spec(j) == old(self).env_at_spec(j) by {
                assert(s1.env_at_spec(j) == old(self).env_at_spec(j));
            }
        }
    }

    /// Creates an environment from an ELF image: allocates a control block
    /// and address space, loads the image, seeds the entry point, marks it
    /// runnable and appends it to the schedule list.
    pub fn create(&mut self, mmu: &mut Mmu, binary: &Vec<u8>, priority: u32) -> (r: Result<
        usize,
        MosError,
    >)
        requires
            old(self).wf(),
            old(mmu).wf(),
            old(self).env_count < 0xf_ffff,
            old(self).base_windows_ok(*old(mmu)),
            old(mmu).npages() <= 0x80000,
            crate::elf::spec_is_elf32(binary@),
            // a runnable environment needs at least one quantum per round
            priority >= 1,
        ensures
            final(self).wf(),
            final(mmu).wf(),
            final(mmu).npages() == old(mmu).npages(),
            match r {
                Ok(idx) => {
                    let e = final(self).env_at_spec(idx as int);
                    &&& idx < NENV
                    &&& e.status == EnvStatus::Runnable
                    &&& e.priority == priority
                    &&& e.spec_pos() == idx
                    &&& e.asid < NASID
                    &&& e.pgdir.0 >= KSEG0
                    &&& binary@.len() >= 52
                    &&& e.tf.cp0_epc == crate::elf::spec_u32(binary@, 24)
                    &&& final(self).schedule_list@
                        == old(self).schedule_list@.push(EnvTracker { pos: idx })
                    &&& (forall|j: int|
                        0 <= j < NENV && j != idx
                            ==> #[trigger] final(self).env_at_spec(j)
                                == old(self).env_at_spec(j))
                },
                Err(e) => e == MosError::NoFreeEnv || e == MosError::NoMem
                    || e == MosError::NotExec || e == MosError::Inval,
            },
            // creation is owed when a slot, a page and an ASID are free
            // and the image carries no program headers
            (old(self).free_list@.len() > 0
                && (exists|q: int| old(mmu).is_free(q))
                && (exists|a: int| 0 <= a < NASID && !old(self).asid_bitmap@[a])
                && binary@.len() >= 52
                && crate::elf::spec_u16(binary@, 44) == 0) ==> r is Ok,
    {
        let got = self.alloc_env(mmu, 0);
        let idx = match got {
            Ok(idx) => idx,
            Err(e) => {
                return Err(e);
            },
        };
        let ghost s1 = *self;
        let mut e = *self.env_at(idx);
        e.priority = priority;
        e.status = EnvStatus::Runnable;
        let pgdir = e.pgdir();
        let loaded = crate::elf::load_icode(mmu, pgdir, e.asid, binary);
        let entry = match loaded {
            Ok(v) => v,
            Err(err) => {
                return Err(err);
            },
        };
        e.tf.cp0_epc = entry;
        self.envs.env_array[idx] = e;
        let ghost s2 = *self;
        self.schedule_list.push(EnvTracker::new(idx));
        proof {
            assert(self.env_at_spec(idx as int) == e);
            assert(e.spec_pos() == idx);
            assert forall|j: int|
                0 <= j < NENV && j != idx
                    implies #[trigger] self.env_at_spec(j) == old(self).env_at_spec(j) by {
                assert(s2.env_at_spec(j) == s1.env_at_spec(j));
                assert(s1.env_at_spec(j) == old(self).env_at_spec(j));
            }
        }
        Ok(idx)
    }
}


/// Number of pages the environment array occupies in kernel memory.
pub const ENVS_PAGES: usize = 55;

impl EnvManager {
    /// Boot-time initialization: builds the free list with low slots
    /// preferred, allocates the base page directory, and maps the page
    /// tracker array and the environment array (which lives at `envs_pa`
    /// inside the kernel image) read-only and globally into it.
    ///
    /// Returns `false` on memory exhaustion during boot.
    pub fn init(&mut self, mmu: &mut Mmu, envs_pa: PA) -> (ok: bool)
        requires
            old(self).wf(),
            old(mmu).wf(),
            old(mmu).npages() <= 0x80000,
            // the tracker array's pages, mapped at UPAGES
            1 <= old(mmu).allocator.tracker.page_count <= PAGE_WORDS,
            old(mmu).allocator.tracker.ppn.0 + old(mmu).allocator.tracker.page_count
                <= old(mmu).npages(),
            forall|k: int|
                0 <= k < old(mmu).allocator.tracker.page_count
                    ==> 1 <= (#[trigger] old(mmu).rc_of(
                        old(mmu).allocator.tracker.ppn.0 + k)) < 0xfffe,
            // the environment array's pages, mapped at UENVS
            envs_pa.0 as int % PAGE_SIZE as int == 0,
            envs_pa.0 as int / PAGE_SIZE as int + ENVS_PAGES <= old(mmu).npages(),
            forall|k: int|
                0 <= k < ENVS_PAGES
                    ==> 1 <= (#[trigger] old(mmu).rc_of(
                        envs_pa.0 as int / PAGE_SIZE as int + k)) < 0xfffe,
            // the two windows cover disjoint physical pages
            envs_pa.0 as int / PAGE_SIZE as int + ENVS_PAGES
                <= old(mmu).allocator.tracker.ppn.0
                || old(mmu).allocator.tracker.ppn.0 + old(mmu).allocator.tracker.page_count
                    <= envs_pa.0 as int / PAGE_SIZE as int,
        ensures
            final(self).wf(),
            final(mmu).wf(),
            final(mmu).npages() == old(mmu).npages(),
            final(self).envs.env_array@ == old(self).envs.env_array@,
            final(self).schedule_list == old(self).schedule_list,
            final(self).cur == old(self).cur,
            final(self).asid_bitmap == old(self).asid_bitmap,
            final(self).env_count == old(self).env_count,
            ok ==> {
                &&& final(self).free_list@.len() == NENV
                &&& (forall|i: int|
                    0 <= i < NENV
                        ==> (#[trigger] final(self).free_list@[i]).pos == NENV - 1 - i)
                &&& final(self).base_windows_ok(*final(mmu))
                // the tracker array is mapped at UPAGES, global and
                // read-only, page by page
                &&& (forall|k: int|
                    0 <= k < old(mmu).allocator.tracker.page_count ==> {
                        let w = #[trigger] seg_va(VA(UPAGES), k);
                        let d = final(self).base_pgdir.dir();
                        &&& va_mapped(final(mmu).mem, d, w)
                        &&& crate::map::mapped_page(final(mmu).mem, d, w)
                            == old(mmu).allocator.tracker.ppn.0 + k
                        &&& crate::map::pte_of(final(mmu).mem, d, w).spec_flags()
                            == (PteFlags {
                                g: true,
                                v: true,
                                c0: true,
                                c1: true,
                                ..PteFlags::spec_empty()
                            })
                    })
                // and the environment array at UENVS, likewise
                &&& (forall|k: int|
                    0 <= k < ENVS_PAGES ==> {
                        let w = #[trigger] seg_va(VA(UENVS), k);
                        let d = final(self).base_pgdir.dir();
                        &&& va_mapped(final(mmu).mem, d, w)
                        &&& crate::map::mapped_page(final(mmu).mem, d, w)
                            == envs_pa.0 as int / PAGE_SIZE as int + k
                        &&& crate::map::pte_of(final(mmu).mem, d, w).spec_flags()
                            == (PteFlags {
                                g: true,
                                v: true,
                                c0: true,
                                c1: true,
                                ..PteFlags::spec_empty()
                            })
                    })
            },
            // boot is owed whenever three pages are free: one for the base
            // directory and one table for each window
            (exists|p1: int, p2: int, p3: int|
                p1 != p2 && p1 != p3 && p2 != p3 && #[trigger] old(mmu).is_free(p1)
                    && #[trigger] old(mmu).is_free(p2) && #[trigger] old(mmu).is_free(p3))
                ==> ok,
    {
        let mut free_list: Vec<EnvTracker> = Vec::new();
        let mut i: usize = 0;
        while i < NENV
            invariant
                i <= NENV,
                free_list@.len() == i,
                forall|k: int|
                    0 <= k < i ==> (#[trigger] free_list@[k]).pos == NENV - 1 - k,
            decreases NENV - i,
        {
            free_list.push(EnvTracker::new(NENV - 1 - i));
            i = i + 1;
        }
        self.free_list = free_list;
        let made = PageDirectory::init(mmu);
        let (base, _page) = match made {
            Ok(v) => v,
            Err(_) => {
                proof {
                    if exists|p1: int, p2: int, p3: int|
                        p1 != p2 && p1 != p3 && p2 != p3
                            && #[trigger] old(mmu).is_free(p1)
                            && #[trigger] old(mmu).is_free(p2)
                            && #[trigger] old(mmu).is_free(p3) {
                        let (p1, p2, p3) = choose|p1: int, p2: int, p3: int|
                            p1 != p2 && p1 != p3 && p2 != p3
                                && #[trigger] old(mmu).is_free(p1)
                                && #[trigger] old(mmu).is_free(p2)
                                && #[trigger] old(mmu).is_free(p3);
                        assert(false);
                    }
                }
                return false;
            },
        };
        self.base_pgdir = base;
        let ghost m1 = *mmu;
        let (tppn, tcount) = mmu.allocator.get_tracker_info();
        proof {
            // the fresh base directory was free, hence unreferenced before
            assert(old(mmu).rc_of(base.dir()) == 0) by {
                if old(mmu).is_free(base.dir()) {
                    let (i2, j2) = choose|i2: int, j2: int|
                        old(mmu).allocator.block_in_range(i2, j2)
                            && #[trigger] old(mmu).allocator.covers(i2, j2, base.dir());
                }
            }
            // the referenced window pages are all distinct from it
            assert forall|k: int|
                0 <= k < tcount
                    implies 1 <= (#[trigger] m1.rc_of(tppn.0 + k)) < 0xffff
                        && tppn.0 + k != base.dir() by {
                assert(1 <= old(mmu).rc_of(tppn.0 + k) < 0xfffe);
                assert(tppn.0 + k != base.dir());
                assert(m1.rc_of(tppn.0 + k) == old(mmu).rc_of(tppn.0 + k));
            }
            assert(VA(UPAGES).0 as int % crate::layout::PDMAP as int == 0);
            assert(!pde_valid(m1.mem, base.dir(), VA(UPAGES)));
            assert forall|k: int|
                0 <= k < tcount
                    implies !va_mapped(m1.mem, base.dir(), #[trigger] seg_va(VA(UPAGES), k)) by {
                lemma_seg_indices(VA(UPAGES), k);
                assert(m1.mem.word(base.dir(), seg_va(VA(UPAGES), k).spec_pdx()) == 0);
            }
            assert forall|i2: int|
                0 <= i2 < PAGE_WORDS implies {
                    let pde = Pte(#[trigger] m1.mem.word(base.dir(), i2));
                    pde.spec_flags().v ==> m1.rc_of(pde.spec_ppn()) >= 1
                } by {
                assert(m1.mem.word(base.dir(), i2) == 0);
            }
        }
        let r1 = map_segment(
            mmu,
            base,
            0,
            PA(tppn.0 * PAGE_SIZE),
            VA(UPAGES),
            tcount * PAGE_SIZE,
            PteFlags::flag_g(),
        );
        if r1.is_err() {
            proof {
                if exists|p1: int, p2: int, p3: int|
                    p1 != p2 && p1 != p3 && p2 != p3 && #[trigger] old(mmu).is_free(p1)
                        && #[trigger] old(mmu).is_free(p2)
                        && #[trigger] old(mmu).is_free(p3) {
                    let (p1, p2, p3) = choose|p1: int, p2: int, p3: int|
                        p1 != p2 && p1 != p3 && p2 != p3 && #[trigger] old(mmu).is_free(p1)
                            && #[trigger] old(mmu).is_free(p2)
                            && #[trigger] old(mmu).is_free(p3);
                    assert(m1.is_free(p1) || m1.is_free(p2) || m1.is_free(p3));
                    assert(false);
                }
            }
            return false;
        }
        let ghost m2 = *mmu;
        proof {
            let eb = envs_pa.0 as int / PAGE_SIZE as int;
            assert((tppn.0 * PAGE_SIZE) as int / PAGE_SIZE as int == tppn.0
                && (tcount * PAGE_SIZE) as int / PAGE_SIZE as int == tcount) by {
                assert(tppn.0 * PAGE_SIZE == PAGE_SIZE as int * tppn.0 + 0) by (nonlinear_arith) {}
                vstd::arithmetic::div_mod::lemma_fundamental_div_mod_converse(
                    (tppn.0 * PAGE_SIZE) as int, PAGE_SIZE as int, tppn.0 as int, 0);
                assert(tcount * PAGE_SIZE == PAGE_SIZE as int * tcount + 0) by (nonlinear_arith) {}
                vstd::arithmetic::div_mod::lemma_fundamental_div_mod_converse(
                    (tcount * PAGE_SIZE) as int, PAGE_SIZE as int, tcount as int, 0);
            }
            assert forall|k: int|
                0 <= k < ENVS_PAGES
                    implies 1 <= (#[trigger] m2.rc_of(eb + k)) < 0xffff
                        && eb + k != base.dir() by {
                assert(1 <= old(mmu).rc_of(eb + k) < 0xfffe);
                assert(eb + k != base.dir());
                assert(m1.rc_of(eb + k) == old(mmu).rc_of(eb + k));
                assert(!m1.is_free(eb + k)) by {
                    if m1.is_free(eb + k) {
                        let (i2, j2) = choose|i2: int, j2: int|
                            m1.allocator.block_in_range(i2, j2)
                                && #[trigger] m1.allocator.covers(i2, j2, eb + k);
                        assert(false);
                    }
                }
                assert(!(tppn.0 <= eb + k < tppn.0 + tcount));
                assert(m2.rc_of(eb + k) == m1.rc_of(eb + k));
            }
            assert(VA(UENVS).0 as int % crate::layout::PDMAP as int == 0);
            assert(!pde_valid(m2.mem, base.dir(), VA(UENVS))) by {
                assert(VA(UENVS).spec_pdx() != VA(UPAGES).spec_pdx()) by {
                    assert(VA(UENVS).spec_pdx() == 0x7f40_0000int / 0x40_0000 % 1024);
                    assert(VA(UPAGES).spec_pdx() == 0x7f80_0000int / 0x40_0000 % 1024);
                }
                assert(m2.mem.word(base.dir(), VA(UENVS).spec_pdx())
                    == m1.mem.word(base.dir(), VA(UENVS).spec_pdx()));
            }
            assert forall|k: int|
                0 <= k < ENVS_PAGES
                    implies !va_mapped(m2.mem, base.dir(), #[trigger] seg_va(VA(UENVS), k)) by {
                lemma_seg_indices(VA(UENVS), k);
                assert(seg_va(VA(UENVS), k).spec_pdx() == VA(UENVS).spec_pdx());
                assert(!pde_valid(m2.mem, base.dir(), seg_va(VA(UENVS), k)));
            }
            assert(m2.rc_of(base.dir()) == m1.rc_of(base.dir()));
        }
        let r2 = map_segment(
            mmu,
            base,
            0,
            envs_pa,
            VA(UENVS),
            ENVS_PAGES * PAGE_SIZE,
            PteFlags::flag_g(),
        );
        if r2.is_err() {
            proof {
                // with three free pages this point is unreachable
                if exists|p1: int, p2: int, p3: int|
                    p1 != p2 && p1 != p3 && p2 != p3 && #[trigger] old(mmu).is_free(p1)
                        && #[trigger] old(mmu).is_free(p2)
                        && #[trigger] old(mmu).is_free(p3) {
                    let (p1, p2, p3) = choose|p1: int, p2: int, p3: int|
                        p1 != p2 && p1 != p3 && p2 != p3 && #[trigger] old(mmu).is_free(p1)
                            && #[trigger] old(mmu).is_free(p2)
                            && #[trigger] old(mmu).is_free(p3);
                    let tp = choose|tp: int|
                        #[trigger] m1.is_free(tp)
                            && (forall|q: int|
                                #[trigger] m2.is_free(q) <==> (m1.is_free(q) && q != tp));
                    assert(m1.is_free(p1) || m1.is_free(p2) || m1.is_free(p3));
                    assert(m2.is_free(p1) || m2.is_free(p2) || m2.is_free(p3));
                    assert(false);
                }
            }
            return false;
        }
        let ghost m3 = *mmu;
        proof {
            assert(self.base_windows_ok(*mmu)) by {
                assert(mmu.rc_of(base.dir()) == m2.rc_of(base.dir()));
            }
            let d = base.dir();
            // the first window's translations survive the second mapping:
            // its table is referenced, so its words are untouched
            assert forall|k: int|
                0 <= k < tcount implies {
                    let w = #[trigger] seg_va(VA(UPAGES), k);
                    &&& va_mapped(m3.mem, d, w)
                    &&& crate::map::mapped_page(m3.mem, d, w) == tppn.0 + k
                    &&& crate::map::pte_of(m3.mem, d, w).spec_flags()
                        == (PteFlags {
                            g: true,
                            v: true,
                            c0: true,
                            c1: true,
                            ..PteFlags::spec_empty()
                        })
                } by {
                let w = seg_va(VA(UPAGES), k);
                lemma_seg_indices(VA(UPAGES), k);
                assert(va_mapped(m2.mem, d, w));
                let t1 = pde_of(m2.mem, d, w).spec_ppn();
                assert(m2.rc_of(t1) >= 1);
                assert(!m2.is_free(t1)) by {
                    if m2.is_free(t1) {
                        let (i2, j2) = choose|i2: int, j2: int|
                            m2.allocator.block_in_range(i2, j2)
                                && #[trigger] m2.allocator.covers(i2, j2, t1);
                        assert(false);
                    }
                }
                assert(w.spec_pdx() != VA(UENVS).spec_pdx()) by {
                    assert(VA(UENVS).spec_pdx() == 0x7f40_0000int / 0x40_0000 % 1024);
                    assert(VA(UPAGES).spec_pdx() == 0x7f80_0000int / 0x40_0000 % 1024);
                }
                assert(m3.mem.word(d, w.spec_pdx()) == m2.mem.word(d, w.spec_pdx()));
                assert(m3.mem.word(t1, w.spec_ptx()) == m2.mem.word(t1, w.spec_ptx()));
            }
            assert forall|k: int|
                0 <= k < ENVS_PAGES implies {
                    let w = #[trigger] seg_va(VA(UENVS), k);
                    &&& va_mapped(m3.mem, d, w)
                    &&& crate::map::mapped_page(m3.mem, d, w)
                        == envs_pa.0 as int / PAGE_SIZE as int + k
                    &&& crate::map::pte_of(m3.mem, d, w).spec_flags()
                        == (PteFlags {
                            g: true,
                            v: true,
                            c0: true,
                            c1: true,
                            ..PteFlags::spec_empty()
                        })
                } by {
                lemma_seg_indices(VA(UENVS), k);
            }
        }
        true
    }
}

/// Destroying an environment releases its ASID: the bitmap slot is clear
/// afterwards — as [`EnvManager::env_free`] ensures — so a subsequent
/// allocation is owed a free ASID.
pub proof fn lemma_freed_asid_reusable(pre: Seq<bool>, post: Seq<bool>, a: int)
    requires
        0 <= a < pre.len(),
        post == pre.update(a, false),
    ensures
        !post[a],
        exists|x: int| 0 <= x < post.len() && !(#[trigger] post[x]),
{
    assert(!post[a]);
}

} // verus!






