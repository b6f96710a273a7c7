//! The kernel's whole state and the environment run/destroy paths.
//!
//! Hardware pieces that the real machine holds implicitly — physical
//! memory, the TLB, the kernel-stack trap-frame scratch area, the console —
//! are explicit fields here, so that every kernel operation is a function
//! of this one value.

use vstd::prelude::*;
use crate::addr::{PA, PPN, VA};
use crate::env::{Env, EnvManager, EnvStatus, EnvTracker, ENVS_PAGES, NENV};
use crate::layout::{KSEG0, PAGE_SIZE, PAGE_WORDS, USTACKTOP, UVPT, UXSTACKTOP};
use crate::mmu::{Mmu, Tlb};
use crate::page::{PageAllocator, PhysMem};
use crate::trapframe::{Trapframe, TF_SIZE};

verus! {

/// The whole kernel state.
pub struct Kernel {
    /// Physical memory, the page allocator and the TLB.
    pub mmu: Mmu,
    /// The environment manager.
    pub env_manager: EnvManager,
    /// The scheduler's remaining-quantum tick counter.
    pub sched_count: u32,
    /// The trap-frame scratch area at the top of the kernel stack, where
    /// the exception entry saves the interrupted context.
    pub kstack_tf: Trapframe,
    /// Bytes written to the console, newest last.
    pub console_out: Vec<u8>,
    /// Bytes waiting to be read from the console, oldest first.
    pub console_in: Vec<u8>,
}

impl Kernel {
    /// Well-formed: both managers are.
    pub open spec fn wf(self) -> bool {
        &&& self.mmu.wf()
        &&& self.env_manager.wf()
    }

    /// Boot: builds physical memory of `npages` pages, hands pages from
    /// `start` up to the buddy allocator (pages below `start` hold the
    /// kernel image, including the environment array at `envs_pa`), and
    /// initializes the environment manager over it.
    ///
    /// Returns `None` if boot-time allocation fails.
    pub fn init(npages: usize, start: PPN, envs_pa: PA) -> (r: Option<Kernel>)
        requires
            0 < start.0 < npages <= 0x40000,
            envs_pa.0 as int % PAGE_SIZE as int == 0,
            envs_pa.0 as int / PAGE_SIZE as int + ENVS_PAGES <= start.0,
        ensures
            match r {
                Some(k) => {
                    &&& k.wf()
                    &&& k.mmu.npages() == npages
                    &&& k.env_manager.free_list@.len() == NENV
                    &&& (forall|i: int|
                        0 <= i < NENV
                            ==> (#[trigger] k.env_manager.free_list@[i]).pos == NENV - 1 - i)
                    &&& k.env_manager.base_windows_ok(k.mmu)
                    &&& k.env_manager.schedule_list@.len() == 0
                    &&& k.env_manager.cur is None
                    &&& k.env_manager.env_count == 0
                    &&& (forall|a: int| 0 <= a < 256 ==> !(#[trigger] k.env_manager.asid_bitmap@[a]))
                    &&& k.sched_count == 0
                    &&& k.env_manager.envs.env_array@.len() == NENV
                    &&& (forall|i: int|
                        0 <= i < NENV
                            ==> (#[trigger] k.env_manager.env_at_spec(i)).status
                                == EnvStatus::Free)
                    &&& k.envs_sound()
                },
                None => true,
            },
    {
        let mut mem = PhysMem::new(npages);
        let mut allocator = PageAllocator::new();
        let ok = allocator.init(&mut mem, start, PPN(npages));
        if !ok {
            return None;
        }
        proof {
            // the tracker array fits inside one directory window
            assert(allocator.tracker.page_count <= PAGE_WORDS) by {
                assert((npages + 340nat) / 341 <= PAGE_WORDS) by (nonlinear_arith)
                    requires npages <= 0x40000, PAGE_WORDS == 1024,
                {}
            }
        }
        let mut mmu = Mmu { mem, allocator, tlb: Tlb::new() };
        let mut env_manager = EnvManager::new();
        let ghost em0 = env_manager;
        proof {
            let eb = envs_pa.0 as int / PAGE_SIZE as int;
            assert forall|k: int|
                0 <= k < ENVS_PAGES
                    implies 1 <= (#[trigger] mmu.rc_of(eb + k)) < 0xfffe by {
                assert(0 <= eb + k < start.0);
            }
        }
        let ok2 = env_manager.init(&mut mmu, envs_pa);
        if !ok2 {
            return None;
        }
        let k = Kernel {
            mmu,
            env_manager,
            sched_count: 0,
            kstack_tf: Trapframe::new(),
            console_out: Vec::new(),
            console_in: Vec::new(),
        };
        proof {
            assert(k.wf());
            assert(k.mmu.npages() == npages);
            assert(k.env_manager.free_list@.len() == NENV);
            assert(k.env_manager.base_windows_ok(k.mmu));
            assert(k.env_manager.schedule_list@.len() == 0);
            assert(k.env_manager.cur is None);
            assert(k.env_manager.env_count == 0);
            assert forall|a: int| 0 <= a < 256
                implies !(#[trigger] k.env_manager.asid_bitmap@[a]) by {}
            assert forall|i: int| 0 <= i < NENV
                implies (#[trigger] k.env_manager.env_at_spec(i)).status == EnvStatus::Free by {
                assert(k.env_manager.envs.env_array@ == em0.envs.env_array@);
                assert((#[trigger] em0.env_at_spec(i)).status == EnvStatus::Free);
            }
            assert forall|i: int| 0 <= i < NENV
                implies (#[trigger] k.env_manager.free_list@[i]).pos == NENV - 1 - i by {}
            assert(k.envs_sound()) by {
                assert forall|j: int| 0 <= j < NENV implies {
                    let e = #[trigger] k.env_manager.env_at_spec(j);
                    e.status != EnvStatus::Free ==> {
                        &&& e.pgdir.0 >= KSEG0
                        &&& 0 <= e.spec_pgdir_ppn() < k.mmu.npages()
                        &&& crate::map::dir_ok(k.mmu.mem, e.spec_pgdir_ppn())
                        &&& k.mmu.rc_of(e.spec_pgdir_ppn()) >= 1
                        &&& e.asid < 256
                    }
                } by {
                    assert(k.env_manager.envs.env_array@ == em0.envs.env_array@);
                    assert((#[trigger] em0.env_at_spec(j)).status == EnvStatus::Free);
                }
            }
        }
        Some(k)
    }

    /// The total number of free physical pages is not tracked as a count;
    /// this helper reports whether a given page is currently free, for
    /// tests and diagnostics.
    pub fn page_is_free(&self, ppn: PPN) -> (r: bool)
        requires
            self.wf(),
            ppn.0 < self.mmu.npages(),
        ensures
            r == self.mmu.is_free(ppn.0 as int),
    {
        let mut i: usize = 0;
        let mut found: bool = false;
        while i < crate::page::ORDER
            invariant
                i <= crate::page::ORDER,
                self.wf(),
                ppn.0 < self.mmu.npages(),
                found ==> self.mmu.is_free(ppn.0 as int),
                !found ==> forall|i2: int, j2: int|
                    0 <= i2 < i && self.mmu.allocator.block_in_range(i2, j2)
                        ==> !(#[trigger] self.mmu.allocator.covers(i2, j2, ppn.0 as int)),
            decreases crate::page::ORDER - i,
        {
            let list_len = self.mmu.allocator.free_list[i].len();
            let mut j: usize = 0;
            while j < list_len
                invariant
                    j <= list_len,
                    i < crate::page::ORDER,
                    self.wf(),
                    ppn.0 < self.mmu.npages(),
                    list_len == self.mmu.allocator.free_list@[i as int]@.len(),
                    found ==> self.mmu.is_free(ppn.0 as int),
                    !found ==> forall|j2: int|
                        0 <= j2 < j
                            ==> !(#[trigger] self.mmu.allocator.covers(i as int, j2, ppn.0 as int)),
                    !found ==> forall|i2: int, j2: int|
                        0 <= i2 < i && self.mmu.allocator.block_in_range(i2, j2)
                            ==> !(#[trigger] self.mmu.allocator.covers(i2, j2, ppn.0 as int)),
                decreases list_len - j,
            {
                let b = self.mmu.allocator.free_list[i][j];
                let size = crate::page::block_size(i);
                if b.0 <= ppn.0 && ppn.0 - b.0 < size {
                    proof {
                        assert(self.mmu.allocator.covers(i as int, j as int, ppn.0 as int));
                    }
                    found = true;
                }
                j = j + 1;
            }
            i = i + 1;
        }
        proof {
            if !found && self.mmu.is_free(ppn.0 as int) {
                let (i2, j2) = choose|i2: int, j2: int|
                    self.mmu.allocator.block_in_range(i2, j2)
                        && #[trigger] self.mmu.allocator.covers(i2, j2, ppn.0 as int);
            }
        }
        found
    }

    /// Hands the CPU to environment `idx`: saves the interrupted context
    /// from the kernel-stack scratch area into the outgoing environment,
    /// records the newcomer as current, counts the run and publishes its
    /// address space. The actual return to user mode is the low-level
    /// trampoline's job.
    pub fn env_run(&mut self, idx: usize)
        requires
            old(self).wf(),
            idx < NENV,
            old(self).env_manager.env_at_spec(idx as int).status == EnvStatus::Runnable,
            old(self).env_manager.env_at_spec(idx as int).pgdir.0 >= KSEG0,
            old(self).env_manager.env_at_spec(idx as int).runs < 0xffff_ffff,
        ensures
            final(self).wf(),
            ({
                let saved = match old(self).env_manager.cur {
                    Some(c) => old(self).env_manager.envs.env_array@.update(
                        c.pos as int,
                        Env {
                            tf: old(self).kstack_tf,
                            ..old(self).env_manager.env_at_spec(c.pos as int)
                        },
                    ),
                    None => old(self).env_manager.envs.env_array@,
                };
                let run = Env { runs: (saved[idx as int].runs + 1) as u32, ..saved[idx as int] };
                &&& final(self).env_manager.envs.env_array@ == saved.update(idx as int, run)
            }),
            final(self).env_manager.cur == Some(EnvTracker {
                pos: (final(self).env_manager.env_at_spec(idx as int).id % NENV) as usize,
            }),
            final(self).env_manager.cur_pgdir.dir()
                == old(self).env_manager.env_at_spec(idx as int).spec_pgdir_ppn(),
            final(self).env_manager.free_list == old(self).env_manager.free_list,
            final(self).env_manager.schedule_list == old(self).env_manager.schedule_list,
            final(self).env_manager.asid_bitmap == old(self).env_manager.asid_bitmap,
            final(self).mmu == old(self).mmu,
            final(self).sched_count == old(self).sched_count,
            final(self).kstack_tf == old(self).kstack_tf,
    {
        match self.env_manager.curenv() {
            Some(c) => {
                let mut ce = *self.env_manager.env_at(c);
                ce.tf = self.kstack_tf;
                self.env_manager.envs.env_array[c] = ce;
            },
            None => (),
        }
        let mut e = *self.env_manager.env_at(idx);
        e.runs = e.runs + 1;
        self.env_manager.envs.env_array[idx] = e;
        let pgdir = e.pgdir();
        self.env_manager.cur = Some(e.tracker());
        self.env_manager.cur_pgdir = pgdir;
    }
}


impl Kernel {
    /// Destroys environment `idx`: frees it, and if it was the running
    /// environment, clears "current" and immediately schedules the next
    /// one, returning its slot (this call then never returns to the
    /// destroyed context). Destroying the last runnable environment leaves
    /// the kernel no work, which is fatal, so it is excluded.
    pub fn env_destroy(&mut self, idx: usize) -> (r: Option<usize>)
        requires
            old(self).wf(),
            idx < NENV,
            old(self).env_manager.env_at_spec(idx as int).pgdir.0 >= KSEG0,
            0 <= old(self).env_manager.env_at_spec(idx as int).spec_pgdir_ppn()
                < old(self).mmu.npages(),
            crate::map::dir_ok(
                old(self).mmu.mem,
                old(self).env_manager.env_at_spec(idx as int).spec_pgdir_ppn(),
            ),
            old(self).env_manager.env_at_spec(idx as int).asid < 256,
            EnvManager::aspace_sound_for(
                old(self).mmu,
                old(self).env_manager.env_at_spec(idx as int).spec_pgdir_ppn(),
            ),
            ({
                let e = old(self).env_manager.env_at_spec(idx as int);
                let survivors = old(self).env_manager.schedule_list@.filter(
                    |t: EnvTracker| t.pos != e.id as int % NENV as int);
                (old(self).env_manager.cur matches Some(c) && c.pos == e.spec_pos()) ==> {
                    &&& survivors.len() > 0
                    &&& survivors.first().pos != idx
                    &&& {
                        let h = old(self).env_manager.env_at_spec(survivors.first().pos as int);
                        &&& h.status == EnvStatus::Runnable
                        &&& h.pgdir.0 >= KSEG0
                        &&& h.runs < 0xffff_ffff
                        &&& h.priority >= 1
                    }
                }
            }),
        ensures
            final(self).wf(),
            final(self).env_manager.env_at_spec(idx as int).status == EnvStatus::Free,
            final(self).env_manager.asid_bitmap@
                == old(self).env_manager.asid_bitmap@.update(
                    old(self).env_manager.env_at_spec(idx as int).asid as int, false),
            ({
                let e = old(self).env_manager.env_at_spec(idx as int);
                let survivors = old(self).env_manager.schedule_list@.filter(
                    |t: EnvTracker| t.pos != e.id as int % NENV as int);
                let was_current = old(self).env_manager.cur matches Some(c)
                    && c.pos == e.spec_pos();
                match r {
                    Some(next) => {
                        // the caller destroyed itself: the scheduler took
                        // over at once
                        &&& was_current
                        &&& next == survivors.first().pos
                        &&& final(self).env_manager.cur == Some(EnvTracker {
                            pos: (final(self).env_manager.env_at_spec(next as int).id
                                % NENV) as usize,
                        })
                        &&& final(self).env_manager.schedule_list@ == survivors
                        &&& final(self).sched_count
                            == old(self).env_manager.env_at_spec(
                                survivors.first().pos as int).priority - 1
                    },
                    None => {
                        &&& !was_current
                        &&& final(self).env_manager.cur == old(self).env_manager.cur
                        &&& final(self).env_manager.schedule_list@ == survivors
                        &&& final(self).sched_count == old(self).sched_count
                    },
                }
            }),
            // the environment's memory is released, as freeing ensures
            ({
                let dir = old(self).env_manager.env_at_spec(idx as int).spec_pgdir_ppn();
                let asid = old(self).env_manager.env_at_spec(idx as int).asid as int;
                &&& (forall|i: int, j: int|
                    0 <= i < crate::env::UTOP_PDX && 0 <= j < PAGE_WORDS
                        && crate::map::Pte(
                            #[trigger] old(self).mmu.mem.word(dir, i)).spec_flags().v
                        && crate::map::Pte(#[trigger] old(self).mmu.mem.word(
                            crate::map::Pte(old(self).mmu.mem.word(dir, i)).spec_ppn(),
                            j)).spec_flags().v
                        ==> !final(self).mmu.tlb.has(crate::mmu::tlb_key(
                            VA((i * crate::layout::PDMAP + j * PAGE_SIZE) as usize), asid)))
                &&& (forall|i: int|
                    0 <= i < crate::env::UTOP_PDX
                        ==> !crate::map::Pte(
                            #[trigger] final(self).mmu.mem.word(dir, i)).spec_flags().v)
                &&& (old(self).mmu.rc_of(dir) == 1 ==> final(self).mmu.is_free(dir))
                &&& (forall|i: int|
                    0 <= i < crate::env::UTOP_PDX
                        && crate::map::Pte(
                            #[trigger] old(self).mmu.mem.word(dir, i)).spec_flags().v
                        ==> {
                        let t = crate::map::Pte(old(self).mmu.mem.word(dir, i)).spec_ppn();
                        &&& final(self).mmu.rc_of(t) == old(self).mmu.rc_of(t) - 1
                        &&& (old(self).mmu.rc_of(t) == 1 ==> final(self).mmu.is_free(t))
                    })
            }),
            forall|p: int|
                0 <= p < old(self).mmu.npages()
                    ==> (#[trigger] final(self).mmu.rc_of(p)) <= old(self).mmu.rc_of(p),
            forall|q: int|
                old(self).mmu.is_free(q) ==> #[trigger] final(self).mmu.is_free(q),
    {
        let env = *self.env_manager.env_at(idx);
        self.env_manager.env_free(&mut self.mmu, idx);
        let ghost freed = *self;
        let was_current = match self.env_manager.curenv() {
            Some(c) => c == env.pos(),
            None => false,
        };
        if was_current {
            self.env_manager.cur = None;
            let ghost mid = *self;
            proof {
                let e = old(self).env_manager.env_at_spec(idx as int);
                let survivors = old(self).env_manager.schedule_list@.filter(
                    |t: EnvTracker| t.pos != e.id as int % NENV as int);
                assert(mid.env_manager.schedule_list@ == survivors);
                assert(crate::schedule::rotated(mid) == survivors);
                let h = survivors.first();
                assert(h.pos != idx);
                assert(h.pos < NENV);
                assert(freed.env_manager.env_at_spec(h.pos as int)
                    == old(self).env_manager.env_at_spec(h.pos as int));
                assert(mid.env_manager.env_at_spec(h.pos as int)
                    == freed.env_manager.env_at_spec(h.pos as int));
            }
            let next = self.schedule(true);
            proof {
                assert(next != idx);
                assert(self.env_manager.env_at_spec(idx as int)
                    == mid.env_manager.env_at_spec(idx as int));
                assert(mid.env_manager.env_at_spec(idx as int)
                    == freed.env_manager.env_at_spec(idx as int));
                assert(freed.env_manager.env_at_spec(idx as int).status == EnvStatus::Free);
            }
            Some(next)
        } else {
            None
        }
    }
}


/// Word `w` of a trap frame as it is laid out in memory: the 32 general
/// registers, then status, hi, lo, bad virtual address, cause and epc.
pub open spec fn spec_tf_word(tf: Trapframe, w: int) -> int {
    if 0 <= w < 32 {
        tf.regs@[w] as int
    } else if w == 32 {
        tf.cp0_status as int
    } else if w == 33 {
        tf.hi as int
    } else if w == 34 {
        tf.lo as int
    } else if w == 35 {
        tf.cp0_badvaddr as int
    } else if w == 36 {
        tf.cp0_cause as int
    } else if w == 37 {
        tf.cp0_epc as int
    } else {
        0
    }
}

/// Reads word `w` of the trap frame's memory layout.
fn tf_word(tf: &Trapframe, w: usize) -> (r: u32)
    requires
        w < 38,
    ensures
        r as int == spec_tf_word(*tf, w as int),
{
    if w < 32 {
        tf.regs[w]
    } else if w == 32 {
        tf.cp0_status
    } else if w == 33 {
        tf.hi
    } else if w == 34 {
        tf.lo
    } else if w == 35 {
        tf.cp0_badvaddr
    } else if w == 36 {
        tf.cp0_cause
    } else {
        tf.cp0_epc
    }
}

/// The user exception-stack slot that receives the nested frame: one
/// frame below the interrupted stack pointer if that already lies on the
/// exception stack, else one frame below its top.
pub open spec fn spec_tlb_mod_slot(tf: Trapframe) -> int {
    let sp = tf.regs@[29] as int;
    if USTACKTOP <= sp < UXSTACKTOP {
        sp - TF_SIZE
    } else {
        UXSTACKTOP - TF_SIZE
    }
}

impl Kernel {
    /// The TLB-modified fault path: a store hit a read-only page. Copies
    /// the interrupted context into a nested trap frame on the current
    /// environment's user exception stack and redirects the saved context
    /// to its registered handler, with the nested frame's address as the
    /// argument. An environment without a registered handler cannot make
    /// progress, which is fatal, so one is required; the receiving slot
    /// must be word-aligned, lie within one mapped page of the current
    /// address space, and that page must be a plain data page. On the
    /// real machine an unmapped exception stack would itself fault and be
    /// paged in passively before the write; here the caller resolves that
    /// first — the TLB refill path on the slot's address — so this
    /// path asks for the slot to be mapped already.
    pub fn do_tlb_mod(&mut self)
        requires
            old(self).wf(),
            old(self).env_manager.cur is Some,
            old(self).env_manager.env_at_spec(
                old(self).env_manager.cur.unwrap().pos as int).user_tlb_mod_entry != 0,
            0 <= old(self).env_manager.cur_pgdir.dir() < old(self).mmu.npages(),
            crate::map::dir_ok(old(self).mmu.mem, old(self).env_manager.cur_pgdir.dir()),
            old(self).kstack_tf.regs@[29] as int % 4 == 0,
            ({
                let wsp = spec_tlb_mod_slot(old(self).kstack_tf);
                let d = old(self).env_manager.cur_pgdir.dir();
                &&& wsp as int % PAGE_SIZE as int <= PAGE_SIZE - TF_SIZE
                &&& crate::map::va_mapped(old(self).mmu.mem, d, VA(wsp as usize))
                &&& 0 <= crate::map::mapped_page(old(self).mmu.mem, d, VA(wsp as usize))
                    < old(self).mmu.npages()
                &&& crate::map::mapped_page(old(self).mmu.mem, d, VA(wsp as usize)) != d
                &&& crate::map::mapped_page(old(self).mmu.mem, d, VA(wsp as usize))
                    != crate::map::pde_of(
                        old(self).mmu.mem, d, VA(wsp as usize)).spec_ppn()
            }),
        ensures
            final(self).wf(),
            // the saved context now enters the handler with the nested
            // frame as its argument and stack
            ({
                let wsp = spec_tlb_mod_slot(old(self).kstack_tf);
                let utme = old(self).env_manager.env_at_spec(
                    old(self).env_manager.cur.unwrap().pos as int).user_tlb_mod_entry;
                &&& final(self).kstack_tf.regs@
                    == old(self).kstack_tf.regs@.update(4, wsp as u32).update(
                        29, (wsp - 4) as u32)
                &&& final(self).kstack_tf.cp0_epc == utme as u32
                &&& final(self).kstack_tf.cp0_status == old(self).kstack_tf.cp0_status
                &&& final(self).kstack_tf.cp0_cause == old(self).kstack_tf.cp0_cause
                &&& final(self).kstack_tf.cp0_badvaddr == old(self).kstack_tf.cp0_badvaddr
            }),
            // the interrupted context lies in the nested frame, word for
            // word, in the page backing the exception-stack slot
            ({
                let wsp = spec_tlb_mod_slot(old(self).kstack_tf);
                let d = old(self).env_manager.cur_pgdir.dir();
                let p = crate::map::mapped_page(old(self).mmu.mem, d, VA(wsp as usize));
                let base = wsp as int % PAGE_SIZE as int / 4;
                &&& (forall|w: int|
                    0 <= w < 38
                        ==> (#[trigger] final(self).mmu.mem.word(p, base + w))
                            == spec_tf_word(old(self).kstack_tf, w))
                &&& (forall|p2: int, k: int|
                    0 <= p2 < old(self).mmu.npages() && 0 <= k < PAGE_WORDS && p2 != p
                        ==> (#[trigger] final(self).mmu.mem.word(p2, k))
                            == old(self).mmu.mem.word(p2, k))
            }),
            final(self).env_manager == old(self).env_manager,
            final(self).mmu.allocator == old(self).mmu.allocator,
            final(self).mmu.tlb == old(self).mmu.tlb,
            final(self).console_out == old(self).console_out,
            final(self).sched_count == old(self).sched_count,
    {
        let tf = self.kstack_tf;
        let sp0 = tf.regs[29] as usize;
        let on_xstack = USTACKTOP <= sp0 && sp0 < UXSTACKTOP;
        let top = if on_xstack {
            sp0
        } else {
            UXSTACKTOP
        };
        let wsp = top - TF_SIZE;
        let pgdir = self.env_manager.cur_pgdir();
        let found = pgdir.lookup(&self.mmu, VA(wsp));
        let page = match found {
            Some((_, page)) => page,
            None => {
                proof {
                    assert(false);
                }
                crate::page::Page::new(PPN(0))
            },
        };
        let base = wsp % PAGE_SIZE / 4;
        proof {
            assert(base + 38 <= PAGE_WORDS);
            assert(wsp as int % PAGE_SIZE as int % 4 == 0) by {
                let v = wsp as int;
                vstd::arithmetic::div_mod::lemma_mod_mod(v, 4, 1024);
                assert(4 * 1024 == PAGE_SIZE as int);
            }
        }
        let mut w: usize = 0;
        while w < 38
            invariant
                w <= 38,
                self.mmu.wf(),
                self.mmu.npages() == old(self).mmu.npages(),
                self.mmu.allocator == old(self).mmu.allocator,
                self.mmu.tlb == old(self).mmu.tlb,
                self.env_manager == old(self).env_manager,
                self.kstack_tf == old(self).kstack_tf,
                self.console_out == old(self).console_out,
                self.console_in == old(self).console_in,
                self.sched_count == old(self).sched_count,
                tf == old(self).kstack_tf,
                page.ppn.0 < old(self).mmu.npages(),
                base + 38 <= PAGE_WORDS,
                forall|w2: int|
                    0 <= w2 < w
                        ==> (#[trigger] self.mmu.mem.word(page.ppn.0 as int, base + w2))
                            == spec_tf_word(old(self).kstack_tf, w2),
                forall|p2: int, k: int|
                    0 <= p2 < old(self).mmu.npages() && 0 <= k < PAGE_WORDS
                        && p2 != page.ppn.0
                        ==> (#[trigger] self.mmu.mem.word(p2, k))
                            == old(self).mmu.mem.word(p2, k),
            decreases 38 - w,
        {
            let v = tf_word(&tf, w);
            self.mmu.mem.write_word(page.ppn(), base + w, v as usize);
            w = w + 1;
        }
        let c = self.env_manager.curenv().unwrap();
        let entry = self.env_manager.env_at(c).user_tlb_mod_entry;
        self.kstack_tf.regs[4] = wsp as u32;
        self.kstack_tf.regs[29] = (wsp - 4) as u32;
        self.kstack_tf.cp0_epc = entry as u32;
        proof {
            assert(self.kstack_tf.regs@
                =~= old(self).kstack_tf.regs@.update(4, wsp as u32).update(
                    29, (wsp - 4) as u32));
            assert(crate::map::mapped_page(
                old(self).mmu.mem, pgdir.dir(), VA(wsp)) == page.ppn.0);
        }
    }
}


impl Kernel {
    /// Every live environment's address space is soundly rooted: its
    /// directory page lies in memory, is referenced and well formed, and
    /// its ASID is in range. Boot establishes this vacuously (no
    /// environment is live), and the handlers that walk an address space
    /// require it.
    pub open spec fn envs_sound(self) -> bool {
        forall|j: int| 0 <= j < NENV ==> {
            let e = #[trigger] self.env_manager.env_at_spec(j);
            e.status != EnvStatus::Free ==> {
                &&& e.pgdir.0 >= KSEG0
                &&& 0 <= e.spec_pgdir_ppn() < self.mmu.npages()
                &&& crate::map::dir_ok(self.mmu.mem, e.spec_pgdir_ppn())
                &&& self.mmu.rc_of(e.spec_pgdir_ppn()) >= 1
                &&& e.asid < 256
            }
        }
    }
}

} // verus!



