//! The round-robin scheduler with per-environment priority quanta.
//!
//! A decrementing tick counter tracks the remaining quantum. A switch
//! happens on an explicit yield, an exhausted quantum, a missing current
//! environment, or a current environment that is no longer runnable; the
//! outgoing environment, if still runnable, rotates from the front of the
//! schedule list to the back, and the new head's priority reloads the
//! counter.

use vstd::prelude::*;
use crate::env::{EnvStatus, EnvTracker, NENV};
use crate::kernel::Kernel;
use crate::layout::KSEG0;

verus! {

/// Whether a call to the scheduler switches environments: on a forced
/// yield, an exhausted quantum, no current environment, or a current
/// environment that is not runnable.
pub open spec fn needs_switch(k: Kernel, env_yield: bool) -> bool {
    ||| env_yield
    ||| k.sched_count == 0
    ||| k.env_manager.cur is None
    ||| k.env_manager.env_at_spec(k.env_manager.cur.unwrap().pos as int).status
        != EnvStatus::Runnable
}

/// The schedule list after one switch: if the outgoing environment is
/// still runnable it moves from the front to the back; otherwise the list
/// is left as it is (the environment was already taken off it).
pub open spec fn rotated(k: Kernel) -> Seq<EnvTracker> {
    if k.env_manager.cur is Some
        && k.env_manager.env_at_spec(k.env_manager.cur.unwrap().pos as int).status
            == EnvStatus::Runnable {
        k.env_manager.schedule_list@.drop_first().push(k.env_manager.schedule_list@.first())
    } else {
        k.env_manager.schedule_list@
    }
}

impl Kernel {
    /// Picks the environment to run next and hands it the CPU, returning
    /// its slot index. Never returns to the interrupted context: the
    /// caller's trampoline resumes the chosen environment's trap frame.
    ///
    /// Without a switch the current environment keeps running and the tick
    /// counter drops by one. On a switch the outgoing environment, if
    /// runnable, must stand at the front of the schedule list and rotates
    /// to the back; the new head is chosen and its priority, less the tick
    /// consumed now, reloads the counter. A schedule list left empty at a
    /// switch means no work remains, which is fatal, so it is excluded.
    pub fn schedule(&mut self, env_yield: bool) -> (r: usize)
        requires
            old(self).wf(),
            needs_switch(*old(self), env_yield) ==> {
                &&& ((old(self).env_manager.cur is Some
                    && old(self).env_manager.env_at_spec(
                        old(self).env_manager.cur.unwrap().pos as int).status
                        == EnvStatus::Runnable) ==> {
                    &&& old(self).env_manager.schedule_list@.len() > 0
                    &&& old(self).env_manager.schedule_list@.first().pos
                        == old(self).env_manager.env_at_spec(
                            old(self).env_manager.cur.unwrap().pos as int).id
                            as int % NENV as int
                })
                &&& rotated(*old(self)).len() > 0
                &&& {
                    let head = rotated(*old(self)).first();
                    let e = old(self).env_manager.env_at_spec(head.pos as int);
                    &&& e.status == EnvStatus::Runnable
                    &&& e.pgdir.0 >= KSEG0
                    &&& e.runs < 0xffff_ffff
                    &&& e.priority >= 1
                }
            },
            !needs_switch(*old(self), env_yield) ==> {
                let c = old(self).env_manager.cur.unwrap();
                let e = old(self).env_manager.env_at_spec(c.pos as int);
                &&& e.pgdir.0 >= KSEG0
                &&& e.runs < 0xffff_ffff
            },
        ensures
            final(self).wf(),
            if needs_switch(*old(self), env_yield) {
                let head = rotated(*old(self)).first();
                &&& r == head.pos
                &&& final(self).env_manager.schedule_list@ == rotated(*old(self))
                &&& final(self).sched_count
                    == old(self).env_manager.env_at_spec(head.pos as int).priority - 1
            } else {
                let c = old(self).env_manager.cur.unwrap();
                &&& r == c.pos
                &&& final(self).env_manager.schedule_list@
                    == old(self).env_manager.schedule_list@
                &&& final(self).sched_count == old(self).sched_count - 1
            },
            ({
                let saved = match old(self).env_manager.cur {
                    Some(c) => old(self).env_manager.envs.env_array@.update(
                        c.pos as int,
                        crate::env::Env {
                            tf: old(self).kstack_tf,
                            ..old(self).env_manager.env_at_spec(c.pos as int)
                        },
                    ),
                    None => old(self).env_manager.envs.env_array@,
                };
                let run = crate::env::Env {
                    runs: (saved[r as int].runs + 1) as u32,
                    ..saved[r as int]
                };
                final(self).env_manager.envs.env_array@ == saved.update(r as int, run)
            }),
            final(self).env_manager.env_at_spec(r as int).runs
                == old(self).env_manager.env_at_spec(r as int).runs + 1,
            final(self).env_manager.cur == Some(EnvTracker {
                pos: (final(self).env_manager.env_at_spec(r as int).id % NENV) as usize,
            }),
            final(self).mmu == old(self).mmu,
            final(self).env_manager.free_list == old(self).env_manager.free_list,
            final(self).env_manager.asid_bitmap == old(self).env_manager.asid_bitmap,
    {
        let cur = self.env_manager.curenv();
        let cur_runnable = match cur {
            Some(c) => self.env_manager.env_at(c).runnable(),
            None => false,
        };
        let switch = env_yield || self.sched_count == 0 || cur.is_none() || !cur_runnable;
        let chosen: usize;
        if switch {
            match cur {
                Some(c) => {
                    if cur_runnable {
                        let pos = self.env_manager.env_at(c).pos();
                        self.env_manager.move_to_end(pos);
                    }
                },
                None => (),
            }
            let head = self.env_manager.get_first().unwrap();
            let prio = self.env_manager.env_at(head).priority;
            self.sched_count = prio - 1;
            chosen = head;
        } else {
            self.sched_count = self.sched_count - 1;
            chosen = cur.unwrap();
        }
        self.env_run(chosen);
        proof {
            if needs_switch(*old(self), env_yield) {
                assert(self.env_manager.schedule_list@ == rotated(*old(self)));
            }
        }
        chosen
    }
}

/// One rotation of the schedule list: the head moves to the back.
pub open spec fn rotate1(l: Seq<EnvTracker>) -> Seq<EnvTracker> {
    l.drop_first().push(l.first())
}

/// `n` successive rotations.
pub open spec fn rotate_n(l: Seq<EnvTracker>, n: nat) -> Seq<EnvTracker>
    decreases n,
{
    if n == 0 {
        l
    } else {
        rotate_n(rotate1(l), (n - 1) as nat)
    }
}

/// Rotating `n` times turns the list into "the part after `n`, then the
/// part before `n`": the scheduler walks the ring in order.
pub proof fn lemma_rotate_n_shape(l: Seq<EnvTracker>, n: nat)
    requires
        l.len() > 0,
        n <= l.len(),
    ensures
        rotate_n(l, n) == l.skip(n as int) + l.take(n as int),
    decreases n,
{
    if n == 0 {
        assert(rotate_n(l, 0) =~= l.skip(0) + l.take(0));
    } else {
        let l1 = rotate1(l);
        assert(l1 =~= l.skip(1) + l.take(1));
        lemma_rotate_n_shape(l1, (n - 1) as nat);
        assert(l1.skip(n - 1) + l1.take(n - 1) =~= l.skip(n as int) + l.take(n as int));
    }
}

/// Round-robin fairness over one full cycle: with `N` environments on the
/// schedule list, `N` successive switches visit each environment exactly
/// once, in list order — the environment chosen at switch `n` is the one
/// at position `n` — and afterwards the list is back in its starting
/// order, so no environment is ever starved.
pub proof fn lemma_round_robin(l: Seq<EnvTracker>, n: nat)
    requires
        l.len() > 0,
        n < l.len(),
    ensures
        rotate_n(l, n).first() == l[n as int],
        rotate_n(l, l.len()) == l,
{
    lemma_rotate_n_shape(l, n);
    assert((l.skip(n as int) + l.take(n as int))[0] == l[n as int]);
    lemma_rotate_n_shape(l, l.len());
    assert(l.skip(l.len() as int) + l.take(l.len() as int) =~= l);
}

/// A forced yield always switches, whatever quantum remains.
pub proof fn lemma_yield_forces_switch(k: Kernel)
    ensures
        needs_switch(k, true),
{
}

/// Within a quantum nothing switches: with a runnable current environment
/// and a positive tick counter, the scheduler keeps the current
/// environment.
pub proof fn lemma_quantum_keeps_current(k: Kernel)
    requires
        k.sched_count > 0,
        k.env_manager.cur is Some,
        k.env_manager.env_at_spec(k.env_manager.cur.unwrap().pos as int).status
            == EnvStatus::Runnable,
    ensures
        !needs_switch(k, false),
{
}

} // verus!
