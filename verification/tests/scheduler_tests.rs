use mos::addr::{PA, PPN};
use mos::kernel::Kernel;

fn boot() -> Kernel {
    Kernel::init(2048, PPN(80), PA(16 * 4096)).expect("boot failed")
}

fn tiny_elf() -> Vec<u8> {
    let mut b = vec![0u8; 52];
    b[0] = 0x7f;
    b[1] = b'E';
    b[2] = b'L';
    b[3] = b'F';
    b[4] = 1;
    b
}

#[test]
fn round_robin_respects_priorities_as_quanta() {
    // Three runnable environments with priorities 2, 1, 3: repeated
    // scheduling without an explicit yield runs each environment for a
    // quantum of its priority, in round-robin order, starving none.
    let mut k = boot();
    let bin = tiny_elf();
    let e0 = k.env_manager.create(&mut k.mmu, &bin, 2).unwrap();
    let e1 = k.env_manager.create(&mut k.mmu, &bin, 1).unwrap();
    let e2 = k.env_manager.create(&mut k.mmu, &bin, 3).unwrap();
    let mut visits = Vec::new();
    for _ in 0..9 {
        visits.push(k.schedule(false));
    }
    assert_eq!(visits, vec![e0, e0, e1, e2, e2, e2, e0, e0, e1]);
}

#[test]
fn forced_yield_switches_immediately() {
    let mut k = boot();
    let bin = tiny_elf();
    let e0 = k.env_manager.create(&mut k.mmu, &bin, 5).unwrap();
    let e1 = k.env_manager.create(&mut k.mmu, &bin, 5).unwrap();
    assert_eq!(k.schedule(false), e0);
    // plenty of quantum left, but a forced yield switches at once
    assert_eq!(k.schedule(true), e1);
    assert_eq!(k.schedule(true), e0);
}

#[test]
fn schedule_counts_runs_and_sets_current() {
    let mut k = boot();
    let bin = tiny_elf();
    let e0 = k.env_manager.create(&mut k.mmu, &bin, 2).unwrap();
    assert_eq!(k.env_manager.curenv(), None);
    let chosen = k.schedule(false);
    assert_eq!(chosen, e0);
    assert_eq!(k.env_manager.curenv(), Some(e0));
    assert_eq!(k.env_manager.env_at(e0).runs, 1);
    let again = k.schedule(false);
    assert_eq!(again, e0);
    assert_eq!(k.env_manager.env_at(e0).runs, 2);
}

#[test]
fn destroying_current_schedules_next() {
    let mut k = boot();
    let bin = tiny_elf();
    let e0 = k.env_manager.create(&mut k.mmu, &bin, 1).unwrap();
    let e1 = k.env_manager.create(&mut k.mmu, &bin, 1).unwrap();
    assert_eq!(k.schedule(false), e0);
    let next = k.env_destroy(e0);
    assert_eq!(next, Some(e1));
    assert_eq!(k.env_manager.curenv(), Some(e1));
}
