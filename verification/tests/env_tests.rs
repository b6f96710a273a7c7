use mos::addr::{PA, PPN};
use mos::env::{EnvStatus, NENV};
use mos::kernel::Kernel;

fn boot() -> Kernel {
    Kernel::init(2048, PPN(80), PA(16 * 4096)).expect("boot failed")
}

fn count_free(k: &Kernel) -> usize {
    let mut n = 0;
    for p in 0..2048 {
        if k.page_is_free(PPN(p)) {
            n += 1;
        }
    }
    n
}

/// A minimal 32-bit ELF image: the magic, an entry point, and no program
/// headers.
fn tiny_elf(entry: u32) -> Vec<u8> {
    let mut b = vec![0u8; 52];
    b[0] = 0x7f;
    b[1] = b'E';
    b[2] = b'L';
    b[3] = b'F';
    b[4] = 1;
    b[24] = (entry & 0xff) as u8;
    b[25] = ((entry >> 8) & 0xff) as u8;
    b[26] = ((entry >> 16) & 0xff) as u8;
    b[27] = ((entry >> 24) & 0xff) as u8;
    b
}

#[test]
fn create_marks_runnable_and_schedules() {
    let mut k = boot();
    let bin = tiny_elf(0x0040_0000);
    let idx = k.env_manager.create(&mut k.mmu, &bin, 1).unwrap();
    let e = *k.env_manager.env_at(idx);
    assert_eq!(e.status, EnvStatus::Runnable);
    assert_eq!(e.priority, 1);
    assert_eq!(e.tf.cp0_epc, 0x0040_0000);
    assert_eq!(k.env_manager.get_first(), Some(idx));
    // the first slot handed out is slot 0
    assert_eq!(idx, 0);
    // id packs generation and slot, never zero
    assert_eq!(e.id % NENV, idx);
    assert_ne!(e.id, 0);
}

#[test]
fn create_then_destroy_conserves_free_pages_and_asid() {
    // An environment's creation followed immediately by its destruction
    // leaves the allocator's free-page count unchanged and releases its
    // ASID for reuse.
    let mut k = boot();
    let before = count_free(&k);
    let bin = tiny_elf(0x0040_0000);
    let idx = k.env_manager.create(&mut k.mmu, &bin, 1).unwrap();
    let asid = k.env_manager.env_at(idx).asid;
    assert!(k.env_manager.asid_bitmap[asid]);
    assert!(count_free(&k) < before);
    let next = k.env_destroy(idx);
    assert_eq!(next, None);
    assert_eq!(count_free(&k), before);
    assert!(!k.env_manager.asid_bitmap[asid]);
    // a fresh environment reuses the released ASID
    let idx2 = k.env_manager.create(&mut k.mmu, &bin, 1).unwrap();
    assert_eq!(k.env_manager.env_at(idx2).asid, asid);
}

#[test]
fn env_from_id_rejects_stale_ids() {
    let mut k = boot();
    let bin = tiny_elf(0x0040_0000);
    let idx = k.env_manager.create(&mut k.mmu, &bin, 1).unwrap();
    let id = k.env_manager.env_at(idx).id;
    assert_eq!(k.env_manager.env_from_id(id, false), Ok(idx));
    k.env_destroy(idx);
    // the slot is free now; the old id is stale
    assert!(k.env_manager.env_from_id(id, false).is_err());
}

#[test]
fn alloc_env_seeds_user_trapframe() {
    let mut k = boot();
    let idx = k.env_manager.alloc_env(&mut k.mmu, 0).unwrap();
    let e = *k.env_manager.env_at(idx);
    assert_eq!(e.tf.cp0_status, 0x8013);
    assert_eq!(e.tf.regs[29], (0x7f3f_e000u32 - 8));
    assert_eq!(e.status, EnvStatus::Free);
    assert_eq!(e.parent_id, 0);
    assert_eq!(e.runs, 0);
}

#[test]
fn exhausting_asids_fails_allocation() {
    let mut k = boot();
    for a in 0..256 {
        k.env_manager.asid_bitmap[a] = true;
    }
    assert!(k.env_manager.alloc_env(&mut k.mmu, 0).is_err());
}

#[test]
fn boot_maps_kernel_windows_into_base_directory() {
    let k = boot();
    // the tracker array window and the environment array window are
    // mapped globally and read-only in the base directory
    let (tppn, tcount) = k.mmu.allocator.get_tracker_info();
    assert!(tcount >= 1);
    let (pte, page) = k
        .env_manager
        .base_pgdir
        .lookup(&k.mmu, mos::addr::VA(0x7f80_0000))
        .unwrap();
    assert_eq!(page.ppn(), tppn);
    assert!(pte.flags().g);
    assert!(!pte.flags().d);
    let (pte2, page2) = k
        .env_manager
        .base_pgdir
        .lookup(&k.mmu, mos::addr::VA(0x7f40_0000))
        .unwrap();
    assert_eq!(page2.ppn().0, 16);
    assert!(pte2.flags().g);
}

#[test]
fn address_spaces_inherit_kernel_windows() {
    let mut k = boot();
    let idx = k.env_manager.alloc_env(&mut k.mmu, 0).unwrap();
    let e = *k.env_manager.env_at(idx);
    // the fresh address space sees the environment array window too
    let (_, page) = e.pgdir().lookup(&k.mmu, mos::addr::VA(0x7f40_0000)).unwrap();
    assert_eq!(page.ppn().0, 16);
}
