use mos::addr::{PA, PPN, VA};
use mos::kernel::Kernel;
use mos::layout::PteFlags;
use mos::map::{PageTable, Pte};

fn boot() -> Kernel {
    Kernel::init(2048, PPN(80), PA(16 * 4096)).expect("boot failed")
}

#[test]
fn pte_packs_and_unpacks() {
    let flags = PteFlags::flag_v().or(PteFlags::flag_d());
    let pte = Pte::new(PPN(0x123), flags);
    assert_eq!(pte.ppn().0, 0x123);
    assert_eq!(pte.flags(), flags);
    assert!(pte.is_valid());
    assert!(!Pte::empty().is_valid());
    // the EntryLo word drops the software flag bits
    assert_eq!(pte.as_entrylo(), (pte.0 / 0x40) as u32);
}

#[test]
fn flags_roundtrip_and_truncate() {
    let f = PteFlags::flag_g().or(PteFlags::cacheable()).or(PteFlags::flag_cow());
    let pte = Pte::new(PPN(7), f);
    assert_eq!(pte.flags(), f);
    // undefined bits are dropped
    let t = PteFlags::from_bits_truncate(0xFFF);
    assert!(t.v && t.d && t.g && t.c0 && t.c1 && t.c2 && t.cow && t.shared);
}

#[test]
fn insert_then_lookup_returns_page_with_one_reference() {
    let mut k = boot();
    let (pgdir, _) = PageTable::init(&mut k.mmu).unwrap();
    let page = k.mmu.page_alloc(true).unwrap();
    let va = VA(0x0040_0000);
    pgdir.insert(&mut k.mmu, 0, page, va, PteFlags::flag_d()).unwrap();
    let (pte, found) = pgdir.lookup(&k.mmu, va).unwrap();
    assert_eq!(found.ppn(), page.ppn());
    assert!(pte.flags().v);
    assert!(pte.flags().d);
    assert_eq!(k.mmu.ref_count(page), Some(1));
}

#[test]
fn lookup_unmapped_is_none() {
    let mut k = boot();
    let (pgdir, _) = PageTable::init(&mut k.mmu).unwrap();
    assert!(pgdir.lookup(&k.mmu, VA(0x0040_0000)).is_none());
}

#[test]
fn replacing_mapping_frees_old_page() {
    // Insert page A at a virtual address, then page B at the same
    // address: A's count drops to zero, A is freed, and the next
    // allocation may reuse its page number.
    let mut k = boot();
    let (pgdir, _) = PageTable::init(&mut k.mmu).unwrap();
    let a = k.mmu.page_alloc(true).unwrap();
    let b = k.mmu.page_alloc(true).unwrap();
    let va = VA(0x1000);
    pgdir.insert(&mut k.mmu, 0, a, va, PteFlags::flag_d()).unwrap();
    assert_eq!(k.mmu.ref_count(a), Some(1));
    pgdir.insert(&mut k.mmu, 0, b, va, PteFlags::flag_d()).unwrap();
    assert_eq!(k.mmu.ref_count(a), Some(0));
    assert!(k.page_is_free(a.ppn()));
    let reuse = k.mmu.page_alloc(true).unwrap();
    assert_eq!(reuse.ppn(), a.ppn());
}

#[test]
fn reinsert_same_page_updates_flags_only() {
    let mut k = boot();
    let (pgdir, _) = PageTable::init(&mut k.mmu).unwrap();
    let a = k.mmu.page_alloc(true).unwrap();
    let va = VA(0x0040_0000);
    pgdir.insert(&mut k.mmu, 0, a, va, PteFlags::flag_d()).unwrap();
    pgdir.insert(&mut k.mmu, 0, a, va, PteFlags::empty()).unwrap();
    // same page, count still one, write bit gone
    let (pte, found) = pgdir.lookup(&k.mmu, va).unwrap();
    assert_eq!(found.ppn(), a.ppn());
    assert!(!pte.flags().d);
    assert_eq!(k.mmu.ref_count(a), Some(1));
}

#[test]
fn remove_drops_count_to_zero_and_frees() {
    let mut k = boot();
    let (pgdir, _) = PageTable::init(&mut k.mmu).unwrap();
    let a = k.mmu.page_alloc(true).unwrap();
    let va = VA(0x0040_0000);
    pgdir.insert(&mut k.mmu, 0, a, va, PteFlags::flag_d()).unwrap();
    pgdir.remove(&mut k.mmu, 0, va);
    assert!(pgdir.lookup(&k.mmu, va).is_none());
    assert_eq!(k.mmu.ref_count(a), Some(0));
    assert!(k.page_is_free(a.ppn()));
    let reuse = k.mmu.page_alloc(true).unwrap();
    assert_eq!(reuse.ppn(), a.ppn());
}

#[test]
fn tlb_refill_emits_entrylo_pair_and_caches() {
    let mut k = boot();
    let (pgdir, _) = PageTable::init(&mut k.mmu).unwrap();
    let page = k.mmu.page_alloc(true).unwrap();
    let va = VA(0x0040_0000);
    pgdir.insert(&mut k.mmu, 0, page, va, PteFlags::flag_d()).unwrap();
    let (lo0, _lo1) = k.mmu.do_tlb_refill(pgdir, va, 0);
    let (pte, _) = pgdir.lookup(&k.mmu, va).unwrap();
    // this address is the even page of its pair
    assert_eq!(lo0, pte.as_entrylo());
}

#[test]
fn tlb_refill_passively_allocates_unmapped_page() {
    let mut k = boot();
    let (pgdir, _) = PageTable::init(&mut k.mmu).unwrap();
    let va = VA(0x0040_2000);
    assert!(pgdir.lookup(&k.mmu, va).is_none());
    let _ = k.mmu.do_tlb_refill(pgdir, va, 0);
    let (pte, page) = pgdir.lookup(&k.mmu, va).unwrap();
    // the lazily materialized page is writable and zeroed
    assert!(pte.flags().d);
    assert_eq!(k.mmu.mem.read_word(page.ppn(), 0), 0);
    assert_eq!(k.mmu.ref_count(page), Some(1));
}

#[test]
fn insert_invalidates_stale_tlb_entry() {
    let mut k = boot();
    let (pgdir, _) = PageTable::init(&mut k.mmu).unwrap();
    let a = k.mmu.page_alloc(true).unwrap();
    let b = k.mmu.page_alloc(true).unwrap();
    let va = VA(0x0040_0000);
    pgdir.insert(&mut k.mmu, 5, a, va, PteFlags::flag_d()).unwrap();
    let _ = k.mmu.do_tlb_refill(pgdir, va, 5);
    let before = k.mmu.tlb.entries.len();
    assert!(before > 0);
    // remapping must drop the cached translation
    pgdir.insert(&mut k.mmu, 5, b, va, PteFlags::flag_d()).unwrap();
    assert_eq!(k.mmu.tlb.entries.len(), before - 1);
}

#[test]
fn tlb_refill_materializes_a_page_table_through_the_self_map() {
    // a miss inside the read-only page-table window lazily creates the
    // named table itself: read-only, zeroed, referenced
    let mut k = boot();
    let idx = k.env_manager.alloc_env(&mut k.mmu, 0).unwrap();
    let e = *k.env_manager.env_at(idx);
    let pgdir = e.pgdir();
    let slot0 = pgdir.pte_at(&k.mmu.mem, 0);
    assert!(!slot0.is_valid());
    let va = VA(0x7fc0_0000);
    let _ = k.mmu.do_tlb_refill(pgdir, va, e.asid);
    let slot0 = pgdir.pte_at(&k.mmu.mem, 0);
    assert!(slot0.is_valid());
    assert!(!slot0.flags().d);
    assert_eq!(k.mmu.ref_count(mos::page::Page::new(slot0.ppn())), Some(1));
    assert_eq!(k.mmu.mem.read_word(slot0.ppn(), 0), 0);
}
