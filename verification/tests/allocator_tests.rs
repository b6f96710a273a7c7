use mos::addr::{PA, PPN};
use mos::kernel::Kernel;
use mos::page::Page;

fn boot() -> Kernel {
    // 2048 pages of physical memory; the kernel image occupies pages
    // below 80, with the environment array at page 16.
    Kernel::init(2048, PPN(80), PA(16 * 4096)).expect("boot failed")
}

fn count_free(k: &Kernel) -> usize {
    let mut n = 0;
    for p in 0..2048 {
        if k.page_is_free(PPN(p)) {
            n += 1;
        }
    }
    n
}

#[test]
fn boot_reserves_kernel_pages() {
    let k = boot();
    for p in 0..80 {
        assert!(!k.page_is_free(PPN(p)));
    }
}

#[test]
fn alloc_returns_free_page_and_removes_it() {
    let mut k = boot();
    let before = count_free(&k);
    let page = k.mmu.page_alloc(true).unwrap();
    assert!(!k.page_is_free(page.ppn()));
    assert_eq!(count_free(&k), before - 1);
}

#[test]
fn clear_on_alloc_reads_back_zero() {
    let mut k = boot();
    let page = k.mmu.page_alloc(true).unwrap();
    for w in 0..1024 {
        assert_eq!(k.mmu.mem.read_word(page.ppn(), w), 0);
    }
}

#[test]
fn contiguous_alloc_is_aligned() {
    let mut k = boot();
    let p4 = k.mmu.page_alloc_contiguous(false, 4).unwrap();
    assert_eq!(p4.ppn().0 % 4, 0);
    let p8 = k.mmu.page_alloc_contiguous(false, 5).unwrap();
    // size rounds up to 8
    assert_eq!(p8.ppn().0 % 8, 0);
}

#[test]
fn allocations_are_disjoint() {
    let mut k = boot();
    let a = k.mmu.page_alloc_contiguous(false, 2).unwrap().ppn().0;
    let b = k.mmu.page_alloc_contiguous(false, 2).unwrap().ppn().0;
    assert!(a + 2 <= b || b + 2 <= a);
}

#[test]
fn dealloc_coalesces_with_free_buddy() {
    let mut k = boot();
    let block = k.mmu.page_alloc_contiguous(false, 2).unwrap();
    let base = block.ppn().0;
    // free the two singles; the second free must coalesce with the first
    k.mmu.page_dealloc(Page::new(PPN(base)));
    k.mmu.page_dealloc(Page::new(PPN(base + 1)));
    // the doubled block is allocatable again, as one block at its base
    let again = k.mmu.page_alloc_contiguous(false, 2).unwrap();
    assert_eq!(again.ppn().0, base);
}

#[test]
fn clear_on_alloc_not_on_free() {
    // Allocate 4 pages; free the second; write a byte to it; allocate
    // again: the same page comes back and reads zero, because pages are
    // cleared on allocation, not on free.
    let mut k = boot();
    let _p1 = k.mmu.page_alloc(true).unwrap();
    let p2 = k.mmu.page_alloc(true).unwrap();
    let _p3 = k.mmu.page_alloc(true).unwrap();
    let _p4 = k.mmu.page_alloc(true).unwrap();
    k.mmu.page_dealloc(p2);
    k.mmu.mem.write_word(p2.ppn(), 0, 0x12);
    let again = k.mmu.page_alloc(true).unwrap();
    assert_eq!(again.ppn(), p2.ppn());
    assert_eq!(k.mmu.mem.read_word(again.ppn(), 0), 0);
}

#[test]
fn ref_counting_floors_at_zero() {
    let mut k = boot();
    let page = k.mmu.page_alloc(false).unwrap();
    assert_eq!(k.mmu.ref_count(page), Some(0));
    k.mmu.page_inc_ref(page);
    k.mmu.page_inc_ref(page);
    assert_eq!(k.mmu.ref_count(page), Some(2));
    k.mmu.page_dec_ref(page);
    k.mmu.page_dec_ref(page);
    k.mmu.page_dec_ref(page);
    assert_eq!(k.mmu.ref_count(page), Some(0));
    assert_eq!(k.mmu.ref_count(Page::new(PPN(99999))), None);
}

#[test]
fn try_recycle_frees_on_last_reference() {
    let mut k = boot();
    let page = k.mmu.page_alloc(false).unwrap();
    k.mmu.page_inc_ref(page);
    k.mmu.page_inc_ref(page);
    k.mmu.try_recycle(page);
    assert_eq!(k.mmu.ref_count(page), Some(1));
    assert!(!k.page_is_free(page.ppn()));
    k.mmu.try_recycle(page);
    assert_eq!(k.mmu.ref_count(page), Some(0));
    assert!(k.page_is_free(page.ppn()));
}
