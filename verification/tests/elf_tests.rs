use mos::addr::{PA, PPN, VA, VPN};
use mos::elf::{Elf32, elf_load_seg, Elf32Phdr, PT_LOAD};
use mos::kernel::Kernel;
use mos::map::PageTable;

fn boot() -> Kernel {
    Kernel::init(2048, PPN(80), PA(16 * 4096)).expect("boot failed")
}

#[test]
fn elf_magic_is_checked() {
    let good = vec![0x7f, b'E', b'L', b'F', 1, 0, 0, 0];
    let bad = vec![0x7f, b'E', b'L', b'F', 2, 0, 0, 0];
    let short = vec![0x7f, b'E'];
    assert!(Elf32::is_elf32_format(&good));
    assert!(!Elf32::is_elf32_format(&bad));
    assert!(!Elf32::is_elf32_format(&short));
}

#[test]
fn ehdr_decodes_little_endian_fields() {
    let mut b = vec![0u8; 52];
    b[24] = 0x78;
    b[25] = 0x56;
    b[26] = 0x34;
    b[27] = 0x12;
    b[44] = 3;
    let elf = Elf32::from_bytes(&b);
    let eh = elf.ehdr();
    assert_eq!(eh.e_entry, 0x12345678);
    assert_eq!(eh.e_phnum, 3);
}

#[test]
fn phdr_out_of_range_is_none() {
    let b = vec![0u8; 52];
    let elf = Elf32::from_bytes(&b);
    assert!(elf.phdr(0).is_none());
}

#[test]
fn load_seg_maps_file_bytes_and_bss() {
    let mut k = boot();
    let (pgdir, _) = PageTable::init(&mut k.mmu).unwrap();
    // one page of file bytes, one page of zero fill
    let mut bin = vec![0u8; 4096];
    bin[0] = 0xaa;
    bin[1] = 0xbb;
    let ph = Elf32Phdr {
        p_type: PT_LOAD,
        p_offset: 0,
        p_vaddr: 0x0040_0000,
        p_paddr: 0,
        p_filesz: 4096,
        p_memsz: 8192,
        p_flags: 2,
        p_align: 4096,
    };
    elf_load_seg(&mut k.mmu, pgdir, 0, &ph, &bin).unwrap();
    let (_, first) = pgdir.lookup(&k.mmu, VA(0x0040_0000)).unwrap();
    assert_eq!(k.mmu.mem.read_word(first.ppn(), 0), 0xbbaa);
    let (pte, second) = pgdir.lookup(&k.mmu, VA(0x0040_1000)).unwrap();
    assert!(pte.flags().d);
    assert_eq!(k.mmu.mem.read_word(second.ppn(), 0), 0);
}

#[test]
fn address_conversions() {
    assert_eq!(PPN::from(PA(0x12345000)).0, 0x12345);
    assert_eq!(PA::from(PPN(0x123)).0, 0x123000);
    assert_eq!(VPN::from(VA(0x00401234)).0, 0x401);
    assert_eq!(VA::from(VPN(0x401)).0, 0x00401000);
    assert_eq!(VA(0x0040_1234).pdx(), 1);
    assert_eq!(VA(0x0040_1234).ptx(), 1);
    assert_eq!(VA(0x0040_1234).pte_addr().0, 0x0040_1000);
    assert_eq!(PA(0x123000).kaddr().0, 0x8012_3000);
    assert_eq!(VA(0x8012_3000).paddr().0, 0x123000);
}

fn image_with_segments(segs: &[(u32, u32, u32)]) -> Vec<u8> {
    // (p_vaddr, p_filesz, p_memsz) for each PT_LOAD header
    let phoff = 52u32;
    let phentsize = 32u16;
    let mut b = vec![0u8; 52 + 32 * segs.len()];
    b[0] = 0x7f;
    b[1] = b'E';
    b[2] = b'L';
    b[3] = b'F';
    b[4] = 1;
    b[24..28].copy_from_slice(&0x0040_1234u32.to_le_bytes());
    b[28..32].copy_from_slice(&phoff.to_le_bytes());
    b[42..44].copy_from_slice(&phentsize.to_le_bytes());
    b[44..46].copy_from_slice(&(segs.len() as u16).to_le_bytes());
    for (i, (vaddr, filesz, memsz)) in segs.iter().enumerate() {
        let base = 52 + 32 * i;
        b[base..base + 4].copy_from_slice(&PT_LOAD.to_le_bytes());
        b[base + 8..base + 12].copy_from_slice(&vaddr.to_le_bytes());
        b[base + 16..base + 20].copy_from_slice(&filesz.to_le_bytes());
        b[base + 20..base + 24].copy_from_slice(&memsz.to_le_bytes());
    }
    b
}

#[test]
fn load_icode_loads_disjoint_segments() {
    let mut k = boot();
    let (pgdir, _) = PageTable::init(&mut k.mmu).unwrap();
    let bin = image_with_segments(&[(0x0040_0000, 0, 4096), (0x0040_2000, 0, 4096)]);
    let entry = mos::elf::load_icode(&mut k.mmu, pgdir, 0, &bin).unwrap();
    assert_eq!(entry, 0x0040_1234);
    assert!(pgdir.lookup(&k.mmu, VA(0x0040_0000)).is_some());
    assert!(pgdir.lookup(&k.mmu, VA(0x0040_2000)).is_some());
}

#[test]
fn load_icode_rejects_overlapping_segments() {
    let mut k = boot();
    let (pgdir, _) = PageTable::init(&mut k.mmu).unwrap();
    let bin = image_with_segments(&[(0x0040_0000, 0, 4096), (0x0040_0000, 0, 4096)]);
    assert_eq!(
        mos::elf::load_icode(&mut k.mmu, pgdir, 0, &bin),
        Err(mos::error::MosError::Inval)
    );
}

#[test]
fn load_seg_fills_every_page_of_the_range() {
    let mut k = boot();
    let (pgdir, _) = PageTable::init(&mut k.mmu).unwrap();
    // an unaligned segment: file bytes land past the page offset, the
    // rest of every page reads back zero
    let mut bin = vec![0u8; 256];
    for (i, slot) in bin.iter_mut().enumerate() {
        *slot = i as u8;
    }
    let ph = Elf32Phdr {
        p_type: PT_LOAD,
        p_offset: 0,
        p_vaddr: 0x0040_0100,
        p_paddr: 0,
        p_filesz: 256,
        p_memsz: 0x1100,
        p_flags: 0,
        p_align: 4096,
    };
    elf_load_seg(&mut k.mmu, pgdir, 0, &ph, &bin).unwrap();
    let (pte, first) = pgdir.lookup(&k.mmu, VA(0x0040_0000)).unwrap();
    assert!(!pte.flags().d);
    // page offset 0x100: bytes 0,1,2,3 little-endian
    assert_eq!(k.mmu.mem.read_word(first.ppn(), 0x40), 0x03020100);
    assert_eq!(k.mmu.mem.read_word(first.ppn(), 0), 0);
    // bytes past the file image are zero
    assert_eq!(k.mmu.mem.read_word(first.ppn(), 0x80), 0);
    let (_, second) = pgdir.lookup(&k.mmu, VA(0x0040_1000)).unwrap();
    assert_eq!(k.mmu.mem.read_word(second.ppn(), 0), 0);
    // the final page of [va, va + memsz) is mapped as well
    assert!(pgdir.lookup(&k.mmu, VA(0x0040_1000)).is_some());
}
