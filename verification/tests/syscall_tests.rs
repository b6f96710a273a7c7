use mos::addr::{PA, PPN, VA};
use mos::error::MosError;
use mos::ipc::IpcStatus;
use mos::kernel::Kernel;
use mos::layout::{is_dev_va_range, is_illegal_user_va, is_illegal_user_va_range};
use mos::syscall::Syscall;
use mos::tools::{round, round_down};
use mos::cp0::{Cause, Exception};

fn boot() -> Kernel {
    Kernel::init(2048, PPN(80), PA(16 * 4096)).expect("boot failed")
}

fn tiny_elf() -> Vec<u8> {
    let mut b = vec![0u8; 52];
    b[0] = 0x7f;
    b[1] = b'E';
    b[2] = b'L';
    b[3] = b'F';
    b[4] = 1;
    b
}

fn boot_with_current() -> (Kernel, usize) {
    let mut k = boot();
    let bin = tiny_elf();
    let idx = k.env_manager.create(&mut k.mmu, &bin, 1).unwrap();
    k.schedule(false);
    (k, idx)
}

fn err(e: MosError) -> u32 {
    u32::from(e)
}

#[test]
fn error_codes_are_negated() {
    assert_eq!(u32::from(MosError::Inval), (-3i32) as u32);
    assert_eq!(u32::from(MosError::NoMem), (-4i32) as u32);
    assert_eq!(u32::from(MosError::NoSys), (-5i32) as u32);
    assert_eq!(u32::from(MosError::IpcNotRecv), (-7i32) as u32);
}

#[test]
fn va_range_checks() {
    assert!(is_illegal_user_va(0x1000));
    assert!(!is_illegal_user_va(0x0040_0000));
    assert!(is_illegal_user_va(0x7f40_0000));
    assert!(!is_illegal_user_va_range(0x0040_0000, 0));
    assert!(is_illegal_user_va_range(0x7f3f_ffff, 2));
    assert!(!is_illegal_user_va_range(0x0040_0000, 0x1000));
    assert!(is_dev_va_range(0x180003f8, 0x20));
    assert!(!is_dev_va_range(0x180003f8, 0x21));
    assert!(is_dev_va_range(0x180001f0, 8));
    assert!(!is_dev_va_range(0x1000, 4));
}

#[test]
fn rounding_helpers() {
    assert_eq!(round(5, 4), 8);
    assert_eq!(round(8, 4), 8);
    assert_eq!(round_down(5, 4), 4);
    assert_eq!(round_down(8, 4), 8);
}

#[test]
fn syscall_numbers_decode() {
    assert_eq!(Syscall::from_u32(0), Syscall::Putchar);
    assert_eq!(Syscall::from_u32(3), Syscall::Yield);
    assert_eq!(Syscall::from_u32(18), Syscall::MempoolOp);
    assert_eq!(Syscall::from_u32(19), Syscall::Unhandled);
    assert_eq!(Syscall::from_u32(1000), Syscall::Unhandled);
}

#[test]
fn putchar_appends_to_console() {
    let (mut k, _) = boot_with_current();
    assert_eq!(k.sys_putchar('A' as u32, 0, 0, 0, 0), 0);
    assert_eq!(k.sys_putchar('B' as u32, 0, 0, 0, 0), 0);
    assert_eq!(k.console_out, vec![b'A', b'B']);
}

#[test]
fn getchar_skips_nul_bytes() {
    let (mut k, _) = boot_with_current();
    k.console_in = vec![0, 0, b'x', b'y'];
    assert_eq!(k.sys_getchar(0, 0, 0, 0, 0), b'x' as u32);
    assert_eq!(k.console_in, vec![b'y']);
}

#[test]
fn get_env_id_returns_current() {
    let (mut k, idx) = boot_with_current();
    let id = k.env_manager.env_at(idx).id;
    assert_eq!(k.sys_get_env_id(0, 0, 0, 0, 0), id as u32);
}

#[test]
fn set_tlb_mod_entry_registers_handler() {
    let (mut k, idx) = boot_with_current();
    assert_eq!(k.sys_set_tlb_mod_entry(0, 0x414000, 0, 0, 0), 0);
    assert_eq!(k.env_manager.env_at(idx).user_tlb_mod_entry, 0x414000);
    assert_eq!(k.sys_set_tlb_mod_entry(0xdead, 0x414000, 0, 0, 0), err(MosError::BadEnv));
}

#[test]
fn mem_alloc_maps_a_zeroed_page() {
    let (mut k, idx) = boot_with_current();
    assert_eq!(k.sys_mem_alloc(0, 0x0040_0000, 0x100, 0, 0), 0);
    let e = *k.env_manager.env_at(idx);
    let pgdir = e.pgdir();
    let (pte, page) = pgdir.lookup(&k.mmu, VA(0x0040_0000)).unwrap();
    assert!(pte.flags().d);
    assert_eq!(k.mmu.mem.read_word(page.ppn(), 0), 0);
    assert_eq!(k.mmu.ref_count(page), Some(1));
}

#[test]
fn mem_alloc_rejects_kernel_address() {
    let (mut k, _) = boot_with_current();
    assert_eq!(k.sys_mem_alloc(0, 0x8000_0000, 0, 0, 0), err(MosError::Inval));
    assert_eq!(k.sys_mem_alloc(0, 0x1000, 0, 0, 0), err(MosError::Inval));
}

#[test]
fn mem_unmap_silently_succeeds_when_unmapped() {
    let (mut k, idx) = boot_with_current();
    assert_eq!(k.sys_mem_unmap(0, 0x0040_0000, 0, 0, 0), 0);
    assert_eq!(k.sys_mem_alloc(0, 0x0040_0000, 0x100, 0, 0), 0);
    assert_eq!(k.sys_mem_unmap(0, 0x0040_0000, 0, 0, 0), 0);
    let e = *k.env_manager.env_at(idx);
    assert!(e.pgdir().lookup(&k.mmu, VA(0x0040_0000)).is_none());
    assert_eq!(k.sys_mem_unmap(0, 0x9000_0000, 0, 0, 0), err(MosError::Inval));
}

#[test]
fn set_env_status_moves_on_and_off_schedule_list() {
    let (mut k, idx) = boot_with_current();
    let id = k.env_manager.env_at(idx).id as u32;
    assert_eq!(k.sys_set_env_status(id, 7, 0, 0, 0), err(MosError::Inval));
    assert_eq!(k.sys_set_env_status(id, 0, 0, 0, 0), 0);
    assert_eq!(k.env_manager.schedule_list.len(), 0);
    assert_eq!(k.sys_set_env_status(id, 1, 0, 0, 0), 0);
    assert_eq!(k.env_manager.schedule_list.len(), 1);
}

#[test]
fn ipc_send_requires_receiving_target() {
    let mut k = boot();
    let bin = tiny_elf();
    let sender = k.env_manager.create(&mut k.mmu, &bin, 1).unwrap();
    let receiver = k.env_manager.create(&mut k.mmu, &bin, 1).unwrap();
    let rid = k.env_manager.env_at(receiver).id as u32;
    assert_eq!(k.schedule(false), sender);
    // not receiving: the send is refused
    assert_eq!(k.sys_ipc_try_send(rid, 42, 0, 0, 0), err(MosError::IpcNotRecv));
    // mark the receiver as waiting, then the send lands
    let mut re = *k.env_manager.env_at(receiver);
    re.ipc_info.recving = IpcStatus::Receiving;
    k.env_manager.envs.env_array[receiver] = re;
    assert_eq!(k.sys_ipc_try_send(rid, 42, 0, 0, 0), 0);
    let re2 = *k.env_manager.env_at(receiver);
    assert_eq!(re2.ipc_info.value, 42);
    assert_eq!(re2.ipc_info.recving, IpcStatus::NotReceiving);
    let sid = k.env_manager.env_at(sender).id;
    assert_eq!(re2.ipc_info.from, sid);
}

#[test]
fn mem_map_shares_a_page_between_environments() {
    let mut k = boot();
    let bin = tiny_elf();
    let src = k.env_manager.create(&mut k.mmu, &bin, 1).unwrap();
    let dst = k.env_manager.create(&mut k.mmu, &bin, 1).unwrap();
    assert_eq!(k.schedule(false), src);
    assert_eq!(k.sys_mem_alloc(0, 0x0040_0000, 0x100, 0, 0), 0);
    // sharing within the caller's own address space
    assert_eq!(k.sys_mem_map(0, 0x0040_0000, 0, 0x0041_0000, 0x100), 0);
    let se = *k.env_manager.env_at(src);
    let (_, p1) = se.pgdir().lookup(&k.mmu, VA(0x0040_0000)).unwrap();
    let (_, p2) = se.pgdir().lookup(&k.mmu, VA(0x0041_0000)).unwrap();
    assert_eq!(p1.ppn(), p2.ppn());
    assert_eq!(k.mmu.ref_count(p1), Some(2));
    // an unmapped source is invalid
    assert_eq!(k.sys_mem_map(0, 0x0050_0000, 0, 0x0042_0000, 0), err(MosError::Inval));
    // a target that is neither the caller nor its child is rejected
    let did = k.env_manager.env_at(dst).id as u32;
    assert_eq!(k.sys_mem_map(0, 0x0040_0000, did, 0x0040_0000, 0), err(MosError::BadEnv));
}

#[test]
fn cause_register_decodes_exceptions() {
    assert_eq!(Cause { bits: 0 }.exception(), Exception::Int);
    assert_eq!(Cause { bits: 8 << 2 }.exception(), Exception::Sys);
    assert_eq!(Cause { bits: 2 << 2 }.exception(), Exception::TLBL);
    assert_eq!(Cause { bits: 1 << 2 }.exception(), Exception::Mod);
    assert_eq!(Exception::from(20), Exception::Reserved);
    assert_eq!(Exception::from(31), Exception::Unknown);
}

#[test]
fn exofork_clones_registers_and_stays_dormant() {
    let (mut k, idx) = boot_with_current();
    k.kstack_tf.regs[2] = 77;
    k.kstack_tf.cp0_epc = 0x0040_1234;
    let child_id = k.sys_exofork(0, 0, 0, 0, 0);
    assert!((child_id as i32) > 0);
    let child = child_id as usize % 1024;
    let ce = *k.env_manager.env_at(child);
    assert_eq!(ce.status, mos::env::EnvStatus::NotRunnable);
    assert_eq!(ce.tf.regs[2], 0);
    assert_eq!(ce.tf.cp0_epc, 0x0040_1234);
    assert_eq!(ce.parent_id, k.env_manager.env_at(idx).id);
    assert_eq!(ce.priority, k.env_manager.env_at(idx).priority);
}

#[test]
fn env_destroy_syscall_reschedules_on_self_destruction() {
    let mut k = boot();
    let bin = tiny_elf();
    let e0 = k.env_manager.create(&mut k.mmu, &bin, 1).unwrap();
    let e1 = k.env_manager.create(&mut k.mmu, &bin, 1).unwrap();
    assert_eq!(k.schedule(false), e0);
    let (rc, next) = k.sys_env_destroy(0, 0, 0, 0, 0);
    assert_eq!(rc, 0);
    assert_eq!(next, Some(e1));
    assert_eq!(k.env_manager.curenv(), Some(e1));
    assert_eq!(
        k.env_manager.env_at(e0).status,
        mos::env::EnvStatus::Free
    );
}

#[test]
fn ipc_send_transfers_a_page() {
    let mut k = boot();
    let bin = tiny_elf();
    let sender = k.env_manager.create(&mut k.mmu, &bin, 1).unwrap();
    let receiver = k.env_manager.create(&mut k.mmu, &bin, 1).unwrap();
    let rid = k.env_manager.env_at(receiver).id as u32;
    assert_eq!(k.schedule(false), sender);
    assert_eq!(k.sys_mem_alloc(0, 0x0040_0000, 0x100, 0, 0), 0);
    let mut re = *k.env_manager.env_at(receiver);
    re.ipc_info.recving = IpcStatus::Receiving;
    re.ipc_info.dstva = VA(0x0041_0000);
    k.env_manager.envs.env_array[receiver] = re;
    assert_eq!(k.sys_ipc_try_send(rid, 7, 0x0040_0000, 0x100, 0), 0);
    let se = *k.env_manager.env_at(sender);
    let re2 = *k.env_manager.env_at(receiver);
    let (_, sent) = se.pgdir().lookup(&k.mmu, VA(0x0040_0000)).unwrap();
    let (_, got) = re2.pgdir().lookup(&k.mmu, VA(0x0041_0000)).unwrap();
    assert_eq!(sent.ppn(), got.ppn());
    assert_eq!(k.mmu.ref_count(sent), Some(2));
    assert_eq!(re2.ipc_info.value, 7);
}

#[test]
fn tlb_mod_fault_builds_nested_frame_and_enters_handler() {
    let (mut k, _idx) = boot_with_current();
    // back the exception stack and register a handler
    assert_eq!(k.sys_mem_alloc(0, 0x7f3f_f000, 0x100, 0, 0), 0);
    assert_eq!(k.sys_set_tlb_mod_entry(0, 0x0040_4000, 0, 0, 0), 0);
    k.kstack_tf.regs[29] = 0x0040_7ff0;
    k.kstack_tf.regs[7] = 0xabcd;
    k.kstack_tf.cp0_epc = 0x0040_1234;
    k.do_tlb_mod();
    // the stack pointer was off the exception stack, so the nested frame
    // sits one frame below its top
    let wsp = 0x7f40_0000u32 - 0x98;
    assert_eq!(k.kstack_tf.regs[4], wsp);
    assert_eq!(k.kstack_tf.regs[29], wsp - 4);
    assert_eq!(k.kstack_tf.cp0_epc, 0x0040_4000);
    // the interrupted context lies in the nested frame
    let e = *k.env_manager.env_at(k.env_manager.curenv().unwrap());
    let (_, page) = e.pgdir().lookup(&k.mmu, VA(wsp as usize)).unwrap();
    let base = (wsp as usize % 4096) / 4;
    assert_eq!(k.mmu.mem.read_word(page.ppn(), base + 7), 0xabcd);
    assert_eq!(k.mmu.mem.read_word(page.ppn(), base + 37), 0x0040_1234);
}

#[test]
fn do_syscall_rejects_out_of_range_numbers() {
    let mut k = boot();
    let nosys = u32::from(mos::error::MosError::NoSys);
    assert_eq!(k.do_syscall(99, 0, 0, 0, 0, 0), nosys);
    assert_eq!(k.do_syscall(0xffff_ffff, 0, 0, 0, 0, 0), nosys);
    // device and console paths live outside this kernel core
    assert_eq!(k.do_syscall(16, 0, 0, 0, 0, 0), nosys);
}

#[test]
fn do_syscall_dispatches_putchar() {
    let mut k = boot();
    assert_eq!(k.do_syscall(0, b'm' as u32, 0, 0, 0, 0), 0);
    assert_eq!(k.console_out, vec![b'm']);
}

#[test]
fn getchar_returns_first_non_nul_and_consumes_through_it() {
    let mut k = boot();
    k.console_in = vec![0, 0, b'q', b'z'];
    assert_eq!(k.sys_getchar(0, 0, 0, 0, 0), b'q' as u32);
    assert_eq!(k.console_in, vec![b'z']);
}
