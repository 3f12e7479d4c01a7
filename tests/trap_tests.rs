use ucore::config::PAGE_SIZE;
use ucore::kernel::Kernel;
use ucore::task::{TaskStatus, TrapFrame};
use ucore::trap::{TrapKind, EXIT_ILL, EXIT_SEGV, SYSCALL_EXIT, SYSCALL_GET_TIME, SYSCALL_WRITE, SYSCALL_YIELD};

/// An ELF64 image with one writable PT_LOAD segment of two pages at 0x10000.
fn image() -> Vec<u8> {
    let mut v = vec![0u8; 130];
    v[0..4].copy_from_slice(&[0x7f, 0x45, 0x4c, 0x46]);
    v[4] = 2;
    v[5] = 1;
    v[6] = 1;
    v[24..32].copy_from_slice(&0x10000u64.to_le_bytes());
    v[32..40].copy_from_slice(&64u64.to_le_bytes());
    v[54..56].copy_from_slice(&56u16.to_le_bytes());
    v[56..58].copy_from_slice(&1u16.to_le_bytes());
    v[64..68].copy_from_slice(&1u32.to_le_bytes());
    v[68..72].copy_from_slice(&6u32.to_le_bytes());
    v[72..80].copy_from_slice(&120u64.to_le_bytes());
    v[80..88].copy_from_slice(&0x10000u64.to_le_bytes());
    v[96..104].copy_from_slice(&10u64.to_le_bytes());
    v[104..112].copy_from_slice(&0x2000u64.to_le_bytes());
    v
}

fn running_kernel(n: usize) -> (Kernel, Vec<usize>) {
    let mut k = Kernel::new(0, 128 * PAGE_SIZE, 0x8020_0000, 0, 0);
    let img = image();
    let pids: Vec<usize> = (0..n).map(|_| k.spawn(&img)).collect();
    k.run_next();
    (k, pids)
}

fn call(k: &mut Kernel, pid: usize, id: usize, a0: usize, a1: usize, a2: usize) {
    let tf = k.trap_cx_of(pid);
    k.set_trap_cx(pid, TrapFrame { a0, a1, a2, a7: id, ..tf });
}

#[test]
fn write_syscall_goes_through_registers() {
    let (mut k, pids) = running_kernel(1);
    let p = pids[0];
    for (i, b) in b"ok\n".iter().enumerate() {
        assert!(k.write_user_byte(p, 0x11000 + i, *b));
    }
    let pc = k.trap_cx_of(p).sepc;
    call(&mut k, p, SYSCALL_WRITE, 1, 0x11000, 3);
    assert_eq!(k.handle_trap(TrapKind::SysCall, 0), Some(p));
    assert_eq!(k.trap_cx_of(p).a0, 3);
    assert_eq!(k.trap_cx_of(p).sepc, pc + 4);
    assert_eq!(k.console_output().clone(), b"ok\n".to_vec());
}

#[test]
fn write_to_unmapped_buffer_fails() {
    let (mut k, pids) = running_kernel(1);
    let p = pids[0];
    call(&mut k, p, SYSCALL_WRITE, 1, 0x40_0000, 4);
    assert_eq!(k.handle_trap(TrapKind::SysCall, 0), Some(p));
    assert_eq!(k.trap_cx_of(p).a0 as isize, -1);
    assert!(k.console_output().is_empty());
}

#[test]
fn unknown_syscall_returns_minus_one() {
    let (mut k, pids) = running_kernel(1);
    let p = pids[0];
    call(&mut k, p, 999, 0, 0, 0);
    assert_eq!(k.handle_trap(TrapKind::SysCall, 0), Some(p));
    assert_eq!(k.trap_cx_of(p).a0 as isize, -1);
}

#[test]
fn get_time_syscall_returns_clock() {
    let (mut k, pids) = running_kernel(1);
    let p = pids[0];
    call(&mut k, p, SYSCALL_GET_TIME, 0, 0, 0);
    assert_eq!(k.handle_trap(TrapKind::SysCall, 4321), Some(p));
    assert_eq!(k.trap_cx_of(p).a0, 4321);
}

#[test]
fn yield_syscall_and_timer_rotate_tasks() {
    let (mut k, pids) = running_kernel(2);
    call(&mut k, pids[0], SYSCALL_YIELD, 5, 0, 0);
    assert_eq!(k.handle_trap(TrapKind::SysCall, 0), Some(pids[1]));
    assert_eq!(k.trap_cx_of(pids[0]).a0, 0);
    assert_eq!(k.status_of(pids[0]), Some(TaskStatus::Ready));
    assert_eq!(k.handle_trap(TrapKind::Timer, 0), Some(pids[0]));
    assert_eq!(k.status_of(pids[1]), Some(TaskStatus::Ready));
}

#[test]
fn lone_task_yield_keeps_running() {
    let (mut k, pids) = running_kernel(1);
    assert_eq!(k.handle_trap(TrapKind::Timer, 0), Some(pids[0]));
    assert_eq!(k.status_of(pids[0]), Some(TaskStatus::Running));
}

#[test]
fn exit_syscall_records_code() {
    let (mut k, pids) = running_kernel(2);
    call(&mut k, pids[0], SYSCALL_EXIT, 7, 0, 0);
    assert_eq!(k.handle_trap(TrapKind::SysCall, 0), Some(pids[1]));
    assert_eq!(k.status_of(pids[0]), Some(TaskStatus::Exited));
}

#[test]
fn faults_end_the_task() {
    let (mut k, pids) = running_kernel(3);
    assert_eq!(k.handle_trap(TrapKind::StorePageFault, 0), Some(pids[1]));
    assert_eq!(k.handle_trap(TrapKind::IllegalInstruction, 0), Some(pids[2]));
    assert_eq!(k.handle_trap(TrapKind::LoadPageFault, 0), None);
    assert_eq!(k.status_of(pids[0]), Some(TaskStatus::Exited));
    assert_eq!(k.status_of(pids[1]), Some(TaskStatus::Exited));
    assert_eq!(EXIT_SEGV, -11);
    assert_eq!(EXIT_ILL, -4);
}

#[test]
fn breakpoint_changes_nothing() {
    let (mut k, pids) = running_kernel(2);
    let tf = k.trap_cx_of(pids[0]);
    assert_eq!(k.handle_trap(TrapKind::Breakpoint, 0), Some(pids[0]));
    assert_eq!(k.trap_cx_of(pids[0]), tf);
    assert_eq!(k.handle_trap(TrapKind::Other, 0), Some(pids[0]));
}
