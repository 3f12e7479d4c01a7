use ucore::config::PAGE_SIZE;
use ucore::elf::{entry_point, program_header, program_header_count};
use ucore::frame_allocator::{add_frames_range, frame_alloc, frame_dealloc, frames_alloc};
use ucore::kernel::{kernel_stack_position, sys_get_time, Kernel, FD_STDOUT};
use ucore::manager::TaskManager;
use ucore::memory_set::{le_bytes, perm_from_flags, MapArea, MapPermission, MapType, MemorySet, PERM_R, PERM_U, PERM_W, PERM_X};
use ucore::task::{OpenFile, TaskStatus};
use ucore::vpn_range::{SimpleRangeIterator, VAddrRange};

const PF_X: u32 = 1;
const PF_W: u32 = 2;
const PF_R: u32 = 4;

fn put16(v: &mut Vec<u8>, at: usize, x: u16) {
    v[at..at + 2].copy_from_slice(&x.to_le_bytes());
}

fn put32(v: &mut Vec<u8>, at: usize, x: u32) {
    v[at..at + 4].copy_from_slice(&x.to_le_bytes());
}

fn put64(v: &mut Vec<u8>, at: usize, x: u64) {
    v[at..at + 8].copy_from_slice(&x.to_le_bytes());
}

/// An ELF64 image with one PT_LOAD segment holding `data` at `vaddr`.
fn minimal_elf(vaddr: u64, data: &[u8], mem_size: u64, flags: u32, entry: u64) -> Vec<u8> {
    let mut v = vec![0u8; 120 + data.len()];
    v[0..4].copy_from_slice(&[0x7f, 0x45, 0x4c, 0x46]);
    v[4] = 2;
    v[5] = 1;
    v[6] = 1;
    put16(&mut v, 16, 2);
    put16(&mut v, 18, 0xf3);
    put32(&mut v, 20, 1);
    put64(&mut v, 24, entry);
    put64(&mut v, 32, 64);
    put16(&mut v, 52, 64);
    put16(&mut v, 54, 56);
    put16(&mut v, 56, 1);
    put32(&mut v, 64, 1);
    put32(&mut v, 68, flags);
    put64(&mut v, 72, 120);
    put64(&mut v, 80, vaddr);
    put64(&mut v, 88, vaddr);
    put64(&mut v, 96, data.len() as u64);
    put64(&mut v, 104, mem_size);
    put64(&mut v, 112, 0x1000);
    v[120..].copy_from_slice(data);
    v
}

const TEN: [u8; 10] = [1, 2, 3, 4, 5, 6, 7, 8, 9, 10];

fn sample_elf() -> Vec<u8> {
    minimal_elf(0x10000, &TEN, 4096, PF_R | PF_X, 0x10004)
}

fn writable_elf() -> Vec<u8> {
    minimal_elf(0x10000, &TEN, 0x2000, PF_R | PF_W, 0x10000)
}

const BOOT_ROOT: usize = 0x8_0000;

fn new_kernel() -> Kernel {
    Kernel::new(0, 128 * PAGE_SIZE, 0x8020_0000, 0, BOOT_ROOT)
}

#[test]
fn alloc_hands_out_distinct_frames_in_order() {
    let mut fa = add_frames_range(0, 4 * PAGE_SIZE);
    let a = frame_alloc(&mut fa).unwrap();
    let b = frame_alloc(&mut fa).unwrap();
    let c = frame_alloc(&mut fa).unwrap();
    let d = frame_alloc(&mut fa).unwrap();
    assert_eq!([a.ppn, b.ppn, c.ppn, d.ppn], [0, 1, 2, 3]);
    assert!(frame_alloc(&mut fa).is_none());
}

#[test]
fn arena_starts_at_first_whole_frame() {
    let mut fa = add_frames_range(100, 3 * PAGE_SIZE + 5);
    assert_eq!(fa.free_frames_exec(), 2);
    assert_eq!(frame_alloc(&mut fa).unwrap().ppn, 1);
    assert_eq!(frame_alloc(&mut fa).unwrap().ppn, 2);
    assert!(frame_alloc(&mut fa).is_none());
}

#[test]
fn dealloc_recycles_last_freed_first() {
    let mut fa = add_frames_range(0, 8 * PAGE_SIZE);
    let a = frame_alloc(&mut fa).unwrap();
    let b = frame_alloc(&mut fa).unwrap();
    let _c = frame_alloc(&mut fa).unwrap();
    frame_dealloc(&mut fa, a.ppn);
    frame_dealloc(&mut fa, b.ppn);
    assert_eq!(fa.free_frames_exec(), 7);
    assert_eq!(frame_alloc(&mut fa).unwrap().ppn, 1);
    assert_eq!(frame_alloc(&mut fa).unwrap().ppn, 0);
    assert_eq!(frame_alloc(&mut fa).unwrap().ppn, 3);
}

#[test]
fn alloc_returns_zeroed_frame() {
    let mut fa = add_frames_range(0, 2 * PAGE_SIZE);
    let a = frame_alloc(&mut fa).unwrap();
    for i in 0..PAGE_SIZE {
        fa.write_byte(a.ppn * PAGE_SIZE + i, 0xEE);
    }
    frame_dealloc(&mut fa, a.ppn);
    let again = frame_alloc(&mut fa).unwrap();
    assert_eq!(again.ppn, a.ppn);
    for i in 0..PAGE_SIZE {
        assert_eq!(fa.read_byte(again.ppn * PAGE_SIZE + i), 0);
    }
}

#[test]
fn frames_alloc_is_contiguous_and_all_or_nothing() {
    let mut fa = add_frames_range(0, 6 * PAGE_SIZE);
    let _one = frame_alloc(&mut fa).unwrap();
    let run = frames_alloc(&mut fa, 3).unwrap();
    let ppns: Vec<usize> = run.iter().map(|f| f.ppn).collect();
    assert_eq!(ppns, vec![1, 2, 3]);
    assert!(frames_alloc(&mut fa, 3).is_none());
    assert_eq!(fa.free_frames_exec(), 2);
    assert_eq!(frames_alloc(&mut fa, 2).unwrap().len(), 2);
}

#[test]
fn range_iterator_walks_pages() {
    let r = VAddrRange::new(0x1000, 0x4000);
    assert_eq!(r.get_start(), 0x1000);
    assert_eq!(r.get_end(), 0x4000);
    let mut it = r.iter();
    let mut seen = Vec::new();
    while let Some(va) = it.next() {
        seen.push(va);
    }
    assert_eq!(seen, vec![0x1000, 0x2000, 0x3000]);
    let mut empty = SimpleRangeIterator::new(0x5000, 0x5000);
    assert_eq!(empty.next(), None);
}

#[test]
fn map_area_rounds_to_pages() {
    let a = MapArea::new(0x10010, 0x12001, MapType::Framed, MapPermission { bits: PERM_R });
    assert_eq!(a.vaddr_range.get_start(), 0x10000);
    assert_eq!(a.vaddr_range.get_end(), 0x13000);
    let b = MapArea::from_another(&a);
    assert_eq!(b.vaddr_range.get_start(), 0x10000);
    assert_eq!(b.vaddr_range.get_end(), 0x13000);
    assert_eq!(b.map_perm, MapPermission { bits: PERM_R });
}

#[test]
fn segment_rights_follow_flags() {
    assert_eq!(perm_from_flags(PF_R | PF_X).bits, PERM_U | PERM_R | PERM_X);
    assert_eq!(perm_from_flags(PF_R | PF_W).bits, PERM_U | PERM_R | PERM_W);
    assert_eq!(perm_from_flags(0).bits, PERM_U);
    assert_eq!(perm_from_flags(7).bits, 30);
}

#[test]
fn elf_header_fields_are_read() {
    let img = sample_elf();
    assert_eq!(entry_point(&img), 0x10004);
    assert_eq!(program_header_count(&img), 1);
    let ph = program_header(&img, 0);
    assert!(ph.is_load);
    assert_eq!(ph.flags, PF_R | PF_X);
    assert_eq!(ph.offset, 120);
    assert_eq!(ph.vaddr, 0x10000);
    assert_eq!(ph.file_size, 10);
    assert_eq!(ph.mem_size, 4096);
}

#[test]
fn elf_load_copies_segment_and_zero_fills() {
    let img = sample_elf();
    let mut fa = add_frames_range(0, 32 * PAGE_SIZE);
    let (ms, user_sp, entry) = MemorySet::from_elf(&mut fa, &img);
    assert_eq!(entry, 0x10004);
    for (i, b) in TEN.iter().enumerate() {
        assert_eq!(ms.read_byte(&fa, 0x10000 + i), Some(*b));
    }
    for va in 0x1000A..0x11000 {
        assert_eq!(ms.read_byte(&fa, va), Some(0));
    }
    // one guard page above the segment, then the stack
    assert_eq!(user_sp, 0x12000 + 5 * PAGE_SIZE);
    assert_eq!(ms.read_byte(&fa, 0x11000), None);
    assert_eq!(ms.read_byte(&fa, 0x12000), Some(0));
    assert_eq!(ms.read_byte(&fa, user_sp - 1), Some(0));
    assert_eq!(ms.read_byte(&fa, user_sp), None);
    assert_eq!(ms.read_byte(&fa, 0xF000), None);
    // root, one segment page, five stack pages
    assert_eq!(fa.free_frames_exec(), 32 - 7);
}

#[test]
fn translate_gives_frame_address_and_rights() {
    let img = sample_elf();
    let mut fa = add_frames_range(0, 32 * PAGE_SIZE);
    let (ms, _, _) = MemorySet::from_elf(&mut fa, &img);
    let (pa, perm) = ms.translate(0x10003).unwrap();
    assert_eq!(pa % PAGE_SIZE, 3);
    assert_eq!(fa.read_byte(pa), 4);
    assert_eq!(perm.bits, PERM_U | PERM_R | PERM_X);
    let (_, stack_perm) = ms.translate(0x12000).unwrap();
    assert_eq!(stack_perm.bits, PERM_R | PERM_W | PERM_U);
    assert!(ms.translate(0x11000).is_none());
    assert_ne!(ms.token(), pa / PAGE_SIZE);
}

#[test]
fn duplicate_copies_every_byte_without_aliasing() {
    let img = writable_elf();
    let mut fa = add_frames_range(0, 64 * PAGE_SIZE);
    let (ms, user_sp, _) = MemorySet::from_elf(&mut fa, &img);
    assert!(ms.write_byte(&mut fa, 0x11234, 0x5A));
    assert!(ms.write_byte(&mut fa, user_sp - 8, 0x77));
    let dup = MemorySet::from_existed_user(&ms, &mut fa);
    for va in (0x10000..0x12000).chain(user_sp - 5 * PAGE_SIZE..user_sp) {
        assert_eq!(dup.read_byte(&fa, va), ms.read_byte(&fa, va));
    }
    assert_eq!(dup.read_byte(&fa, 0x11234), Some(0x5A));
    assert_eq!(dup.read_byte(&fa, 0x10009), Some(10));
    assert!(dup.write_byte(&mut fa, 0x11234, 0x11));
    assert_eq!(ms.read_byte(&fa, 0x11234), Some(0x5A));
    assert_eq!(dup.read_byte(&fa, 0x11234), Some(0x11));
    assert_ne!(dup.token(), ms.token());
}

#[test]
fn recycle_and_release_return_frames() {
    let img = sample_elf();
    let mut fa = add_frames_range(0, 32 * PAGE_SIZE);
    let (mut ms, _, _) = MemorySet::from_elf(&mut fa, &img);
    assert_eq!(fa.free_frames_exec(), 25);
    ms.recycle_data_pages(&mut fa);
    assert_eq!(fa.free_frames_exec(), 31);
    assert!(ms.translate(0x10000).is_none());
    ms.release(&mut fa);
    assert_eq!(fa.free_frames_exec(), 32);
}

#[test]
fn le_bytes_is_little_endian() {
    assert_eq!(le_bytes(0x0102_0304), vec![4, 3, 2, 1, 0, 0, 0, 0]);
    assert_eq!(le_bytes(0), vec![0; 8]);
}

#[test]
fn kernel_stacks_are_separated_by_guard_pages() {
    assert_eq!(kernel_stack_position(0), 0x9000_0000 + 0x6000);
    assert_eq!(kernel_stack_position(1) - kernel_stack_position(0), 0x6000);
}

#[test]
fn task_manager_is_fifo() {
    let mut m = TaskManager::new();
    m.add(3);
    m.add(1);
    m.add(2);
    assert_eq!(m.len(), 3);
    assert_eq!(m.fetch(), Some(3));
    assert_eq!(m.fetch(), Some(1));
    assert_eq!(m.fetch(), Some(2));
    assert_eq!(m.fetch(), None);
}

#[test]
fn spawn_sets_up_a_ready_task() {
    let mut k = new_kernel();
    let img = sample_elf();
    let pid = k.spawn(&img);
    assert_eq!(pid, 0);
    assert_eq!(k.status_of(pid), Some(TaskStatus::Ready));
    let tf = k.trap_cx_of(pid);
    assert_eq!(tf.sepc, 0x10004);
    assert_eq!(tf.sp, 0x17000);
    let (cx, root) = k.switch_target(pid);
    assert_eq!(cx.pc, 0x8020_0000);
    assert_eq!(cx.sp, kernel_stack_position(0));
    assert_eq!(root, k.memory_set_of(pid).token());
    assert_eq!(k.current_task(), None);
}

#[test]
fn fifo_scheduling_round_robin() {
    let mut k = new_kernel();
    let img = sample_elf();
    let a = k.spawn(&img);
    let b = k.spawn(&img);
    let c = k.spawn(&img);
    let mut order = vec![k.run_next().unwrap()];
    for _ in 0..8 {
        order.push(k.suspend_current_and_run_next());
    }
    assert_eq!(order, vec![a, b, c, a, b, c, a, b, c]);
    assert_eq!(k.status_of(c), Some(TaskStatus::Running));
    assert_eq!(k.status_of(a), Some(TaskStatus::Ready));
}

#[test]
fn run_next_on_empty_queue_is_none() {
    let mut k = new_kernel();
    assert_eq!(k.run_next(), None);
}

#[test]
fn exec_lays_out_arguments() {
    let mut k = new_kernel();
    let img = sample_elf();
    let pid = k.spawn(&img);
    k.run_next();
    let args = vec![b"echo".to_vec(), b"hi".to_vec()];
    assert_eq!(k.exec(&img, &args), 2);
    let tf = k.trap_cx_of(pid);
    assert_eq!(tf.sp % 8, 0);
    assert_eq!(tf.a0, 2);
    let argv = tf.a1;
    assert_eq!(argv, 0x17000 - 3 * 8);
    assert!(tf.sp <= argv);
    let word = |k: &Kernel, va: usize| -> usize {
        let mut w = 0usize;
        for i in (0..8).rev() {
            w = (w << 8) | k.read_user_byte(pid, va + i).unwrap() as usize;
        }
        w
    };
    let string = |k: &Kernel, mut va: usize| -> Vec<u8> {
        let mut s = Vec::new();
        loop {
            let b = k.read_user_byte(pid, va).unwrap();
            if b == 0 {
                return s;
            }
            s.push(b);
            va += 1;
        }
    };
    let p0 = word(&k, argv);
    let p1 = word(&k, argv + 8);
    assert_eq!(string(&k, p0), b"echo".to_vec());
    assert_eq!(string(&k, p1), b"hi".to_vec());
    assert_eq!(word(&k, argv + 16), 0);
    assert_eq!(p0, argv - 5);
    assert_eq!(p1, argv - 8);
    assert_eq!(tf.sp, argv - 8);
}

#[test]
fn exec_with_no_arguments() {
    let mut k = new_kernel();
    let img = sample_elf();
    let pid = k.spawn(&img);
    k.run_next();
    let free = k.free_frame_count();
    assert_eq!(k.exec(&img, &Vec::new()), 0);
    assert_eq!(k.free_frame_count(), free);
    let tf = k.trap_cx_of(pid);
    assert_eq!(tf.a1, 0x17000 - 8);
    assert_eq!(tf.sp, 0x17000 - 8);
    assert_eq!(tf.sepc, 0x10004);
}

#[test]
fn fork_isolation() {
    let mut k = new_kernel();
    let img = writable_elf();
    let parent = k.spawn(&img);
    assert_eq!(k.run_next(), Some(parent));
    assert!(k.write_user_byte(parent, 0x11000, 0xAB));
    let child = k.fork();
    assert_eq!(k.read_user_byte(child, 0x11000), Some(0xAB));
    assert_eq!(k.trap_cx_of(child).a0, 0);
    assert_eq!(k.trap_cx_of(child).sepc, k.trap_cx_of(parent).sepc);
    assert!(k.write_user_byte(child, 0x11000, 0xCD));
    assert_eq!(k.read_user_byte(parent, 0x11000), Some(0xAB));
    assert_eq!(k.read_user_byte(child, 0x11000), Some(0xCD));
    assert_eq!(k.status_of(child), Some(TaskStatus::Ready));
}

#[test]
fn zombie_reap() {
    let mut k = new_kernel();
    let img = sample_elf();
    let parent = k.spawn(&img);
    k.run_next();
    let before_fork = k.free_frame_count();
    let child = k.fork();
    assert_eq!(k.waitpid(-1), (-2, 0));
    assert_eq!(k.sys_yield(), child);
    assert_eq!(k.getpid(), child);
    assert_eq!(k.sys_exit(7), Some(parent));
    assert_eq!(k.status_of(child), Some(TaskStatus::Exited));
    assert_eq!(k.waitpid(child as isize), (child as isize, 7));
    assert_eq!(k.status_of(child), None);
    assert_eq!(k.free_frame_count(), before_fork);
    assert_eq!(k.waitpid(-1), (-1, 0));
}

#[test]
fn waitpid_for_a_stranger_is_minus_one() {
    let mut k = new_kernel();
    let img = sample_elf();
    let a = k.spawn(&img);
    let b = k.spawn(&img);
    assert_eq!(k.run_next(), Some(a));
    assert_eq!(k.waitpid(b as isize), (-1, 0));
}

#[test]
fn exit_with_empty_queue_leaves_processor_idle() {
    let mut k = new_kernel();
    let img = sample_elf();
    let a = k.spawn(&img);
    k.run_next();
    assert_eq!(k.exit_current_and_run_next(3), None);
    assert_eq!(k.current_task(), None);
    assert_eq!(k.status_of(a), Some(TaskStatus::Exited));
}

#[test]
fn sys_write_copies_user_bytes_to_console() {
    let mut k = new_kernel();
    let img = writable_elf();
    let pid = k.spawn(&img);
    k.run_next();
    assert!(k.write_user_byte(pid, 0x11000, b'h'));
    assert!(k.write_user_byte(pid, 0x11001, b'i'));
    assert_eq!(k.sys_write(FD_STDOUT, 0x11000, 2), 2);
    assert_eq!(k.console_output().clone(), b"hi".to_vec());
    assert_eq!(k.sys_write(0, 0x11000, 2), -1);
    assert_eq!(k.sys_write(9, 0x11000, 2), -1);
    assert_eq!(k.sys_write(FD_STDOUT, 0x11FFF, 2), -1);
    assert_eq!(k.console_output().clone(), b"hi".to_vec());
    assert_eq!(k.sys_write(FD_STDOUT, 0x10000, 0), 0);
}

#[test]
fn get_time_passes_the_clock_through() {
    assert_eq!(sys_get_time(1234), 1234);
    assert_eq!(sys_get_time(usize::MAX), isize::MAX);
}

#[test]
fn translated_str_reads_exec_arguments() {
    let mut k = new_kernel();
    let img = sample_elf();
    let pid = k.spawn(&img);
    k.run_next();
    let args = vec![b"echo".to_vec(), b"hi".to_vec()];
    k.exec(&img, &args);
    let argv = k.trap_cx_of(pid).a1;
    assert_eq!(k.translated_str(pid, argv - 5), Some(b"echo".to_vec()));
    assert_eq!(k.translated_str(pid, argv - 8), Some(b"hi".to_vec()));
    assert_eq!(k.translated_str(pid, 0x11000), None);
    assert_eq!(k.current_user_token(), k.memory_set_of(pid).token());
}

#[test]
fn check_elf_accepts_and_counts_frames() {
    assert_eq!(ucore::memory_set::check_elf(&sample_elf()), Some(7));
    assert_eq!(ucore::memory_set::check_elf(&writable_elf()), Some(8));
    let mut bad = sample_elf();
    bad[1] = b'X';
    assert_eq!(ucore::memory_set::check_elf(&bad), None);
    let mut short = sample_elf();
    short.truncate(40);
    assert_eq!(ucore::memory_set::check_elf(&short), None);
    let mut truncated_data = sample_elf();
    truncated_data.truncate(125);
    assert_eq!(ucore::memory_set::check_elf(&truncated_data), None);
    let too_high = minimal_elf(0x7FFF_FFFF_FFFF_F000, &TEN, 4096, PF_R, 0x10000);
    assert_eq!(ucore::memory_set::check_elf(&too_high), None);
}

#[test]
fn blocked_task_waits_until_woken() {
    let mut k = new_kernel();
    let img = sample_elf();
    let a = k.spawn(&img);
    let b = k.spawn(&img);
    assert_eq!(k.run_next(), Some(a));
    assert_eq!(k.block_current_and_run_next(), Some(b));
    assert_eq!(k.status_of(a), Some(TaskStatus::Blocked));
    assert_eq!(k.suspend_current_and_run_next(), b);
    k.wakeup_task(a);
    assert_eq!(k.status_of(a), Some(TaskStatus::Ready));
    assert_eq!(k.suspend_current_and_run_next(), a);
    assert_eq!(k.block_current_and_run_next(), Some(b));
    assert_eq!(k.block_current_and_run_next(), None);
    assert_eq!(k.current_task(), None);
}

#[test]
fn check_elf_rejects_overlapping_segments() {
    let mut img = minimal_elf(0x10000, &TEN, 0x2000, PF_R, 0x10000);
    // a second program header, loadable, on the second page of the first
    img.splice(120..120, vec![0u8; 56]);
    img[56] = 2;
    put64(&mut img, 72, 176);
    let mut ph = vec![0u8; 56];
    ph[0] = 1;
    ph[4] = PF_R as u8;
    ph[8..16].copy_from_slice(&176u64.to_le_bytes());
    ph[16..24].copy_from_slice(&0x11000u64.to_le_bytes());
    ph[40..48].copy_from_slice(&0x1000u64.to_le_bytes());
    img[120..176].copy_from_slice(&ph);
    assert_eq!(ucore::memory_set::check_elf(&img), None);
    // moved one page up, the two segments are disjoint
    put64(&mut img, 136, 0x12000);
    assert_eq!(ucore::memory_set::check_elf(&img), Some(1 + 2 + 1 + 5));
}

#[test]
fn new_and_forked_processes_have_standard_files() {
    let mut k = new_kernel();
    let img = writable_elf();
    let parent = k.spawn(&img);
    k.run_next();
    assert!(k.write_user_byte(parent, 0x11000, b'e'));
    assert_eq!(k.sys_write(2, 0x11000, 1), 1);
    let child = k.fork();
    assert_eq!(k.sys_yield(), child);
    assert_eq!(k.sys_write(1, 0x11000, 1), 1);
    assert_eq!(k.sys_write(2, 0x11000, 1), 1);
    assert_eq!(k.sys_write(0, 0x11000, 1), -1);
    assert_eq!(k.console_output().clone(), b"eee".to_vec());
}

#[test]
fn console_files_have_one_direction() {
    assert!(OpenFile::Stdin.readable());
    assert!(!OpenFile::Stdin.writable());
    assert!(OpenFile::Stdout.writable());
    assert!(!OpenFile::Stdout.readable());
}

#[test]
fn switching_installs_the_task_page_table() {
    let mut k = new_kernel();
    let img = sample_elf();
    let a = k.spawn(&img);
    let b = k.spawn(&img);
    assert_eq!(k.active_page_table(), BOOT_ROOT);
    k.run_next();
    assert_eq!(k.active_page_table(), k.memory_set_of(a).token());
    k.suspend_current_and_run_next();
    assert_eq!(k.active_page_table(), k.memory_set_of(b).token());
    k.exec(&img, &Vec::new());
    assert_eq!(k.active_page_table(), k.memory_set_of(b).token());
    k.exit_current_and_run_next(0);
    assert_eq!(k.active_page_table(), k.memory_set_of(a).token());
    k.exit_current_and_run_next(0);
    assert_eq!(k.active_page_table(), BOOT_ROOT);
}

#[test]
fn segments_high_in_user_space_load() {
    let img = minimal_elf(0x1_8000_0000, &TEN, 4096, PF_R | PF_W, 0x1_8000_0000);
    assert_eq!(ucore::memory_set::check_elf(&img), Some(7));
    let mut fa = add_frames_range(0, 32 * PAGE_SIZE);
    let (ms, user_sp, entry) = MemorySet::from_elf(&mut fa, &img);
    assert_eq!(entry, 0x1_8000_0000);
    assert_eq!(user_sp, 0x1_8000_2000 + 5 * PAGE_SIZE);
    assert_eq!(ms.read_byte(&fa, 0x1_8000_0009), Some(10));
}

#[test]
fn reaped_slot_is_reused() {
    let mut k = new_kernel();
    let img = sample_elf();
    let parent = k.spawn(&img);
    k.run_next();
    let child = k.fork();
    assert_eq!(k.free_slot(), 2);
    assert_eq!(k.sys_yield(), child);
    k.sys_exit(0);
    assert_eq!(k.waitpid(child as isize), (child as isize, 0));
    assert_eq!(k.free_slot(), child);
    assert_eq!(k.fork(), child);
    assert_eq!(k.getpid(), parent);
    assert_eq!(k.task_count(), 2);
}
