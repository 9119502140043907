use lib::filesystem::{StatMode, CREATE, RDONLY, RDWR, TRUNC, WRONLY};
use lib::kernel::{FileDesc, Kernel};
use lib::mm::{PAGE_SIZE, TRAMPOLINE_VPN, TRAP_CONTEXT_VPN};
use lib::filesystem::MAX_FILE_SIZE;
use lib::syscall::fs::{
    desc_of, sys_close, sys_fstat, CONSOLE_WOULD_BLOCK, sys_linkat, sys_open, sys_read, sys_unlinkat, sys_write,
    write_fits_check,
};
use lib::syscall::process::{
    map_end_check, map_range_check, sbrk_check, sys_exec, sys_exit, sys_fork, sys_get_time, sys_getpid,
    sys_mmap, sys_munmap, sys_sbrk, sys_set_priority, sys_spawn, sys_waitpid, sys_yield, time_val,
};
use lib::task::{TaskContext, TaskControlBlock, TaskStatus, TaskSyscall};

fn kernel() -> Kernel {
    Kernel::new(b"init".to_vec())
}

fn name(s: &str) -> Vec<u8> {
    s.as_bytes().to_vec()
}

fn current_vpn_mapped(k: &Kernel, vpn: usize) -> bool {
    let pid = k.current_pid();
    k.procs[pid].as_ref().unwrap().memory.is_mapped(vpn)
}

#[test]
fn read_gives_back_write() {
    let mut k = kernel();
    let fd = sys_open(&mut k, &name("note"), CREATE | WRONLY);
    assert_eq!(fd, 3);
    assert_eq!(sys_write(&mut k, fd as usize, &name("hello")), 5);
    let fd2 = sys_open(&mut k, &name("note"), RDONLY);
    assert_eq!(fd2, 4);
    let mut buf = vec![0u8; 5];
    assert_eq!(sys_read(&mut k, fd2 as usize, &mut buf), 5);
    assert_eq!(buf, name("hello"));
}

#[test]
fn read_stops_at_end_and_keeps_rest_of_buffer() {
    let mut k = kernel();
    let fd = sys_open(&mut k, &name("f"), CREATE | RDWR);
    assert_eq!(sys_write(&mut k, fd as usize, &name("abc")), 3);
    let fd2 = sys_open(&mut k, &name("f"), RDONLY);
    let mut buf = vec![9u8; 5];
    assert_eq!(sys_read(&mut k, fd2 as usize, &mut buf), 3);
    assert_eq!(buf, vec![b'a', b'b', b'c', 9, 9]);
    assert_eq!(sys_read(&mut k, fd2 as usize, &mut buf), 0);
}

#[test]
fn reads_advance_the_position() {
    let mut k = kernel();
    let fd = sys_open(&mut k, &name("f"), CREATE | RDWR);
    sys_write(&mut k, fd as usize, &name("abcdef"));
    let fd2 = sys_open(&mut k, &name("f"), RDONLY);
    let mut buf = vec![0u8; 4];
    assert_eq!(sys_read(&mut k, fd2 as usize, &mut buf), 4);
    assert_eq!(buf, name("abcd"));
    assert_eq!(sys_read(&mut k, fd2 as usize, &mut buf), 2);
    assert_eq!(&buf[..2], b"ef");
}

#[test]
fn open_missing_without_create_fails() {
    let mut k = kernel();
    assert_eq!(sys_open(&mut k, &name("missing"), RDONLY), -1);
    assert_eq!(sys_open(&mut k, &name("missing"), TRUNC), -1);
}

#[test]
fn create_empties_existing_file() {
    let mut k = kernel();
    let fd = sys_open(&mut k, &name("f"), CREATE | WRONLY);
    sys_write(&mut k, fd as usize, &name("data"));
    let fd2 = sys_open(&mut k, &name("f"), CREATE);
    let mut buf = vec![0u8; 4];
    assert_eq!(sys_read(&mut k, fd2 as usize, &mut buf), 0);
}

#[test]
fn trunc_empties_existing_file() {
    let mut k = kernel();
    let fd = sys_open(&mut k, &name("f"), CREATE | WRONLY);
    sys_write(&mut k, fd as usize, &name("data"));
    let fd2 = sys_open(&mut k, &name("f"), TRUNC | RDWR);
    assert!(fd2 >= 0);
    let mut buf = vec![0u8; 4];
    assert_eq!(sys_read(&mut k, fd2 as usize, &mut buf), 0);
}

#[test]
fn write_past_end_fills_gap_with_zeros() {
    let mut k = kernel();
    let fd1 = sys_open(&mut k, &name("f"), CREATE | RDWR);
    assert_eq!(sys_write(&mut k, fd1 as usize, &name("abcdef")), 6);
    // emptied through another descriptor; fd1 still writes at position 6
    let _ = sys_open(&mut k, &name("f"), CREATE | WRONLY);
    assert_eq!(sys_write(&mut k, fd1 as usize, &name("xy")), 2);
    let fd3 = sys_open(&mut k, &name("f"), RDONLY);
    let mut buf = vec![7u8; 10];
    assert_eq!(sys_read(&mut k, fd3 as usize, &mut buf), 8);
    assert_eq!(&buf[..8], &[0, 0, 0, 0, 0, 0, b'x', b'y']);
}

#[test]
fn empty_write_changes_nothing() {
    let mut k = kernel();
    let fd = sys_open(&mut k, &name("f"), CREATE | RDWR);
    assert_eq!(sys_write(&mut k, fd as usize, &Vec::new()), 0);
    let fd2 = sys_open(&mut k, &name("f"), RDONLY);
    let mut buf = vec![0u8; 1];
    assert_eq!(sys_read(&mut k, fd2 as usize, &mut buf), 0);
}

#[test]
fn rights_of_descriptors() {
    let mut k = kernel();
    assert_eq!(sys_write(&mut k, 0, &name("x")), -1);
    let mut buf = vec![0u8; 1];
    assert_eq!(sys_read(&mut k, 1, &mut buf), -1);
    let fd = sys_open(&mut k, &name("f"), CREATE | WRONLY);
    assert_eq!(sys_read(&mut k, fd as usize, &mut buf), -1);
    let fd2 = sys_open(&mut k, &name("f"), RDONLY);
    assert_eq!(sys_write(&mut k, fd2 as usize, &name("x")), -1);
    assert_eq!(sys_write(&mut k, 99, &name("x")), -1);
    assert_eq!(sys_read(&mut k, 99, &mut buf), -1);
}

#[test]
fn stdout_goes_to_console() {
    let mut k = kernel();
    assert_eq!(sys_write(&mut k, 1, &name("hi ")), 3);
    assert_eq!(sys_write(&mut k, 2, &name("there")), 5);
    assert_eq!(k.take_console_output(), name("hi there"));
    assert!(k.take_console_output().is_empty());
}

#[test]
fn stdin_reads_one_typed_byte() {
    let mut k = kernel();
    let mut buf = vec![0u8; 1];
    assert_eq!(sys_read(&mut k, 0, &mut buf), CONSOLE_WOULD_BLOCK);
    k.push_console_input(&name("ab"));
    assert_eq!(sys_read(&mut k, 0, &mut buf), 1);
    assert_eq!(buf, name("a"));
    assert_eq!(sys_read(&mut k, 0, &mut buf), 1);
    assert_eq!(buf, name("b"));
    assert_eq!(sys_read(&mut k, 0, &mut buf), CONSOLE_WOULD_BLOCK);
}

#[test]
fn close_twice_fails() {
    let mut k = kernel();
    let fd = sys_open(&mut k, &name("f"), CREATE);
    assert_eq!(sys_close(&mut k, fd as usize), 0);
    assert_eq!(sys_close(&mut k, fd as usize), -1);
    assert_eq!(sys_close(&mut k, 1000), -1);
}

#[test]
fn closed_descriptor_is_reused() {
    let mut k = kernel();
    assert_eq!(sys_open(&mut k, &name("a"), CREATE), 3);
    assert_eq!(sys_open(&mut k, &name("b"), CREATE), 4);
    assert_eq!(sys_close(&mut k, 3), 0);
    assert_eq!(sys_open(&mut k, &name("b"), RDONLY), 3);
    assert_eq!(sys_open(&mut k, &name("a"), RDONLY), 5);
    assert_eq!(sys_close(&mut k, 0), 0);
    assert_eq!(sys_open(&mut k, &name("a"), RDONLY), 0);
}

#[test]
fn fstat_counts_links() {
    let mut k = kernel();
    let fd = sys_open(&mut k, &name("a"), CREATE | RDWR);
    let (r, st) = sys_fstat(&k, fd as usize);
    assert_eq!(r, 0);
    assert_eq!(st.dev, 0);
    assert_eq!(st.ino, 1);
    assert_eq!(st.mode, StatMode::File);
    assert_eq!(st.nlink, 1);
    assert_eq!(sys_linkat(&mut k, &name("a"), &name("b")), 0);
    assert_eq!(sys_fstat(&k, fd as usize).1.nlink, 2);
    // linkat leaves a descriptor open on the new name
    let (_, st_link) = sys_fstat(&k, 4);
    assert_eq!(st_link.ino, 1);
    assert_eq!(st_link.nlink, 2);
    assert_eq!(sys_unlinkat(&mut k, &name("b")), 0);
    assert_eq!(sys_fstat(&k, fd as usize).1.nlink, 1);
    assert_eq!(sys_open(&mut k, &name("b"), RDONLY), -1);
    assert_eq!(sys_unlinkat(&mut k, &name("a")), 0);
    assert_eq!(sys_fstat(&k, fd as usize).1.nlink, 0);
    assert_eq!(sys_open(&mut k, &name("a"), RDONLY), -1);
}

#[test]
fn linked_name_reads_same_data() {
    let mut k = kernel();
    let fd = sys_open(&mut k, &name("a"), CREATE | WRONLY);
    sys_write(&mut k, fd as usize, &name("shared"));
    sys_linkat(&mut k, &name("a"), &name("b"));
    let fd2 = sys_open(&mut k, &name("b"), RDONLY);
    let mut buf = vec![0u8; 6];
    assert_eq!(sys_read(&mut k, fd2 as usize, &mut buf), 6);
    assert_eq!(buf, name("shared"));
}

#[test]
fn link_and_unlink_of_missing_names() {
    let mut k = kernel();
    assert_eq!(sys_linkat(&mut k, &name("nope"), &name("b")), 0);
    assert_eq!(sys_open(&mut k, &name("b"), RDONLY), -1);
    assert_eq!(sys_unlinkat(&mut k, &name("nope")), 0);
    assert_eq!(k.fs.dir.len(), 0);
}

#[test]
fn unlink_undoes_link() {
    let mut k = kernel();
    sys_open(&mut k, &name("a"), CREATE);
    let links_before = k.fs.inodes[1].link_num;
    let dir_before = k.fs.dir.len();
    sys_linkat(&mut k, &name("a"), &name("b"));
    sys_unlinkat(&mut k, &name("b"));
    assert_eq!(k.fs.inodes[1].link_num, links_before);
    assert_eq!(k.fs.dir.len(), dir_before);
    assert_eq!(k.fs.dir[0].name, name("a"));
}

#[test]
fn mmap_then_munmap() {
    let mut k = kernel();
    let start = 0x1000_0000;
    assert_eq!(sys_mmap(&mut k, start, 2 * PAGE_SIZE, 3), 0);
    assert!(current_vpn_mapped(&k, start / PAGE_SIZE));
    assert!(current_vpn_mapped(&k, start / PAGE_SIZE + 1));
    assert!(!current_vpn_mapped(&k, start / PAGE_SIZE + 2));
    assert_eq!(sys_mmap(&mut k, start, PAGE_SIZE, 1), -1);
    assert_eq!(sys_munmap(&mut k, start, 2 * PAGE_SIZE), 0);
    assert!(!current_vpn_mapped(&k, start / PAGE_SIZE));
    assert_eq!(sys_munmap(&mut k, start, PAGE_SIZE), -1);
}

#[test]
fn mmap_rounds_up_to_pages() {
    let mut k = kernel();
    let start = 0x2000_0000;
    assert_eq!(sys_mmap(&mut k, start, PAGE_SIZE + 1, 3), 0);
    assert!(current_vpn_mapped(&k, start / PAGE_SIZE + 1));
    assert!(!current_vpn_mapped(&k, start / PAGE_SIZE + 2));
}

#[test]
fn mmap_under_one_page_maps_nothing() {
    let mut k = kernel();
    let start = 0x3000_0000;
    assert_eq!(sys_mmap(&mut k, start, 100, 3), 0);
    assert!(!current_vpn_mapped(&k, start / PAGE_SIZE));
    assert_eq!(sys_munmap(&mut k, start, 100), 0);
}

#[test]
fn mmap_rejects_bad_arguments() {
    let mut k = kernel();
    assert_eq!(sys_mmap(&mut k, 0x1000_0001, PAGE_SIZE, 3), -1);
    assert_eq!(sys_mmap(&mut k, 0x1000_0000, PAGE_SIZE, 0), -1);
    assert_eq!(sys_mmap(&mut k, 0x1000_0000, PAGE_SIZE, 8), -1);
    assert_eq!(sys_mmap(&mut k, 0x1000_0000, PAGE_SIZE, 15), -1);
    assert_eq!(sys_munmap(&mut k, 0x1000_0001, PAGE_SIZE), -1);
}

#[test]
fn mmap_permissions() {
    let mut k = kernel();
    assert_eq!(sys_mmap(&mut k, 0x1000_0000, PAGE_SIZE, 2), 0);
    let p = k.procs[0].as_ref().unwrap().memory.permission(0x1000_0000 / PAGE_SIZE).unwrap();
    assert!(p.r && p.w && !p.x && p.u);
    assert_eq!(sys_mmap(&mut k, 0x1100_0000, PAGE_SIZE, 4), 0);
    let p = k.procs[0].as_ref().unwrap().memory.permission(0x1100_0000 / PAGE_SIZE).unwrap();
    assert!(!p.r && p.w && p.x && p.u);
    assert_eq!(sys_mmap(&mut k, 0x1200_0000, PAGE_SIZE, 1), 0);
    let p = k.procs[0].as_ref().unwrap().memory.permission(0x1200_0000 / PAGE_SIZE).unwrap();
    assert!(p.r && !p.w && !p.x && p.u);
}

#[test]
fn mmap_address_keeps_low_39_bits() {
    let mut k = kernel();
    let high = (1usize << 39) + 0x1000_0000;
    assert_eq!(sys_mmap(&mut k, high, PAGE_SIZE, 3), 0);
    assert!(current_vpn_mapped(&k, 0x1000_0000 / PAGE_SIZE));
}

#[test]
fn sbrk_grows_and_shrinks() {
    let mut k = kernel();
    assert_eq!(sys_sbrk(&mut k, 4096), 0);
    assert!(current_vpn_mapped(&k, 0));
    assert_eq!(sys_sbrk(&mut k, 10), 4096);
    assert!(current_vpn_mapped(&k, 1));
    assert_eq!(sys_sbrk(&mut k, -4106), 4106);
    assert!(!current_vpn_mapped(&k, 0));
    assert!(!current_vpn_mapped(&k, 1));
    assert_eq!(sys_sbrk(&mut k, -1), -1);
}

#[test]
fn fork_makes_ready_child() {
    let mut k = kernel();
    assert_eq!(sys_getpid(&k), 0);
    let pid = sys_fork(&mut k);
    assert_eq!(pid, 1);
    let parent = k.procs[0].as_ref().unwrap();
    assert_eq!(parent.children, vec![1]);
    let child = k.procs[1].as_ref().unwrap();
    assert_eq!(child.parent, Some(0));
    assert_eq!(child.status, TaskStatus::Ready);
    assert_eq!(child.trap_cx.x[10], 0);
    assert_eq!(child.image, name("init"));
    assert_eq!(child.fd_table, vec![Some(FileDesc::Stdin), Some(FileDesc::Stdout), Some(FileDesc::Stdout)]);
    assert_eq!(k.ready, vec![1]);
    assert_eq!(sys_waitpid(&mut k, 1), (-2, None));
    assert_eq!(sys_waitpid(&mut k, -1), (-2, None));
    assert_eq!(sys_waitpid(&mut k, 7), (-1, None));
}

#[test]
fn forked_child_shares_open_file_position() {
    let mut k = kernel();
    let fd = sys_open(&mut k, &name("f"), CREATE | RDWR);
    sys_fork(&mut k);
    sys_write(&mut k, fd as usize, &name("ab"));
    sys_yield(&mut k);
    assert_eq!(sys_getpid(&k), 1);
    sys_write(&mut k, fd as usize, &name("cd"));
    let fd2 = sys_open(&mut k, &name("f"), RDONLY);
    let mut buf = vec![0u8; 4];
    assert_eq!(sys_read(&mut k, fd2 as usize, &mut buf), 4);
    assert_eq!(buf, name("abcd"));
}

#[test]
fn exit_and_wait() {
    let mut k = kernel();
    assert_eq!(sys_fork(&mut k), 1);
    assert_eq!(sys_yield(&mut k), 0);
    assert_eq!(sys_getpid(&k), 1);
    assert_eq!(sys_exit(&mut k, 7), false);
    assert_eq!(sys_getpid(&k), 0);
    assert_eq!(sys_waitpid(&mut k, -1), (1, Some(7)));
    assert!(k.procs[1].is_none());
    assert_eq!(sys_waitpid(&mut k, -1), (-1, None));
    // the freed pid is handed out again
    assert_eq!(sys_fork(&mut k), 1);
}

#[test]
fn exit_moves_children_to_process_zero() {
    let mut k = kernel();
    assert_eq!(sys_fork(&mut k), 1);
    sys_yield(&mut k);
    assert_eq!(sys_getpid(&k), 1);
    assert_eq!(sys_fork(&mut k), 2);
    assert_eq!(sys_exit(&mut k, 3), false);
    assert_eq!(sys_getpid(&k), 0);
    assert_eq!(k.procs[0].as_ref().unwrap().children, vec![1, 2]);
    assert_eq!(k.procs[2].as_ref().unwrap().parent, Some(0));
    assert_eq!(sys_waitpid(&mut k, 2), (-2, None));
    assert_eq!(sys_waitpid(&mut k, 1), (1, Some(3)));
}

#[test]
fn exit_of_process_zero_shuts_down() {
    let mut k = kernel();
    assert_eq!(sys_exit(&mut k, 0), true);
    assert_eq!(sys_getpid(&k), 0);
}

#[test]
fn yield_alternates_between_ready_processes() {
    let mut k = kernel();
    sys_fork(&mut k);
    sys_yield(&mut k);
    assert_eq!(sys_getpid(&k), 1);
    sys_yield(&mut k);
    assert_eq!(sys_getpid(&k), 0);
    assert_eq!(k.ready, vec![1]);
}

#[test]
fn yield_alone_keeps_running() {
    let mut k = kernel();
    assert_eq!(sys_yield(&mut k), 0);
    assert_eq!(sys_getpid(&k), 0);
    assert!(k.ready.is_empty());
    assert_eq!(k.procs[0].as_ref().unwrap().status, TaskStatus::Running);
}

#[test]
fn exec_replaces_image() {
    let mut k = kernel();
    let fd = sys_open(&mut k, &name("app"), CREATE | WRONLY);
    sys_write(&mut k, fd as usize, &name("\x7fELF..."));
    sys_mmap(&mut k, 0x1000_0000, PAGE_SIZE, 3);
    assert_eq!(sys_exec(&mut k, &name("app")), 0);
    let p = k.procs[0].as_ref().unwrap();
    assert_eq!(p.image, name("\x7fELF..."));
    assert!(!p.memory.is_mapped(0x1000_0000 / PAGE_SIZE));
    assert_eq!(p.fd_table.len(), 4);
    assert_eq!(sys_exec(&mut k, &name("nope")), -1);
}

#[test]
fn spawn_starts_child() {
    let mut k = kernel();
    let fd = sys_open(&mut k, &name("app"), CREATE | WRONLY);
    sys_write(&mut k, fd as usize, &name("prog"));
    assert_eq!(sys_spawn(&mut k, &name("app")), 1);
    let child = k.procs[1].as_ref().unwrap();
    assert_eq!(child.image, name("prog"));
    assert_eq!(child.parent, Some(0));
    assert_eq!(child.fd_table.len(), 3);
    assert_eq!(child.trap_cx.x[10], 0);
    assert_eq!(k.ready, vec![1]);
    assert_eq!(sys_spawn(&mut k, &name("nope")), -1);
}

#[test]
fn set_priority_bounds() {
    let mut k = kernel();
    assert_eq!(sys_set_priority(&mut k, 1), -1);
    assert_eq!(sys_set_priority(&mut k, -5), -1);
    assert_eq!(sys_set_priority(&mut k, 2), 2);
    assert_eq!(k.procs[0].as_ref().unwrap().priority, 2);
    assert_eq!(sys_set_priority(&mut k, 100), 100);
}

#[test]
fn get_time_bytes() {
    let (r, bytes) = sys_get_time(3_000_258);
    assert_eq!(r, 0);
    let mut want = Vec::new();
    want.extend_from_slice(&3u64.to_le_bytes());
    want.extend_from_slice(&258u64.to_le_bytes());
    assert_eq!(bytes, want);
    let tv = time_val(1_999_999);
    assert_eq!(tv.sec, 1);
    assert_eq!(tv.usec, 999_999);
    assert_eq!(tv.sec * 1_000_000 + tv.usec, 1_999_999);
}

#[test]
fn task_types() {
    let cx = TaskContext::zero_init();
    assert_eq!(cx.ra, 0);
    assert_eq!(cx.s, [0; 12]);
    let tcb = TaskControlBlock {
        task_status: TaskStatus::UnInit,
        task_cx: cx,
        sys_num: TaskSyscall { sysgettime: 0, systrace: 0, syswrite: 1, sysyield: 0, sysexit: 0 },
        sys_addr: 0,
    };
    let copy = tcb;
    assert!(copy.task_status == TaskStatus::UnInit);
    assert_eq!(copy.sys_num.syswrite, 1);
}

#[test]
fn precondition_checks() {
    let mut k = kernel();
    assert_eq!(desc_of(&k, 0), Some(FileDesc::Stdin));
    assert_eq!(desc_of(&k, 2), Some(FileDesc::Stdout));
    assert_eq!(desc_of(&k, 3), None);
    let fd = sys_open(&mut k, &name("f"), CREATE | RDWR) as usize;
    assert_eq!(desc_of(&k, fd), Some(FileDesc::File(0)));
    assert!(write_fits_check(&k, fd, MAX_FILE_SIZE));
    assert!(!write_fits_check(&k, fd, MAX_FILE_SIZE + 1));
    assert!(write_fits_check(&k, 1, usize::MAX));
    assert!(map_range_check(0x1000_0000, PAGE_SIZE));
    assert!(!map_range_check(usize::MAX - 10, 2 * PAGE_SIZE));
    // the masked end falls below the masked start
    assert!(!map_range_check((1usize << 39) - PAGE_SIZE, 2 * PAGE_SIZE));
    assert!(sbrk_check(&k, 4096));
    assert!(sbrk_check(&k, -1));
    assert_eq!(sys_mmap(&mut k, 0, PAGE_SIZE, 3), 0);
    assert!(!sbrk_check(&k, 4096));
}

#[test]
fn write_to_read_only_file_fails_at_any_length() {
    let mut k = kernel();
    let fd = sys_open(&mut k, &name("f"), CREATE | WRONLY);
    sys_write(&mut k, fd as usize, &name("keep"));
    let ro = sys_open(&mut k, &name("f"), RDONLY) as usize;
    let big = vec![1u8; MAX_FILE_SIZE + 10];
    assert!(write_fits_check(&k, ro, big.len()));
    assert_eq!(sys_write(&mut k, ro, &big), -1);
    let fd2 = sys_open(&mut k, &name("f"), RDONLY);
    let mut buf = vec![0u8; 8];
    assert_eq!(sys_read(&mut k, fd2 as usize, &mut buf), 4);
    assert_eq!(&buf[..4], b"keep");
}

#[test]
fn read_after_close_gives_back_write() {
    let mut k = kernel();
    let fd = sys_open(&mut k, &name("f"), CREATE | WRONLY);
    assert_eq!(sys_write(&mut k, fd as usize, &vec![97, 98, 99]), 3);
    assert_eq!(sys_close(&mut k, fd as usize), 0);
    let fd2 = sys_open(&mut k, &name("f"), RDONLY);
    assert_eq!(fd2, fd);
    let mut buf = vec![0u8; 3];
    assert_eq!(sys_read(&mut k, fd2 as usize, &mut buf), 3);
    assert_eq!(buf, vec![97, 98, 99]);
}

#[test]
fn fork_returns_twice() {
    let mut k = kernel();
    k.procs[0].as_mut().unwrap().trap_cx.x[10] = 77;
    let c = sys_fork(&mut k);
    assert_eq!(sys_getpid(&k), 0);
    let child = k.procs[c as usize].as_ref().unwrap();
    assert_eq!(child.trap_cx.x[10], 0);
    sys_yield(&mut k);
    assert_eq!(sys_getpid(&k), c);
}

#[test]
fn munmap_end_check() {
    let mut k = kernel();
    assert!(map_end_check(0x1000_0000, PAGE_SIZE));
    assert!(!map_end_check(usize::MAX - 10, 2 * PAGE_SIZE));
    // a range that wraps below its start under the 39-bit mask unmaps nothing
    let start = (1usize << 39) - PAGE_SIZE;
    assert!(map_end_check(start, 2 * PAGE_SIZE));
    assert_eq!(sys_munmap(&mut k, start, 2 * PAGE_SIZE), 0);
}

#[test]
fn console_read_without_input_suspends_the_reader() {
    let mut k = kernel();
    assert_eq!(sys_fork(&mut k), 1);
    let mut buf = vec![0u8; 1];
    assert_eq!(sys_read(&mut k, 0, &mut buf), CONSOLE_WOULD_BLOCK);
    assert_eq!(sys_getpid(&k), 1);
    assert_eq!(k.ready, vec![0]);
    assert_eq!(k.procs[0].as_ref().unwrap().status, TaskStatus::Ready);
    k.push_console_input(&name("z"));
    sys_yield(&mut k);
    assert_eq!(sys_getpid(&k), 0);
    assert_eq!(sys_read(&mut k, 0, &mut buf), 1);
    assert_eq!(buf, name("z"));
}

#[test]
fn reserved_pages_are_mapped() {
    let mut k = kernel();
    assert!(current_vpn_mapped(&k, TRAMPOLINE_VPN));
    assert!(current_vpn_mapped(&k, TRAP_CONTEXT_VPN));
    let p = k.procs[0].as_ref().unwrap().memory.permission(TRAMPOLINE_VPN).unwrap();
    assert!(p.r && !p.w && p.x && !p.u);
    assert_eq!(sys_mmap(&mut k, TRAP_CONTEXT_VPN * PAGE_SIZE, PAGE_SIZE, 3), -1);
    assert_eq!(sys_mmap(&mut k, (TRAP_CONTEXT_VPN - 1) * PAGE_SIZE, 2 * PAGE_SIZE, 3), -1);
    let fd = sys_open(&mut k, &name("app"), CREATE | WRONLY);
    sys_write(&mut k, fd as usize, &name("prog"));
    assert_eq!(sys_spawn(&mut k, &name("app")), 1);
    assert!(k.procs[1].as_ref().unwrap().memory.is_mapped(TRAMPOLINE_VPN));
    assert_eq!(sys_exec(&mut k, &name("app")), 0);
    assert!(current_vpn_mapped(&k, TRAP_CONTEXT_VPN));
    assert_eq!(sys_fork(&mut k), 2);
    assert!(k.procs[2].as_ref().unwrap().memory.is_mapped(TRAP_CONTEXT_VPN));
}

#[test]
fn exit_then_parent_waits() {
    let mut k = kernel();
    let c = sys_fork(&mut k);
    sys_yield(&mut k);
    assert_eq!(sys_getpid(&k), c);
    assert_eq!(sys_exit(&mut k, 7), false);
    assert_eq!(sys_getpid(&k), 0);
    assert_eq!(sys_waitpid(&mut k, c), (c, Some(7)));
}
