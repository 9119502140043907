//! Process management syscalls.
use vstd::prelude::*;
use crate::filesystem::{
    RDONLY, copy_bytes, flags_create, flags_trunc, lemma_lookup_in_range, lemma_open_handle,
};
use crate::kernel::{
    DEFAULT_PRIORITY, FileDesc, Kernel, KernelView, ProcView, Process, TrapContext, copy_fds,
    lemma_mem_wf_set, lemma_procs_view_set, lemma_with_cur_wf, procs_mem_wf, procs_view,
    standard_fds, zero_regs,
};
use crate::mm::{
    AddressSpace, MapPermission, PAGE_SIZE, all_mapped_in, any_mapped_in, ceil_page, floor_page,
    mmap_permission, page_aligned, page_count, page_count_spec, permission_from_prot, range_map,
    range_set, reserved_pages, virt_addr, virt_addr_spec, vpn_ceil, vpn_floor,
};
use crate::task::TaskStatus;

verus! {

/// First and end page of the range mmap and munmap cover.
pub open spec fn map_range(start: usize, len: usize) -> (int, int) {
    let va = virt_addr_spec(start);
    let end = virt_addr_spec((start + page_count_spec(len) * PAGE_SIZE) as usize);
    (vpn_floor(va), vpn_ceil(end))
}

/// `prot` is one of 1 to 7.
pub open spec fn prot_valid(prot: usize) -> bool {
    prot % 8 != 0 && prot < 8
}

/// What mmap does: -1 for an unaligned start, for a `prot` outside 1 to 7, or
/// when a page of the range is already mapped; otherwise it maps every page of
/// the range with the rights of `prot` and returns 0.
pub open spec fn mmap_spec(s: KernelView, start: usize, len: usize, prot: usize) -> (KernelView, int) {
    if !page_aligned(virt_addr_spec(start)) || !prot_valid(prot) {
        (s, -1)
    } else {
        let (a, b) = map_range(start, len);
        if any_mapped_in(s.cur().pages, a, b) {
            (s, -1)
        } else {
            (
                s.with_cur(
                    ProcView {
                        pages: s.cur().pages.union_prefer_right(range_map(a, b, mmap_permission(prot))),
                        ..s.cur()
                    },
                ),
                0,
            )
        }
    }
}

/// The end address mmap and munmap compute does not overflow.
pub open spec fn map_end_fits(start: usize, len: usize) -> bool {
    start + page_count_spec(len) * PAGE_SIZE <= usize::MAX
}

/// The range mmap computes neither overflows nor runs backwards.
pub open spec fn map_range_sound(start: usize, len: usize) -> bool {
    &&& map_end_fits(start, len)
    &&& map_range(start, len).0 <= map_range(start, len).1
}

/// Whether the end address mmap and munmap compute for `start` and `len`
/// does not overflow.
pub fn map_end_check(start: usize, len: usize) -> (r: bool)
    ensures
        r == map_end_fits(start, len),
{
    let real_len = page_count(len);
    match real_len.checked_mul(PAGE_SIZE) {
        Some(b) => start.checked_add(b).is_some(),
        None => false,
    }
}

/// Whether the range mmap computes for `start` and `len` neither overflows
/// nor runs backwards.
pub fn map_range_check(start: usize, len: usize) -> (r: bool)
    ensures
        r == map_range_sound(start, len),
{
    let real_len = page_count(len);
    let bytes = match real_len.checked_mul(PAGE_SIZE) {
        Some(b) => b,
        None => return false,
    };
    let end = match start.checked_add(bytes) {
        Some(e) => e,
        None => return false,
    };
    floor_page(virt_addr(start)) <= ceil_page(virt_addr(end))
}

/// What munmap does: -1 for an unaligned start or when a page of the range is
/// not mapped; otherwise it unmaps every page of the range and returns 0.
pub open spec fn munmap_spec(s: KernelView, start: usize, len: usize) -> (KernelView, int) {
    if !page_aligned(virt_addr_spec(start)) {
        (s, -1)
    } else {
        let (a, b) = map_range(start, len);
        if all_mapped_in(s.cur().pages, a, b) {
            (s.with_cur(ProcView { pages: s.cur().pages.remove_keys(range_set(a, b)), ..s.cur() }), 0)
        } else {
            (s, -1)
        }
    }
}

/// Maps `len` bytes (rounded to pages; under one page maps nothing) from
/// `start` with the rights `prot`.
pub fn sys_mmap(k: &mut Kernel, start: usize, len: usize, prot: usize) -> (r: isize)
    requires
        old(k).wf(),
        old(k)@.current is Some,
        page_aligned(virt_addr_spec(start)) && prot_valid(prot) ==> map_range_sound(start, len),
    ensures
        final(k).wf(),
        (final(k)@, r as int) == mmap_spec(old(k)@, start, len, prot),
{
    let strp = virt_addr(start);
    if strp % PAGE_SIZE != 0 {
        return -1;
    }
    proof {
        assert(prot & 0x7 == 0 <==> prot % 8 == 0) by (bit_vector);
        assert((prot >> 3) != 0 <==> prot >= 8) by (bit_vector);
    }
    if prot & 0x7 == 0 || (prot >> 3) != 0 {
        return -1;
    }
    let real_len = page_count(len);
    let endp = virt_addr(start + real_len * PAGE_SIZE);
    let flags = permission_from_prot(prot);
    let c = k.current.unwrap();
    let vstr = floor_page(strp);
    let endv = ceil_page(endp);
    proof {
        assert(k@.valid_pid(c as int));
        assert(k.procs@[c as int] is Some);
    }
    if k.procs[c].as_ref().unwrap().memory.any_mapped(vstr, endv) {
        return -1;
    }
    let ghost s = k@;
    let mut p = k.take_current();
    p.memory.insert_area(vstr, endv, flags);
    let ghost pv = p@;
    k.store_current(p);
    proof {
        assert(k@.procs =~= s.procs.update(c as int, Some(pv)));
        assert(k@ =~= s.with_cur(pv));
        lemma_with_cur_wf(s, pv);
    }
    0
}

/// Unmaps `len` bytes (rounded to pages; under one page unmaps nothing) from `start`.
pub fn sys_munmap(k: &mut Kernel, start: usize, len: usize) -> (r: isize)
    requires
        old(k).wf(),
        old(k)@.current is Some,
        page_aligned(virt_addr_spec(start)) ==> map_end_fits(start, len),
    ensures
        final(k).wf(),
        (final(k)@, r as int) == munmap_spec(old(k)@, start, len),
{
    let strp = virt_addr(start);
    if strp % PAGE_SIZE != 0 {
        return -1;
    }
    let real_len = page_count(len);
    let endp = virt_addr(start + real_len * PAGE_SIZE);
    let c = k.current.unwrap();
    let vstr = floor_page(strp);
    let endv = floor_page(endp);
    proof {
        assert(k@.valid_pid(c as int));
        assert(k.procs@[c as int] is Some);
        assert(start % PAGE_SIZE == 0);
        assert((start + real_len * PAGE_SIZE) % (PAGE_SIZE as int) == 0);
        assert(endp % PAGE_SIZE == 0);
        assert(vpn_floor(endp) == vpn_ceil(endp));
    }
    let ghost s = k@;
    let mut p = k.take_current();
    let res = p.memory.unmap(vstr, endv);
    let ghost pv = p@;
    k.store_current(p);
    proof {
        assert(k@.procs =~= s.procs.update(c as int, Some(pv)));
        assert(k@ =~= s.with_cur(pv));
        lemma_with_cur_wf(s, pv);
        if res != 0 {
            assert(pv =~= s.cur());
            assert(k@.procs =~= s.procs);
            assert(k@ =~= s);
        }
    }
    if res == 0 {
        return 0;
    }
    -1
}

/// Seconds and microseconds.
#[derive(Debug)]
pub struct TimeVal {
    pub sec: usize,
    pub usec: usize,
}

/// A time in microseconds as whole seconds and the microseconds left over.
pub open spec fn time_val_of(time: usize) -> TimeVal {
    TimeVal { sec: time / 1_000_000, usec: time % 1_000_000 }
}

/// Byte `i` (0 the least significant) of `v` as a 64-bit word.
pub open spec fn le_byte(v: usize, i: int) -> u8 {
    ((v as u64) >> ((8 * i) as u64)) as u8
}

/// The 16 bytes get_time stores: `sec` then `usec`, each a little-endian
/// 64-bit word, which is the memory layout of a `TimeVal`.
pub open spec fn time_val_bytes(tv: TimeVal) -> Seq<u8> {
    Seq::new(16, |i: int| if i < 8 { le_byte(tv.sec, i) } else { le_byte(tv.usec, i - 8) })
}

/// The time `time` (microseconds) as a `TimeVal`.
pub fn time_val(time: usize) -> (r: TimeVal)
    ensures
        r == time_val_of(time),
{
    TimeVal { sec: time / 1_000_000, usec: time % 1_000_000 }
}

/// The bytes get_time stores for the time `time` (microseconds), and 0.
pub fn sys_get_time(time: usize) -> (r: (isize, Vec<u8>))
    ensures
        r.0 == 0,
        r.1@ == time_val_bytes(time_val_of(time)),
{
    let t1 = time / 1_000_000;
    let t2 = time % 1_000_000;
    let mut v: Vec<u8> = Vec::new();
    let mut i: u64 = 0;
    while i < 8
        invariant
            i <= 8,
            t1 == time_val_of(time).sec,
            v@.len() == i,
            forall|j: int| 0 <= j < i ==> v@[j] == le_byte(t1, j),
        decreases 8 - i,
    {
        v.push(((t1 as u64) >> (i * 8)) as u8);
        i = i + 1;
    }
    let mut i: u64 = 0;
    while i < 8
        invariant
            i <= 8,
            t1 == time_val_of(time).sec,
            t2 == time_val_of(time).usec,
            v@.len() == 8 + i,
            forall|j: int| 0 <= j < 8 ==> v@[j] == le_byte(t1, j),
            forall|j: int| 8 <= j < 8 + i ==> v@[j] == le_byte(t2, j - 8),
        decreases 8 - i,
    {
        v.push(((t2 as u64) >> (i * 8)) as u8);
        i = i + 1;
    }
    assert(v@ =~= time_val_bytes(time_val_of(time)));
    (0, v)
}

/// What yield does: the current process goes to the back of the ready queue
/// and the first ready process runs; it returns 0.
pub open spec fn yield_spec(s: KernelView) -> (KernelView, int) {
    (s.suspended().run_next(), 0)
}

/// Gives up the processor to the next ready process.
pub fn sys_yield(k: &mut Kernel) -> (r: isize)
    requires
        old(k).wf(),
        old(k)@.current is Some,
    ensures
        final(k).wf(),
        (final(k)@, r as int) == yield_spec(old(k)@),
{
    k.suspend_current_and_run_next();
    0
}

/// The pid of the current process.
pub fn sys_getpid(k: &Kernel) -> (r: isize)
    requires
        k.wf(),
        k@.current is Some,
    ensures
        r == k@.cur_pid(),
{
    let c = k.current.unwrap();
    proof {
        assert(k@.valid_pid(c as int));
    }
    c as isize
}

/// What set_priority does: -1 for a priority under 2; otherwise the current
/// process takes `prio` as its priority, which is returned.
pub open spec fn set_priority_spec(s: KernelView, prio: isize) -> (KernelView, int) {
    if prio < 2 {
        (s, -1)
    } else {
        (s.with_cur(ProcView { priority: prio, ..s.cur() }), prio as int)
    }
}

/// Sets the current process's priority.
pub fn sys_set_priority(k: &mut Kernel, prio: isize) -> (r: isize)
    requires
        old(k).wf(),
        old(k)@.current is Some,
    ensures
        final(k).wf(),
        (final(k)@, r as int) == set_priority_spec(old(k)@, prio),
{
    if prio < 2 {
        return -1;
    }
    let ghost s = k@;
    let c = k.current.unwrap();
    proof {
        assert(s.valid_pid(c as int));
        assert(k.procs@[c as int] is Some);
        assert(s.proc_wf(c as int));
    }
    let mut p = k.take_current();
    p.priority = prio;
    let ghost pv = p@;
    k.store_current(p);
    proof {
        assert(k@.procs =~= s.procs.update(c as int, Some(pv)));
        assert(k@ =~= s.with_cur(pv));
        lemma_with_cur_wf(s, pv);
    }
    prio
}

/// Rights of heap pages: read, write, user.
pub open spec fn heap_permission() -> MapPermission {
    MapPermission { r: true, w: true, x: false, u: true }
}

/// What sbrk does: -1 when the break would fall below the heap's bottom;
/// otherwise the break moves by `size` bytes, the pages up to the new break
/// are mapped read-write (or those past it unmapped, when it shrinks), and the
/// old break is returned.
pub open spec fn sbrk_spec(s: KernelView, size: i32) -> (KernelView, int) {
    let p = s.cur();
    let new_brk = p.program_brk + size;
    if new_brk < p.heap_bottom {
        (s, -1)
    } else {
        let pages = if size < 0 {
            p.pages.remove_keys(range_set(vpn_ceil(new_brk as usize), vpn_ceil(p.program_brk)))
        } else {
            p.pages.union_prefer_right(
                range_map(vpn_ceil(p.program_brk), vpn_ceil(new_brk as usize), heap_permission()),
            )
        };
        (s.with_cur(ProcView { pages, program_brk: new_brk as usize, ..p }), p.program_brk as int)
    }
}

/// Moving the break by `size` keeps it a valid address and the page maps
/// agree: the pages it frees are mapped, the pages it adds are not.
pub open spec fn sbrk_sound(s: KernelView, size: i32) -> bool {
    let p = s.cur();
    let new_brk = p.program_brk + size;
    &&& p.program_brk <= isize::MAX
    &&& new_brk <= isize::MAX
    &&& new_brk >= p.heap_bottom && size < 0 ==> all_mapped_in(
        p.pages,
        vpn_ceil(new_brk as usize),
        vpn_ceil(p.program_brk),
    )
    &&& new_brk >= p.heap_bottom && size >= 0 ==> !any_mapped_in(
        p.pages,
        vpn_ceil(p.program_brk),
        vpn_ceil(new_brk as usize),
    )
}

/// Whether moving the break by `size` is sound as `sbrk_sound` says.
pub fn sbrk_check(k: &Kernel, size: i32) -> (r: bool)
    requires
        k.wf(),
        k@.current is Some,
    ensures
        r == sbrk_sound(k@, size),
{
    let c = k.current.unwrap();
    proof {
        assert(k@.valid_pid(c as int));
        assert(k.procs@[c as int] is Some);
        assert(k@.proc_wf(c as int));
    }
    let p = k.procs[c].as_ref().unwrap();
    if p.program_brk > isize::MAX as usize {
        return false;
    }
    let brk = p.program_brk as isize;
    let new_brk = match brk.checked_add(size as isize) {
        Some(n) => n,
        None => return false,
    };
    if new_brk < p.heap_bottom as isize {
        return true;
    }
    let old_end = ceil_page(p.program_brk);
    let new_end = ceil_page(new_brk as usize);
    if size < 0 {
        p.memory.all_mapped(new_end, old_end)
    } else {
        !p.memory.any_mapped(old_end, new_end)
    }
}

/// Moves the current process's program break by `size` bytes.
pub fn sys_sbrk(k: &mut Kernel, size: i32) -> (r: isize)
    requires
        old(k).wf(),
        old(k)@.current is Some,
        sbrk_sound(old(k)@, size),
    ensures
        final(k).wf(),
        (final(k)@, r as int) == sbrk_spec(old(k)@, size),
{
    let ghost s = k@;
    let c = k.current.unwrap();
    proof {
        assert(s.valid_pid(c as int));
        assert(k.procs@[c as int] is Some);
        assert(s.proc_wf(c as int));
    }
    let old_brk = k.procs[c].as_ref().unwrap().program_brk;
    let heap_bottom = k.procs[c].as_ref().unwrap().heap_bottom;
    let new_brk: isize = old_brk as isize + size as isize;
    if new_brk < heap_bottom as isize {
        return -1;
    }
    let old_end = ceil_page(old_brk);
    let new_end = ceil_page(new_brk as usize);
    let mut p = k.take_current();
    if size < 0 {
        p.memory.remove_area(new_end, old_end);
    } else {
        p.memory.insert_area(old_end, new_end, MapPermission { r: true, w: true, x: false, u: true });
    }
    p.program_brk = new_brk as usize;
    let ghost pv = p@;
    k.store_current(p);
    proof {
        assert(k@.procs =~= s.procs.update(c as int, Some(pv)));
        assert(k@ =~= s.with_cur(pv));
        lemma_with_cur_wf(s, pv);
    }
    old_brk as isize
}

/// The child fork makes: a copy of the current process (descriptors, pages,
/// heap, image, registers) with a0 set to 0, no children, ready, exit code 0
/// and the default priority.
pub open spec fn fork_child(s: KernelView) -> ProcView {
    let p = s.cur();
    ProcView {
        parent: Some(s.current.unwrap()),
        children: Seq::empty(),
        status: TaskStatus::Ready,
        exit_code: 0,
        priority: DEFAULT_PRIORITY,
        regs: p.regs.update(10, 0),
        ..p
    }
}

/// What fork does: the child is added as `with_child` says and its pid is returned.
pub open spec fn fork_spec(s: KernelView) -> (KernelView, int) {
    (s.with_child(fork_child(s)), s.alloc_pid())
}

/// Makes a copy of the current process as its new child.
pub fn sys_fork(k: &mut Kernel) -> (r: isize)
    requires
        old(k).wf(),
        old(k)@.current is Some,
        old(k)@.recycled.len() > 0 || old(k)@.procs.len() < isize::MAX,
    ensures
        final(k).wf(),
        (final(k)@, r as int) == fork_spec(old(k)@),
{
    let ghost s = k@;
    let c = k.current.unwrap();
    proof {
        assert(s.valid_pid(c as int));
        assert(k.procs@[c as int] is Some);
        assert(s.proc_wf(c as int));
    }
    let parent = k.procs[c].as_ref().unwrap();
    let mut trap_cx = parent.trap_cx;
    trap_cx.x[10] = 0;
    let child = Process {
        parent: Some(c),
        children: Vec::new(),
        status: TaskStatus::Ready,
        exit_code: 0,
        fd_table: copy_fds(&parent.fd_table),
        memory: parent.memory.copy(),
        heap_bottom: parent.heap_bottom,
        program_brk: parent.program_brk,
        priority: DEFAULT_PRIORITY,
        image: copy_bytes(&parent.image),
        trap_cx,
    };
    proof {
        assert(child@ =~= fork_child(s));
    }
    let pid = k.add_child(child);
    proof {
        if s.recycled.len() > 0 {
            assert(s.recycled[s.recycled.len() - 1] == s.recycled.last());
        }
    }
    pid as isize
}

/// The process spawn makes from an image: standard descriptors, only the
/// reserved pages, no heap, zeroed registers, no children, ready, exit code 0, default priority.
pub open spec fn spawn_child(s: KernelView, image: Seq<u8>) -> ProcView {
    ProcView {
        parent: Some(s.current.unwrap()),
        children: Seq::empty(),
        status: TaskStatus::Ready,
        exit_code: 0,
        fds: standard_fds(),
        pages: reserved_pages(),
        heap_bottom: 0,
        program_brk: 0,
        priority: DEFAULT_PRIORITY,
        image,
        regs: zero_regs(),
    }
}

/// What spawn does: -1 when `path` names no file; otherwise a new child runs
/// the file's contents, added as `with_child` says, and its pid is returned.
pub open spec fn spawn_spec(s: KernelView, path: Seq<u8>) -> (KernelView, int) {
    match s.fs.lookup(path) {
        None => (s, -1),
        Some(ino) => (s.with_child(spawn_child(s, s.fs.data[ino as int])), s.alloc_pid()),
    }
}

/// A fresh process running `image`, child of `parent`.
fn new_process(parent: usize, image: Vec<u8>) -> (r: Process)
    ensures
        r.memory.wf(),
        r@ == (ProcView {
            parent: Some(parent),
            children: Seq::empty(),
            status: TaskStatus::Ready,
            exit_code: 0,
            fds: standard_fds(),
            pages: reserved_pages(),
            heap_bottom: 0,
            program_brk: 0,
            priority: DEFAULT_PRIORITY,
            image: image@,
            regs: zero_regs(),
        }),
{
    let mut fd_table: Vec<Option<FileDesc>> = Vec::new();
    fd_table.push(Some(FileDesc::Stdin));
    fd_table.push(Some(FileDesc::Stdout));
    fd_table.push(Some(FileDesc::Stdout));
    let mut trap_cx = TrapContext::zeroed();
    trap_cx.x[10] = 0;
    let r = Process {
        parent: Some(parent),
        children: Vec::new(),
        status: TaskStatus::Ready,
        exit_code: 0,
        fd_table,
        memory: AddressSpace::new_user(),
        heap_bottom: 0,
        program_brk: 0,
        priority: DEFAULT_PRIORITY,
        image,
        trap_cx,
    };
    assert(r@.fds =~= standard_fds());
    assert(r@.regs =~= zero_regs());
    r
}

/// Starts the program in file `path` as a new child process.
pub fn sys_spawn(k: &mut Kernel, path: &Vec<u8>) -> (r: isize)
    requires
        old(k).wf(),
        old(k)@.current is Some,
        old(k)@.recycled.len() > 0 || old(k)@.procs.len() < isize::MAX,
    ensures
        final(k).wf(),
        (final(k)@, r as int) == spawn_spec(old(k)@, path@),
{
    let ghost s = k@;
    proof {
        assert(!flags_create(RDONLY) && !flags_trunc(RDONLY)) by (bit_vector);
        lemma_open_handle(s.fs, path@, RDONLY);
        lemma_lookup_in_range(s.fs, path@);
    }
    match k.fs.open_file(path, RDONLY) {
        None => -1,
        Some(app_inode) => {
            let all_data = copy_bytes(&k.fs.inodes[app_inode.ino].data);
            let c = k.current.unwrap();
            let child = new_process(c, all_data);
            proof {
                assert(child@ =~= spawn_child(s, s.fs.data[app_inode.ino as int]));
                assert forall|fd: int| 0 <= fd < child@.fds.len() implies (#[trigger] child@.fds[fd] matches Some(
                    FileDesc::File(j),
                ) ==> j < s.files.len()) by {}
            }
            let pid = k.add_child(child);
            proof {
                if s.recycled.len() > 0 {
                    assert(s.recycled[s.recycled.len() - 1] == s.recycled.last());
                }
            }
            pid as isize
        },
    }
}

/// What exec does: -1 when `path` names no file; otherwise the current process
/// runs the file's contents, with only the reserved pages, no heap and zeroed registers,
/// keeping its descriptors and family, and 0 is returned.
pub open spec fn exec_spec(s: KernelView, path: Seq<u8>) -> (KernelView, int) {
    match s.fs.lookup(path) {
        None => (s, -1),
        Some(ino) => (
            s.with_cur(
                ProcView {
                    image: s.fs.data[ino as int],
                    pages: reserved_pages(),
                    heap_bottom: 0,
                    program_brk: 0,
                    regs: zero_regs(),
                    ..s.cur()
                },
            ),
            0,
        ),
    }
}

/// Replaces the current program by the one in file `path`.
pub fn sys_exec(k: &mut Kernel, path: &Vec<u8>) -> (r: isize)
    requires
        old(k).wf(),
        old(k)@.current is Some,
    ensures
        final(k).wf(),
        (final(k)@, r as int) == exec_spec(old(k)@, path@),
{
    let ghost s = k@;
    proof {
        assert(!flags_create(RDONLY) && !flags_trunc(RDONLY)) by (bit_vector);
        lemma_open_handle(s.fs, path@, RDONLY);
        lemma_lookup_in_range(s.fs, path@);
    }
    match k.fs.open_file(path, RDONLY) {
        None => -1,
        Some(app_inode) => {
            let all_data = copy_bytes(&k.fs.inodes[app_inode.ino].data);
            let c = k.current.unwrap();
            proof {
                assert(s.valid_pid(c as int));
                assert(k.procs@[c as int] is Some);
                assert(s.proc_wf(c as int));
            }
            let mut p = k.take_current();
            p.image = all_data;
            p.memory = AddressSpace::new_user();
            p.heap_bottom = 0;
            p.program_brk = 0;
            p.trap_cx = TrapContext::zeroed();
            let ghost pv = p@;
            k.store_current(p);
            proof {
                assert(k@.procs =~= s.procs.update(c as int, Some(pv)));
                assert(k@ =~= s.with_cur(pv));
                assert(pv.regs =~= zero_regs());
                lemma_with_cur_wf(s, pv);
            }
            0
        },
    }
}

/// `pid` selects child `ch`: -1 selects every child.
pub open spec fn pid_matches(pid: isize, ch: usize) -> bool {
    pid == -1 || pid as usize == ch
}

/// Child `i` of the current process is the first that `pid` selects and that has exited.
pub open spec fn is_first_zombie(s: KernelView, pid: isize, i: int) -> bool {
    let ch = s.cur().children;
    &&& 0 <= i < ch.len()
    &&& pid_matches(pid, ch[i])
    &&& s.proc_at(ch[i] as int).status == TaskStatus::Exited
    &&& forall|j: int|
        0 <= j < i ==> !(pid_matches(pid, #[trigger] ch[j]) && s.proc_at(ch[j] as int).status
            == TaskStatus::Exited)
}

/// What waitpid does: -1 when `pid` selects no child of the current process;
/// -2 when the children it selects are all still alive; otherwise the first
/// exited child it selects is removed from the children and freed (its pid
/// recycled), and its pid and exit code are returned.
pub open spec fn waitpid_spec(s: KernelView, pid: isize) -> (KernelView, int, Option<i32>) {
    let p = s.cur();
    if !exists|i: int| 0 <= i < p.children.len() && pid_matches(pid, #[trigger] p.children[i]) {
        (s, -1, None)
    } else if exists|i: int| is_first_zombie(s, pid, i) {
        let i = choose|i: int| is_first_zombie(s, pid, i);
        let ch = p.children[i];
        (
            KernelView {
                procs: s.procs.update(s.cur_pid(), Some(ProcView { children: p.children.remove(i), ..p })).update(
                    ch as int,
                    None,
                ),
                recycled: s.recycled.push(ch),
                ..s
            },
            ch as int,
            Some(s.proc_at(ch as int).exit_code),
        )
    } else {
        (s, -2, None)
    }
}

/// Freeing an exited child of the current process keeps the kernel well formed.
pub proof fn lemma_reap_wf(s: KernelView, pid: isize, i: int)
    requires
        s.wf(),
        s.current is Some,
        is_first_zombie(s, pid, i),
    ensures
        (choose|j: int| is_first_zombie(s, pid, j)) == i,
        waitpid_spec(s, pid).0.wf(),
{
    let p = s.cur();
    let c = s.cur_pid();
    assert(0 <= i < p.children.len() && pid_matches(pid, p.children[i]));
    let j = choose|j: int| is_first_zombie(s, pid, j);
    assert(j == i) by {
        if j < i {
            assert(!(pid_matches(pid, p.children[j]) && s.proc_at(p.children[j] as int).status
                == TaskStatus::Exited));
        } else if i < j {
            assert(!(pid_matches(pid, p.children[i]) && s.proc_at(p.children[i] as int).status
                == TaskStatus::Exited));
        }
    }
    let ch = p.children[i] as int;
    let t = waitpid_spec(s, pid).0;
    assert(s.valid_pid(c));
    assert(s.proc_wf(c));
    assert(s.valid_pid(ch));
    assert(ch != c);
    assert(ch != 0);
    // the child is nobody's child but the current process's, and only once
    assert forall|q: int| #[trigger] t.valid_pid(q) implies t.proc_wf(q) by {
        assert(s.valid_pid(q));
        assert(s.proc_wf(q));
        let w = t.proc_at(q);
        if q == c {
            assert(w.children =~= p.children.remove(i));
            assert forall|m: int| 0 <= m < w.children.len() implies {
                &&& t.valid_pid(#[trigger] w.children[m] as int)
                &&& w.children[m] != q
                &&& t.proc_at(w.children[m] as int).parent == Some(q as usize)
            } by {
                let om = if m < i { m } else { m + 1 };
                assert(w.children[m] == p.children[om]);
                assert(s.valid_pid(p.children[om] as int));
                assert(p.children[om] != p.children[i]);
            }
            assert(w.children.no_duplicates()) by {
                assert forall|a: int, b: int| 0 <= a < b < w.children.len() implies w.children[a]
                    != w.children[b] by {
                    let oa = if a < i { a } else { a + 1 };
                    let ob = if b < i { b } else { b + 1 };
                    assert(w.children[a] == p.children[oa]);
                    assert(w.children[b] == p.children[ob]);
                }
            }
        } else {
            assert(w == s.proc_at(q));
            assert forall|m: int| 0 <= m < w.children.len() implies {
                &&& t.valid_pid(#[trigger] w.children[m] as int)
                &&& w.children[m] != q
                &&& t.proc_at(w.children[m] as int).parent == Some(q as usize)
            } by {
                assert(s.valid_pid(w.children[m] as int));
                if w.children[m] as int == ch {
                    assert(s.proc_at(ch).parent == Some(c as usize));
                }
            }
        }
        if let Some(x) = w.parent {
            assert(s.proc_at(q).parent == Some(x));
            assert(s.valid_pid(x as int));
            let sx = s.proc_at(x as int).children;
            let j = choose|j: int| 0 <= j < sx.len() && sx[j] == q as usize;
            assert(x as int != ch) by {
                if x as int == ch {
                    assert(s.proc_at(ch).children.len() == 0);
                }
            }
            if x as int == c {
                assert(q != ch);
                assert(j != i);
                let rest = p.children.remove(i);
                if j < i {
                    assert(rest[j] == q as usize);
                } else {
                    assert(rest[j - 1] == q as usize);
                }
                assert(t.proc_at(c).children == rest);
            } else {
                assert(t.proc_at(x as int).children[j] == q as usize);
            }
        }
    }
    assert forall|m: int| 0 <= m < t.ready.len() implies t.valid_pid(#[trigger] t.ready[m] as int)
        && t.proc_at(t.ready[m] as int).status == TaskStatus::Ready by {
        assert(s.valid_pid(s.ready[m] as int));
    }
    assert forall|m: int| 0 <= m < t.recycled.len() implies #[trigger] t.recycled[m] < t.procs.len()
        && t.procs[t.recycled[m] as int] is None by {
        if m < s.recycled.len() {
            assert(t.recycled[m] == s.recycled[m]);
        }
    }
    assert(t.recycled.no_duplicates()) by {
        assert forall|a: int, b: int| 0 <= a < b < t.recycled.len() implies t.recycled[a]
            != t.recycled[b] by {
            if b == s.recycled.len() {
                assert(s.procs[s.recycled[a] as int] is None);
            }
        }
    }
}

/// Collects an exited child selected by `pid` (-1 for any): its pid and exit code.
pub fn sys_waitpid(k: &mut Kernel, pid: isize) -> (r: (isize, Option<i32>))
    requires
        old(k).wf(),
        old(k)@.current is Some,
    ensures
        final(k).wf(),
        (final(k)@, r.0 as int, r.1) == waitpid_spec(old(k)@, pid),
{
    let ghost s = k@;
    let c = k.current.unwrap();
    proof {
        assert(s.valid_pid(c as int));
        assert(k.procs@[c as int] is Some);
        assert(s.proc_wf(c as int));
    }
    let n = k.procs[c].as_ref().unwrap().children.len();
    let mut any = false;
    let mut i: usize = 0;
    while i < n
        invariant
            k@ == s,
            old(k)@ == s,
            k.wf(),
            s.current is Some,
            s.valid_pid(c as int),
            c as int == s.cur_pid(),
            n == s.cur().children.len(),
            k.procs@[c as int] is Some,
            i <= n,
            any ==> exists|j: int| 0 <= j < n && pid_matches(pid, #[trigger] s.cur().children[j]),
            !any ==> forall|j: int| 0 <= j < i ==> !pid_matches(pid, #[trigger] s.cur().children[j]),
        decreases n - i,
    {
        let ch = k.procs[c].as_ref().unwrap().children[i];
        if pid == -1 || pid as usize == ch {
            any = true;
            assert(pid_matches(pid, s.cur().children[i as int]));
        }
        i = i + 1;
    }
    if !any {
        return (-1, None);
    }
    let mut i: usize = 0;
    while i < n
        invariant
            k@ == s,
            old(k)@ == s,
            k.wf(),
            s.current is Some,
            s.wf(),
            s.valid_pid(c as int),
            s.proc_wf(c as int),
            c as int == s.cur_pid(),
            n == s.cur().children.len(),
            k.procs@[c as int] is Some,
            i <= n,
            exists|j: int| 0 <= j < n && pid_matches(pid, #[trigger] s.cur().children[j]),
            forall|j: int|
                0 <= j < i ==> !(pid_matches(pid, #[trigger] s.cur().children[j]) && s.proc_at(
                    s.cur().children[j] as int,
                ).status == TaskStatus::Exited),
        decreases n - i,
    {
        let ch = k.procs[c].as_ref().unwrap().children[i];
        proof {
            assert(s.valid_pid(ch as int));
            assert(k.procs@[ch as int] is Some);
        }
        let exited = match k.procs[ch].as_ref().unwrap().status {
            TaskStatus::Exited => true,
            _ => false,
        };
        if exited && (pid == -1 || pid as usize == ch) {
            proof {
                assert(is_first_zombie(s, pid, i as int));
                lemma_reap_wf(s, pid, i as int);
            }
            let mut p = k.take_current();
            p.children.remove(i);
            let ghost pv = p@;
            k.store_current(p);
            let ghost procs1 = k.procs@;
            let child = k.procs[ch].take().unwrap();
            k.recycled.push(ch);
            proof {
                lemma_procs_view_set(procs1, ch as int, None);
                let t = waitpid_spec(s, pid).0;
                assert(ch < s.procs.len());
                assert(k@.procs =~= t.procs);
                assert(k@ =~= t);
                lemma_mem_wf_set(procs1, ch as int, None);
            }
            return (ch as isize, Some(child.exit_code));
        }
        i = i + 1;
    }
    proof {
        assert forall|j: int| !is_first_zombie(s, pid, j) by {
            if is_first_zombie(s, pid, j) {
                assert(!(pid_matches(pid, s.cur().children[j]) && s.proc_at(s.cur().children[j] as int).status
                    == TaskStatus::Exited));
            }
        }
    }
    (-2, None)
}

/// The processes after the current one exits with `code`: it is marked exited
/// with that code, loses its pages and children, and its children become the
/// last children of process 0.
pub open spec fn exited_procs(s: KernelView, code: i32) -> Seq<Option<ProcView>> {
    let c = s.cur_pid();
    let p = s.cur();
    let init = s.proc_at(0);
    Seq::new(
        s.procs.len(),
        |i: int|
            if i == c {
                Some(
                    ProcView {
                        status: TaskStatus::Exited,
                        exit_code: code,
                        children: Seq::empty(),
                        pages: Map::empty(),
                        ..p
                    },
                )
            } else if i == 0 {
                Some(ProcView { children: init.children + p.children, ..init })
            } else if p.children.contains(i as usize) {
                Some(ProcView { parent: Some(0usize), ..s.proc_at(i) })
            } else {
                s.procs[i]
            },
    )
}

/// What exit does: when process 0 exits the machine shuts down (true) and
/// nothing changes; otherwise the current process exits as `exited_procs`
/// says and the first ready process runs (false).
pub open spec fn exit_spec(s: KernelView, code: i32) -> (KernelView, bool) {
    if s.cur_pid() == 0 {
        (s, true)
    } else {
        (KernelView { procs: exited_procs(s, code), current: None, ..s }.run_next(), false)
    }
}

pub proof fn lemma_exit_wf(s: KernelView, code: i32)
    requires
        s.wf(),
        s.current is Some,
        s.cur_pid() != 0,
    ensures
        (KernelView { procs: exited_procs(s, code), current: None, ..s }).wf(),
{
    let t = KernelView { procs: exited_procs(s, code), current: None, ..s };
    let c = s.cur_pid();
    let p = s.cur();
    let init = s.proc_at(0);
    assert(s.valid_pid(c));
    assert(s.proc_wf(c));
    assert(s.proc_wf(0));
    assert forall|q: int| 0 <= q < s.procs.len() implies (#[trigger] t.valid_pid(q)) == s.valid_pid(q) by {}
    // children of the exiting process are not 0 and are not children of 0
    assert forall|x: int| 0 <= x < p.children.len() implies #[trigger] p.children[x] != 0
        && !init.children.contains(p.children[x]) by {
        assert(s.valid_pid(p.children[x] as int));
        if init.children.contains(p.children[x]) {
            let y = choose|y: int| 0 <= y < init.children.len() && init.children[y] == p.children[x];
            assert(s.proc_at(init.children[y] as int).parent == Some(0usize));
        }
    }
    assert forall|q: int| #[trigger] t.valid_pid(q) implies t.proc_wf(q) by {
        assert(s.valid_pid(q));
        assert(s.proc_wf(q));
        let w = t.proc_at(q);
        let sq = s.proc_at(q);
        if q == c {
        } else if q == 0 {
            let all = init.children + p.children;
            assert(w.children == all);
            assert forall|m: int| 0 <= m < all.len() implies {
                &&& t.valid_pid(#[trigger] all[m] as int)
                &&& all[m] != q
                &&& t.proc_at(all[m] as int).parent == Some(q as usize)
            } by {
                if m < init.children.len() {
                    assert(all[m] == init.children[m]);
                    assert(s.valid_pid(init.children[m] as int));
                    if p.children.contains(all[m]) {
                        let y = choose|y: int| 0 <= y < p.children.len() && p.children[y] == all[m];
                        assert(!init.children.contains(p.children[y]));
                    }
                } else {
                    let y = m - init.children.len();
                    assert(all[m] == p.children[y]);
                    assert(s.valid_pid(p.children[y] as int));
                    assert(p.children.contains(all[m]));
                    assert(p.children[y] != 0);
                }
            }
            assert(all.no_duplicates()) by {
                assert forall|a: int, b: int| 0 <= a < b < all.len() implies all[a] != all[b] by {
                    if b >= init.children.len() && a < init.children.len() {
                        assert(!init.children.contains(p.children[b - init.children.len()]));
                    }
                }
            }
        } else {
            assert(w.children == sq.children);
            assert forall|m: int| 0 <= m < w.children.len() implies {
                &&& t.valid_pid(#[trigger] w.children[m] as int)
                &&& w.children[m] != q
                &&& t.proc_at(w.children[m] as int).parent == Some(q as usize)
            } by {
                let x = w.children[m] as int;
                assert(s.valid_pid(x));
                assert(s.proc_at(x).parent == Some(q as usize));
                if p.children.contains(x as usize) {
                    let y = choose|y: int| 0 <= y < p.children.len() && p.children[y] == x as usize;
                    assert(s.proc_at(p.children[y] as int).parent == Some(c as usize));
                }
                assert(x != 0);
            }
        }
        if let Some(x) = w.parent {
            if q != c && q != 0 && p.children.contains(q as usize) {
                let y = choose|y: int| 0 <= y < p.children.len() && p.children[y] == q as usize;
                assert(x == 0);
                assert(t.proc_at(0).children[init.children.len() + y] == q as usize);
            } else {
                assert(sq.parent == Some(x));
                assert(s.valid_pid(x as int));
                let sx = s.proc_at(x as int).children;
                let j = choose|j: int| 0 <= j < sx.len() && sx[j] == q as usize;
                assert(x as int != c) by {
                    if x as int == c {
                        assert(p.children[j] == q as usize);
                        assert(p.children.contains(q as usize));
                    }
                }
                if x == 0 {
                    assert(t.proc_at(0).children[j] == q as usize);
                } else {
                    assert(t.proc_at(x as int).children == sx);
                    assert(t.proc_at(x as int).children[j] == q as usize);
                }
            }
        }
    }
    assert forall|i: int| 0 <= i < t.ready.len() implies t.valid_pid(#[trigger] t.ready[i] as int)
        && t.proc_at(t.ready[i] as int).status == TaskStatus::Ready by {
        assert(s.valid_pid(s.ready[i] as int));
    }
}

/// Ends the current process with `exit_code`; true when the machine is to shut
/// down, which happens when process 0 exits.
pub fn sys_exit(k: &mut Kernel, exit_code: i32) -> (shutdown: bool)
    requires
        old(k).wf(),
        old(k)@.current is Some,
    ensures
        final(k).wf(),
        (final(k)@, shutdown) == exit_spec(old(k)@, exit_code),
{
    let ghost s = k@;
    let c = k.current.unwrap();
    if c == 0 {
        return true;
    }
    proof {
        assert(s.valid_pid(c as int));
        assert(k.procs@[c as int] is Some);
        assert(s.proc_wf(c as int));
        assert(s.valid_pid(0));
        assert(k.procs@[0] is Some);
    }
    let ghost target = exited_procs(s, exit_code);
    let mut p = k.take_current();
    p.status = TaskStatus::Exited;
    p.exit_code = exit_code;
    let mut children: Vec<usize> = Vec::new();
    std::mem::swap(&mut children, &mut p.children);
    p.memory.clear();
    k.store_current(p);
    proof {
        assert(children@ == s.cur().children);
    }
    let mut init = k.procs[0].take().unwrap();
    let ghost init0 = init@;
    let mut i: usize = 0;
    while i < children.len()
        invariant
            s.wf(),
            s.current == Some(c),
            c != 0,
            children@ == s.cur().children,
            init0 == s.proc_at(0),
            target == exited_procs(s, exit_code),
            k@.fs == s.fs,
            k@.files == s.files,
            k@.current == s.current,
            k@.ready == s.ready,
            k@.recycled == s.recycled,
            k@.console_in == s.console_in,
            k@.console_out == s.console_out,
            k.procs@.len() == s.procs.len(),
            i <= children@.len(),
            init@ == (ProcView { children: init0.children + children@.subrange(0, i as int), ..init0 }),
            init.memory.wf(),
            k.procs@[0] is None,
            forall|j: int|
                0 < j < s.procs.len() ==> #[trigger] procs_view(k.procs@)[j] == if j == c {
                    target[j]
                } else if children@.subrange(0, i as int).contains(j as usize) {
                    target[j]
                } else {
                    s.procs[j]
                },
            procs_mem_wf(k.procs@),
        decreases children@.len() - i,
    {
        let ch = children[i];
        proof {
            assert(s.proc_wf(c as int));
            assert(s.valid_pid(ch as int));
            assert(ch != c);
            assert(ch != 0) by {
                assert(s.proc_at(0).parent is None);
            }
            assert(!children@.subrange(0, i as int).contains(ch)) by {
                if children@.subrange(0, i as int).contains(ch) {
                    let y = choose|y: int| 0 <= y < i && #[trigger] children@.subrange(0, i as int)[y] == ch;
                    assert(children@[y] == children@[i as int]);
                }
            }
            assert(procs_view(k.procs@)[ch as int] == s.procs[ch as int]);
            assert(k.procs@[ch as int] is Some);
        }
        let ghost procs_before = k.procs@;
        let mut q = k.procs[ch].take().unwrap();
        q.parent = Some(0);
        let ghost qv = q@;
        k.procs.set(ch, Some(q));
        init.children.push(ch);
        i = i + 1;
        proof {
            lemma_procs_view_set(procs_before.update(ch as int, None), ch as int, Some(q));
            assert(children@.subrange(0, i as int) =~= children@.subrange(0, i as int - 1).push(ch));
            assert(init@.children =~= init0.children + children@.subrange(0, i as int));
            assert(s.cur().children.contains(ch)) by {
                assert(s.cur().children[i - 1] == ch);
            }
            assert(qv == target[ch as int].unwrap());
            assert forall|j: int|
                0 < j < s.procs.len() implies #[trigger] procs_view(k.procs@)[j] == if j == c {
                    target[j]
                } else if children@.subrange(0, i as int).contains(j as usize) {
                    target[j]
                } else {
                    s.procs[j]
                } by {
                if j != ch {
                    assert(procs_view(k.procs@)[j] == procs_view(procs_before)[j]);
                    if children@.subrange(0, i as int).contains(j as usize) {
                        let y = choose|y: int| 0 <= y < i && #[trigger] children@.subrange(0, i as int)[y] == j as usize;
                        assert(y < i - 1);
                        assert(children@.subrange(0, i as int - 1)[y] == j as usize);
                    }
                    if children@.subrange(0, i as int - 1).contains(j as usize) {
                        let y = choose|y: int| 0 <= y < i - 1 && #[trigger] children@.subrange(0, i as int - 1)[y] == j as usize;
                        assert(children@.subrange(0, i as int)[y] == j as usize);
                    }
                } else {
                    assert(children@.subrange(0, i as int)[i - 1] == ch);
                }
            }
            lemma_mem_wf_set(procs_before, ch as int, Some(q));
            assert(k.procs@ =~= procs_before.update(ch as int, Some(q)));
        }
    }
    let ghost procs2 = k.procs@;
    let ghost iv = init@;
    k.procs.set(0, Some(init));
    k.current = None;
    proof {
        lemma_procs_view_set(procs2, 0, Some(init));
        assert(children@.subrange(0, i as int) =~= children@);
        assert(iv == target[0].unwrap());
        assert forall|j: int| 0 <= j < s.procs.len() implies #[trigger] procs_view(k.procs@)[j] == target[j] by {
            if j != 0 && j != c {
                if s.cur().children.contains(j as usize) {
                } else {
                    assert(!children@.subrange(0, i as int).contains(j as usize));
                }
            }
        }
        assert(k@.procs =~= target);
        assert(k@ =~= KernelView { procs: exited_procs(s, exit_code), current: None, ..s });
        lemma_exit_wf(s, exit_code);
        lemma_mem_wf_set(procs2, 0, Some(init));
        assert(k.procs@ =~= procs2.update(0, Some(init)));
    }
    k.run_next();
    false
}

} // verus!
