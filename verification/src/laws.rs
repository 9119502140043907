//! Properties that relate several syscalls.
use vstd::prelude::*;
use crate::filesystem::{
    CREATE, FsView, MAX_FILE_SIZE, NAME_LENGTH_LIMIT, RDONLY, TRUNC, WRONLY, flags_create, flags_readable,
    flags_trunc, flags_writable, is_first_match, lemma_first_match_exists,
    lemma_first_match_unique, name_count, read_range, write_range,
};
use crate::kernel::{
    FileDesc, KernelView, alloc_fd_spec, install_fd, is_first_free, lemma_run_next_wf, standard_fds,
};
use crate::mm::{any_mapped_in, range_map, range_set, reserved_pages, vpn_ceil};
use crate::syscall::fs::{
    close_spec, cur_with_new_fd, desc_at, fstat_spec, linkat_spec, open_spec, read_spec,
    unlinkat_spec, write_fits, write_spec,
};
use crate::syscall::process::{
    exec_spec, exit_spec, fork_spec, heap_permission, map_range, map_range_sound, mmap_spec,
    munmap_spec, pid_matches, sbrk_sound, sbrk_spec, set_priority_spec, spawn_spec, time_val_of, waitpid_spec,
    yield_spec,
};
use crate::mm::{page_aligned, page_count_spec, virt_addr_spec, vpn_floor};
use crate::task::TaskStatus;

verus! {

/// The descriptor a new file gets is free or one past the end, and installing
/// there puts the file at it.
pub proof fn lemma_alloc_fd(fds: Seq<Option<FileDesc>>, d: FileDesc)
    ensures
        0 <= alloc_fd_spec(fds) <= fds.len(),
        alloc_fd_spec(fds) < fds.len() ==> fds[alloc_fd_spec(fds)] is None,
        forall|j: int| 0 <= j < alloc_fd_spec(fds) ==> #[trigger] fds[j] is Some,
        install_fd(fds, alloc_fd_spec(fds), d)[alloc_fd_spec(fds)] == Some(d),
        install_fd(fds, alloc_fd_spec(fds), d).len() == if alloc_fd_spec(fds) < fds.len() {
            fds.len()
        } else {
            fds.len() + 1
        },
        forall|j: int|
            0 <= j < fds.len() && j != alloc_fd_spec(fds) ==> #[trigger] install_fd(
                fds,
                alloc_fd_spec(fds),
                d,
            )[j] == fds[j],
{
    if exists|i: int| is_first_free(fds, i) {
        let i = choose|i: int| is_first_free(fds, i);
        assert(is_first_free(fds, i));
    } else {
        assert forall|j: int| 0 <= j < fds.len() implies #[trigger] fds[j] is Some by {
            if fds[j] is None {
                lemma_first_free_exists(fds, j);
            }
        }
    }
}

proof fn lemma_first_free_exists(fds: Seq<Option<FileDesc>>, k: int)
    requires
        0 <= k < fds.len(),
        fds[k] is None,
    ensures
        exists|i: int| is_first_free(fds, i),
    decreases k,
{
    if exists|j: int| 0 <= j < k && #[trigger] fds[j] is None {
        let j = choose|j: int| 0 <= j < k && #[trigger] fds[j] is None;
        lemma_first_free_exists(fds, j);
    } else {
        assert(is_first_free(fds, k));
    }
}

/// After creating `name`, looking it up finds the new inode.
pub proof fn lemma_lookup_created(fs: FsView, name: Seq<u8>)
    requires
        fs.lookup(name) is None,
    ensures
        fs.created(name).lookup(name) == Some(fs.data.len() as usize),
{
    let d = fs.created(name).dir;
    let last = fs.dir.len() as int;
    assert forall|j: int| 0 <= j < last implies #[trigger] d[j].0 != name by {
        assert(d[j] == fs.dir[j]);
        if fs.dir[j].0 == name {
            lemma_first_match_exists(fs.dir, name, j);
        }
    }
    assert(is_first_match(d, name, last));
    lemma_first_match_unique(d, name, last);
}

/// Reading back what a write put in a file: opening `name` with CREATE and
/// WRONLY, writing `data` through that descriptor, then opening `name`
/// read-only and reading as many bytes as were written gives back `data`.
pub proof fn law_read_gives_back_write(s: KernelView, name: Seq<u8>, data: Seq<u8>)
    requires
        s.wf(),
        s.current is Some,
        name.len() <= NAME_LENGTH_LIMIT,
        s.fs.data.len() + 1 < usize::MAX,
        s.cur().fds.len() + 2 < isize::MAX,
        s.files.len() + 2 < usize::MAX,
        0 < data.len() <= MAX_FILE_SIZE,
    ensures
        ({
            let (s1, fd1) = open_spec(s, name, CREATE | WRONLY);
            let (s2, n) = write_spec(s1, fd1 as usize, data);
            let (s3, fd2) = open_spec(s2, name, RDONLY);
            let (s4, m, bytes) = read_spec(s3, fd2 as usize, data.len());
            &&& fd1 >= 0
            &&& n == data.len()
            &&& fd2 >= 0
            &&& m == data.len()
            &&& bytes == data
        }),
{
    let flags = CREATE | WRONLY;
    assert(flags_create(flags) && !flags_readable(flags) && flags_writable(flags)) by (bit_vector)
        requires
            flags == 512u32 | 1u32,
    ;
    assert(!flags_create(RDONLY) && !flags_trunc(RDONLY) && flags_readable(RDONLY)) by (bit_vector);
    let (fs1, h) = s.fs.open(name, flags);
    let ino = h.unwrap().ino;
    assert(fs1.lookup(name) == Some(ino)) by {
        if s.fs.lookup(name) is None {
            lemma_lookup_created(s.fs, name);
        }
    }
    assert(fs1.data[ino as int] == Seq::<u8>::empty());
    let fds0 = s.cur().fds;
    lemma_alloc_fd(fds0, FileDesc::File(s.files.len() as usize));
    let (s1, fd1) = open_spec(s, name, flags);
    let k = s.files.len() as usize;
    assert(desc_at(s1, fd1 as usize) == Some(FileDesc::File(k)));
    assert(s1.fs == fs1);
    assert(s1.files[k as int] == h.unwrap());
    assert(h.unwrap().offset == 0 && h.unwrap().writable);
    crate::filesystem::lemma_open_handle(s.fs, name, flags);
    assert(ino < fs1.data.len());
    let (s2, n) = write_spec(s1, fd1 as usize, data);
    assert(s2.fs == fs1.written(ino, 0, data));
    assert(write_range(Seq::<u8>::empty(), 0, data) =~= data);
    assert(s2.fs.data[ino as int] =~= data);
    assert(s2.fs.dir == fs1.dir);
    assert(s2.fs.lookup(name) == Some(ino));
    let fds1 = s2.cur().fds;
    lemma_alloc_fd(fds1, FileDesc::File(s2.files.len() as usize));
    let (s3, fd2) = open_spec(s2, name, RDONLY);
    assert(desc_at(s3, fd2 as usize) == Some(FileDesc::File(s2.files.len() as usize)));
    let k2 = s2.files.len() as usize;
    assert(s3.files[k2 as int] == s2.fs.open(name, RDONLY).1.unwrap());
    assert(s3.fs == s2.fs);
    let (s4, m, bytes) = read_spec(s3, fd2 as usize, data.len());
    assert(bytes =~= data);
}

/// Reading back what a write put in a file after closing it: opening `name`
/// with CREATE and WRONLY, writing `data`, closing that descriptor, then
/// opening `name` read-only and reading as many bytes as were written gives
/// back `data`.
pub proof fn law_read_after_close_gives_back_write(s: KernelView, name: Seq<u8>, data: Seq<u8>)
    requires
        s.wf(),
        s.current is Some,
        name.len() <= NAME_LENGTH_LIMIT,
        s.fs.data.len() + 1 < usize::MAX,
        s.cur().fds.len() + 2 < isize::MAX,
        s.files.len() + 2 < usize::MAX,
        0 < data.len() <= MAX_FILE_SIZE,
    ensures
        ({
            let (s1, fd1) = open_spec(s, name, CREATE | WRONLY);
            let (s2, n) = write_spec(s1, fd1 as usize, data);
            let (s3, c) = close_spec(s2, fd1 as usize);
            let (s4, fd2) = open_spec(s3, name, RDONLY);
            let (s5, m, bytes) = read_spec(s4, fd2 as usize, data.len());
            &&& fd1 >= 0
            &&& n == data.len()
            &&& c == 0
            &&& fd2 >= 0
            &&& m == data.len()
            &&& bytes == data
        }),
{
    let flags = CREATE | WRONLY;
    assert(flags_create(flags) && !flags_readable(flags) && flags_writable(flags)) by (bit_vector)
        requires
            flags == 512u32 | 1u32,
    ;
    assert(!flags_create(RDONLY) && !flags_trunc(RDONLY) && flags_readable(RDONLY)) by (bit_vector);
    let (fs1, h) = s.fs.open(name, flags);
    let ino = h.unwrap().ino;
    assert(fs1.lookup(name) == Some(ino)) by {
        if s.fs.lookup(name) is None {
            lemma_lookup_created(s.fs, name);
        }
    }
    let fds0 = s.cur().fds;
    lemma_alloc_fd(fds0, FileDesc::File(s.files.len() as usize));
    let (s1, fd1) = open_spec(s, name, flags);
    let k = s.files.len() as usize;
    assert(desc_at(s1, fd1 as usize) == Some(FileDesc::File(k)));
    assert(s1.files[k as int] == h.unwrap());
    crate::filesystem::lemma_open_handle(s.fs, name, flags);
    let (s2, n) = write_spec(s1, fd1 as usize, data);
    assert(s2.fs == fs1.written(ino, 0, data));
    assert(write_range(Seq::<u8>::empty(), 0, data) =~= data);
    assert(s2.fs.data[ino as int] =~= data);
    assert(s2.fs.lookup(name) == Some(ino));
    let (s3, c) = close_spec(s2, fd1 as usize);
    assert(s3.fs == s2.fs);
    let fds2 = s3.cur().fds;
    lemma_alloc_fd(fds2, FileDesc::File(s3.files.len() as usize));
    let (s4, fd2) = open_spec(s3, name, RDONLY);
    assert(desc_at(s4, fd2 as usize) == Some(FileDesc::File(s3.files.len() as usize)));
    let k2 = s3.files.len() as usize;
    assert(s4.files[k2 as int] == s3.fs.open(name, RDONLY).1.unwrap());
    assert(s4.fs == s3.fs);
    let (s5, m, bytes) = read_spec(s4, fd2 as usize, data.len());
    assert(bytes =~= data);
}

/// A write through a descriptor open on a file without write rights fails
/// and changes nothing, whatever the bytes.
pub proof fn law_write_to_read_only_fails(s: KernelView, fd: usize, data: Seq<u8>)
    requires
        desc_at(s, fd) matches Some(FileDesc::File(k)) && !s.files[k as int].writable,
    ensures
        write_spec(s, fd, data) == (s, -1int),
{
}

/// Closing a freshly opened descriptor and opening the same file again hands
/// out the same descriptor.
pub proof fn law_close_then_reopen_same_fd(s: KernelView, p: Seq<u8>, flags: u32)
    requires
        s.wf(),
        s.current is Some,
        flags_create(flags) ==> s.fs.data.len() + 1 < usize::MAX,
        s.cur().fds.len() < isize::MAX,
        open_spec(s, p, flags).1 >= 0,
    ensures
        ({
            let (s1, fd) = open_spec(s, p, flags);
            let (s2, c) = close_spec(s1, fd as usize);
            &&& c == 0
            &&& open_spec(s2, p, RDONLY).1 == fd
        }),
{
    let fds = s.cur().fds;
    let (fs1, h) = s.fs.open(p, flags);
    crate::filesystem::lemma_open_handle(s.fs, p, flags);
    assert(h is Some);
    lemma_alloc_fd(fds, FileDesc::File(s.files.len() as usize));
    let (s1, fd) = open_spec(s, p, flags);
    assert(fs1.lookup(p) is Some) by {
        if s.fs.lookup(p) is None {
            lemma_lookup_created(s.fs, p);
        }
    }
    assert(fd == alloc_fd_spec(fds));
    let fds1 = s1.cur().fds;
    assert(fds1 == install_fd(fds, fd, FileDesc::File(s.files.len() as usize)));
    assert(desc_at(s1, fd as usize) is Some);
    let (s2, c) = close_spec(s1, fd as usize);
    let fds2 = s2.cur().fds;
    assert(fds2 == fds1.update(fd, None));
    assert(is_first_free(fds2, fd as int)) by {
        assert forall|j: int| 0 <= j < fd implies #[trigger] fds2[j] is Some by {
            assert(fds2[j] == fds1[j]);
            assert(fds1[j] == fds[j]);
        }
    }
    lemma_first_match_free_unique(fds2, fd as int);
    assert(s2.fs == fs1);
}

/// Closing a descriptor twice: the second close fails.
pub proof fn law_close_twice_fails(s: KernelView, fd: usize)
    requires
        s.wf(),
        s.current is Some,
    ensures
        close_spec(close_spec(s, fd).0, fd).1 == -1,
{
}

/// A closed descriptor is handed out again: when every descriptor below `fd`
/// is open, closing `fd` and then opening a file gives `fd` back.
pub proof fn law_open_reuses_closed_fd(s: KernelView, fd: usize, name: Seq<u8>, flags: u32)
    requires
        s.wf(),
        s.current is Some,
        desc_at(s, fd) is Some,
        forall|j: int| 0 <= j < fd ==> #[trigger] s.cur().fds[j] is Some,
        s.fs.lookup(name) is Some,
    ensures
        open_spec(close_spec(s, fd).0, name, flags).1 == fd,
{
    let s1 = close_spec(s, fd).0;
    let fds = s1.cur().fds;
    assert(is_first_free(fds, fd as int));
    lemma_first_match_free_unique(fds, fd as int);
}

proof fn lemma_first_match_free_unique(fds: Seq<Option<FileDesc>>, i: int)
    requires
        is_first_free(fds, i),
    ensures
        alloc_fd_spec(fds) == i,
{
    let c = choose|c: int| is_first_free(fds, c);
    assert(is_first_free(fds, c));
    if c < i {
        assert(fds[c] is Some);
    } else if i < c {
        assert(fds[i] is Some);
    }
}

/// fstat counts names: the link count it reports for an open file is the
/// number of directory entries that name the file's inode (modulo 2^32).
pub proof fn law_fstat_counts_names(s: KernelView, fd: usize)
    requires
        s.wf(),
        s.current is Some,
        desc_at(s, fd) matches Some(FileDesc::File(_)),
    ensures
        fstat_spec(s, fd).nlink as int == name_count(
            s.fs.dir,
            s.files[desc_at(s, fd).unwrap()->File_0 as int].ino,
        ) % 0x1_0000_0000,
{
    let k = desc_at(s, fd).unwrap()->File_0;
    assert(s.proc_wf(s.cur_pid()));
    assert(s.cur().fds[fd as int] == Some(FileDesc::File(k)));
    let ino = s.files[k as int].ino;
    assert(1 <= ino < s.fs.data.len());
    assert(crate::filesystem::nlink_of(s.fs.links[ino as int]) == name_count(s.fs.dir, ino)
        % 0x1_0000_0000);
}

/// A new name shows in fstat: after linkat gives the file open at `fd`
/// another name, fstat on `fd` reports the same inode and one more link
/// (modulo 2^32).
pub proof fn law_link_adds_one_to_fstat(s: KernelView, fd: usize, old_name: Seq<u8>, new_name: Seq<u8>)
    requires
        s.wf(),
        s.current is Some,
        desc_at(s, fd) matches Some(FileDesc::File(k)) && s.fs.lookup(old_name) == Some(
            s.files[k as int].ino,
        ),
    ensures
        ({
            let s1 = linkat_spec(s, old_name, new_name).0;
            &&& desc_at(s1, fd) == desc_at(s, fd)
            &&& fstat_spec(s1, fd).ino == fstat_spec(s, fd).ino
            &&& fstat_spec(s1, fd).nlink as int == (fstat_spec(s, fd).nlink as int + 1)
                % 0x1_0000_0000
        }),
{
    let k = desc_at(s, fd).unwrap()->File_0;
    let fds = s.cur().fds;
    lemma_alloc_fd(fds, FileDesc::File(s.files.len() as usize));
    assert(fds[fd as int] is Some);
    assert(alloc_fd_spec(fds) != fd);
    let s1 = linkat_spec(s, old_name, new_name).0;
    assert(s.proc_wf(s.cur_pid()));
    assert(s.cur().fds[fd as int] == Some(FileDesc::File(k)));
    assert(k < s.files.len());
    assert(desc_at(s1, fd) == desc_at(s, fd));
    assert(s1.files[k as int] == s.files[k as int]);
}

/// Unlinking a new name undoes linking it: when `old_name` exists and
/// `new_name` does not, linkat followed by unlinkat of `new_name` leaves the
/// file system as it was.
pub proof fn law_unlink_undoes_link(s: KernelView, old_name: Seq<u8>, new_name: Seq<u8>)
    requires
        s.wf(),
        s.current is Some,
        s.fs.lookup(old_name) is Some,
        s.fs.lookup(new_name) is None,
    ensures
        unlinkat_spec(linkat_spec(s, old_name, new_name).0, new_name).0.fs == s.fs,
{
    let ino = s.fs.lookup(old_name).unwrap();
    let fs1 = s.fs.linked(new_name, ino);
    let last = s.fs.dir.len() as int;
    assert forall|j: int| 0 <= j < last implies #[trigger] fs1.dir[j].0 != new_name by {
        assert(fs1.dir[j] == s.fs.dir[j]);
        if s.fs.dir[j].0 == new_name {
            lemma_first_match_exists(s.fs.dir, new_name, j);
        }
    }
    assert(is_first_match(fs1.dir, new_name, last));
    lemma_first_match_unique(fs1.dir, new_name, last);
    crate::filesystem::lemma_lookup_in_range(s.fs, old_name);
    let fs2 = fs1.unlinked(new_name);
    assert(fs2.dir =~= s.fs.dir);
    assert(fs2.links =~= s.fs.links);
    assert(fs2 =~= s.fs);
}

/// munmap undoes mmap: mapping a range and then unmapping the same range
/// succeeds and restores the kernel state.
pub proof fn law_munmap_undoes_mmap(s: KernelView, start: usize, len: usize, prot: usize)
    requires
        s.wf(),
        s.current is Some,
        map_range_sound(start, len),
        mmap_spec(s, start, len, prot).1 == 0,
    ensures
        munmap_spec(mmap_spec(s, start, len, prot).0, start, len) == (s, 0int),
{
    let (a, b) = map_range(start, len);
    let p = s.cur();
    let s1 = mmap_spec(s, start, len, prot).0;
    let pages1 = s1.cur().pages;
    assert(pages1.remove_keys(range_set(a, b)) =~= p.pages) by {
        assert forall|v: usize| a <= v < b implies !p.pages.contains_key(v) by {
            assert(!any_mapped_in(p.pages, a, b));
        }
    }
    assert(s.valid_pid(s.cur_pid()));
    assert(s.procs.update(s.cur_pid(), Some(p)) =~= s.procs);
    assert(munmap_spec(s1, start, len).0 =~= s);
}

/// A range of pages that mmap mapped cannot be mapped again.
pub proof fn law_mmap_twice_fails(s: KernelView, start: usize, len: usize, prot: usize, prot2: usize)
    requires
        s.wf(),
        s.current is Some,
        map_range(start, len).0 < map_range(start, len).1,
        mmap_spec(s, start, len, prot).1 == 0,
    ensures
        mmap_spec(mmap_spec(s, start, len, prot).0, start, len, prot2).1 == -1,
{
    let (a, b) = map_range(start, len);
    let s1 = mmap_spec(s, start, len, prot).0;
    let v = a as usize;
    assert(range_map(a, b, crate::mm::mmap_permission(prot)).contains_key(v));
    assert(s1.cur().pages.contains_key(v));
}

/// Fork returns the child's pid to the parent, which goes on running with its
/// own pid; the child is a new ready process whose registers are the parent's
/// with a0 (the value fork returns in the child) set to 0.
pub proof fn law_fork_returns_twice(s: KernelView)
    requires
        s.wf(),
        s.current is Some,
        s.recycled.len() > 0 || s.procs.len() < isize::MAX,
    ensures
        ({
            let (s1, c) = fork_spec(s);
            &&& s1.current == s.current
            &&& c != s.cur_pid()
            &&& s1.valid_pid(c)
            &&& s1.proc_at(c).regs == s.cur().regs.update(10, 0)
            &&& s1.proc_at(c).regs[10] == 0
            &&& s1.proc_at(c).parent == Some(s.cur_pid() as usize)
            &&& s1.proc_at(c).status == TaskStatus::Ready
            &&& s1.ready.last() == c as usize
        }),
{
    let c = s.cur_pid();
    assert(s.valid_pid(c));
    assert(s.proc_wf(c));
    let pid = s.alloc_pid();
    if s.recycled.len() > 0 {
        assert(s.recycled[s.recycled.len() - 1] == s.recycled.last());
        assert(s.procs[pid] is None);
        assert(pid < s.procs.len());
    }
    assert(pid != c);
}

/// A forked child is alive: waiting for it right away answers -2.
pub proof fn law_wait_for_new_child(s: KernelView)
    requires
        s.wf(),
        s.current is Some,
        s.recycled.len() > 0 || s.procs.len() < isize::MAX,
    ensures
        ({
            let (s1, pid) = fork_spec(s);
            waitpid_spec(s1, pid as isize).1 == -2
        }),
{
    let (s1, pid) = fork_spec(s);
    let c = s.cur_pid();
    assert(s.valid_pid(c));
    assert(s.proc_wf(c));
    assert(pid < isize::MAX) by {
        if s.recycled.len() > 0 {
            assert(s.recycled[s.recycled.len() - 1] == s.recycled.last());
            assert(s.recycled.last() < s.procs.len());
        }
    }
    assert(pid != c) by {
        if s.recycled.len() > 0 {
            assert(s.recycled[s.recycled.len() - 1] == s.recycled.last());
            assert(s.procs[s.recycled.last() as int] is None);
        }
    }
    let ch = s1.cur().children;
    let last = ch.len() - 1;
    assert(ch[last] == pid as usize);
    assert(crate::syscall::process::pid_matches(pid as isize, ch[last]));
    assert forall|i: int| !#[trigger] crate::syscall::process::is_first_zombie(s1, pid as isize, i) by {
        if crate::syscall::process::is_first_zombie(s1, pid as isize, i) {
            if i == last {
                assert(s1.proc_at(pid).status == TaskStatus::Ready);
            } else {
                assert(ch[i] == s.cur().children[i]);
                assert(s.valid_pid(s.cur().children[i] as int));
                assert(s.cur().children[i] as int != pid) by {
                    if s.recycled.len() > 0 {
                        assert(s.recycled[s.recycled.len() - 1] == s.recycled.last());
                    }
                }
            }
        }
    }
}

/// waitpid collects an exited child: for a child of the current process that
/// has exited, waiting for its pid returns that pid and its exit code, and the
/// child is no longer among the children.
pub proof fn law_wait_collects_exited_child(s: KernelView, i: int)
    requires
        s.wf(),
        s.current is Some,
        0 <= i < s.cur().children.len(),
        s.proc_at(s.cur().children[i] as int).status == TaskStatus::Exited,
    ensures
        ({
            let ch = s.cur().children[i];
            let (s1, r, code) = waitpid_spec(s, ch as isize);
            &&& r == ch
            &&& code == Some(s.proc_at(ch as int).exit_code)
            &&& !s1.cur().children.contains(ch)
        }),
{
    let p = s.cur();
    let ch = p.children[i];
    assert(s.proc_wf(s.cur_pid()));
    assert(s.valid_pid(ch as int));
    assert(ch <= isize::MAX);
    let pid = ch as isize;
    assert(pid as usize == ch);
    assert(crate::syscall::process::is_first_zombie(s, pid, i)) by {
        assert forall|j: int| 0 <= j < i implies !(crate::syscall::process::pid_matches(pid, #[trigger] p.children[j])
            && s.proc_at(p.children[j] as int).status == TaskStatus::Exited) by {
            assert(p.children[j] != p.children[i]);
        }
    }
    crate::syscall::process::lemma_reap_wf(s, pid, i);
    let s1 = waitpid_spec(s, pid).0;
    let rest = p.children.remove(i);
    assert(s1.cur().children == rest);
    assert(!rest.contains(ch)) by {
        if rest.contains(ch) {
            let j = choose|j: int| 0 <= j < rest.len() && rest[j] == ch;
            if j < i {
                assert(rest[j] == p.children[j]);
            } else {
                assert(rest[j] == p.children[j + 1]);
            }
        }
    }
}

/// Exiting leaves the exit code for the parent: after a process other than 0
/// exits with `code`, it stays as an exited process holding `code` among its
/// parent's children, where waitpid collects it
/// (`law_wait_collects_exited_child`).
pub proof fn law_exit_leaves_code_for_parent(s: KernelView, code: i32)
    requires
        s.wf(),
        s.current is Some,
        s.cur_pid() != 0,
    ensures
        ({
            let c = s.cur_pid();
            let (s1, shutdown) = exit_spec(s, code);
            &&& !shutdown
            &&& s1.valid_pid(c)
            &&& s1.proc_at(c).status == TaskStatus::Exited
            &&& s1.proc_at(c).exit_code == code
            &&& s.cur().parent matches Some(q) ==> s1.valid_pid(q as int) && s1.proc_at(
                q as int,
            ).children.contains(c as usize)
        }),
{
    let c = s.cur_pid();
    let p = s.cur();
    assert(s.valid_pid(c));
    assert(s.proc_wf(c));
    let t = KernelView { procs: crate::syscall::process::exited_procs(s, code), current: None, ..s };
    crate::syscall::process::lemma_exit_wf(s, code);
    if s.ready.len() > 0 {
        assert(s.valid_pid(s.ready[0] as int));
        assert(s.ready[0] as int != c);
    }
    if let Some(q) = p.parent {
        let q = q as int;
        assert(s.valid_pid(q));
        let sq = s.proc_at(q).children;
        let j = choose|j: int| 0 <= j < sq.len() && sq[j] == c as usize;
        assert(q != c);
        if q == 0 {
            assert(t.proc_at(0).children[j] == c as usize);
        } else {
            assert(t.proc_at(q).children == sq);
            assert(t.proc_at(q).children[j] == c as usize);
        }
        assert(t.proc_at(q).children.contains(c as usize));
        let s1 = t.run_next();
        assert(s1.proc_at(q).children == t.proc_at(q).children);
    }
}

/// A parent collects the exit code of a child that has just exited: when the
/// current process (not 0) exits with `code` and its parent is the first
/// ready process, the parent runs next, and its waitpid for the child's pid
/// returns that pid and `code`.
pub proof fn law_exit_then_parent_waits(s: KernelView, code: i32)
    requires
        s.wf(),
        s.current is Some,
        s.cur_pid() != 0,
        s.ready.len() > 0,
        s.cur().parent == Some(s.ready[0]),
    ensures
        ({
            let c = s.cur_pid();
            let s1 = exit_spec(s, code).0;
            &&& s1.current == Some(s.ready[0])
            &&& waitpid_spec(s1, c as isize).1 == c
            &&& waitpid_spec(s1, c as isize).2 == Some(code)
        }),
{
    let c = s.cur_pid();
    let q = s.ready[0] as int;
    law_exit_leaves_code_for_parent(s, code);
    let t = KernelView { procs: crate::syscall::process::exited_procs(s, code), current: None, ..s };
    crate::syscall::process::lemma_exit_wf(s, code);
    lemma_run_next_wf(t);
    let s1 = t.run_next();
    assert(s1.current == Some(q as usize));
    assert(s1.cur() .children == s1.proc_at(q).children);
    let ch = s1.cur().children;
    assert(ch.contains(c as usize));
    let i = choose|i: int| 0 <= i < ch.len() && ch[i] == c as usize;
    assert(s1.proc_at(c).status == TaskStatus::Exited);
    law_wait_collects_exited_child(s1, i);
}

/// Growing the heap and shrinking it back by the same amount restores the
/// kernel state, and each call returns the break it found.
pub proof fn law_sbrk_round_trip(s: KernelView, n: i32)
    requires
        s.wf(),
        s.current is Some,
        n >= 0,
        sbrk_sound(s, n),
    ensures
        ({
            let (s1, r1) = sbrk_spec(s, n);
            let (s2, r2) = sbrk_spec(s1, -n as i32);
            &&& r1 == s.cur().program_brk
            &&& r2 == s.cur().program_brk + n
            &&& s2 == s
        }),
{
    let p = s.cur();
    let (s1, r1) = sbrk_spec(s, n);
    let old_end = vpn_ceil(p.program_brk);
    let new_end = vpn_ceil((p.program_brk + n) as usize);
    let pages1 = s1.cur().pages;
    if n > 0 {
        assert(pages1.remove_keys(range_set(old_end, new_end)) =~= p.pages) by {
            assert forall|v: usize| old_end <= v < new_end implies !p.pages.contains_key(v) by {
                assert(!any_mapped_in(p.pages, old_end, new_end));
            }
        }
    } else {
        assert(pages1 =~= p.pages);
        assert(pages1.union_prefer_right(range_map(old_end, old_end, crate::syscall::process::heap_permission())) =~= p.pages);
    }
    assert(s.valid_pid(s.cur_pid()));
    assert(s.procs.update(s.cur_pid(), Some(p)) =~= s.procs);
    assert(sbrk_spec(s1, -n as i32).0 =~= s);
}

/// Yielding with no other process ready leaves everything as it was: the
/// same process goes on running.
pub proof fn law_yield_alone(s: KernelView)
    requires
        s.wf(),
        s.current is Some,
        s.ready.len() == 0,
    ensures
        yield_spec(s) == (s, 0int),
{
    let c = s.cur_pid();
    assert(s.valid_pid(c));
    let t = yield_spec(s).0;
    assert(t.ready =~= s.ready);
    assert(t.procs =~= s.procs);
    assert(t =~= s);
}

/// get_time splits a time into whole seconds and the microseconds left over.
pub proof fn law_time_split(time: usize)
    ensures
        time_val_of(time).sec * 1_000_000 + time_val_of(time).usec == time,
        time_val_of(time).usec < 1_000_000,
{
}

/// The rights mmap gives: after a successful mmap every page of the range is
/// mapped, user accessible, readable when bit 0 of `prot` is set, writable
/// when bit 1 is set and executable when bit 2 is set; pages outside the range
/// keep their mapping.
pub proof fn law_mmap_rights(s: KernelView, start: usize, len: usize, prot: usize)
    requires
        s.wf(),
        s.current is Some,
    ensures
        ({
            let (s1, r) = mmap_spec(s, start, len, prot);
            let (a, b) = map_range(start, len);
            &&& (r == 0) == (page_aligned(virt_addr_spec(start)) && 1 <= prot <= 7 && !any_mapped_in(
                s.cur().pages,
                a,
                b,
            ))
            &&& r != 0 ==> r == -1 && s1 == s
            &&& r == 0 ==> {
                &&& s1.current == s.current
                &&& forall|v: usize|
                    a <= v < b ==> {
                        &&& #[trigger] s1.cur().pages.contains_key(v)
                        &&& s1.cur().pages[v].u
                        &&& prot % 2 == 1 ==> s1.cur().pages[v].r
                        &&& (prot / 2) % 2 == 1 ==> s1.cur().pages[v].w
                        &&& s1.cur().pages[v].x == ((prot / 4) % 2 == 1)
                    }
                &&& forall|v: usize|
                    !(a <= v < b) ==> (#[trigger] s1.cur().pages.contains_key(v)
                        == s.cur().pages.contains_key(v) && (s.cur().pages.contains_key(v)
                        ==> s1.cur().pages[v] == s.cur().pages[v]))
            }
        }),
{
    let c = s.cur_pid();
    assert(s.valid_pid(c));
}

/// The pages munmap removes: after a successful munmap no page of the range
/// is mapped and every page outside it keeps its mapping; a failed munmap
/// changes nothing.
pub proof fn law_munmap_removes_range(s: KernelView, start: usize, len: usize)
    requires
        s.wf(),
        s.current is Some,
    ensures
        ({
            let (s1, r) = munmap_spec(s, start, len);
            let (a, b) = map_range(start, len);
            &&& r == 0 || r == -1
            &&& (r == 0) == (page_aligned(virt_addr_spec(start)) && forall|v: usize|
                a <= v < b ==> #[trigger] s.cur().pages.contains_key(v))
            &&& r == -1 ==> s1 == s
            &&& r == 0 ==> {
                &&& forall|v: usize| a <= v < b ==> !#[trigger] s1.cur().pages.contains_key(v)
                &&& forall|v: usize|
                    !(a <= v < b) ==> (#[trigger] s1.cur().pages.contains_key(v)
                        == s.cur().pages.contains_key(v) && (s.cur().pages.contains_key(v)
                        ==> s1.cur().pages[v] == s.cur().pages[v]))
            }
        }),
{
    let c = s.cur_pid();
    assert(s.valid_pid(c));
}

/// A write to a file changes only the written bytes: the file's length
/// becomes the larger of its old length and the end of the write, the bytes
/// of the write stand at the handle's position, every other old byte stays,
/// a gap between the old end and the position reads as zeros, the position
/// moves past the bytes, and no other file changes.
pub proof fn law_write_keeps_rest_of_file(s: KernelView, fd: usize, data: Seq<u8>)
    requires
        s.wf(),
        s.current is Some,
        desc_at(s, fd) matches Some(FileDesc::File(k)) && s.files[k as int].writable,
        data.len() > 0,
        write_fits(s, fd, data.len()),
    ensures
        ({
            let k = desc_at(s, fd).unwrap()->File_0 as int;
            let f = s.files[k];
            let off = f.offset as int;
            let d = s.fs.data[f.ino as int];
            let (s1, n) = write_spec(s, fd, data);
            let d1 = s1.fs.data[f.ino as int];
            &&& n == data.len()
            &&& d1.len() == if off + data.len() > d.len() { off + data.len() } else { d.len() as int }
            &&& forall|i: int| off <= i < off + data.len() ==> #[trigger] d1[i] == data[i - off]
            &&& forall|i: int| 0 <= i < d.len() && !(off <= i < off + data.len()) ==> #[trigger] d1[i] == d[i]
            &&& forall|i: int| d.len() <= i < off ==> #[trigger] d1[i] == 0
            &&& s1.files[k].offset == off + data.len()
            &&& s1.files[k].ino == f.ino
            &&& s1.fs.data.len() == s.fs.data.len()
            &&& forall|j: int| 0 <= j < s.fs.data.len() && j != f.ino ==> #[trigger] s1.fs.data[j] == s.fs.data[j]
            &&& s1.fs.dir == s.fs.dir
        }),
{
    let k = desc_at(s, fd).unwrap()->File_0;
    assert(s.valid_pid(s.cur_pid()));
    assert(s.proc_wf(s.cur_pid()));
    assert(s.cur().fds[fd as int] == Some(FileDesc::File(k)));
    assert(k < s.files.len());
    let f = s.files[k as int];
    assert(1 <= f.ino < s.fs.data.len());
    let (s1, n) = write_spec(s, fd, data);
    let d = s.fs.data[f.ino as int];
    let d1 = write_range(d, f.offset as int, data);
    assert(s1.fs == s.fs.written(f.ino, f.offset as int, data));
    assert(s1.fs.data[f.ino as int] == d1);
    assert(s1.files[k as int].offset == f.offset + data.len());
}

/// A read from a file gives the file's bytes from the handle's position: as
/// many as asked for, or as many as are left, in order; the position moves
/// past them and nothing else changes.
pub proof fn law_read_gives_file_bytes(s: KernelView, fd: usize, len: nat)
    requires
        s.wf(),
        s.current is Some,
        desc_at(s, fd) matches Some(FileDesc::File(k)) && s.files[k as int].readable
            && s.fs.data[s.files[k as int].ino as int].len() <= usize::MAX,
    ensures
        ({
            let k = desc_at(s, fd).unwrap()->File_0 as int;
            let f = s.files[k];
            let off = f.offset as int;
            let d = s.fs.data[f.ino as int];
            let (s1, n, bytes) = read_spec(s, fd, len);
            let left = if off < d.len() { d.len() - off } else { 0 };
            &&& n == if len < left { len as int } else { left }
            &&& bytes.len() == n
            &&& forall|i: int| 0 <= i < n ==> #[trigger] bytes[i] == d[off + i]
            &&& s1.files[k].offset == off + n
            &&& s1.fs == s.fs
            &&& s1.procs == s.procs
        }),
{
    let k = desc_at(s, fd).unwrap()->File_0;
    assert(s.valid_pid(s.cur_pid()));
    assert(s.proc_wf(s.cur_pid()));
    assert(s.cur().fds[fd as int] == Some(FileDesc::File(k)));
    assert(k < s.files.len());
    let f = s.files[k as int];
    let off = f.offset as int;
    let d = s.fs.data[f.ino as int];
    let bytes = read_range(d, off, len as int);
    if off >= d.len() {
        assert(bytes.len() == 0);
    } else if off + len <= d.len() {
        assert(bytes =~= d.subrange(off, off + len));
    } else {
        assert(bytes =~= d.subrange(off, d.len() as int));
    }
    let (s1, n, b) = read_spec(s, fd, len);
    assert(b == bytes);
    assert(s1.files[k as int].offset == off + bytes.len());
}

/// Fork copies the current process: the child has the parent's pages with
/// their rights, descriptors, heap, image and priority-independent state,
/// and the parent keeps all of its own but gains the child.
pub proof fn law_fork_copies_parent(s: KernelView)
    requires
        s.wf(),
        s.current is Some,
        s.recycled.len() > 0 || s.procs.len() < isize::MAX,
    ensures
        ({
            let (s1, c) = fork_spec(s);
            let child = s1.proc_at(c);
            let parent = s1.cur();
            &&& child.pages == s.cur().pages
            &&& child.fds == s.cur().fds
            &&& child.image == s.cur().image
            &&& child.heap_bottom == s.cur().heap_bottom
            &&& child.program_brk == s.cur().program_brk
            &&& child.children.len() == 0
            &&& child.exit_code == 0
            &&& forall|i: int| 0 <= i < 32 && i != 10 ==> #[trigger] child.regs[i] == s.cur().regs[i]
            &&& parent.pages == s.cur().pages
            &&& parent.fds == s.cur().fds
            &&& parent.regs == s.cur().regs
            &&& parent.image == s.cur().image
            &&& parent.children == s.cur().children.push(c as usize)
            &&& s1.files == s.files
            &&& s1.fs == s.fs
        }),
{
    law_fork_returns_twice(s);
    let c = s.cur_pid();
    assert(s.valid_pid(c));
    assert(s.proc_wf(c));
}

/// Exec keeps the process's descriptors and family: on success the current
/// process runs the file's bytes with its descriptor table, parent and
/// children unchanged; when the file is missing nothing changes.
pub proof fn law_exec_keeps_descriptors(s: KernelView, path: Seq<u8>)
    requires
        s.wf(),
        s.current is Some,
    ensures
        ({
            let (s1, r) = exec_spec(s, path);
            &&& (r == 0) == (s.fs.lookup(path) is Some)
            &&& r == -1 ==> s1 == s
            &&& r == 0 ==> {
                &&& s1.current == s.current
                &&& s1.cur().fds == s.cur().fds
                &&& s1.cur().parent == s.cur().parent
                &&& s1.cur().children == s.cur().children
                &&& s1.cur().image == s.fs.data[s.fs.lookup(path).unwrap() as int]
                &&& s1.files == s.files
                &&& s1.fs == s.fs
            }
        }),
{
    let c = s.cur_pid();
    assert(s.valid_pid(c));
}

/// The heap pages sbrk manages: on success it returns the old break and moves
/// the break by `size`; growing maps every page up to the new break readable,
/// writable and user accessible but not executable; shrinking unmaps the
/// pages past the new break; pages outside those keep their mapping.
pub proof fn law_sbrk_heap_pages(s: KernelView, size: i32)
    requires
        s.wf(),
        s.current is Some,
        s.cur().program_brk + size <= usize::MAX,
    ensures
        ({
            let p = s.cur();
            let (s1, r) = sbrk_spec(s, size);
            let new_brk = p.program_brk + size;
            let lo = if size < 0 { vpn_ceil(new_brk as usize) } else { vpn_ceil(p.program_brk) };
            let hi = if size < 0 { vpn_ceil(p.program_brk) } else { vpn_ceil(new_brk as usize) };
            &&& (r == -1) == (new_brk < p.heap_bottom)
            &&& r == -1 ==> s1 == s
            &&& r != -1 ==> {
                &&& r == p.program_brk
                &&& s1.cur().program_brk == new_brk
                &&& s1.cur().heap_bottom == p.heap_bottom
                &&& size >= 0 ==> forall|v: usize|
                    lo <= v < hi ==> {
                        &&& #[trigger] s1.cur().pages.contains_key(v)
                        &&& s1.cur().pages[v].r
                        &&& s1.cur().pages[v].w
                        &&& s1.cur().pages[v].u
                        &&& !s1.cur().pages[v].x
                    }
                &&& size < 0 ==> forall|v: usize| lo <= v < hi ==> !#[trigger] s1.cur().pages.contains_key(v)
                &&& forall|v: usize|
                    !(lo <= v < hi) ==> (#[trigger] s1.cur().pages.contains_key(v)
                        == p.pages.contains_key(v) && (p.pages.contains_key(v)
                        ==> s1.cur().pages[v] == p.pages[v]))
            }
        }),
{
    let c = s.cur_pid();
    assert(s.valid_pid(c));
    assert(s.proc_wf(c));
    let p = s.cur();
    let new_brk = p.program_brk + size;
    if new_brk >= p.heap_bottom {
        let (s1, r) = sbrk_spec(s, size);
        assert(s1.procs[c] == Some(s1.cur()));
        if size < 0 {
            let gone = range_set(vpn_ceil(new_brk as usize), vpn_ceil(p.program_brk));
            assert(s1.cur().pages == p.pages.remove_keys(gone));
        } else {
            let added = range_map(vpn_ceil(p.program_brk), vpn_ceil(new_brk as usize), heap_permission());
            assert(s1.cur().pages == p.pages.union_prefer_right(added));
        }
    }
}

/// The rights open gives: a missing file without CREATE is refused with -1
/// and nothing changes; otherwise the lowest free descriptor now holds a new
/// open file at position 0 on the named file (or on a new empty one), which
/// reads unless opened write-only and writes unless opened read-only. An
/// existing file keeps its bytes unless CREATE or TRUNC is given, which empty it.
pub proof fn law_open_rights(s: KernelView, path: Seq<u8>, flags: u32)
    requires
        s.wf(),
        s.current is Some,
    ensures
        ({
            let (s1, r) = open_spec(s, path, flags);
            let h = s.files.len();
            &&& (r == -1) == (s.fs.lookup(path) is None && flags & CREATE == 0)
            &&& r == -1 ==> s1 == s
            &&& r != -1 ==> {
                &&& r == alloc_fd_spec(s.cur().fds)
                &&& s1.current == s.current
                &&& s1.cur().fds[r] == Some(FileDesc::File(h as usize))
                &&& s1.files.len() == h + 1
                &&& s1.files[h as int].offset == 0
                &&& s1.files[h as int].readable == (flags & WRONLY == 0 || flags == RDONLY)
                &&& s1.files[h as int].writable == (flags != RDONLY)
                &&& s.fs.lookup(path) matches Some(ino) ==> {
                    &&& s1.files[h as int].ino == ino
                    &&& flags & (CREATE | TRUNC) == 0 ==> s1.fs == s.fs
                    &&& flags & (CREATE | TRUNC) != 0 ==> s1.fs.data[ino as int].len() == 0
                }
                &&& s.fs.lookup(path) is None ==> {
                    &&& s1.files[h as int].ino == s.fs.data.len()
                    &&& s1.fs.lookup(path) == Some(s.fs.data.len() as usize)
                    &&& s1.fs.data[s.fs.data.len() as int].len() == 0
                }
                &&& forall|j: int| 0 <= j < h ==> #[trigger] s1.files[j] == s.files[j]
            }
        }),
{
    let c = s.cur_pid();
    assert(s.valid_pid(c));
    assert(s.proc_wf(c));
    assert((flags & (512u32 | 1024u32) == 0) == (flags & 512u32 == 0 && flags & 1024u32 == 0))
        by (bit_vector);
    lemma_alloc_fd(s.cur().fds, FileDesc::File(s.files.len() as usize));
    crate::filesystem::lemma_lookup_in_range(s.fs, path);
    if s.fs.lookup(path) is None && flags_create(flags) {
        lemma_lookup_created(s.fs, path);
    }
}

/// Close frees exactly its descriptor: every other descriptor, the open files
/// and the file system stay as they were; closing a descriptor that is not
/// open is refused with -1 and changes nothing.
pub proof fn law_close_frees_only_fd(s: KernelView, fd: usize)
    requires
        s.wf(),
        s.current is Some,
    ensures
        ({
            let (s1, r) = close_spec(s, fd);
            &&& (r == 0) == (desc_at(s, fd) is Some)
            &&& r != 0 ==> r == -1 && s1 == s
            &&& r == 0 ==> {
                &&& s1.current == s.current
                &&& desc_at(s1, fd) is None
                &&& s1.cur().fds.len() == s.cur().fds.len()
                &&& forall|j: int|
                    0 <= j < s.cur().fds.len() && j != fd ==> #[trigger] s1.cur().fds[j] == s.cur().fds[j]
                &&& s1.files == s.files
                &&& s1.fs == s.fs
                &&& s1.cur().pages == s.cur().pages
            }
        }),
{
    let c = s.cur_pid();
    assert(s.valid_pid(c));
}

/// Spawn starts the file's program as a new child: on success the child runs
/// the file's bytes with the standard descriptors and only the reserved pages,
/// is ready at the back of the queue, and is the last child of the caller,
/// which otherwise goes on unchanged; a missing file is refused with -1.
pub proof fn law_spawn_runs_file(s: KernelView, path: Seq<u8>)
    requires
        s.wf(),
        s.current is Some,
        s.recycled.len() > 0 || s.procs.len() < isize::MAX,
    ensures
        ({
            let (s1, c) = spawn_spec(s, path);
            &&& (c == -1) == (s.fs.lookup(path) is None)
            &&& c == -1 ==> s1 == s
            &&& c != -1 ==> {
                &&& c != s.cur_pid()
                &&& !s.valid_pid(c)
                &&& s1.valid_pid(c)
                &&& s1.current == s.current
                &&& s1.proc_at(c).image == s.fs.data[s.fs.lookup(path).unwrap() as int]
                &&& s1.proc_at(c).fds == standard_fds()
                &&& s1.proc_at(c).pages == reserved_pages()
                &&& s1.proc_at(c).parent == Some(s.cur_pid() as usize)
                &&& s1.proc_at(c).status == TaskStatus::Ready
                &&& s1.ready == s.ready.push(c as usize)
                &&& s1.cur().children == s.cur().children.push(c as usize)
                &&& s1.cur().fds == s.cur().fds
                &&& s1.cur().pages == s.cur().pages
                &&& s1.cur().image == s.cur().image
                &&& s1.files == s.files
                &&& s1.fs == s.fs
            }
        }),
{
    let c = s.cur_pid();
    assert(s.valid_pid(c));
    assert(s.proc_wf(c));
    let pid = s.alloc_pid();
    if s.recycled.len() > 0 {
        assert(s.recycled[s.recycled.len() - 1] == s.recycled.last());
        assert(s.procs[pid] is None);
        assert(pid < s.procs.len());
    }
    assert(pid != c);
}

/// set_priority takes priorities of 2 and more: such a priority becomes the
/// current process's and is returned, and nothing else changes; a smaller one
/// is refused with -1 and changes nothing.
pub proof fn law_set_priority(s: KernelView, prio: isize)
    requires
        s.wf(),
        s.current is Some,
    ensures
        ({
            let (s1, r) = set_priority_spec(s, prio);
            &&& (r == -1) == (prio < 2)
            &&& r == -1 ==> s1 == s
            &&& r != -1 ==> {
                &&& r == prio
                &&& s1.current == s.current
                &&& s1.cur().priority == prio
                &&& s1.cur().pages == s.cur().pages
                &&& s1.cur().fds == s.cur().fds
                &&& s1.ready == s.ready
            }
        }),
{
    let c = s.cur_pid();
    assert(s.valid_pid(c));
}

/// Yield takes turns: with some process ready, the first ready process runs
/// next and the yielding one waits, ready, at the back of the queue; nothing
/// but the two statuses changes.
pub proof fn law_yield_round_robin(s: KernelView)
    requires
        s.wf(),
        s.current is Some,
        s.ready.len() > 0,
    ensures
        ({
            let c = s.cur_pid();
            let n = s.ready[0] as int;
            let (s1, r) = yield_spec(s);
            &&& r == 0
            &&& s1.current == Some(s.ready[0])
            &&& s1.ready == s.ready.drop_first().push(c as usize)
            &&& s1.proc_at(c).status == TaskStatus::Ready
            &&& s1.proc_at(n).status == TaskStatus::Running
            &&& s1.proc_at(c).pages == s.proc_at(c).pages
            &&& s1.proc_at(n).pages == s.proc_at(n).pages
            &&& s1.files == s.files
            &&& s1.fs == s.fs
        }),
{
    let c = s.cur_pid();
    let n = s.ready[0] as int;
    assert(s.valid_pid(c));
    assert(s.valid_pid(n));
    assert(n != c);
    let t = s.suspended();
    assert(t.ready[0] == s.ready[0]);
    assert(t.ready.drop_first() =~= s.ready.drop_first().push(c as usize));
}

/// Exit hands the children to process 0: the exiting process keeps its code,
/// loses its pages and children, and each of its children becomes a child of
/// process 0, after process 0's own.
pub proof fn law_exit_hands_children_to_init(s: KernelView, code: i32)
    requires
        s.wf(),
        s.current is Some,
        s.cur_pid() != 0,
    ensures
        ({
            let c = s.cur_pid();
            let p = s.cur();
            let s1 = exit_spec(s, code).0;
            &&& s1.proc_at(c).pages == Map::<usize, crate::mm::MapPermission>::empty()
            &&& s1.proc_at(c).children.len() == 0
            &&& s1.proc_at(0).children == s.proc_at(0).children + p.children
            &&& forall|i: int|
                0 <= i < p.children.len() ==> #[trigger] s1.proc_at(p.children[i] as int).parent == Some(
                    0usize,
                )
        }),
{
    let c = s.cur_pid();
    let p = s.cur();
    assert(s.valid_pid(c));
    assert(s.proc_wf(c));
    assert(s.proc_wf(0));
    crate::syscall::process::lemma_exit_wf(s, code);
    let t = KernelView { procs: crate::syscall::process::exited_procs(s, code), current: None, ..s };
    assert forall|i: int| 0 <= i < p.children.len() implies #[trigger] t.run_next().proc_at(
        p.children[i] as int,
    ).parent == Some(0usize) by {
        let x = p.children[i] as int;
        assert(s.valid_pid(x));
        assert(x != 0) by {
            assert(s.proc_at(x).parent == Some(c as usize));
            assert(s.proc_at(0).parent is None);
        }
        assert(p.children.contains(x as usize));
        assert(t.proc_at(x).parent == Some(0usize));
    }
}

/// waitpid with nothing to collect changes nothing: -1 when `pid` selects no
/// child of the current process, -2 when every child it selects is alive.
pub proof fn law_wait_without_zombie(s: KernelView, pid: isize)
    requires
        s.wf(),
        s.current is Some,
    ensures
        ({
            let ch = s.cur().children;
            let (s1, r, code) = waitpid_spec(s, pid);
            &&& (r == -1) == !exists|i: int| 0 <= i < ch.len() && #[trigger] pid_matches(pid, ch[i])
            &&& (r == -2) == ((exists|i: int| 0 <= i < ch.len() && #[trigger] pid_matches(pid, ch[i]))
                && forall|i: int|
                0 <= i < ch.len() && #[trigger] pid_matches(pid, ch[i]) ==> s.proc_at(ch[i] as int).status
                    != TaskStatus::Exited)
            &&& (r == -1 || r == -2) ==> s1 == s && code is None
        }),
{
    let ch = s.cur().children;
    assert(s.valid_pid(s.cur_pid()));
    assert(s.proc_wf(s.cur_pid()));
    let sel = exists|i: int| 0 <= i < ch.len() && #[trigger] pid_matches(pid, ch[i]);
    let r = waitpid_spec(s, pid).1;
    if !sel {
        assert(!exists|i: int| 0 <= i < ch.len() && pid_matches(pid, #[trigger] ch[i]));
        assert(r == -1);
    } else {
        let w = choose|i: int| 0 <= i < ch.len() && #[trigger] pid_matches(pid, ch[i]);
        assert(exists|i: int| 0 <= i < ch.len() && pid_matches(pid, #[trigger] ch[i])) by {
            assert(pid_matches(pid, ch[w]));
        }
        if exists|i: int| crate::syscall::process::is_first_zombie(s, pid, i) {
            let i = choose|i: int| crate::syscall::process::is_first_zombie(s, pid, i);
            assert(s.valid_pid(ch[i] as int));
            assert(r == ch[i]);
            assert(r >= 0);
            assert(!forall|j: int|
                0 <= j < ch.len() && #[trigger] pid_matches(pid, ch[j]) ==> s.proc_at(ch[j] as int).status
                    != TaskStatus::Exited) by {
                assert(pid_matches(pid, ch[i]));
            }
        } else {
            assert(r == -2);
            assert forall|i: int| 0 <= i < ch.len() && #[trigger] pid_matches(pid, ch[i]) implies s.proc_at(
                ch[i] as int,
            ).status != TaskStatus::Exited by {
                if s.proc_at(ch[i] as int).status == TaskStatus::Exited {
                    lemma_first_zombie_exists(s, pid, i);
                }
            }
        }
    }
}

proof fn lemma_first_zombie_exists(s: KernelView, pid: isize, k: int)
    requires
        0 <= k < s.cur().children.len(),
        crate::syscall::process::pid_matches(pid, s.cur().children[k]),
        s.proc_at(s.cur().children[k] as int).status == TaskStatus::Exited,
    ensures
        exists|i: int| crate::syscall::process::is_first_zombie(s, pid, i),
    decreases k,
{
    let ch = s.cur().children;
    if exists|j: int|
        0 <= j < k && crate::syscall::process::pid_matches(pid, #[trigger] ch[j]) && s.proc_at(
            ch[j] as int,
        ).status == TaskStatus::Exited {
        let j = choose|j: int|
            0 <= j < k && crate::syscall::process::pid_matches(pid, #[trigger] ch[j]) && s.proc_at(
                ch[j] as int,
            ).status == TaskStatus::Exited;
        lemma_first_zombie_exists(s, pid, j);
    } else {
        assert(crate::syscall::process::is_first_zombie(s, pid, k));
    }
}

/// The console: a write to standard output appends the bytes to the console
/// output and returns their number; a read from standard input with a byte
/// pending takes that one byte, the first typed.
pub proof fn law_console_in_order(s: KernelView, fd: usize, data: Seq<u8>, len: nat)
    requires
        s.wf(),
        s.current is Some,
    ensures
        desc_at(s, fd) == Some(FileDesc::Stdout) ==> ({
            let (s1, n) = write_spec(s, fd, data);
            &&& n == data.len()
            &&& s1.console_out == s.console_out + data
            &&& s1.console_in == s.console_in
            &&& s1.procs == s.procs
            &&& s1.fs == s.fs
        }),
        desc_at(s, fd) == Some(FileDesc::Stdin) && s.console_in.len() > 0 ==> ({
            let (s1, n, bytes) = read_spec(s, fd, len);
            &&& n == 1
            &&& bytes == seq![s.console_in[0]]
            &&& s1.console_in == s.console_in.subrange(1, s.console_in.len() as int)
            &&& s1.console_out == s.console_out
            &&& s1.procs == s.procs
        }),
{
}

/// Page rounding: an address lies in the page `vpn_floor` gives, `vpn_ceil`
/// gives the first page that starts at or above it, the two agree exactly on
/// page-aligned addresses, and a length of at least one page covers
/// `page_count_spec` pages, the last of them only partly.
pub proof fn law_page_rounding(va: usize, len: usize)
    ensures
        vpn_floor(va) * 4096 <= va < (vpn_floor(va) + 1) * 4096,
        va <= vpn_ceil(va) * 4096 < va + 4096,
        (vpn_ceil(va) == vpn_floor(va)) == page_aligned(va),
        len >= 4096 ==> (page_count_spec(len) - 1) * 4096 < len <= page_count_spec(len) * 4096,
        len < 4096 ==> page_count_spec(len) == 0,
{
}

/// linkat gives the file a second name: when `old_name` exists and
/// `new_name` does not, afterwards `new_name` names the same inode as
/// `old_name`, no file's bytes change, and 0 is returned.
pub proof fn law_link_names_same_file(s: KernelView, old_name: Seq<u8>, new_name: Seq<u8>)
    requires
        s.wf(),
        s.current is Some,
        s.fs.lookup(old_name) is Some,
        s.fs.lookup(new_name) is None,
    ensures
        ({
            let (s1, r) = linkat_spec(s, old_name, new_name);
            &&& r == 0
            &&& s1.fs.lookup(new_name) == s.fs.lookup(old_name)
            &&& s1.fs.data == s.fs.data
        }),
{
    let ino = s.fs.lookup(old_name).unwrap();
    let fs1 = s.fs.linked(new_name, ino);
    let last = s.fs.dir.len() as int;
    assert forall|j: int| 0 <= j < last implies #[trigger] fs1.dir[j].0 != new_name by {
        assert(fs1.dir[j] == s.fs.dir[j]);
        if s.fs.dir[j].0 == new_name {
            lemma_first_match_exists(s.fs.dir, new_name, j);
        }
    }
    assert(is_first_match(fs1.dir, new_name, last));
    lemma_first_match_unique(fs1.dir, new_name, last);
}

} // verus!
