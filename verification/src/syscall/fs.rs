//! File and filesystem-related syscalls.
use vstd::prelude::*;
use crate::filesystem::{
    MAX_FILE_SIZE, NAME_LENGTH_LIMIT, OSInode, RDWR, Stat, StatMode, append_bytes, flags_create,
    flags_known, lemma_linked_wf, lemma_lookup_in_range, lemma_open_handle, lemma_unlinked_wf,
    nlink_of, read_range,
};
use crate::kernel::{
    FileDesc, Kernel, KernelView, ProcView, alloc_fd_spec, install_fd, lemma_step_wf,
    lemma_wf_ignores_console, lemma_with_cur_wf,
};

verus! {

/// What a console read answers when no byte is pending: the reading process
/// has been suspended and another runs; when the reader runs again it repeats
/// the read.
pub const CONSOLE_WOULD_BLOCK: isize = -2;

/// What descriptor `fd` of the current process refers to, if anything.
pub fn desc_of(k: &Kernel, fd: usize) -> (r: Option<FileDesc>)
    requires
        k.wf(),
        k@.current is Some,
    ensures
        r == desc_at(k@, fd),
{
    let c = k.current.unwrap();
    proof {
        assert(k@.valid_pid(c as int));
        assert(k.procs@[c as int] is Some);
    }
    let p = k.procs[c].as_ref().unwrap();
    if fd < p.fd_table.len() {
        p.fd_table[fd]
    } else {
        None
    }
}

/// Whether a write of `len` bytes through `fd` stays within the largest file size.
pub fn write_fits_check(k: &Kernel, fd: usize, len: usize) -> (r: bool)
    requires
        k.wf(),
        k@.current is Some,
    ensures
        r == write_fits(k@, fd, len as nat),
{
    match desc_of(k, fd) {
        Some(FileDesc::File(i)) => {
            proof {
                let c = k@.cur_pid();
                assert(k@.valid_pid(c));
                assert(k@.proc_wf(c));
                assert(k@.cur().fds[fd as int] == Some(FileDesc::File(i)));
            }
            let f = k.files[i];
            !f.writable || len == 0 || (f.offset <= MAX_FILE_SIZE && len <= MAX_FILE_SIZE - f.offset)
        },
        _ => true,
    }
}

/// What descriptor `fd` of the current process refers to, if anything.
pub open spec fn desc_at(s: KernelView, fd: usize) -> Option<FileDesc> {
    if fd < s.cur().fds.len() {
        s.cur().fds[fd as int]
    } else {
        None
    }
}

/// The current process with `d` installed at the descriptor it allocates.
pub open spec fn cur_with_new_fd(s: KernelView, d: FileDesc) -> ProcView {
    ProcView { fds: install_fd(s.cur().fds, alloc_fd_spec(s.cur().fds), d), ..s.cur() }
}

/// What write does: -1 for a descriptor that is not open or not writable; to
/// the console it appends the bytes; to a file it writes them at the handle's
/// position and moves the position past them (no bytes change nothing). It
/// returns the number of bytes.
pub open spec fn write_spec(s: KernelView, fd: usize, data: Seq<u8>) -> (KernelView, int) {
    match desc_at(s, fd) {
        Some(FileDesc::Stdout) => (KernelView { console_out: s.console_out + data, ..s }, data.len() as int),
        Some(FileDesc::File(k)) => {
            let f = s.files[k as int];
            if !f.writable {
                (s, -1)
            } else if data.len() == 0 {
                (s, 0)
            } else {
                (
                    KernelView {
                        fs: s.fs.written(f.ino, f.offset as int, data),
                        files: s.files.update(k as int, OSInode { offset: (f.offset + data.len()) as usize, ..f }),
                        ..s
                    },
                    data.len() as int,
                )
            }
        },
        _ => (s, -1),
    }
}

/// A write through `fd` of `len` bytes that reaches a file stays within the
/// largest file size.
pub open spec fn write_fits(s: KernelView, fd: usize, len: nat) -> bool {
    desc_at(s, fd) matches Some(FileDesc::File(k)) ==> (s.files[k as int].writable && len > 0
        ==> s.files[k as int].offset + len <= MAX_FILE_SIZE)
}

/// Writes `data` through descriptor `fd`. The console takes text only: bytes
/// for it must be UTF-8.
pub fn sys_write(k: &mut Kernel, fd: usize, data: &Vec<u8>) -> (r: isize)
    requires
        old(k).wf(),
        old(k)@.current is Some,
        data@.len() <= isize::MAX,
        write_fits(old(k)@, fd, data@.len()),
        desc_at(old(k)@, fd) == Some(FileDesc::Stdout) ==> vstd::utf8::valid_utf8(data@),
    ensures
        final(k).wf(),
        (final(k)@, r as int) == write_spec(old(k)@, fd, data@),
{
    let ghost s = k@;
    let c = k.current.unwrap();
    proof {
        assert(s.valid_pid(c as int));
        assert(k.procs@[c as int] is Some);
        assert(s.proc_wf(c as int));
    }
    if fd >= k.procs[c].as_ref().unwrap().fd_table.len() {
        return -1;
    }
    match k.procs[c].as_ref().unwrap().fd_table[fd] {
        Some(FileDesc::Stdout) => {
            append_bytes(&mut k.console_out, data);
            proof {
                lemma_wf_ignores_console(s, k@);
                assert(k@ =~= KernelView { console_out: s.console_out + data@, ..s });
            }
            data.len() as isize
        },
        Some(FileDesc::File(i)) => {
            proof {
                assert(s.cur().fds[fd as int] == Some(FileDesc::File(i)));
            }
            let f = k.files[i];
            if !f.writable {
                return -1;
            }
            if data.len() == 0 {
                return 0;
            }
            proof {
                assert(1 <= f.ino < s.fs.data.len());
            }
            k.fs.write_at(f.ino, f.offset, data);
            k.files.set(i, OSInode { offset: f.offset + data.len(), ..f });
            proof {
                let t = k@;
                assert(t.procs =~= s.procs);
                assert(t.procs == s.procs.update(c as int, Some(s.cur())));
                assert(t.fs.wf()) by {
                    assert forall|ino: usize| 1 <= ino < t.fs.data.len() implies nlink_of(
                        #[trigger] t.fs.links[ino as int],
                    ) == crate::filesystem::name_count(t.fs.dir, ino) % 0x1_0000_0000 by {
                        assert(t.fs.links[ino as int] == s.fs.links[ino as int]);
                    }
                }
                lemma_step_wf(s, t, s.cur());
            }
            data.len() as isize
        },
        _ => -1,
    }
}

/// What read does: -1 for a descriptor that is not open or not readable. From
/// the console it takes the next typed byte; when none is pending the reader
/// is suspended, the first ready process runs, and the answer is
/// `CONSOLE_WOULD_BLOCK` (the reader repeats the read when it runs again);
/// from a file it reads from the handle's position up to
/// `len` bytes, stopping at the end, and moves the position past them. It
/// returns the number of bytes and the bytes.
pub open spec fn read_spec(s: KernelView, fd: usize, len: nat) -> (KernelView, int, Seq<u8>) {
    match desc_at(s, fd) {
        Some(FileDesc::Stdin) => if s.console_in.len() == 0 {
            (s.suspended().run_next(), CONSOLE_WOULD_BLOCK as int, Seq::empty())
        } else {
            (KernelView { console_in: s.console_in.drop_first(), ..s }, 1, seq![s.console_in[0]])
        },
        Some(FileDesc::File(k)) => {
            let f = s.files[k as int];
            if !f.readable {
                (s, -1, Seq::empty())
            } else {
                let bytes = read_range(s.fs.data[f.ino as int], f.offset as int, len as int);
                (
                    KernelView {
                        files: s.files.update(k as int, OSInode { offset: (f.offset + bytes.len()) as usize, ..f }),
                        ..s
                    },
                    bytes.len() as int,
                    bytes,
                )
            }
        },
        _ => (s, -1, Seq::empty()),
    }
}

/// Reads through descriptor `fd` into `buf`, at most `buf.len()` bytes; the
/// bytes read fill the front of `buf` and the rest of it stays as it was.
pub fn sys_read(k: &mut Kernel, fd: usize, buf: &mut Vec<u8>) -> (r: isize)
    requires
        old(k).wf(),
        old(k)@.current is Some,
        old(buf)@.len() <= isize::MAX,
        desc_at(old(k)@, fd) == Some(FileDesc::Stdin) ==> old(buf)@.len() == 1,
    ensures
        final(k).wf(),
        ({
            let (s, n, bytes) = read_spec(old(k)@, fd, old(buf)@.len());
            &&& final(k)@ == s
            &&& r as int == n
            &&& final(buf)@ == bytes + old(buf)@.skip(bytes.len() as int)
        }),
{
    let ghost s = k@;
    let c = k.current.unwrap();
    proof {
        assert(s.valid_pid(c as int));
        assert(k.procs@[c as int] is Some);
        assert(s.proc_wf(c as int));
    }
    if fd >= k.procs[c].as_ref().unwrap().fd_table.len() {
        assert(buf@ =~= Seq::<u8>::empty() + old(buf)@.skip(0));
        return -1;
    }
    match k.procs[c].as_ref().unwrap().fd_table[fd] {
        Some(FileDesc::Stdin) => {
            if k.console_in.len() == 0 {
                assert(buf@ =~= Seq::<u8>::empty() + old(buf)@.skip(0));
                k.suspend_current_and_run_next();
                return CONSOLE_WOULD_BLOCK;
            }
            let b = k.console_in.remove(0);
            buf.set(0, b);
            proof {
                lemma_wf_ignores_console(s, k@);
                assert(k@ =~= KernelView { console_in: s.console_in.drop_first(), ..s });
                assert(buf@ =~= seq![s.console_in[0]] + old(buf)@.skip(1));
            }
            1
        },
        Some(FileDesc::File(i)) => {
            proof {
                assert(s.cur().fds[fd as int] == Some(FileDesc::File(i)));
            }
            let f = k.files[i];
            if !f.readable {
                assert(buf@ =~= Seq::<u8>::empty() + old(buf)@.skip(0));
                return -1;
            }
            proof {
                assert(1 <= f.ino < s.fs.data.len());
            }
            proof {
                assert(k.fs.inodes@[f.ino as int].data.len() <= usize::MAX);
            }
            let bytes = k.fs.read_at(f.ino, f.offset, buf.len());
            let n = bytes.len();
            let mut j: usize = 0;
            while j < n
                invariant
                    j <= n == bytes@.len() <= old(buf)@.len(),
                    buf@.len() == old(buf)@.len(),
                    forall|m: int| 0 <= m < j ==> buf@[m] == bytes@[m],
                    forall|m: int| j <= m < buf@.len() ==> buf@[m] == old(buf)@[m],
                decreases n - j,
            {
                buf.set(j, bytes[j]);
                j = j + 1;
            }
            assert(buf@ =~= bytes@ + old(buf)@.skip(n as int));
            k.files.set(i, OSInode { offset: f.offset + n, ..f });
            proof {
                let t = k@;
                assert(t.procs =~= s.procs);
                assert(t.procs == s.procs.update(c as int, Some(s.cur())));
                lemma_step_wf(s, t, s.cur());
                assert(t =~= KernelView {
                    files: s.files.update(i as int, OSInode { offset: (f.offset + n) as usize, ..f }),
                    ..s
                });
            }
            n as isize
        },
        _ => {
            assert(buf@ =~= Seq::<u8>::empty() + old(buf)@.skip(0));
            -1
        },
    }
}

/// What open does: -1 when the file is missing and CREATE is not given;
/// otherwise the file is opened as the file system's `open` says, a new open
/// file at position 0 is installed at the lowest free descriptor, and that
/// descriptor is returned.
pub open spec fn open_spec(s: KernelView, path: Seq<u8>, flags: u32) -> (KernelView, int) {
    let (fs2, h) = s.fs.open(path, flags);
    match h {
        None => (s, -1),
        Some(f) => (
            KernelView { fs: fs2, files: s.files.push(f), ..s }.with_cur(
                cur_with_new_fd(s, FileDesc::File(s.files.len() as usize)),
            ),
            alloc_fd_spec(s.cur().fds),
        ),
    }
}

/// Stores `d` at a descriptor allocated in the current process and returns it.
fn install_in_current(k: &mut Kernel, d: FileDesc) -> (fd: usize)
    requires
        old(k).mem_wf(),
        old(k)@.current is Some,
        old(k)@.valid_pid(old(k)@.cur_pid()),
        old(k)@.cur().fds.len() < isize::MAX,
    ensures
        fd == alloc_fd_spec(old(k)@.cur().fds),
        fd < isize::MAX,
        final(k)@ == old(k)@.with_cur(cur_with_new_fd(old(k)@, d)),
        final(k).mem_wf(),
{
    let ghost s = k@;
    let c = k.current.unwrap();
    let mut p = k.take_current();
    let fd = p.alloc_fd();
    p.fd_table.set(fd, Some(d));
    let ghost pv = p@;
    k.store_current(p);
    proof {
        assert(pv.fds =~= install_fd(s.cur().fds, fd as int, d));
        assert(pv =~= cur_with_new_fd(s, d));
        assert(k@.procs =~= s.procs.update(c as int, Some(pv)));
        assert(k@ =~= s.with_cur(pv));
    }
    fd
}

/// Opens `path` with `flags` and returns the new descriptor, or -1.
pub fn sys_open(k: &mut Kernel, path: &Vec<u8>, flags: u32) -> (r: isize)
    requires
        old(k).wf(),
        old(k)@.current is Some,
        flags_known(flags),
        flags_create(flags) ==> path@.len() <= NAME_LENGTH_LIMIT && old(k)@.fs.data.len() + 1
            < usize::MAX,
        old(k)@.cur().fds.len() < isize::MAX,
    ensures
        final(k).wf(),
        (final(k)@, r as int) == open_spec(old(k)@, path@, flags),
{
    let ghost s = k@;
    proof {
        lemma_open_handle(s.fs, path@, flags);
    }
    match k.fs.open_file(path, flags) {
        None => {
            assert(k@ =~= s);
            -1
        },
        Some(inode) => {
            let idx = k.files.len();
            k.files.push(inode);
            let ghost mid = k@;
            proof {
                assert(mid.procs =~= s.procs);
                assert(mid.cur() == s.cur());
            }
            let fd = install_in_current(k, FileDesc::File(idx));
            proof {
                let p = cur_with_new_fd(s, FileDesc::File(idx));
                assert forall|f: int| 0 <= f < p.fds.len() implies (#[trigger] p.fds[f] matches Some(
                    FileDesc::File(j),
                ) ==> j < k@.files.len()) by {
                    if f != fd {
                        assert(s.proc_wf(s.cur_pid()));
                        assert(p.fds[f] == s.cur().fds[f]);
                    }
                }
                lemma_step_wf(s, k@, p);
            }
            fd as isize
        },
    }
}

/// What close does: -1 for a descriptor that is not open; otherwise it frees
/// the descriptor and returns 0.
pub open spec fn close_spec(s: KernelView, fd: usize) -> (KernelView, int) {
    if desc_at(s, fd) is None {
        (s, -1)
    } else {
        (s.with_cur(ProcView { fds: s.cur().fds.update(fd as int, None), ..s.cur() }), 0)
    }
}

/// Closes descriptor `fd`.
pub fn sys_close(k: &mut Kernel, fd: usize) -> (r: isize)
    requires
        old(k).wf(),
        old(k)@.current is Some,
    ensures
        final(k).wf(),
        (final(k)@, r as int) == close_spec(old(k)@, fd),
{
    let ghost s = k@;
    let c = k.current.unwrap();
    proof {
        assert(s.valid_pid(c as int));
        assert(k.procs@[c as int] is Some);
        assert(s.proc_wf(c as int));
    }
    if fd >= k.procs[c].as_ref().unwrap().fd_table.len() {
        return -1;
    }
    if k.procs[c].as_ref().unwrap().fd_table[fd].is_none() {
        return -1;
    }
    let mut p = k.take_current();
    p.fd_table.set(fd, None);
    let ghost pv = p@;
    k.store_current(p);
    proof {
        assert(k@.procs =~= s.procs.update(c as int, Some(pv)));
        assert(k@ =~= s.with_cur(pv));
        assert forall|f: int| 0 <= f < pv.fds.len() implies (#[trigger] pv.fds[f] matches Some(
            FileDesc::File(j),
        ) ==> j < s.files.len()) by {
            if f != fd {
                assert(pv.fds[f] == s.cur().fds[f]);
            }
        }
        lemma_with_cur_wf(s, pv);
    }
    0
}

/// The status fstat reports for descriptor `fd`: device 0, the inode's number,
/// a regular file, and the inode's number of names.
pub open spec fn fstat_spec(s: KernelView, fd: usize) -> Stat {
    let f = s.files[desc_at(s, fd).unwrap()->File_0 as int];
    Stat { dev: 0, ino: f.ino as u64, mode: StatMode::File, nlink: nlink_of(s.fs.links[f.ino as int]) as u32 }
}

/// The status of the file open at descriptor `fd`, which must be an open file.
pub fn sys_fstat(k: &Kernel, fd: usize) -> (r: (isize, Stat))
    requires
        k.wf(),
        k@.current is Some,
        desc_at(k@, fd) matches Some(FileDesc::File(_)),
    ensures
        r.0 == 0,
        r.1 == fstat_spec(k@, fd),
{
    let c = k.current.unwrap();
    proof {
        assert(k@.valid_pid(c as int));
        assert(k.procs@[c as int] is Some);
        assert(k@.proc_wf(c as int));
    }
    let i = match k.procs[c].as_ref().unwrap().fd_table[fd] {
        Some(FileDesc::File(i)) => i,
        _ => {
            assert(false);
            0
        },
    };
    proof {
        assert(k@.cur().fds[fd as int] == Some(FileDesc::File(i)));
    }
    let f = k.files[i];
    let link_num = k.fs.inodes[f.ino].link_num;
    let st = Stat { dev: 0, ino: f.ino as u64, mode: StatMode::File, nlink: link_num.wrapping_add(1) };
    (0, st)
}

/// What linkat does: when `old_name` names a file, a new entry `new_name` for
/// the same inode is added, one more link is counted, and a new read-write
/// open file on it is installed at the lowest free descriptor. It returns 0
/// whether or not `old_name` exists.
pub open spec fn linkat_spec(s: KernelView, old_name: Seq<u8>, new_name: Seq<u8>) -> (KernelView, int) {
    match s.fs.lookup(old_name) {
        None => (s, 0),
        Some(ino) => (
            KernelView {
                fs: s.fs.linked(new_name, ino),
                files: s.files.push(OSInode { readable: true, writable: true, ino, offset: 0 }),
                ..s
            }.with_cur(cur_with_new_fd(s, FileDesc::File(s.files.len() as usize))),
            0,
        ),
    }
}

/// Gives the file `old_name` the further name `new_name`.
pub fn sys_linkat(k: &mut Kernel, old_name: &Vec<u8>, new_name: &Vec<u8>) -> (r: isize)
    requires
        old(k).wf(),
        old(k)@.current is Some,
        old(k)@.fs.lookup(old_name@) is Some ==> new_name@.len() <= NAME_LENGTH_LIMIT
            && old(k)@.cur().fds.len() < isize::MAX,
    ensures
        final(k).wf(),
        (final(k)@, r as int) == linkat_spec(old(k)@, old_name@, new_name@),
{
    let ghost s = k@;
    proof {
        assert(!flags_create(RDWR) && !crate::filesystem::flags_trunc(RDWR)) by (bit_vector);
        lemma_open_handle(s.fs, old_name@, RDWR);
        lemma_lookup_in_range(s.fs, old_name@);
    }
    if let Some(a) = k.fs.open_file(old_name, RDWR) {
        let ino = a.ino;
        k.fs.create_link(new_name, ino);
        let idx = k.files.len();
        k.files.push(OSInode { readable: true, writable: true, ino, offset: 0 });
        let ghost mid = k@;
        proof {
            assert(mid.procs =~= s.procs);
            assert(mid.cur() == s.cur());
        }
        let _fd = install_in_current(k, FileDesc::File(idx));
        k.fs.add_nlink(ino);
        proof {
            let p = cur_with_new_fd(s, FileDesc::File(idx));
            lemma_linked_wf(s.fs, new_name@, ino);
            assert(k@.fs =~= s.fs.linked(new_name@, ino));
            assert forall|f: int| 0 <= f < p.fds.len() implies (#[trigger] p.fds[f] matches Some(
                FileDesc::File(j),
            ) ==> j < k@.files.len()) by {
                if f != _fd {
                    assert(s.proc_wf(s.cur_pid()));
                    assert(p.fds[f] == s.cur().fds[f]);
                }
            }
            lemma_step_wf(s, k@, p);
            assert(k@ =~= KernelView {
                fs: s.fs.linked(new_name@, ino),
                files: s.files.push(OSInode { readable: true, writable: true, ino, offset: 0 }),
                ..s
            }.with_cur(p));
        }
    } else {
        assert(k@ =~= s);
    }
    0
}

/// What unlinkat does: when `name` names a file, its first entry is removed
/// and one link fewer is counted. It returns 0 whether or not `name` exists.
pub open spec fn unlinkat_spec(s: KernelView, name: Seq<u8>) -> (KernelView, int) {
    (KernelView { fs: s.fs.unlinked(name), ..s }, 0)
}

/// Removes the name `name`.
pub fn sys_unlinkat(k: &mut Kernel, name: &Vec<u8>) -> (r: isize)
    requires
        old(k).wf(),
        old(k)@.current is Some,
    ensures
        final(k).wf(),
        (final(k)@, r as int) == unlinkat_spec(old(k)@, name@),
{
    let ghost s = k@;
    proof {
        assert(!flags_create(RDWR) && !crate::filesystem::flags_trunc(RDWR)) by (bit_vector);
        lemma_open_handle(s.fs, name@, RDWR);
        lemma_lookup_in_range(s.fs, name@);
        lemma_unlinked_wf(s.fs, name@);
    }
    if let Some(a) = k.fs.open_file(name, RDWR) {
        k.fs.sub_nlink(a.ino);
        k.fs.un_link(name);
        proof {
            assert(s.fs.lookup(name@) == Some(a.ino));
            assert(k@.fs =~= s.fs.unlinked(name@));
            assert(k@.procs =~= s.procs);
            assert(k@.procs == s.procs.update(s.cur_pid(), Some(s.cur())));
            lemma_step_wf(s, k@, s.cur());
        }
    } else {
        proof {
            assert(s.fs.unlinked(name@) == s.fs);
        }
    }
    assert(k@ =~= KernelView { fs: s.fs.unlinked(name@), ..s });
    0
}

} // verus!
