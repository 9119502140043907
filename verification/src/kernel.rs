//! The kernel state the syscalls act on: the file system, the open files, the
//! processes indexed by pid, the scheduler's queue and the console.
use vstd::prelude::*;
use crate::filesystem::{FileSystem, FsView, OSInode};
use crate::mm::{AddressSpace, MapPermission, reserved_pages};
use crate::task::TaskStatus;

verus! {

/// Priority a new process starts with.
pub const DEFAULT_PRIORITY: isize = 16;

/// What a file descriptor refers to.
#[derive(Clone, Copy, Debug, PartialEq, Eq, Structural)]
pub enum FileDesc {
    Stdin,
    Stdout,
    /// An entry of the kernel's table of open files.
    File(usize),
}

/// The user registers x0 to x31 saved on a trap.
#[derive(Clone, Copy)]
pub struct TrapContext {
    pub x: [usize; 32],
}

impl TrapContext {
    pub fn zeroed() -> (r: Self)
        ensures
            r.x@ == Seq::new(32, |i: int| 0usize),
    {
        let r = TrapContext { x: [0; 32] };
        assert(r.x@ =~= Seq::new(32, |i: int| 0usize));
        r
    }
}

/// A process. Loading its program image (segments, entry point, stack) is left
/// to the loader; the model keeps the image bytes, the registers, and the page
/// map: the reserved trampoline and trap-context pages every address space
/// has, and the pages that mmap, munmap and sbrk manage.
pub struct Process {
    pub parent: Option<usize>,
    pub children: Vec<usize>,
    pub status: TaskStatus,
    pub exit_code: i32,
    pub fd_table: Vec<Option<FileDesc>>,
    pub memory: AddressSpace,
    pub heap_bottom: usize,
    pub program_brk: usize,
    pub priority: isize,
    pub image: Vec<u8>,
    pub trap_cx: TrapContext,
}

#[verifier::ext_equal]
pub struct ProcView {
    pub parent: Option<usize>,
    pub children: Seq<usize>,
    pub status: TaskStatus,
    pub exit_code: i32,
    pub fds: Seq<Option<FileDesc>>,
    pub pages: Map<usize, MapPermission>,
    pub heap_bottom: usize,
    pub program_brk: usize,
    pub priority: isize,
    pub image: Seq<u8>,
    pub regs: Seq<usize>,
}

impl View for Process {
    type V = ProcView;

    open spec fn view(&self) -> ProcView {
        ProcView {
            parent: self.parent,
            children: self.children@,
            status: self.status,
            exit_code: self.exit_code,
            fds: self.fd_table@,
            pages: self.memory@,
            heap_bottom: self.heap_bottom,
            program_brk: self.program_brk,
            priority: self.priority,
            image: self.image@,
            regs: self.trap_cx.x@,
        }
    }
}

pub open spec fn proc_view_of(o: Option<Process>) -> Option<ProcView> {
    match o {
        Some(p) => Some(p@),
        None => None,
    }
}

impl Process {
    /// Finds the lowest free descriptor slot, adding one at the end when none is free.
    pub fn alloc_fd(&mut self) -> (fd: usize)
        requires
            old(self).fd_table@.len() < usize::MAX,
        ensures
            fd == alloc_fd_spec(old(self)@.fds),
            fd < final(self)@.fds.len(),
            final(self).memory == old(self).memory,
            final(self)@ == (ProcView {
                fds: if fd < old(self)@.fds.len() {
                    old(self)@.fds
                } else {
                    old(self)@.fds.push(None)
                },
                ..old(self)@
            }),
    {
        let mut i: usize = 0;
        while i < self.fd_table.len()
            invariant
                i <= self.fd_table@.len(),
                self@ == old(self)@,
                forall|j: int| 0 <= j < i ==> #[trigger] self.fd_table@[j] is Some,
            decreases self.fd_table@.len() - i,
        {
            if self.fd_table[i].is_none() {
                proof {
                    let fds = self@.fds;
                    assert(is_first_free(fds, i as int));
                    let c = choose|c: int| is_first_free(fds, c);
                    if c < i {
                        assert(fds[c] is Some);
                    } else if i < c {
                        assert(fds[i as int] is Some);
                    }
                }
                return i;
            }
            i = i + 1;
        }
        proof {
            assert forall|c: int| !is_first_free(self@.fds, c) by {
                if is_first_free(self@.fds, c) {
                    assert(self.fd_table@[c] is Some);
                }
            }
        }
        self.fd_table.push(None);
        self.fd_table.len() - 1
    }
}

/// Every process in `v` has a well-formed page map.
pub open spec fn procs_mem_wf(v: Seq<Option<Process>>) -> bool {
    forall|pid: int|
        0 <= pid < v.len() && #[trigger] v[pid] is Some ==> v[pid].unwrap().memory.wf()
}

/// Storing a process with a well-formed page map, or nothing, in a slot keeps
/// every page map well formed.
pub proof fn lemma_mem_wf_set(v: Seq<Option<Process>>, i: int, o: Option<Process>)
    requires
        procs_mem_wf(v),
        0 <= i < v.len(),
        o matches Some(p) ==> p.memory.wf(),
    ensures
        procs_mem_wf(v.update(i, o)),
{
    assert forall|pid: int|
        0 <= pid < v.len() && #[trigger] v.update(i, o)[pid] is Some implies v.update(i, o)[pid].unwrap().memory.wf() by {
        if pid != i {
            assert(v.update(i, o)[pid] == v[pid]);
        }
    }
}

pub open spec fn procs_view(v: Seq<Option<Process>>) -> Seq<Option<ProcView>> {
    v.map_values(|o: Option<Process>| proc_view_of(o))
}

/// Storing a process in a slot updates the view at that slot.
pub proof fn lemma_procs_view_set(v: Seq<Option<Process>>, i: int, o: Option<Process>)
    requires
        0 <= i < v.len(),
    ensures
        procs_view(v.update(i, o)) == procs_view(v).update(i, proc_view_of(o)),
{
    assert(procs_view(v.update(i, o)) =~= procs_view(v).update(i, proc_view_of(o)));
}

/// Slot `i` is the lowest free descriptor slot.
pub open spec fn is_first_free(fds: Seq<Option<FileDesc>>, i: int) -> bool {
    &&& 0 <= i < fds.len()
    &&& fds[i] is None
    &&& forall|j: int| 0 <= j < i ==> #[trigger] fds[j] is Some
}

/// The descriptor a new file gets: the lowest free slot, or a new slot at the end.
pub open spec fn alloc_fd_spec(fds: Seq<Option<FileDesc>>) -> int {
    if exists|i: int| is_first_free(fds, i) {
        choose|i: int| is_first_free(fds, i)
    } else {
        fds.len() as int
    }
}

/// The table with `d` stored at `fd` (a free slot, or one past the end).
pub open spec fn install_fd(fds: Seq<Option<FileDesc>>, fd: int, d: FileDesc) -> Seq<Option<FileDesc>> {
    if fd < fds.len() {
        fds.update(fd, Some(d))
    } else {
        fds.push(Some(d))
    }
}

/// The state `Kernel::new` builds: process 0 runs `image` with the standard
/// descriptors, only the reserved pages, no heap, zeroed registers and the default priority,
/// over a file system holding only the empty root; nothing else exists.
pub open spec fn initial_view(image: Seq<u8>) -> KernelView {
    KernelView {
        fs: FsView { data: seq![Seq::empty()], links: seq![0u32], dir: Seq::empty() },
        files: Seq::empty(),
        procs: seq![
            Some(
                ProcView {
                    parent: None,
                    children: Seq::empty(),
                    status: TaskStatus::Running,
                    exit_code: 0,
                    fds: standard_fds(),
                    pages: reserved_pages(),
                    heap_bottom: 0,
                    program_brk: 0,
                    priority: DEFAULT_PRIORITY,
                    image,
                    regs: zero_regs(),
                },
            ),
        ],
        current: Some(0),
        ready: Seq::empty(),
        recycled: Seq::empty(),
        console_in: Seq::empty(),
        console_out: Seq::empty(),
    }
}

/// Registers all zero.
pub open spec fn zero_regs() -> Seq<usize> {
    Seq::new(32, |i: int| 0usize)
}

/// Appending a process slot appends to the view.
pub proof fn lemma_procs_view_push(v: Seq<Option<Process>>, o: Option<Process>)
    ensures
        procs_view(v.push(o)) == procs_view(v).push(proc_view_of(o)),
{
    assert(procs_view(v.push(o)) =~= procs_view(v).push(proc_view_of(o)));
}

/// A copy of a descriptor table.
pub fn copy_fds(fds: &Vec<Option<FileDesc>>) -> (r: Vec<Option<FileDesc>>)
    ensures
        r@ == fds@,
{
    let mut r: Vec<Option<FileDesc>> = Vec::new();
    let mut i: usize = 0;
    while i < fds.len()
        invariant
            i <= fds@.len(),
            r@ == fds@.subrange(0, i as int),
        decreases fds@.len() - i,
    {
        r.push(fds[i]);
        i = i + 1;
        assert(r@ =~= fds@.subrange(0, i as int));
    }
    assert(r@ =~= fds@);
    r
}

/// The standard descriptors a new process starts with: stdin, stdout, stderr.
pub open spec fn standard_fds() -> Seq<Option<FileDesc>> {
    seq![Some(FileDesc::Stdin), Some(FileDesc::Stdout), Some(FileDesc::Stdout)]
}

pub struct Kernel {
    pub fs: FileSystem,
    pub files: Vec<OSInode>,
    /// Slot `pid` holds the process with that pid; freed pids hold `None`.
    pub procs: Vec<Option<Process>>,
    pub current: Option<usize>,
    /// Pids ready to run, in the order they run.
    pub ready: Vec<usize>,
    /// Freed pids; the last one is handed out first.
    pub recycled: Vec<usize>,
    /// Console bytes typed and not yet read.
    pub console_in: Vec<u8>,
    /// Bytes written to the console.
    pub console_out: Vec<u8>,
}

#[verifier::ext_equal]
pub struct KernelView {
    pub fs: FsView,
    pub files: Seq<OSInode>,
    pub procs: Seq<Option<ProcView>>,
    pub current: Option<usize>,
    pub ready: Seq<usize>,
    pub recycled: Seq<usize>,
    pub console_in: Seq<u8>,
    pub console_out: Seq<u8>,
}

impl View for Kernel {
    type V = KernelView;

    open spec fn view(&self) -> KernelView {
        KernelView {
            fs: self.fs@,
            files: self.files@,
            procs: procs_view(self.procs@),
            current: self.current,
            ready: self.ready@,
            recycled: self.recycled@,
            console_in: self.console_in@,
            console_out: self.console_out@,
        }
    }
}

impl KernelView {
    /// The current process stops running and joins the back of the ready queue.
    pub open spec fn suspended(self) -> KernelView {
        KernelView {
            current: None,
            ready: self.ready.push(self.current.unwrap()),
            procs: self.procs.update(
                self.cur_pid(),
                Some(ProcView { status: TaskStatus::Ready, ..self.cur() }),
            ),
            ..self
        }
    }

    /// The scheduler takes the first ready process, if any, and runs it.
    pub open spec fn run_next(self) -> KernelView {
        if self.ready.len() == 0 {
            self
        } else {
            let n = self.ready[0];
            KernelView {
                current: Some(n),
                ready: self.ready.drop_first(),
                procs: self.procs.update(
                    n as int,
                    Some(ProcView { status: TaskStatus::Running, ..self.proc_at(n as int) }),
                ),
                ..self
            }
        }
    }

    /// The pid a new process gets: the last freed one, else the next unused one.
    pub open spec fn alloc_pid(self) -> int {
        if self.recycled.len() > 0 {
            self.recycled.last() as int
        } else {
            self.procs.len() as int
        }
    }

    /// `child` added under the pid `alloc_pid` gives, as the last child of the
    /// current process and at the back of the ready queue.
    pub open spec fn with_child(self, child: ProcView) -> KernelView {
        let pid = self.alloc_pid();
        let procs1 = if pid < self.procs.len() {
            self.procs.update(pid, Some(child))
        } else {
            self.procs.push(Some(child))
        };
        KernelView {
            procs: procs1.update(
                self.cur_pid(),
                Some(ProcView { children: self.cur().children.push(pid as usize), ..self.cur() }),
            ),
            ready: self.ready.push(pid as usize),
            recycled: if self.recycled.len() > 0 {
                self.recycled.drop_last()
            } else {
                self.recycled
            },
            ..self
        }
    }

    pub open spec fn valid_pid(self, pid: int) -> bool {
        0 <= pid < self.procs.len() && self.procs[pid] is Some
    }

    pub open spec fn proc_at(self, pid: int) -> ProcView {
        self.procs[pid].unwrap()
    }

    /// The current process.
    pub open spec fn cur(self) -> ProcView {
        self.proc_at(self.current.unwrap() as int)
    }

    pub open spec fn cur_pid(self) -> int {
        self.current.unwrap() as int
    }

    /// The current process replaced by `p`.
    pub open spec fn with_cur(self, p: ProcView) -> KernelView {
        KernelView { procs: self.procs.update(self.cur_pid(), Some(p)), ..self }
    }

    pub open spec fn proc_wf(self, pid: int) -> bool {
        let p = self.proc_at(pid);
        &&& forall|fd: int|
            0 <= fd < p.fds.len() ==> (#[trigger] p.fds[fd] matches Some(FileDesc::File(k)) ==> k
                < self.files.len())
        &&& p.children.no_duplicates()
        &&& forall|i: int|
            0 <= i < p.children.len() ==> {
                &&& self.valid_pid(#[trigger] p.children[i] as int)
                &&& p.children[i] != pid
                &&& self.proc_at(p.children[i] as int).parent == Some(pid as usize)
            }
        &&& p.parent matches Some(q) ==> self.valid_pid(q as int) && self.proc_at(
            q as int,
        ).children.contains(pid as usize)
        &&& p.status == TaskStatus::Exited ==> p.children.len() == 0
        &&& p.heap_bottom <= p.program_brk
        &&& p.regs.len() == 32
    }

    pub open spec fn wf(self) -> bool {
        &&& self.fs.wf()
        &&& forall|k: int|
            0 <= k < self.files.len() ==> 1 <= #[trigger] self.files[k].ino < self.fs.data.len()
        &&& self.procs.len() <= isize::MAX
        &&& self.valid_pid(0)
        &&& self.proc_at(0).parent is None
        &&& self.proc_at(0).status != TaskStatus::Exited
        &&& forall|pid: int| #[trigger] self.valid_pid(pid) ==> self.proc_wf(pid)
        &&& self.current matches Some(c) ==> self.valid_pid(c as int) && self.proc_at(c as int).status
            == TaskStatus::Running
        &&& self.ready.no_duplicates()
        &&& forall|i: int|
            0 <= i < self.ready.len() ==> self.valid_pid(#[trigger] self.ready[i] as int)
                && self.proc_at(self.ready[i] as int).status == TaskStatus::Ready
        &&& self.recycled.no_duplicates()
        &&& forall|i: int|
            0 <= i < self.recycled.len() ==> #[trigger] self.recycled[i] < self.procs.len()
                && self.procs[self.recycled[i] as int] is None
    }
}

impl Kernel {
    pub open spec fn wf(&self) -> bool {
        &&& self@.wf()
        &&& self.mem_wf()
    }

    /// Every process's page map is well formed.
    pub open spec fn mem_wf(&self) -> bool {
        procs_mem_wf(self.procs@)
    }

    /// A kernel whose only process, pid 0, runs `init_image`, over an empty file system.
    pub fn new(init_image: Vec<u8>) -> (r: Self)
        ensures
            r.wf(),
            r@ == initial_view(init_image@),
    {
        let mut fd_table: Vec<Option<FileDesc>> = Vec::new();
        fd_table.push(Some(FileDesc::Stdin));
        fd_table.push(Some(FileDesc::Stdout));
        fd_table.push(Some(FileDesc::Stdout));
        let init = Process {
            parent: None,
            children: Vec::new(),
            status: TaskStatus::Running,
            exit_code: 0,
            fd_table,
            memory: AddressSpace::new_user(),
            heap_bottom: 0,
            program_brk: 0,
            priority: DEFAULT_PRIORITY,
            image: init_image,
            trap_cx: TrapContext::zeroed(),
        };
        let mut procs: Vec<Option<Process>> = Vec::new();
        procs.push(Some(init));
        let r = Kernel {
            fs: FileSystem::new(),
            files: Vec::new(),
            procs,
            current: Some(0),
            ready: Vec::new(),
            recycled: Vec::new(),
            console_in: Vec::new(),
            console_out: Vec::new(),
        };
        assert(r@.cur().fds =~= standard_fds());
        assert(r@.fs.data =~= seq![Seq::<u8>::empty()]);
        assert(r@.procs =~= initial_view(init_image@).procs);
        assert(r@ =~= initial_view(init_image@));
        r
    }

    /// Pid of the current process.
    pub fn current_pid(&self) -> (r: usize)
        requires
            self@.current is Some,
        ensures
            r == self@.cur_pid(),
    {
        self.current.unwrap()
    }

    /// Adds `child` as a ready child of the current process under the pid
    /// `alloc_pid` gives, and returns that pid.
    pub fn add_child(&mut self, child: Process) -> (pid: usize)
        requires
            old(self).wf(),
            old(self)@.current is Some,
            old(self)@.recycled.len() > 0 || old(self)@.procs.len() < isize::MAX,
            child.memory.wf(),
            child@.parent == Some(old(self)@.current.unwrap()),
            child@.children.len() == 0,
            child@.status == TaskStatus::Ready,
            forall|fd: int|
                0 <= fd < child@.fds.len() ==> (#[trigger] child@.fds[fd] matches Some(
                    FileDesc::File(k),
                ) ==> k < old(self)@.files.len()),
            child@.heap_bottom <= child@.program_brk,
            child@.regs.len() == 32,
        ensures
            final(self).wf(),
            pid == old(self)@.alloc_pid(),
            final(self)@ == old(self)@.with_child(child@),
    {
        let ghost s = self@;
        let ghost cv = child@;
        let c = self.current.unwrap();
        proof {
            assert(s.valid_pid(c as int));
            assert(self.procs@[c as int] is Some);
        }
        let ghost procs00 = self.procs@;
        let pid = if self.recycled.len() > 0 {
            let pid = self.recycled.pop().unwrap();
            proof {
                assert(s.recycled[s.recycled.len() - 1] == pid);
                assert(pid < self.procs@.len());
            }
            self.procs.set(pid, Some(child));
            proof {
                lemma_procs_view_set(procs00, pid as int, Some(child));
                lemma_mem_wf_set(procs00, pid as int, Some(child));
            }
            pid
        } else {
            let pid = self.procs.len();
            self.procs.push(Some(child));
            proof {
                lemma_procs_view_push(procs00, Some(child));
                assert forall|q: int|
                    0 <= q < self.procs@.len() && #[trigger] self.procs@[q] is Some implies self.procs@[q].unwrap().memory.wf() by {
                    if q < procs00.len() {
                        assert(self.procs@[q] == procs00[q]);
                    }
                }
            }
            pid
        };
        let ghost procs0 = self.procs@;
        proof {
            assert(pid != c) by {
                if s.recycled.len() > 0 {
                    assert(s.procs[pid as int] is None);
                }
            }
        }
        let mut p = self.procs[c].take().unwrap();
        p.children.push(pid);
        let ghost pv = p@;
        self.procs.set(c, Some(p));
        self.ready.push(pid);
        proof {
            lemma_procs_view_set(procs0.update(c as int, None), c as int, Some(p));
            assert(self@.procs =~= s.with_child(cv).procs);
            assert(self@.recycled =~= s.with_child(cv).recycled);
            assert(self@ =~= s.with_child(cv));
            lemma_with_child_wf(s, cv);
            lemma_mem_wf_set(procs0, c as int, Some(p));
            assert(self.procs@ =~= procs0.update(c as int, Some(p)));
        }
        pid
    }

    /// Takes the current process out of its slot, leaving the slot empty.
    pub(crate) fn take_current(&mut self) -> (p: Process)
        requires
            old(self).mem_wf(),
            old(self)@.current is Some,
            old(self)@.valid_pid(old(self)@.cur_pid()),
        ensures
            final(self).procs@ == old(self).procs@.update(old(self)@.cur_pid(), None),
            p@ == old(self)@.cur(),
            p.memory.wf(),
            final(self)@ == (KernelView {
                procs: old(self)@.procs.update(old(self)@.cur_pid(), None),
                ..old(self)@
            }),
            final(self).procs@.len() == old(self).procs@.len(),
            final(self).mem_wf(),
    {
        let ghost s = self@;
        let c = self.current.unwrap();
        proof {
            assert(self.procs@[c as int] is Some);
        }
        let ghost procs0 = self.procs@;
        let p = self.procs[c].take().unwrap();
        proof {
            lemma_procs_view_set(procs0, c as int, None);
            lemma_mem_wf_set(procs0, c as int, None);
            assert(self.procs@ =~= procs0.update(c as int, None));
            assert(self@ =~= KernelView { procs: s.procs.update(c as int, None), ..s });
        }
        p
    }

    /// Puts `p` in the current process's slot.
    pub(crate) fn store_current(&mut self, p: Process)
        requires
            old(self)@.current is Some,
            old(self)@.cur_pid() < old(self).procs@.len(),
            old(self).mem_wf(),
            p.memory.wf(),
        ensures
            final(self).procs@ == old(self).procs@.update(old(self)@.cur_pid(), Some(p)),
            final(self)@ == (KernelView {
                procs: old(self)@.procs.update(old(self)@.cur_pid(), Some(p@)),
                ..old(self)@
            }),
            final(self).mem_wf(),
    {
        let ghost s = self@;
        let c = self.current.unwrap();
        let ghost procs0 = self.procs@;
        self.procs.set(c, Some(p));
        proof {
            lemma_procs_view_set(procs0, c as int, Some(p));
            lemma_mem_wf_set(procs0, c as int, Some(p));
            assert(self@ =~= KernelView { procs: s.procs.update(c as int, Some(p@)), ..s });
        }
    }

    /// The current process goes to the back of the ready queue and the first
    /// ready process runs.
    pub fn suspend_current_and_run_next(&mut self)
        requires
            old(self).wf(),
            old(self)@.current is Some,
        ensures
            final(self).wf(),
            final(self)@ == old(self)@.suspended().run_next(),
    {
        let ghost s = self@;
        let c = self.current.unwrap();
        let mut p = self.take_current();
        p.status = TaskStatus::Ready;
        self.store_current(p);
        self.current = None;
        self.ready.push(c);
        proof {
            assert(self@.procs =~= s.procs.update(c as int, Some(p@)));
            assert(self@ =~= s.suspended());
            lemma_suspended_wf(s);
        }
        self.run_next();
    }

    /// Takes the first ready process, if any, and makes it the running one.
    pub fn run_next(&mut self)
        requires
            old(self).wf(),
            old(self)@.current is None,
        ensures
            final(self).wf(),
            final(self)@ == old(self)@.run_next(),
    {
        if self.ready.len() == 0 {
            return;
        }
        let ghost s = self@;
        let n = self.ready.remove(0);
        proof {
            assert(s.valid_pid(n as int));
            assert(self.procs@[n as int] is Some);
        }
        let ghost procs0 = self.procs@;
        let mut p = self.procs[n].take().unwrap();
        p.status = TaskStatus::Running;
        let ghost pv = p@;
        self.procs.set(n, Some(p));
        self.current = Some(n);
        proof {
            lemma_procs_view_set(procs0.update(n as int, None), n as int, Some(p));
            assert(self@.procs =~= s.procs.update(n as int, Some(pv)));
            assert(self@.ready =~= s.ready.drop_first());
            assert(self@ =~= s.run_next());
            lemma_run_next_wf(s);
            lemma_mem_wf_set(procs0, n as int, Some(p));
            assert(self.procs@ =~= procs0.update(n as int, Some(p)));
        }
    }

    /// Appends bytes typed at the console.
    pub fn push_console_input(&mut self, bytes: &Vec<u8>)
        requires
            old(self).wf(),
        ensures
            final(self).wf(),
            final(self)@ == (KernelView { console_in: old(self)@.console_in + bytes@, ..old(self)@ }),
    {
        let mut i: usize = 0;
        while i < bytes.len()
            invariant
                i <= bytes@.len(),
                old(self).wf(),
                self.wf(),
                self@ == (KernelView { console_in: old(self)@.console_in + bytes@.subrange(0, i as int), ..old(self)@ }),
            decreases bytes@.len() - i,
        {
            self.console_in.push(bytes[i]);
            i = i + 1;
            assert(self@.console_in =~= old(self)@.console_in + bytes@.subrange(0, i as int));
            assert(self@.procs =~= old(self)@.procs);
            proof {
                lemma_wf_ignores_console(old(self)@, self@);
            }
        }
        assert(bytes@.subrange(0, i as int) =~= bytes@);
    }

    /// Hands out the bytes written to the console and forgets them.
    pub fn take_console_output(&mut self) -> (r: Vec<u8>)
        requires
            old(self).wf(),
        ensures
            final(self).wf(),
            r@ == old(self)@.console_out,
            final(self)@ == (KernelView { console_out: Seq::empty(), ..old(self)@ }),
    {
        let mut r: Vec<u8> = Vec::new();
        std::mem::swap(&mut r, &mut self.console_out);
        assert(self@.procs =~= old(self)@.procs);
        proof {
            lemma_wf_ignores_console(old(self)@, self@);
        }
        assert(self@.console_out =~= Seq::<u8>::empty());
        r
    }
}

/// Well-formedness does not look at the console.
pub proof fn lemma_wf_ignores_console(s: KernelView, t: KernelView)
    requires
        s.wf(),
        t.fs == s.fs,
        t.files == s.files,
        t.procs == s.procs,
        t.current == s.current,
        t.ready == s.ready,
        t.recycled == s.recycled,
    ensures
        t.wf(),
{
    assert forall|pid: int| #[trigger] t.valid_pid(pid) implies t.proc_wf(pid) by {
        assert(s.valid_pid(pid));
        assert(s.proc_wf(pid));
        let q = t.proc_at(pid);
        assert forall|i: int| 0 <= i < q.children.len() implies {
            &&& t.valid_pid(#[trigger] q.children[i] as int)
            &&& q.children[i] != pid
            &&& t.proc_at(q.children[i] as int).parent == Some(pid as usize)
        } by {
            assert(s.valid_pid(q.children[i] as int));
        }
    }
    assert forall|i: int| 0 <= i < t.ready.len() implies t.valid_pid(#[trigger] t.ready[i] as int)
        && t.proc_at(t.ready[i] as int).status == TaskStatus::Ready by {
        assert(s.valid_pid(s.ready[i] as int));
    }
}

/// Adding a ready child of the current process keeps the kernel well formed.
pub proof fn lemma_with_child_wf(s: KernelView, child: ProcView)
    requires
        s.wf(),
        s.current is Some,
        s.recycled.len() > 0 || s.procs.len() < isize::MAX,
        child.parent == Some(s.current.unwrap()),
        child.children.len() == 0,
        child.status == TaskStatus::Ready,
        forall|fd: int|
            0 <= fd < child.fds.len() ==> (#[trigger] child.fds[fd] matches Some(FileDesc::File(k))
                ==> k < s.files.len()),
        child.heap_bottom <= child.program_brk,
        child.regs.len() == 32,
    ensures
        s.with_child(child).wf(),
{
    let t = s.with_child(child);
    let c = s.cur_pid();
    let pid = s.alloc_pid();
    if s.recycled.len() > 0 {
        assert(s.recycled[s.recycled.len() - 1] == s.recycled.last());
        assert(!s.valid_pid(pid));
    }
    assert(s.valid_pid(c));
    assert(c != pid);
    assert forall|q: int| #[trigger] t.valid_pid(q) implies t.proc_wf(q) by {
        if q != pid {
            assert(s.valid_pid(q));
            assert(s.proc_wf(q));
            let w = t.proc_at(q);
            assert forall|i: int| 0 <= i < w.children.len() implies {
                &&& t.valid_pid(#[trigger] w.children[i] as int)
                &&& w.children[i] != q
                &&& t.proc_at(w.children[i] as int).parent == Some(q as usize)
            } by {
                if q == c && i == w.children.len() - 1 {
                } else {
                    assert(w.children[i] == s.proc_at(q).children[i]);
                    assert(s.valid_pid(w.children[i] as int));
                }
            }
            if q == c {
                assert(w.children.no_duplicates()) by {
                    assert forall|i: int, j: int| 0 <= i < j < w.children.len() implies w.children[i]
                        != w.children[j] by {
                        if j == w.children.len() - 1 {
                            assert(s.valid_pid(w.children[i] as int));
                        }
                    }
                }
            }
            if let Some(x) = w.parent {
                assert(s.valid_pid(x as int));
                let sx = s.proc_at(x as int).children;
                let j = choose|j: int| 0 <= j < sx.len() && sx[j] == q as usize;
                assert(t.proc_at(x as int).children[j] == q as usize);
            }
        } else {
            let cc = t.proc_at(c).children;
            assert(cc[cc.len() - 1] == pid as usize);
        }
    }
    assert forall|i: int| 0 <= i < t.ready.len() implies t.valid_pid(#[trigger] t.ready[i] as int)
        && t.proc_at(t.ready[i] as int).status == TaskStatus::Ready by {
        if i < s.ready.len() {
            assert(s.valid_pid(s.ready[i] as int));
        }
    }
    assert(t.ready.no_duplicates()) by {
        assert forall|i: int, j: int| 0 <= i < j < t.ready.len() implies t.ready[i] != t.ready[j] by {
            if j == s.ready.len() {
                assert(s.valid_pid(s.ready[i] as int));
            }
        }
    }
    assert forall|i: int| 0 <= i < t.recycled.len() implies #[trigger] t.recycled[i] < t.procs.len()
        && t.procs[t.recycled[i] as int] is None by {
        assert(t.recycled[i] == s.recycled[i]);
        assert(s.recycled[i] != s.recycled[s.recycled.len() - 1]);
    }
    assert(t.recycled.no_duplicates()) by {
        assert forall|i: int, j: int| 0 <= i < j < t.recycled.len() implies t.recycled[i]
            != t.recycled[j] by {
            assert(t.recycled[i] == s.recycled[i]);
            assert(t.recycled[j] == s.recycled[j]);
        }
    }
}

/// Suspending the current process keeps the kernel well formed.
pub proof fn lemma_suspended_wf(s: KernelView)
    requires
        s.wf(),
        s.current is Some,
    ensures
        s.suspended().wf(),
{
    let t = s.suspended();
    let c = s.cur_pid();
    assert forall|pid: int| #[trigger] t.valid_pid(pid) implies t.proc_wf(pid) by {
        assert(s.valid_pid(pid));
        assert(s.proc_wf(pid));
        let q = t.proc_at(pid);
        assert forall|i: int| 0 <= i < q.children.len() implies {
            &&& t.valid_pid(#[trigger] q.children[i] as int)
            &&& q.children[i] != pid
            &&& t.proc_at(q.children[i] as int).parent == Some(pid as usize)
        } by {
            assert(s.valid_pid(q.children[i] as int));
        }
    }
    assert forall|i: int| 0 <= i < t.ready.len() implies t.valid_pid(#[trigger] t.ready[i] as int)
        && t.proc_at(t.ready[i] as int).status == TaskStatus::Ready by {
        if i < s.ready.len() {
            assert(s.valid_pid(s.ready[i] as int));
        }
    }
    assert(t.ready.no_duplicates()) by {
        assert forall|i: int, j: int| 0 <= i < j < t.ready.len() implies t.ready[i] != t.ready[j] by {
            if j == s.ready.len() {
                assert(s.valid_pid(s.ready[i] as int));
            }
        }
    }
}

/// Running the next ready process keeps the kernel well formed.
pub proof fn lemma_run_next_wf(s: KernelView)
    requires
        s.wf(),
        s.current is None,
    ensures
        s.run_next().wf(),
{
    if s.ready.len() > 0 {
        let t = s.run_next();
        let n = s.ready[0] as int;
        assert(s.valid_pid(n));
        assert forall|pid: int| #[trigger] t.valid_pid(pid) implies t.proc_wf(pid) by {
            assert(s.valid_pid(pid));
            assert(s.proc_wf(pid));
            let q = t.proc_at(pid);
            assert forall|i: int| 0 <= i < q.children.len() implies {
                &&& t.valid_pid(#[trigger] q.children[i] as int)
                &&& q.children[i] != pid
                &&& t.proc_at(q.children[i] as int).parent == Some(pid as usize)
            } by {
                assert(s.valid_pid(q.children[i] as int));
            }
        }
        assert forall|i: int| 0 <= i < t.ready.len() implies t.valid_pid(#[trigger] t.ready[i] as int)
            && t.proc_at(t.ready[i] as int).status == TaskStatus::Ready by {
            assert(t.ready[i] == s.ready[i + 1]);
            assert(s.valid_pid(s.ready[i + 1] as int));
            assert(s.ready[i + 1] != s.ready[0]);
        }
    }
}

/// A step that changes the current process, the file system and the table
/// of open files, and nothing else, keeps the kernel well formed when the
/// current process keeps its family and status, and every descriptor and open
/// file stays in range.
pub proof fn lemma_step_wf(s: KernelView, t: KernelView, p: ProcView)
    requires
        s.wf(),
        s.current is Some,
        t.procs == s.procs.update(s.cur_pid(), Some(p)),
        t.current == s.current,
        t.ready == s.ready,
        t.recycled == s.recycled,
        t.fs.wf(),
        t.files.len() >= s.files.len(),
        forall|k: int| 0 <= k < t.files.len() ==> 1 <= #[trigger] t.files[k].ino < t.fs.data.len(),
        p.parent == s.cur().parent,
        p.children == s.cur().children,
        p.status == s.cur().status,
        forall|fd: int|
            0 <= fd < p.fds.len() ==> (#[trigger] p.fds[fd] matches Some(FileDesc::File(k)) ==> k
                < t.files.len()),
        p.heap_bottom <= p.program_brk,
        p.regs.len() == 32,
    ensures
        t.wf(),
{
    let c = s.cur_pid();
    assert forall|pid: int| #[trigger] t.valid_pid(pid) implies t.proc_wf(pid) by {
        assert(s.valid_pid(pid));
        assert(s.proc_wf(pid));
        let q = t.proc_at(pid);
        if pid != c {
            assert forall|fd: int| 0 <= fd < q.fds.len() implies (#[trigger] q.fds[fd] matches Some(
                FileDesc::File(k),
            ) ==> k < t.files.len()) by {
                assert(s.proc_at(pid).fds[fd] == q.fds[fd]);
            }
        }
        assert forall|i: int| 0 <= i < q.children.len() implies {
            &&& t.valid_pid(#[trigger] q.children[i] as int)
            &&& q.children[i] != pid
            &&& t.proc_at(q.children[i] as int).parent == Some(pid as usize)
        } by {
            assert(s.valid_pid(q.children[i] as int));
        }
    }
    assert forall|i: int| 0 <= i < t.ready.len() implies t.valid_pid(#[trigger] t.ready[i] as int)
        && t.proc_at(t.ready[i] as int).status == TaskStatus::Ready by {
        assert(s.valid_pid(s.ready[i] as int));
    }
}

/// Replacing the current process by one with the same family, status and
/// bounded descriptors keeps the kernel well formed.
pub proof fn lemma_with_cur_wf(s: KernelView, p: ProcView)
    requires
        s.wf(),
        s.current is Some,
        p.parent == s.cur().parent,
        p.children == s.cur().children,
        p.status == s.cur().status,
        forall|fd: int|
            0 <= fd < p.fds.len() ==> (#[trigger] p.fds[fd] matches Some(FileDesc::File(k)) ==> k
                < s.files.len()),
        p.heap_bottom <= p.program_brk,
        p.regs.len() == 32,
    ensures
        s.with_cur(p).wf(),
{
    lemma_step_wf(s, s.with_cur(p), p);
}

} // verus!
