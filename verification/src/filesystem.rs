//! A flat file system: one root directory of named entries over numbered
//! inodes, and the open-file handles that read and write them.
use vstd::prelude::*;

verus! {

/// Longest name a directory entry holds, in bytes.
pub const NAME_LENGTH_LIMIT: usize = 27;

/// Largest size an inode reaches: its direct, indirect and doubly indirect
/// blocks, 512 bytes each.
pub const MAX_FILE_SIZE: usize = 8_468_480;

/// Open flags.
pub const RDONLY: u32 = 0;

pub const WRONLY: u32 = 1;

pub const RDWR: u32 = 2;

pub const CREATE: u32 = 512;

pub const TRUNC: u32 = 1024;

/// The flags name only known bits.
pub open spec fn flags_known(flags: u32) -> bool {
    flags & !0x603u32 == 0
}

/// A handle opened with `flags` can read: read-only, or any flags without WRONLY.
pub open spec fn flags_readable(flags: u32) -> bool {
    flags == 0 || flags & WRONLY == 0
}

/// A handle opened with `flags` can write: any flags but read-only.
pub open spec fn flags_writable(flags: u32) -> bool {
    flags != 0
}

pub open spec fn flags_create(flags: u32) -> bool {
    flags & CREATE != 0
}

pub open spec fn flags_trunc(flags: u32) -> bool {
    flags & TRUNC != 0
}

/// An open file: its rights, its inode and the position of its next read or write.
#[derive(Clone, Copy, Debug)]
pub struct OSInode {
    pub readable: bool,
    pub writable: bool,
    pub ino: usize,
    pub offset: usize,
}

/// What kind of node a file is.
#[derive(Clone, Copy, Debug, PartialEq, Eq, Structural)]
pub enum StatMode {
    Null,
    Dir,
    File,
}

/// The status fstat reports of an open file.
#[derive(Clone, Copy, Debug)]
pub struct Stat {
    /// ID of the device holding the file
    pub dev: u64,
    /// inode number
    pub ino: u64,
    pub mode: StatMode,
    /// number of hard links
    pub nlink: u32,
}

pub struct Inode {
    pub data: Vec<u8>,
    /// Names of the inode beyond the first, counted modulo 2^32.
    pub link_num: u32,
}

pub struct DirEntry {
    pub name: Vec<u8>,
    pub ino: usize,
}

/// Inode 0 is the root directory; `dir` lists its entries in order.
pub struct FileSystem {
    pub inodes: Vec<Inode>,
    pub dir: Vec<DirEntry>,
}

#[verifier::ext_equal]
pub struct FsView {
    pub data: Seq<Seq<u8>>,
    pub links: Seq<u32>,
    pub dir: Seq<(Seq<u8>, usize)>,
}

impl View for FileSystem {
    type V = FsView;

    open spec fn view(&self) -> FsView {
        FsView {
            data: self.inodes@.map_values(|i: Inode| i.data@),
            links: self.inodes@.map_values(|i: Inode| i.link_num),
            dir: self.dir@.map_values(|e: DirEntry| (e.name@, e.ino)),
        }
    }
}

/// How many entries of `dir` name inode `ino`.
pub open spec fn name_count(dir: Seq<(Seq<u8>, usize)>, ino: usize) -> nat
    decreases dir.len(),
{
    if dir.len() == 0 {
        0
    } else {
        name_count(dir.drop_last(), ino) + if dir.last().1 == ino {
            1nat
        } else {
            0nat
        }
    }
}

/// The number of names an inode with `link_num` extra links reports, modulo 2^32.
pub open spec fn nlink_of(link_num: u32) -> int {
    (link_num as int + 1) % 0x1_0000_0000
}

/// Entry `i` is the first entry of `dir` called `name`.
pub open spec fn is_first_match(dir: Seq<(Seq<u8>, usize)>, name: Seq<u8>, i: int) -> bool {
    &&& 0 <= i < dir.len()
    &&& dir[i].0 == name
    &&& forall|j: int| 0 <= j < i ==> #[trigger] dir[j].0 != name
}

/// Index of the first entry called `name`.
pub open spec fn lookup_index(dir: Seq<(Seq<u8>, usize)>, name: Seq<u8>) -> Option<int> {
    if exists|i: int| is_first_match(dir, name, i) {
        Some(choose|i: int| is_first_match(dir, name, i))
    } else {
        None
    }
}

/// Bytes of `data` from `offset`, at most `len` of them; none from at or past the end.
pub open spec fn read_range(data: Seq<u8>, offset: int, len: int) -> Seq<u8> {
    if offset >= data.len() {
        Seq::empty()
    } else if offset + len <= data.len() {
        data.subrange(offset, offset + len)
    } else {
        data.subrange(offset, data.len() as int)
    }
}

/// `data` with `bytes` written at `offset`; a gap between the old end and
/// `offset` reads as zeros.
pub open spec fn write_range(data: Seq<u8>, offset: int, bytes: Seq<u8>) -> Seq<u8> {
    let end = offset + bytes.len();
    let new_len = if end > data.len() {
        end
    } else {
        data.len() as int
    };
    Seq::new(
        new_len as nat,
        |i: int|
            if offset <= i < end {
                bytes[i - offset]
            } else if i < data.len() {
                data[i]
            } else {
                0u8
            },
    )
}

impl FsView {
    pub open spec fn wf(self) -> bool {
        &&& self.data.len() == self.links.len()
        &&& 1 <= self.data.len() < usize::MAX
        &&& forall|j: int| 0 <= j < self.dir.len() ==> 1 <= #[trigger] self.dir[j].1 < self.data.len()
        &&& forall|ino: usize|
            1 <= ino < self.data.len() ==> nlink_of(#[trigger] self.links[ino as int])
                == name_count(self.dir, ino) % 0x1_0000_0000
    }

    /// The inode of the first entry called `name`.
    pub open spec fn lookup(self, name: Seq<u8>) -> Option<usize> {
        match lookup_index(self.dir, name) {
            Some(i) => Some(self.dir[i].1),
            None => None,
        }
    }

    /// Inode `ino` emptied.
    pub open spec fn cleared(self, ino: usize) -> FsView {
        FsView { data: self.data.update(ino as int, Seq::empty()), ..self }
    }

    /// A new empty inode, named `name` by a new last entry.
    pub open spec fn created(self, name: Seq<u8>) -> FsView {
        FsView {
            data: self.data.push(Seq::empty()),
            links: self.links.push(0),
            dir: self.dir.push((name, self.data.len() as usize)),
        }
    }

    /// `bytes` written into inode `ino` at `offset`.
    pub open spec fn written(self, ino: usize, offset: int, bytes: Seq<u8>) -> FsView {
        FsView { data: self.data.update(ino as int, write_range(self.data[ino as int], offset, bytes)), ..self }
    }

    /// A new last entry `name` for inode `ino`, and one more link counted for it.
    pub open spec fn linked(self, name: Seq<u8>, ino: usize) -> FsView {
        FsView {
            dir: self.dir.push((name, ino)),
            links: self.links.update(ino as int, ((self.links[ino as int] as int + 1) % 0x1_0000_0000) as u32),
            ..self
        }
    }

    /// The first entry called `name` removed, and one link fewer counted for its inode.
    pub open spec fn unlinked(self, name: Seq<u8>) -> FsView {
        match lookup_index(self.dir, name) {
            Some(i) => {
                let ino = self.dir[i].1;
                FsView {
                    dir: self.dir.remove(i),
                    links: self.links.update(ino as int, ((self.links[ino as int] as int - 1 + 0x1_0000_0000) % 0x1_0000_0000) as u32),
                    ..self
                }
            },
            None => self,
        }
    }

    /// What opening `name` with `flags` does: the file system afterwards and the handle.
    pub open spec fn open(self, name: Seq<u8>, flags: u32) -> (FsView, Option<OSInode>) {
        let readable = flags_readable(flags);
        let writable = flags_writable(flags);
        match self.lookup(name) {
            Some(ino) => {
                let fs = if flags_create(flags) || flags_trunc(flags) {
                    self.cleared(ino)
                } else {
                    self
                };
                (fs, Some(OSInode { readable, writable, ino, offset: 0 }))
            },
            None => if flags_create(flags) {
                (
                    self.created(name),
                    Some(OSInode { readable, writable, ino: self.data.len() as usize, offset: 0 }),
                )
            } else {
                (self, None)
            },
        }
    }
}

/// Counting names after a new last entry.
pub proof fn lemma_name_count_push(dir: Seq<(Seq<u8>, usize)>, e: (Seq<u8>, usize), ino: usize)
    ensures
        name_count(dir.push(e), ino) == name_count(dir, ino) + if e.1 == ino {
            1nat
        } else {
            0nat
        },
{
    assert(dir.push(e).drop_last() =~= dir);
}

/// Counting names after removing entry `i`.
pub proof fn lemma_name_count_remove(dir: Seq<(Seq<u8>, usize)>, i: int, ino: usize)
    requires
        0 <= i < dir.len(),
    ensures
        name_count(dir, ino) == name_count(dir.remove(i), ino) + if dir[i].1 == ino {
            1nat
        } else {
            0nat
        },
    decreases dir.len(),
{
    if i == dir.len() - 1 {
        assert(dir.remove(i) =~= dir.drop_last());
    } else {
        let d = dir.drop_last();
        lemma_name_count_remove(d, i, ino);
        assert(dir.remove(i).drop_last() =~= d.remove(i));
        assert(dir.remove(i).last() == dir.last());
    }
}

/// Some entry is called `name` exactly when a first such entry exists.
pub proof fn lemma_first_match_exists(dir: Seq<(Seq<u8>, usize)>, name: Seq<u8>, k: int)
    requires
        0 <= k < dir.len(),
        dir[k].0 == name,
    ensures
        exists|i: int| is_first_match(dir, name, i),
    decreases k,
{
    if exists|j: int| 0 <= j < k && #[trigger] dir[j].0 == name {
        let j = choose|j: int| 0 <= j < k && #[trigger] dir[j].0 == name;
        lemma_first_match_exists(dir, name, j);
    } else {
        assert(is_first_match(dir, name, k));
    }
}

/// The first match is unique.
pub proof fn lemma_first_match_unique(dir: Seq<(Seq<u8>, usize)>, name: Seq<u8>, i: int)
    requires
        is_first_match(dir, name, i),
    ensures
        lookup_index(dir, name) == Some(i),
{
    let c = choose|c: int| is_first_match(dir, name, c);
    assert(is_first_match(dir, name, c));
    if c < i {
        assert(dir[c].0 != name);
    } else if i < c {
        assert(dir[i].0 != name);
    }
}

/// Whether two byte strings are equal.
pub fn bytes_eq(a: &Vec<u8>, b: &Vec<u8>) -> (r: bool)
    ensures
        r == (a@ == b@),
{
    if a.len() != b.len() {
        return false;
    }
    let mut i: usize = 0;
    while i < a.len()
        invariant
            a@.len() == b@.len(),
            i <= a@.len(),
            forall|j: int| 0 <= j < i ==> a@[j] == b@[j],
        decreases a@.len() - i,
    {
        if a[i] != b[i] {
            return false;
        }
        i = i + 1;
    }
    assert(a@ =~= b@);
    true
}

/// A copy of a byte string.
pub fn copy_bytes(a: &Vec<u8>) -> (r: Vec<u8>)
    ensures
        r@ == a@,
{
    let mut r: Vec<u8> = Vec::new();
    let mut i: usize = 0;
    while i < a.len()
        invariant
            i <= a@.len(),
            r@ == a@.subrange(0, i as int),
        decreases a@.len() - i,
    {
        r.push(a[i]);
        i = i + 1;
        assert(r@ =~= a@.subrange(0, i as int));
    }
    assert(r@ =~= a@);
    r
}

/// Appends `src` to `dst`.
pub fn append_bytes(dst: &mut Vec<u8>, src: &Vec<u8>)
    ensures
        final(dst)@ == old(dst)@ + src@,
{
    let mut i: usize = 0;
    while i < src.len()
        invariant
            i <= src@.len(),
            dst@ == old(dst)@ + src@.subrange(0, i as int),
        decreases src@.len() - i,
    {
        dst.push(src[i]);
        i = i + 1;
        assert(dst@ =~= old(dst)@ + src@.subrange(0, i as int));
    }
    assert(src@.subrange(0, i as int) =~= src@);
}

impl FileSystem {
    /// A file system holding only the empty root directory.
    pub fn new() -> (r: Self)
        ensures
            r@.wf(),
            r@.data == seq![Seq::<u8>::empty()],
            r@.links == seq![0u32],
            r@.dir == Seq::<(Seq<u8>, usize)>::empty(),
    {
        let mut inodes: Vec<Inode> = Vec::new();
        inodes.push(Inode { data: Vec::new(), link_num: 0 });
        let r = FileSystem { inodes, dir: Vec::new() };
        assert(r@.data =~= seq![Seq::<u8>::empty()]);
        assert(r@.links =~= seq![0u32]);
        assert(r@.dir =~= Seq::<(Seq<u8>, usize)>::empty());
        r
    }

    /// The inode of the first entry called `name`.
    pub fn find(&self, name: &Vec<u8>) -> (r: Option<usize>)
        ensures
            r == self@.lookup(name@),
    {
        let mut i: usize = 0;
        while i < self.dir.len()
            invariant
                i <= self.dir@.len(),
                forall|j: int| 0 <= j < i ==> #[trigger] self@.dir[j].0 != name@,
            decreases self.dir@.len() - i,
        {
            if bytes_eq(&self.dir[i].name, name) {
                proof {
                    assert(is_first_match(self@.dir, name@, i as int));
                    lemma_first_match_unique(self@.dir, name@, i as int);
                }
                return Some(self.dir[i].ino);
            }
            i = i + 1;
        }
        assert(!exists|k: int| is_first_match(self@.dir, name@, k));
        None
    }

    /// Empties inode `ino`.
    pub fn clear(&mut self, ino: usize)
        requires
            ino < old(self)@.data.len(),
        ensures
            final(self)@ == old(self)@.cleared(ino),
    {
        self.inodes[ino].data = Vec::new();
        assert(self@.data =~= old(self)@.cleared(ino).data);
        assert(self@.links =~= old(self)@.links);
    }

    /// Adds an empty inode, named `name` by a new last entry; returns its number.
    pub fn create(&mut self, name: &Vec<u8>) -> (r: usize)
        requires
            old(self)@.wf(),
            old(self)@.lookup(name@) is None,
            old(self)@.data.len() + 1 < usize::MAX,
        ensures
            final(self)@ == old(self)@.created(name@),
            r == old(self)@.data.len(),
            final(self)@.wf(),
    {
        let ino = self.inodes.len();
        self.inodes.push(Inode { data: Vec::new(), link_num: 0 });
        self.dir.push(DirEntry { name: copy_bytes(name), ino });
        let ghost old_v = old(self)@;
        assert(self@.data =~= old_v.created(name@).data);
        assert(self@.links =~= old_v.created(name@).links);
        assert(self@.dir =~= old_v.created(name@).dir);
        proof {
            lemma_created_wf(old_v, name@);
        }
        ino
    }

    /// Bytes of inode `ino` from `offset`, at most `len` of them.
    pub fn read_at(&self, ino: usize, offset: usize, len: usize) -> (r: Vec<u8>)
        requires
            ino < self@.data.len(),
        ensures
            r@ == read_range(self@.data[ino as int], offset as int, len as int),
    {
        let data = &self.inodes[ino].data;
        let mut r: Vec<u8> = Vec::new();
        if offset >= data.len() {
            assert(r@ =~= read_range(self@.data[ino as int], offset as int, len as int));
            return r;
        }
        let end = if len <= data.len() - offset {
            offset + len
        } else {
            data.len()
        };
        let mut i = offset;
        while i < end
            invariant
                offset <= i <= end <= data@.len(),
                r@ == data@.subrange(offset as int, i as int),
            decreases end - i,
        {
            r.push(data[i]);
            i = i + 1;
            assert(r@ =~= data@.subrange(offset as int, i as int));
        }
        r
    }

    /// Writes `bytes` into inode `ino` at `offset`.
    pub fn write_at(&mut self, ino: usize, offset: usize, bytes: &Vec<u8>)
        requires
            ino < old(self)@.data.len(),
            offset + bytes@.len() <= usize::MAX,
        ensures
            final(self)@ == old(self)@.written(ino, offset as int, bytes@),
    {
        let ghost old_v = self@;
        let ghost target = write_range(old_v.data[ino as int], offset as int, bytes@);
        let end = offset + bytes.len();
        let old_len = self.inodes[ino].data.len();
        let new_len = if end > old_len {
            end
        } else {
            old_len
        };
        let mut out: Vec<u8> = Vec::new();
        let mut i: usize = 0;
        while i < new_len
            invariant
                i <= new_len,
                new_len == target.len(),
                target == write_range(old_v.data[ino as int], offset as int, bytes@),
                end == offset + bytes@.len(),
                old_len == old_v.data[ino as int].len(),
                self@ == old_v,
                ino < self@.data.len(),
                forall|k: int| 0 <= k < i ==> out@[k] == target[k],
                out@.len() == i,
            decreases new_len - i,
        {
            let b = if offset <= i && i < end {
                bytes[i - offset]
            } else if i < old_len {
                self.inodes[ino].data[i]
            } else {
                0u8
            };
            proof {
                assert(self.inodes@[ino as int].data@ == old_v.data[ino as int]);
                assert(target[i as int] == b);
            }
            out.push(b);
            i = i + 1;
        }
        assert(out@ =~= target);
        self.inodes[ino].data = out;
        assert(self@.data =~= old_v.written(ino, offset as int, bytes@).data);
        assert(self@.links =~= old_v.links);
    }

    /// A new last entry `name` for inode `ino` (no count changes).
    pub fn create_link(&mut self, name: &Vec<u8>, ino: usize)
        ensures
            final(self)@ == (FsView { dir: old(self)@.dir.push((name@, ino)), ..old(self)@ }),
    {
        self.dir.push(DirEntry { name: copy_bytes(name), ino });
        assert(self@.dir =~= old(self)@.dir.push((name@, ino)));
        assert(self@.data =~= old(self)@.data);
        assert(self@.links =~= old(self)@.links);
    }

    /// Counts one more link of inode `ino` (wrapping).
    pub fn add_nlink(&mut self, ino: usize)
        requires
            ino < old(self)@.links.len(),
        ensures
            final(self)@ == (FsView {
                links: old(self)@.links.update(ino as int, ((old(self)@.links[ino as int] as int + 1) % 0x1_0000_0000) as u32),
                ..old(self)@
            }),
    {
        let n = self.inodes[ino].link_num;
        self.inodes[ino].link_num = n.wrapping_add(1);
        assert(self@.links =~= old(self)@.links.update(ino as int, ((old(self)@.links[ino as int] as int + 1) % 0x1_0000_0000) as u32));
        assert(self@.data =~= old(self)@.data);
    }

    /// Counts one link fewer of inode `ino` (wrapping).
    pub fn sub_nlink(&mut self, ino: usize)
        requires
            ino < old(self)@.links.len(),
        ensures
            final(self)@ == (FsView {
                links: old(self)@.links.update(ino as int, ((old(self)@.links[ino as int] as int - 1 + 0x1_0000_0000) % 0x1_0000_0000) as u32),
                ..old(self)@
            }),
    {
        let n = self.inodes[ino].link_num;
        self.inodes[ino].link_num = n.wrapping_sub(1);
        assert(self@.links =~= old(self)@.links.update(ino as int, ((old(self)@.links[ino as int] as int - 1 + 0x1_0000_0000) % 0x1_0000_0000) as u32));
        assert(self@.data =~= old(self)@.data);
    }

    /// Removes the first entry called `name`, if any (no count changes).
    pub fn un_link(&mut self, name: &Vec<u8>)
        ensures
            final(self)@ == (FsView {
                dir: match lookup_index(old(self)@.dir, name@) {
                    Some(i) => old(self)@.dir.remove(i),
                    None => old(self)@.dir,
                },
                ..old(self)@
            }),
    {
        let mut i: usize = 0;
        while i < self.dir.len()
            invariant
                self@ == old(self)@,
                i <= self.dir@.len(),
                forall|j: int| 0 <= j < i ==> #[trigger] self@.dir[j].0 != name@,
            decreases self.dir@.len() - i,
        {
            if bytes_eq(&self.dir[i].name, name) {
                proof {
                    assert(is_first_match(self@.dir, name@, i as int));
                    lemma_first_match_unique(self@.dir, name@, i as int);
                }
                self.dir.remove(i);
                assert(self@.dir =~= old(self)@.dir.remove(i as int));
                assert(self@.data =~= old(self)@.data);
                assert(self@.links =~= old(self)@.links);
                return;
            }
            i = i + 1;
        }
        assert(!exists|k: int| is_first_match(self@.dir, name@, k));
        assert(self@.data =~= old(self)@.data);
    }

    /// Opens `name` with `flags`: with CREATE an existing file is emptied and a
    /// missing one is created; without it a missing file gives `None`, and TRUNC
    /// empties an existing one.
    pub fn open_file(&mut self, name: &Vec<u8>, flags: u32) -> (r: Option<OSInode>)
        requires
            old(self)@.wf(),
            flags_create(flags) ==> name@.len() <= NAME_LENGTH_LIMIT && old(self)@.data.len() + 1
                < usize::MAX,
        ensures
            (final(self)@, r) == old(self)@.open(name@, flags),
            final(self)@.wf(),
    {
        let readable = flags == 0 || flags & WRONLY == 0;
        let writable = flags != 0;
        match self.find(name) {
            Some(ino) => {
                proof {
                    lemma_lookup_in_range(old(self)@, name@);
                }
                if flags & CREATE != 0 || flags & TRUNC != 0 {
                    self.clear(ino);
                    proof {
                        lemma_cleared_wf(old(self)@, ino);
                    }
                }
                Some(OSInode { readable, writable, ino, offset: 0 })
            },
            None => {
                if flags & CREATE != 0 {
                    let ino = self.create(name);
                    Some(OSInode { readable, writable, ino, offset: 0 })
                } else {
                    None
                }
            },
        }
    }
}

/// A well-formed file system names no inode beyond its last.
pub proof fn lemma_name_count_zero(fs: FsView, ino: usize)
    requires
        fs.wf(),
        ino >= fs.data.len(),
    ensures
        name_count(fs.dir, ino) == 0,
{
    lemma_name_count_zero_rec(fs.dir, ino, fs.data.len());
}

proof fn lemma_name_count_zero_rec(dir: Seq<(Seq<u8>, usize)>, ino: usize, bound: nat)
    requires
        forall|j: int| 0 <= j < dir.len() ==> #[trigger] dir[j].1 < bound,
        ino >= bound,
    ensures
        name_count(dir, ino) == 0,
    decreases dir.len(),
{
    if dir.len() > 0 {
        let d = dir.drop_last();
        assert forall|j: int| 0 <= j < d.len() implies #[trigger] d[j].1 < bound by {
            assert(d[j] == dir[j]);
        }
        lemma_name_count_zero_rec(d, ino, bound);
        assert(dir.last() == dir[dir.len() - 1]);
    }
}

/// A name that is found leads to an inode of the file system.
pub proof fn lemma_lookup_in_range(fs: FsView, name: Seq<u8>)
    requires
        fs.wf(),
    ensures
        fs.lookup(name) matches Some(ino) ==> 1 <= ino < fs.data.len(),
{
    if let Some(i) = lookup_index(fs.dir, name) {
        assert(is_first_match(fs.dir, name, i));
    }
}

/// One more name, counted with one more link, keeps the count right.
proof fn lemma_nlink_add(l: u32, c: nat)
    requires
        nlink_of(l) == c % 0x1_0000_0000,
    ensures
        nlink_of(((l as int + 1) % 0x1_0000_0000) as u32) == (c + 1) % 0x1_0000_0000,
{
}

/// A new name for an inode keeps a file system well formed.
#[verifier::spinoff_prover]
pub proof fn lemma_linked_wf(fs: FsView, name: Seq<u8>, ino: usize)
    requires
        fs.wf(),
        1 <= ino < fs.data.len(),
    ensures
        fs.linked(name, ino).wf(),
{
    let t = fs.linked(name, ino);
    assert(t.data == fs.data);
    assert(t.links.len() == fs.links.len());
    assert forall|k: usize| 1 <= k < t.data.len() implies nlink_of(#[trigger] t.links[k as int])
        == name_count(t.dir, k) % 0x1_0000_0000 by {
        lemma_name_count_push(fs.dir, (name, ino), k);
        assert(nlink_of(fs.links[k as int]) == name_count(fs.dir, k) % 0x1_0000_0000);
        if k == ino {
            lemma_nlink_add(fs.links[k as int], name_count(fs.dir, k));
            assert(name_count(t.dir, k) == name_count(fs.dir, k) + 1);
        } else {
            assert(t.links[k as int] == fs.links[k as int]);
            assert(name_count(t.dir, k) == name_count(fs.dir, k));
        }
    }
    assert forall|j: int| 0 <= j < t.dir.len() implies 1 <= #[trigger] t.dir[j].1 < t.data.len() by {
        if j < fs.dir.len() {
            assert(t.dir[j] == fs.dir[j]);
        }
    }
}

/// One name fewer, counted with one link fewer, keeps the count right.
proof fn lemma_nlink_sub(l: u32, c: nat)
    requires
        nlink_of(l) == (c + 1) % 0x1_0000_0000,
    ensures
        nlink_of(((l as int - 1 + 0x1_0000_0000) % 0x1_0000_0000) as u32) == c % 0x1_0000_0000,
{
}

/// Removing a name keeps a file system well formed.
#[verifier::spinoff_prover]
pub proof fn lemma_unlinked_wf(fs: FsView, name: Seq<u8>)
    requires
        fs.wf(),
    ensures
        fs.unlinked(name).wf(),
{
    if let Some(i) = lookup_index(fs.dir, name) {
        assert(is_first_match(fs.dir, name, i));
        let ino = fs.dir[i].1;
        let t = fs.unlinked(name);
        assert forall|k: usize| 1 <= k < t.data.len() implies nlink_of(#[trigger] t.links[k as int])
            == name_count(t.dir, k) % 0x1_0000_0000 by {
            lemma_name_count_remove(fs.dir, i, k);
            assert(nlink_of(fs.links[k as int]) == name_count(fs.dir, k) % 0x1_0000_0000);
            if k == ino {
                lemma_nlink_sub(fs.links[k as int], name_count(t.dir, k));
            } else {
                assert(t.links[k as int] == fs.links[k as int]);
            }
        }
        assert forall|j: int| 0 <= j < t.dir.len() implies 1 <= #[trigger] t.dir[j].1 < t.data.len() by {
            if j < i {
                assert(t.dir[j] == fs.dir[j]);
            } else {
                assert(t.dir[j] == fs.dir[j + 1]);
            }
        }
    }
}

/// Opening gives a handle on an inode of the file system it leaves, which keeps
/// every inode it had; opening without CREATE or TRUNC changes nothing.
pub proof fn lemma_open_handle(fs: FsView, name: Seq<u8>, flags: u32)
    requires
        fs.wf(),
        flags_create(flags) ==> fs.data.len() + 1 < usize::MAX,
    ensures
        fs.open(name, flags).0.wf(),
        fs.open(name, flags).0.data.len() >= fs.data.len(),
        fs.open(name, flags).1 matches Some(f) ==> 1 <= f.ino < fs.open(name, flags).0.data.len(),
        !flags_create(flags) && !flags_trunc(flags) ==> fs.open(name, flags).0 == fs,
        fs.open(name, flags).1 is None ==> fs.open(name, flags).0 == fs,
        fs.open(name, flags).1 is Some <==> (fs.lookup(name) is Some || flags_create(flags)),
{
    lemma_lookup_in_range(fs, name);
    if let Some(ino) = fs.lookup(name) {
        lemma_cleared_wf(fs, ino);
    } else if flags_create(flags) {
        lemma_created_wf(fs, name);
    }
}

/// A new inode with a new name keeps a file system well formed.
pub proof fn lemma_created_wf(fs: FsView, name: Seq<u8>)
    requires
        fs.wf(),
        fs.data.len() + 1 < usize::MAX,
    ensures
        fs.created(name).wf(),
{
    let t = fs.created(name);
    let ino = fs.data.len() as usize;
    assert forall|k: usize| 1 <= k < t.data.len() implies nlink_of(#[trigger] t.links[k as int])
        == name_count(t.dir, k) % 0x1_0000_0000 by {
        lemma_name_count_push(fs.dir, (name, ino), k);
        if k == ino {
            lemma_name_count_zero(fs, k);
        } else {
            assert(nlink_of(fs.links[k as int]) == name_count(fs.dir, k) % 0x1_0000_0000);
        }
    }
    assert forall|j: int| 0 <= j < t.dir.len() implies 1 <= #[trigger] t.dir[j].1 < t.data.len() by {
        if j < fs.dir.len() {
            assert(t.dir[j] == fs.dir[j]);
        }
    }
}

/// Emptying an inode keeps a file system well formed.
pub proof fn lemma_cleared_wf(fs: FsView, ino: usize)
    requires
        fs.wf(),
        ino < fs.data.len(),
    ensures
        fs.cleared(ino).wf(),
{
}

} // verus!
