//! Virtual addresses, page numbers and the per-process map of user pages.
use vstd::prelude::*;

verus! {

/// Bytes per page.
pub const PAGE_SIZE: usize = 4096;

/// A virtual address keeps its low 39 bits (Sv39), as `VirtAddr::from` does.
pub open spec fn virt_addr_spec(v: usize) -> usize {
    (v as int % 0x80_0000_0000) as usize
}

/// `VirtAddr::from(v)`: the address with the bits above the Sv39 width cleared.
pub fn virt_addr(v: usize) -> (r: usize)
    ensures
        r == virt_addr_spec(v),
        r < 0x80_0000_0000,
{
    let wide = v as u64;
    proof {
        assert(wide & 0x7f_ffff_ffffu64 == wide % 0x80_0000_0000u64) by (bit_vector);
    }
    (wide & 0x7f_ffff_ffff) as usize
}

/// An address is page aligned when its page offset is zero.
pub open spec fn page_aligned(va: usize) -> bool {
    va % PAGE_SIZE == 0
}

/// The page that holds `va`.
pub open spec fn vpn_floor(va: usize) -> int {
    va as int / PAGE_SIZE as int
}

/// The first page at or above `va`.
pub open spec fn vpn_ceil(va: usize) -> int {
    if va == 0 {
        0
    } else {
        (va - 1 + PAGE_SIZE) / PAGE_SIZE as int
    }
}

pub fn floor_page(va: usize) -> (r: usize)
    ensures
        r == vpn_floor(va),
{
    va / PAGE_SIZE
}

pub fn ceil_page(va: usize) -> (r: usize)
    ensures
        r == vpn_ceil(va),
{
    if va == 0 {
        0
    } else {
        (va - 1) / PAGE_SIZE + 1
    }
}

/// Number of pages that mmap and munmap cover for a length in bytes: a length
/// under one page covers none; any longer length is rounded up to whole pages.
pub open spec fn page_count_spec(len: usize) -> int {
    if len < PAGE_SIZE {
        0
    } else {
        (len + PAGE_SIZE - 1) / PAGE_SIZE as int
    }
}

pub fn page_count(len: usize) -> (r: usize)
    ensures
        r == page_count_spec(len),
{
    match len / PAGE_SIZE {
        0 => 0,
        _ => {
            if len % PAGE_SIZE == 0 {
                len / PAGE_SIZE
            } else {
                len / PAGE_SIZE + 1
            }
        },
    }
}

/// Access rights of a user page.
#[derive(Clone, Copy, Debug, PartialEq, Eq, Structural)]
pub struct MapPermission {
    pub r: bool,
    pub w: bool,
    pub x: bool,
    pub u: bool,
}

/// The rights mmap gives for `prot` (one of 1 to 7). The bits of `prot` are read
/// twice: once in the page-table layout (bit 1 readable, bit 2 writable, bit 3
/// executable) and once in the syscall's layout (bit 0 readable, bit 1 writable,
/// bit 2 executable); a right is given when either reading sets it. The page is
/// always user accessible.
pub open spec fn mmap_permission(prot: usize) -> MapPermission {
    MapPermission {
        r: prot % 2 == 1 || (prot / 2) % 2 == 1,
        w: (prot / 2) % 2 == 1 || (prot / 4) % 2 == 1,
        x: (prot / 4) % 2 == 1 || (prot / 8) % 2 == 1,
        u: true,
    }
}

pub fn permission_from_prot(prot: usize) -> (r: MapPermission)
    ensures
        r == mmap_permission(prot),
{
    proof {
        assert(prot & 1 != 0 <==> prot % 2 == 1) by (bit_vector);
        assert(prot & 2 != 0 <==> (prot / 2) % 2 == 1) by (bit_vector);
        assert(prot & 4 != 0 <==> (prot / 4) % 2 == 1) by (bit_vector);
        assert(prot & 8 != 0 <==> (prot / 8) % 2 == 1) by (bit_vector);
    }
    // the bits that are valid page-table rights, as `from_bits_truncate` keeps them
    let mut flags = MapPermission {
        r: prot & 2 != 0,
        w: prot & 4 != 0,
        x: prot & 8 != 0,
        u: prot & 16 != 0,
    };
    if prot & 1 != 0 {
        flags.r = true;
    }
    if prot & 2 != 0 {
        flags.w = true;
    }
    if prot & 4 != 0 {
        flags.x = true;
    }
    flags.u = true;
    flags
}

/// The top page of the address space: the trampoline, the shared code that
/// enters and leaves the kernel on a trap.
pub const TRAMPOLINE_VPN: usize = 0x7ff_ffff;

/// The page below the trampoline: the process's saved trap context.
pub const TRAP_CONTEXT_VPN: usize = 0x7ff_fffe;

/// The pages every user address space has from its creation: the trampoline
/// (readable, executable) and the trap context (readable, writable), neither
/// user accessible.
pub open spec fn reserved_pages() -> Map<usize, MapPermission> {
    Map::<usize, MapPermission>::empty().insert(
        TRAMPOLINE_VPN,
        MapPermission { r: true, w: false, x: true, u: false },
    ).insert(TRAP_CONTEXT_VPN, MapPermission { r: true, w: true, x: false, u: false })
}

/// The pages from `start` (inclusive) to `end` (exclusive), each with `perm`.
pub open spec fn range_map(start: int, end: int, perm: MapPermission) -> Map<usize, MapPermission> {
    Map::new(|v: usize| start <= v < end, |v: usize| perm)
}

/// The page numbers from `start` (inclusive) to `end` (exclusive).
pub open spec fn range_set(start: int, end: int) -> Set<usize> {
    Set::new(|v: usize| start <= v < end)
}

/// Some page of `[start, end)` is mapped in `m`.
pub open spec fn any_mapped_in(m: Map<usize, MapPermission>, start: int, end: int) -> bool {
    exists|v: usize| start <= v < end && #[trigger] m.contains_key(v)
}

/// Every page of `[start, end)` is mapped in `m`.
pub open spec fn all_mapped_in(m: Map<usize, MapPermission>, start: int, end: int) -> bool {
    forall|v: usize| start <= v < end ==> #[trigger] m.contains_key(v)
}

#[derive(Clone, Copy)]
pub struct PageEntry {
    pub vpn: usize,
    pub perm: MapPermission,
}

/// The user pages of one address space: page number to rights.
pub struct AddressSpace {
    entries: Vec<PageEntry>,
    mapping: Ghost<Map<usize, MapPermission>>,
}

impl View for AddressSpace {
    type V = Map<usize, MapPermission>;

    closed spec fn view(&self) -> Map<usize, MapPermission> {
        self.mapping@
    }
}

impl AddressSpace {
    pub closed spec fn wf(&self) -> bool {
        &&& forall|i: int, j: int|
            0 <= i < j < self.entries@.len() ==> #[trigger] self.entries@[i].vpn
                != #[trigger] self.entries@[j].vpn
        &&& forall|i: int|
            0 <= i < self.entries@.len() ==> #[trigger] self.mapping@.contains_key(
                self.entries@[i].vpn,
            ) && self.mapping@[self.entries@[i].vpn] == self.entries@[i].perm
        &&& forall|v: usize|
            #[trigger] self.mapping@.contains_key(v) ==> exists|i: int|
                0 <= i < self.entries@.len() && #[trigger] self.entries@[i].vpn == v
    }

    pub fn new() -> (r: Self)
        ensures
            r.wf(),
            r@ == Map::<usize, MapPermission>::empty(),
    {
        AddressSpace { entries: Vec::new(), mapping: Ghost(Map::empty()) }
    }

    /// A new user address space: just the reserved pages.
    pub fn new_user() -> (r: Self)
        ensures
            r.wf(),
            r@ == reserved_pages(),
    {
        let mut r = AddressSpace::new();
        r.map_one(TRAMPOLINE_VPN, MapPermission { r: true, w: false, x: true, u: false });
        r.map_one(TRAP_CONTEXT_VPN, MapPermission { r: true, w: true, x: false, u: false });
        r
    }

    /// An address space with the same pages and rights.
    pub fn copy(&self) -> (r: Self)
        requires
            self.wf(),
        ensures
            r.wf(),
            r@ == self@,
    {
        let mut entries: Vec<PageEntry> = Vec::new();
        let mut i: usize = 0;
        while i < self.entries.len()
            invariant
                self.wf(),
                i <= self.entries@.len(),
                entries@ == self.entries@.subrange(0, i as int),
            decreases self.entries@.len() - i,
        {
            entries.push(self.entries[i]);
            i = i + 1;
            assert(entries@ =~= self.entries@.subrange(0, i as int));
        }
        assert(entries@ =~= self.entries@);
        let r = AddressSpace { entries, mapping: Ghost(self.mapping@) };
        assert(r.entries@ == self.entries@);
        assert(r.mapping@ == self.mapping@);
        r
    }

    fn find(&self, vpn: usize) -> (r: Option<usize>)
        requires
            self.wf(),
        ensures
            match r {
                Some(i) => i < self.entries@.len() && self.entries@[i as int].vpn == vpn,
                None => !self@.contains_key(vpn),
            },
    {
        let mut i: usize = 0;
        while i < self.entries.len()
            invariant
                self.wf(),
                i <= self.entries@.len(),
                forall|j: int| 0 <= j < i ==> #[trigger] self.entries@[j].vpn != vpn,
            decreases self.entries@.len() - i,
        {
            if self.entries[i].vpn == vpn {
                return Some(i);
            }
            i = i + 1;
        }
        None
    }

    pub fn is_mapped(&self, vpn: usize) -> (r: bool)
        requires
            self.wf(),
        ensures
            r == self@.contains_key(vpn),
    {
        match self.find(vpn) {
            Some(i) => {
                assert(self@.contains_key(self.entries@[i as int].vpn));
                true
            },
            None => false,
        }
    }

    /// The rights of page `vpn`, if it is mapped.
    pub fn permission(&self, vpn: usize) -> (r: Option<MapPermission>)
        requires
            self.wf(),
        ensures
            r == if self@.contains_key(vpn) {
                Some(self@[vpn])
            } else {
                None
            },
    {
        match self.find(vpn) {
            Some(i) => {
                assert(self@.contains_key(self.entries@[i as int].vpn));
                Some(self.entries[i].perm)
            },
            None => None,
        }
    }

    /// Maps one page that is not mapped yet.
    pub fn map_one(&mut self, vpn: usize, perm: MapPermission)
        requires
            old(self).wf(),
            !old(self)@.contains_key(vpn),
        ensures
            final(self).wf(),
            final(self)@ == old(self)@.insert(vpn, perm),
    {
        let ghost old_entries = self.entries@;
        self.entries.push(PageEntry { vpn, perm });
        self.mapping = Ghost(self.mapping@.insert(vpn, perm));
        assert forall|v: usize| #[trigger] self.mapping@.contains_key(v) implies exists|i: int|
            0 <= i < self.entries@.len() && #[trigger] self.entries@[i].vpn == v by {
            if v == vpn {
                assert(self.entries@[old_entries.len() as int].vpn == v);
            } else {
                assert(old(self).mapping@.contains_key(v));
                let i = choose|i: int| 0 <= i < old_entries.len() && #[trigger] old_entries[i].vpn == v;
                assert(self.entries@[i].vpn == v);
            }
        }
        assert forall|i: int, j: int|
            0 <= i < j < self.entries@.len() implies #[trigger] self.entries@[i].vpn
                != #[trigger] self.entries@[j].vpn by {
            if j == old_entries.len() {
                assert(old(self).mapping@.contains_key(old_entries[i].vpn));
            }
        }
    }

    /// Unmaps one page that is mapped.
    pub fn unmap_one(&mut self, vpn: usize)
        requires
            old(self).wf(),
            old(self)@.contains_key(vpn),
        ensures
            final(self).wf(),
            final(self)@ == old(self)@.remove(vpn),
    {
        let ghost old_entries = self.entries@;
        let i = match self.find(vpn) {
            Some(i) => i,
            None => {
                assert(false);
                0
            },
        };
        let last = self.entries.len() - 1;
        let moved = self.entries[last];
        self.entries.set(i, moved);
        self.entries.pop();
        self.mapping = Ghost(self.mapping@.remove(vpn));
        let ghost ne = self.entries@;
        assert forall|k: int| 0 <= k < ne.len() implies #[trigger] ne[k] == if k == i {
            old_entries[last as int]
        } else {
            old_entries[k]
        } by {}
        assert forall|a: int, b: int| 0 <= a < b < ne.len() implies #[trigger] ne[a].vpn
            != #[trigger] ne[b].vpn by {
            let oa = if a == i { last as int } else { a };
            let ob = if b == i { last as int } else { b };
            assert(ne[a] == old_entries[oa]);
            assert(ne[b] == old_entries[ob]);
            if oa < ob {
                assert(old_entries[oa].vpn != old_entries[ob].vpn);
            } else {
                assert(old_entries[ob].vpn != old_entries[oa].vpn);
            }
        }
        assert forall|k: int| 0 <= k < ne.len() implies #[trigger] self.mapping@.contains_key(
            ne[k].vpn,
        ) && self.mapping@[ne[k].vpn] == ne[k].perm by {
            let ok = if k == i { last as int } else { k };
            assert(ne[k] == old_entries[ok]);
            assert(ok != i);
            if ok < i {
                assert(old_entries[ok].vpn != old_entries[i as int].vpn);
            } else {
                assert(old_entries[i as int].vpn != old_entries[ok].vpn);
            }
            assert(old(self).mapping@.contains_key(old_entries[ok].vpn));
        }
        assert forall|v: usize| #[trigger] self.mapping@.contains_key(v) implies exists|k: int|
            0 <= k < ne.len() && #[trigger] ne[k].vpn == v by {
            assert(old(self).mapping@.contains_key(v));
            let j = choose|j: int| 0 <= j < old_entries.len() && #[trigger] old_entries[j].vpn == v;
            assert(j != i);
            if j == last {
                assert(ne[i as int].vpn == v);
            } else {
                assert(ne[j].vpn == v);
            }
        }
    }

    /// Whether some page of `[start, end)` is mapped.
    pub fn any_mapped(&self, start: usize, end: usize) -> (r: bool)
        requires
            self.wf(),
        ensures
            r == any_mapped_in(self@, start as int, end as int),
    {
        let mut v = start;
        while v < end
            invariant
                self.wf(),
                start <= v,
                !any_mapped_in(self@, start as int, v as int),
            decreases end - v,
        {
            if self.is_mapped(v) {
                return true;
            }
            v = v + 1;
        }
        false
    }

    /// Whether every page of `[start, end)` is mapped.
    pub fn all_mapped(&self, start: usize, end: usize) -> (r: bool)
        requires
            self.wf(),
        ensures
            r == all_mapped_in(self@, start as int, end as int),
    {
        let mut v = start;
        while v < end
            invariant
                self.wf(),
                start <= v,
                all_mapped_in(self@, start as int, v as int),
            decreases end - v,
        {
            if !self.is_mapped(v) {
                return false;
            }
            v = v + 1;
        }
        true
    }

    /// Maps every page of `[start, end)`, none of which is mapped yet.
    pub fn insert_area(&mut self, start: usize, end: usize, perm: MapPermission)
        requires
            old(self).wf(),
            !any_mapped_in(old(self)@, start as int, end as int),
        ensures
            final(self).wf(),
            final(self)@ == old(self)@.union_prefer_right(range_map(start as int, end as int, perm)),
    {
        if start >= end {
            assert(self@ =~= old(self)@.union_prefer_right(range_map(start as int, end as int, perm)));
            return;
        }
        let mut v = start;
        while v < end
            invariant
                self.wf(),
                start <= v <= end,
                v < end ==> !any_mapped_in(self@, v as int, end as int),
                self@ == old(self)@.union_prefer_right(range_map(start as int, v as int, perm)),
            decreases end - v,
        {
            assert(!self@.contains_key(v));
            self.map_one(v, perm);
            v = v + 1;
            assert(self@ =~= old(self)@.union_prefer_right(range_map(start as int, v as int, perm)));
            assert(v < end ==> !any_mapped_in(self@, v as int, end as int)) by {
                if v < end && any_mapped_in(self@, v as int, end as int) {
                    let w = choose|w: usize| v <= w < end && #[trigger] self@.contains_key(w);
                    assert(old(self)@.contains_key(w));
                    assert(any_mapped_in(old(self)@, start as int, end as int));
                }
            }
        }
    }

    /// Unmaps every page of `[start, end)`, all of which are mapped.
    pub fn remove_area(&mut self, start: usize, end: usize)
        requires
            old(self).wf(),
            all_mapped_in(old(self)@, start as int, end as int),
        ensures
            final(self).wf(),
            final(self)@ == old(self)@.remove_keys(range_set(start as int, end as int)),
    {
        if start >= end {
            assert(self@ =~= old(self)@.remove_keys(range_set(start as int, end as int)));
            return;
        }
        let mut v = start;
        while v < end
            invariant
                self.wf(),
                start <= v <= end,
                all_mapped_in(old(self)@, start as int, end as int),
                self@ == old(self)@.remove_keys(range_set(start as int, v as int)),
            decreases end - v,
        {
            assert(old(self)@.contains_key(v));
            self.unmap_one(v);
            v = v + 1;
            assert(self@ =~= old(self)@.remove_keys(range_set(start as int, v as int)));
        }
    }

    /// Unmaps the pages `[start, end)`: returns 0 when all of them were mapped,
    /// and -1, changing nothing, when some page of the range is not mapped.
    pub fn unmap(&mut self, start: usize, end: usize) -> (r: isize)
        requires
            old(self).wf(),
        ensures
            final(self).wf(),
            all_mapped_in(old(self)@, start as int, end as int) ==> r == 0 && final(self)@
                == old(self)@.remove_keys(range_set(start as int, end as int)),
            !all_mapped_in(old(self)@, start as int, end as int) ==> r == -1 && final(self)@
                == old(self)@,
    {
        if self.all_mapped(start, end) {
            self.remove_area(start, end);
            0
        } else {
            -1
        }
    }

    /// Drops every page.
    pub fn clear(&mut self)
        ensures
            final(self).wf(),
            final(self)@ == Map::<usize, MapPermission>::empty(),
    {
        self.entries = Vec::new();
        self.mapping = Ghost(Map::empty());
    }
}

} // verus!
