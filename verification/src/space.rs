//! Address spaces: the three-level page table of one process, or of the kernel.
//!
//! An address space is seen as a map from virtual page numbers to entries.
//! The tables themselves, and the pages that the space allocated for itself,
//! sit in frames that the space owns and gives back when it is torn down.

use crate::address::{
    index_in, index_of, lemma_indices, lemma_indices_injective, offset_of, page_of, page_offset,
    vpn_of, ENTRIES, PAGE_SIZE, PPN_LIMIT, ROOT_SPAN, TRAMPOLINE_VPN, VPN_LIMIT,
};
use crate::flags::VmFlags;
use crate::frame::FrameAllocator;
use vstd::prelude::*;

verus! {

/// A page-table entry: a frame and the flags under which it is mapped.
#[derive(Clone, Copy, PartialEq, Eq, Structural, Debug)]
pub struct Pte {
    pub ppn: u64,
    pub flags: VmFlags,
}

impl Pte {
    /// The entry that points to the table in frame `table`: valid, owned,
    /// and neither readable, writable nor executable.
    pub fn to_table(table: u64) -> (p: Pte)
        ensures
            p == (Pte { ppn: table, flags: VmFlags { valid: true, owned: true,
                ..VmFlags::zero() } }),
    {
        let mut flags = VmFlags::empty();
        flags.valid = true;
        flags.owned = true;
        Pte { ppn: table, flags }
    }

    /// The entry that maps nothing.
    pub open spec fn zero() -> Pte {
        Pte { ppn: 0, flags: VmFlags::zero() }
    }

    pub fn empty() -> (p: Pte)
        ensures
            p == Pte::zero(),
    {
        Pte { ppn: 0, flags: VmFlags::empty() }
    }

    pub fn is_valid(&self) -> (b: bool)
        ensures
            b == self.flags.valid,
    {
        self.flags.valid
    }

    /// The entry as the number that the hardware reads: the flags in the low
    /// ten bits and the frame above them.
    pub fn raw(&self) -> (value: u64)
        requires
            self.ppn < PPN_LIMIT,
        ensures
            value == self.ppn * 1024 + self.flags.bits(),
    {
        self.ppn * 1024 + self.flags.val() as u64
    }
}

/// Why a mapping could not be made.
#[derive(Clone, Copy, PartialEq, Eq, Structural, Debug)]
pub enum MapError {
    /// The pages do not all lie in the address space, or the frames are not
    /// all physical frames.
    BadRange,
    /// The flags lack `V`, or claim ownership of a frame that was handed in.
    BadFlags,
    /// One of the pages is mapped already.
    AlreadyMapped,
    /// No frame was left for a table or for a page.
    OutOfFrames,
}

/// A table of the lowest level: 512 entries that map pages.
pub struct LeafTable {
    ppn: u64,
    entries: Vec<Pte>,
}

/// A table of the middle level: 512 places for tables of the lowest level.
pub struct MidTable {
    ppn: u64,
    children: Vec<Option<LeafTable>>,
}

impl LeafTable {
    spec fn wf(&self) -> bool {
        &&& self.entries@.len() == ENTRIES
        &&& forall|i: int|
            0 <= i < ENTRIES && (#[trigger] self.entries@[i]).flags.valid ==> self.entries@[i].ppn
                < PPN_LIMIT
    }

    fn new(ppn: u64) -> (t: Self)
        ensures
            t.wf(),
            t.ppn == ppn,
            forall|i: int| 0 <= i < ENTRIES ==> !(#[trigger] t.entries@[i]).flags.valid,
    {
        let mut entries: Vec<Pte> = Vec::new();
        let mut i: u64 = 0;
        while i < ENTRIES
            invariant
                i <= ENTRIES,
                entries@.len() == i,
                forall|k: int| 0 <= k < i ==> !(#[trigger] entries@[k]).flags.valid,
            decreases ENTRIES - i,
        {
            entries.push(Pte::empty());
            i = i + 1;
        }
        LeafTable { ppn, entries }
    }
}

impl MidTable {
    spec fn wf(&self) -> bool {
        &&& self.children@.len() == ENTRIES
        &&& forall|i: int|
            0 <= i < ENTRIES && (#[trigger] self.children@[i]) is Some ==> self.children@[i]->0.wf()
    }

    fn new(ppn: u64) -> (t: Self)
        ensures
            t.wf(),
            t.ppn == ppn,
            forall|i: int| 0 <= i < ENTRIES ==> (#[trigger] t.children@[i]) is None,
    {
        let mut children: Vec<Option<LeafTable>> = Vec::new();
        let mut i: u64 = 0;
        while i < ENTRIES
            invariant
                i <= ENTRIES,
                children@.len() == i,
                forall|k: int| 0 <= k < i ==> (#[trigger] children@[k]) is None,
            decreases ENTRIES - i,
        {
            children.push(None);
            i = i + 1;
        }
        MidTable { ppn, children }
    }
}

/// The entry that a space with the tables `root` holds for the page `vpn`, if
/// the page is mapped.
spec fn walk(root: Seq<Option<MidTable>>, vpn: u64) -> Option<Pte> {
    match root[index_in(vpn, 2)] {
        Some(mid) => match mid.children@[index_in(vpn, 1)] {
            Some(leaf) => {
                let e = leaf.entries@[index_in(vpn, 0)];
                if e.flags.valid {
                    Some(e)
                } else {
                    None
                }
            },
            None => None,
        },
        None => None,
    }
}

/// Whether the frames of all the tables below the root `root` are in `owned`.
spec fn tables_owned(root: Seq<Option<MidTable>>, owned: Seq<u64>) -> bool {
    forall|i: int, j: int|
        0 <= i < ENTRIES && 0 <= j < ENTRIES && #[trigger] root[i] is Some ==> owned.contains(
            root[i]->0.ppn,
        ) && ((#[trigger] root[i]->0.children@[j]) is Some ==> owned.contains(
            root[i]->0.children@[j]->0.ppn,
        ))
}

/// The physical address that `addr` stands for in a space with the mappings
/// `map`, for an access that needs the flags `required`: the frame of the
/// page and the offset in it, if the page is mapped with at least these flags.
pub open spec fn translated(map: Map<u64, Pte>, addr: u64, required: VmFlags) -> Option<u64> {
    let vpn = vpn_of(addr);
    if map.contains_key(vpn) && map[vpn].flags.has_all(required) {
        Some((map[vpn].ppn * PAGE_SIZE + offset_of(addr)) as u64)
    } else {
        None
    }
}

/// The mappings `map` with the pages from `start` up to `end` mapped, in
/// order, to the frames from `pbase` on, all with `flags`.
pub open spec fn mapped_extern(
    map: Map<u64, Pte>,
    start: u64,
    end: u64,
    pbase: u64,
    flags: VmFlags,
) -> Map<u64, Pte> {
    Map::new(
        |v: u64| map.contains_key(v) || start <= v < end,
        |v: u64|
            if start <= v < end {
                Pte { ppn: (pbase + (v - start)) as u64, flags }
            } else {
                map[v]
            },
    )
}

/// The mappings `map` with the pages from `start` up to `end` mapped, in
/// order, to the frames of `frames`, all with `flags`.
pub open spec fn mapped_frames(
    map: Map<u64, Pte>,
    start: u64,
    end: u64,
    frames: Seq<u64>,
    flags: VmFlags,
) -> Map<u64, Pte> {
    Map::new(
        |v: u64| map.contains_key(v) || start <= v < end,
        |v: u64|
            if start <= v < end {
                Pte { ppn: frames[v - start], flags }
            } else {
                map[v]
            },
    )
}

/// The mappings `map` without the pages from `start` up to `end`.
pub open spec fn unmapped(map: Map<u64, Pte>, start: u64, end: u64) -> Map<u64, Pte> {
    Map::new(|v: u64| map.contains_key(v) && !(start <= v < end), |v: u64| map[v])
}

/// The flags of the trampoline page: valid, readable, writable, executable
/// and global, so that the mapping survives the switch of address spaces.
pub open spec fn trampoline_flags_spec() -> VmFlags {
    VmFlags {
        valid: true,
        readable: true,
        writable: true,
        executable: true,
        global: true,
        ..VmFlags::zero()
    }
}

pub fn trampoline_flags() -> (f: VmFlags)
    ensures
        f == trampoline_flags_spec(),
{
    VmFlags {
        valid: true,
        readable: true,
        writable: true,
        executable: true,
        user: false,
        global: true,
        accessed: false,
        dirty: false,
        owned: false,
    }
}

/// The entry of the trampoline page when the trampoline lies in the frame `ppn`.
pub open spec fn trampoline_entry(ppn: u64) -> Pte {
    Pte { ppn, flags: trampoline_flags_spec() }
}

/// Whether the mappings `map` hold the trampoline of frame `ppn` at the top
/// page, under the flags of the trampoline.
pub open spec fn has_trampoline(map: Map<u64, Pte>, ppn: u64) -> bool {
    map.contains_key(TRAMPOLINE_VPN) && map[TRAMPOLINE_VPN] == trampoline_entry(ppn)
}

/// One frame to copy when a space is duplicated: the page, its frame in the
/// space that is copied, and its frame in the copy.
#[derive(Clone, Copy, PartialEq, Eq, Structural, Debug)]
pub struct FrameCopy {
    pub vpn: u64,
    pub from: u64,
    pub to: u64,
}

/// Whether the mappings `copy` are a duplicate of the mappings `original`
/// as far as the pages below `limit` go: the same pages are mapped under
/// the same flags, and a page that is not owned lies in the same frame.
pub open spec fn duplicated(original: Map<u64, Pte>, copy: Map<u64, Pte>, limit: int) -> bool {
    forall|w: u64|
        w < limit ==> (#[trigger] copy.contains_key(w) == original.contains_key(w)) && (
        original.contains_key(w) ==> copy[w].flags == original[w].flags && (
        !original[w].flags.owned ==> copy[w].ppn == original[w].ppn))
}

/// Whether `c` names an owned page below `limit` with its frames in the
/// original and in the copy.
pub open spec fn copy_matches(
    original: Map<u64, Pte>,
    copy: Map<u64, Pte>,
    c: FrameCopy,
    limit: int,
) -> bool {
    &&& c.vpn < limit
    &&& original.contains_key(c.vpn)
    &&& original[c.vpn].flags.owned
    &&& c.from == original[c.vpn].ppn
    &&& copy.contains_key(c.vpn)
    &&& c.to == copy[c.vpn].ppn
}

/// Whether the list `copies` names the page `w`.
pub open spec fn copied(copies: Seq<FrameCopy>, w: u64) -> bool {
    exists|i: int| 0 <= i < copies.len() && (#[trigger] copies[i]).vpn == w
}

/// Whether the list `copies` names just the owned pages below `limit`, each
/// with its frames in the original and in the copy.
pub open spec fn copies_match(
    original: Map<u64, Pte>,
    copy: Map<u64, Pte>,
    copies: Seq<FrameCopy>,
    limit: int,
) -> bool {
    &&& forall|i: int|
        0 <= i < copies.len() ==> copy_matches(original, copy, #[trigger] copies[i], limit)
    &&& forall|w: u64|
        w < limit && original.contains_key(w) && (#[trigger] original[w]).flags.owned ==> copied(
            copies,
            w,
        )
}

/// Whether the pages from `start` up to `end` lie in the address space.
pub open spec fn range_ok(start: u64, end: u64) -> bool {
    start <= end <= VPN_LIMIT
}

/// The flag of ownership alone.
pub open spec fn owned_flag() -> VmFlags {
    VmFlags { owned: true, ..VmFlags::zero() }
}

/// Whether none of the pages from `start` up to `end` is mapped in `map`.
pub open spec fn range_free(map: Map<u64, Pte>, start: u64, end: u64) -> bool {
    forall|v: u64| start <= v < end ==> !map.contains_key(v)
}

/// Whether every page from `start` up to `end` is mapped in `map` for code
/// in user mode.
pub open spec fn range_user(map: Map<u64, Pte>, start: u64, end: u64) -> bool {
    forall|v: u64| start <= v < end ==> #[trigger] user_page(map, v)
}

/// Whether the page `v` is mapped in `map` for code in user mode.
pub open spec fn user_page(map: Map<u64, Pte>, v: u64) -> bool {
    map.contains_key(v) && map[v].flags.user
}

/// How the frames of a space and of its allocator change together when the
/// space takes frames: the space keeps what it owned, every frame it gained
/// was free before, and the allocator has handed out just these more.
pub open spec fn frames_taken(
    owned_before: Set<u64>,
    owned_after: Set<u64>,
    allocated_before: Set<u64>,
    allocated_after: Set<u64>,
) -> bool {
    &&& owned_before.subset_of(owned_after)
    &&& allocated_after == allocated_before.union(owned_after)
    &&& owned_after.difference(owned_before).disjoint(allocated_before)
}

pub struct AddressSpace {
    root_ppn: u64,
    root: Vec<Option<MidTable>>,
    owned: Vec<u64>,
}

impl View for AddressSpace {
    type V = Map<u64, Pte>;

    /// The mappings of the space: for each mapped page its entry.
    closed spec fn view(&self) -> Map<u64, Pte> {
        Map::new(
            |vpn: u64| vpn < VPN_LIMIT && walk(self.root@, vpn) is Some,
            |vpn: u64| walk(self.root@, vpn)->0,
        )
    }
}

impl AddressSpace {
    /// The frames that the space owns: those of its tables and those that it
    /// allocated for pages.
    pub closed spec fn owned_frames(&self) -> Set<u64> {
        Set::new(|p: u64| self.owned@.contains(p))
    }

    /// The frame of the root table.
    pub closed spec fn root_frame(&self) -> u64 {
        self.root_ppn
    }

    pub closed spec fn wf(&self) -> bool {
        &&& self.root@.len() == ENTRIES
        &&& forall|i: int|
            0 <= i < ENTRIES && (#[trigger] self.root@[i]) is Some ==> self.root@[i]->0.wf()
        &&& self.owned@.no_duplicates()
        &&& self.owned@.contains(self.root_ppn)
        &&& tables_owned(self.root@, self.owned@)
        &&& forall|vpn: u64|
            vpn < VPN_LIMIT && (#[trigger] walk(self.root@, vpn)) is Some && walk(
                self.root@,
                vpn,
            )->0.flags.owned ==> self.owned@.contains(walk(self.root@, vpn)->0.ppn)
    }

    /// Whether every frame that the space owns is handed out by `frames`.
    pub open spec fn within(&self, frames: &FrameAllocator) -> bool {
        self.owned_frames().subset_of(frames.allocated())
    }

    /// Every mapped page lies in the address space, its entry is valid and
    /// names a physical frame, and a frame that the entry marks as owned is
    /// one that the space owns.
    pub proof fn lemma_mappings(&self, vpn: u64)
        requires
            self.wf(),
            self@.contains_key(vpn),
        ensures
            vpn < VPN_LIMIT,
            self@[vpn].flags.valid,
            self@[vpn].ppn < PPN_LIMIT,
            self@[vpn].flags.owned ==> self.owned_frames().contains(self@[vpn].ppn),
            self.owned_frames().contains(self.root_frame()),
    {
        lemma_indices(vpn);
        let mid = self.root@[index_in(vpn, 2)]->0;
        let leaf = mid.children@[index_in(vpn, 1)]->0;
        assert(mid.wf());
        assert(leaf.wf());
    }

    /// A new address space without mappings.  Its root table takes one frame;
    /// `None`, with nothing changed, exactly when none is free.
    pub fn new(frames: &mut FrameAllocator) -> (r: Option<Self>)
        requires
            old(frames).wf(),
        ensures
            final(frames).wf(),
            final(frames).first() == old(frames).first(),
            final(frames).count() == old(frames).count(),
            match r {
                Some(space) => {
                    &&& space.wf()
                    &&& final(frames).free_frames() + 1 == old(frames).free_frames()
                    &&& space@ == Map::<u64, Pte>::empty()
                    &&& !old(frames).allocated().contains(space.root_frame())
                    &&& space.owned_frames() == Set::<u64>::empty().insert(space.root_frame())
                    &&& final(frames).allocated() == old(frames).allocated().insert(
                        space.root_frame(),
                    )
                    &&& space.within(final(frames))
                },
                None => {
                    &&& *final(frames) == *old(frames)
                    &&& old(frames).free_frames() == 0
                },
            },
    {
        let root_ppn = match frames.allocate() {
            Some(p) => p,
            None => {
                return None;
            },
        };
        let mut root: Vec<Option<MidTable>> = Vec::new();
        let mut i: u64 = 0;
        while i < ENTRIES
            invariant
                i <= ENTRIES,
                root@.len() == i,
                forall|k: int| 0 <= k < i ==> (#[trigger] root@[k]) is None,
            decreases ENTRIES - i,
        {
            root.push(None);
            i = i + 1;
        }
        let mut owned: Vec<u64> = Vec::new();
        owned.push(root_ppn);
        let space = AddressSpace { root_ppn, root, owned };
        proof {
            assert(space@ =~= Map::<u64, Pte>::empty()) by {
                assert forall|vpn: u64| !space@.contains_key(vpn) by {
                    if vpn < VPN_LIMIT {
                        lemma_indices(vpn);
                    }
                }
            }
            assert(space.owned@ =~= seq![root_ppn]);
            assert(space.owned@[0] == root_ppn);
            assert(space.owned_frames() =~= Set::<u64>::empty().insert(root_ppn));
            assert forall|vpn: u64| vpn < VPN_LIMIT implies walk(space.root@, vpn) is None by {
                lemma_indices(vpn);
            }
        }
        Some(space)
    }

    /// The frame of the table of the middle level at place `i2` of the
    /// root, if that table is there.
    pub closed spec fn mid_frame(&self, i2: int) -> Option<u64> {
        if 0 <= i2 < ENTRIES && self.root@[i2] is Some {
            Some(self.root@[i2]->0.ppn)
        } else {
            None
        }
    }

    /// The frame of the table of the lowest level at place `i1` of the
    /// middle table at place `i2`, if that table is there.
    pub closed spec fn leaf_frame(&self, i2: int, i1: int) -> Option<u64> {
        if 0 <= i2 < ENTRIES && 0 <= i1 < ENTRIES && self.root@[i2] is Some
            && self.root@[i2]->0.children@[i1] is Some {
            Some(self.root@[i2]->0.children@[i1]->0.ppn)
        } else {
            None
        }
    }

    /// The frame of the table of the middle level at place `i2` of the
    /// root, if that table is there.
    pub fn mid_table(&self, i2: usize) -> (r: Option<u64>)
        requires
            self.wf(),
        ensures
            r == self.mid_frame(i2 as int),
    {
        if i2 >= ENTRIES as usize {
            return None;
        }
        match &self.root[i2] {
            Some(mid) => Some(mid.ppn),
            None => None,
        }
    }

    /// The frame of the table of the lowest level at place `i1` of the
    /// middle table at place `i2`, if that table is there.
    pub fn leaf_table(&self, i2: usize, i1: usize) -> (r: Option<u64>)
        requires
            self.wf(),
        ensures
            r == self.leaf_frame(i2 as int, i1 as int),
    {
        if i2 >= ENTRIES as usize || i1 >= ENTRIES as usize {
            return None;
        }
        match &self.root[i2] {
            Some(mid) => {
                assert(mid.wf());
                match &mid.children[i1] {
                    Some(leaf) => Some(leaf.ppn),
                    None => None,
                }
            },
            None => None,
        }
    }

    /// The frame of the root table, which selects the space.
    pub fn root_ppn(&self) -> (ppn: u64)
        ensures
            ppn == self.root_frame(),
    {
        self.root_ppn
    }

    /// The entry of the page `vpn`, if it is mapped.
    pub fn entry(&self, vpn: u64) -> (r: Option<Pte>)
        requires
            self.wf(),
        ensures
            r == if self@.contains_key(vpn) {
                Some(self@[vpn])
            } else {
                None
            },
    {
        if vpn >= VPN_LIMIT {
            return None;
        }
        let i2 = index_of(vpn, 2);
        let i1 = index_of(vpn, 1);
        let i0 = index_of(vpn, 0);
        match &self.root[i2] {
            None => None,
            Some(mid) => {
                assert(mid.wf());
                match &mid.children[i1] {
                    None => None,
                    Some(leaf) => {
                        assert(leaf.wf());
                        let e = leaf.entries[i0];
                        if e.flags.valid {
                            Some(e)
                        } else {
                            None
                        }
                    },
                }
            },
        }
    }

    /// Translates the virtual address `addr` for an access that needs the
    /// flags `required`.  `None` if the page is not mapped, or is mapped
    /// without one of these flags.
    pub fn translate(&self, addr: u64, required: VmFlags) -> (r: Option<u64>)
        requires
            self.wf(),
        ensures
            r == translated(self@, addr, required),
    {
        let vpn = page_of(addr);
        match self.entry(vpn) {
            None => None,
            Some(pte) => {
                proof {
                    self.lemma_mappings(vpn);
                }
                if pte.flags.contains(required) {
                    Some(pte.ppn * PAGE_SIZE + page_offset(addr))
                } else {
                    None
                }
            },
        }
    }

    /// Makes the table of the middle level at place `i2` of the root, if it
    /// is not there.  `false` if no frame was left for it.
    fn ensure_mid(&mut self, frames: &mut FrameAllocator, i2: usize) -> (ok: bool)
        requires
            old(self).wf(),
            old(frames).wf(),
            old(self).within(old(frames)),
            i2 < ENTRIES,
        ensures
            final(self).wf(),
            final(frames).wf(),
            final(self).within(final(frames)),
            final(self).root_frame() == old(self).root_frame(),
            final(frames).first() == old(frames).first(),
            final(frames).count() == old(frames).count(),
            frames_taken(
                old(self).owned_frames(),
                final(self).owned_frames(),
                old(frames).allocated(),
                final(frames).allocated(),
            ),
            final(self)@ == old(self)@,
            ok ==> final(self).root@[i2 as int] is Some,
            final(frames).free_frames() <= old(frames).free_frames() <= final(frames).free_frames()
                + 1,
            !ok ==> old(frames).free_frames() == 0,
    {
        proof {
            assert(frames.allocated().union(self.owned_frames()) =~= frames.allocated());
        }
        if self.root[i2].is_some() {
            return true;
        }
        match frames.allocate() {
            None => false,
            Some(p) => {
                self.owned.push(p);
                self.root[i2] = Some(MidTable::new(p));
                proof {
                    lemma_pushed(old(self).owned@, p);
                    assert forall|v: u64| v < VPN_LIMIT implies walk(self.root@, v) == walk(
                        old(self).root@,
                        v,
                    ) by {
                        lemma_indices(v);
                    }
                    assert(self@ =~= old(self)@);
                    assert(frames.allocated() =~= old(frames).allocated().union(
                        self.owned_frames(),
                    ));
                }
                true
            },
        }
    }

    /// Makes the table of the lowest level at place `i1` of the middle table
    /// at place `i2`, if it is not there.  `false` if no frame was left for it.
    fn ensure_leaf(&mut self, frames: &mut FrameAllocator, i2: usize, i1: usize) -> (ok: bool)
        requires
            old(self).wf(),
            old(frames).wf(),
            old(self).within(old(frames)),
            i2 < ENTRIES,
            i1 < ENTRIES,
            old(self).root@[i2 as int] is Some,
        ensures
            final(self).wf(),
            final(frames).wf(),
            final(self).within(final(frames)),
            final(self).root_frame() == old(self).root_frame(),
            final(frames).first() == old(frames).first(),
            final(frames).count() == old(frames).count(),
            frames_taken(
                old(self).owned_frames(),
                final(self).owned_frames(),
                old(frames).allocated(),
                final(frames).allocated(),
            ),
            final(self)@ == old(self)@,
            final(self).root@[i2 as int] is Some,
            ok ==> final(self).root@[i2 as int]->0.children@[i1 as int] is Some,
            final(frames).free_frames() <= old(frames).free_frames() <= final(frames).free_frames()
                + 1,
            !ok ==> old(frames).free_frames() == 0,
    {
        proof {
            assert(frames.allocated().union(self.owned_frames()) =~= frames.allocated());
        }
        let present = match &self.root[i2] {
            Some(mid) => {
                assert(mid.wf());
                mid.children[i1].is_some()
            },
            None => false,
        };
        if present {
            return true;
        }
        match frames.allocate() {
            None => false,
            Some(p) => {
                self.owned.push(p);
                match &mut self.root[i2] {
                    Some(mid) => {
                        mid.children[i1] = Some(LeafTable::new(p));
                    },
                    None => {},
                }
                proof {
                    lemma_pushed(old(self).owned@, p);
                    let mid0 = old(self).root@[i2 as int]->0;
                    assert(mid0.wf());
                    assert forall|v: u64| v < VPN_LIMIT implies walk(self.root@, v) == walk(
                        old(self).root@,
                        v,
                    ) by {
                        lemma_indices(v);
                    }
                    assert forall|i: int|
                        0 <= i < ENTRIES && (#[trigger] self.root@[i]) is Some
                            implies self.root@[i]->0.wf() by {
                        if i != i2 {
                            assert(self.root@[i] == old(self).root@[i]);
                        } else {
                            let mid = self.root@[i]->0;
                            assert forall|j: int|
                                0 <= j < ENTRIES && (#[trigger] mid.children@[j]) is Some
                                    implies mid.children@[j]->0.wf() by {
                                if j != i1 {
                                    assert(mid.children@[j] == mid0.children@[j]);
                                }
                            }
                        }
                    }
                    assert(self@ =~= old(self)@);
                    assert(frames.allocated() =~= old(frames).allocated().union(
                        self.owned_frames(),
                    ));
                }
                true
            },
        }
    }

    /// Writes the entry of the page `vpn`, whose tables are there.
    fn set_entry(&mut self, vpn: u64, pte: Pte)
        requires
            old(self).wf(),
            vpn < VPN_LIMIT,
            old(self).root@[index_in(vpn, 2)] is Some,
            old(self).root@[index_in(vpn, 2)]->0.children@[index_in(vpn, 1)] is Some,
            pte.flags.valid ==> pte.ppn < PPN_LIMIT,
            pte.flags.valid && pte.flags.owned ==> old(self).owned_frames().contains(pte.ppn),
        ensures
            final(self).wf(),
            final(self).root_frame() == old(self).root_frame(),
            final(self).owned_frames() == old(self).owned_frames(),
            final(self)@ == if pte.flags.valid {
                old(self)@.insert(vpn, pte)
            } else {
                old(self)@.remove(vpn)
            },
    {
        let i2 = index_of(vpn, 2);
        let i1 = index_of(vpn, 1);
        let i0 = index_of(vpn, 0);
        match &mut self.root[i2] {
            Some(mid) => {
                match &mut mid.children[i1] {
                    Some(leaf) => {
                        leaf.entries[i0] = pte;
                    },
                    None => {},
                }
            },
            None => {},
        }
        proof {
            let root0 = old(self).root@;
            let mid0 = root0[i2 as int]->0;
            let leaf0 = mid0.children@[i1 as int]->0;
            assert(mid0.wf());
            assert(leaf0.wf());
            assert forall|v: u64| v < VPN_LIMIT implies #[trigger] walk(self.root@, v) == if v
                == vpn {
                if pte.flags.valid {
                    Some(pte)
                } else {
                    None
                }
            } else {
                walk(root0, v)
            } by {
                lemma_indices(v);
                lemma_indices(vpn);
                if v != vpn {
                    if index_in(v, 2) == index_in(vpn, 2) && index_in(v, 1) == index_in(vpn, 1)
                        && index_in(v, 0) == index_in(vpn, 0) {
                        lemma_indices_injective(v, vpn);
                    }
                }
            }
            assert forall|i: int|
                0 <= i < ENTRIES && (#[trigger] self.root@[i]) is Some
                    implies self.root@[i]->0.wf() by {
                if i != i2 {
                    assert(self.root@[i] == root0[i]);
                } else {
                    let mid = self.root@[i]->0;
                    assert forall|j: int|
                        0 <= j < ENTRIES && (#[trigger] mid.children@[j]) is Some
                            implies mid.children@[j]->0.wf() by {
                        if j != i1 {
                            assert(mid.children@[j] == mid0.children@[j]);
                        } else {
                            let leaf = mid.children@[j]->0;
                            assert forall|k: int|
                                0 <= k < ENTRIES && (#[trigger] leaf.entries@[k]).flags.valid implies leaf.entries@[k].ppn
                                < PPN_LIMIT by {
                                if k != i0 {
                                    assert(leaf.entries@[k] == leaf0.entries@[k]);
                                }
                            }
                        }
                    }
                }
            }
            assert forall|v: u64|
                v < VPN_LIMIT && (#[trigger] walk(self.root@, v)) is Some && walk(
                    self.root@,
                    v,
                )->0.flags.owned implies self.owned@.contains(walk(self.root@, v)->0.ppn) by {
                if v != vpn {
                    assert(walk(root0, v) is Some);
                }
            }
            if pte.flags.valid {
                assert(self@ =~= old(self)@.insert(vpn, pte));
            } else {
                assert(self@ =~= old(self)@.remove(vpn));
            }
        }
    }

    /// Maps the page `vpn` with the entry `pte`, making the tables on the way
    /// to it as needed.
    fn map_page(&mut self, frames: &mut FrameAllocator, vpn: u64, pte: Pte) -> (r: Result<
        (),
        MapError,
    >)
        requires
            old(self).wf(),
            old(frames).wf(),
            old(self).within(old(frames)),
            vpn < VPN_LIMIT,
            pte.flags.valid,
            pte.ppn < PPN_LIMIT,
            pte.flags.owned ==> old(self).owned_frames().contains(pte.ppn),
        ensures
            final(self).wf(),
            final(frames).wf(),
            final(self).within(final(frames)),
            final(self).root_frame() == old(self).root_frame(),
            final(frames).first() == old(frames).first(),
            final(frames).count() == old(frames).count(),
            frames_taken(
                old(self).owned_frames(),
                final(self).owned_frames(),
                old(frames).allocated(),
                final(frames).allocated(),
            ),
            match r {
                Ok(()) => {
                    &&& !old(self)@.contains_key(vpn)
                    &&& final(self)@ == old(self)@.insert(vpn, pte)
                },
                Err(e) => {
                    &&& final(self)@ == old(self)@
                    &&& e == MapError::AlreadyMapped || e == MapError::OutOfFrames
                    &&& e == MapError::AlreadyMapped <==> old(self)@.contains_key(vpn)
                    &&& e == MapError::OutOfFrames ==> final(frames).free_frames() == 0 && old(
                        frames,
                    ).free_frames() <= 1
                },
            },
            final(frames).free_frames() <= old(frames).free_frames() <= final(frames).free_frames()
                + 2,
    {
        let i2 = index_of(vpn, 2);
        let i1 = index_of(vpn, 1);
        if self.entry(vpn).is_some() {
            proof {
                assert(frames.allocated().union(self.owned_frames()) =~= frames.allocated());
            }
            return Err(MapError::AlreadyMapped);
        }
        if !self.ensure_mid(frames, i2) {
            return Err(MapError::OutOfFrames);
        }
        let ghost owned1 = self.owned_frames();
        let ghost alloc1 = frames.allocated();
        if !self.ensure_leaf(frames, i2, i1) {
            proof {
                lemma_frames_taken_twice(
                    old(self).owned_frames(),
                    owned1,
                    self.owned_frames(),
                    old(frames).allocated(),
                    alloc1,
                    frames.allocated(),
                );
            }
            return Err(MapError::OutOfFrames);
        }
        proof {
            lemma_frames_taken_twice(
                old(self).owned_frames(),
                owned1,
                self.owned_frames(),
                old(frames).allocated(),
                alloc1,
                frames.allocated(),
            );
        }
        self.set_entry(vpn, pte);
        Ok(())
    }

    /// Takes the mapping of the page `vpn` away, if there is one.  The tables
    /// stay, and so do the frames.
    fn unmap_page(&mut self, vpn: u64)
        requires
            old(self).wf(),
        ensures
            final(self).wf(),
            final(self).root_frame() == old(self).root_frame(),
            final(self).owned_frames() == old(self).owned_frames(),
            final(self)@ == old(self)@.remove(vpn),
    {
        if self.entry(vpn).is_none() {
            proof {
                assert(self@ =~= old(self)@.remove(vpn));
            }
            return ;
        }
        proof {
            lemma_indices(vpn);
        }
        self.set_entry(vpn, Pte::empty());
    }

    /// Whether none of the pages from `start` up to `end` is mapped.
    pub fn is_range_free(&self, start: u64, end: u64) -> (b: bool)
        requires
            self.wf(),
        ensures
            b == range_free(self@, start, end),
    {
        let limit = if end < VPN_LIMIT {
            end
        } else {
            VPN_LIMIT
        };
        let mut v = start;
        while v < limit
            invariant
                self.wf(),
                limit <= VPN_LIMIT,
                limit <= end,
                end < VPN_LIMIT ==> limit == end,
                start <= v,
                v <= limit || v == start,
                range_free(self@, start, v),
            decreases limit - v,
        {
            if self.entry(v).is_some() {
                assert(start <= v < end && self@.contains_key(v));
                return false;
            }
            v = v + 1;
        }
        proof {
            assert forall|w: u64| start <= w < end implies !self@.contains_key(w) by {
                if w >= VPN_LIMIT {
                    if self@.contains_key(w) {
                        self.lemma_mappings(w);
                    }
                }
            }
        }
        true
    }

    /// Whether every page from `start` up to `end` is mapped for code in
    /// user mode.
    pub fn is_range_user(&self, start: u64, end: u64) -> (b: bool)
        requires
            self.wf(),
        ensures
            b == range_user(self@, start, end),
    {
        if start < end && end > VPN_LIMIT {
            proof {
                let beyond = if start <= VPN_LIMIT {
                    VPN_LIMIT
                } else {
                    start
                };
                if self@.contains_key(beyond) {
                    self.lemma_mappings(beyond);
                }
                assert(!user_page(self@, beyond));
            }
            return false;
        }
        let mut v = start;
        while v < end
            invariant
                self.wf(),
                end <= VPN_LIMIT || start >= end,
                start <= v,
                v <= end || v == start,
                range_user(self@, start, v),
            decreases end - v,
        {
            let mapped = match self.entry(v) {
                Some(pte) => pte.flags.user,
                None => false,
            };
            assert(mapped == user_page(self@, v));
            if !mapped {
                return false;
            }
            v = v + 1;
        }
        true
    }

    /// Takes the mappings of the pages from `start` up to `end` away.  The
    /// frames that the space owns stay with it until it is torn down.
    pub fn unmap(&mut self, start: u64, end: u64)
        requires
            old(self).wf(),
        ensures
            final(self).wf(),
            final(self).root_frame() == old(self).root_frame(),
            final(self).owned_frames() == old(self).owned_frames(),
            final(self)@ == unmapped(old(self)@, start, end),
    {
        let limit = if end < VPN_LIMIT {
            end
        } else {
            VPN_LIMIT
        };
        let mut v = start;
        proof {
            assert(self@ =~= unmapped(old(self)@, start, start));
        }
        while v < limit
            invariant
                self.wf(),
                limit <= VPN_LIMIT,
                limit <= end,
                end < VPN_LIMIT ==> limit == end,
                start <= v,
                v <= limit || v == start,
                self.root_frame() == old(self).root_frame(),
                self.owned_frames() == old(self).owned_frames(),
                self@ == unmapped(old(self)@, start, v),
            decreases limit - v,
        {
            self.unmap_page(v);
            proof {
                assert(self@ =~= unmapped(old(self)@, start, (v + 1) as u64));
            }
            v = v + 1;
        }
        proof {
            assert forall|w: u64| old(self)@.contains_key(w) implies w < VPN_LIMIT by {
                old(self).lemma_mappings(w);
            }
            assert forall|w: u64|
                self@.contains_key(w) <==> old(self)@.contains_key(w) && !(start <= w < end) by {
                if old(self)@.contains_key(w) {
                    assert(w < VPN_LIMIT);
                }
            }
            assert(self@ =~= unmapped(old(self)@, start, end));
        }
    }

    /// Maps the pages from `start` up to `end`, in order, to the frames from
    /// `pbase` on, which the caller provides and keeps.  Tables are made as
    /// needed.  On an error no mapping has changed.
    pub fn map_extern(
        &mut self,
        frames: &mut FrameAllocator,
        start: u64,
        end: u64,
        pbase: u64,
        flags: VmFlags,
    ) -> (r: Result<(), MapError>)
        requires
            old(self).wf(),
            old(frames).wf(),
            old(self).within(old(frames)),
        ensures
            final(self).wf(),
            final(frames).wf(),
            final(self).within(final(frames)),
            final(self).root_frame() == old(self).root_frame(),
            final(frames).first() == old(frames).first(),
            final(frames).count() == old(frames).count(),
            frames_taken(
                old(self).owned_frames(),
                final(self).owned_frames(),
                old(frames).allocated(),
                final(frames).allocated(),
            ),
            match r {
                Ok(()) => {
                    &&& range_ok(start, end)
                    &&& pbase + (end - start) <= PPN_LIMIT
                    &&& flags.valid && !flags.owned
                    &&& range_free(old(self)@, start, end)
                    &&& final(self)@ == mapped_extern(old(self)@, start, end, pbase, flags)
                },
                Err(e) => {
                    &&& final(self)@ == old(self)@
                    &&& e == MapError::BadRange <==> !(range_ok(start, end) && pbase + (end
                        - start) <= PPN_LIMIT)
                    &&& e == MapError::BadFlags <==> range_ok(start, end) && pbase + (end - start)
                        <= PPN_LIMIT && !(flags.valid && !flags.owned)
                    &&& e == MapError::AlreadyMapped <==> range_ok(start, end) && pbase + (end
                        - start) <= PPN_LIMIT && flags.valid && !flags.owned && !range_free(
                        old(self)@,
                        start,
                        end,
                    )
                    &&& e == MapError::OutOfFrames ==> old(frames).free_frames() < 2 * (end
                        - start)
                },
            },
            final(frames).free_frames() <= old(frames).free_frames(),
            range_ok(start, end) ==> old(frames).free_frames()
                <= final(frames).free_frames() + 2 * (
            end - start),
    {
        proof {
            assert(frames.allocated().union(self.owned_frames()) =~= frames.allocated());
        }
        if start > end || end > VPN_LIMIT || pbase > PPN_LIMIT || end - start > PPN_LIMIT - pbase {
            return Err(MapError::BadRange);
        }
        if !flags.valid || flags.owned {
            return Err(MapError::BadFlags);
        }
        if !self.is_range_free(start, end) {
            return Err(MapError::AlreadyMapped);
        }
        let mut v = start;
        proof {
            assert(self@ =~= mapped_extern(old(self)@, start, start, pbase, flags));
        }
        while v < end
            invariant
                start <= v <= end <= VPN_LIMIT,
                pbase + (end - start) <= PPN_LIMIT,
                flags.valid && !flags.owned,
                self.wf(),
                frames.wf(),
                self.within(frames),
                old(self).within(old(frames)),
                self.root_frame() == old(self).root_frame(),
                frames.first() == old(frames).first(),
                frames.count() == old(frames).count(),
                frames_taken(
                    old(self).owned_frames(),
                    self.owned_frames(),
                    old(frames).allocated(),
                    frames.allocated(),
                ),
                range_free(old(self)@, start, end),
                self@ == mapped_extern(old(self)@, start, v, pbase, flags),
                frames.free_frames() <= old(frames).free_frames() <= frames.free_frames() + 2 * (v
                    - start),
            decreases end - v,
        {
            let ghost owned1 = self.owned_frames();
            let ghost alloc1 = frames.allocated();
            let ghost before = self@;
            let pte = Pte { ppn: pbase + (v - start), flags };
            let r = self.map_page(frames, v, pte);
            proof {
                lemma_frames_taken_twice(
                    old(self).owned_frames(),
                    owned1,
                    self.owned_frames(),
                    old(frames).allocated(),
                    alloc1,
                    frames.allocated(),
                );
            }
            match r {
                Ok(()) => {
                    proof {
                        assert(self@ =~= mapped_extern(
                            old(self)@,
                            start,
                            (v + 1) as u64,
                            pbase,
                            flags,
                        ));
                    }
                },
                Err(e) => {
                    assert(!before.contains_key(v));
                    self.unmap(start, v);
                    proof {
                        assert(self@ =~= old(self)@);
                    }
                    return Err(MapError::OutOfFrames);
                },
            }
            v = v + 1;
        }
        Ok(())
    }

    /// Maps the pages from `start` up to `end` to frames of their own, which
    /// are taken from `frames`, belong to the space from then on and are
    /// marked as owned in the entries.  The frames are handed back in the
    /// order of the pages, for the caller to clear or fill.  On an error no
    /// mapping has changed; frames that were taken before the error stay with
    /// the space.
    pub fn map_with_allocation(
        &mut self,
        frames: &mut FrameAllocator,
        start: u64,
        end: u64,
        flags: VmFlags,
    ) -> (r: Result<Vec<u64>, MapError>)
        requires
            old(self).wf(),
            old(frames).wf(),
            old(self).within(old(frames)),
        ensures
            final(self).wf(),
            final(frames).wf(),
            final(self).within(final(frames)),
            final(self).root_frame() == old(self).root_frame(),
            final(frames).first() == old(frames).first(),
            final(frames).count() == old(frames).count(),
            frames_taken(
                old(self).owned_frames(),
                final(self).owned_frames(),
                old(frames).allocated(),
                final(frames).allocated(),
            ),
            match r {
                Ok(taken) => {
                    &&& range_ok(start, end)
                    &&& flags.valid
                    &&& range_free(old(self)@, start, end)
                    &&& taken@.len() == end - start
                    &&& taken@.no_duplicates()
                    &&& forall|i: int|
                        0 <= i < taken@.len() ==> !old(frames).allocated().contains(
                            #[trigger] taken@[i],
                        ) && final(self).owned_frames().contains(taken@[i])
                    &&& final(self)@ == mapped_frames(
                        old(self)@,
                        start,
                        end,
                        taken@,
                        flags.or(owned_flag()),
                    )
                },
                Err(e) => {
                    &&& final(self)@ == old(self)@
                    &&& e == MapError::BadRange <==> !range_ok(start, end)
                    &&& e == MapError::BadFlags <==> range_ok(start, end) && !flags.valid
                    &&& e == MapError::AlreadyMapped <==> range_ok(start, end) && flags.valid
                        && !range_free(old(self)@, start, end)
                    &&& e == MapError::OutOfFrames ==> old(frames).free_frames() < 3 * (end
                        - start)
                },
            },
            final(frames).free_frames() <= old(frames).free_frames(),
            range_ok(start, end) ==> old(frames).free_frames()
                <= final(frames).free_frames() + 3 * (
            end - start),
            r is Ok ==> final(frames).free_frames() + (end - start) <= old(frames).free_frames(),
    {
        proof {
            assert(frames.allocated().union(self.owned_frames()) =~= frames.allocated());
        }
        if start > end || end > VPN_LIMIT {
            return Err(MapError::BadRange);
        }
        if !flags.valid {
            return Err(MapError::BadFlags);
        }
        if !self.is_range_free(start, end) {
            return Err(MapError::AlreadyMapped);
        }
        let page_flags = flags.union(
            VmFlags {
                valid: false,
                readable: false,
                writable: false,
                executable: false,
                user: false,
                global: false,
                accessed: false,
                dirty: false,
                owned: true,
            },
        );
        let mut taken: Vec<u64> = Vec::new();
        let mut v = start;
        proof {
            assert(self@ =~= mapped_frames(old(self)@, start, start, taken@, page_flags));
        }
        while v < end
            invariant
                start <= v <= end <= VPN_LIMIT,
                page_flags == flags.or(owned_flag()),
                flags.valid,
                self.wf(),
                frames.wf(),
                self.within(frames),
                old(self).within(old(frames)),
                self.root_frame() == old(self).root_frame(),
                frames.first() == old(frames).first(),
                frames.count() == old(frames).count(),
                frames_taken(
                    old(self).owned_frames(),
                    self.owned_frames(),
                    old(frames).allocated(),
                    frames.allocated(),
                ),
                range_free(old(self)@, start, end),
                taken@.len() == v - start,
                taken@.no_duplicates(),
                forall|i: int|
                    0 <= i < taken@.len() ==> !old(frames).allocated().contains(
                        #[trigger] taken@[i],
                    ) && self.owned_frames().contains(taken@[i]),
                self@ == mapped_frames(old(self)@, start, v, taken@, page_flags),
                frames.free_frames() <= old(frames).free_frames() <= frames.free_frames() + 3 * (v
                    - start),
                frames.free_frames() + (v - start) <= old(frames).free_frames(),
            decreases end - v,
        {
            let ghost owned1 = self.owned_frames();
            let ghost alloc1 = frames.allocated();
            let ghost before = self@;
            let ghost taken1 = taken@;
            let ghost seq1 = self.owned@;
            let frame = match frames.allocate() {
                Some(p) => p,
                None => {
                    self.unmap(start, v);
                    proof {
                        assert(self@ =~= old(self)@);
                    }
                    return Err(MapError::OutOfFrames);
                },
            };
            self.owned.push(frame);
            proof {
                assert(!owned1.contains(frame));
                assert(!seq1.contains(frame));
                assert(self.owned@.drop_last() =~= seq1);
            }
            assert(self.wf() && self.within(frames) && frames_taken(
                old(self).owned_frames(),
                self.owned_frames(),
                old(frames).allocated(),
                frames.allocated(),
            ) && self@ == before && self.owned_frames() == owned1.insert(frame)) by {
                self.lemma_owned_pushed(owned1, frame);
                assert(frames.allocated() =~= old(frames).allocated().union(self.owned_frames()));
            }
            let ghost owned2 = self.owned_frames();
            let ghost alloc2 = frames.allocated();
            let r = self.map_page(frames, v, Pte { ppn: frame, flags: page_flags });
            proof {
                lemma_frames_taken_twice(
                    old(self).owned_frames(),
                    owned2,
                    self.owned_frames(),
                    old(frames).allocated(),
                    alloc2,
                    frames.allocated(),
                );
            }
            match r {
                Ok(()) => {
                    taken.push(frame);
                    proof {
                        assert forall|i: int| 0 <= i < taken@.len() implies !old(
                            frames,
                        ).allocated().contains(#[trigger] taken@[i])
                            && self.owned_frames().contains(taken@[i]) by {
                            if i < taken1.len() {
                                assert(taken@[i] == taken1[i]);
                                assert(owned1.contains(taken1[i]));
                            }
                        }
                        assert(taken@.no_duplicates()) by {
                            assert forall|i: int, j: int|
                                0 <= i < taken@.len() && 0 <= j < taken@.len() && i
                                    != j implies taken@[i] != taken@[j] by {
                                if i < taken1.len() {
                                    assert(owned1.contains(taken1[i]));
                                }
                                if j < taken1.len() {
                                    assert(owned1.contains(taken1[j]));
                                }
                            }
                        }
                        assert(self@ =~= mapped_frames(
                            old(self)@,
                            start,
                            (v + 1) as u64,
                            taken@,
                            page_flags,
                        ));
                    }
                },
                Err(e) => {
                    self.unmap(start, v);
                    proof {
                        assert(self@ =~= old(self)@);
                    }
                    return Err(MapError::OutOfFrames);
                },
            }
            v = v + 1;
        }
        Ok(taken)
    }

    /// Gives every frame that the space owns back to `frames`.
    pub fn teardown(self, frames: &mut FrameAllocator)
        requires
            self.wf(),
            old(frames).wf(),
            self.within(old(frames)),
        ensures
            final(frames).wf(),
            final(frames).first() == old(frames).first(),
            final(frames).count() == old(frames).count(),
            final(frames).allocated() == old(frames).allocated().difference(self.owned_frames()),
            final(frames).free_frames() >= old(frames).free_frames(),
    {
        let n = self.owned.len();
        let mut i: usize = 0;
        proof {
            assert(frames.allocated() =~= old(frames).allocated().difference(
                Set::new(|p: u64| self.owned@.subrange(0, 0).contains(p)),
            ));
        }
        while i < n
            invariant
                i <= n,
                n == self.owned@.len(),
                self.wf(),
                frames.wf(),
                frames.first() == old(frames).first(),
                frames.count() == old(frames).count(),
                frames.allocated() == old(frames).allocated().difference(
                    Set::new(|p: u64| self.owned@.subrange(0, i as int).contains(p)),
                ),
                frames.free_frames() >= old(frames).free_frames(),
            decreases n - i,
        {
            let p = self.owned[i];
            let ghost before = frames.allocated();
            frames.deallocate(p);
            proof {
                let done = self.owned@.subrange(0, i as int);
                let next = self.owned@.subrange(0, i + 1);
                assert(next =~= done.push(p));
                assert(!done.contains(p)) by {
                    if done.contains(p) {
                        let k = choose|k: int| 0 <= k < done.len() && done[k] == p;
                        assert(self.owned@[k] == self.owned@[i as int]);
                    }
                }
                lemma_pushed(done, p);
                assert(frames.allocated() =~= old(frames).allocated().difference(
                    Set::new(|q: u64| next.contains(q)),
                ));
            }
            i = i + 1;
        }
        proof {
            assert(self.owned@.subrange(0, n as int) =~= self.owned@);
        }
    }

    /// After a frame that the space did not own has been added to its list,
    /// the space is as it was but for owning that frame too.
    proof fn lemma_owned_pushed(&self, owned_before: Set<u64>, frame: u64)
        requires
            self.root@.len() == ENTRIES,
            forall|i: int|
                0 <= i < ENTRIES && (#[trigger] self.root@[i]) is Some ==> self.root@[i]->0.wf(),
            self.owned@.len() > 0,
            self.owned@.last() == frame,
            self.owned@.drop_last().no_duplicates(),
            !self.owned@.drop_last().contains(frame),
            self.owned@.drop_last().contains(self.root_ppn),
            tables_owned(self.root@, self.owned@.drop_last()),
            owned_before == Set::new(|p: u64| self.owned@.drop_last().contains(p)),
            forall|vpn: u64|
                vpn < VPN_LIMIT && (#[trigger] walk(self.root@, vpn)) is Some && walk(
                    self.root@,
                    vpn,
                )->0.flags.owned ==> self.owned@.drop_last().contains(
                    walk(self.root@, vpn)->0.ppn,
                ),
        ensures
            self.wf(),
            self.owned_frames() == owned_before.insert(frame),
    {
        let s0 = self.owned@.drop_last();
        assert(self.owned@ =~= s0.push(frame));
        lemma_pushed(s0, frame);
    }

    /// Maps the trampoline, which lies in the frame `ppn`, at the top page of
    /// the space.  The frame stays with whoever set the trampoline up.
    pub fn map_trampoline(&mut self, frames: &mut FrameAllocator, ppn: u64) -> (r: Result<
        (),
        MapError,
    >)
        requires
            old(self).wf(),
            old(frames).wf(),
            old(self).within(old(frames)),
        ensures
            final(self).wf(),
            final(frames).wf(),
            final(self).within(final(frames)),
            final(self).root_frame() == old(self).root_frame(),
            final(frames).first() == old(frames).first(),
            final(frames).count() == old(frames).count(),
            frames_taken(
                old(self).owned_frames(),
                final(self).owned_frames(),
                old(frames).allocated(),
                final(frames).allocated(),
            ),
            final(frames).free_frames() <= old(frames).free_frames(),
            old(frames).free_frames() <= final(frames).free_frames() + 2,
            match r {
                Ok(()) => {
                    &&& ppn < PPN_LIMIT
                    &&& !old(self)@.contains_key(TRAMPOLINE_VPN)
                    &&& final(self)@ == old(self)@.insert(TRAMPOLINE_VPN, trampoline_entry(ppn))
                    &&& has_trampoline(final(self)@, ppn)
                },
                Err(e) => {
                    &&& final(self)@ == old(self)@
                    &&& e == MapError::BadRange <==> ppn >= PPN_LIMIT
                    &&& e == MapError::AlreadyMapped <==> ppn < PPN_LIMIT && old(
                        self,
                    )@.contains_key(TRAMPOLINE_VPN)
                    &&& e == MapError::OutOfFrames ==> old(frames).free_frames() < 2
                    &&& e != MapError::BadFlags
                },
            },
    {
        let r = self.map_extern(frames, TRAMPOLINE_VPN, TRAMPOLINE_VPN + 1, ppn,
            trampoline_flags());
        proof {
            if r is Ok {
                assert(self@ =~= old(self)@.insert(TRAMPOLINE_VPN, trampoline_entry(ppn)));
            }
            if old(self)@.contains_key(TRAMPOLINE_VPN) {
                assert(!range_free(old(self)@, TRAMPOLINE_VPN, (TRAMPOLINE_VPN + 1) as u64));
            }
        }
        r
    }

    /// Takes a frame from `frames` for the space to own.
    fn take_frame(&mut self, frames: &mut FrameAllocator) -> (r: Option<u64>)
        requires
            old(self).wf(),
            old(frames).wf(),
            old(self).within(old(frames)),
        ensures
            final(self).wf(),
            final(frames).wf(),
            final(self).within(final(frames)),
            final(self).root_frame() == old(self).root_frame(),
            final(frames).first() == old(frames).first(),
            final(frames).count() == old(frames).count(),
            final(self)@ == old(self)@,
            frames_taken(
                old(self).owned_frames(),
                final(self).owned_frames(),
                old(frames).allocated(),
                final(frames).allocated(),
            ),
            match r {
                Some(frame) => {
                    &&& !old(frames).allocated().contains(frame)
                    &&& frame < PPN_LIMIT
                    &&& final(self).owned_frames() == old(self).owned_frames().insert(frame)
                    &&& final(frames).free_frames() + 1 == old(frames).free_frames()
                },
                None => final(self).owned_frames() == old(self).owned_frames() && *final(frames)
                    == *old(frames) && old(frames).free_frames() == 0,
            },
    {
        proof {
            assert(frames.allocated().union(self.owned_frames()) =~= frames.allocated());
        }
        let frame = match frames.allocate() {
            Some(frame) => frame,
            None => {
                return None;
            },
        };
        let ghost owned0 = self.owned_frames();
        let ghost seq0 = self.owned@;
        self.owned.push(frame);
        proof {
            assert(!owned0.contains(frame));
            assert(!seq0.contains(frame));
            assert(self.owned@.drop_last() =~= seq0);
            self.lemma_owned_pushed(owned0, frame);
            assert(frames.allocated() =~= old(frames).allocated().union(self.owned_frames()));
        }
        Some(frame)
    }

    /// Whether the table of the middle level at place `i2` is there.
    fn has_mid(&self, i2: usize) -> (b: bool)
        requires
            self.wf(),
            i2 < ENTRIES,
        ensures
            b == self.root@[i2 as int] is Some,
    {
        self.root[i2].is_some()
    }

    /// Whether the table of the lowest level at place `i1` of the middle
    /// table at place `i2` is there.
    fn has_leaf(&self, i2: usize, i1: usize) -> (b: bool)
        requires
            self.wf(),
            i2 < ENTRIES,
            i1 < ENTRIES,
            self.root@[i2 as int] is Some,
        ensures
            b == self.root@[i2 as int]->0.children@[i1 as int] is Some,
    {
        match &self.root[i2] {
            Some(mid) => {
                assert(mid.wf());
                mid.children[i1].is_some()
            },
            None => false,
        }
    }

    /// No page is mapped whose way leads over a table that is not there.
    proof fn lemma_absent_table(&self, v: u64)
        requires
            self.wf(),
            v < VPN_LIMIT,
            self.root@[index_in(v, 2)] is None || self.root@[index_in(v, 2)]->0.children@[index_in(
                v,
                1,
            )] is None,
        ensures
            !self@.contains_key(v),
    {
        lemma_indices(v);
    }

    /// Maps the page `v` in this space, which is being made as a copy, as
    /// the entry `pte` of the original says: in a frame of its own if the
    /// original owns the page, else in the same frame.  `None`, with no
    /// mapping changed, if no frame was left.
    fn copy_entry(
        &mut self,
        frames: &mut FrameAllocator,
        v: u64,
        pte: Pte,
        Ghost(a0): Ghost<Set<u64>>,
    ) -> (r: Option<u64>)
        requires
            old(self).wf(),
            old(frames).wf(),
            old(self).within(old(frames)),
            v < VPN_LIMIT,
            !old(self)@.contains_key(v),
            pte.flags.valid,
            pte.ppn < PPN_LIMIT,
            old(self).owned_frames().disjoint(a0),
            old(frames).allocated() == a0.union(old(self).owned_frames()),
        ensures
            final(self).wf(),
            final(frames).wf(),
            final(self).within(final(frames)),
            final(frames).first() == old(frames).first(),
            final(frames).count() == old(frames).count(),
            final(self).owned_frames().disjoint(a0),
            final(frames).allocated() == a0.union(final(self).owned_frames()),
            match r {
                Some(frame) => {
                    &&& final(self)@ == old(self)@.insert(v, Pte { ppn: frame, flags: pte.flags })
                    &&& !pte.flags.owned ==> frame == pte.ppn
                },
                None => final(self)@ == old(self)@ && old(frames).free_frames() < 3,
            },
            final(frames).free_frames() <= old(frames).free_frames(),
            old(frames).free_frames() <= final(frames).free_frames() + 3,
    {
        let ghost o1 = self.owned_frames();
        let ghost a1 = frames.allocated();
        let frame = if pte.flags.owned {
            match self.take_frame(frames) {
                Some(frame) => frame,
                None => {
                    return None;
                },
            }
        } else {
            pte.ppn
        };
        proof {
            assert(a1.union(o1) =~= a1);
            lemma_frames_taken_keep_fresh(o1, self.owned_frames(), a0, a1, frames.allocated());
        }
        let ghost o2 = self.owned_frames();
        let ghost a2 = frames.allocated();
        let r = self.map_page(frames, v, Pte { ppn: frame, flags: pte.flags });
        proof {
            lemma_frames_taken_keep_fresh(o2, self.owned_frames(), a0, a2, frames.allocated());
        }
        match r {
            Ok(()) => Some(frame),
            Err(_) => None,
        }
    }

    /// Makes a copy of the space for a new process.  A page in a frame that
    /// the space owns gets a frame of its own in the copy, under the same
    /// flags; the pairs of frames come back in the order of the pages, for
    /// whoever copies what the frames hold.  Every other page, the trampoline
    /// among them, is mapped to the same frame in both.  On an error every
    /// frame that was taken has been given back.
    pub fn duplicate(&self, frames: &mut FrameAllocator) -> (r: Result<
        (AddressSpace, Vec<FrameCopy>),
        MapError,
    >)
        requires
            self.wf(),
            old(frames).wf(),
            self.within(old(frames)),
        ensures
            final(frames).wf(),
            final(frames).first() == old(frames).first(),
            final(frames).count() == old(frames).count(),
            match r {
                Ok((copy, copies)) => {
                    &&& copy.wf()
                    &&& copy.within(final(frames))
                    &&& copy.owned_frames().disjoint(old(frames).allocated())
                    &&& final(frames).allocated() == old(frames).allocated().union(
                        copy.owned_frames(),
                    )
                    &&& duplicated(self@, copy@, VPN_LIMIT as int)
                    &&& copies_match(self@, copy@, copies@, VPN_LIMIT as int)
                },
                Err(e) => e == MapError::OutOfFrames && final(frames).allocated() == old(
                    frames,
                ).allocated(),
            },
            old(frames).free_frames() >= frames_for_copy(self@) ==> r is Ok,
    {
        let ghost a0 = frames.allocated();
        let ghost free0 = frames.free_frames();
        proof {
            lemma_mapped_below(self@, 0, VPN_LIMIT as int);
        }
        let mut copy = match AddressSpace::new(frames) {
            Some(copy) => copy,
            None => {
                return Err(MapError::OutOfFrames);
            },
        };
        let mut copies: Vec<FrameCopy> = Vec::new();
        let mut v: u64 = 0;
        proof {
            assert(frames.allocated() =~= a0.union(copy.owned_frames()));
        }
        while v < VPN_LIMIT
            invariant
                v <= VPN_LIMIT,
                self.wf(),
                copy.wf(),
                frames.wf(),
                copy.within(frames),
                frames.first() == old(frames).first(),
                frames.count() == old(frames).count(),
                a0 == old(frames).allocated(),
                copy.owned_frames().disjoint(a0),
                frames.allocated() == a0.union(copy.owned_frames()),
                duplicated(self@, copy@, v as int),
                copies_match(self@, copy@, copies@, v as int),
                forall|w: u64| w >= v ==> !copy@.contains_key(w),
                free0 == old(frames).free_frames(),
                free0 <= frames.free_frames() + 1 + 3 * mapped_below(self@, v as int),
            decreases VPN_LIMIT - v,
        {
            let i2 = index_of(v, 2);
            let i1 = index_of(v, 1);
            proof {
                lemma_mapped_below(self@, v as int + 1, VPN_LIMIT as int);
                lemma_mapped_below(self@, v as int, v as int + 1);
            }
            if !self.has_mid(i2) {
                let next = (v / ROOT_SPAN + 1) * ROOT_SPAN;
                proof {
                    assert forall|w: u64| v <= w < next implies !self@.contains_key(w) by {
                        assert(index_in(w, 2) == index_in(v, 2));
                        self.lemma_absent_table(w);
                    }
                    lemma_mapped_below_skip(self@, v as int, next as int);
                }
                v = next;
            } else if !self.has_leaf(i2, i1) {
                let next = (v / ENTRIES + 1) * ENTRIES;
                proof {
                    assert forall|w: u64| v <= w < next implies !self@.contains_key(w) by {
                        assert(index_in(w, 2) == index_in(v, 2));
                        assert(index_in(w, 1) == index_in(v, 1));
                        self.lemma_absent_table(w);
                    }
                    lemma_mapped_below_skip(self@, v as int, next as int);
                }
                v = next;
            } else {
                match self.entry(v) {
                    None => {},
                    Some(pte) => {
                        proof {
                            self.lemma_mappings(v);
                        }
                        let ghost before = copy@;
                        let ghost copies_before = copies@;
                        match copy.copy_entry(frames, v, pte, Ghost(a0)) {
                            None => {
                                proof {
                                    assert(frames.allocated().difference(copy.owned_frames())
                                        =~= a0);
                                }
                                copy.teardown(frames);
                                return Err(MapError::OutOfFrames);
                            },
                            Some(frame) => {
                                if pte.flags.owned {
                                    copies.push(FrameCopy { vpn: v, from: pte.ppn, to: frame });
                                }
                                proof {
                                    lemma_copies_step(
                                        self@,
                                        before,
                                        copy@,
                                        copies_before,
                                        copies@,
                                        v,
                                        frame,
                                    );
                                }
                            },
                        }
                    },
                }
                v = v + 1;
            }
        }
        proof {
            assert(frames.allocated() =~= a0.union(copy.owned_frames()));
        }
        Ok((copy, copies))
    }
}

/// The number of the pages below `limit` that are mapped in `map`.
pub open spec fn mapped_below(map: Map<u64, Pte>, limit: int) -> int
    decreases limit,
{
    if limit <= 0 {
        0
    } else if map.contains_key((limit - 1) as u64) {
        mapped_below(map, limit - 1) + 1
    } else {
        mapped_below(map, limit - 1)
    }
}

/// A number of free frames with which a space with the mappings `map` is
/// sure to get its copy: one for the root table, and three for each mapped
/// page, one for the page and two for the tables on the way to it.
pub open spec fn frames_for_copy(map: Map<u64, Pte>) -> int {
    1 + 3 * mapped_below(map, VPN_LIMIT as int)
}

/// No fewer pages are mapped below a limit than below a smaller one.
pub proof fn lemma_mapped_below(map: Map<u64, Pte>, a: int, b: int)
    requires
        0 <= a <= b,
    ensures
        0 <= mapped_below(map, a) <= mapped_below(map, b),
    decreases b,
{
    if b > a {
        lemma_mapped_below(map, a, b - 1);
    } else if a > 0 {
        lemma_mapped_below(map, a - 1, a - 1);
    }
}

/// Pages that are not mapped do not count.
pub proof fn lemma_mapped_below_skip(map: Map<u64, Pte>, a: int, b: int)
    requires
        0 <= a <= b <= u64::MAX,
        forall|w: u64| a <= w < b ==> !map.contains_key(w),
    ensures
        mapped_below(map, b) == mapped_below(map, a),
    decreases b,
{
    if b > a {
        lemma_mapped_below_skip(map, a, b - 1);
        assert(!map.contains_key((b - 1) as u64));
    }
}

/// After `p` has been added to a list without it, the list holds what it held
/// and `p`, and nothing twice if it held nothing twice.
proof fn lemma_pushed(s: Seq<u64>, p: u64)
    requires
        !s.contains(p),
    ensures
        forall|q: u64| #[trigger] s.push(p).contains(q) <==> (s.contains(q) || q == p),
        s.no_duplicates() ==> s.push(p).no_duplicates(),
        Set::new(|q: u64| s.push(p).contains(q)) == Set::new(|q: u64| s.contains(q)).insert(p),
{
    assert forall|q: u64| #[trigger] s.push(p).contains(q) <==> (s.contains(q) || q == p) by {
        if s.contains(q) {
            let k = choose|k: int| 0 <= k < s.len() && s[k] == q;
            assert(s.push(p)[k] == q);
        }
        if q == p {
            assert(s.push(p)[s.len() as int] == p);
        }
    }
    assert(Set::new(|q: u64| s.push(p).contains(q)) =~= Set::new(|q: u64| s.contains(q)).insert(
        p,
    ));
}

/// Taking frames twice is taking frames.
pub proof fn lemma_frames_taken_twice(
    o0: Set<u64>,
    o1: Set<u64>,
    o2: Set<u64>,
    a0: Set<u64>,
    a1: Set<u64>,
    a2: Set<u64>,
)
    requires
        o0.subset_of(a0),
        frames_taken(o0, o1, a0, a1),
        frames_taken(o1, o2, a1, a2),
    ensures
        frames_taken(o0, o2, a0, a2),
        o2.subset_of(a2),
{
    assert(a2 =~= a0.union(o2));
    assert forall|x: u64| o2.difference(o0).contains(x) implies !a0.contains(x) by {
        if o1.contains(x) {
            assert(o1.difference(o0).contains(x));
        } else {
            assert(o2.difference(o1).contains(x));
            if a0.contains(x) {
                assert(a1.contains(x));
            }
        }
    }
}

/// Mapping pages other than the top page leaves the trampoline where it is.
pub proof fn lemma_trampoline_survives_map_extern(
    map: Map<u64, Pte>,
    ppn: u64,
    start: u64,
    end: u64,
    pbase: u64,
    flags: VmFlags,
)
    requires
        has_trampoline(map, ppn),
        !(start <= TRAMPOLINE_VPN < end),
    ensures
        has_trampoline(mapped_extern(map, start, end, pbase, flags), ppn),
{
}

/// Mapping pages other than the top page to frames of their own leaves the
/// trampoline where it is.
pub proof fn lemma_trampoline_survives_map_frames(
    map: Map<u64, Pte>,
    ppn: u64,
    start: u64,
    end: u64,
    frames: Seq<u64>,
    flags: VmFlags,
)
    requires
        has_trampoline(map, ppn),
        !(start <= TRAMPOLINE_VPN < end),
    ensures
        has_trampoline(mapped_frames(map, start, end, frames, flags), ppn),
{
}

/// Unmapping pages other than the top page leaves the trampoline where it is.
pub proof fn lemma_trampoline_survives_unmap(map: Map<u64, Pte>, ppn: u64, start: u64, end: u64)
    requires
        has_trampoline(map, ppn),
        !(start <= TRAMPOLINE_VPN < end),
    ensures
        has_trampoline(unmapped(map, start, end), ppn),
{
}

/// Two spaces that hold the same trampoline translate every address of the
/// top page alike, whatever access is asked for.
pub proof fn lemma_trampoline_translates_alike(
    a: Map<u64, Pte>,
    b: Map<u64, Pte>,
    ppn: u64,
    addr: u64,
    required: VmFlags,
)
    requires
        has_trampoline(a, ppn),
        has_trampoline(b, ppn),
        vpn_of(addr) == TRAMPOLINE_VPN,
    ensures
        translated(a, addr, required) == translated(b, addr, required),
{
}

/// Address isolation.  Two spaces that own no frame in common never resolve
/// an address to the same frame through entries that both mark as owned:
/// only a frame that one of them maps without owning it can be shared.
pub proof fn lemma_address_isolation(
    a: &AddressSpace,
    b: &AddressSpace,
    addr_a: u64,
    addr_b: u64,
    required_a: VmFlags,
    required_b: VmFlags,
)
    requires
        a.wf(),
        b.wf(),
        a.owned_frames().disjoint(b.owned_frames()),
        translated(a@, addr_a, required_a) is Some,
        translated(b@, addr_b, required_b) is Some,
        a@[vpn_of(addr_a)].flags.owned,
        b@[vpn_of(addr_b)].flags.owned,
    ensures
        a@[vpn_of(addr_a)].ppn != b@[vpn_of(addr_b)].ppn,
        translated(a@, addr_a, required_a)->0 / PAGE_SIZE != translated(
            b@,
            addr_b,
            required_b,
        )->0 / PAGE_SIZE,
{
    a.lemma_mappings(vpn_of(addr_a));
    b.lemma_mappings(vpn_of(addr_b));
    let pa = a@[vpn_of(addr_a)].ppn;
    let pb = b@[vpn_of(addr_b)].ppn;
    assert(a.owned_frames().contains(pa));
    assert(b.owned_frames().contains(pb));
    assert((pa * PAGE_SIZE + offset_of(addr_a)) / (PAGE_SIZE as int) == pa);
    assert((pb * PAGE_SIZE + offset_of(addr_b)) / (PAGE_SIZE as int) == pb);
}

/// A space that takes frames from the allocator stays apart from every space
/// whose frames the allocator had handed out before.
pub proof fn lemma_taking_keeps_apart(
    other: Set<u64>,
    owned_before: Set<u64>,
    owned_after: Set<u64>,
    allocated_before: Set<u64>,
    allocated_after: Set<u64>,
)
    requires
        frames_taken(owned_before, owned_after, allocated_before, allocated_after),
        other.subset_of(allocated_before),
        other.disjoint(owned_before),
    ensures
        other.disjoint(owned_after),
        other.subset_of(allocated_after),
{
    assert forall|x: u64| other.contains(x) implies !owned_after.contains(x) by {
        if owned_after.contains(x) {
            assert(owned_after.difference(owned_before).contains(x));
        }
    }
}

/// Copying one more page keeps the copy a duplicate and the list in step.
proof fn lemma_copies_step(
    original: Map<u64, Pte>,
    before: Map<u64, Pte>,
    after: Map<u64, Pte>,
    copies_before: Seq<FrameCopy>,
    copies_after: Seq<FrameCopy>,
    v: u64,
    frame: u64,
)
    requires
        original.contains_key(v),
        duplicated(original, before, v as int),
        copies_match(original, before, copies_before, v as int),
        forall|w: u64| w >= v ==> !before.contains_key(w),
        after == before.insert(v, Pte { ppn: frame, flags: original[v].flags }),
        !original[v].flags.owned ==> frame == original[v].ppn,
        copies_after == if original[v].flags.owned {
            copies_before.push(FrameCopy { vpn: v, from: original[v].ppn, to: frame })
        } else {
            copies_before
        },
    ensures
        duplicated(original, after, v + 1),
        copies_match(original, after, copies_after, v + 1),
        forall|w: u64| w >= v + 1 ==> !after.contains_key(w),
{
    assert forall|w: u64| w < v + 1 implies (#[trigger] after.contains_key(w)
        == original.contains_key(w)) && (original.contains_key(w) ==> after[w].flags
        == original[w].flags && (!original[w].flags.owned ==> after[w].ppn
        == original[w].ppn)) by {
        if w < v {
            assert(before.contains_key(w) == original.contains_key(w));
        }
    }
    assert forall|i: int| 0 <= i < copies_after.len() implies copy_matches(
        original,
        after,
        #[trigger] copies_after[i],
        v + 1,
    ) by {
        if i < copies_before.len() {
            assert(copy_matches(original, before, copies_before[i], v as int));
        }
    }
    assert forall|w: u64|
        w < v + 1 && original.contains_key(w) && (
        #[trigger] original[w]).flags.owned implies copied(copies_after, w) by {
        if w < v {
            assert(copied(copies_before, w));
            let i = choose|i: int|
                0 <= i < copies_before.len() && (#[trigger] copies_before[i]).vpn == w;
            assert(copies_after[i].vpn == w);
        } else {
            assert(copies_after[copies_after.len() - 1].vpn == w);
        }
    }
}

/// A space whose frames were all free at some time, and that takes more
/// frames since, still owns only frames that were free at that time.
pub proof fn lemma_frames_taken_keep_fresh(
    owned_before: Set<u64>,
    owned_after: Set<u64>,
    start: Set<u64>,
    allocated_before: Set<u64>,
    allocated_after: Set<u64>,
)
    requires
        owned_before.disjoint(start),
        allocated_before == start.union(owned_before),
        frames_taken(owned_before, owned_after, allocated_before, allocated_after),
    ensures
        owned_after.disjoint(start),
        allocated_after == start.union(owned_after),
{
    assert forall|x: u64| owned_after.contains(x) implies !start.contains(x) by {
        if !owned_before.contains(x) {
            assert(owned_after.difference(owned_before).contains(x));
        }
    }
    assert(allocated_after =~= start.union(owned_after));
}

} // verus!
