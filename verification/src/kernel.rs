//! The kernel's one context object: the frames, the address spaces, the
//! processes with their relations, and the scheduler.
//!
//! Everything that the dispatcher and the system calls change is changed
//! here, one step at a time, and each step leaves the whole in order: every
//! address space holds the trampoline, no two of them own a frame in common,
//! and the scheduler's queues agree with the states of the threads.

use crate::address::{PAGE_SIZE, PPN_LIMIT, TRAMPOLINE_VPN, VADDR_LIMIT, VPN_LIMIT};
use crate::context::{Context, ContextState};
use crate::flags::VmFlags;
use crate::frame::FrameAllocator;
use crate::layout::{fresh, lemma_fresh_difference, lemma_fresh_taken};
use crate::process::{put_in_slot, slot, slotted, Fd, Heap, Process};
use crate::processor::{Processor, SchedState, ThreadState};
use crate::relation::{
    rel_add_child, rel_add_thread, rel_child_list, rel_del_child, rel_del_thread, rel_get_parent,
    rel_new, rel_set_parent, rel_state, rel_thread_count, rel_wait_any_child, rel_wait_child,
    rel_wait_thread, RelState,
};
use crate::space::{
    copies_match, duplicated, frames_for_copy, has_trampoline, lemma_address_isolation,
    lemma_taking_keeps_apart, lemma_trampoline_survives_map_frames,
    lemma_trampoline_survives_unmap, mapped_frames, owned_flag, range_free, range_ok, range_user,
    translated,
    unmapped, user_page, AddressSpace, FrameCopy, MapError, Pte,
};
use tg_task_manage::ProcThreadRel;
use vstd::prelude::*;

verus! {

/// The page behind the stack of the first thread of a process.
pub const USER_STACK_TOP: u64 = 0x400_0000;

/// The number of pages of a user stack.
pub const STACK_PAGES: u64 = 2;

/// The mode bits of the selector of an Sv39 address space.
pub const SATP_SV39: u64 = 0x8000_0000_0000_0000;

/// The parent of a process that has none.
pub const NO_PARENT: usize = usize::MAX;

/// One part of a program: the pages it spans and what the program may do
/// with them.
#[derive(Clone, Copy, PartialEq, Eq, Structural, Debug)]
pub struct Segment {
    pub start: u64,
    pub end: u64,
    pub flags: VmFlags,
}

/// The flags of a page of a program that may do with it what `declared`
/// says: valid, for the user, and readable, writable and executable as declared.
pub open spec fn user_flags(declared: VmFlags) -> VmFlags {
    VmFlags {
        valid: true,
        user: true,
        readable: declared.readable,
        writable: declared.writable,
        executable: declared.executable,
        ..VmFlags::zero()
    }
}

/// The flags of a page of a user stack.
pub open spec fn stack_flags() -> VmFlags {
    VmFlags { valid: true, user: true, readable: true, writable: true, ..VmFlags::zero() }
}

/// The selector of the address space whose root table lies in frame `root`.
pub open spec fn satp_of_root(root: u64) -> u64 {
    (SATP_SV39 + root) as u64
}

/// The mappings of a new program after its first `n` parts have been
/// mapped, part `i` to the frames `frames[i]`.
pub open spec fn segments_mapped(
    map: Map<u64, Pte>,
    segments: Seq<Segment>,
    frames: Seq<Seq<u64>>,
    n: int,
) -> Map<u64, Pte>
    decreases n,
{
    if n <= 0 {
        map
    } else {
        mapped_frames(
            segments_mapped(map, segments, frames, n - 1),
            segments[n - 1].start,
            segments[n - 1].end,
            frames[n - 1],
            user_flags(segments[n - 1].flags).or(owned_flag()),
        )
    }
}

/// Whether page `v` lies in the part `s`.
pub open spec fn in_part(s: Segment, v: u64) -> bool {
    s.start <= v < s.end
}

/// Whether page `v` is taken when part `n` of a program is to be mapped: by
/// the trampoline or by one of the parts before it.
pub open spec fn taken_before(segments: Seq<Segment>, n: int, v: u64) -> bool {
    v == TRAMPOLINE_VPN || exists|j: int| 0 <= j < n && #[trigger] in_part(segments[j], v)
}

/// Whether part `i` can be mapped after the parts before it: it lies in the
/// address space, and none of its pages is taken.
pub open spec fn part_fits(segments: Seq<Segment>, i: int) -> bool {
    &&& range_ok(segments[i].start, segments[i].end)
    &&& forall|v: u64| #[trigger] in_part(segments[i], v) ==> !taken_before(segments, i, v)
}

/// Whether a program with the parts `segments` can be laid out: every part
/// can be mapped after the parts before it, and the stack after them all.
pub open spec fn program_fits(segments: Seq<Segment>) -> bool {
    &&& forall|i: int| 0 <= i < segments.len() ==> #[trigger] part_fits(segments, i)
    &&& forall|v: u64|
        USER_STACK_TOP - STACK_PAGES <= v < USER_STACK_TOP ==> !#[trigger] taken_before(
            segments,
            segments.len() as int,
            v,
        )
}

/// The number of pages of the first `n` parts.
pub open spec fn pages_of_parts(segments: Seq<Segment>, n: int) -> int
    decreases n,
{
    if n <= 0 {
        0
    } else {
        pages_of_parts(segments, n - 1) + (segments[n - 1].end - segments[n - 1].start)
    }
}

/// A number of free frames with which a program that can be laid out is
/// sure to get its address space: three for the root table and the tables
/// of the trampoline, and three for each page of the parts and of the
/// stack, one for the page and two for the tables on the way to it.
pub open spec fn frames_for_program(segments: Seq<Segment>) -> int {
    3 + 3 * (pages_of_parts(segments, segments.len() as int) + STACK_PAGES)
}

/// The pages that are mapped after the first `n` parts are those that were
/// mapped before and those of the parts.
pub proof fn lemma_segments_domain(
    map: Map<u64, Pte>,
    segments: Seq<Segment>,
    frames: Seq<Seq<u64>>,
    n: int,
    v: u64,
)
    requires
        0 <= n <= segments.len(),
    ensures
        segments_mapped(map, segments, frames, n).contains_key(v) <==> map.contains_key(v) || (
        exists|j: int| 0 <= j < n && #[trigger] in_part(segments[j], v)),
    decreases n,
{
    if n > 0 {
        lemma_segments_domain(map, segments, frames, n - 1, v);
        if in_part(segments[n - 1], v) {
            assert(0 <= n - 1 < n && in_part(segments[n - 1], v));
        }
    }
}

/// The parts of a program that can be laid out have no fewer pages
/// together than the first of them.
pub proof fn lemma_pages_of_parts(segments: Seq<Segment>, n: int, m: int)
    requires
        0 <= n <= m <= segments.len(),
        forall|i: int| 0 <= i < segments.len() ==> #[trigger] part_fits(segments, i),
    ensures
        0 <= pages_of_parts(segments, n) <= pages_of_parts(segments, m),
    decreases m,
{
    if m > n {
        lemma_pages_of_parts(segments, n, m - 1);
        assert(part_fits(segments, m - 1));
    } else if n > 0 {
        lemma_pages_of_parts(segments, n - 1, n - 1);
        assert(part_fits(segments, n - 1));
    }
}

/// The page behind the highest of the first `n` parts.
pub open spec fn highest_end(segments: Seq<Segment>, n: int) -> u64
    decreases n,
{
    if n <= 0 {
        0
    } else if segments[n - 1].end > highest_end(segments, n - 1) {
        segments[n - 1].end
    } else {
        highest_end(segments, n - 1)
    }
}

/// The address at which the heap of a program with the parts `segments`
/// begins: the first address behind its highest part.
pub open spec fn heap_bottom_of(segments: Seq<Segment>) -> u64 {
    if highest_end(segments, segments.len() as int) <= VPN_LIMIT {
        (highest_end(segments, segments.len() as int) * PAGE_SIZE) as u64
    } else {
        VADDR_LIMIT
    }
}

/// The address at which the heap of a program with the parts `segments`
/// begins.
pub fn heap_bottom(segments: &Vec<Segment>) -> (bottom: u64)
    ensures
        bottom == heap_bottom_of(segments@),
{
    let mut top: u64 = 0;
    let mut i: usize = 0;
    while i < segments.len()
        invariant
            i <= segments@.len(),
            top == highest_end(segments@, i as int),
        decreases segments@.len() - i,
    {
        if segments[i].end > top {
            top = segments[i].end;
        }
        i = i + 1;
    }
    if top <= VPN_LIMIT {
        top * PAGE_SIZE
    } else {
        VADDR_LIMIT
    }
}

/// The address space of a new program: the trampoline, the parts of the
/// program, and a stack of two pages below `USER_STACK_TOP`.
pub open spec fn program_mapped(
    trampoline: u64,
    segments: Seq<Segment>,
    frames: Seq<Seq<u64>>,
    stack: Seq<u64>,
) -> Map<u64, Pte> {
    mapped_frames(
        segments_mapped(
            Map::empty().insert(TRAMPOLINE_VPN, crate::space::trampoline_entry(trampoline)),
            segments,
            frames,
            segments.len() as int,
        ),
        (USER_STACK_TOP - STACK_PAGES) as u64,
        USER_STACK_TOP,
        stack,
        stack_flags().or(owned_flag()),
    )
}

/// The frames of a new program, for whoever fills them: for each part its
/// frames in the order of its pages, and the frames of the stack.
pub struct ProgramFrames {
    pub segments: Vec<Vec<u64>>,
    pub stack: Vec<u64>,
}

/// The lists of frames as plain sequences.
pub open spec fn frame_lists(lists: Seq<Vec<u64>>) -> Seq<Seq<u64>> {
    Seq::new(lists.len(), |i: int| lists[i]@)
}

fn user_page_flags(declared: VmFlags) -> (f: VmFlags)
    ensures
        f == user_flags(declared),
{
    let mut f = VmFlags::empty();
    f.valid = true;
    f.user = true;
    f.readable = declared.readable;
    f.writable = declared.writable;
    f.executable = declared.executable;
    f
}

/// Builds the address space of a program with the parts `segments`: the
/// trampoline of frame `trampoline` at the top page, each part in frames of
/// its own, and a stack.  On an error every frame that was taken has been
/// given back.
pub fn program_space(
    frames: &mut FrameAllocator,
    trampoline: u64,
    segments: &Vec<Segment>,
) -> (r: Result<(AddressSpace, ProgramFrames), MapError>)
    requires
        old(frames).wf(),
    ensures
        final(frames).wf(),
        final(frames).first() == old(frames).first(),
        final(frames).count() == old(frames).count(),
        match r {
            Ok((space, loaded)) => {
                &&& space.wf()
                &&& space.within(final(frames))
                &&& fresh(space.owned_frames(), old(frames).allocated(), final(frames).allocated())
                &&& loaded.segments@.len() == segments@.len()
                &&& space@ == program_mapped(
                    trampoline,
                    segments@,
                    frame_lists(loaded.segments@),
                    loaded.stack@,
                )
                &&& has_trampoline(space@, trampoline)
                &&& program_fits(segments@)
                &&& trampoline < PPN_LIMIT
            },
            Err(e) => {
                &&& final(frames).allocated() == old(frames).allocated()
                &&& e != MapError::OutOfFrames ==> !(program_fits(segments@) && trampoline
                    < PPN_LIMIT)
            },
        },
        program_fits(segments@) && trampoline < PPN_LIMIT && old(frames).free_frames()
            >= frames_for_program(segments@) ==> r is Ok,
{
    let ghost free0 = old(frames).free_frames();
    proof {
        if program_fits(segments@) {
            lemma_pages_of_parts(segments@, 0, segments@.len() as int);
        }
    }
    let mut space = match AddressSpace::new(frames) {
        Some(space) => space,
        None => {
            return Err(MapError::OutOfFrames);
        },
    };
    let ghost a0 = old(frames).allocated();
    assert(fresh(space.owned_frames(), a0, frames.allocated())) by {
        assert(frames.allocated() =~= a0.union(space.owned_frames()));
    }
    let ghost o1 = space.owned_frames();
    let ghost a1 = frames.allocated();
    let r = space.map_trampoline(frames, trampoline);
    proof {
        lemma_fresh_taken(o1, space.owned_frames(), a0, a1, frames.allocated());
    }
    if let Err(e) = r {
        proof {
            lemma_fresh_difference(space.owned_frames(), a0, frames.allocated());
        }
        space.teardown(frames);
        return Err(e);
    }
    let ghost base = space@;
    let mut lists: Vec<Vec<u64>> = Vec::new();
    let mut i: usize = 0;
    while i < segments.len()
        invariant
            i <= segments@.len(),
            lists@.len() == i,
            space.wf(),
            frames.wf(),
            space.within(frames),
            frames.first() == old(frames).first(),
            frames.count() == old(frames).count(),
            a0 == old(frames).allocated(),
            fresh(space.owned_frames(), a0, frames.allocated()),
            base == Map::<u64, Pte>::empty().insert(
                TRAMPOLINE_VPN,
                crate::space::trampoline_entry(trampoline),
            ),
            has_trampoline(space@, trampoline),
            space@ == segments_mapped(base, segments@, frame_lists(lists@), i as int),
            free0 == old(frames).free_frames(),
            free0 <= frames.free_frames() + 3 + 3 * pages_of_parts(segments@, i as int),
            trampoline < PPN_LIMIT,
            forall|k: int| 0 <= k < i ==> #[trigger] part_fits(segments@, k),
        decreases segments@.len() - i,
    {
        let segment = segments[i];
        proof {
            assert forall|v: u64| space@.contains_key(v) implies taken_before(
                segments@,
                i as int,
                v,
            ) by {
                lemma_segments_domain(base, segments@, frame_lists(lists@), i as int, v);
            }
            if program_fits(segments@) {
                lemma_pages_of_parts(segments@, i + 1, segments@.len() as int);
                assert(part_fits(segments@, i as int));
            }
        }
        let ghost o2 = space.owned_frames();
        let ghost a2 = frames.allocated();
        let ghost before = space@;
        let ghost lists_before = frame_lists(lists@);
        let r = space.map_with_allocation(
            frames,
            segment.start,
            segment.end,
            user_page_flags(segment.flags),
        );
        proof {
            lemma_fresh_taken(o2, space.owned_frames(), a0, a2, frames.allocated());
        }
        match r {
            Err(e) => {
                proof {
                    lemma_fresh_difference(space.owned_frames(), a0, frames.allocated());
                    if e == MapError::AlreadyMapped {
                        let v = choose|v: u64|
                            segment.start <= v < segment.end && before.contains_key(v);
                        assert(in_part(segments@[i as int], v));
                        assert(taken_before(segments@, i as int, v));
                    }
                }
                space.teardown(frames);
                return Err(e);
            },
            Ok(taken) => {
                proof {
                    lemma_trampoline_survives_map_frames(
                        before,
                        trampoline,
                        segment.start,
                        segment.end,
                        taken@,
                        user_flags(segment.flags).or(owned_flag()),
                    );
                    assert forall|v: u64| #[trigger]
                        in_part(segments@[i as int], v) implies !taken_before(
                        segments@,
                        i as int,
                        v,
                    ) by {
                        lemma_segments_domain(base, segments@, lists_before, i as int, v);
                        assert(!before.contains_key(v));
                    }
                    assert(part_fits(segments@, i as int));
                }
                lists.push(taken);
                proof {
                    let now = frame_lists(lists@);
                    assert(now[i as int] == taken@);
                    lemma_segments_mapped_prefix(base, segments@, lists_before, now, i as int);
                }
            },
        }
        i = i + 1;
    }
    let mut flags = VmFlags::empty();
    flags.valid = true;
    flags.user = true;
    flags.readable = true;
    flags.writable = true;
    let ghost o3 = space.owned_frames();
    let ghost a3 = frames.allocated();
    let ghost before = space@;
    proof {
        assert forall|v: u64| space@.contains_key(v) implies taken_before(
            segments@,
            segments@.len() as int,
            v,
        ) by {
            lemma_segments_domain(
                base,
                segments@,
                frame_lists(lists@),
                segments@.len() as int,
                v,
            );
        }
    }
    let r = space.map_with_allocation(frames, USER_STACK_TOP - STACK_PAGES, USER_STACK_TOP, flags);
    proof {
        lemma_fresh_taken(o3, space.owned_frames(), a0, a3, frames.allocated());
    }
    match r {
        Err(e) => {
            proof {
                lemma_fresh_difference(space.owned_frames(), a0, frames.allocated());
                if e == MapError::AlreadyMapped {
                    let v = choose|v: u64|
                        USER_STACK_TOP - STACK_PAGES <= v < USER_STACK_TOP && before.contains_key(
                            v,
                        );
                    assert(taken_before(segments@, segments@.len() as int, v));
                }
            }
            space.teardown(frames);
            Err(e)
        },
        Ok(stack) => {
            proof {
                assert forall|v: u64|
                    USER_STACK_TOP - STACK_PAGES <= v < USER_STACK_TOP
                    implies !#[trigger] taken_before(segments@, segments@.len() as int, v) by {
                    lemma_segments_domain(
                        base,
                        segments@,
                        frame_lists(lists@),
                        segments@.len() as int,
                        v,
                    );
                    assert(!before.contains_key(v));
                }
                lemma_trampoline_survives_map_frames(
                    before,
                    trampoline,
                    (USER_STACK_TOP - STACK_PAGES) as u64,
                    USER_STACK_TOP,
                    stack@,
                    stack_flags().or(owned_flag()),
                );
                lemma_fresh_difference(space.owned_frames(), a0, frames.allocated());
            }
            Ok((space, ProgramFrames { segments: lists, stack }))
        },
    }
}

/// What has been mapped for the first parts does not depend on the frames
/// of the later ones.
proof fn lemma_segments_mapped_prefix(
    map: Map<u64, Pte>,
    segments: Seq<Segment>,
    a: Seq<Seq<u64>>,
    b: Seq<Seq<u64>>,
    n: int,
)
    requires
        0 <= n <= a.len(),
        n <= b.len(),
        forall|i: int| 0 <= i < n ==> a[i] == b[i],
    ensures
        segments_mapped(map, segments, a, n) == segments_mapped(map, segments, b, n),
    decreases n,
{
    if n > 0 {
        lemma_segments_mapped_prefix(map, segments, a, b, n - 1);
    }
}

/// Why the kernel could not be set up, or a program not be started.
#[derive(Clone, Copy, PartialEq, Eq, Structural, Debug)]
pub enum SpawnError {
    /// The address space could not be built.
    Memory(MapError),
    /// The table of processes or of threads is full.
    TableFull,
    /// The machine's words are too narrow for the addresses of the scheme.
    NarrowWords,
}

/// What `spawn` hands back: the new process, its first thread, and the
/// frames to fill with the program.
pub struct Spawned {
    pub pid: usize,
    pub tid: usize,
    pub frames: ProgramFrames,
}

pub struct Kernel {
    pub(crate) frames: FrameAllocator,
    pub(crate) trampoline: u64,
    pub(crate) kernel_space: AddressSpace,
    pub(crate) processor: Processor,
    pub(crate) procs: Vec<Option<Process>>,
    pub(crate) rels: Vec<Option<ProcThreadRel>>,
}

impl Kernel {
    /// The state of the scheduler.
    pub closed spec fn sched(&self) -> SchedState {
        self.processor@
    }

    /// The saved registers of thread `tid`.
    pub closed spec fn context_of(&self, tid: int) -> ContextState {
        self.processor.context_of(tid)
    }

    /// The selector of the address space of thread `tid`.
    pub closed spec fn satp_of(&self, tid: int) -> u64 {
        self.processor.satp_of(tid)
    }

    /// The number of processes that have ever been started.
    pub closed spec fn process_count(&self) -> nat {
        self.procs@.len()
    }

    /// Whether process `pid` exists and has not been removed.
    pub closed spec fn alive(&self, pid: int) -> bool {
        0 <= pid < self.procs@.len() && self.procs@[pid] is Some
    }

    /// A process that has not been removed is one of those that have been
    /// started.
    pub proof fn lemma_alive_in_range(&self, pid: int)
        requires
            self.alive(pid),
        ensures
            0 <= pid < self.process_count(),
    {
    }

    /// The resources of process `pid`.
    pub closed spec fn process(&self, pid: int) -> Process {
        self.procs@[pid]->0
    }

    /// The mappings of the address space of process `pid`.
    pub open spec fn space_of(&self, pid: int) -> Map<u64, Pte> {
        self.process(pid).address_space@
    }

    /// The relations of process `pid`, if it has not been removed.
    pub closed spec fn relation(&self, pid: int) -> Option<RelState> {
        if 0 <= pid < self.rels@.len() && self.rels@[pid] is Some {
            Some(rel_state(self.rels@[pid]->0))
        } else {
            None
        }
    }

    /// The frame of the trampoline.
    pub closed spec fn trampoline(&self) -> u64 {
        self.trampoline
    }

    /// The mappings of the kernel's own address space.
    pub closed spec fn kernel_map(&self) -> Map<u64, Pte> {
        self.kernel_space@
    }

    /// The frames that are handed out.
    pub closed spec fn allocated(&self) -> Set<u64> {
        self.frames.allocated()
    }

    /// The number of frames that are free.
    pub closed spec fn free_frames(&self) -> nat {
        self.frames.free_frames()
    }

    pub closed spec fn wf(&self) -> bool {
        &&& crate::address::VADDR_LIMIT <= usize::MAX
        &&& self.frames.wf()
        &&& self.processor.wf()
        &&& self.kernel_space.wf()
        &&& self.kernel_space.within(&self.frames)
        &&& has_trampoline(self.kernel_space@, self.trampoline)
        &&& self.procs@.len() == self.rels@.len()
        &&& forall|p: int|
            0 <= p < self.procs@.len() && (#[trigger] self.procs@[p]) is Some ==> {
                &&& self.procs@[p]->0.wf_in(&self.frames, self.trampoline)
                &&& self.procs@[p]->0.pid == p
                &&& self.procs@[p]->0.address_space.owned_frames().disjoint(
                    self.kernel_space.owned_frames(),
                )
            }
        &&& forall|p: int, q: int|
            0 <= p < self.procs@.len() && 0 <= q < self.procs@.len() && p != q && (
            #[trigger] self.procs@[p]) is Some && (#[trigger] self.procs@[q]) is Some
                ==> self.procs@[p]->0.address_space.owned_frames().disjoint(
                self.procs@[q]->0.address_space.owned_frames(),
            )
    }

    /// Whether `other` is the same kernel as far as it can be told from
    /// outside: the same processes with the same resources and relations,
    /// the same scheduler, and the same frames handed out.
    pub open spec fn same(&self, other: &Kernel) -> bool {
        &&& self.sched() == other.sched()
        &&& self.process_count() == other.process_count()
        &&& self.trampoline() == other.trampoline()
        &&& self.kernel_map() == other.kernel_map()
        &&& self.allocated() == other.allocated()
        &&& forall|p: int|
            0 <= p < self.process_count() ==> self.alive(p) == other.alive(p) && (self.alive(p)
                ==> #[trigger] self.process(p) == other.process(p)) && #[trigger] self.relation(p)
                == other.relation(p)
        &&& forall|t: int|
            0 <= t < self.sched().states.len() ==> #[trigger] self.context_of(t)
                == other.context_of(t) && self.satp_of(t) == other.satp_of(t)
    }

    /// The address space of a process of a kernel in order is in order.
    pub proof fn lemma_process(&self, pid: int)
        requires
            self.wf(),
            self.alive(pid),
        ensures
            self.process(pid).address_space.wf(),
            self.process(pid).pid == pid,
            has_trampoline(self.space_of(pid), self.trampoline()),
    {
        assert(self.procs@[pid] is Some);
    }

    /// The scheduler of a kernel in order is in a consistent state.
    pub proof fn lemma_sched(&self)
        requires
            self.wf(),
        ensures
            self.sched().wf(),
    {
        self.processor.lemma_wf();
    }

    /// The trampoline invariant.  The kernel's address space and the address
    /// space of every process hold the trampoline at the top page, in the
    /// same frame and under the same flags, so that every address of that
    /// page translates alike in all of them.
    pub proof fn lemma_trampoline_everywhere(&self, pid: int, addr: u64, required: VmFlags)
        requires
            self.wf(),
            self.alive(pid),
        ensures
            has_trampoline(self.kernel_map(), self.trampoline()),
            has_trampoline(self.space_of(pid), self.trampoline()),
            crate::address::vpn_of(addr) == TRAMPOLINE_VPN ==> translated(
                self.space_of(pid),
                addr,
                required,
            ) == translated(self.kernel_map(), addr, required),
    {
        assert(self.procs@[pid] is Some);
    }

    /// Address isolation.  Two processes never reach the same frame through
    /// pages of their own: if an address of process `p` and an address of
    /// process `q` both translate through entries that are marked as owned,
    /// the frames differ.
    pub proof fn lemma_isolation(
        &self,
        p: int,
        q: int,
        addr_p: u64,
        addr_q: u64,
        required_p: VmFlags,
        required_q: VmFlags,
    )
        requires
            self.wf(),
            self.alive(p),
            self.alive(q),
            p != q,
            translated(self.space_of(p), addr_p, required_p) is Some,
            translated(self.space_of(q), addr_q, required_q) is Some,
            self.space_of(p)[crate::address::vpn_of(addr_p)].flags.owned,
            self.space_of(q)[crate::address::vpn_of(addr_q)].flags.owned,
        ensures
            translated(self.space_of(p), addr_p, required_p)->0 / PAGE_SIZE != translated(
                self.space_of(q),
                addr_q,
                required_q,
            )->0 / PAGE_SIZE,
    {
        assert(self.procs@[p] is Some);
        assert(self.procs@[q] is Some);
        lemma_address_isolation(
            &self.procs@[p]->0.address_space,
            &self.procs@[q]->0.address_space,
            addr_p,
            addr_q,
            required_p,
            required_q,
        );
    }

    /// Sets the kernel up with the frames `frames` and the kernel's own
    /// address space `kernel_space`, which holds the trampoline of frame
    /// `trampoline`.  There is no process and no thread yet.
    pub fn new(frames: FrameAllocator, kernel_space: AddressSpace, trampoline: u64) -> (r: Result<
        Kernel,
        SpawnError,
    >)
        requires
            frames.wf(),
            kernel_space.wf(),
            kernel_space.within(&frames),
            has_trampoline(kernel_space@, trampoline),
        ensures
            r is Err ==> r == Err::<Kernel, SpawnError>(SpawnError::NarrowWords)
                && crate::address::VADDR_LIMIT > usize::MAX,
            r matches Ok(k) ==> {
                &&& k.wf()
                &&& k.sched() == SchedState::empty()
                &&& k.process_count() == 0
                &&& k.trampoline() == trampoline
                &&& k.kernel_map() == kernel_space@
                &&& k.allocated() == frames.allocated()
            },
    {
        if (usize::MAX as u64) < crate::address::VADDR_LIMIT {
            return Err(SpawnError::NarrowWords);
        }
        Ok(
            Kernel {
                frames,
                trampoline,
                kernel_space,
                processor: Processor::new(),
                procs: Vec::new(),
                rels: Vec::new(),
            },
        )
    }

    /// The thread that runs.
    pub fn current(&self) -> (t: Option<usize>)
        ensures
            t == self.sched().current,
    {
        self.processor.current()
    }

    /// The process of the thread that runs, if a thread runs and its process
    /// has not been removed.
    pub fn current_pid(&self) -> (r: Option<usize>)
        requires
            self.wf(),
        ensures
            r == if self.sched().current is Some && self.alive(
                self.sched().pids[self.sched().current->0 as int] as int,
            ) {
                Some(self.sched().pids[self.sched().current->0 as int])
            } else {
                None
            },
    {
        proof {
            self.processor.lemma_wf();
        }
        match self.processor.current() {
            None => None,
            Some(t) => match self.processor.pid_of(t) {
                None => None,
                Some(pid) => if pid < self.procs.len() && self.procs[pid].is_some() {
                    Some(pid)
                } else {
                    None
                },
            },
        }
    }

    /// The scheduler, for reading.
    pub fn processor(&self) -> (p: &Processor)
        ensures
            p@ == self.sched(),
            forall|t: int| p.context_of(t) == self.context_of(t) && p.satp_of(t) == self.satp_of(t),
            self.wf() ==> p.wf(),
    {
        &self.processor
    }

    /// The resources of process `pid`, if it has not been removed.
    pub fn get_proc(&self, pid: usize) -> (r: Option<&Process>)
        ensures
            r is Some <==> self.alive(pid as int),
            r is Some ==> *r->0 == self.process(pid as int),
    {
        if pid < self.procs.len() {
            self.procs[pid].as_ref()
        } else {
            None
        }
    }

    /// The kernel's own address space.
    pub fn kernel_space(&self) -> (space: &AddressSpace)
        ensures
            space@ == self.kernel_map(),
            self.wf() ==> space.wf(),
    {
        &self.kernel_space
    }

    /// The number of frames that are free.
    pub fn available_frames(&self) -> (n: usize)
        requires
            self.wf(),
        ensures
            n == self.free_frames(),
    {
        self.frames.available()
    }

    /// Starts a program: builds its address space with the parts `segments`
    /// and a stack, makes it a process whose parent is `parent`, and gives
    /// it one thread that starts at `entry`.  On an error nothing has changed.
    pub fn spawn(&mut self, segments: &Vec<Segment>, entry: usize, parent: usize) -> (r: Result<
        Spawned,
        SpawnError,
    >)
        requires
            old(self).wf(),
        ensures
            final(self).wf(),
            final(self).trampoline() == old(self).trampoline(),
            final(self).kernel_map() == old(self).kernel_map(),
            match r {
                Ok(s) => {
                    &&& s.pid == old(self).process_count()
                    &&& s.tid == old(self).sched().states.len()
                    &&& final(self).process_count() == old(self).process_count() + 1
                    &&& final(self).alive(s.pid as int)
                    &&& final(self).space_of(s.pid as int) == program_mapped(
                        old(self).trampoline(),
                        segments@,
                        frame_lists(s.frames.segments@),
                        s.frames.stack@,
                    )
                    &&& final(self).process(s.pid as int).fd_table@
                        == crate::process::console_handles()
                    &&& program_fits(segments@)
                    &&& final(self).process(s.pid as int).pid == s.pid
                    &&& final(self).process(s.pid as int).heap == (Heap {
                        bottom: heap_bottom_of(segments@),
                        brk: heap_bottom_of(segments@),
                    })
                    &&& final(self).process(s.pid as int).mutex_list@ == Seq::<
                        Option<usize>,
                    >::empty()
                    &&& final(self).process(s.pid as int).semaphore_list@ == Seq::<
                        Option<usize>,
                    >::empty()
                    &&& final(self).process(s.pid as int).condvar_list@ == Seq::<
                        Option<usize>,
                    >::empty()
                    &&& final(self).sched() == old(self).sched().add_thread(s.pid)
                    &&& final(self).context_of(s.tid as int) == ContextState::user(entry).set_sp(
                        (USER_STACK_TOP * PAGE_SIZE) as usize,
                    )
                    &&& final(self).satp_of(s.tid as int) == satp_of_root(
                        final(self).process(s.pid as int).address_space.root_frame(),
                    )
                    &&& final(self).relation(s.pid as int) == Some(
                        RelState::new(parent).add_thread(s.tid),
                    )
                    &&& forall|q: int|
                        0 <= q < old(self).process_count() ==> final(self).alive(q)
                            == old(self).alive(q) && (old(self).alive(q)
                            ==> #[trigger] final(self).process(q)
                            == old(self).process(q)) && #[trigger] final(self).relation(q) == (if q
                            == parent && old(self).relation(q) is Some {
                            Some(old(self).relation(q)->0.add_child(s.pid))
                        } else {
                            old(self).relation(q)
                        })
                    &&& forall|t: int|
                        0 <= t < old(self).sched().states.len()
                            ==> #[trigger] final(self).context_of(t) == old(self).context_of(t)
                            && final(self).satp_of(t)
                            == old(self).satp_of(t)
                },
                Err(e) => {
                    &&& final(self).same(old(self))
                    &&& e == SpawnError::TableFull <==> old(self).process_count() >= usize::MAX
                        || old(self).sched().states.len() >= usize::MAX
                    &&& e != SpawnError::NarrowWords
                    &&& e is Memory && e->Memory_0 != MapError::OutOfFrames ==> !program_fits(
                        segments@,
                    )
                },
            },
            program_fits(segments@) && old(self).free_frames() >= frames_for_program(segments@)
                && old(self).process_count() < usize::MAX && old(self).sched().states.len()
                < usize::MAX ==> r is Ok,
    {
        proof {
            self.processor.lemma_wf();
            self.kernel_space.lemma_mappings(TRAMPOLINE_VPN);
        }
        let pid = self.procs.len();
        if pid == usize::MAX || self.processor.thread_count() == usize::MAX {
            return Err(SpawnError::TableFull);
        }
        let ghost a0 = self.frames.allocated();
        let (space, loaded) = match program_space(&mut self.frames, self.trampoline, segments) {
            Ok(built) => built,
            Err(e) => {
                return Err(SpawnError::Memory(e));
            },
        };
        proof {
            space.lemma_mappings(TRAMPOLINE_VPN);
            assert(self.frames.allocated().contains(space.root_frame()));
            self.frames.lemma_allocated_managed(space.root_frame());
        }
        let satp = SATP_SV39 + space.root_ppn();
        proof {
            assert forall|p: int|
                0 <= p < self.procs@.len() && (#[trigger] self.procs@[p]) is Some implies {
                &&& self.procs@[p]->0.wf_in(&self.frames, self.trampoline)
                &&& self.procs@[p]->0.address_space.owned_frames().disjoint(space.owned_frames())
            } by {
                assert(old(self).procs@[p]->0.wf_in(&old(self).frames, self.trampoline));
            }
        }
        let mut context = Context::user(entry);
        context.set_sp((USER_STACK_TOP * PAGE_SIZE) as usize);
        self.procs.push(Some(Process::new(pid, space, heap_bottom(segments))));
        let mut rel = rel_new(parent);
        if parent < self.rels.len() {
            match &mut self.rels[parent] {
                Some(parent_rel) => {
                    rel_add_child(parent_rel, pid);
                },
                None => {},
            }
        }
        let tid = match self.processor.add(pid, context, satp) {
            Some(tid) => tid,
            None => 0,
        };
        rel_add_thread(&mut rel, tid);
        self.rels.push(Some(rel));
        proof {
            assert forall|p: int|
                0 <= p < self.procs@.len() && (#[trigger] self.procs@[p]) is Some implies {
                &&& self.procs@[p]->0.wf_in(&self.frames, self.trampoline)
                &&& self.procs@[p]->0.pid == p
                &&& self.procs@[p]->0.address_space.owned_frames().disjoint(
                    self.kernel_space.owned_frames(),
                )
            } by {
                if p < pid {
                    assert(self.procs@[p] == old(self).procs@[p]);
                }
            }
            assert forall|p: int, q: int|
                0 <= p < self.procs@.len() && 0 <= q < self.procs@.len() && p != q && (
                #[trigger] self.procs@[p]) is Some && (#[trigger] self.procs@[q]) is Some
                    implies self.procs@[p]->0.address_space.owned_frames().disjoint(
                self.procs@[q]->0.address_space.owned_frames(),
            ) by {
                if p < pid {
                    assert(self.procs@[p] == old(self).procs@[p]);
                }
                if q < pid {
                    assert(self.procs@[q] == old(self).procs@[q]);
                }
            }
            assert forall|q: int| 0 <= q < old(self).process_count() implies final(self).alive(q)
                == old(self).alive(q) && (old(self).alive(q) ==> #[trigger] self.process(q)
                    == old(self).process(q)) && #[trigger] self.relation(q) == (if q == parent
                    && old(self).relation(
                q,
            ) is Some {
                Some(old(self).relation(q)->0.add_child(pid))
            } else {
                old(self).relation(q)
            }) by {
                assert(self.procs@[q] == old(self).procs@[q]);
            }
        }
        Ok(Spawned { pid, tid, frames: loaded })
    }
}

/// The kinds of synchronisation object.
#[derive(Clone, Copy, PartialEq, Eq, Structural, Debug)]
pub enum SyncKind {
    Mutex,
    Semaphore,
    Condvar,
}

/// The answer of a call that was refused or that has blocked its caller.
pub const FAILED: isize = -1;

/// The answer of a call that would make its thread wait for itself.
pub const DEADLOCK: isize = -0xDEAD;

impl Kernel {
    /// The process of the thread that runs; meaningful while a thread runs.
    pub open spec fn running_pid(&self) -> int {
        self.sched().pids[self.sched().current->0 as int] as int
    }

    /// Whether a thread runs whose process has not been removed.
    pub open spec fn has_running_process(&self) -> bool {
        self.sched().current is Some && self.alive(self.running_pid())
    }

    /// The slots of the objects of kind `kind` of process `pid`.
    pub open spec fn slots(&self, pid: int, kind: SyncKind) -> Seq<Option<usize>> {
        match kind {
            SyncKind::Mutex => self.process(pid).mutex_list@,
            SyncKind::Semaphore => self.process(pid).semaphore_list@,
            SyncKind::Condvar => self.process(pid).condvar_list@,
        }
    }

    /// The object in slot `id` of kind `kind` of process `pid`, if the slot
    /// exists and is taken.
    pub open spec fn object_in(&self, pid: int, kind: SyncKind, id: usize) -> Option<usize> {
        if id < self.slots(pid, kind).len() {
            self.slots(pid, kind)[id as int]
        } else {
            None
        }
    }

    /// Whether memory and processes are as in `old`, but for the slot lists
    /// of process `pid`.
    pub open spec fn same_but_slots(&self, old: &Kernel, pid: int) -> bool {
        &&& self.process_count() == old.process_count()
        &&& self.trampoline() == old.trampoline()
        &&& self.kernel_map() == old.kernel_map()
        &&& self.allocated() == old.allocated()
        &&& forall|p: int|
            0 <= p < self.process_count() ==> self.alive(p) == old.alive(p)
                && #[trigger] self.relation(
                p,
            ) == old.relation(p)
        &&& forall|p: int|
            0 <= p < self.process_count() && self.alive(p) && p != pid ==> #[trigger] self.process(
                p,
            ) == old.process(p)
        &&& old.alive(pid) ==> self.process(pid).address_space == old.process(pid).address_space
            && self.process(pid).fd_table == old.process(pid).fd_table && self.process(pid).pid
            == old.process(pid).pid && self.process(pid).heap == old.process(pid).heap
        &&& forall|t: int|
            0 <= t < old.sched().states.len() ==> #[trigger] self.context_of(t) == old.context_of(
                t,
            ) && self.satp_of(t) == old.satp_of(t)
    }

    /// Whether memory and processes are as in `old`; the scheduler may differ.
    pub open spec fn same_processes(&self, old: &Kernel) -> bool {
        &&& self.same_but_slots(old, -1)
        &&& forall|p: int|
            0 <= p < self.process_count() && self.alive(p) ==> #[trigger] self.process(p)
                == old.process(p)
    }

    /// Keeps the kernel in order after a step that touched only the
    /// scheduler and the slot lists of one process.
    pub(crate) proof fn lemma_wf_after_slots(&self, old: &Kernel, pid: int)
        requires
            old.wf(),
            self.processor.wf(),
            self.frames == old.frames,
            self.trampoline == old.trampoline,
            self.kernel_space == old.kernel_space,
            self.rels == old.rels,
            self.procs@.len() == old.procs@.len(),
            forall|p: int|
                0 <= p < self.procs@.len() && p != pid ==> (#[trigger] self.procs@[p])
                    == old.procs@[p],
            0 <= pid < self.procs@.len()
                ==> (self.procs@[pid] is Some <==> old.procs@[pid] is Some),
            0 <= pid < self.procs@.len() && old.procs@[pid] is Some ==> self.procs@[pid]->0.pid
                == old.procs@[pid]->0.pid && self.procs@[pid]->0.address_space
                == old.procs@[pid]->0.address_space,
        ensures
            self.wf(),
            forall|p: int|
                0 <= p < self.process_count() ==> self.alive(p) == old.alive(p)
                    && #[trigger] self.relation(
                    p,
                ) == old.relation(p),
            forall|p: int|
                0 <= p < self.process_count() && self.alive(p) && p != pid
                    ==> #[trigger] self.process(
                    p,
                ) == old.process(p),
    {
        assert forall|p: int|
            0 <= p < self.procs@.len() && (#[trigger] self.procs@[p]) is Some implies {
            &&& self.procs@[p]->0.wf_in(&self.frames, self.trampoline)
            &&& self.procs@[p]->0.pid == p
            &&& self.procs@[p]->0.address_space.owned_frames().disjoint(
                self.kernel_space.owned_frames(),
            )
        } by {
            assert(old.procs@[p] is Some);
        }
        assert forall|p: int, q: int|
            0 <= p < self.procs@.len() && 0 <= q < self.procs@.len() && p != q && (
            #[trigger] self.procs@[p]) is Some && (#[trigger] self.procs@[q]) is Some
                implies self.procs@[p]->0.address_space.owned_frames().disjoint(
            self.procs@[q]->0.address_space.owned_frames(),
        ) by {
            assert(old.procs@[p] is Some);
            assert(old.procs@[q] is Some);
        }
    }

    /// Makes a semaphore of `res_count` units for the process that runs and
    /// puts it into the first free slot.  The answer is the slot's number,
    /// or `FAILED`, with nothing changed, if no thread runs, its process is
    /// gone, or a table is full.
    pub fn semaphore_create(&mut self, res_count: usize) -> (ret: isize)
        requires
            old(self).wf(),
        ensures
            final(self).wf(),
            ret == FAILED || ret >= 0,
            ret == FAILED <==> !(old(self).has_running_process()
                && old(self).sched().semaphores.len() < usize::MAX && crate::process::first_free(
                old(self).slots(old(self).running_pid(), SyncKind::Semaphore),
            ) < isize::MAX),
            ret == FAILED ==> final(self).same(old(self)),
            ret >= 0 ==> {
                let pid = old(self).running_pid();
                &&& ret == crate::process::first_free(old(self).slots(pid, SyncKind::Semaphore))
                &&& final(self).sched() == old(self).sched().semaphore_create(res_count)
                &&& final(self).slots(pid, SyncKind::Semaphore) == slotted(
                    old(self).slots(pid, SyncKind::Semaphore),
                    Some(old(self).sched().semaphores.len() as usize),
                )
                &&& final(self).slots(pid, SyncKind::Mutex) == old(self).slots(
                    pid,
                    SyncKind::Mutex,
                )
                &&& final(self).slots(pid, SyncKind::Condvar) == old(self).slots(
                    pid,
                    SyncKind::Condvar,
                )
                &&& final(self).same_but_slots(old(self), pid)
            },
    {
        let pid = match self.current_pid() {
            Some(pid) => pid,
            None => {
                return FAILED;
            },
        };
        proof {
            crate::process::lemma_first_free(self.procs@[pid as int]->0.semaphore_list@);
        }
        let full = match &self.procs[pid] {
            Some(process) => free_place(&process.semaphore_list) >= isize::MAX as usize,
            None => true,
        };
        if full {
            return FAILED;
        }
        let handle = match self.processor.semaphore_create(res_count) {
            Some(handle) => handle,
            None => {
                return FAILED;
            },
        };
        let id = match &mut self.procs[pid] {
            Some(process) => put_in_slot(&mut process.semaphore_list, Some(handle)),
            None => 0,
        };
        proof {
            self.lemma_wf_after_slots(old(self), pid as int);
        }
        id as isize
    }

    /// Makes a mutex for the process that runs and puts it into the first
    /// free slot.  Only a blocking mutex is an object: for another one the
    /// slot is reserved and stays empty.  The answer is the slot's number,
    /// or `FAILED`, with nothing changed, if no thread runs, its process is
    /// gone, or a table is full.
    pub fn mutex_create(&mut self, blocking: bool) -> (ret: isize)
        requires
            old(self).wf(),
        ensures
            final(self).wf(),
            ret == FAILED || ret >= 0,
            ret == FAILED <==> !(old(self).has_running_process() && (blocking
                ==> old(self).sched().mutexes.len() < usize::MAX) && crate::process::first_free(
                old(self).slots(old(self).running_pid(), SyncKind::Mutex),
            ) < isize::MAX),
            ret == FAILED ==> final(self).same(old(self)),
            ret >= 0 ==> {
                let pid = old(self).running_pid();
                &&& ret == crate::process::first_free(old(self).slots(pid, SyncKind::Mutex))
                &&& final(self).sched() == if blocking {
                    old(self).sched().mutex_create()
                } else {
                    old(self).sched()
                }
                &&& final(self).slots(pid, SyncKind::Mutex) == slotted(
                    old(self).slots(pid, SyncKind::Mutex),
                    if blocking {
                        Some(old(self).sched().mutexes.len() as usize)
                    } else {
                        None
                    },
                )
                &&& final(self).slots(pid, SyncKind::Semaphore) == old(self).slots(
                    pid,
                    SyncKind::Semaphore,
                )
                &&& final(self).slots(pid, SyncKind::Condvar) == old(self).slots(
                    pid,
                    SyncKind::Condvar,
                )
                &&& final(self).same_but_slots(old(self), pid)
            },
    {
        let pid = match self.current_pid() {
            Some(pid) => pid,
            None => {
                return FAILED;
            },
        };
        proof {
            crate::process::lemma_first_free(self.procs@[pid as int]->0.mutex_list@);
        }
        let full = match &self.procs[pid] {
            Some(process) => free_place(&process.mutex_list) >= isize::MAX as usize,
            None => true,
        };
        if full {
            return FAILED;
        }
        let handle = if blocking {
            match self.processor.mutex_create() {
                Some(handle) => Some(handle),
                None => {
                    return FAILED;
                },
            }
        } else {
            None
        };
        let id = match &mut self.procs[pid] {
            Some(process) => put_in_slot(&mut process.mutex_list, handle),
            None => 0,
        };
        proof {
            self.lemma_wf_after_slots(old(self), pid as int);
        }
        id as isize
    }

    /// Makes a condition variable for the process that runs and puts it
    /// into the first free slot.  The answer is the slot's number, or
    /// `FAILED`, with nothing changed, if no thread runs, its process is
    /// gone, or a table is full.
    pub fn condvar_create(&mut self, _arg: usize) -> (ret: isize)
        requires
            old(self).wf(),
        ensures
            final(self).wf(),
            ret == FAILED || ret >= 0,
            ret == FAILED <==> !(old(self).has_running_process()
                && old(self).sched().condvars.len() < usize::MAX && crate::process::first_free(
                old(self).slots(old(self).running_pid(), SyncKind::Condvar),
            ) < isize::MAX),
            ret == FAILED ==> final(self).same(old(self)),
            ret >= 0 ==> {
                let pid = old(self).running_pid();
                &&& ret == crate::process::first_free(old(self).slots(pid, SyncKind::Condvar))
                &&& final(self).sched() == old(self).sched().condvar_create()
                &&& final(self).slots(pid, SyncKind::Condvar) == slotted(
                    old(self).slots(pid, SyncKind::Condvar),
                    Some(old(self).sched().condvars.len() as usize),
                )
                &&& final(self).slots(pid, SyncKind::Mutex) == old(self).slots(
                    pid,
                    SyncKind::Mutex,
                )
                &&& final(self).slots(pid, SyncKind::Semaphore) == old(self).slots(
                    pid,
                    SyncKind::Semaphore,
                )
                &&& final(self).same_but_slots(old(self), pid)
            },
    {
        let pid = match self.current_pid() {
            Some(pid) => pid,
            None => {
                return FAILED;
            },
        };
        proof {
            crate::process::lemma_first_free(self.procs@[pid as int]->0.condvar_list@);
        }
        let full = match &self.procs[pid] {
            Some(process) => free_place(&process.condvar_list) >= isize::MAX as usize,
            None => true,
        };
        if full {
            return FAILED;
        }
        let handle = match self.processor.condvar_create() {
            Some(handle) => handle,
            None => {
                return FAILED;
            },
        };
        let id = match &mut self.procs[pid] {
            Some(process) => put_in_slot(&mut process.condvar_list, Some(handle)),
            None => 0,
        };
        proof {
            self.lemma_wf_after_slots(old(self), pid as int);
        }
        id as isize
    }

    /// The object in slot `id` of kind `kind` of the process that runs.
    pub fn object(&self, kind: SyncKind, id: usize) -> (r: Option<usize>)
        requires
            self.wf(),
        ensures
            r == if self.has_running_process() {
                self.object_in(self.running_pid(), kind, id)
            } else {
                None
            },
    {
        let pid = match self.current_pid() {
            Some(pid) => pid,
            None => {
                return None;
            },
        };
        match &self.procs[pid] {
            Some(process) => match kind {
                SyncKind::Mutex => slot(&process.mutex_list, id),
                SyncKind::Semaphore => slot(&process.semaphore_list, id),
                SyncKind::Condvar => slot(&process.condvar_list, id),
            },
            None => None,
        }
    }

    /// The thread that runs takes a unit of its process's semaphore
    /// `sem_id`.  The answer is 0 if it got one.  It is `FAILED` if none
    /// was left, and the thread has then been queued and blocked; and also,
    /// with nothing changed, if there is no such semaphore.
    pub fn semaphore_down(&mut self, sem_id: usize) -> (ret: isize)
        requires
            old(self).wf(),
        ensures
            final(self).wf(),
            final(self).same_processes(old(self)),
            match old(self).running_object(SyncKind::Semaphore, sem_id) {
                Some(x) => final(self).sched() == old(self).sched().semaphore_down(x) && ret
                    == if old(self).sched().semaphores[x as int].count > 0 {
                    0isize
                } else {
                    FAILED
                },
                None => final(self).sched() == old(self).sched() && ret == FAILED,
            },
    {
        let x = match self.object(SyncKind::Semaphore, sem_id) {
            Some(x) => x,
            None => {
                return FAILED;
            },
        };
        let r = self.processor.semaphore_down(x);
        proof {
            self.lemma_wf_after_slots(old(self), -1);
        }
        match r {
            Some(true) => 0,
            _ => FAILED,
        }
    }

    /// Gives a unit back to semaphore `sem_id` of the process that runs; the
    /// oldest waiter, if any, becomes ready.  The answer is 0, or `FAILED`,
    /// with nothing changed, if there is no such semaphore or its count
    /// cannot go higher.
    pub fn semaphore_up(&mut self, sem_id: usize) -> (ret: isize)
        requires
            old(self).wf(),
        ensures
            final(self).wf(),
            final(self).same_processes(old(self)),
            match old(self).running_object(SyncKind::Semaphore, sem_id) {
                Some(x) => if old(self).sched().semaphores[x as int].count < usize::MAX {
                    final(self).sched() == old(self).sched().semaphore_up(x) && ret == 0
                } else {
                    final(self).sched() == old(self).sched() && ret == FAILED
                },
                None => final(self).sched() == old(self).sched() && ret == FAILED,
            },
    {
        let x = match self.object(SyncKind::Semaphore, sem_id) {
            Some(x) => x,
            None => {
                return FAILED;
            },
        };
        let r = self.processor.semaphore_up(x);
        proof {
            self.lemma_wf_after_slots(old(self), -1);
        }
        match r {
            Some(_) => 0,
            None => FAILED,
        }
    }

    /// Whether the thread that runs would wait for itself if it were to
    /// wait for mutex `m` of the table, and its process has asked that
    /// this be looked for.
    pub open spec fn refuses_lock(&self, m: usize) -> bool {
        self.has_running_process() && self.sched().detects(self.running_pid())
            && self.sched().would_deadlock(m, self.sched().current->0)
    }

    /// The thread that runs asks for its process's mutex `mutex_id`.  The
    /// answer is 0 if it holds the mutex now.  It is `FAILED` if the mutex
    /// is held, and the thread has then been queued and blocked; and also,
    /// with nothing changed, if there is no such mutex.  Where the process
    /// has deadlocks looked for and the thread would wait for itself, the
    /// answer is `DEADLOCK`, with nothing changed.
    pub fn mutex_lock(&mut self, mutex_id: usize) -> (ret: isize)
        requires
            old(self).wf(),
        ensures
            final(self).wf(),
            final(self).same_processes(old(self)),
            match old(self).running_object(SyncKind::Mutex, mutex_id) {
                Some(m) => if old(self).refuses_lock(m) {
                    final(self).sched() == old(self).sched() && ret == DEADLOCK
                } else {
                    final(self).sched() == old(self).sched().mutex_lock(m) && ret == if old(
                        self,
                    ).sched().mutexes[m as int].holder is None {
                        0isize
                    } else {
                        FAILED
                    }
                },
                None => final(self).sched() == old(self).sched() && ret == FAILED,
            },
    {
        let m = match self.object(SyncKind::Mutex, mutex_id) {
            Some(m) => m,
            None => {
                return FAILED;
            },
        };
        let pid = match self.current_pid() {
            Some(pid) => pid,
            None => {
                return FAILED;
            },
        };
        if self.processor.detects(pid) && self.processor.would_deadlock(m) {
            return DEADLOCK;
        }
        let r = self.processor.mutex_lock(m);
        proof {
            self.lemma_wf_after_slots(old(self), -1);
        }
        match r {
            Some(true) => 0,
            _ => FAILED,
        }
    }

    /// Releases mutex `mutex_id` of the process that runs; the oldest
    /// waiter, if any, holds it now and becomes ready.  The answer is 0, or
    /// `FAILED`, with nothing changed, if there is no such mutex.
    pub fn mutex_unlock(&mut self, mutex_id: usize) -> (ret: isize)
        requires
            old(self).wf(),
        ensures
            final(self).wf(),
            final(self).same_processes(old(self)),
            match old(self).running_object(SyncKind::Mutex, mutex_id) {
                Some(m) => final(self).sched() == old(self).sched().mutex_unlock(m) && ret == 0,
                None => final(self).sched() == old(self).sched() && ret == FAILED,
            },
    {
        let m = match self.object(SyncKind::Mutex, mutex_id) {
            Some(m) => m,
            None => {
                return FAILED;
            },
        };
        let r = self.processor.mutex_unlock(m);
        proof {
            self.lemma_wf_after_slots(old(self), -1);
        }
        match r {
            Some(_) => 0,
            None => FAILED,
        }
    }

    /// Wakes the oldest waiter of condition variable `condvar_id` of the
    /// process that runs.  The answer is 0, or `FAILED`, with nothing
    /// changed, if there is no such condition variable.
    pub fn condvar_signal(&mut self, condvar_id: usize) -> (ret: isize)
        requires
            old(self).wf(),
        ensures
            final(self).wf(),
            final(self).same_processes(old(self)),
            match old(self).running_object(SyncKind::Condvar, condvar_id) {
                Some(c) => final(self).sched() == old(self).sched().condvar_signal(c) && ret == 0,
                None => final(self).sched() == old(self).sched() && ret == FAILED,
            },
    {
        let c = match self.object(SyncKind::Condvar, condvar_id) {
            Some(c) => c,
            None => {
                return FAILED;
            },
        };
        let r = self.processor.condvar_signal(c);
        proof {
            self.lemma_wf_after_slots(old(self), -1);
        }
        match r {
            Some(_) => 0,
            None => FAILED,
        }
    }

    /// The thread that runs waits on condition variable `condvar_id`: in
    /// one step its process's mutex `mutex_id` is released, with the oldest
    /// waiter of the mutex made its holder and ready, and the thread is
    /// queued on the condition variable and blocked.  The answer is always
    /// `FAILED`; nothing has changed if one of the two does not exist.
    pub fn condvar_wait(&mut self, condvar_id: usize, mutex_id: usize) -> (ret: isize)
        requires
            old(self).wf(),
        ensures
            final(self).wf(),
            final(self).same_processes(old(self)),
            ret == FAILED,
            final(self).sched() == match (
                old(self).running_object(SyncKind::Condvar, condvar_id),
                old(self).running_object(SyncKind::Mutex, mutex_id),
            ) {
                (Some(c), Some(m)) => old(self).sched().condvar_wait(c, m),
                _ => old(self).sched(),
            },
    {
        let c = match self.object(SyncKind::Condvar, condvar_id) {
            Some(c) => c,
            None => {
                return FAILED;
            },
        };
        let m = match self.object(SyncKind::Mutex, mutex_id) {
            Some(m) => m,
            None => {
                return FAILED;
            },
        };
        self.processor.condvar_wait(c, m);
        proof {
            self.lemma_wf_after_slots(old(self), -1);
        }
        FAILED
    }

    /// Switches the search for deadlocks on (1) or off (0) for the process
    /// that runs.  While it is on, a thread of the process that asks for a
    /// mutex is told so if it would thereby wait for itself.  The answer is
    /// 0, or `FAILED`, with nothing changed, for another number or when no
    /// thread runs.
    pub fn enable_deadlock_detect(&mut self, is_enable: i32) -> (ret: isize)
        requires
            old(self).wf(),
        ensures
            final(self).wf(),
            final(self).same_processes(old(self)),
            if old(self).has_running_process() && (is_enable == 0 || is_enable == 1) {
                ret == 0 && final(self).sched() == old(self).sched().set_detecting(
                    old(self).running_pid() as usize,
                    is_enable == 1,
                )
            } else {
                ret == FAILED && final(self).sched() == old(self).sched()
            },
    {
        let pid = match self.current_pid() {
            Some(pid) => pid,
            None => {
                return FAILED;
            },
        };
        if (is_enable != 0 && is_enable != 1) || pid >= self.procs.len() {
            return FAILED;
        }
        self.processor.set_detecting(pid, is_enable == 1);
        proof {
            self.lemma_wf_after_slots(old(self), -1);
        }
        0
    }

    /// The object in slot `id` of kind `kind` of the process that runs, if
    /// it is one that the scheduler knows.
    pub open spec fn running_object(&self, kind: SyncKind, id: usize) -> Option<usize> {
        if self.has_running_process() && self.object_in(self.running_pid(), kind, id) is Some && (
        match kind {
            SyncKind::Mutex => self.object_in(self.running_pid(), kind, id)->0
                < self.sched().mutexes.len(),
            SyncKind::Semaphore => self.object_in(self.running_pid(), kind, id)->0
                < self.sched().semaphores.len(),
            SyncKind::Condvar => self.object_in(self.running_pid(), kind, id)->0
                < self.sched().condvars.len(),
        }) {
            self.object_in(self.running_pid(), kind, id)
        } else {
            None
        }
    }
}

/// The first free place of the slots.
fn free_place(slots: &Vec<Option<usize>>) -> (id: usize)
    ensures
        id == crate::process::first_free(slots@),
{
    let n = slots.len();
    let mut i: usize = 0;
    proof {
        assert(slots@.subrange(0, n as int) =~= slots@);
    }
    while i < n
        invariant
            i <= n,
            n == slots@.len(),
            crate::process::first_free(slots@) == i + crate::process::first_free(
                slots@.subrange(i as int, n as int),
            ),
        decreases n - i,
    {
        if slots[i].is_none() {
            return i;
        }
        proof {
            let tail = slots@.subrange(i as int, n as int);
            assert(tail.drop_first() =~= slots@.subrange(i + 1, n as int));
        }
        i = i + 1;
    }
    n
}

/// The pages between the stacks of two threads: two pages of stack and one
/// page that stays unmapped.
pub const STACK_STRIDE: u64 = 3;

/// The first page of the `k`-th place for a stack, counted down from the top.
pub open spec fn stack_place(k: int) -> int {
    USER_STACK_TOP - STACK_PAGES - k * STACK_STRIDE
}

/// The first place for a stack at or after the `k`-th whose two pages are
/// both unmapped in `map`, if there is one.
pub open spec fn free_stack_place(map: Map<u64, Pte>, k: int) -> Option<int>
    decreases USER_STACK_TOP - k * STACK_STRIDE,
{
    if k < 0 || stack_place(k) < 0 {
        None
    } else if range_free(map, stack_place(k) as u64, (stack_place(k) + STACK_PAGES) as u64) {
        Some(stack_place(k))
    } else {
        free_stack_place(map, k + 1)
    }
}

/// What a wait for a child came to.
#[derive(Clone, Copy, PartialEq, Eq, Structural, Debug)]
pub enum WaitOutcome {
    /// The child has ended; its exit code is to be stored where the caller
    /// asked for it, and the child's identity is the answer of the call.
    Collected { pid: usize, exit_code: isize },
    /// The child still runs; the answer of the call is -2.
    StillRunning,
    /// There is no such child; the answer of the call is -1.
    NoChild,
}

impl Kernel {
    /// The identity of the process that runs, or `FAILED` if none runs.
    pub fn getpid(&self) -> (ret: isize)
        requires
            self.wf(),
        ensures
            ret == if self.has_running_process() && self.running_pid() <= isize::MAX {
                self.running_pid() as isize
            } else {
                FAILED
            },
    {
        match self.current_pid() {
            Some(pid) => if pid <= isize::MAX as usize {
                pid as isize
            } else {
                FAILED
            },
            None => FAILED,
        }
    }

    /// The identity of the thread that runs, or `FAILED` if none runs.
    pub fn gettid(&self) -> (ret: isize)
        ensures
            ret == if self.sched().current is Some && self.sched().current->0 <= isize::MAX {
                self.sched().current->0 as isize
            } else {
                FAILED
            },
    {
        match self.processor.current() {
            Some(tid) => if tid <= isize::MAX as usize {
                tid as isize
            } else {
                FAILED
            },
            None => FAILED,
        }
    }

    /// The first page of the first place for a stack that is free in the
    /// address space of process `pid`.
    fn find_stack(&self, pid: usize) -> (r: Option<u64>)
        requires
            self.wf(),
            self.alive(pid as int),
        ensures
            match r {
                Some(v) => free_stack_place(self.space_of(pid as int), 0) == Some(v as int) && v
                    + STACK_PAGES <= USER_STACK_TOP && range_free(
                    self.space_of(pid as int),
                    v,
                    (v + STACK_PAGES) as u64,
                ),
                None => free_stack_place(self.space_of(pid as int), 0) is None,
            },
    {
        let mut v: u64 = USER_STACK_TOP - STACK_PAGES;
        let ghost mut k: int = 0;
        loop
            invariant
                self.wf(),
                self.alive(pid as int),
                k >= 0,
                v == stack_place(k),
                v + STACK_PAGES <= USER_STACK_TOP,
                free_stack_place(self.space_of(pid as int), 0) == free_stack_place(
                    self.space_of(pid as int),
                    k,
                ),
            decreases v,
        {
            let free = match &self.procs[pid] {
                Some(process) => process.address_space.is_range_free(v, v + STACK_PAGES),
                None => false,
            };
            if free {
                return Some(v);
            }
            if v < STACK_STRIDE {
                proof {
                    assert(stack_place(k + 1) < 0);
                    assert(free_stack_place(self.space_of(pid as int), k + 1) is None);
                }
                return None;
            }
            v = v - STACK_STRIDE;
            proof {
                k = k + 1;
            }
        }
    }

    /// Gives the process that runs one more thread, which starts at `entry`
    /// with `arg` as its argument and has a stack of its own: the highest
    /// place for a stack that is free in the address space.  The answer is
    /// the new thread's identity, with the frames of its stack for whoever
    /// clears them; or `FAILED`, with no thread made, if no thread runs, no
    /// place or no frame is left for the stack, or the table of threads is full.
    pub fn thread_create(&mut self, entry: usize, arg: usize) -> (r: (isize, Vec<u64>))
        requires
            old(self).wf(),
        ensures
            final(self).wf(),
            final(self).trampoline() == old(self).trampoline(),
            final(self).kernel_map() == old(self).kernel_map(),
            final(self).process_count() == old(self).process_count(),
            r.0 == FAILED || r.0 >= 0,
            old(self).has_running_process() && old(self).relation(old(self).running_pid()) is Some
                && old(self).sched().states.len() < isize::MAX && free_stack_place(
                old(self).space_of(old(self).running_pid()),
                0,
            ) is Some && old(self).free_frames() >= 3 * STACK_PAGES ==> r.0 >= 0,
            old(self).free_frames() < STACK_PAGES ==> r.0 == FAILED,
            r.0 == FAILED ==> final(self).sched() == old(self).sched() && r.1@.len() == 0 && (
            forall|p: int|
                0 <= p < old(self).process_count() ==> final(self).alive(p) == old(self).alive(p)
                    && #[trigger] final(self).relation(p) == old(self).relation(p)
                        && (old(self).alive(p) ==> final(self).space_of(p)
                        == old(self).space_of(p))),
            r.0 >= 0 ==> {
                let pid = old(self).running_pid();
                let tid = old(self).sched().states.len() as int;
                let place = free_stack_place(old(self).space_of(pid), 0);
                &&& old(self).has_running_process()
                &&& final(self).alive(pid)
                &&& r.0 == tid
                &&& place is Some
                &&& r.1@.len() == STACK_PAGES
                &&& r.1@.no_duplicates()
                &&& forall|i: int|
                    0 <= i < r.1@.len() ==> !old(self).allocated().contains(#[trigger] r.1@[i])
                        && final(self).allocated().contains(r.1@[i])
                &&& final(self).free_frames() + STACK_PAGES <= old(self).free_frames()
                &&& final(self).sched() == old(self).sched().add_thread(pid as usize)
                &&& final(self).space_of(pid) == mapped_frames(
                    old(self).space_of(pid),
                    place->0 as u64,
                    (place->0 + STACK_PAGES) as u64,
                    r.1@,
                    stack_flags().or(owned_flag()),
                )
                &&& final(self).context_of(tid) == ContextState::user(entry).set_sp(
                    ((place->0 + STACK_PAGES) * PAGE_SIZE) as usize,
                ).set_a(0, arg)
                &&& final(self).satp_of(tid) == satp_of_root(
                    old(self).process(pid).address_space.root_frame(),
                )
                &&& final(self).relation(pid) == Some(
                    old(self).relation(pid)->0.add_thread(tid as usize),
                )
                &&& forall|p: int|
                    0 <= p < old(self).process_count() && p != pid ==> final(self).alive(p)
                        == old(self).alive(p) && #[trigger] final(self).relation(p)
                        == old(self).relation(p) && (
                    old(self).alive(p) ==> final(self).process(p) == old(self).process(p))
                &&& forall|t: int|
                    0 <= t < old(self).sched().states.len() ==> #[trigger] final(self).context_of(
                        t,
                    ) == old(self).context_of(t) && final(self).satp_of(t) == old(self).satp_of(t)
            },
    {
        proof {
            self.processor.lemma_wf();
        }
        let pid = match self.current_pid() {
            Some(pid) => pid,
            None => {
                return (FAILED, Vec::new());
            },
        };
        let tid = self.processor.thread_count();
        if tid >= isize::MAX as usize || pid >= self.rels.len() || self.rels[pid].is_none() {
            return (FAILED, Vec::new());
        }
        let place = match self.find_stack(pid) {
            Some(place) => place,
            None => {
                return (FAILED, Vec::new());
            },
        };
        let mut flags = VmFlags::empty();
        flags.valid = true;
        flags.user = true;
        flags.readable = true;
        flags.writable = true;
        let ghost a0 = self.frames.allocated();
        let ghost o0 = self.procs@[pid as int]->0.address_space.owned_frames();
        let mapped = match &mut self.procs[pid] {
            Some(process) => process.address_space.map_with_allocation(
                &mut self.frames,
                place,
                place + STACK_PAGES,
                flags,
            ),
            None => Err(MapError::BadRange),
        };
        proof {
            let space = self.procs@[pid as int]->0.address_space;
            let old_space = old(self).procs@[pid as int]->0.address_space;
            assert(old(self).procs@[pid as int]->0.wf_in(&old(self).frames, self.trampoline));
            lemma_taking_keeps_apart(
                self.kernel_space.owned_frames(),
                o0,
                space.owned_frames(),
                a0,
                self.frames.allocated(),
            );
            if mapped is Ok {
                lemma_trampoline_survives_map_frames(
                    old_space@,
                    self.trampoline,
                    place,
                    (place + STACK_PAGES) as u64,
                    mapped->Ok_0@,
                    stack_flags().or(owned_flag()),
                );
            }
            assert forall|p: int|
                0 <= p < self.procs@.len() && (#[trigger] self.procs@[p]) is Some implies {
                &&& self.procs@[p]->0.wf_in(&self.frames, self.trampoline)
                &&& self.procs@[p]->0.pid == p
                &&& self.procs@[p]->0.address_space.owned_frames().disjoint(
                    self.kernel_space.owned_frames(),
                )
            } by {
                if p != pid {
                    assert(self.procs@[p] == old(self).procs@[p]);
                    assert(old(self).procs@[p]->0.wf_in(&old(self).frames, self.trampoline));
                }
            }
            assert forall|p: int, q: int|
                0 <= p < self.procs@.len() && 0 <= q < self.procs@.len() && p != q && (
                #[trigger] self.procs@[p]) is Some && (#[trigger] self.procs@[q]) is Some
                    implies self.procs@[p]->0.address_space.owned_frames().disjoint(
                self.procs@[q]->0.address_space.owned_frames(),
            ) by {
                assert(old(self).procs@[p] is Some && old(self).procs@[q] is Some);
                if p == pid {
                    assert(old(self).procs@[q]->0.wf_in(&old(self).frames, self.trampoline));
                    lemma_taking_keeps_apart(
                        old(self).procs@[q]->0.address_space.owned_frames(),
                        o0,
                        space.owned_frames(),
                        a0,
                        self.frames.allocated(),
                    );
                    assert(self.procs@[q] == old(self).procs@[q]);
                } else if q == pid {
                    assert(old(self).procs@[p]->0.wf_in(&old(self).frames, self.trampoline));
                    lemma_taking_keeps_apart(
                        old(self).procs@[p]->0.address_space.owned_frames(),
                        o0,
                        space.owned_frames(),
                        a0,
                        self.frames.allocated(),
                    );
                    assert(self.procs@[p] == old(self).procs@[p]);
                } else {
                    assert(self.procs@[p] == old(self).procs@[p]);
                    assert(self.procs@[q] == old(self).procs@[q]);
                }
            }
            assert(self.wf());
        }
        let stack = match mapped {
            Ok(stack) => stack,
            Err(_) => {
                return (FAILED, Vec::new());
            },
        };
        let root = match &self.procs[pid] {
            Some(process) => process.address_space.root_ppn(),
            None => 0,
        };
        proof {
            let space = self.procs@[pid as int]->0.address_space;
            space.lemma_mappings(TRAMPOLINE_VPN);
            assert(self.frames.allocated().contains(space.root_frame()));
            self.frames.lemma_allocated_managed(space.root_frame());
        }
        let mut context = Context::user(entry);
        context.set_sp(((place + STACK_PAGES) * PAGE_SIZE) as usize);
        context.set_a(0, arg);
        self.processor.add(pid, context, SATP_SV39 + root);
        match &mut self.rels[pid] {
            Some(rel) => {
                rel_add_thread(rel, tid);
            },
            None => {},
        }
        proof {
            assert forall|p: int|
                0 <= p < old(self).process_count() && p != pid implies final(self).alive(p)
                    == old(self).alive(p) && #[trigger] self.relation(p)
                    == old(self).relation(p) && (old(self).alive(p) ==> self.process(p)
                    == old(self).process(p)) by {
                assert(self.procs@[p] == old(self).procs@[p]);
            }
        }
        (tid as isize, stack)
    }

    /// The thread that runs waits for thread `tid` of its process.  The
    /// answer is the exit code of the thread if it has ended, which is
    /// thereby collected; -2 if it still runs; and `FAILED` if it is the
    /// caller itself, no thread of the process, or collected already.
    pub fn waittid(&mut self, tid: usize) -> (ret: isize)
        requires
            old(self).wf(),
        ensures
            final(self).wf(),
            final(self).sched() == old(self).sched(),
            final(self).same_but_relation(old(self), old(self).running_pid()),
            if old(self).has_running_process() && old(self).sched().current != Some(tid)
                && old(self).relation(old(self).running_pid()) is Some {
                let pid = old(self).running_pid();
                let (after, found) = old(self).relation(pid)->0.wait_thread(tid);
                &&& final(self).relation(pid) == Some(after)
                &&& ret == match found {
                    Some(code) => code,
                    None => FAILED,
                }
            } else {
                ret == FAILED && final(self).relation(old(self).running_pid())
                    == old(self).relation(old(self).running_pid())
            },
    {
        let pid = match self.current_pid() {
            Some(pid) => pid,
            None => {
                return FAILED;
            },
        };
        if self.processor.current() == Some(tid) || pid >= self.rels.len() {
            return FAILED;
        }
        let found = match &mut self.rels[pid] {
            Some(rel) => rel_wait_thread(rel, tid),
            None => None,
        };
        proof {
            self.lemma_wf_after_relations(old(self));
        }
        match found {
            Some(code) => code,
            None => FAILED,
        }
    }

    /// The thread that runs waits for a child of its process: for the child
    /// `child`, or for any child if `child` is `usize::MAX`.  A child that
    /// has ended is collected.
    pub fn wait(&mut self, child: usize) -> (outcome: WaitOutcome)
        requires
            old(self).wf(),
        ensures
            final(self).wf(),
            final(self).sched() == old(self).sched(),
            final(self).same_but_relation(old(self), old(self).running_pid()),
            if old(self).has_running_process() && old(self).relation(old(self).running_pid())
                is Some {
                let pid = old(self).running_pid();
                let (after, found) = if child == usize::MAX {
                    old(self).relation(pid)->0.wait_any_child()
                } else {
                    old(self).relation(pid)->0.wait_child(child)
                };
                &&& final(self).relation(pid) == Some(after)
                &&& outcome == match found {
                    Some((who, code)) => if who == usize::MAX - 1 {
                        WaitOutcome::StillRunning
                    } else {
                        WaitOutcome::Collected { pid: who, exit_code: code }
                    },
                    None => WaitOutcome::NoChild,
                }
            } else {
                outcome == WaitOutcome::NoChild && final(self).relation(old(self).running_pid())
                    == old(self).relation(old(self).running_pid())
            },
    {
        let pid = match self.current_pid() {
            Some(pid) => pid,
            None => {
                return WaitOutcome::NoChild;
            },
        };
        if pid >= self.rels.len() {
            return WaitOutcome::NoChild;
        }
        let found = match &mut self.rels[pid] {
            Some(rel) => if child == usize::MAX {
                rel_wait_any_child(rel)
            } else {
                rel_wait_child(rel, child)
            },
            None => None,
        };
        proof {
            self.lemma_wf_after_relations(old(self));
        }
        match found {
            Some((who, code)) => if who == usize::MAX - 1 {
                WaitOutcome::StillRunning
            } else {
                WaitOutcome::Collected { pid: who, exit_code: code }
            },
            None => WaitOutcome::NoChild,
        }
    }

    /// Whether everything but the relations of process `pid` is as in `old`.
    pub open spec fn same_but_relation(&self, old: &Kernel, pid: int) -> bool {
        &&& self.process_count() == old.process_count()
        &&& self.trampoline() == old.trampoline()
        &&& self.kernel_map() == old.kernel_map()
        &&& self.allocated() == old.allocated()
        &&& forall|p: int|
            0 <= p < self.process_count() ==> self.alive(p) == old.alive(p) && (self.alive(p)
                ==> #[trigger] self.process(p) == old.process(p))
        &&& forall|p: int|
            0 <= p < self.process_count() && p != pid ==> #[trigger] self.relation(p)
                == old.relation(p)
        &&& forall|t: int|
            0 <= t < old.sched().states.len() ==> #[trigger] self.context_of(t) == old.context_of(
                t,
            ) && self.satp_of(t) == old.satp_of(t)
    }

    /// Keeps the kernel in order after a step that touched only relations.
    proof fn lemma_wf_after_relations(&self, old: &Kernel)
        requires
            old.wf(),
            self.processor == old.processor,
            self.frames == old.frames,
            self.trampoline == old.trampoline,
            self.kernel_space == old.kernel_space,
            self.procs == old.procs,
            self.rels@.len() == old.rels@.len(),
        ensures
            self.wf(),
    {
    }
}

/// Whether `q` is among the first `n` of the processes `children`.
pub open spec fn among(children: Seq<usize>, q: int, n: int) -> bool {
    exists|i: int| 0 <= i < n && i < children.len() && #[trigger] children[i] == q
}

impl Kernel {
    /// The relations `r` after the first `n` of the processes `children`
    /// have been added as children, each one that has relations of its own
    /// and is not `pid`.
    pub open spec fn adopted(&self, pid: int, r: RelState, children: Seq<usize>, n: int) -> RelState
        decreases n,
    {
        if n <= 0 {
            r
        } else if children[n - 1] != pid && self.relation(children[n - 1] as int) is Some {
            self.adopted(pid, r, children, n - 1).add_child(children[n - 1])
        } else {
            self.adopted(pid, r, children, n - 1)
        }
    }

    /// The relations of process `q` after process `pid`, whose relations
    /// were `dead` at its end, has been removed with `code`: the parent of
    /// `pid` finds it among its ended children, and the children of `pid`
    /// become children of process 0.
    pub open spec fn after_removal(&self, pid: int, dead: RelState, code: isize, q: int) -> Option<
        RelState,
    > {
        if q == pid || self.relation(q) is None {
            None
        } else {
            let r0 = self.relation(q)->0;
            let r1 = if q == dead.parent {
                r0.del_child(pid as usize, code)
            } else {
                r0
            };
            let r2 = if q == 0 && self.relation(0) is Some && pid != 0 {
                self.adopted(pid, r1, dead.children, dead.children.len() as int)
            } else {
                r1
            };
            Some(
                if among(dead.children, q, dead.children.len() as int) {
                    RelState { parent: 0, ..r2 }
                } else {
                    r2
                },
            )
        }
    }

    /// What the end of thread `tid` with `code` makes of the kernel `old`:
    /// the thread is a zombie and out of every queue, and its process keeps
    /// its code for `waittid`.  With its last thread the process goes too:
    /// its address space is torn down and its frames are free again, its
    /// parent finds it among the ended children with this code, and its own
    /// children become children of process 0.
    pub open spec fn after_exit(&self, old: &Kernel, tid: usize, code: isize) -> bool {
        let pid = old.sched().pids[tid as int] as int;
        &&& self.sched() == old.sched().kill(tid, code)
        &&& self.trampoline() == old.trampoline()
        &&& self.kernel_map() == old.kernel_map()
        &&& self.process_count() == old.process_count()
        &&& forall|t: int|
            0 <= t < old.sched().states.len() ==> #[trigger] self.context_of(t) == old.context_of(
                t,
            ) && self.satp_of(t) == old.satp_of(t)
        &&& if old.sched().states[tid as int] is Zombie || old.relation(pid) is None {
            self.same_but_relation(old, -1)
        } else {
            let dead = old.relation(pid)->0.del_thread(tid, code);
            if dead.threads.len() > 0 {
                &&& self.same_but_relation(old, pid)
                &&& self.relation(pid) == Some(dead)
            } else {
                &&& !self.alive(pid)
                &&& self.allocated() == if old.alive(pid) {
                    old.allocated().difference(old.process(pid).address_space.owned_frames())
                } else {
                    old.allocated()
                }
                &&& forall|q: int|
                    0 <= q < old.process_count() ==> #[trigger] self.relation(q)
                        == old.after_removal(pid, dead, code, q)
                &&& forall|q: int|
                    0 <= q < old.process_count() && q != pid ==> #[trigger] self.alive(q)
                        == old.alive(q)
                &&& forall|q: int|
                    0 <= q < old.process_count() && q != pid && old.alive(q)
                        ==> #[trigger] self.process(q) == old.process(q)
            }
        }
    }

    /// Ends thread `tid` with `exit_code`, whatever it was doing.  Nothing
    /// changes for a thread that has ended already, or if there is no such
    /// thread.
    pub fn exit_thread(&mut self, tid: usize, exit_code: isize)
        requires
            old(self).wf(),
        ensures
            final(self).wf(),
            if tid < old(self).sched().states.len() {
                final(self).after_exit(old(self), tid, exit_code)
            } else {
                final(self).same(old(self))
            },
    {
        proof {
            self.processor.lemma_wf();
        }
        let state = match self.processor.state(tid) {
            Some(state) => state,
            None => {
                return ;
            },
        };
        let pid = match self.processor.pid_of(tid) {
            Some(pid) => pid,
            None => 0,
        };
        self.processor.kill(tid, exit_code);
        let ended = match state {
            ThreadState::Zombie(_) => true,
            _ => false,
        };
        if ended || pid >= self.rels.len() {
            proof {
                self.lemma_wf_after_scheduler(old(self));
            }
            return ;
        }
        let last = match &mut self.rels[pid] {
            Some(rel) => {
                rel_del_thread(rel, tid, exit_code);
                rel_thread_count(rel) == 0
            },
            None => false,
        };
        proof {
            self.lemma_wf_after_scheduler(old(self));
        }
        if !last {
            return ;
        }
        let ghost mid = *self;
        self.remove_process(pid, exit_code);
        proof {
            let dead = mid.relation(pid as int)->0;
            assert(mid.procs == old(self).procs);
            assert forall|q: int|
                0 <= q < old(self).process_count() && q != pid implies #[trigger] self.alive(q)
                == old(self).alive(q) by {
                assert(mid.alive(q) == old(self).alive(q));
            }
            assert forall|q: int|
                0 <= q < old(self).process_count() && q != pid && old(self).alive(
                    q,
                ) implies #[trigger] self.process(q) == old(self).process(q) by {
                assert(mid.alive(q));
                assert(mid.process(q) == old(self).process(q));
            }
            assert forall|q: int| 0 <= q < old(self).process_count() implies mid.after_removal(
                pid as int,
                dead,
                exit_code,
                q,
            ) == old(self).after_removal(pid as int, dead, exit_code, q) by {
                if q != pid {
                    assert(mid.relation(q) == old(self).relation(q));
                }
                if q == 0 && mid.relation(0) is Some && pid != 0 {
                    let r0 = mid.relation(q)->0;
                    let r1 = if q == dead.parent {
                        r0.del_child(pid, exit_code)
                    } else {
                        r0
                    };
                    mid.lemma_adopted_same(
                        old(self),
                        pid as int,
                        r1,
                        dead.children,
                        dead.children.len() as int,
                    );
                }
            }
        }
    }

    /// Ends the thread that runs with `exit_code`.  Without a running
    /// thread nothing changes.
    pub fn exit_current(&mut self, exit_code: isize)
        requires
            old(self).wf(),
        ensures
            final(self).wf(),
            match old(self).sched().current {
                Some(tid) => final(self).after_exit(old(self), tid, exit_code),
                None => final(self).same(old(self)),
            },
    {
        proof {
            self.processor.lemma_wf();
        }
        match self.processor.current() {
            Some(tid) => self.exit_thread(tid, exit_code),
            None => {},
        }
    }

    /// What is adopted depends only on the relations of processes other than `pid`.
    proof fn lemma_adopted_same(&self, other: &Kernel, pid: int, r: RelState, children: Seq<usize>,
        n: int)
        requires
            forall|c: int| c != pid ==> #[trigger] self.relation(c) == other.relation(c),
        ensures
            self.adopted(pid, r, children, n) == other.adopted(pid, r, children, n),
        decreases n,
    {
        if n > 0 {
            self.lemma_adopted_same(other, pid, r, children, n - 1);
        }
    }

    /// Keeps the kernel in order after a step that touched only the
    /// scheduler and relations.
    proof fn lemma_wf_after_scheduler(&self, old: &Kernel)
        requires
            old.wf(),
            self.processor.wf(),
            self.frames == old.frames,
            self.trampoline == old.trampoline,
            self.kernel_space == old.kernel_space,
            self.procs == old.procs,
            self.rels@.len() == old.rels@.len(),
        ensures
            self.wf(),
    {
    }

    /// Removes process `pid`, whose relations are still in the table: tears
    /// its address space down, tells its parent, and hands its children to
    /// process 0.
    fn remove_process(&mut self, pid: usize, exit_code: isize)
        requires
            old(self).wf(),
            pid < old(self).rels@.len(),
            old(self).rels@[pid as int] is Some,
        ensures
            final(self).wf(),
            final(self).processor == old(self).processor,
            final(self).trampoline() == old(self).trampoline(),
            final(self).kernel_map() == old(self).kernel_map(),
            final(self).process_count() == old(self).process_count(),
            !final(self).alive(pid as int),
            final(self).allocated() == if old(self).alive(pid as int) {
                old(self).allocated().difference(
                    old(self).process(pid as int).address_space.owned_frames(),
                )
            } else {
                old(self).allocated()
            },
            forall|q: int|
                0 <= q < old(self).process_count() ==> #[trigger] final(self).relation(q)
                    == old(self).after_removal(pid as int, old(self).relation(pid as int)->0,
                    exit_code, q),
            forall|q: int|
                0 <= q < old(self).process_count() && q != pid ==> #[trigger] final(self).alive(q)
                    == old(self).alive(q),
            forall|q: int|
                0 <= q < old(self).process_count() && q != pid && old(self).alive(q)
                    ==> #[trigger] final(self).process(q) == old(self).process(q),
    {
        let ghost dead = old(self).relation(pid as int)->0;
        // the address space
        let gone = self.procs[pid].take();
        if let Some(process) = gone {
            proof {
                assert(old(self).procs@[pid as int]->0.wf_in(&old(self).frames, self.trampoline));
            }
            process.address_space.teardown(&mut self.frames);
        }
        proof {
            let freed = if old(self).procs@[pid as int] is Some {
                old(self).procs@[pid as int]->0.address_space.owned_frames()
            } else {
                Set::<u64>::empty()
            };
            assert(self.frames.allocated() =~= old(self).frames.allocated().difference(freed));
            assert forall|p: int|
                0 <= p < self.procs@.len() && (#[trigger] self.procs@[p]) is Some implies {
                &&& self.procs@[p]->0.wf_in(&self.frames, self.trampoline)
                &&& self.procs@[p]->0.pid == p
                &&& self.procs@[p]->0.address_space.owned_frames().disjoint(
                    self.kernel_space.owned_frames(),
                )
            } by {
                assert(self.procs@[p] == old(self).procs@[p]);
                assert(old(self).procs@[p]->0.wf_in(&old(self).frames, self.trampoline));
                if old(self).procs@[pid as int] is Some {
                    assert(old(self).procs@[p]->0.address_space.owned_frames().disjoint(freed));
                }
            }
            assert forall|p: int, q: int|
                0 <= p < self.procs@.len() && 0 <= q < self.procs@.len() && p != q && (
                #[trigger] self.procs@[p]) is Some && (#[trigger] self.procs@[q]) is Some
                    implies self.procs@[p]->0.address_space.owned_frames().disjoint(
                self.procs@[q]->0.address_space.owned_frames(),
            ) by {
                assert(self.procs@[p] == old(self).procs@[p]);
                assert(self.procs@[q] == old(self).procs@[q]);
            }
            if old(self).procs@[pid as int] is Some {
                assert(self.kernel_space.owned_frames().disjoint(freed));
            }
            assert(self.kernel_space.within(&self.frames));
        }
        // the relations
        let (parent, children) = match self.rels[pid].take() {
            Some(rel) => (rel_get_parent(&rel), rel_child_list(&rel)),
            None => (0, Vec::new()),
        };
        if parent < self.rels.len() {
            match &mut self.rels[parent] {
                Some(parent_rel) => {
                    rel_del_child(parent_rel, pid, exit_code);
                },
                None => {},
            }
        }
        let adopting = pid != 0 && self.rels.len() > 0 && self.rels[0].is_some();
        let ghost start = *self;
        let mut i: usize = 0;
        proof {
            assert(self.wf());
        }
        while i < children.len()
            invariant
                i <= children@.len(),
                self.wf(),
                children@ == dead.children,
                pid < self.rels@.len(),
                self.rels@.len() == old(self).rels@.len(),
                self.processor == old(self).processor,
                self.frames == start.frames,
                self.procs == start.procs,
                self.trampoline == start.trampoline,
                self.kernel_space == start.kernel_space,
                adopting == (pid != 0 && old(self).relation(0) is Some),
                forall|q: int|
                    0 <= q < self.rels@.len() ==> (#[trigger] self.rels@[q] is Some) == (q != pid
                        && old(self).rels@[q] is Some),
                forall|q: int|
                    0 <= q < self.rels@.len() && q != pid && old(self).rels@[q] is Some ==> {
                        let r0 = old(self).relation(q)->0;
                        let r1 = if q == dead.parent {
                            r0.del_child(pid, exit_code)
                        } else {
                            r0
                        };
                        let r2 = if q == 0 && adopting {
                            old(self).adopted(pid as int, r1, dead.children, i as int)
                        } else {
                            r1
                        };
                        #[trigger] self.relation(q) == Some(
                            if among(dead.children, q, i as int) {
                                RelState { parent: 0, ..r2 }
                            } else {
                                r2
                            },
                        )
                    },
            decreases children@.len() - i,
        {
            let child = children[i];
            let ghost before = *self;
            if child < self.rels.len() && self.rels[child].is_some() {
                match &mut self.rels[child] {
                    Some(rel) => {
                        rel_set_parent(rel, 0);
                    },
                    None => {},
                }
                if adopting {
                    match &mut self.rels[0] {
                        Some(init) => {
                            rel_add_child(init, child);
                        },
                        None => {},
                    }
                }
            }
            proof {
                assert(self.rels@.len() == old(self).rels@.len());
                self.lemma_wf_after_scheduler(&before);
                assert forall|q: int|
                    0 <= q < self.rels@.len() && q != pid && old(self).rels@[q] is Some implies {
                    let r0 = old(self).relation(q)->0;
                    let r1 = if q == dead.parent {
                        r0.del_child(pid, exit_code)
                    } else {
                        r0
                    };
                    let r2 = if q == 0 && adopting {
                        old(self).adopted(pid as int, r1, dead.children, i + 1)
                    } else {
                        r1
                    };
                    #[trigger] self.relation(q) == Some(
                        if among(dead.children, q, i + 1) {
                            RelState { parent: 0, ..r2 }
                        } else {
                            r2
                        },
                    )
                } by {
                    assert(before.relation(q) is Some);
                    assert((child != pid && old(self).relation(child as int) is Some) == (child
                        < self.rels@.len() && before.rels@[child as int] is Some)) by {
                        if child < self.rels@.len() {
                            assert((before.rels@[child as int] is Some) == (child != pid
                                && old(self).rels@[child as int] is Some));
                        }
                    }
                    if among(dead.children, q, i as int) {
                        let w = choose|w: int|
                            0 <= w < i && w < dead.children.len() && #[trigger] dead.children[w]
                                == q;
                        assert(dead.children[w] == q && w < i + 1);
                    }
                    if among(dead.children, q, i + 1) && !among(dead.children, q, i as int) {
                        let w = choose|w: int|
                            0 <= w < i + 1 && w < dead.children.len()
                                && #[trigger] dead.children[w] == q;
                        assert(w == i);
                    }
                    if q == child {
                        assert(dead.children[i as int] == q);
                    }
                }
            }
            i = i + 1;
        }
        proof {
            assert forall|q: int| 0 <= q < old(self).process_count()
                implies #[trigger] self.relation(
                q,
            ) == old(self).after_removal(pid as int, dead, exit_code, q) by {
                if q != pid && old(self).rels@[q] is Some {
                    assert(self.relation(q) is Some);
                }
            }
            assert forall|q: int|
                0 <= q < old(self).process_count() && q != pid implies #[trigger] self.alive(q)
                == old(self).alive(q) by {
                assert(self.procs@[q] == old(self).procs@[q]);
            }
            assert forall|q: int|
                0 <= q < old(self).process_count() && q != pid && old(self).alive(
                    q,
                ) implies #[trigger] self.process(q) == old(self).process(q) by {
                assert(self.procs@[q] == old(self).procs@[q]);
            }
        }
    }
}

impl Kernel {
    /// Keeps the kernel in order after a step of the scheduler alone.
    pub(crate) proof fn lemma_scheduler_step(&self, old: &Kernel)
        requires
            old.wf(),
            self.processor.wf(),
            self.frames == old.frames,
            self.trampoline == old.trampoline,
            self.kernel_space == old.kernel_space,
            self.procs == old.procs,
            self.rels == old.rels,
        ensures
            self.wf(),
            self.process_count() == old.process_count(),
            self.trampoline() == old.trampoline(),
            self.kernel_map() == old.kernel_map(),
            self.allocated() == old.allocated(),
            forall|p: int| #[trigger] self.alive(p) == old.alive(p),
            forall|p: int| #[trigger] self.relation(p) == old.relation(p),
            forall|p: int| #[trigger] self.process(p) == old.process(p),
    {
    }

    pub(crate) fn step_find_next(&mut self) -> (r: Option<usize>)
        requires
            old(self).wf(),
        ensures
            final(self).processor.wf(),
            final(self).frames == old(self).frames,
            final(self).trampoline == old(self).trampoline,
            final(self).kernel_space == old(self).kernel_space,
            final(self).procs == old(self).procs,
            final(self).rels == old(self).rels,
            final(self).sched() == old(self).sched().find_next(),
            r == final(self).sched().current,
            forall|t: int|
                0 <= t < old(self).sched().states.len() ==> #[trigger] final(self).context_of(t)
                    == old(self).context_of(t) && final(self).satp_of(t) == old(self).satp_of(t),
    {
        self.processor.find_next()
    }

    pub(crate) fn step_suspend(&mut self)
        requires
            old(self).wf(),
        ensures
            final(self).processor.wf(),
            final(self).frames == old(self).frames,
            final(self).trampoline == old(self).trampoline,
            final(self).kernel_space == old(self).kernel_space,
            final(self).procs == old(self).procs,
            final(self).rels == old(self).rels,
            final(self).sched() == old(self).sched().suspend(),
            forall|t: int|
                0 <= t < old(self).sched().states.len() ==> #[trigger] final(self).context_of(t)
                    == old(self).context_of(t) && final(self).satp_of(t) == old(self).satp_of(t),
    {
        self.processor.make_current_suspend();
    }

    pub(crate) fn step_set_context(&mut self, tid: usize, context: Context)
        requires
            old(self).wf(),
        ensures
            final(self).processor.wf(),
            final(self).frames == old(self).frames,
            final(self).trampoline == old(self).trampoline,
            final(self).kernel_space == old(self).kernel_space,
            final(self).procs == old(self).procs,
            final(self).rels == old(self).rels,
            final(self).sched() == old(self).sched(),
            tid < old(self).sched().states.len() ==> final(self).context_of(tid as int)
                == context@,
            forall|t: int|
                0 <= t < old(self).sched().states.len() && t != tid
                    ==> #[trigger] final(self).context_of(t) == old(self).context_of(t),
            forall|t: int|
                0 <= t < old(self).sched().states.len() ==> #[trigger] final(self).satp_of(t)
                    == old(self).satp_of(t),
    {
        if tid < self.processor.thread_count() {
            self.processor.set_context(tid, context);
        }
    }

    pub(crate) fn step_begin_syscall(&mut self) -> (r: Option<(usize, usize, [usize; 6])>)
        requires
            old(self).wf(),
        ensures
            final(self).processor.wf(),
            final(self).frames == old(self).frames,
            final(self).trampoline == old(self).trampoline,
            final(self).kernel_space == old(self).kernel_space,
            final(self).procs == old(self).procs,
            final(self).rels == old(self).rels,
            final(self).sched() == old(self).sched(),
            r is Some <==> old(self).sched().current is Some,
            r is None ==> final(self).processor == old(self).processor,
            r matches Some((tid, id, args)) ==> {
                &&& Some(tid) == old(self).sched().current
                &&& id == old(self).context_of(tid as int).a(7)
                &&& forall|i: int| 0 <= i < 6 ==> args[i] == old(self).context_of(tid as int).a(i)
                &&& final(self).context_of(tid as int) == old(self).context_of(
                    tid as int,
                ).move_next()
                &&& forall|t: int|
                    0 <= t < old(self).sched().states.len() && t != tid
                        ==> #[trigger] final(self).context_of(t) == old(self).context_of(t)
                &&& forall|t: int|
                    0 <= t < old(self).sched().states.len() ==> #[trigger] final(self).satp_of(t)
                        == old(self).satp_of(t)
            },
    {
        proof {
            self.processor.lemma_wf();
        }
        let tid = match self.processor.current() {
            Some(tid) => tid,
            None => {
                return None;
            },
        };
        let id = self.processor.context(tid).syscall_id();
        let args = self.processor.context(tid).syscall_args();
        self.processor.move_next(tid);
        Some((tid, id, args))
    }

    pub(crate) fn step_return(&mut self, tid: usize, ret: isize)
        requires
            old(self).wf(),
            tid < old(self).sched().states.len(),
        ensures
            final(self).processor.wf(),
            final(self).frames == old(self).frames,
            final(self).trampoline == old(self).trampoline,
            final(self).kernel_space == old(self).kernel_space,
            final(self).procs == old(self).procs,
            final(self).rels == old(self).rels,
            final(self).sched() == if old(self).sched().current == Some(tid) {
                old(self).sched().suspend()
            } else {
                old(self).sched()
            },
            final(self).context_of(tid as int) == old(self).context_of(tid as int).set_a(
                0,
                crate::context::register_of(ret),
            ),
            forall|t: int|
                0 <= t < old(self).sched().states.len() && t != tid
                    ==> #[trigger] final(self).context_of(t) == old(self).context_of(t),
            forall|t: int|
                0 <= t < old(self).sched().states.len() ==> #[trigger] final(self).satp_of(t)
                    == old(self).satp_of(t),
    {
        self.processor.set_a(tid, 0, crate::context::register_from(ret));
        if self.processor.current() == Some(tid) {
            self.processor.make_current_suspend();
        }
    }
}

/// The ends of a new pipe: the handles under which the process knows them,
/// and the physical addresses at which the two handles are to be stored for
/// the caller.
#[derive(Clone, Copy, PartialEq, Eq, Structural, Debug)]
pub struct PipeEnds {
    pub read_fd: usize,
    pub write_fd: usize,
    pub read_slot: u64,
    pub write_slot: u64,
}

/// The number of bytes of a machine word, in which a handle is stored.
pub const WORD: usize = 8;

impl Kernel {
    /// Opens a handle for `fd` in the process that runs, at the end of its
    /// table.  The answer is the handle's number, or -1, with nothing
    /// changed, if no process runs or the table is full.
    pub fn open(&mut self, fd: Fd) -> (ret: isize)
        requires
            old(self).wf(),
        ensures
            final(self).wf(),
            if old(self).has_running_process() && old(self).process(
                old(self).running_pid(),
            ).fd_table@.len() < isize::MAX {
                let pid = old(self).running_pid();
                &&& ret == old(self).process(pid).fd_table@.len()
                &&& final(self).process(pid).fd_table@ == old(self).process(pid).fd_table@.push(
                    Some(fd),
                )
                &&& final(self).same_but_handles_of(old(self), pid)
            } else {
                ret == FAILED && final(self).same(old(self))
            },
    {
        let pid = match self.current_pid() {
            Some(pid) => pid,
            None => {
                return FAILED;
            },
        };
        let id = match &mut self.procs[pid] {
            Some(process) => {
                if process.fd_table.len() >= isize::MAX as usize {
                    return FAILED;
                }
                process.open(fd)
            },
            None => 0,
        };
        proof {
            self.lemma_wf_after_slots(old(self), pid as int);
        }
        id as isize
    }

    /// Whether everything but the table of handles of process `pid` is as
    /// in `old`.
    pub open spec fn same_but_handles_of(&self, old: &Kernel, pid: int) -> bool {
        &&& self.sched() == old.sched()
        &&& self.process_count() == old.process_count()
        &&& self.trampoline() == old.trampoline()
        &&& self.kernel_map() == old.kernel_map()
        &&& self.allocated() == old.allocated()
        &&& forall|p: int|
            0 <= p < self.process_count() ==> #[trigger] self.alive(p) == old.alive(p)
        &&& forall|p: int|
            0 <= p < self.process_count() ==> #[trigger] self.relation(p) == old.relation(p)
        &&& forall|p: int|
            0 <= p < self.process_count() && self.alive(p) && p != pid ==> #[trigger] self.process(
                p,
            ) == old.process(p)
        &&& old.alive(pid) ==> self.process(pid).address_space == old.process(pid).address_space
            && self.process(pid).pid == old.process(pid).pid && self.process(pid).mutex_list
            == old.process(pid).mutex_list && self.process(pid).semaphore_list == old.process(
            pid,
        ).semaphore_list && self.process(pid).condvar_list == old.process(pid).condvar_list
            && self.process(pid).heap == old.process(pid).heap
        &&& forall|t: int|
            0 <= t < old.sched().states.len() ==> #[trigger] self.context_of(t) == old.context_of(
                t,
            ) && self.satp_of(t) == old.satp_of(t)
    }

    /// Closes the handle `fd` of the process that runs.  The answer is 0,
    /// or -1, with nothing changed, if the handle is not open.
    pub fn close(&mut self, fd: usize) -> (ret: isize)
        requires
            old(self).wf(),
        ensures
            final(self).wf(),
            if old(self).has_running_process() && fd < old(self).process(
                old(self).running_pid(),
            ).fd_table@.len() && old(self).process(old(self).running_pid()).fd_table@[fd as int]
                is Some {
                let pid = old(self).running_pid();
                &&& ret == 0
                &&& final(self).process(pid).fd_table@ == old(self).process(pid).fd_table@.update(
                    fd as int,
                    None,
                )
                &&& final(self).same_but_handles_of(old(self), pid)
            } else {
                ret == FAILED && final(self).same(old(self))
            },
    {
        let pid = match self.current_pid() {
            Some(pid) => pid,
            None => {
                return FAILED;
            },
        };
        let closed = match &mut self.procs[pid] {
            Some(process) => process.close(fd),
            None => false,
        };
        proof {
            self.lemma_wf_after_slots(old(self), pid as int);
            if !closed {
                assert(self.procs@[pid as int]->0.fd_table@ =~= old(self).procs@[pid as int]->0.fd_table@);
            }
        }
        if closed {
            0
        } else {
            FAILED
        }
    }

    /// Opens the two ends of the pipe `pipe_id` in the process that runs,
    /// the reading end first, for a caller who wants the two handles stored
    /// at the address `pipe`.  `None`, with nothing changed, if no process
    /// runs, the table is full, or one of the two words cannot be written.
    pub fn pipe(&mut self, pipe: usize, pipe_id: usize) -> (r: Option<PipeEnds>)
        requires
            old(self).wf(),
        ensures
            final(self).wf(),
            match r {
                Some(ends) => {
                    let pid = old(self).running_pid();
                    let fds = old(self).process(pid).fd_table@;
                    &&& old(self).has_running_process()
                    &&& ends.read_fd == fds.len()
                    &&& ends.write_fd == fds.len() + 1
                    &&& Some(ends.read_slot) == crate::space::translated(
                        old(self).space_of(pid),
                        pipe as u64,
                        crate::io::writable_flags(),
                    )
                    &&& Some(ends.write_slot) == crate::space::translated(
                        old(self).space_of(pid),
                        (pipe as u64).wrapping_add(WORD as u64),
                        crate::io::writable_flags(),
                    )
                    &&& final(self).process(pid).fd_table@ == fds.push(
                        Some(Fd::PipeRead(pipe_id)),
                    ).push(Some(Fd::PipeWrite(pipe_id)))
                    &&& final(self).same_but_handles_of(old(self), pid)
                },
                None => {
                    &&& final(self).same(old(self))
                    &&& !(old(self).has_running_process() && old(self).process(
                        old(self).running_pid(),
                    ).fd_table@.len() + 1 < isize::MAX && crate::space::translated(
                        old(self).space_of(old(self).running_pid()),
                        pipe as u64,
                        crate::io::writable_flags(),
                    ) is Some && crate::space::translated(
                        old(self).space_of(old(self).running_pid()),
                        (pipe as u64).wrapping_add(WORD as u64),
                        crate::io::writable_flags(),
                    ) is Some)
                },
            },
    {
        let pid = match self.current_pid() {
            Some(pid) => pid,
            None => {
                return None;
            },
        };
        proof {
            self.lemma_process(pid as int);
        }
        let ends = match &mut self.procs[pid] {
            Some(process) => {
                let read_fd = process.fd_table.len();
                if read_fd >= isize::MAX as usize - 1 {
                    return None;
                }
                let read_slot = match process.address_space.translate(pipe as u64,
                    crate::io::writable()) {
                    Some(p) => p,
                    None => {
                        return None;
                    },
                };
                let write_slot = match process.address_space.translate(
                    (pipe as u64).wrapping_add(WORD as u64),
                    crate::io::writable(),
                ) {
                    Some(p) => p,
                    None => {
                        return None;
                    },
                };
                process.open(Fd::PipeRead(pipe_id));
                process.open(Fd::PipeWrite(pipe_id));
                PipeEnds { read_fd, write_fd: read_fd + 1, read_slot, write_slot }
            },
            None => {
                return None;
            },
        };
        proof {
            self.lemma_wf_after_slots(old(self), pid as int);
        }
        Some(ends)
    }
}

/// A copy of a list of slots.
fn copy_slots<T: Copy>(slots: &Vec<Option<T>>) -> (copy: Vec<Option<T>>)
    ensures
        copy@ == slots@,
{
    let mut copy: Vec<Option<T>> = Vec::new();
    let mut i: usize = 0;
    while i < slots.len()
        invariant
            i <= slots@.len(),
            copy@ == slots@.subrange(0, i as int),
        decreases slots@.len() - i,
    {
        copy.push(slots[i]);
        proof {
            assert(copy@ =~= slots@.subrange(0, i + 1));
        }
        i = i + 1;
    }
    proof {
        assert(slots@.subrange(0, slots@.len() as int) =~= slots@);
    }
    copy
}

impl Kernel {
    /// Whether the kernel is as `old` but for a new process and a new
    /// thread at the ends of their tables, and for the relations of process
    /// `parent`, which has the new process as one more child.
    pub open spec fn grown_from(&self, old: &Kernel, parent: int) -> bool {
        let pid = old.process_count() as int;
        let tid = old.sched().states.len() as int;
        &&& self.trampoline() == old.trampoline()
        &&& self.kernel_map() == old.kernel_map()
        &&& self.process_count() == old.process_count() + 1
        &&& self.alive(pid)
        &&& self.process(pid).pid == pid
        &&& self.sched() == old.sched().add_thread(pid as usize)
        &&& self.relation(pid) == Some(RelState::new(parent as usize).add_thread(tid as usize))
        &&& forall|q: int|
            0 <= q < old.process_count() ==> #[trigger] self.alive(q) == old.alive(q)
        &&& forall|q: int|
            0 <= q < old.process_count() && old.alive(q) ==> #[trigger] self.process(q)
                == old.process(q)
        &&& forall|q: int|
            0 <= q < old.process_count() ==> #[trigger] self.relation(q) == (if q == parent
                && old.relation(q) is Some {
                Some(old.relation(q)->0.add_child(pid as usize))
            } else {
                old.relation(q)
            })
        &&& forall|t: int|
            0 <= t < old.sched().states.len() ==> #[trigger] self.context_of(t) == old.context_of(
                t,
            ) && self.satp_of(t) == old.satp_of(t)
    }

    /// Makes a copy of the process that runs.  The new process is a child
    /// of the caller.  Its address space is a copy of the caller's, with
    /// frames of its own for every page that the caller owns; it has the
    /// same handles and the same synchronisation objects; and it has one
    /// thread, whose registers are those of the caller but for a zero in
    /// `a0`, by which it tells itself from the caller.  The answer is the
    /// identity of the new process, with the frames to copy; or `FAILED`,
    /// with nothing changed, if no process runs, a table is full, or the
    /// frames do not suffice.
    pub fn fork(&mut self) -> (r: (isize, Vec<FrameCopy>))
        requires
            old(self).wf(),
        ensures
            final(self).wf(),
            r.0 == FAILED || r.0 >= 0,
            r.0 == FAILED ==> final(self).same(old(self)) && r.1@.len() == 0,
            old(self).has_running_process() && old(self).process_count() < isize::MAX && old(
                self,
            ).sched().states.len() < usize::MAX && old(self).free_frames() >= frames_for_copy(
                old(self).space_of(old(self).running_pid()),
            ) ==> r.0 >= 0,
            r.0 >= 0 ==> {
                let parent = old(self).running_pid();
                let caller = old(self).sched().current->0 as int;
                let pid = old(self).process_count() as int;
                let tid = old(self).sched().states.len() as int;
                &&& old(self).has_running_process()
                &&& r.0 == pid
                &&& final(self).grown_from(old(self), parent)
                &&& duplicated(old(self).space_of(parent), final(self).space_of(pid),
                    VPN_LIMIT as int)
                &&& copies_match(
                    old(self).space_of(parent),
                    final(self).space_of(pid),
                    r.1@,
                    VPN_LIMIT as int,
                )
                &&& final(self).process(pid).heap == old(self).process(parent).heap
                &&& final(self).process(pid).fd_table@ == old(self).process(parent).fd_table@
                &&& final(self).process(pid).mutex_list@ == old(self).process(parent).mutex_list@
                &&& final(self).process(pid).semaphore_list@ == old(self).process(
                    parent,
                ).semaphore_list@
                &&& final(self).process(pid).condvar_list@ == old(self).process(
                    parent,
                ).condvar_list@
                &&& final(self).context_of(tid) == old(self).context_of(caller).set_a(0, 0)
                &&& final(self).satp_of(tid) == satp_of_root(
                    final(self).process(pid).address_space.root_frame(),
                )
            },
    {
        proof {
            self.processor.lemma_wf();
        }
        let parent = match self.current_pid() {
            Some(pid) => pid,
            None => {
                return (FAILED, Vec::new());
            },
        };
        let caller = match self.processor.current() {
            Some(tid) => tid,
            None => 0,
        };
        let pid = self.procs.len();
        if pid >= isize::MAX as usize || self.processor.thread_count() == usize::MAX {
            return (FAILED, Vec::new());
        }
        proof {
            assert(self.procs@[parent as int]->0.wf_in(&self.frames, self.trampoline));
        }
        let ghost a0 = self.frames.allocated();
        let built = match &self.procs[parent] {
            Some(process) => match process.address_space.duplicate(&mut self.frames) {
                Ok((space, copies)) => Some(
                    (
                        Process {
                            pid,
                            address_space: space,
                            fd_table: copy_slots(&process.fd_table),
                            mutex_list: copy_slots(&process.mutex_list),
                            semaphore_list: copy_slots(&process.semaphore_list),
                            condvar_list: copy_slots(&process.condvar_list),
                            heap: process.heap,
                        },
                        copies,
                    ),
                ),
                Err(_) => None,
            },
            None => None,
        };
        let (child, copies) = match built {
            Some(built) => built,
            None => {
                return (FAILED, Vec::new());
            },
        };
        proof {
            child.address_space.lemma_mappings(TRAMPOLINE_VPN);
            assert(self.frames.allocated().contains(child.address_space.root_frame()));
            self.frames.lemma_allocated_managed(child.address_space.root_frame());
            assert(has_trampoline(child.address_space@, self.trampoline)) by {
                let o = self.procs@[parent as int]->0.address_space@;
                assert(child.address_space@.contains_key(TRAMPOLINE_VPN) == o.contains_key(
                    TRAMPOLINE_VPN,
                ));
            }
            assert forall|p: int|
                0 <= p < self.procs@.len() && (#[trigger] self.procs@[p]) is Some implies {
                &&& self.procs@[p]->0.wf_in(&self.frames, self.trampoline)
                &&& self.procs@[p]->0.address_space.owned_frames().disjoint(
                    child.address_space.owned_frames(),
                )
            } by {
                assert(old(self).procs@[p]->0.wf_in(&old(self).frames, self.trampoline));
            }
        }
        let satp = SATP_SV39 + child.address_space.root_ppn();
        let mut context = self.processor.context(caller).duplicate();
        context.set_a(0, 0);
        self.procs.push(Some(child));
        let mut rel = rel_new(parent);
        if parent < self.rels.len() {
            match &mut self.rels[parent] {
                Some(parent_rel) => {
                    rel_add_child(parent_rel, pid);
                },
                None => {},
            }
        }
        let tid = match self.processor.add(pid, context, satp) {
            Some(tid) => tid,
            None => 0,
        };
        rel_add_thread(&mut rel, tid);
        self.rels.push(Some(rel));
        proof {
            assert forall|p: int|
                0 <= p < self.procs@.len() && (#[trigger] self.procs@[p]) is Some implies {
                &&& self.procs@[p]->0.wf_in(&self.frames, self.trampoline)
                &&& self.procs@[p]->0.pid == p
                &&& self.procs@[p]->0.address_space.owned_frames().disjoint(
                    self.kernel_space.owned_frames(),
                )
            } by {
                if p < pid {
                    assert(self.procs@[p] == old(self).procs@[p]);
                }
            }
            assert forall|p: int, q: int|
                0 <= p < self.procs@.len() && 0 <= q < self.procs@.len() && p != q && (
                #[trigger] self.procs@[p]) is Some && (#[trigger] self.procs@[q]) is Some
                    implies self.procs@[p]->0.address_space.owned_frames().disjoint(
                self.procs@[q]->0.address_space.owned_frames(),
            ) by {
                if p < pid {
                    assert(self.procs@[p] == old(self).procs@[p]);
                }
                if q < pid {
                    assert(self.procs@[q] == old(self).procs@[q]);
                }
            }
            assert forall|q: int| 0 <= q < old(self).process_count() implies #[trigger] self.alive(
                q,
            ) == old(self).alive(q) by {
                assert(self.procs@[q] == old(self).procs@[q]);
            }
            assert forall|q: int|
                0 <= q < old(self).process_count() && old(self).alive(
                    q,
                ) implies #[trigger] self.process(q) == old(self).process(q) by {
                assert(self.procs@[q] == old(self).procs@[q]);
            }
        }
        (pid as isize, copies)
    }

    /// Replaces the program of the process that runs, which must have no
    /// other thread: it gets a new address space with the parts `segments`
    /// and a stack, and its thread starts afresh at `entry`.  Its handles
    /// and synchronisation objects stay.  The frames of the old address
    /// space are free again.  `Ok` comes with the frames to fill.  On an
    /// error nothing has changed.
    pub fn exec(&mut self, segments: &Vec<Segment>, entry: usize) -> (r: Result<
        ProgramFrames,
        SpawnError,
    >)
        requires
            old(self).wf(),
        ensures
            final(self).wf(),
            final(self).sched() == old(self).sched(),
            final(self).trampoline() == old(self).trampoline(),
            final(self).kernel_map() == old(self).kernel_map(),
            final(self).process_count() == old(self).process_count(),
            forall|q: int|
                0 <= q < old(self).process_count() ==> #[trigger] final(self).alive(q)
                    == old(self).alive(q),
            forall|q: int|
                0 <= q < old(self).process_count() ==> #[trigger] final(self).relation(q)
                    == old(self).relation(q),
            match r {
                Ok(loaded) => {
                    let pid = old(self).running_pid();
                    let tid = old(self).sched().current->0 as int;
                    &&& program_fits(segments@)
                    &&& old(self).has_running_process()
                    &&& old(self).relation(pid) is Some
                    &&& old(self).relation(pid)->0.threads.len() == 1
                    &&& final(self).space_of(pid) == program_mapped(
                        old(self).trampoline(),
                        segments@,
                        frame_lists(loaded.segments@),
                        loaded.stack@,
                    )
                    &&& final(self).process(pid).heap == (Heap {
                        bottom: heap_bottom_of(segments@),
                        brk: heap_bottom_of(segments@),
                    })
                    &&& final(self).process(pid).fd_table == old(self).process(pid).fd_table
                    &&& final(self).process(pid).mutex_list == old(self).process(pid).mutex_list
                    &&& final(self).process(pid).semaphore_list == old(self).process(
                        pid,
                    ).semaphore_list
                    &&& final(self).process(pid).condvar_list == old(self).process(
                        pid,
                    ).condvar_list
                    &&& final(self).context_of(tid) == ContextState::user(entry).set_sp(
                        (USER_STACK_TOP * PAGE_SIZE) as usize,
                    )
                    &&& final(self).satp_of(tid) == satp_of_root(
                        final(self).process(pid).address_space.root_frame(),
                    )
                    &&& forall|q: int|
                        0 <= q < old(self).process_count() && q != pid && old(self).alive(q)
                            ==> #[trigger] final(self).process(q) == old(self).process(q)
                    &&& forall|t: int|
                        0 <= t < old(self).sched().states.len() && t != tid
                            ==> #[trigger] final(self).context_of(t) == old(self).context_of(t)
                            && final(self).satp_of(t)
                            == old(self).satp_of(t)
                },
                Err(e) => {
                    &&& final(self).same(old(self))
                    &&& e == SpawnError::TableFull <==> !(old(self).has_running_process()
                        && old(self).relation(old(self).running_pid()) is Some
                        && old(self).relation(
                        old(self).running_pid(),
                    )->0.threads.len() == 1)
                    &&& e != SpawnError::NarrowWords
                    &&& e is Memory && e->Memory_0 != MapError::OutOfFrames ==> !program_fits(
                        segments@,
                    )
                },
            },
            program_fits(segments@) && old(self).free_frames() >= frames_for_program(segments@)
                && old(self).has_running_process() && old(self).relation(
                old(self).running_pid(),
            ) is Some && old(self).relation(old(self).running_pid())->0.threads.len() == 1
                ==> r is Ok,
    {
        proof {
            self.processor.lemma_wf();
            self.kernel_space.lemma_mappings(TRAMPOLINE_VPN);
        }
        let pid = match self.current_pid() {
            Some(pid) => pid,
            None => {
                return Err(SpawnError::TableFull);
            },
        };
        let tid = match self.processor.current() {
            Some(tid) => tid,
            None => 0,
        };
        let alone = match &self.rels[pid] {
            Some(rel) => rel_thread_count(rel) == 1,
            None => false,
        };
        if !alone {
            return Err(SpawnError::TableFull);
        }
        let ghost a0 = self.frames.allocated();
        let (space, loaded) = match program_space(&mut self.frames, self.trampoline, segments) {
            Ok(built) => built,
            Err(e) => {
                return Err(SpawnError::Memory(e));
            },
        };
        proof {
            space.lemma_mappings(TRAMPOLINE_VPN);
            assert(self.frames.allocated().contains(space.root_frame()));
            self.frames.lemma_allocated_managed(space.root_frame());
            assert forall|p: int|
                0 <= p < self.procs@.len() && (#[trigger] self.procs@[p]) is Some implies {
                &&& old(self).procs@[p]->0.wf_in(&old(self).frames, self.trampoline)
                &&& self.procs@[p]->0.address_space.owned_frames().disjoint(space.owned_frames())
            } by {
                assert(old(self).procs@[p]->0.wf_in(&old(self).frames, self.trampoline));
            }
        }
        let satp = SATP_SV39 + space.root_ppn();
        let ghost new_owned = space.owned_frames();
        let ghost a1 = self.frames.allocated();
        let bottom = heap_bottom(segments);
        let before = self.procs[pid].take();
        if let Some(process) = before {
            let Process { pid: id, address_space, fd_table, mutex_list, semaphore_list,
                condvar_list, heap: _ } =
                process;
            let ghost old_owned = address_space.owned_frames();
            proof {
                assert(old_owned.subset_of(a1));
            }
            address_space.teardown(&mut self.frames);
            proof {
                assert(new_owned.subset_of(self.frames.allocated()));
                assert(self.kernel_space.owned_frames().subset_of(self.frames.allocated())) by {
                    assert(old(self).procs@[pid as int]->0.address_space.owned_frames().disjoint(
                        self.kernel_space.owned_frames(),
                    ));
                }
            }
            self.procs[pid] = Some(
                Process {
                    pid: id,
                    address_space: space,
                    fd_table,
                    mutex_list,
                    semaphore_list,
                    condvar_list,
                    heap: Heap { bottom, brk: bottom },
                },
            );
        }
        let mut context = Context::user(entry);
        context.set_sp((USER_STACK_TOP * PAGE_SIZE) as usize);
        self.processor.set_context(tid, context);
        self.processor.set_satp(tid, satp);
        proof {
            let freed = old(self).procs@[pid as int]->0.address_space.owned_frames();
            assert forall|p: int|
                0 <= p < self.procs@.len() && (#[trigger] self.procs@[p]) is Some implies {
                &&& self.procs@[p]->0.wf_in(&self.frames, self.trampoline)
                &&& self.procs@[p]->0.pid == p
                &&& self.procs@[p]->0.address_space.owned_frames().disjoint(
                    self.kernel_space.owned_frames(),
                )
            } by {
                if p != pid {
                    assert(self.procs@[p] == old(self).procs@[p]);
                    assert(old(self).procs@[p]->0.wf_in(&old(self).frames, self.trampoline));
                    assert(old(self).procs@[p]->0.address_space.owned_frames().disjoint(freed));
                }
            }
            assert forall|p: int, q: int|
                0 <= p < self.procs@.len() && 0 <= q < self.procs@.len() && p != q && (
                #[trigger] self.procs@[p]) is Some && (#[trigger] self.procs@[q]) is Some
                    implies self.procs@[p]->0.address_space.owned_frames().disjoint(
                self.procs@[q]->0.address_space.owned_frames(),
            ) by {
                if p != pid {
                    assert(self.procs@[p] == old(self).procs@[p]);
                }
                if q != pid {
                    assert(self.procs@[q] == old(self).procs@[q]);
                }
            }
            assert forall|q: int| 0 <= q < old(self).process_count() implies #[trigger] self.alive(
                q,
            ) == old(self).alive(q) by {
                if q != pid {
                    assert(self.procs@[q] == old(self).procs@[q]);
                }
            }
            assert forall|q: int|
                0 <= q < old(self).process_count() && q != pid && old(self).alive(
                    q,
                ) implies #[trigger] self.process(q) == old(self).process(q) by {
                assert(self.procs@[q] == old(self).procs@[q]);
            }
        }
        Ok(loaded)
    }
}

/// One more than the largest protection that `mmap` takes: the bits for
/// reading, writing and running, of which one at least must be set.
pub const PROT_LIMIT: usize = 8;

/// The flags of pages that are mapped with the protection `prot`: valid,
/// for user mode, readable with bit 0, writable with bit 1 and executable
/// with bit 2.
pub open spec fn prot_flags(prot: usize) -> VmFlags {
    VmFlags {
        valid: true,
        user: true,
        readable: prot % 2 == 1,
        writable: prot / 2 % 2 == 1,
        executable: prot / 4 % 2 == 1,
        ..VmFlags::zero()
    }
}

/// Whether the `len` bytes from the address `addr` on can be mapped or
/// unmapped: `addr` is the start of a page, `len` is not zero, and the
/// bytes lie in the address space.
pub open spec fn bytes_ok(addr: usize, len: usize) -> bool {
    addr % (PAGE_SIZE as usize) == 0 && len > 0 && addr + len <= VADDR_LIMIT
}

/// The page in which the address `addr` lies.
pub open spec fn first_page_of(addr: usize) -> u64 {
    (addr / (PAGE_SIZE as usize)) as u64
}

/// The page behind the last of the `len` bytes from the address `addr` on.
pub open spec fn end_page_of(addr: usize, len: usize) -> u64 {
    ((addr + len + PAGE_SIZE - 1) / (PAGE_SIZE as int)) as u64
}

/// The pages that the `len` bytes from the address `addr` on lie in: the
/// first of them and the one behind the last.
pub fn page_range(addr: usize, len: usize) -> (r: Option<(u64, u64)>)
    ensures
        r is Some <==> bytes_ok(addr, len),
        r is Some ==> r == Some((first_page_of(addr), end_page_of(addr, len))),
        r is Some ==> first_page_of(addr) < end_page_of(addr, len) <= VPN_LIMIT,
{
    let addr = addr as u64;
    let len = len as u64;
    if addr % PAGE_SIZE != 0 || len == 0 || addr > VADDR_LIMIT || len > VADDR_LIMIT - addr {
        return None;
    }
    Some((addr / PAGE_SIZE, (addr + len + (PAGE_SIZE - 1)) / PAGE_SIZE))
}

impl Kernel {
    /// Whether the kernel differs from `old` at most in the address space
    /// and the heap of process `pid` and in the frames that are handed out.
    pub open spec fn same_but_memory(&self, old: &Kernel, pid: int) -> bool {
        &&& self.sched() == old.sched()
        &&& self.process_count() == old.process_count()
        &&& self.trampoline() == old.trampoline()
        &&& self.kernel_map() == old.kernel_map()
        &&& forall|p: int|
            0 <= p < self.process_count() ==> #[trigger] self.alive(p) == old.alive(p)
        &&& forall|p: int|
            0 <= p < self.process_count() ==> #[trigger] self.relation(p) == old.relation(p)
        &&& forall|p: int|
            0 <= p < self.process_count() && old.alive(p) && p != pid ==> #[trigger] self.process(
                p,
            ) == old.process(p)
        &&& old.alive(pid) ==> {
            &&& self.process(pid).pid == old.process(pid).pid
            &&& self.process(pid).fd_table == old.process(pid).fd_table
            &&& self.process(pid).mutex_list == old.process(pid).mutex_list
            &&& self.process(pid).semaphore_list == old.process(pid).semaphore_list
            &&& self.process(pid).condvar_list == old.process(pid).condvar_list
            &&& self.process(pid).address_space.root_frame() == old.process(
                pid,
            ).address_space.root_frame()
        }
        &&& forall|t: int|
            0 <= t < self.sched().states.len() ==> #[trigger] self.context_of(t) == old.context_of(
                t,
            ) && self.satp_of(t) == old.satp_of(t)
    }

    /// Whether the kernel differs from `old` at most in the address space
    /// of process `pid` and in the frames that are handed out.
    pub open spec fn same_but_space(&self, old: &Kernel, pid: int) -> bool {
        &&& self.same_but_memory(old, pid)
        &&& old.alive(pid) ==> self.process(pid).heap == old.process(pid).heap
    }

    /// Whether `mmap` can map the `len` bytes from `addr` on with the
    /// protection `prot` for the process that runs: the bytes begin with a
    /// page and lie in the address space, the protection names an access
    /// and nothing else, and none of the pages is mapped.
    pub open spec fn can_mmap(&self, addr: usize, len: usize, prot: usize) -> bool {
        &&& self.has_running_process()
        &&& bytes_ok(addr, len)
        &&& 0 < prot < PROT_LIMIT
        &&& range_free(
            self.space_of(self.running_pid()),
            first_page_of(addr),
            end_page_of(addr, len),
        )
    }

    /// Whether `munmap` can take the `len` bytes from `addr` on away from
    /// the process that runs: the bytes begin with a page and lie in the
    /// address space, and every page of them is mapped for user mode.
    pub open spec fn can_munmap(&self, addr: usize, len: usize) -> bool {
        &&& self.has_running_process()
        &&& bytes_ok(addr, len)
        &&& range_user(
            self.space_of(self.running_pid()),
            first_page_of(addr),
            end_page_of(addr, len),
        )
    }

    /// Maps the pages of the `len` bytes from `addr` on to new frames, for
    /// the process that runs, with the protection `prot`.  The answer is 0
    /// with the frames in the order of the pages, for whoever clears them,
    /// or `FAILED` with no mapping changed.  It is `FAILED` when the call
    /// cannot be done, and may be when fewer than three frames are free for
    /// each page.
    pub fn mmap(&mut self, addr: usize, len: usize, prot: usize) -> (r: (isize, Vec<u64>))
        requires
            old(self).wf(),
        ensures
            final(self).wf(),
            final(self).same_but_space(old(self), old(self).running_pid()),
            r.0 == 0 || r.0 == FAILED,
            r.0 == 0 ==> {
                let pid = old(self).running_pid();
                &&& old(self).can_mmap(addr, len, prot)
                &&& r.1@.len() == end_page_of(addr, len) - first_page_of(addr)
                &&& r.1@.no_duplicates()
                &&& forall|i: int|
                    0 <= i < r.1@.len() ==> !old(self).allocated().contains(#[trigger] r.1@[i])
                        && final(self).allocated().contains(r.1@[i])
                &&& final(self).free_frames() + r.1@.len() <= old(self).free_frames()
                &&& final(self).space_of(pid) == mapped_frames(
                    old(self).space_of(pid),
                    first_page_of(addr),
                    end_page_of(addr, len),
                    r.1@,
                    prot_flags(prot).or(owned_flag()),
                )
            },
            r.0 == FAILED ==> {
                &&& r.1@.len() == 0
                &&& old(self).has_running_process() ==> final(self).space_of(
                    old(self).running_pid(),
                ) == old(self).space_of(old(self).running_pid())
                &&& old(self).can_mmap(addr, len, prot) ==> old(self).free_frames() < 3 * (
                end_page_of(addr, len) - first_page_of(addr))
            },
    {
        proof {
            self.processor.lemma_wf();
        }
        let pid = match self.current_pid() {
            Some(pid) => pid,
            None => {
                return (FAILED, Vec::new());
            },
        };
        let (start, end) = match page_range(addr, len) {
            Some(pages) => pages,
            None => {
                return (FAILED, Vec::new());
            },
        };
        if prot == 0 || prot >= PROT_LIMIT {
            return (FAILED, Vec::new());
        }
        let mut flags = VmFlags::empty();
        flags.valid = true;
        flags.user = true;
        flags.readable = prot % 2 == 1;
        flags.writable = prot / 2 % 2 == 1;
        flags.executable = prot / 4 % 2 == 1;
        let ghost a0 = self.frames.allocated();
        let ghost o0 = self.procs@[pid as int]->0.address_space.owned_frames();
        let mapped = match &mut self.procs[pid] {
            Some(process) => process.address_space.map_with_allocation(
                &mut self.frames,
                start,
                end,
                flags,
            ),
            None => Err(MapError::BadRange),
        };
        proof {
            let space = self.procs@[pid as int]->0.address_space;
            let old_space = old(self).procs@[pid as int]->0.address_space;
            assert(old(self).procs@[pid as int]->0.wf_in(&old(self).frames, self.trampoline));
            lemma_taking_keeps_apart(
                self.kernel_space.owned_frames(),
                o0,
                space.owned_frames(),
                a0,
                self.frames.allocated(),
            );
            if mapped is Ok {
                assert(old_space@.contains_key(TRAMPOLINE_VPN));
                lemma_trampoline_survives_map_frames(
                    old_space@,
                    self.trampoline,
                    start,
                    end,
                    mapped->Ok_0@,
                    flags.or(owned_flag()),
                );
            }
            assert forall|p: int|
                0 <= p < self.procs@.len() && (#[trigger] self.procs@[p]) is Some implies {
                &&& self.procs@[p]->0.wf_in(&self.frames, self.trampoline)
                &&& self.procs@[p]->0.pid == p
                &&& self.procs@[p]->0.address_space.owned_frames().disjoint(
                    self.kernel_space.owned_frames(),
                )
            } by {
                if p != pid {
                    assert(self.procs@[p] == old(self).procs@[p]);
                    assert(old(self).procs@[p]->0.wf_in(&old(self).frames, self.trampoline));
                }
            }
            assert forall|p: int, q: int|
                0 <= p < self.procs@.len() && 0 <= q < self.procs@.len() && p != q && (
                #[trigger] self.procs@[p]) is Some && (#[trigger] self.procs@[q]) is Some
                    implies self.procs@[p]->0.address_space.owned_frames().disjoint(
                self.procs@[q]->0.address_space.owned_frames(),
            ) by {
                assert(old(self).procs@[p] is Some && old(self).procs@[q] is Some);
                if p == pid {
                    assert(old(self).procs@[q]->0.wf_in(&old(self).frames, self.trampoline));
                    lemma_taking_keeps_apart(
                        old(self).procs@[q]->0.address_space.owned_frames(),
                        o0,
                        space.owned_frames(),
                        a0,
                        self.frames.allocated(),
                    );
                    assert(self.procs@[q] == old(self).procs@[q]);
                } else if q == pid {
                    assert(old(self).procs@[p]->0.wf_in(&old(self).frames, self.trampoline));
                    lemma_taking_keeps_apart(
                        old(self).procs@[p]->0.address_space.owned_frames(),
                        o0,
                        space.owned_frames(),
                        a0,
                        self.frames.allocated(),
                    );
                    assert(self.procs@[p] == old(self).procs@[p]);
                } else {
                    assert(self.procs@[p] == old(self).procs@[p]);
                    assert(self.procs@[q] == old(self).procs@[q]);
                }
            }
            assert(self.wf());
            assert forall|p: int|
                0 <= p < self.process_count() && old(self).alive(p) && p != pid
                    implies #[trigger] self.process(
                p,
            ) == old(self).process(p) by {
                assert(self.procs@[p] == old(self).procs@[p]);
            }
            assert(flags == prot_flags(prot));
        }
        match mapped {
            Ok(taken) => (0, taken),
            Err(_) => (FAILED, Vec::new()),
        }
    }

    /// Takes the mappings of the pages of the `len` bytes from `addr` on
    /// away from the process that runs.  The answer is 0, or `FAILED` with
    /// nothing changed when the call cannot be done.  The frames stay with
    /// the address space until it is torn down.
    pub fn munmap(&mut self, addr: usize, len: usize) -> (ret: isize)
        requires
            old(self).wf(),
        ensures
            final(self).wf(),
            final(self).same_but_space(old(self), old(self).running_pid()),
            final(self).allocated() == old(self).allocated(),
            ret == 0 <==> old(self).can_munmap(addr, len),
            ret == 0 ==> final(self).space_of(old(self).running_pid()) == unmapped(
                old(self).space_of(old(self).running_pid()),
                first_page_of(addr),
                end_page_of(addr, len),
            ),
            ret != 0 ==> ret == FAILED && final(self).same(old(self)),
    {
        proof {
            self.processor.lemma_wf();
        }
        let pid = match self.current_pid() {
            Some(pid) => pid,
            None => {
                return FAILED;
            },
        };
        let (start, end) = match page_range(addr, len) {
            Some(pages) => pages,
            None => {
                return FAILED;
            },
        };
        let all = match &self.procs[pid] {
            Some(process) => process.address_space.is_range_user(start, end),
            None => false,
        };
        proof {
            assert(old(self).procs@[pid as int]->0.wf_in(&old(self).frames, self.trampoline));
        }
        if !all {
            return FAILED;
        }
        match &mut self.procs[pid] {
            Some(process) => {
                process.address_space.unmap(start, end);
            },
            None => {},
        }
        proof {
            let old_space = old(self).procs@[pid as int]->0.address_space;
            if start <= TRAMPOLINE_VPN < end {
                assert(user_page(old_space@, TRAMPOLINE_VPN));
            }
            lemma_trampoline_survives_unmap(old_space@, self.trampoline, start, end);
            assert forall|p: int|
                0 <= p < self.procs@.len() && (#[trigger] self.procs@[p]) is Some implies {
                &&& self.procs@[p]->0.wf_in(&self.frames, self.trampoline)
                &&& self.procs@[p]->0.pid == p
                &&& self.procs@[p]->0.address_space.owned_frames().disjoint(
                    self.kernel_space.owned_frames(),
                )
            } by {
                if p != pid {
                    assert(self.procs@[p] == old(self).procs@[p]);
                }
                assert(old(self).procs@[p]->0.wf_in(&old(self).frames, self.trampoline));
            }
            assert forall|p: int, q: int|
                0 <= p < self.procs@.len() && 0 <= q < self.procs@.len() && p != q && (
                #[trigger] self.procs@[p]) is Some && (#[trigger] self.procs@[q]) is Some
                    implies self.procs@[p]->0.address_space.owned_frames().disjoint(
                self.procs@[q]->0.address_space.owned_frames(),
            ) by {
                assert(old(self).procs@[p] is Some && old(self).procs@[q] is Some);
                if p != pid {
                    assert(self.procs@[p] == old(self).procs@[p]);
                }
                if q != pid {
                    assert(self.procs@[q] == old(self).procs@[q]);
                }
            }
            assert(self.wf());
            assert forall|p: int|
                0 <= p < self.process_count() && old(self).alive(p) && p != pid
                    implies #[trigger] self.process(
                p,
            ) == old(self).process(p) by {
                assert(self.procs@[p] == old(self).procs@[p]);
            }
        }
        0
    }
}

/// The highest address that a program break can have: the first address
/// of the top page, where the trampoline lies.
pub const HEAP_LIMIT: u64 = 0x7F_FFFF_F000;

/// The page behind the last page that the addresses below `addr` touch.
pub open spec fn page_above(addr: int) -> u64 {
    ((addr + PAGE_SIZE - 1) / (PAGE_SIZE as int)) as u64
}

impl Kernel {
    /// Whether `sbrk` can move the program break of the process that runs
    /// by `size` bytes: the heap stays between its bottom and the top page,
    /// and where it grows, the pages that it grows into are not mapped.
    pub open spec fn can_sbrk(&self, size: i32) -> bool {
        let heap = self.process(self.running_pid()).heap;
        &&& self.has_running_process()
        &&& heap.brk <= HEAP_LIMIT
        &&& heap.bottom <= heap.brk + size <= HEAP_LIMIT
        &&& size > 0 ==> range_free(
            self.space_of(self.running_pid()),
            page_above(heap.brk as int),
            page_above(heap.brk + size),
        )
    }

    /// Moves the program break of the process that runs by `size` bytes.
    /// Where the heap grows, the pages that it grows into are mapped to new
    /// frames, for reading and writing; where it shrinks, the pages that it
    /// leaves are unmapped.  The answer is the break before the call, with
    /// the new frames in the order of the pages, for whoever clears them;
    /// or `FAILED`, with the heap and every mapping unchanged.  It is
    /// `FAILED` when the break cannot move so, and may be when fewer than
    /// three frames are free for each new page.
    pub fn sbrk(&mut self, size: i32) -> (r: (isize, Vec<u64>))
        requires
            old(self).wf(),
        ensures
            final(self).wf(),
            final(self).same_but_memory(old(self), old(self).running_pid()),
            r.0 != FAILED ==> {
                let pid = old(self).running_pid();
                let heap = old(self).process(pid).heap;
                &&& old(self).can_sbrk(size)
                &&& r.0 == heap.brk
                &&& final(self).process(pid).heap == (Heap {
                    bottom: heap.bottom,
                    brk: (heap.brk + size) as u64,
                })
                &&& final(self).space_of(pid) == if size > 0 {
                    mapped_frames(
                        old(self).space_of(pid),
                        page_above(heap.brk as int),
                        page_above(heap.brk + size),
                        r.1@,
                        stack_flags().or(owned_flag()),
                    )
                } else {
                    unmapped(
                        old(self).space_of(pid),
                        page_above(heap.brk + size),
                        page_above(heap.brk as int),
                    )
                }
                &&& r.1@.len() == if size > 0 {
                    page_above(heap.brk + size) - page_above(heap.brk as int)
                } else {
                    0
                }
                &&& r.1@.no_duplicates()
                &&& forall|i: int|
                    0 <= i < r.1@.len() ==> !old(self).allocated().contains(#[trigger] r.1@[i])
                        && final(self).allocated().contains(r.1@[i])
            },
            r.0 == FAILED ==> {
                &&& r.1@.len() == 0
                &&& old(self).has_running_process() ==> final(self).process(
                    old(self).running_pid(),
                ).heap == old(self).process(old(self).running_pid()).heap && final(self).space_of(
                    old(self).running_pid(),
                ) == old(self).space_of(old(self).running_pid())
                &&& old(self).can_sbrk(size) ==> size > 0 && old(self).free_frames() < 3 * (
                page_above(old(self).process(old(self).running_pid()).heap.brk + size)
                    - page_above(old(self).process(old(self).running_pid()).heap.brk as int))
            },
    {
        proof {
            self.processor.lemma_wf();
        }
        let pid = match self.current_pid() {
            Some(pid) => pid,
            None => {
                return (FAILED, Vec::new());
            },
        };
        let heap = match &self.procs[pid] {
            Some(process) => process.heap,
            None => {
                return (FAILED, Vec::new());
            },
        };
        if heap.brk > HEAP_LIMIT {
            return (FAILED, Vec::new());
        }
        let moved: i64 = heap.brk as i64 + size as i64;
        if moved < 0 || (moved as u64) < heap.bottom || moved as u64 > HEAP_LIMIT {
            return (FAILED, Vec::new());
        }
        let brk = moved as u64;
        let from = (heap.brk + (PAGE_SIZE - 1)) / PAGE_SIZE;
        let to = (brk + (PAGE_SIZE - 1)) / PAGE_SIZE;
        proof {
            assert(from == page_above(heap.brk as int));
            assert(to == page_above(heap.brk + size));
            assert(from <= TRAMPOLINE_VPN && to <= TRAMPOLINE_VPN);
            assert(old(self).procs@[pid as int]->0.wf_in(&old(self).frames, self.trampoline));
        }
        let mut flags = VmFlags::empty();
        flags.valid = true;
        flags.user = true;
        flags.readable = true;
        flags.writable = true;
        let ghost a0 = self.frames.allocated();
        let ghost o0 = self.procs@[pid as int]->0.address_space.owned_frames();
        let mapped = match &mut self.procs[pid] {
            Some(process) => if size > 0 {
                process.address_space.map_with_allocation(&mut self.frames, from, to, flags)
            } else {
                process.address_space.unmap(to, from);
                Ok(Vec::new())
            },
            None => Err(MapError::BadRange),
        };
        proof {
            let space = self.procs@[pid as int]->0.address_space;
            let old_space = old(self).procs@[pid as int]->0.address_space;
            assert(self.frames.allocated() == a0.union(space.owned_frames())
                || self.frames.allocated() == a0) by {
                if size <= 0 {
                    assert(self.frames.allocated() == a0);
                }
            }
            if size > 0 {
                lemma_taking_keeps_apart(
                    self.kernel_space.owned_frames(),
                    o0,
                    space.owned_frames(),
                    a0,
                    self.frames.allocated(),
                );
                if mapped is Ok {
                    lemma_trampoline_survives_map_frames(
                        old_space@,
                        self.trampoline,
                        from,
                        to,
                        mapped->Ok_0@,
                        flags.or(owned_flag()),
                    );
                }
            } else {
                lemma_trampoline_survives_unmap(old_space@, self.trampoline, to, from);
            }
            assert forall|p: int|
                0 <= p < self.procs@.len() && (#[trigger] self.procs@[p]) is Some implies {
                &&& self.procs@[p]->0.wf_in(&self.frames, self.trampoline)
                &&& self.procs@[p]->0.pid == p
                &&& self.procs@[p]->0.address_space.owned_frames().disjoint(
                    self.kernel_space.owned_frames(),
                )
            } by {
                if p != pid {
                    assert(self.procs@[p] == old(self).procs@[p]);
                }
                assert(old(self).procs@[p]->0.wf_in(&old(self).frames, self.trampoline));
            }
            assert forall|p: int, q: int|
                0 <= p < self.procs@.len() && 0 <= q < self.procs@.len() && p != q && (
                #[trigger] self.procs@[p]) is Some && (#[trigger] self.procs@[q]) is Some
                implies self.procs@[p]->0.address_space.owned_frames().disjoint(
                self.procs@[q]->0.address_space.owned_frames(),
            ) by {
                assert(old(self).procs@[p] is Some && old(self).procs@[q] is Some);
                if p == pid {
                    assert(old(self).procs@[q]->0.wf_in(&old(self).frames, self.trampoline));
                    if size > 0 {
                        lemma_taking_keeps_apart(
                            old(self).procs@[q]->0.address_space.owned_frames(),
                            o0,
                            space.owned_frames(),
                            a0,
                            self.frames.allocated(),
                        );
                    }
                    assert(self.procs@[q] == old(self).procs@[q]);
                } else if q == pid {
                    assert(old(self).procs@[p]->0.wf_in(&old(self).frames, self.trampoline));
                    if size > 0 {
                        lemma_taking_keeps_apart(
                            old(self).procs@[p]->0.address_space.owned_frames(),
                            o0,
                            space.owned_frames(),
                            a0,
                            self.frames.allocated(),
                        );
                    }
                    assert(self.procs@[p] == old(self).procs@[p]);
                } else {
                    assert(self.procs@[p] == old(self).procs@[p]);
                    assert(self.procs@[q] == old(self).procs@[q]);
                }
            }
            assert(self.wf());
            assert forall|p: int|
                0 <= p < self.process_count() && old(self).alive(p) && p != pid
                implies #[trigger] self.process(p) == old(self).process(p) by {
                assert(self.procs@[p] == old(self).procs@[p]);
            }
            assert(flags.or(owned_flag()) == stack_flags().or(owned_flag()));
        }
        let taken = match mapped {
            Ok(taken) => taken,
            Err(_) => {
                return (FAILED, Vec::new());
            },
        };
        let ghost middle = *self;
        match &mut self.procs[pid] {
            Some(process) => {
                process.heap = Heap { bottom: heap.bottom, brk };
            },
            None => {},
        }
        proof {
            assert forall|p: int|
                0 <= p < self.procs@.len() && (#[trigger] self.procs@[p]) is Some implies {
                &&& self.procs@[p]->0.wf_in(&self.frames, self.trampoline)
                &&& self.procs@[p]->0.pid == p
                &&& self.procs@[p]->0.address_space.owned_frames().disjoint(
                    self.kernel_space.owned_frames(),
                )
            } by {
                if p != pid {
                    assert(self.procs@[p] == middle.procs@[p]);
                }
                assert(middle.procs@[p]->0.wf_in(&middle.frames, middle.trampoline));
            }
            assert forall|p: int, q: int|
                0 <= p < self.procs@.len() && 0 <= q < self.procs@.len() && p != q && (
                #[trigger] self.procs@[p]) is Some && (#[trigger] self.procs@[q]) is Some
                implies self.procs@[p]->0.address_space.owned_frames().disjoint(
                self.procs@[q]->0.address_space.owned_frames(),
            ) by {
                assert(middle.procs@[p] is Some && middle.procs@[q] is Some);
                if p != pid {
                    assert(self.procs@[p] == middle.procs@[p]);
                }
                if q != pid {
                    assert(self.procs@[q] == middle.procs@[q]);
                }
            }
            assert(self.wf());
            assert forall|p: int|
                0 <= p < self.process_count() && old(self).alive(p) && p != pid
                implies #[trigger] self.process(p) == old(self).process(p) by {
                assert(self.procs@[p] == old(self).procs@[p]);
            }
        }
        (heap.brk as isize, taken)
    }
}

} // verus!
