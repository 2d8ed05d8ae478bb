//! Processes: the resources that the threads of one program share.
//!
//! A process holds its address space, its table of open handles, and for
//! each kind of synchronisation object a list of slots.  A slot is empty or
//! names an object in the scheduler's table; the place of the slot is the
//! identity by which the program knows the object.

use crate::frame::FrameAllocator;
use crate::space::{has_trampoline, AddressSpace};
use vstd::prelude::*;

verus! {

/// What an open handle stands for.
#[derive(Clone, Copy, PartialEq, Eq, Structural, Debug)]
pub enum Fd {
    /// The console, for reading or for writing.
    Console { readable: bool, writable: bool },
    /// A file of the file system, by the number under which the file system
    /// knows it, with the access that it was opened for.
    File { handle: usize, readable: bool, writable: bool },
    /// The reading end of a pipe, by the pipe's number.
    PipeRead(usize),
    /// The writing end of a pipe, by the pipe's number.
    PipeWrite(usize),
    /// The frame buffer of the display.
    VirtioGpu,
    /// The state of the keys of the input device.
    VirtioInput,
}

impl Fd {
    pub open spec fn can_read(self) -> bool {
        match self {
            Fd::Console { readable, .. } => readable,
            Fd::File { readable, .. } => readable,
            Fd::PipeRead(_) => true,
            Fd::PipeWrite(_) => false,
            Fd::VirtioGpu => false,
            Fd::VirtioInput => true,
        }
    }

    pub open spec fn can_write(self) -> bool {
        match self {
            Fd::Console { writable, .. } => writable,
            Fd::File { writable, .. } => writable,
            Fd::PipeRead(_) => false,
            Fd::PipeWrite(_) => true,
            Fd::VirtioGpu => true,
            Fd::VirtioInput => false,
        }
    }

    /// Whether the handle can be read from.
    pub fn readable(&self) -> (b: bool)
        ensures
            b == self.can_read(),
    {
        match self {
            Fd::Console { readable, .. } => *readable,
            Fd::File { readable, .. } => *readable,
            Fd::PipeRead(_) => true,
            Fd::PipeWrite(_) => false,
            Fd::VirtioGpu => false,
            Fd::VirtioInput => true,
        }
    }

    /// Whether the handle can be written to.
    pub fn writable(&self) -> (b: bool)
        ensures
            b == self.can_write(),
    {
        match self {
            Fd::Console { writable, .. } => *writable,
            Fd::File { writable, .. } => *writable,
            Fd::PipeRead(_) => false,
            Fd::PipeWrite(_) => true,
            Fd::VirtioGpu => true,
            Fd::VirtioInput => false,
        }
    }
}

/// The place of the first empty slot of `slots`, or their number if none is empty.
pub open spec fn first_free<T>(slots: Seq<Option<T>>) -> int
    decreases slots.len(),
{
    if slots.len() == 0 {
        0
    } else if slots[0] is None {
        0
    } else {
        1 + first_free(slots.drop_first())
    }
}

/// The first free place lies in the list or right behind it; the slot there
/// is empty and all before it are taken.
pub proof fn lemma_first_free<T>(slots: Seq<Option<T>>)
    ensures
        0 <= first_free(slots) <= slots.len(),
        first_free(slots) < slots.len() ==> slots[first_free(slots)] is None,
        forall|i: int| 0 <= i < first_free(slots) ==> (#[trigger] slots[i]) is Some,
    decreases slots.len(),
{
    if slots.len() > 0 && slots[0] is Some {
        lemma_first_free(slots.drop_first());
        assert forall|i: int| 0 <= i < first_free(slots) implies (#[trigger] slots[i]) is Some by {
            if i > 0 {
                assert(slots.drop_first()[i - 1] is Some);
            }
        }
    }
}

/// The slots `slots` after `value` has been put into the first free place.
pub open spec fn slotted<T>(slots: Seq<Option<T>>, value: Option<T>) -> Seq<Option<T>> {
    if first_free(slots) < slots.len() {
        slots.update(first_free(slots), value)
    } else {
        slots.push(value)
    }
}

/// Puts `value` into the first empty slot, or into a new slot at the end if
/// none is empty, and hands the place back.
pub fn put_in_slot<T>(slots: &mut Vec<Option<T>>, value: Option<T>) -> (id: usize)
    ensures
        id == first_free(old(slots)@),
        final(slots)@ == slotted(old(slots)@, value),
{
    let n = slots.len();
    let mut i: usize = 0;
    proof {
        lemma_first_free(slots@);
        assert(slots@.subrange(0, n as int) =~= slots@);
    }
    while i < n
        invariant
            i <= n,
            n == slots@.len(),
            slots@ == old(slots)@,
            first_free(slots@) == i + first_free(slots@.subrange(i as int, n as int)),
        decreases n - i,
    {
        if slots[i].is_none() {
            slots[i] = value;
            return i;
        }
        proof {
            let tail = slots@.subrange(i as int, n as int);
            assert(tail.drop_first() =~= slots@.subrange(i + 1, n as int));
        }
        i = i + 1;
    }
    slots.push(value);
    n
}

/// The value in slot `id`, if there is such a slot and it is taken.
pub fn slot<T: Copy>(slots: &Vec<Option<T>>, id: usize) -> (r: Option<T>)
    ensures
        r == if id < slots@.len() {
            slots@[id as int]
        } else {
            None
        },
{
    if id < slots.len() {
        slots[id]
    } else {
        None
    }
}

/// The handles that every process starts with: the console's input, its
/// output, and its debug output, under the numbers 0, 1 and 2.
pub open spec fn console_handles() -> Seq<Option<Fd>> {
    seq![
        Some(Fd::Console { readable: true, writable: false }),
        Some(Fd::Console { readable: false, writable: true }),
        Some(Fd::Console { readable: false, writable: true }),
    ]
}

/// The heap of a process: the address at which it begins, right behind the
/// program, and the program break, the address at which it ends.
#[derive(Clone, Copy, PartialEq, Eq, Structural, Debug)]
pub struct Heap {
    pub bottom: u64,
    pub brk: u64,
}

/// The resources of one process.
pub struct Process {
    pub pid: usize,
    pub address_space: AddressSpace,
    pub fd_table: Vec<Option<Fd>>,
    pub mutex_list: Vec<Option<usize>>,
    pub semaphore_list: Vec<Option<usize>>,
    pub condvar_list: Vec<Option<usize>>,
    pub heap: Heap,
}

impl Process {
    /// Whether the process is in order: its address space is, lies within
    /// the frames that `frames` has handed out, and holds the trampoline of
    /// frame `trampoline` at the top page.
    pub open spec fn wf_in(&self, frames: &FrameAllocator, trampoline: u64) -> bool {
        &&& self.address_space.wf()
        &&& self.address_space.within(frames)
        &&& has_trampoline(self.address_space@, trampoline)
    }

    /// A process with the address space `address_space`, the handles of the
    /// console, no synchronisation object, and an empty heap at the
    /// address `heap_bottom`.
    pub fn new(pid: usize, address_space: AddressSpace, heap_bottom: u64) -> (p: Self)
        ensures
            p.pid == pid,
            p.address_space == address_space,
            p.heap == (Heap { bottom: heap_bottom, brk: heap_bottom }),
            p.fd_table@ == console_handles(),
            p.mutex_list@ == Seq::<Option<usize>>::empty(),
            p.semaphore_list@ == Seq::<Option<usize>>::empty(),
            p.condvar_list@ == Seq::<Option<usize>>::empty(),
    {
        let mut fd_table: Vec<Option<Fd>> = Vec::new();
        fd_table.push(Some(Fd::Console { readable: true, writable: false }));
        fd_table.push(Some(Fd::Console { readable: false, writable: true }));
        fd_table.push(Some(Fd::Console { readable: false, writable: true }));
        proof {
            assert(fd_table@ =~= console_handles());
        }
        Process {
            pid,
            address_space,
            fd_table,
            mutex_list: Vec::new(),
            semaphore_list: Vec::new(),
            condvar_list: Vec::new(),
            heap: Heap { bottom: heap_bottom, brk: heap_bottom },
        }
    }

    /// Opens a handle for `fd` at the end of the table and hands its number back.
    pub fn open(&mut self, fd: Fd) -> (id: usize)
        ensures
            id == old(self).fd_table@.len(),
            final(self).fd_table@ == old(self).fd_table@.push(Some(fd)),
            final(self).pid == old(self).pid,
            final(self).address_space == old(self).address_space,
            final(self).mutex_list == old(self).mutex_list,
            final(self).semaphore_list == old(self).semaphore_list,
            final(self).condvar_list == old(self).condvar_list,
            final(self).heap == old(self).heap,
    {
        let id = self.fd_table.len();
        self.fd_table.push(Some(fd));
        id
    }

    /// Closes the handle `id`.  `false`, with nothing changed, if it is not open.
    pub fn close(&mut self, id: usize) -> (closed: bool)
        ensures
            closed == (id < old(self).fd_table@.len() && old(self).fd_table@[id as int] is Some),
            !closed ==> *final(self) == *old(self),
            final(self).fd_table@ == if closed {
                old(self).fd_table@.update(id as int, None)
            } else {
                old(self).fd_table@
            },
            final(self).pid == old(self).pid,
            final(self).address_space == old(self).address_space,
            final(self).mutex_list == old(self).mutex_list,
            final(self).semaphore_list == old(self).semaphore_list,
            final(self).condvar_list == old(self).condvar_list,
            final(self).heap == old(self).heap,
    {
        if id >= self.fd_table.len() || self.fd_table[id].is_none() {
            return false;
        }
        self.fd_table[id] = None;
        true
    }

    /// What the handle `id` stands for, if it is open.
    pub fn fd(&self, id: usize) -> (r: Option<Fd>)
        ensures
            r == if id < self.fd_table@.len() {
                self.fd_table@[id as int]
            } else {
                None
            },
    {
        slot(&self.fd_table, id)
    }
}

} // verus!
