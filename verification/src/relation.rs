//! What a process has to do with other processes and with its threads: its
//! parent, its children, its threads, and the exit codes of the children and
//! threads that have ended and wait to be collected.
//!
//! The record is `ProcThreadRel` of `tg_task_manage`.  This module gives it
//! a model and states what each of its operations does to it.

use tg_task_manage::{ProcId, ProcThreadRel, ThreadId};
use vstd::prelude::*;

verus! {

/// `tg_task_manage::ProcThreadRel`, carried as an opaque value.
#[verifier::external_type_specification]
#[verifier::external_body]
pub struct ExProcThreadRel(tg_task_manage::ProcThreadRel);

/// The parent that a `ProcThreadRel` names.
pub uninterp spec fn rel_parent(r: ProcThreadRel) -> usize;

/// The children that a `ProcThreadRel` lists, in the order in which they came.
pub uninterp spec fn rel_children(r: ProcThreadRel) -> Seq<usize>;

/// The children that have ended, each with its exit code, as a
/// `ProcThreadRel` lists them, in the order in which they ended.
pub uninterp spec fn rel_dead_children(r: ProcThreadRel) -> Seq<(usize, isize)>;

/// The threads that a `ProcThreadRel` lists, in the order in which they came.
pub uninterp spec fn rel_threads(r: ProcThreadRel) -> Seq<usize>;

/// The threads that have ended, each with its exit code, as a
/// `ProcThreadRel` lists them, in the order in which they ended.
pub uninterp spec fn rel_dead_threads(r: ProcThreadRel) -> Seq<(usize, isize)>;

/// The answer to a wait for a child or a thread that has not ended yet.
pub const STILL_RUNNING: isize = -2;

/// The place of the first entry of `s` that equals `x`, or the length of `s`
/// if there is none.
pub open spec fn first_of(s: Seq<usize>, x: usize) -> int
    decreases s.len(),
{
    if s.len() == 0 {
        0
    } else if s[0] == x {
        0
    } else {
        1 + first_of(s.drop_first(), x)
    }
}

/// The place of the first entry of `s` for the identity `x`, or the length of
/// `s` if there is none.
pub open spec fn first_with(s: Seq<(usize, isize)>, x: usize) -> int
    decreases s.len(),
{
    if s.len() == 0 {
        0
    } else if s[0].0 == x {
        0
    } else {
        1 + first_with(s.drop_first(), x)
    }
}

/// What a relation record holds.
pub struct RelState {
    pub parent: usize,
    pub children: Seq<usize>,
    pub dead_children: Seq<(usize, isize)>,
    pub threads: Seq<usize>,
    pub dead_threads: Seq<(usize, isize)>,
}

impl RelState {
    /// The record of a new process whose parent is `parent`.
    pub open spec fn new(parent: usize) -> RelState {
        RelState {
            parent,
            children: Seq::empty(),
            dead_children: Seq::empty(),
            threads: Seq::empty(),
            dead_threads: Seq::empty(),
        }
    }

    pub open spec fn add_child(self, child: usize) -> RelState {
        RelState { children: self.children.push(child), ..self }
    }

    /// The child `child` has ended with `code`: it moves from the children to
    /// the back of the ended ones.  For a process that is no child nothing changes.
    pub open spec fn del_child(self, child: usize, code: isize) -> RelState {
        let i = first_of(self.children, child);
        if i < self.children.len() {
            RelState {
                children: self.children.remove(i),
                dead_children: self.dead_children.push((child, code)),
                ..self
            }
        } else {
            self
        }
    }

    /// A wait for any child: the child that ended last is collected.
    /// Without an ended child the answer is the mark of a child that still
    /// runs, if there are children, and nothing if there are none.
    pub open spec fn wait_any_child(self) -> (RelState, Option<(usize, isize)>) {
        if self.dead_children.len() == 0 {
            if self.children.len() == 0 {
                (self, None)
            } else {
                (self, Some(((usize::MAX - 1) as usize, -1isize)))
            }
        } else {
            (
                RelState { dead_children: self.dead_children.drop_last(), ..self },
                Some(self.dead_children.last()),
            )
        }
    }

    /// A wait for the child `child`: if it has ended it is collected; if it
    /// still runs the answer is the mark of that; if it is no child, nothing.
    pub open spec fn wait_child(self, child: usize) -> (RelState, Option<(usize, isize)>) {
        let i = first_with(self.dead_children, child);
        if i < self.dead_children.len() {
            (
                RelState { dead_children: self.dead_children.remove(i), ..self },
                Some(self.dead_children[i]),
            )
        } else if first_of(self.children, child) < self.children.len() {
            (self, Some(((usize::MAX - 1) as usize, -1isize)))
        } else {
            (self, None)
        }
    }

    pub open spec fn add_thread(self, tid: usize) -> RelState {
        RelState { threads: self.threads.push(tid), ..self }
    }

    /// The thread `tid` has ended with `code`: it moves from the threads to
    /// the back of the ended ones.  For a thread that is not listed nothing changes.
    pub open spec fn del_thread(self, tid: usize, code: isize) -> RelState {
        let i = first_of(self.threads, tid);
        if i < self.threads.len() {
            RelState {
                threads: self.threads.remove(i),
                dead_threads: self.dead_threads.push((tid, code)),
                ..self
            }
        } else {
            self
        }
    }

    /// A wait for the thread `tid`: if it has ended its code is collected;
    /// if it still runs the answer is `STILL_RUNNING`; if it is not listed, nothing.
    pub open spec fn wait_thread(self, tid: usize) -> (RelState, Option<isize>) {
        let i = first_with(self.dead_threads, tid);
        if i < self.dead_threads.len() {
            (
                RelState { dead_threads: self.dead_threads.remove(i), ..self },
                Some(self.dead_threads[i].1),
            )
        } else if first_of(self.threads, tid) < self.threads.len() {
            (self, Some(STILL_RUNNING))
        } else {
            (self, None)
        }
    }
}

/// What the record `r` holds.
pub open spec fn rel_state(r: ProcThreadRel) -> RelState {
    RelState {
        parent: rel_parent(r),
        children: rel_children(r),
        dead_children: rel_dead_children(r),
        threads: rel_threads(r),
        dead_threads: rel_dead_threads(r),
    }
}

/// `ProcThreadRel::new`: a record with the given parent and four empty lists.
#[verifier::external_body]
pub(crate) fn rel_new(parent: usize) -> (r: ProcThreadRel)
    ensures
        rel_state(r) == RelState::new(parent),
        rel_dead_children(r) == Seq::<(usize, isize)>::empty(),
        rel_dead_threads(r) == Seq::<(usize, isize)>::empty(),
{
    ProcThreadRel::new(ProcId::from_usize(parent))
}

/// `ProcThreadRel::add_child`: the child goes to the back of the children.
#[verifier::external_body]
pub(crate) fn rel_add_child(r: &mut ProcThreadRel, child: usize)
    ensures
        rel_state(*final(r)) == rel_state(*old(r)).add_child(child),
{
    r.add_child(ProcId::from_usize(child))
}

/// `ProcThreadRel::del_child`: the first entry for the child leaves the
/// children and the child joins the ended ones with its code; nothing
/// happens for a process that is not among the children.
#[verifier::external_body]
pub(crate) fn rel_del_child(r: &mut ProcThreadRel, child: usize, exit_code: isize)
    ensures
        rel_state(*final(r)) == rel_state(*old(r)).del_child(child, exit_code),
{
    r.del_child(ProcId::from_usize(child), exit_code)
}

/// `ProcThreadRel::wait_any_child`: the last of the ended children is taken
/// off; without one the answer is `(-2, -1)` if there are children, and
/// `None` if there are none.
#[verifier::external_body]
pub(crate) fn rel_wait_any_child(r: &mut ProcThreadRel) -> (found: Option<(usize, isize)>)
    ensures
        (rel_state(*final(r)), found) == rel_state(*old(r)).wait_any_child(),
{
    r.wait_any_child().map(|(pid, code)| (pid.get_usize(), code))
}

/// `ProcThreadRel::wait_child`: the first ended entry for the child is taken
/// off; if the child has not ended the answer is `(-2, -1)`, and `None` if
/// it is no child at all.
#[verifier::external_body]
pub(crate) fn rel_wait_child(r: &mut ProcThreadRel, child: usize) -> (found: Option<(usize, isize)>)
    ensures
        (rel_state(*final(r)), found) == rel_state(*old(r)).wait_child(child),
{
    r.wait_child(ProcId::from_usize(child)).map(|(pid, code)| (pid.get_usize(), code))
}

/// `ProcThreadRel::add_thread`: the thread goes to the back of the threads.
#[verifier::external_body]
pub(crate) fn rel_add_thread(r: &mut ProcThreadRel, tid: usize)
    ensures
        rel_state(*final(r)) == rel_state(*old(r)).add_thread(tid),
{
    r.add_thread(ThreadId::from_usize(tid))
}

/// `ProcThreadRel::del_thread`: the first entry for the thread leaves the
/// threads and the thread joins the ended ones with its code; nothing
/// happens for a thread that is not listed.
#[verifier::external_body]
pub(crate) fn rel_del_thread(r: &mut ProcThreadRel, tid: usize, exit_code: isize)
    ensures
        rel_state(*final(r)) == rel_state(*old(r)).del_thread(tid, exit_code),
{
    r.del_thread(ThreadId::from_usize(tid), exit_code)
}

/// `ProcThreadRel::wait_thread`: the first ended entry for the thread is
/// taken off and its code handed back; if the thread has not ended the
/// answer is -2, and `None` if it is not listed at all.
#[verifier::external_body]
pub(crate) fn rel_wait_thread(r: &mut ProcThreadRel, tid: usize) -> (found: Option<isize>)
    ensures
        (rel_state(*final(r)), found) == rel_state(*old(r)).wait_thread(tid),
{
    r.wait_thread(ThreadId::from_usize(tid))
}

/// The field `threads` of a `ProcThreadRel`: how many threads are listed.
#[verifier::external_body]
pub(crate) fn rel_thread_count(r: &ProcThreadRel) -> (n: usize)
    ensures
        n == rel_threads(*r).len(),
{
    r.threads.len()
}

/// The field `children` of a `ProcThreadRel`, as plain identities.
#[verifier::external_body]
pub(crate) fn rel_child_list(r: &ProcThreadRel) -> (children: Vec<usize>)
    ensures
        children@ == rel_children(*r),
{
    r.children.iter().map(|c| c.get_usize()).collect()
}

/// The field `parent` of a `ProcThreadRel`.
#[verifier::external_body]
pub(crate) fn rel_get_parent(r: &ProcThreadRel) -> (parent: usize)
    ensures
        parent == rel_parent(*r),
{
    r.parent.get_usize()
}

/// Writes the field `parent` of a `ProcThreadRel`; the lists stay.
#[verifier::external_body]
pub(crate) fn rel_set_parent(r: &mut ProcThreadRel, parent: usize)
    ensures
        rel_state(*final(r)) == (RelState { parent, ..rel_state(*old(r)) }),
{
    r.parent = ProcId::from_usize(parent);
}

} // verus!
