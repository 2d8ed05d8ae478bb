//! The trap dispatcher: what becomes of a thread after it has come back to
//! the kernel.
//!
//! The loop around it picks the next ready thread, resumes it, and hands
//! the cause of its return to the dispatcher, which serves a timer or a
//! device by leaving the thread ready, finishes a system call, and ends a
//! thread that faults.  The kernel itself goes on whatever a thread does.

use crate::context::{register_from, register_of, Context, ContextState};
use crate::kernel::Kernel;
use crate::processor::ThreadState;
use crate::syscall::{classify, kind_of, SyscallKind, SyscallResult};
use crate::trap::TrapClass;
use std::collections::VecDeque;
use vstd::prelude::*;

verus! {

/// The exit code of a thread that asked for a call that is not served.
pub const EXIT_UNSUPPORTED: isize = -2;

/// The exit code of a thread that faulted.
pub const EXIT_FAULT: isize = -3;

/// What the handling of signals came to for the process of the caller.
#[derive(Clone, Copy, PartialEq, Eq, Structural, Debug)]
pub enum SignalResult {
    NoSignal,
    IsHandlingSignal,
    Ignored,
    Handled,
    /// The process is to end, with this code.
    ProcessKilled(i32),
    ProcessSuspended,
}

/// What becomes of a program that runs alone, one process after the other.
#[derive(Clone, Copy, PartialEq, Eq, Structural, Debug)]
pub enum Fate {
    /// The process runs on at once.
    Continue,
    /// The process goes to the back of the list and the next one runs.
    Requeue,
    /// The process is done and leaves the list.
    Remove,
}

/// What a trap makes of the process at the head of the list, and its
/// registers afterwards.  A timer or a device leaves its registers alone
/// and sends it to the back of the list, so that the processes run in
/// turns.  A served call gets its answer and is stepped over; the process
/// runs on at once, but for a call that gives the processor up, after which
/// it goes to the back, and a call to exit, which ends it.  A call that is
/// not served and a fault end it too.
pub open spec fn scheduled(c: ContextState, class: TrapClass, result: SyscallResult) -> (
    Fate,
    ContextState,
) {
    match class {
        TrapClass::Timer => (Fate::Requeue, c),
        TrapClass::Device => (Fate::Requeue, c),
        TrapClass::Syscall => match result {
            SyscallResult::Done(ret) => if kind_of(c.a(7)) == SyscallKind::Exit {
                (Fate::Remove, c)
            } else if kind_of(c.a(7)) == SyscallKind::Yield {
                (Fate::Requeue, c.set_a(0, register_of(ret)).move_next())
            } else {
                (Fate::Continue, c.set_a(0, register_of(ret)).move_next())
            },
            SyscallResult::Unsupported(_) => (Fate::Remove, c),
        },
        TrapClass::Fault => (Fate::Remove, c),
    }
}

/// Decides what becomes of the process at the head of the list after a
/// trap.  `result` is what the handlers made of the system call, for a trap
/// that is one.
pub fn schedule(ctx: &mut Context, class: TrapClass, result: SyscallResult) -> (fate: Fate)
    ensures
        (fate, final(ctx)@) == scheduled(old(ctx)@, class, result),
{
    match class {
        TrapClass::Timer => Fate::Requeue,
        TrapClass::Device => Fate::Requeue,
        TrapClass::Syscall => match result {
            SyscallResult::Done(ret) => match classify(ctx.a(7)) {
                SyscallKind::Exit => Fate::Remove,
                SyscallKind::Yield => {
                    ctx.set_a(0, register_from(ret));
                    ctx.move_next();
                    Fate::Requeue
                },
                _ => {
                    ctx.set_a(0, register_from(ret));
                    ctx.move_next();
                    Fate::Continue
                },
            },
            SyscallResult::Unsupported(_) => Fate::Remove,
        },
        TrapClass::Fault => Fate::Remove,
    }
}

/// The list after its head has gone to the back.
pub open spec fn requeued<T>(list: Seq<T>) -> Seq<T> {
    if list.len() == 0 {
        list
    } else {
        list.drop_first().push(list[0])
    }
}

/// The list of processes after the fate of its head is settled.
pub open spec fn settled<T>(list: Seq<T>, fate: Fate) -> Seq<T> {
    match fate {
        Fate::Continue => list,
        Fate::Requeue => requeued(list),
        Fate::Remove => if list.len() == 0 {
            list
        } else {
            list.drop_first()
        },
    }
}

/// Settles the fate of the process at the head of the list: it stays
/// where it is, goes to the back, or leaves.
pub fn settle<T>(list: &mut VecDeque<T>, fate: Fate)
    ensures
        final(list)@ == settled(old(list)@, fate),
{
    match fate {
        Fate::Continue => {},
        Fate::Requeue => {
            match list.pop_front() {
                Some(head) => {
                    list.push_back(head);
                },
                None => {},
            }
        },
        Fate::Remove => {
            let _ = list.pop_front();
        },
    }
    proof {
        assert(list@ =~= settled(old(list)@, fate));
    }
}

/// The list after its head has gone to the back `k` times.
pub open spec fn requeued_times<T>(list: Seq<T>, k: nat) -> Seq<T>
    decreases k,
{
    if k == 0 {
        list
    } else {
        requeued(requeued_times(list, (k - 1) as nat))
    }
}

/// Processes that are sent to the back of the list by the timer run in
/// turns, in the order of the list: after `k` of them have had their turn,
/// the one at place `k` is at the head, and those that have run stand
/// behind the others in the order in which they ran.
pub proof fn lemma_round_robin<T>(list: Seq<T>, k: nat)
    requires
        k <= list.len(),
    ensures
        requeued_times(list, k) == list.subrange(k as int, list.len() as int) + list.subrange(
            0,
            k as int,
        ),
        k < list.len() ==> requeued_times(list, k)[0] == list[k as int],
    decreases k,
{
    if k == 0 {
        assert(list =~= list.subrange(0, list.len() as int) + list.subrange(0, 0));
    } else {
        lemma_round_robin(list, (k - 1) as nat);
        let before = requeued_times(list, (k - 1) as nat);
        assert(before.len() == list.len());
        assert(before[0] == list[k - 1]);
        assert(requeued(before) =~= list.subrange(k as int, list.len() as int) + list.subrange(
            0,
            k as int,
        ));
    }
}

/// The time at which the timer is to fire next, one time slice after `now`.
/// `None` if that time cannot be told.
pub fn next_timer(now: u64, slice: u64) -> (at: Option<u64>)
    ensures
        at == if now + slice <= u64::MAX {
            Some((now + slice) as u64)
        } else {
            None
        },
{
    now.checked_add(slice)
}

impl Kernel {
    /// What a served system call with the answer `ret` makes of its caller
    /// `tid`: the answer is in its `a0`, and if it still runs it goes to the
    /// back of the ready queue.  A caller that the call has blocked stays blocked.
    pub open spec fn after_return(&self, old: &Kernel, tid: usize, ret: isize) -> bool {
        &&& self.sched() == if old.sched().current == Some(tid) {
            old.sched().suspend()
        } else {
            old.sched()
        }
        &&& self.same_but_contexts(old)
        &&& self.context_of(tid as int) == old.context_of(tid as int).set_a(0, register_of(ret))
        &&& forall|t: int|
            0 <= t < old.sched().states.len() && t != tid ==> #[trigger] self.context_of(t)
                == old.context_of(t)
        &&& forall|t: int|
            0 <= t < old.sched().states.len() ==> #[trigger] self.satp_of(t) == old.satp_of(t)
    }

    /// Whether memory, processes and relations are as in `old`.
    pub open spec fn same_but_contexts(&self, old: &Kernel) -> bool {
        &&& self.process_count() == old.process_count()
        &&& self.trampoline() == old.trampoline()
        &&& self.kernel_map() == old.kernel_map()
        &&& self.allocated() == old.allocated()
        &&& forall|p: int|
            0 <= p < self.process_count() ==> #[trigger] self.alive(p) == old.alive(p)
        &&& forall|p: int|
            0 <= p < self.process_count() ==> #[trigger] self.relation(p) == old.relation(p)
        &&& forall|p: int|
            0 <= p < self.process_count() && self.alive(p) ==> #[trigger] self.process(p)
                == old.process(p)
    }

    /// What the end of a system call makes of the kernel.  A signal that
    /// kills ends the caller with the signal's code.  Else a call to exit
    /// ends it with the answer of the call, a call that is not served ends
    /// it with `EXIT_UNSUPPORTED`, and every other call returns its answer.
    pub open spec fn after_syscall(
        &self,
        old: &Kernel,
        tid: usize,
        id: usize,
        result: SyscallResult,
        signal: SignalResult,
    ) -> bool {
        match signal {
            SignalResult::ProcessKilled(code) => self.after_exit(old, tid, code as isize),
            _ => match result {
                SyscallResult::Done(ret) => if kind_of(id) == SyscallKind::Exit {
                    self.after_exit(old, tid, ret)
                } else {
                    self.after_return(old, tid, ret)
                },
                SyscallResult::Unsupported(_) => self.after_exit(old, tid, EXIT_UNSUPPORTED),
            },
        }
    }

    /// Picks the thread that runs next and makes it the running thread.
    /// `None` exactly when no thread runs and none is ready: then, if
    /// threads are left, they all wait for one another.
    pub fn find_next(&mut self) -> (r: Option<usize>)
        requires
            old(self).wf(),
        ensures
            final(self).wf(),
            final(self).sched() == old(self).sched().find_next(),
            r == final(self).sched().current,
            final(self).same_but_contexts(old(self)),
            forall|t: int|
                0 <= t < old(self).sched().states.len() ==> #[trigger] final(self).context_of(t)
                    == old(self).context_of(t) && final(self).satp_of(t) == old(self).satp_of(t),
    {
        let ghost before = *self;
        let r = self.step_find_next();
        proof {
            self.lemma_scheduler_step(&before);
        }
        r
    }

    /// Takes the registers with which thread `tid` came back from user mode.
    pub fn set_context(&mut self, tid: usize, context: Context)
        requires
            old(self).wf(),
        ensures
            final(self).wf(),
            final(self).sched() == old(self).sched(),
            final(self).same_but_contexts(old(self)),
            tid < old(self).sched().states.len() ==> final(self).context_of(tid as int)
                == context@,
            forall|t: int|
                0 <= t < old(self).sched().states.len() && t != tid
                    ==> #[trigger] final(self).context_of(t) == old(self).context_of(t),
            forall|t: int|
                0 <= t < old(self).sched().states.len() ==> #[trigger] final(self).satp_of(t)
                    == old(self).satp_of(t),
    {
        let ghost before = *self;
        self.step_set_context(tid, context);
        proof {
            self.lemma_scheduler_step(&before);
        }
    }

    /// Starts the handling of the system call that the running thread has
    /// made: moves its program counter past the call and hands back the
    /// thread, the number of the call and its six arguments.  `None`, with
    /// nothing changed, if no thread runs.
    pub fn begin_syscall(&mut self) -> (r: Option<(usize, usize, [usize; 6])>)
        requires
            old(self).wf(),
        ensures
            final(self).wf(),
            final(self).sched() == old(self).sched(),
            final(self).same_but_contexts(old(self)),
            r is Some <==> old(self).sched().current is Some,
            r is None ==> final(self).same(old(self)),
            r matches Some((tid, id, args)) ==> {
                &&& Some(tid) == old(self).sched().current
                &&& id == old(self).context_of(tid as int).a(7)
                &&& forall|i: int| 0 <= i < 6 ==> args[i] == old(self).context_of(tid as int).a(i)
                &&& final(self).context_of(tid as int) == old(self).context_of(
                    tid as int,
                ).move_next()
                &&& forall|t: int|
                    0 <= t < old(self).sched().states.len() && t != tid
                        ==> #[trigger] final(self).context_of(t) == old(self).context_of(t)
                &&& forall|t: int|
                    0 <= t < old(self).sched().states.len() ==> #[trigger] final(self).satp_of(t)
                        == old(self).satp_of(t)
            },
    {
        let ghost before = *self;
        let r = self.step_begin_syscall();
        proof {
            self.lemma_scheduler_step(&before);
        }
        r
    }

    /// Ends the handling of the system call with the number `id` that
    /// thread `tid` has made.  `result` is what the handlers made of the
    /// call and `signal` what the handling of signals came to.  Nothing
    /// changes if there is no thread `tid`.
    pub fn finish_syscall(
        &mut self,
        tid: usize,
        id: usize,
        result: SyscallResult,
        signal: SignalResult,
    )
        requires
            old(self).wf(),
        ensures
            final(self).wf(),
            if tid < old(self).sched().states.len() {
                final(self).after_syscall(old(self), tid, id, result, signal)
            } else {
                final(self).same(old(self))
            },
    {
        proof {
            self.lemma_sched();
        }
        if tid >= self.thread_count() {
            return ;
        }
        if let SignalResult::ProcessKilled(code) = signal {
            self.exit_thread(tid, code as isize);
            return ;
        }
        match result {
            SyscallResult::Done(ret) => match classify(id) {
                SyscallKind::Exit => {
                    self.exit_thread(tid, ret);
                },
                _ => {
                    let ghost before = *self;
                    self.step_return(tid, ret);
                    proof {
                        self.lemma_scheduler_step(&before);
                    }
                },
            },
            SyscallResult::Unsupported(_) => {
                self.exit_thread(tid, EXIT_UNSUPPORTED);
            },
        }
    }

    /// Ends the thread that runs because it has faulted: an illegal
    /// instruction, an access that is not allowed, or a trap that the kernel
    /// does not expect.  The other threads are not touched.
    pub fn kill_faulting(&mut self)
        requires
            old(self).wf(),
        ensures
            final(self).wf(),
            match old(self).sched().current {
                Some(tid) => final(self).after_exit(old(self), tid, EXIT_FAULT),
                None => final(self).same(old(self)),
            },
    {
        self.exit_current(EXIT_FAULT);
    }

    /// The running thread has been interrupted by the timer or by a device:
    /// it goes to the back of the ready queue.
    pub fn preempt(&mut self)
        requires
            old(self).wf(),
        ensures
            final(self).wf(),
            final(self).sched() == old(self).sched().suspend(),
            final(self).same_but_contexts(old(self)),
            forall|t: int|
                0 <= t < old(self).sched().states.len() ==> #[trigger] final(self).context_of(t)
                    == old(self).context_of(t) && final(self).satp_of(t) == old(self).satp_of(t),
    {
        let ghost before = *self;
        self.step_suspend();
        proof {
            self.lemma_scheduler_step(&before);
        }
    }

    /// The number of threads that have ever joined.
    pub fn thread_count(&self) -> (n: usize)
        ensures
            n == self.sched().states.len(),
    {
        self.processor().thread_count()
    }

    /// Whether threads are left that neither run nor are ready nor have
    /// ended: with no thread to run, they wait for one another for ever.
    pub fn is_deadlocked(&self) -> (stuck: bool)
        requires
            self.wf(),
        ensures
            stuck == (self.sched().current is None && self.sched().ready.len() == 0 && exists|
                t: int,
            |
                0 <= t < self.sched().states.len() && (#[trigger] self.sched().states[t])
                    is Blocked),
    {
        let p = self.processor();
        if p.current().is_some() || p.ready_count() > 0 {
            return false;
        }
        let n = p.thread_count();
        let mut t: usize = 0;
        while t < n
            invariant
                t <= n,
                n == p@.states.len(),
                p@ == self.sched(),
                self.sched().current is None,
                self.sched().ready.len() == 0,
                forall|u: int| 0 <= u < t ==> !((#[trigger] p@.states[u]) is Blocked),
            decreases n - t,
        {
            match p.state(t) {
                Some(ThreadState::Blocked(_)) => {
                    assert(self.sched().states[t as int] is Blocked);
                    return true;
                },
                _ => {},
            }
            t = t + 1;
        }
        false
    }
}

} // verus!
