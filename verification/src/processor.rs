//! The scheduler: the table of threads, the queue of the ready ones, the one
//! that runs, and the synchronisation objects on which the others wait.
//!
//! Only one thread runs at a time and the scheduler is touched only between
//! one thread's trap and the next thread's resumption, so every operation
//! here is one step from a consistent state to a consistent state.  A thread
//! that cannot take a mutex or a semaphore, or that waits on a condition
//! variable, is put on the object's queue and marked blocked in the same
//! step: it is in no other queue, and it becomes ready again only when the
//! object hands it back.

use crate::context::{Context, ContextState};
use crate::sync::{
    lemma_without, remove_from_queue, without, Condvar, CondvarState, MutexBlocking, MutexState,
    Semaphore, SemaphoreState,
};
use std::collections::VecDeque;
use vstd::prelude::*;

verus! {

/// The object on whose queue a blocked thread sits, by its place in the
/// scheduler's table of such objects.
#[derive(Clone, Copy, PartialEq, Eq, Structural, Debug)]
pub enum WaitTarget {
    Mutex(usize),
    Semaphore(usize),
    Condvar(usize),
}

#[derive(Clone, Copy, PartialEq, Eq, Structural, Debug)]
pub enum ThreadState {
    /// In the ready queue.
    Ready,
    /// The one thread that runs.
    Running,
    /// On the queue of a synchronisation object.
    Blocked(WaitTarget),
    /// Exited, with its exit code.
    Zombie(isize),
}

/// One thread: its identity, the process it belongs to, its saved registers
/// and the selector of the address space it runs in.
pub struct Thread {
    tid: usize,
    pid: usize,
    satp: u64,
    context: Context,
    state: ThreadState,
}

/// What the scheduler holds, as far as scheduling goes.
pub struct SchedState {
    /// The state of each thread, by thread identity.
    pub states: Seq<ThreadState>,
    /// The process of each thread, by thread identity.
    pub pids: Seq<usize>,
    /// The ready queue, the thread that runs next first.
    pub ready: Seq<usize>,
    /// The thread that runs.
    pub current: Option<usize>,
    pub mutexes: Seq<MutexState>,
    pub semaphores: Seq<SemaphoreState>,
    pub condvars: Seq<CondvarState>,
    /// For each process that has ever said so, whether deadlocks are looked
    /// for when one of its threads asks for a mutex.
    pub detecting: Seq<bool>,
}

/// The flags `flags`, with flags that are off added up to the length `len`.
pub open spec fn padded(flags: Seq<bool>, len: int) -> Seq<bool> {
    if flags.len() >= len {
        flags
    } else {
        flags + Seq::new((len - flags.len()) as nat, |i: int| false)
    }
}

impl SchedState {
    /// The queue of the object `target`, if there is such an object.
    pub open spec fn queue_of(self, target: WaitTarget) -> Option<Seq<usize>> {
        match target {
            WaitTarget::Mutex(m) => if m < self.mutexes.len() {
                Some(self.mutexes[m as int].waiters)
            } else {
                None
            },
            WaitTarget::Semaphore(s) => if s < self.semaphores.len() {
                Some(self.semaphores[s as int].waiters)
            } else {
                None
            },
            WaitTarget::Condvar(c) => if c < self.condvars.len() {
                Some(self.condvars[c as int].waiters)
            } else {
                None
            },
        }
    }

    /// Whether `queue` can be the queue of `target`: it holds no thread
    /// twice, and each thread in it is one that is blocked on `target`.
    pub open spec fn queue_ok(self, queue: Seq<usize>, target: WaitTarget) -> bool {
        &&& queue.no_duplicates()
        &&& forall|i: int|
            0 <= i < queue.len() ==> (#[trigger] queue[i]) < self.states.len()
                && self.states[queue[i] as int] == ThreadState::Blocked(target)
    }

    pub open spec fn wf(self) -> bool {
        &&& self.pids.len() == self.states.len()
        &&& self.states.len() <= usize::MAX
        &&& self.mutexes.len() <= usize::MAX
        &&& self.semaphores.len() <= usize::MAX
        &&& self.condvars.len() <= usize::MAX
        &&& self.current is Some ==> self.current->0 < self.states.len()
            && self.states[self.current->0 as int] == ThreadState::Running
        &&& forall|t: int|
            0 <= t < self.states.len() && #[trigger] self.states[t] == ThreadState::Running
                ==> self.current == Some(t as usize)
        &&& self.ready.no_duplicates()
        &&& forall|i: int|
            0 <= i < self.ready.len() ==> (#[trigger] self.ready[i]) < self.states.len()
                && self.states[self.ready[i] as int] == ThreadState::Ready
        &&& forall|t: int|
            0 <= t < self.states.len() && #[trigger] self.states[t] == ThreadState::Ready
                ==> self.ready.contains(t as usize)
        &&& forall|m: int|
            0 <= m < self.mutexes.len() ==> (#[trigger] self.mutexes[m]).wf() && self.queue_ok(
                self.mutexes[m].waiters,
                WaitTarget::Mutex(m as usize),
            )
        &&& forall|s: int|
            0 <= s < self.semaphores.len() ==> (#[trigger] self.semaphores[s]).wf()
                && self.queue_ok(self.semaphores[s].waiters, WaitTarget::Semaphore(s as usize))
        &&& forall|c: int|
            0 <= c < self.condvars.len() ==> self.queue_ok(
                (#[trigger] self.condvars[c]).waiters,
                WaitTarget::Condvar(c as usize),
            )
        &&& forall|t: int|
            0 <= t < self.states.len() ==> self.parked(#[trigger] self.states[t], t as usize)
    }

    /// Whether thread `t`, whose state is `state`, sits where that state says:
    /// a blocked thread on the queue of the object it is blocked on.
    pub open spec fn parked(self, state: ThreadState, t: usize) -> bool {
        match state {
            ThreadState::Blocked(target) => self.queue_of(target) is Some && self.queue_of(
                target,
            )->0.contains(t),
            _ => true,
        }
    }

    pub open spec fn empty() -> SchedState {
        SchedState {
            states: Seq::empty(),
            pids: Seq::empty(),
            ready: Seq::empty(),
            current: None,
            mutexes: Seq::empty(),
            semaphores: Seq::empty(),
            condvars: Seq::empty(),
            detecting: Seq::empty(),
        }
    }

    /// Whether deadlocks are looked for on behalf of process `pid`.
    pub open spec fn detects(self, pid: int) -> bool {
        0 <= pid < self.detecting.len() && self.detecting[pid]
    }

    /// The state after process `pid` has switched the search for deadlocks
    /// on or off.
    pub open spec fn set_detecting(self, pid: usize, on: bool) -> SchedState {
        SchedState { detecting: padded(self.detecting, pid + 1).update(pid as int, on), ..self }
    }

    /// The thread for which thread `t` waits: the holder of the mutex that
    /// `t` is blocked on.
    pub open spec fn waits_for(self, t: usize) -> Option<usize> {
        if t < self.states.len() && self.states[t as int] is Blocked
            && self.states[t as int]->Blocked_0 is Mutex
            && self.states[t as int]->Blocked_0->Mutex_0 < self.mutexes.len() {
            self.mutexes[self.states[t as int]->Blocked_0->Mutex_0 as int].holder
        } else {
            None
        }
    }

    /// Whether the chain of waiting that begins with thread `from` comes to
    /// thread `target` within `steps` steps.
    pub open spec fn reaches(self, from: usize, target: usize, steps: nat) -> bool
        decreases steps,
    {
        if from == target {
            true
        } else if steps == 0 {
            false
        } else {
            match self.waits_for(from) {
                Some(next) => self.reaches(next, target, (steps - 1) as nat),
                None => false,
            }
        }
    }

    /// Whether thread `t` would wait for itself if it were to wait for
    /// mutex `m`: the mutex is held, and from its holder the chain of
    /// waiting comes to `t`.  A chain has no more steps than there are threads.
    pub open spec fn would_deadlock(self, m: usize, t: usize) -> bool {
        m < self.mutexes.len() && self.mutexes[m as int].holder is Some && self.reaches(
            self.mutexes[m as int].holder->0,
            t,
            self.states.len(),
        )
    }

    /// The state with thread `t` in state `state`.
    pub open spec fn with_state(self, t: usize, state: ThreadState) -> SchedState {
        SchedState { states: self.states.update(t as int, state), ..self }
    }

    /// A new thread of process `pid` joins, ready, at the back of the queue.
    pub open spec fn add_thread(self, pid: usize) -> SchedState {
        SchedState {
            states: self.states.push(ThreadState::Ready),
            pids: self.pids.push(pid),
            ready: self.ready.push(self.states.len() as usize),
            ..self
        }
    }

    /// The thread at the front of the ready queue starts to run, unless one
    /// runs already.
    pub open spec fn find_next(self) -> SchedState {
        if self.current is None && self.ready.len() > 0 {
            SchedState {
                ready: self.ready.drop_first(),
                current: Some(self.ready[0]),
                ..self.with_state(self.ready[0], ThreadState::Running)
            }
        } else {
            self
        }
    }

    /// The running thread goes to the back of the ready queue.
    pub open spec fn suspend(self) -> SchedState {
        match self.current {
            Some(t) => SchedState {
                ready: self.ready.push(t),
                current: None,
                ..self.with_state(t, ThreadState::Ready)
            },
            None => self,
        }
    }

    /// The running thread exits with `code`.
    pub open spec fn exit(self, code: isize) -> SchedState {
        match self.current {
            Some(t) => SchedState { current: None, ..self.with_state(t,
                ThreadState::Zombie(code)) },
            None => self,
        }
    }

    /// The running thread stops running and is blocked on `target`.
    pub open spec fn block(self, target: WaitTarget) -> SchedState {
        match self.current {
            Some(t) => SchedState {
                current: None,
                ..self.with_state(t, ThreadState::Blocked(target))
            },
            None => self,
        }
    }

    /// The thread `woken`, if any, becomes ready at the back of the queue.
    pub open spec fn wake(self, woken: Option<usize>) -> SchedState {
        match woken {
            Some(t) => SchedState {
                ready: self.ready.push(t),
                ..self.with_state(t, ThreadState::Ready)
            },
            None => self,
        }
    }

    /// The running thread asks for mutex `m`: it takes a free one and runs
    /// on; behind a held one it queues and is blocked.
    pub open spec fn mutex_lock(self, m: usize) -> SchedState
        recommends
            self.current is Some,
            m < self.mutexes.len(),
    {
        let (after, acquired) = self.mutexes[m as int].lock(self.current->0);
        let s = SchedState { mutexes: self.mutexes.update(m as int, after), ..self };
        if acquired {
            s
        } else {
            s.block(WaitTarget::Mutex(m))
        }
    }

    /// Mutex `m` is released: its oldest waiter, if any, holds it now and
    /// becomes ready.
    pub open spec fn mutex_unlock(self, m: usize) -> SchedState
        recommends
            m < self.mutexes.len(),
    {
        let (after, woken) = self.mutexes[m as int].unlock();
        SchedState { mutexes: self.mutexes.update(m as int, after), ..self }.wake(woken)
    }

    /// The running thread takes a unit of semaphore `s`, or queues and is
    /// blocked if none is left.
    pub open spec fn semaphore_down(self, s: usize) -> SchedState
        recommends
            self.current is Some,
            s < self.semaphores.len(),
    {
        let (after, acquired) = self.semaphores[s as int].down(self.current->0);
        let st = SchedState { semaphores: self.semaphores.update(s as int, after), ..self };
        if acquired {
            st
        } else {
            st.block(WaitTarget::Semaphore(s))
        }
    }

    /// A unit of semaphore `s` comes back: its oldest waiter, if any, becomes ready.
    pub open spec fn semaphore_up(self, s: usize) -> SchedState
        recommends
            s < self.semaphores.len(),
    {
        let (after, woken) = self.semaphores[s as int].up();
        SchedState { semaphores: self.semaphores.update(s as int, after), ..self }.wake(woken)
    }

    /// The oldest waiter of condition variable `c`, if any, becomes ready.
    pub open spec fn condvar_signal(self, c: usize) -> SchedState
        recommends
            c < self.condvars.len(),
    {
        let (after, woken) = self.condvars[c as int].signal();
        SchedState { condvars: self.condvars.update(c as int, after), ..self }.wake(woken)
    }

    /// The running thread queues on condition variable `c` and is blocked.
    pub open spec fn condvar_enqueue(self, c: usize) -> SchedState
        recommends
            self.current is Some,
            c < self.condvars.len(),
    {
        SchedState {
            condvars: self.condvars.update(c as int, self.condvars[c as int].wait(self.current->0)),
            ..self
        }.block(WaitTarget::Condvar(c))
    }

    /// The running thread releases mutex `m`, queues on condition variable
    /// `c` and is blocked, all in one step; the thread to which the release
    /// handed the mutex, if any, becomes ready.
    pub open spec fn condvar_wait(self, c: usize, m: usize) -> SchedState
        recommends
            self.current is Some,
            c < self.condvars.len(),
            m < self.mutexes.len(),
    {
        self.mutex_unlock(m).condvar_enqueue(c)
    }

    /// Thread `t` leaves the queue of the object `target`, as if it had
    /// never come.
    pub open spec fn unqueue(self, target: WaitTarget, t: usize) -> SchedState {
        match target {
            WaitTarget::Mutex(m) => SchedState {
                mutexes: self.mutexes.update(
                    m as int,
                    MutexState {
                        waiters: without(self.mutexes[m as int].waiters, t),
                        ..self.mutexes[m as int]
                    },
                ),
                ..self
            },
            WaitTarget::Semaphore(x) => SchedState {
                semaphores: self.semaphores.update(
                    x as int,
                    SemaphoreState {
                        waiters: without(self.semaphores[x as int].waiters, t),
                        count: self.semaphores[x as int].count + 1,
                    },
                ),
                ..self
            },
            WaitTarget::Condvar(c) => SchedState {
                condvars: self.condvars.update(
                    c as int,
                    CondvarState { waiters: without(self.condvars[c as int].waiters, t) },
                ),
                ..self
            },
        }
    }

    /// Thread `t` is ended with `code`, whatever it was doing: a running
    /// thread leaves the processor, a ready one the ready queue, a blocked one
    /// the queue of the object it waited on.  A thread that has exited stays
    /// as it is.
    pub open spec fn kill(self, t: usize, code: isize) -> SchedState
        recommends
            t < self.states.len(),
    {
        match self.states[t as int] {
            ThreadState::Running => self.exit(code),
            ThreadState::Ready => SchedState {
                ready: without(self.ready, t),
                ..self.with_state(t, ThreadState::Zombie(code))
            },
            ThreadState::Blocked(target) => self.unqueue(target, t).with_state(
                t,
                ThreadState::Zombie(code),
            ),
            ThreadState::Zombie(_) => self,
        }
    }

    /// A free mutex joins the table.
    pub open spec fn mutex_create(self) -> SchedState {
        SchedState { mutexes: self.mutexes.push(MutexState::free()), ..self }
    }

    /// A semaphore of `count` units joins the table.
    pub open spec fn semaphore_create(self, count: usize) -> SchedState {
        SchedState {
            semaphores: self.semaphores.push(SemaphoreState::with_count(count as int)),
            ..self
        }
    }

    /// A condition variable without waiters joins the table.
    pub open spec fn condvar_create(self) -> SchedState {
        SchedState { condvars: self.condvars.push(CondvarState { waiters: Seq::empty() }), ..self }
    }

    /// Whether `other` has the same objects as `self`, with the same queues
    /// but for the one of `target`, which is `queue`.
    pub open spec fn queues_changed(self, other: SchedState, target: WaitTarget,
        queue: Seq<usize>) -> bool {
        &&& other.mutexes.len() == self.mutexes.len()
        &&& other.semaphores.len() == self.semaphores.len()
        &&& other.condvars.len() == self.condvars.len()
        &&& forall|m: int| 0 <= m < other.mutexes.len() ==> (#[trigger] other.mutexes[m]).wf()
        &&& forall|x: int| 0 <= x < other.semaphores.len() ==> (#[trigger] other.semaphores[x]).wf()
        &&& forall|m: int|
            0 <= m < self.mutexes.len() ==> (#[trigger] other.mutexes[m]).waiters == if target
                == WaitTarget::Mutex(m as usize) {
                queue
            } else {
                self.mutexes[m].waiters
            }
        &&& forall|x: int|
            0 <= x < self.semaphores.len() ==> (#[trigger] other.semaphores[x]).waiters == if target
                == WaitTarget::Semaphore(x as usize) {
                queue
            } else {
                self.semaphores[x].waiters
            }
        &&& forall|c: int|
            0 <= c < self.condvars.len() ==> (#[trigger] other.condvars[c]).waiters == if target
                == WaitTarget::Condvar(c as usize) {
                queue
            } else {
                self.condvars[c].waiters
            }
    }
}

/// In a consistent state the queue of every object is in order.
pub proof fn lemma_queue_ok(s: SchedState, target: WaitTarget)
    requires
        s.wf(),
        s.queue_of(target) is Some,
    ensures
        s.queue_ok(s.queue_of(target)->0, target),
{
    match target {
        WaitTarget::Mutex(m) => {
            assert(s.mutexes[m as int].wf());
        },
        WaitTarget::Semaphore(x) => {
            assert(s.semaphores[x as int].wf());
        },
        WaitTarget::Condvar(c) => {
            assert(s.queue_ok(s.condvars[c as int].waiters, target));
        },
    }
}

/// A thread that is not blocked sits on no queue.
pub proof fn lemma_unblocked_not_queued(s: SchedState, t: usize, target: WaitTarget)
    requires
        s.wf(),
        t < s.states.len(),
        s.states[t as int] != ThreadState::Blocked(target),
        s.queue_of(target) is Some,
    ensures
        !s.queue_of(target)->0.contains(t),
{
    lemma_queue_ok(s, target);
    let q = s.queue_of(target)->0;
    if q.contains(t) {
        let k = choose|k: int| 0 <= k < q.len() && q[k] == t;
        assert(s.states[q[k] as int] == ThreadState::Blocked(target));
    }
}

/// Blocking keeps the state consistent: the running thread may leave the
/// processor for the back of the queue of `target`.
pub proof fn lemma_block_wf(s: SchedState, after: SchedState, target: WaitTarget)
    requires
        s.wf(),
        s.current is Some,
        s.queue_of(target) is Some,
        s.queues_changed(after, target, s.queue_of(target)->0.push(s.current->0)),
        after.states == s.states.update(s.current->0 as int, ThreadState::Blocked(target)),
        after.pids == s.pids,
        after.ready == s.ready,
        after.current is None,
    ensures
        after.wf(),
{
    let t = s.current->0;
    let q = s.queue_of(target)->0;
    let q2 = q.push(t);
    assert forall|other: WaitTarget| s.queue_of(other) is Some implies after.queue_of(other)
        == Some(
        if other == target {
            q2
        } else {
            s.queue_of(other)->0
        },
    ) && after.queue_ok(after.queue_of(other)->0, other) by {
        lemma_queue_ok(s, other);
        lemma_unblocked_not_queued(s, t, other);
        let oq = s.queue_of(other)->0;
        match other {
            WaitTarget::Mutex(m) => {
                assert(after.mutexes[m as int].waiters == if other == target {
                    q2
                } else {
                    oq
                });
            },
            WaitTarget::Semaphore(x) => {
                assert(after.semaphores[x as int].waiters == if other == target {
                    q2
                } else {
                    oq
                });
            },
            WaitTarget::Condvar(c) => {
                assert(after.condvars[c as int].waiters == if other == target {
                    q2
                } else {
                    oq
                });
            },
        }
        let nq = after.queue_of(other)->0;
        assert forall|i: int| 0 <= i < nq.len() implies (#[trigger] nq[i]) < after.states.len()
            && after.states[nq[i] as int] == ThreadState::Blocked(other) by {
            if i < oq.len() {
                assert(oq[i] != t) by {
                    if oq[i] == t {
                        assert(oq.contains(t));
                    }
                }
                assert(nq[i] == oq[i]);
            }
        }
        if other == target {
            assert forall|i: int, j: int|
                0 <= i < q2.len() && 0 <= j < q2.len() && i != j implies q2[i] != q2[j] by {
                if i < q.len() && j == q.len() {
                    assert(q.contains(q[i]));
                }
                if j < q.len() && i == q.len() {
                    assert(q.contains(q[j]));
                }
            }
        }
    }
    assert forall|m: int| 0 <= m < after.mutexes.len() implies after.queue_ok(
        (#[trigger] after.mutexes[m]).waiters,
        WaitTarget::Mutex(m as usize),
    ) by {
        assert(s.queue_of(WaitTarget::Mutex(m as usize)) is Some);
    }
    assert forall|x: int| 0 <= x < after.semaphores.len() implies after.queue_ok(
        (#[trigger] after.semaphores[x]).waiters,
        WaitTarget::Semaphore(x as usize),
    ) by {
        assert(s.queue_of(WaitTarget::Semaphore(x as usize)) is Some);
    }
    assert forall|c: int| 0 <= c < after.condvars.len() implies after.queue_ok(
        (#[trigger] after.condvars[c]).waiters,
        WaitTarget::Condvar(c as usize),
    ) by {
        assert(s.queue_of(WaitTarget::Condvar(c as usize)) is Some);
    }
    assert forall|i: int| 0 <= i < after.ready.len() implies (#[trigger] after.ready[i])
        < after.states.len() && after.states[after.ready[i] as int] == ThreadState::Ready by {
        assert(s.states[s.ready[i] as int] == ThreadState::Ready);
    }
    assert forall|u: int| 0 <= u < after.states.len() implies after.parked(
        #[trigger] after.states[u],
        u as usize,
    ) by {
        if u == t {
            assert(q2[q.len() as int] == t);
        } else {
            assert(s.parked(s.states[u], u as usize));
            match s.states[u] {
                ThreadState::Blocked(tg) => {
                    let oq = s.queue_of(tg)->0;
                    let k = choose|k: int| 0 <= k < oq.len() && oq[k] == u as usize;
                    if tg == target {
                        assert(q2[k] == u as usize);
                    }
                },
                _ => {},
            }
        }
    }
    assert forall|u: int|
        0 <= u < after.states.len() && #[trigger] after.states[u]
            == ThreadState::Ready implies after.ready.contains(u as usize) by {
        assert(s.states[u] == ThreadState::Ready);
    }
}

/// Waking keeps the state consistent: the thread at the front of the queue
/// of `target` may leave it for the back of the ready queue.
pub proof fn lemma_wake_wf(s: SchedState, after: SchedState, target: WaitTarget)
    requires
        s.wf(),
        s.queue_of(target) is Some,
        s.queue_of(target)->0.len() > 0,
        s.queues_changed(after, target, s.queue_of(target)->0.drop_first()),
        after.states == s.states.update(s.queue_of(target)->0[0] as int, ThreadState::Ready),
        after.pids == s.pids,
        after.ready == s.ready.push(s.queue_of(target)->0[0]),
        after.current == s.current,
    ensures
        after.wf(),
{
    let q = s.queue_of(target)->0;
    let w = q[0];
    let q2 = q.drop_first();
    lemma_queue_ok(s, target);
    assert(s.states[w as int] == ThreadState::Blocked(target));
    assert forall|other: WaitTarget| s.queue_of(other) is Some implies after.queue_of(other)
        == Some(
        if other == target {
            q2
        } else {
            s.queue_of(other)->0
        },
    ) && after.queue_ok(after.queue_of(other)->0, other) by {
        lemma_queue_ok(s, other);
        let oq = s.queue_of(other)->0;
        match other {
            WaitTarget::Mutex(m) => {
                assert(after.mutexes[m as int].waiters == if other == target {
                    q2
                } else {
                    oq
                });
            },
            WaitTarget::Semaphore(x) => {
                assert(after.semaphores[x as int].waiters == if other == target {
                    q2
                } else {
                    oq
                });
            },
            WaitTarget::Condvar(c) => {
                assert(after.condvars[c as int].waiters == if other == target {
                    q2
                } else {
                    oq
                });
            },
        }
        let nq = after.queue_of(other)->0;
        if other == target {
            assert forall|i: int| 0 <= i < nq.len() implies (#[trigger] nq[i])
                < after.states.len() && after.states[nq[i] as int] == ThreadState::Blocked(
                other,
            ) by {
                assert(nq[i] == q[i + 1]);
                assert(q[i + 1] != q[0]);
            }
            assert forall|i: int, j: int|
                0 <= i < q2.len() && 0 <= j < q2.len() && i != j implies q2[i] != q2[j] by {
                assert(q2[i] == q[i + 1] && q2[j] == q[j + 1]);
            }
        } else {
            assert forall|i: int| 0 <= i < nq.len() implies (#[trigger] nq[i])
                < after.states.len() && after.states[nq[i] as int] == ThreadState::Blocked(
                other,
            ) by {
                assert(s.states[oq[i] as int] == ThreadState::Blocked(other));
            }
        }
    }
    assert forall|m: int| 0 <= m < after.mutexes.len() implies after.queue_ok(
        (#[trigger] after.mutexes[m]).waiters,
        WaitTarget::Mutex(m as usize),
    ) by {
        assert(s.queue_of(WaitTarget::Mutex(m as usize)) is Some);
    }
    assert forall|x: int| 0 <= x < after.semaphores.len() implies after.queue_ok(
        (#[trigger] after.semaphores[x]).waiters,
        WaitTarget::Semaphore(x as usize),
    ) by {
        assert(s.queue_of(WaitTarget::Semaphore(x as usize)) is Some);
    }
    assert forall|c: int| 0 <= c < after.condvars.len() implies after.queue_ok(
        (#[trigger] after.condvars[c]).waiters,
        WaitTarget::Condvar(c as usize),
    ) by {
        assert(s.queue_of(WaitTarget::Condvar(c as usize)) is Some);
    }
    assert(!s.ready.contains(w)) by {
        if s.ready.contains(w) {
            let k = choose|k: int| 0 <= k < s.ready.len() && s.ready[k] == w;
            assert(s.states[s.ready[k] as int] == ThreadState::Ready);
        }
    }
    assert(after.ready.no_duplicates()) by {
        assert forall|i: int, j: int|
            0 <= i < after.ready.len() && 0 <= j < after.ready.len() && i
                != j implies after.ready[i] != after.ready[j] by {
            if i < s.ready.len() && j == s.ready.len() {
                assert(s.ready.contains(s.ready[i]));
            }
            if j < s.ready.len() && i == s.ready.len() {
                assert(s.ready.contains(s.ready[j]));
            }
        }
    }
    assert forall|i: int| 0 <= i < after.ready.len() implies (#[trigger] after.ready[i])
        < after.states.len() && after.states[after.ready[i] as int] == ThreadState::Ready by {
        if i < s.ready.len() {
            assert(s.states[s.ready[i] as int] == ThreadState::Ready);
        }
    }
    assert forall|u: int|
        0 <= u < after.states.len() && #[trigger] after.states[u]
            == ThreadState::Ready implies after.ready.contains(u as usize) by {
        if u == w {
            assert(after.ready[s.ready.len() as int] == w);
        } else {
            assert(s.states[u] == ThreadState::Ready);
            let k = choose|k: int| 0 <= k < s.ready.len() && s.ready[k] == u as usize;
            assert(after.ready[k] == u as usize);
        }
    }
    assert forall|u: int| 0 <= u < after.states.len() implies after.parked(
        #[trigger] after.states[u],
        u as usize,
    ) by {
        if u != w {
            assert(s.parked(s.states[u], u as usize));
            match s.states[u] {
                ThreadState::Blocked(tg) => {
                    let oq = s.queue_of(tg)->0;
                    let k = choose|k: int| 0 <= k < oq.len() && oq[k] == u as usize;
                    if tg == target {
                        assert(k != 0);
                        assert(q2[k - 1] == u as usize);
                    }
                },
                _ => {},
            }
        }
    }
    assert forall|u: int|
        0 <= u < after.states.len() && #[trigger] after.states[u]
            == ThreadState::Running implies after.current == Some(u as usize) by {
        assert(s.states[u] == ThreadState::Running);
    }
}

/// A change of thread states that touches no blocked thread and makes none
/// blocked, with the queues as they were, keeps the queues in order.
pub proof fn lemma_unblocked_change_wf(s: SchedState, after: SchedState)
    requires
        s.wf(),
        after.mutexes == s.mutexes,
        after.semaphores == s.semaphores,
        after.condvars == s.condvars,
        after.states.len() >= s.states.len(),
        forall|u: int|
            0 <= u < s.states.len() && (#[trigger] s.states[u]) is Blocked ==> after.states[u]
                == s.states[u],
        forall|u: int|
            0 <= u < after.states.len() && (#[trigger] after.states[u]) is Blocked ==> u
                < s.states.len() && s.states[u] == after.states[u],
    ensures
        forall|m: int|
            0 <= m < after.mutexes.len() ==> (#[trigger] after.mutexes[m]).wf() && after.queue_ok(
                after.mutexes[m].waiters,
                WaitTarget::Mutex(m as usize),
            ),
        forall|x: int|
            0 <= x < after.semaphores.len() ==> (#[trigger] after.semaphores[x]).wf()
                && after.queue_ok(after.semaphores[x].waiters, WaitTarget::Semaphore(x as usize)),
        forall|c: int|
            0 <= c < after.condvars.len() ==> after.queue_ok(
                (#[trigger] after.condvars[c]).waiters,
                WaitTarget::Condvar(c as usize),
            ),
        forall|t: int|
            0 <= t < after.states.len() ==> after.parked(#[trigger] after.states[t], t as usize),
{
    assert forall|m: int| 0 <= m < after.mutexes.len() implies (#[trigger] after.mutexes[m]).wf()
        && after.queue_ok(after.mutexes[m].waiters, WaitTarget::Mutex(m as usize)) by {
        assert(s.mutexes[m].wf());
        let q = s.mutexes[m].waiters;
        assert forall|i: int| 0 <= i < q.len() implies (#[trigger] q[i]) < after.states.len()
            && after.states[q[i] as int] == ThreadState::Blocked(WaitTarget::Mutex(m as usize)) by {
            assert(s.states[q[i] as int] is Blocked);
        }
    }
    assert forall|x: int| 0 <= x < after.semaphores.len() implies (
    #[trigger] after.semaphores[x]).wf() && after.queue_ok(
        after.semaphores[x].waiters,
        WaitTarget::Semaphore(x as usize),
    ) by {
        assert(s.semaphores[x].wf());
        let q = s.semaphores[x].waiters;
        assert forall|i: int| 0 <= i < q.len() implies (#[trigger] q[i]) < after.states.len()
            && after.states[q[i] as int] == ThreadState::Blocked(
            WaitTarget::Semaphore(x as usize),
        ) by {
            assert(s.states[q[i] as int] is Blocked);
        }
    }
    assert forall|c: int| 0 <= c < after.condvars.len() implies after.queue_ok(
        (#[trigger] after.condvars[c]).waiters,
        WaitTarget::Condvar(c as usize),
    ) by {
        let q = s.condvars[c].waiters;
        assert(s.queue_ok(q, WaitTarget::Condvar(c as usize)));
        assert forall|i: int| 0 <= i < q.len() implies (#[trigger] q[i]) < after.states.len()
            && after.states[q[i] as int] == ThreadState::Blocked(
            WaitTarget::Condvar(c as usize),
        ) by {
            assert(s.states[q[i] as int] is Blocked);
        }
    }
    assert forall|t: int| 0 <= t < after.states.len() implies after.parked(
        #[trigger] after.states[t],
        t as usize,
    ) by {
        if after.states[t] is Blocked {
            assert(s.parked(s.states[t], t as usize));
        }
    }
}

/// Blocked thread invisibility.  In a consistent state a thread that sits on
/// the queue of a synchronisation object is blocked on that object: it does
/// not run, it is not in the ready queue, and it sits on no other queue.
pub proof fn lemma_waiter_is_invisible(s: SchedState, target: WaitTarget, i: int)
    requires
        s.wf(),
        s.queue_of(target) is Some,
        0 <= i < s.queue_of(target)->0.len(),
    ensures
        ({
            let t = s.queue_of(target)->0[i];
            &&& t < s.states.len()
            &&& s.states[t as int] == ThreadState::Blocked(target)
            &&& !s.ready.contains(t)
            &&& s.current != Some(t)
            &&& forall|other: WaitTarget|
                other != target && s.queue_of(other) is Some ==> !s.queue_of(other)->0.contains(t)
        }),
{
    let q = s.queue_of(target)->0;
    let t = q[i];
    match target {
        WaitTarget::Mutex(m) => {
            assert(s.mutexes[m as int].wf());
        },
        WaitTarget::Semaphore(x) => {
            assert(s.semaphores[x as int].wf());
        },
        WaitTarget::Condvar(c) => {
            assert(s.queue_ok(s.condvars[c as int].waiters, target));
        },
    }
    assert(s.queue_ok(q, target));
    if s.ready.contains(t) {
        let k = choose|k: int| 0 <= k < s.ready.len() && s.ready[k] == t;
        assert(s.states[s.ready[k] as int] == ThreadState::Ready);
    }
    assert forall|other: WaitTarget|
        other != target && s.queue_of(other) is Some implies !s.queue_of(other)->0.contains(
        t,
    ) by {
        let oq = s.queue_of(other)->0;
        if oq.contains(t) {
            let k = choose|k: int| 0 <= k < oq.len() && oq[k] == t;
            match other {
                WaitTarget::Mutex(m) => {
                    assert(s.mutexes[m as int].wf());
                },
                WaitTarget::Semaphore(x) => {
                    assert(s.semaphores[x as int].wf());
                },
                WaitTarget::Condvar(c) => {
                    assert(s.queue_ok(s.condvars[c as int].waiters, other));
                },
            }
            assert(s.queue_ok(oq, other));
            assert(s.states[oq[k] as int] == ThreadState::Blocked(other));
        }
    }
}

/// Two states in which every thread but `target` waits for the same
/// thread have the same chains of waiting that come to `target`.
pub proof fn lemma_reaches_alike(a: SchedState, b: SchedState, from: usize, target: usize,
    steps: nat)
    requires
        forall|x: usize| x != target ==> #[trigger] a.waits_for(x) == b.waits_for(x),
    ensures
        a.reaches(from, target, steps) == b.reaches(from, target, steps),
    decreases steps,
{
    if from != target && steps > 0 {
        assert(a.waits_for(from) == b.waits_for(from));
        if a.waits_for(from) is Some {
            lemma_reaches_alike(a, b, a.waits_for(from)->0, target, (steps - 1) as nat);
        }
    }
}

/// A thread that has been made to wait for a mutex, after the search found
/// that it would not wait for itself, does not wait for itself: the chain
/// of waiting that begins with the holder does not come back to it.
pub proof fn lemma_blocked_without_cycle(s: SchedState, m: usize)
    requires
        s.wf(),
        s.current is Some,
        m < s.mutexes.len(),
        s.mutexes[m as int].holder is Some,
        !s.would_deadlock(m, s.current->0),
    ensures
        ({
            let t = s.current->0;
            let after = s.mutex_lock(m);
            &&& after.waits_for(t) == s.mutexes[m as int].holder
            &&& !after.reaches(s.mutexes[m as int].holder->0, t, after.states.len())
        }),
{
    let t = s.current->0;
    let after = s.mutex_lock(m);
    assert forall|x: usize| x != t implies #[trigger] after.waits_for(x) == s.waits_for(x) by {
        if x < s.states.len() {
            assert(after.states[x as int] == s.states[x as int]);
            if s.states[x as int] is Blocked && s.states[x as int]->Blocked_0 is Mutex {
                let w = s.states[x as int]->Blocked_0->Mutex_0;
                if w < s.mutexes.len() {
                    assert(after.mutexes[w as int].holder == s.mutexes[w as int].holder);
                }
            }
        }
    }
    lemma_reaches_alike(after, s, s.mutexes[m as int].holder->0, t, s.states.len());
}

/// A thread for which `lock` did not obtain the mutex sits on the queue of
/// the mutex afterwards, blocked, and not in the ready queue.
pub proof fn lemma_failed_lock_blocks(s: SchedState, m: usize)
    requires
        s.wf(),
        s.current is Some,
        m < s.mutexes.len(),
        s.mutexes[m as int].holder is Some,
    ensures
        ({
            let t = s.current->0;
            let after = s.mutex_lock(m);
            &&& after.mutexes[m as int].waiters.contains(t)
            &&& after.states[t as int] == ThreadState::Blocked(WaitTarget::Mutex(m))
            &&& !after.ready.contains(t)
            &&& after.current is None
        }),
{
    let t = s.current->0;
    let after = s.mutex_lock(m);
    let q = after.mutexes[m as int].waiters;
    assert(q[q.len() - 1] == t);
    if s.ready.contains(t) {
        let k = choose|k: int| 0 <= k < s.ready.len() && s.ready[k] == t;
        assert(s.states[s.ready[k] as int] == ThreadState::Ready);
    }
}

/// Releasing a mutex makes ready the thread that the release names, and no
/// other: what the ready queue holds afterwards is what it held, and behind
/// it the new holder, who was the oldest waiter.
pub proof fn lemma_unlock_wakes_the_new_holder(s: SchedState, m: usize)
    requires
        s.wf(),
        m < s.mutexes.len(),
    ensures
        ({
            let (mutex_after, woken) = s.mutexes[m as int].unlock();
            let after = s.mutex_unlock(m);
            &&& after.mutexes[m as int] == mutex_after
            &&& after.ready == match woken {
                Some(t) => s.ready.push(t),
                None => s.ready,
            }
            &&& woken is Some ==> s.mutexes[m as int].waiters[0] == woken->0
                && mutex_after.holder == woken && after.states[woken->0 as int]
                == ThreadState::Ready
        }),
{
    assert(s.mutexes[m as int].wf());
    assert(s.queue_ok(s.mutexes[m as int].waiters, WaitTarget::Mutex(m)));
}

/// Joining keeps the state consistent.
pub proof fn lemma_add_thread_wf(s: SchedState, pid: usize)
    requires
        s.wf(),
        s.states.len() < usize::MAX,
    ensures
        s.add_thread(pid).wf(),
{
    let after = s.add_thread(pid);
    let t = s.states.len() as usize;
    lemma_unblocked_change_wf(s, after);
    assert forall|i: int, j: int|
        0 <= i < after.ready.len() && 0 <= j < after.ready.len() && i
            != j implies after.ready[i] != after.ready[j] by {
        if i < s.ready.len() {
            assert(s.ready[i] < s.states.len());
        }
        if j < s.ready.len() {
            assert(s.ready[j] < s.states.len());
        }
    }
    assert forall|i: int| 0 <= i < after.ready.len() implies (#[trigger] after.ready[i])
        < after.states.len() && after.states[after.ready[i] as int] == ThreadState::Ready by {
        if i < s.ready.len() {
            assert(s.states[s.ready[i] as int] == ThreadState::Ready);
        }
    }
    assert forall|u: int|
        0 <= u < after.states.len() && #[trigger] after.states[u]
            == ThreadState::Ready implies after.ready.contains(u as usize) by {
        if u == t {
            assert(after.ready[s.ready.len() as int] == t);
        } else {
            assert(s.states[u] == ThreadState::Ready);
            let k = choose|k: int| 0 <= k < s.ready.len() && s.ready[k] == u as usize;
            assert(after.ready[k] == u as usize);
        }
    }
    assert forall|u: int|
        0 <= u < after.states.len() && #[trigger] after.states[u]
            == ThreadState::Running implies after.current == Some(u as usize) by {
        assert(s.states[u] == ThreadState::Running);
    }
}

/// Starting the next thread keeps the state consistent.
pub proof fn lemma_find_next_wf(s: SchedState)
    requires
        s.wf(),
    ensures
        s.find_next().wf(),
{
    let after = s.find_next();
    if s.current is None && s.ready.len() > 0 {
        let t = s.ready[0];
        assert(s.states[t as int] == ThreadState::Ready);
        lemma_unblocked_change_wf(s, after);
        assert forall|i: int| 0 <= i < after.ready.len() implies (#[trigger] after.ready[i])
            < after.states.len() && after.states[after.ready[i] as int] == ThreadState::Ready by {
            assert(after.ready[i] == s.ready[i + 1]);
            assert(s.ready[i + 1] != s.ready[0]);
        }
        assert forall|i: int, j: int|
            0 <= i < after.ready.len() && 0 <= j < after.ready.len() && i
                != j implies after.ready[i] != after.ready[j] by {
            assert(after.ready[i] == s.ready[i + 1] && after.ready[j] == s.ready[j + 1]);
        }
        assert forall|u: int|
            0 <= u < after.states.len() && #[trigger] after.states[u]
                == ThreadState::Ready implies after.ready.contains(u as usize) by {
            assert(s.states[u] == ThreadState::Ready);
            let k = choose|k: int| 0 <= k < s.ready.len() && s.ready[k] == u as usize;
            assert(k != 0);
            assert(after.ready[k - 1] == u as usize);
        }
        assert forall|u: int|
            0 <= u < after.states.len() && #[trigger] after.states[u]
                == ThreadState::Running implies after.current == Some(u as usize) by {
            if u != t {
                assert(s.states[u] == ThreadState::Running);
            }
        }
    }
}

/// Suspending the running thread keeps the state consistent.
pub proof fn lemma_suspend_wf(s: SchedState)
    requires
        s.wf(),
    ensures
        s.suspend().wf(),
{
    let after = s.suspend();
    if s.current is Some {
        let t = s.current->0;
        lemma_unblocked_change_wf(s, after);
        assert(!s.ready.contains(t)) by {
            if s.ready.contains(t) {
                let k = choose|k: int| 0 <= k < s.ready.len() && s.ready[k] == t;
                assert(s.states[s.ready[k] as int] == ThreadState::Ready);
            }
        }
        assert forall|i: int, j: int|
            0 <= i < after.ready.len() && 0 <= j < after.ready.len() && i
                != j implies after.ready[i] != after.ready[j] by {
            if i < s.ready.len() && j == s.ready.len() {
                assert(s.ready.contains(s.ready[i]));
            }
            if j < s.ready.len() && i == s.ready.len() {
                assert(s.ready.contains(s.ready[j]));
            }
        }
        assert forall|i: int| 0 <= i < after.ready.len() implies (#[trigger] after.ready[i])
            < after.states.len() && after.states[after.ready[i] as int] == ThreadState::Ready by {
            if i < s.ready.len() {
                assert(s.states[s.ready[i] as int] == ThreadState::Ready);
            }
        }
        assert forall|u: int|
            0 <= u < after.states.len() && #[trigger] after.states[u]
                == ThreadState::Ready implies after.ready.contains(u as usize) by {
            if u == t {
                assert(after.ready[s.ready.len() as int] == t);
            } else {
                assert(s.states[u] == ThreadState::Ready);
                let k = choose|k: int| 0 <= k < s.ready.len() && s.ready[k] == u as usize;
                assert(after.ready[k] == u as usize);
            }
        }
        assert forall|u: int|
            0 <= u < after.states.len() && #[trigger] after.states[u]
                == ThreadState::Running implies after.current == Some(u as usize) by {
            if u != t {
                assert(s.states[u] == ThreadState::Running);
            }
        }
    }
}

/// The exit of the running thread keeps the state consistent.
pub proof fn lemma_exit_wf(s: SchedState, code: isize)
    requires
        s.wf(),
    ensures
        s.exit(code).wf(),
{
    let after = s.exit(code);
    if s.current is Some {
        let t = s.current->0;
        lemma_unblocked_change_wf(s, after);
        assert forall|i: int| 0 <= i < after.ready.len() implies (#[trigger] after.ready[i])
            < after.states.len() && after.states[after.ready[i] as int] == ThreadState::Ready by {
            assert(s.states[s.ready[i] as int] == ThreadState::Ready);
        }
        assert forall|u: int|
            0 <= u < after.states.len() && #[trigger] after.states[u]
                == ThreadState::Ready implies after.ready.contains(u as usize) by {
            assert(s.states[u] == ThreadState::Ready);
        }
        assert forall|u: int|
            0 <= u < after.states.len() && #[trigger] after.states[u]
                == ThreadState::Running implies after.current == Some(u as usize) by {
            if u != t {
                assert(s.states[u] == ThreadState::Running);
            }
        }
    }
}

/// A new object without waiters keeps the state consistent.
pub proof fn lemma_create_wf(s: SchedState)
    requires
        s.wf(),
    ensures
        s.mutexes.len() < usize::MAX ==> s.mutex_create().wf(),
        forall|count: usize|
            s.semaphores.len() < usize::MAX ==> (#[trigger] s.semaphore_create(count)).wf(),
        s.condvars.len() < usize::MAX ==> s.condvar_create().wf(),
{
    if s.mutexes.len() < usize::MAX {
        let after = s.mutex_create();
        assert forall|m: int| 0 <= m < after.mutexes.len() implies (
        #[trigger] after.mutexes[m]).wf() && after.queue_ok(
            after.mutexes[m].waiters,
            WaitTarget::Mutex(m as usize),
        ) by {
            if m < s.mutexes.len() {
                assert(s.mutexes[m].wf());
            }
        }
        assert forall|t: int| 0 <= t < after.states.len() implies after.parked(
            #[trigger] after.states[t],
            t as usize,
        ) by {
            assert(s.parked(s.states[t], t as usize));
        }
    }
    assert forall|count: usize| s.semaphores.len() < usize::MAX implies (
    #[trigger] s.semaphore_create(count)).wf() by {
        let after = s.semaphore_create(count);
        assert forall|x: int| 0 <= x < after.semaphores.len() implies (
        #[trigger] after.semaphores[x]).wf() && after.queue_ok(
            after.semaphores[x].waiters,
            WaitTarget::Semaphore(x as usize),
        ) by {
            if x < s.semaphores.len() {
                assert(s.semaphores[x].wf());
            }
        }
        assert forall|t: int| 0 <= t < after.states.len() implies after.parked(
            #[trigger] after.states[t],
            t as usize,
        ) by {
            assert(s.parked(s.states[t], t as usize));
        }
    }
    if s.condvars.len() < usize::MAX {
        let after = s.condvar_create();
        assert forall|c: int| 0 <= c < after.condvars.len() implies after.queue_ok(
            (#[trigger] after.condvars[c]).waiters,
            WaitTarget::Condvar(c as usize),
        ) by {
            if c < s.condvars.len() {
                assert(s.queue_ok(s.condvars[c].waiters, WaitTarget::Condvar(c as usize)));
            }
        }
        assert forall|t: int| 0 <= t < after.states.len() implies after.parked(
            #[trigger] after.states[t],
            t as usize,
        ) by {
            assert(s.parked(s.states[t], t as usize));
        }
    }
}

/// Asking for a mutex keeps the state consistent.
pub proof fn lemma_mutex_lock_wf(s: SchedState, m: usize)
    requires
        s.wf(),
        s.current is Some,
        m < s.mutexes.len(),
    ensures
        s.mutex_lock(m).wf(),
{
    let after = s.mutex_lock(m);
    let t = s.current->0;
    assert(s.mutexes[m as int].wf());
    if s.mutexes[m as int].holder is Some {
        assert forall|k: int| 0 <= k < after.mutexes.len() implies (
        #[trigger] after.mutexes[k]).wf() by {
            if k != m {
                assert(s.mutexes[k].wf());
            }
        }
        assert forall|x: int| 0 <= x < after.semaphores.len() implies (
        #[trigger] after.semaphores[x]).wf() by {
            assert(s.semaphores[x].wf());
        }
        lemma_block_wf(s, after, WaitTarget::Mutex(m));
    } else {
        assert forall|k: int| 0 <= k < after.mutexes.len() implies (
        #[trigger] after.mutexes[k]).wf() && after.queue_ok(
            after.mutexes[k].waiters,
            WaitTarget::Mutex(k as usize),
        ) by {
            assert(s.mutexes[k].wf());
        }
        assert forall|u: int| 0 <= u < after.states.len() implies after.parked(
            #[trigger] after.states[u],
            u as usize,
        ) by {
            assert(s.parked(s.states[u], u as usize));
        }
    }
}

/// Releasing a mutex keeps the state consistent.
pub proof fn lemma_mutex_unlock_wf(s: SchedState, m: usize)
    requires
        s.wf(),
        m < s.mutexes.len(),
    ensures
        s.mutex_unlock(m).wf(),
{
    let after = s.mutex_unlock(m);
    assert(s.mutexes[m as int].wf());
    if s.mutexes[m as int].waiters.len() > 0 {
        assert forall|k: int| 0 <= k < after.mutexes.len() implies (
        #[trigger] after.mutexes[k]).wf() by {
            if k != m {
                assert(s.mutexes[k].wf());
            }
        }
        assert forall|x: int| 0 <= x < after.semaphores.len() implies (
        #[trigger] after.semaphores[x]).wf() by {
            assert(s.semaphores[x].wf());
        }
        lemma_wake_wf(s, after, WaitTarget::Mutex(m));
    } else {
        assert forall|k: int| 0 <= k < after.mutexes.len() implies (
        #[trigger] after.mutexes[k]).wf() && after.queue_ok(
            after.mutexes[k].waiters,
            WaitTarget::Mutex(k as usize),
        ) by {
            assert(s.mutexes[k].wf());
        }
        assert forall|u: int| 0 <= u < after.states.len() implies after.parked(
            #[trigger] after.states[u],
            u as usize,
        ) by {
            assert(s.parked(s.states[u], u as usize));
        }
    }
}

/// Taking a unit of a semaphore keeps the state consistent.
pub proof fn lemma_semaphore_down_wf(s: SchedState, x: usize)
    requires
        s.wf(),
        s.current is Some,
        x < s.semaphores.len(),
    ensures
        s.semaphore_down(x).wf(),
{
    let after = s.semaphore_down(x);
    assert(s.semaphores[x as int].wf());
    if s.semaphores[x as int].count - 1 < 0 {
        assert forall|k: int| 0 <= k < after.mutexes.len() implies (
        #[trigger] after.mutexes[k]).wf() by {
            assert(s.mutexes[k].wf());
        }
        assert forall|k: int| 0 <= k < after.semaphores.len() implies (
        #[trigger] after.semaphores[k]).wf() by {
            if k != x {
                assert(s.semaphores[k].wf());
            }
        }
        lemma_block_wf(s, after, WaitTarget::Semaphore(x));
    } else {
        assert forall|k: int| 0 <= k < after.semaphores.len() implies (
        #[trigger] after.semaphores[k]).wf() && after.queue_ok(
            after.semaphores[k].waiters,
            WaitTarget::Semaphore(k as usize),
        ) by {
            assert(s.semaphores[k].wf());
        }
        assert forall|u: int| 0 <= u < after.states.len() implies after.parked(
            #[trigger] after.states[u],
            u as usize,
        ) by {
            assert(s.parked(s.states[u], u as usize));
        }
    }
}

/// Giving a unit back to a semaphore keeps the state consistent.
pub proof fn lemma_semaphore_up_wf(s: SchedState, x: usize)
    requires
        s.wf(),
        x < s.semaphores.len(),
    ensures
        s.semaphore_up(x).wf(),
{
    let after = s.semaphore_up(x);
    assert(s.semaphores[x as int].wf());
    if s.semaphores[x as int].waiters.len() > 0 {
        assert forall|k: int| 0 <= k < after.mutexes.len() implies (
        #[trigger] after.mutexes[k]).wf() by {
            assert(s.mutexes[k].wf());
        }
        assert forall|k: int| 0 <= k < after.semaphores.len() implies (
        #[trigger] after.semaphores[k]).wf() by {
            if k != x {
                assert(s.semaphores[k].wf());
            }
        }
        lemma_wake_wf(s, after, WaitTarget::Semaphore(x));
    } else {
        assert forall|k: int| 0 <= k < after.semaphores.len() implies (
        #[trigger] after.semaphores[k]).wf() && after.queue_ok(
            after.semaphores[k].waiters,
            WaitTarget::Semaphore(k as usize),
        ) by {
            assert(s.semaphores[k].wf());
        }
        assert forall|u: int| 0 <= u < after.states.len() implies after.parked(
            #[trigger] after.states[u],
            u as usize,
        ) by {
            assert(s.parked(s.states[u], u as usize));
        }
    }
}

/// Signalling a condition variable keeps the state consistent.
pub proof fn lemma_condvar_signal_wf(s: SchedState, c: usize)
    requires
        s.wf(),
        c < s.condvars.len(),
    ensures
        s.condvar_signal(c).wf(),
{
    let after = s.condvar_signal(c);
    assert(s.queue_ok(s.condvars[c as int].waiters, WaitTarget::Condvar(c)));
    if s.condvars[c as int].waiters.len() > 0 {
        assert forall|k: int| 0 <= k < after.mutexes.len() implies (
        #[trigger] after.mutexes[k]).wf() by {
            assert(s.mutexes[k].wf());
        }
        assert forall|k: int| 0 <= k < after.semaphores.len() implies (
        #[trigger] after.semaphores[k]).wf() by {
            assert(s.semaphores[k].wf());
        }
        lemma_wake_wf(s, after, WaitTarget::Condvar(c));
    } else {
        assert(after.condvars =~= s.condvars);
    }
}

/// Queueing on a condition variable keeps the state consistent.
pub proof fn lemma_condvar_enqueue_wf(s: SchedState, c: usize)
    requires
        s.wf(),
        s.current is Some,
        c < s.condvars.len(),
    ensures
        s.condvar_enqueue(c).wf(),
{
    let after = s.condvar_enqueue(c);
    assert forall|k: int| 0 <= k < after.mutexes.len()
        implies (#[trigger] after.mutexes[k]).wf() by {
        assert(s.mutexes[k].wf());
    }
    assert forall|k: int| 0 <= k < after.semaphores.len() implies (
    #[trigger] after.semaphores[k]).wf() by {
        assert(s.semaphores[k].wf());
    }
    lemma_block_wf(s, after, WaitTarget::Condvar(c));
}

/// Waiting on a condition variable keeps the state consistent.
pub proof fn lemma_condvar_wait_wf(s: SchedState, c: usize, m: usize)
    requires
        s.wf(),
        s.current is Some,
        c < s.condvars.len(),
        m < s.mutexes.len(),
    ensures
        s.condvar_wait(c, m).wf(),
{
    lemma_mutex_unlock_wf(s, m);
    lemma_condvar_enqueue_wf(s.mutex_unlock(m), c);
}

/// The scheduler.
pub struct Processor {
    threads: Vec<Thread>,
    ready: VecDeque<usize>,
    current: Option<usize>,
    mutexes: Vec<MutexBlocking>,
    semaphores: Vec<Semaphore>,
    condvars: Vec<Condvar>,
    detecting: Vec<bool>,
}

impl View for Processor {
    type V = SchedState;

    closed spec fn view(&self) -> SchedState {
        SchedState {
            states: Seq::new(self.threads@.len(), |i: int| self.threads@[i].state),
            pids: Seq::new(self.threads@.len(), |i: int| self.threads@[i].pid),
            ready: self.ready@,
            current: self.current,
            mutexes: Seq::new(self.mutexes@.len(), |i: int| self.mutexes@[i]@),
            semaphores: Seq::new(self.semaphores@.len(), |i: int| self.semaphores@[i]@),
            condvars: Seq::new(self.condvars@.len(), |i: int| self.condvars@[i]@),
            detecting: self.detecting@,
        }
    }
}

impl Processor {
    /// The saved registers of thread `tid`.
    pub closed spec fn context_of(&self, tid: int) -> ContextState {
        self.threads@[tid].context@
    }

    /// The selector of the address space of thread `tid`.
    pub closed spec fn satp_of(&self, tid: int) -> u64 {
        self.threads@[tid].satp
    }

    pub closed spec fn wf(&self) -> bool {
        &&& self@.wf()
        &&& forall|i: int| 0 <= i < self.threads@.len() ==> (#[trigger] self.threads@[i]).tid == i
        &&& forall|i: int|
            0 <= i < self.semaphores@.len() ==> (#[trigger] self.semaphores@[i]).wf()
    }

    /// A consistent scheduler is in a consistent state.
    pub proof fn lemma_wf(&self)
        requires
            self.wf(),
        ensures
            self@.wf(),
    {
    }

    /// A scheduler without threads and without objects.
    pub fn new() -> (p: Self)
        ensures
            p.wf(),
            p@ == SchedState::empty(),
    {
        let p = Processor {
            threads: Vec::new(),
            ready: VecDeque::new(),
            current: None,
            mutexes: Vec::new(),
            semaphores: Vec::new(),
            condvars: Vec::new(),
            detecting: Vec::new(),
        };
        proof {
            assert(p@.states =~= Seq::empty());
            assert(p@.pids =~= Seq::empty());
            assert(p@.mutexes =~= Seq::empty());
            assert(p@.semaphores =~= Seq::empty());
            assert(p@.condvars =~= Seq::empty());
        }
        p
    }

    /// Whether deadlocks are looked for on behalf of process `pid`.
    pub fn detects(&self, pid: usize) -> (b: bool)
        ensures
            b == self@.detects(pid as int),
    {
        pid < self.detecting.len() && self.detecting[pid]
    }

    /// Switches the search for deadlocks on or off for process `pid`.
    pub fn set_detecting(&mut self, pid: usize, on: bool)
        requires
            old(self).wf(),
            pid < usize::MAX,
        ensures
            final(self).wf(),
            final(self)@ == old(self)@.set_detecting(pid, on),
            forall|t: int|
                0 <= t < old(self)@.states.len() ==> #[trigger] final(self).context_of(t) == old(
                    self,
                ).context_of(t) && final(self).satp_of(t) == old(self).satp_of(t),
    {
        while self.detecting.len() <= pid
            invariant
                self.wf(),
                self.threads == old(self).threads,
                self.ready == old(self).ready,
                self.current == old(self).current,
                self.mutexes == old(self).mutexes,
                self.semaphores == old(self).semaphores,
                self.condvars == old(self).condvars,
                old(self).detecting@.len() <= self.detecting@.len(),
                self.detecting@.len() <= pid + 1 || self.detecting@ == old(self).detecting@,
                self.detecting@ == padded(old(self).detecting@, self.detecting@.len() as int),
            decreases pid + 1 - self.detecting.len(),
        {
            let ghost before = self.detecting@;
            self.detecting.push(false);
            proof {
                assert(self.detecting@ =~= padded(
                    old(self).detecting@,
                    self.detecting@.len() as int,
                ));
            }
        }
        self.detecting.set(pid, on);
        proof {
            assert(self.detecting@ =~= padded(old(self).detecting@, pid + 1).update(
                pid as int,
                on,
            ));
        }
    }

    /// Whether the thread that runs would wait for itself if it were to
    /// wait for mutex `m`.
    pub fn would_deadlock(&self, m: usize) -> (b: bool)
        requires
            self@.current is Some,
        ensures
            b == self@.would_deadlock(m, self@.current->0),
    {
        let target = match self.current {
            Some(t) => t,
            None => {
                return false;
            },
        };
        let mut from = match self.mutex_holder(m) {
            Some(h) => h,
            None => {
                return false;
            },
        };
        let mut steps = self.threads.len();
        loop
            invariant
                self@.current == Some(target),
                steps <= self@.states.len(),
                self@.would_deadlock(m, target) == self@.reaches(from, target, steps as nat),
            decreases steps,
        {
            if from == target {
                return true;
            }
            if steps == 0 {
                return false;
            }
            let next = match self.state(from) {
                Some(ThreadState::Blocked(WaitTarget::Mutex(waited))) => self.mutex_holder(waited),
                _ => None,
            };
            match next {
                Some(next) => {
                    from = next;
                    steps = steps - 1;
                },
                None => {
                    return false;
                },
            }
        }
    }

    /// The number of threads that have ever joined.
    pub fn thread_count(&self) -> (n: usize)
        ensures
            n == self@.states.len(),
    {
        self.threads.len()
    }

    /// The thread that runs.
    pub fn current(&self) -> (t: Option<usize>)
        ensures
            t == self@.current,
    {
        self.current
    }

    /// The state of thread `tid`, if there is such a thread.
    pub fn state(&self, tid: usize) -> (r: Option<ThreadState>)
        ensures
            r == if tid < self@.states.len() {
                Some(self@.states[tid as int])
            } else {
                None
            },
    {
        if tid < self.threads.len() {
            Some(self.threads[tid].state)
        } else {
            None
        }
    }

    /// The process of thread `tid`, if there is such a thread.
    pub fn pid_of(&self, tid: usize) -> (r: Option<usize>)
        ensures
            r == if tid < self@.pids.len() {
                Some(self@.pids[tid as int])
            } else {
                None
            },
    {
        if tid < self.threads.len() {
            Some(self.threads[tid].pid)
        } else {
            None
        }
    }

    /// The selector of the address space of thread `tid`.
    pub fn satp(&self, tid: usize) -> (r: Option<u64>)
        ensures
            r == if tid < self@.states.len() {
                Some(self.satp_of(tid as int))
            } else {
                None
            },
    {
        if tid < self.threads.len() {
            Some(self.threads[tid].satp)
        } else {
            None
        }
    }

    /// The saved registers of thread `tid`.
    pub fn context(&self, tid: usize) -> (c: &Context)
        requires
            tid < self@.states.len(),
        ensures
            c@ == self.context_of(tid as int),
    {
        &self.threads[tid].context
    }

    /// The number of threads in the ready queue.
    pub fn ready_count(&self) -> (n: usize)
        ensures
            n == self@.ready.len(),
    {
        self.ready.len()
    }

    /// Whether thread `tid` is in the ready queue.
    pub fn is_ready(&self, tid: usize) -> (b: bool)
        requires
            self.wf(),
        ensures
            b == self@.ready.contains(tid),
    {
        if tid >= self.threads.len() {
            proof {
                if self@.ready.contains(tid) {
                    let k = choose|k: int| 0 <= k < self@.ready.len() && self@.ready[k] == tid;
                    assert(self@.ready[k] < self@.states.len());
                }
            }
            return false;
        }
        let ready = match self.threads[tid].state {
            ThreadState::Ready => true,
            _ => false,
        };
        proof {
            assert(self@.states[tid as int] == self.threads@[tid as int].state);
            if self@.ready.contains(tid) {
                let k = choose|k: int| 0 <= k < self@.ready.len() && self@.ready[k] == tid;
                assert(self@.states[self@.ready[k] as int] == ThreadState::Ready);
            }
        }
        ready
    }

    /// Replaces the saved registers of thread `tid`.
    pub fn set_context(&mut self, tid: usize, context: Context)
        requires
            old(self).wf(),
            tid < old(self)@.states.len(),
        ensures
            final(self).wf(),
            final(self)@ == old(self)@,
            final(self).context_of(tid as int) == context@,
            forall|u: int|
                0 <= u < old(self)@.states.len() && u != tid ==> final(self).context_of(u)
                    == old(self).context_of(u),
            forall|u: int|
                0 <= u < old(self)@.states.len() ==> final(self).satp_of(u) == old(self).satp_of(u),
    {
        self.threads[tid].context = context;
        proof {
            self.lemma_same_schedule(old(self));
        }
    }

    /// Gives thread `tid` another address space to run in.
    pub fn set_satp(&mut self, tid: usize, satp: u64)
        requires
            old(self).wf(),
            tid < old(self)@.states.len(),
        ensures
            final(self).wf(),
            final(self)@ == old(self)@,
            final(self).satp_of(tid as int) == satp,
            forall|u: int|
                0 <= u < old(self)@.states.len() && u != tid ==> final(self).satp_of(u)
                    == old(self).satp_of(u),
            forall|u: int|
                0 <= u < old(self)@.states.len() ==> final(self).context_of(u)
                    == old(self).context_of(u),
    {
        self.threads[tid].satp = satp;
        proof {
            self.lemma_same_schedule(old(self));
        }
    }

    /// Writes argument register `n` of thread `tid`.
    pub fn set_a(&mut self, tid: usize, n: usize, value: usize)
        requires
            old(self).wf(),
            tid < old(self)@.states.len(),
            n < crate::context::ARGUMENT_REGISTERS,
        ensures
            final(self).wf(),
            final(self)@ == old(self)@,
            final(self).context_of(tid as int) == old(self).context_of(tid as int).set_a(
                n as int,
                value,
            ),
            forall|u: int|
                0 <= u < old(self)@.states.len() && u != tid ==> final(self).context_of(u)
                    == old(self).context_of(u),
            forall|u: int|
                0 <= u < old(self)@.states.len() ==> final(self).satp_of(u) == old(self).satp_of(u),
    {
        self.threads[tid].context.set_a(n, value);
        proof {
            self.lemma_same_schedule(old(self));
        }
    }

    /// Moves the program counter of thread `tid` past the instruction that trapped.
    pub fn move_next(&mut self, tid: usize)
        requires
            old(self).wf(),
            tid < old(self)@.states.len(),
        ensures
            final(self).wf(),
            final(self)@ == old(self)@,
            final(self).context_of(tid as int) == old(self).context_of(tid as int).move_next(),
            forall|u: int|
                0 <= u < old(self)@.states.len() && u != tid ==> final(self).context_of(u)
                    == old(self).context_of(u),
            forall|u: int|
                0 <= u < old(self)@.states.len() ==> final(self).satp_of(u) == old(self).satp_of(u),
    {
        self.threads[tid].context.move_next();
        proof {
            self.lemma_same_schedule(old(self));
        }
    }

    /// A scheduler that differs from `before` only in saved registers
    /// schedules as `before` does.
    proof fn lemma_same_schedule(&self, before: &Processor)
        requires
            before.wf(),
            self.threads@.len() == before.threads@.len(),
            forall|i: int|
                0 <= i < self.threads@.len() ==> (#[trigger] self.threads@[i]).tid
                    == before.threads@[i].tid && self.threads@[i].pid == before.threads@[i].pid
                    && self.threads@[i].state == before.threads@[i].state,
            self.ready == before.ready,
            self.current == before.current,
            self.mutexes == before.mutexes,
            self.semaphores == before.semaphores,
            self.condvars == before.condvars,
            self.detecting == before.detecting,
        ensures
            self@ == before@,
            self.wf(),
    {
        assert(self@.states =~= before@.states);
        assert(self@.pids =~= before@.pids);
    }

    /// A new thread of process `pid` joins with the registers `context`; it
    /// is ready and goes to the back of the queue.  Its identity is handed
    /// back.  `None`, with nothing changed, only when the table is full.
    pub fn add(&mut self, pid: usize, context: Context, satp: u64) -> (r: Option<usize>)
        requires
            old(self).wf(),
        ensures
            final(self).wf(),
            r is Some <==> old(self)@.states.len() < usize::MAX,
            match r {
                Some(tid) => {
                    &&& tid == old(self)@.states.len()
                    &&& final(self)@ == old(self)@.add_thread(pid)
                    &&& final(self).context_of(tid as int) == context@
                    &&& final(self).satp_of(tid as int) == satp
                    &&& forall|u: int|
                        0 <= u < old(self)@.states.len() ==> final(self).context_of(u)
                            == old(self).context_of(u) && final(self).satp_of(u)
                            == old(self).satp_of(u)
                },
                None => final(self)@ == old(self)@,
            },
    {
        let tid = self.threads.len();
        if tid == usize::MAX {
            return None;
        }
        self.threads.push(Thread { tid, pid, satp, context, state: ThreadState::Ready });
        self.ready.push_back(tid);
        proof {
            assert(self@.states =~= old(self)@.add_thread(pid).states);
            assert(self@.pids =~= old(self)@.add_thread(pid).pids);
            assert(self@.mutexes =~= old(self)@.mutexes);
            assert(self@.semaphores =~= old(self)@.semaphores);
            assert(self@.condvars =~= old(self)@.condvars);
            lemma_add_thread_wf(old(self)@, pid);
        }
        Some(tid)
    }

    /// Picks the thread that runs next, the one at the front of the ready
    /// queue, and makes it the running thread.  While a thread runs, that one
    /// is handed back and nothing changes.  `None` exactly when no thread
    /// runs and none is ready.
    pub fn find_next(&mut self) -> (r: Option<usize>)
        requires
            old(self).wf(),
        ensures
            final(self).wf(),
            final(self)@ == old(self)@.find_next(),
            r == final(self)@.current,
            forall|u: int|
                0 <= u < old(self)@.states.len() ==> final(self).context_of(u)
                    == old(self).context_of(u) && final(self).satp_of(u) == old(self).satp_of(u),
    {
        if self.current.is_some() {
            return self.current;
        }
        match self.ready.pop_front() {
            None => None,
            Some(t) => {
                proof {
                    assert(old(self)@.ready[0] < old(self)@.states.len());
                }
                self.threads[t].state = ThreadState::Running;
                self.current = Some(t);
                proof {
                    assert(self@.ready =~= old(self)@.ready.drop_first());
                    assert(self@.states =~= old(self)@.find_next().states);
                    assert(self@.pids =~= old(self)@.pids);
                    assert(self@.mutexes =~= old(self)@.mutexes);
                    assert(self@.semaphores =~= old(self)@.semaphores);
                    assert(self@.condvars =~= old(self)@.condvars);
                    lemma_find_next_wf(old(self)@);
                }
                Some(t)
            },
        }
    }

    /// The running thread gives the processor up and goes to the back of the
    /// ready queue.  Without a running thread nothing changes.
    pub fn make_current_suspend(&mut self)
        requires
            old(self).wf(),
        ensures
            final(self).wf(),
            final(self)@ == old(self)@.suspend(),
            forall|u: int|
                0 <= u < old(self)@.states.len() ==> final(self).context_of(u)
                    == old(self).context_of(u) && final(self).satp_of(u) == old(self).satp_of(u),
    {
        if let Some(t) = self.current {
            self.threads[t].state = ThreadState::Ready;
            self.ready.push_back(t);
            self.current = None;
            proof {
                assert(self@.states =~= old(self)@.suspend().states);
                assert(self@.pids =~= old(self)@.pids);
                assert(self@.mutexes =~= old(self)@.mutexes);
                assert(self@.semaphores =~= old(self)@.semaphores);
                assert(self@.condvars =~= old(self)@.condvars);
                lemma_suspend_wf(old(self)@);
            }
        }
    }

    /// The running thread exits with `exit_code` and becomes a zombie.
    /// Without a running thread nothing changes.
    pub fn make_current_exited(&mut self, exit_code: isize)
        requires
            old(self).wf(),
        ensures
            final(self).wf(),
            final(self)@ == old(self)@.exit(exit_code),
            forall|u: int|
                0 <= u < old(self)@.states.len() ==> final(self).context_of(u)
                    == old(self).context_of(u) && final(self).satp_of(u) == old(self).satp_of(u),
    {
        if let Some(t) = self.current {
            self.threads[t].state = ThreadState::Zombie(exit_code);
            self.current = None;
            proof {
                assert(self@.states =~= old(self)@.exit(exit_code).states);
                assert(self@.pids =~= old(self)@.pids);
                assert(self@.mutexes =~= old(self)@.mutexes);
                assert(self@.semaphores =~= old(self)@.semaphores);
                assert(self@.condvars =~= old(self)@.condvars);
                lemma_exit_wf(old(self)@, exit_code);
            }
        }
    }

    /// The number of mutexes in the table.
    pub fn mutex_count(&self) -> (n: usize)
        ensures
            n == self@.mutexes.len(),
    {
        self.mutexes.len()
    }

    /// The number of semaphores in the table.
    pub fn semaphore_count(&self) -> (n: usize)
        ensures
            n == self@.semaphores.len(),
    {
        self.semaphores.len()
    }

    /// The number of condition variables in the table.
    pub fn condvar_count(&self) -> (n: usize)
        ensures
            n == self@.condvars.len(),
    {
        self.condvars.len()
    }

    /// The thread that holds mutex `m`, if the mutex exists and is held.
    pub fn mutex_holder(&self, m: usize) -> (h: Option<usize>)
        ensures
            h == if m < self@.mutexes.len() {
                self@.mutexes[m as int].holder
            } else {
                None
            },
    {
        if m < self.mutexes.len() {
            self.mutexes[m].holder()
        } else {
            None
        }
    }

    /// Puts a free mutex into the table and hands its place back.  `None`,
    /// with nothing changed, only when the table is full.
    pub fn mutex_create(&mut self) -> (r: Option<usize>)
        requires
            old(self).wf(),
        ensures
            final(self).wf(),
            r is Some <==> old(self)@.mutexes.len() < usize::MAX,
            match r {
                Some(m) => m == old(self)@.mutexes.len() && final(self)@
                    == old(self)@.mutex_create(),
                None => final(self)@ == old(self)@,
            },
            forall|u: int|
                0 <= u < old(self)@.states.len() ==> final(self).context_of(u)
                    == old(self).context_of(u) && final(self).satp_of(u) == old(self).satp_of(u),
    {
        let m = self.mutexes.len();
        if m == usize::MAX {
            return None;
        }
        self.mutexes.push(MutexBlocking::new());
        proof {
            assert(self@.mutexes =~= old(self)@.mutex_create().mutexes);
            assert(self@.states =~= old(self)@.states);
            assert(self@.pids =~= old(self)@.pids);
            assert(self@.semaphores =~= old(self)@.semaphores);
            assert(self@.condvars =~= old(self)@.condvars);
            lemma_create_wf(old(self)@);
        }
        Some(m)
    }

    /// Puts a semaphore of `res_count` units into the table and hands its
    /// place back.  `None`, with nothing changed, only when the table is full.
    pub fn semaphore_create(&mut self, res_count: usize) -> (r: Option<usize>)
        requires
            old(self).wf(),
        ensures
            final(self).wf(),
            r is Some <==> old(self)@.semaphores.len() < usize::MAX,
            match r {
                Some(x) => x == old(self)@.semaphores.len() && final(self)@
                    == old(self)@.semaphore_create(res_count),
                None => final(self)@ == old(self)@,
            },
            forall|u: int|
                0 <= u < old(self)@.states.len() ==> final(self).context_of(u)
                    == old(self).context_of(u) && final(self).satp_of(u) == old(self).satp_of(u),
    {
        let x = self.semaphores.len();
        if x == usize::MAX {
            return None;
        }
        self.semaphores.push(Semaphore::new(res_count));
        proof {
            assert(self@.semaphores =~= old(self)@.semaphore_create(res_count).semaphores);
            assert(self@.states =~= old(self)@.states);
            assert(self@.pids =~= old(self)@.pids);
            assert(self@.mutexes =~= old(self)@.mutexes);
            assert(self@.condvars =~= old(self)@.condvars);
            lemma_create_wf(old(self)@);
        }
        Some(x)
    }

    /// Puts a condition variable into the table and hands its place back.
    /// `None`, with nothing changed, only when the table is full.
    pub fn condvar_create(&mut self) -> (r: Option<usize>)
        requires
            old(self).wf(),
        ensures
            final(self).wf(),
            r is Some <==> old(self)@.condvars.len() < usize::MAX,
            match r {
                Some(c) => c == old(self)@.condvars.len() && final(self)@
                    == old(self)@.condvar_create(),
                None => final(self)@ == old(self)@,
            },
            forall|u: int|
                0 <= u < old(self)@.states.len() ==> final(self).context_of(u)
                    == old(self).context_of(u) && final(self).satp_of(u) == old(self).satp_of(u),
    {
        let c = self.condvars.len();
        if c == usize::MAX {
            return None;
        }
        self.condvars.push(Condvar::new());
        proof {
            assert(self@.condvars =~= old(self)@.condvar_create().condvars);
            assert(self@.states =~= old(self)@.states);
            assert(self@.pids =~= old(self)@.pids);
            assert(self@.mutexes =~= old(self)@.mutexes);
            assert(self@.semaphores =~= old(self)@.semaphores);
            lemma_create_wf(old(self)@);
        }
        Some(c)
    }

    /// The running thread asks for mutex `m`.  `Some(true)`: it holds the
    /// mutex and runs on.  `Some(false)`: the mutex is held; the thread has
    /// been queued on it and blocked, and no thread runs.  `None`, with
    /// nothing changed: no thread runs, or there is no mutex `m`.
    pub fn mutex_lock(&mut self, m: usize) -> (r: Option<bool>)
        requires
            old(self).wf(),
        ensures
            final(self).wf(),
            r is Some <==> old(self)@.current is Some && m < old(self)@.mutexes.len(),
            match r {
                Some(acquired) => {
                    &&& final(self)@ == old(self)@.mutex_lock(m)
                    &&& acquired == old(self)@.mutexes[m as int].holder is None
                },
                None => final(self)@ == old(self)@,
            },
            forall|u: int|
                0 <= u < old(self)@.states.len() ==> final(self).context_of(u)
                    == old(self).context_of(u) && final(self).satp_of(u) == old(self).satp_of(u),
    {
        let t = match self.current {
            Some(t) => t,
            None => {
                return None;
            },
        };
        if m >= self.mutexes.len() {
            return None;
        }
        proof {
            assert(old(self)@.mutexes[m as int].wf());
        }
        let acquired = self.mutexes[m].lock(t);
        if !acquired {
            self.threads[t].state = ThreadState::Blocked(WaitTarget::Mutex(m));
            self.current = None;
        }
        proof {
            let goal = old(self)@.mutex_lock(m);
            assert(self@.mutexes =~= goal.mutexes);
            assert(self@.states =~= goal.states);
            assert(self@.pids =~= goal.pids);
            assert(self@.semaphores =~= goal.semaphores);
            assert(self@.condvars =~= goal.condvars);
            lemma_mutex_lock_wf(old(self)@, m);
        }
        Some(acquired)
    }

    /// Releases mutex `m`.  `Some(Some(t))`: thread `t`, the oldest waiter,
    /// holds the mutex now and has been made ready.  `Some(None)`: nobody
    /// waited and the mutex is free.  `None`, with nothing changed: there is
    /// no mutex `m`.
    pub fn mutex_unlock(&mut self, m: usize) -> (r: Option<Option<usize>>)
        requires
            old(self).wf(),
        ensures
            final(self).wf(),
            r is Some <==> m < old(self)@.mutexes.len(),
            match r {
                Some(woken) => {
                    &&& final(self)@ == old(self)@.mutex_unlock(m)
                    &&& woken == old(self)@.mutexes[m as int].unlock().1
                },
                None => final(self)@ == old(self)@,
            },
            forall|u: int|
                0 <= u < old(self)@.states.len() ==> final(self).context_of(u)
                    == old(self).context_of(u) && final(self).satp_of(u) == old(self).satp_of(u),
    {
        if m >= self.mutexes.len() {
            return None;
        }
        proof {
            assert(old(self)@.mutexes[m as int].wf());
            lemma_queue_ok(old(self)@, WaitTarget::Mutex(m));
        }
        let woken = self.mutexes[m].unlock();
        if let Some(w) = woken {
            assert(old(self)@.mutexes[m as int].waiters[0] == w);
            self.threads[w].state = ThreadState::Ready;
            self.ready.push_back(w);
        }
        proof {
            let goal = old(self)@.mutex_unlock(m);
            assert(self@.mutexes =~= goal.mutexes);
            assert(self@.states =~= goal.states);
            assert(self@.pids =~= goal.pids);
            assert(self@.semaphores =~= goal.semaphores);
            assert(self@.condvars =~= goal.condvars);
            lemma_mutex_unlock_wf(old(self)@, m);
        }
        Some(woken)
    }

    /// The running thread takes a unit of semaphore `x`.  `Some(true)`: it
    /// got one and runs on.  `Some(false)`: none was left; the thread has
    /// been queued on the semaphore and blocked, and no thread runs.  `None`,
    /// with nothing changed: no thread runs, or there is no semaphore `x`.
    pub fn semaphore_down(&mut self, x: usize) -> (r: Option<bool>)
        requires
            old(self).wf(),
        ensures
            final(self).wf(),
            r is Some <==> old(self)@.current is Some && x < old(self)@.semaphores.len(),
            match r {
                Some(acquired) => {
                    &&& final(self)@ == old(self)@.semaphore_down(x)
                    &&& acquired == (old(self)@.semaphores[x as int].count > 0)
                },
                None => final(self)@ == old(self)@,
            },
            forall|u: int|
                0 <= u < old(self)@.states.len() ==> final(self).context_of(u)
                    == old(self).context_of(u) && final(self).satp_of(u) == old(self).satp_of(u),
    {
        let t = match self.current {
            Some(t) => t,
            None => {
                return None;
            },
        };
        if x >= self.semaphores.len() {
            return None;
        }
        let acquired = self.semaphores[x].down(t);
        if !acquired {
            self.threads[t].state = ThreadState::Blocked(WaitTarget::Semaphore(x));
            self.current = None;
        }
        proof {
            let goal = old(self)@.semaphore_down(x);
            assert(self@.semaphores =~= goal.semaphores);
            assert(self@.states =~= goal.states);
            assert(self@.pids =~= goal.pids);
            assert(self@.mutexes =~= goal.mutexes);
            assert(self@.condvars =~= goal.condvars);
            lemma_semaphore_down_wf(old(self)@, x);
        }
        Some(acquired)
    }

    /// Gives a unit back to semaphore `x`.  `Some(Some(t))`: thread `t`, the
    /// oldest waiter, has been made ready.  `Some(None)`: nobody waited.
    /// `None`, with nothing changed: there is no semaphore `x`, or its count
    /// cannot go higher.
    pub fn semaphore_up(&mut self, x: usize) -> (r: Option<Option<usize>>)
        requires
            old(self).wf(),
        ensures
            final(self).wf(),
            r is Some <==> x < old(self)@.semaphores.len() && old(self)@.semaphores[x as int].count
                < usize::MAX,
            match r {
                Some(woken) => {
                    &&& final(self)@ == old(self)@.semaphore_up(x)
                    &&& woken == old(self)@.semaphores[x as int].up().1
                },
                None => final(self)@ == old(self)@,
            },
            forall|u: int|
                0 <= u < old(self)@.states.len() ==> final(self).context_of(u)
                    == old(self).context_of(u) && final(self).satp_of(u) == old(self).satp_of(u),
    {
        if x >= self.semaphores.len() {
            return None;
        }
        proof {
            self.semaphores@[x as int].lemma_wf();
            lemma_queue_ok(old(self)@, WaitTarget::Semaphore(x));
        }
        if self.semaphores[x].available() == usize::MAX {
            return None;
        }
        let woken = self.semaphores[x].up();
        if let Some(w) = woken {
            assert(old(self)@.semaphores[x as int].waiters[0] == w);
            self.threads[w].state = ThreadState::Ready;
            self.ready.push_back(w);
        }
        proof {
            let goal = old(self)@.semaphore_up(x);
            assert(self@.semaphores =~= goal.semaphores);
            assert(self@.states =~= goal.states);
            assert(self@.pids =~= goal.pids);
            assert(self@.mutexes =~= goal.mutexes);
            assert(self@.condvars =~= goal.condvars);
            lemma_semaphore_up_wf(old(self)@, x);
        }
        Some(woken)
    }

    /// Wakes the oldest waiter of condition variable `c`.  `Some(Some(t))`:
    /// thread `t` has been made ready; it holds no mutex.  `Some(None)`:
    /// nobody waited.  `None`, with nothing changed: there is no condition
    /// variable `c`.
    pub fn condvar_signal(&mut self, c: usize) -> (r: Option<Option<usize>>)
        requires
            old(self).wf(),
        ensures
            final(self).wf(),
            r is Some <==> c < old(self)@.condvars.len(),
            match r {
                Some(woken) => {
                    &&& final(self)@ == old(self)@.condvar_signal(c)
                    &&& woken == old(self)@.condvars[c as int].signal().1
                },
                None => final(self)@ == old(self)@,
            },
            forall|u: int|
                0 <= u < old(self)@.states.len() ==> final(self).context_of(u)
                    == old(self).context_of(u) && final(self).satp_of(u) == old(self).satp_of(u),
    {
        if c >= self.condvars.len() {
            return None;
        }
        proof {
            lemma_queue_ok(old(self)@, WaitTarget::Condvar(c));
        }
        let woken = self.condvars[c].signal();
        if let Some(w) = woken {
            assert(old(self)@.condvars[c as int].waiters[0] == w);
            self.threads[w].state = ThreadState::Ready;
            self.ready.push_back(w);
        }
        proof {
            let goal = old(self)@.condvar_signal(c);
            assert(self@.condvars =~= goal.condvars);
            assert(self@.states =~= goal.states);
            assert(self@.pids =~= goal.pids);
            assert(self@.mutexes =~= goal.mutexes);
            assert(self@.semaphores =~= goal.semaphores);
            lemma_condvar_signal_wf(old(self)@, c);
        }
        Some(woken)
    }

    /// The running thread waits on condition variable `c`: in one step mutex
    /// `m` is released, the thread is queued on `c` and blocked.  The result
    /// is `Some((false, woken))`, where `woken` is the thread to which the
    /// release handed the mutex, which has been made ready.  `None`, with
    /// nothing changed: no thread runs, or `c` or `m` does not exist.
    pub fn condvar_wait(&mut self, c: usize, m: usize) -> (r: Option<(bool, Option<usize>)>)
        requires
            old(self).wf(),
        ensures
            final(self).wf(),
            r is Some <==> old(self)@.current is Some && c < old(self)@.condvars.len()
                && m < old(self)@.mutexes.len(),
            match r {
                Some((proceed, woken)) => {
                    &&& !proceed
                    &&& final(self)@ == old(self)@.condvar_wait(c, m)
                    &&& woken == old(self)@.mutexes[m as int].unlock().1
                },
                None => final(self)@ == old(self)@,
            },
            forall|u: int|
                0 <= u < old(self)@.states.len() ==> final(self).context_of(u)
                    == old(self).context_of(u) && final(self).satp_of(u) == old(self).satp_of(u),
    {
        let t = match self.current {
            Some(t) => t,
            None => {
                return None;
            },
        };
        if c >= self.condvars.len() || m >= self.mutexes.len() {
            return None;
        }
        proof {
            assert(old(self)@.mutexes[m as int].wf());
            lemma_queue_ok(old(self)@, WaitTarget::Mutex(m));
        }
        let (proceed, woken) = self.condvars[c].wait_with_mutex(t, &mut self.mutexes[m]);
        self.threads[t].state = ThreadState::Blocked(WaitTarget::Condvar(c));
        self.current = None;
        if let Some(w) = woken {
            assert(old(self)@.mutexes[m as int].waiters[0] == w);
            assert(w != t);
            self.threads[w].state = ThreadState::Ready;
            self.ready.push_back(w);
        }
        proof {
            let goal = old(self)@.condvar_wait(c, m);
            assert(self@.condvars =~= goal.condvars);
            assert(self@.states =~= goal.states);
            assert(self@.pids =~= goal.pids);
            assert(self@.mutexes =~= goal.mutexes);
            assert(self@.semaphores =~= goal.semaphores);
            assert(self@.ready =~= goal.ready);
            lemma_condvar_wait_wf(old(self)@, c, m);
        }
        Some((proceed, woken))
    }
}

/// Ending a thread keeps the state consistent.
pub proof fn lemma_kill_wf(s: SchedState, t: usize, code: isize)
    requires
        s.wf(),
        t < s.states.len(),
    ensures
        s.kill(t, code).wf(),
{
    let after = s.kill(t, code);
    match s.states[t as int] {
        ThreadState::Running => {
            lemma_exit_wf(s, code);
        },
        ThreadState::Zombie(_) => {},
        ThreadState::Ready => {
            lemma_without(s.ready, t);
            lemma_unblocked_change_wf(s, after);
            assert forall|i: int| 0 <= i < after.ready.len() implies (#[trigger] after.ready[i])
                < after.states.len() && after.states[after.ready[i] as int]
                == ThreadState::Ready by {
                let x = after.ready[i];
                assert(after.ready.contains(x));
                assert(x != t);
                assert(s.ready.contains(x));
                let k = choose|k: int| 0 <= k < s.ready.len() && s.ready[k] == x;
                assert(s.states[s.ready[k] as int] == ThreadState::Ready);
            }
            assert forall|u: int|
                0 <= u < after.states.len() && #[trigger] after.states[u]
                    == ThreadState::Ready implies after.ready.contains(u as usize) by {
                assert(s.states[u] == ThreadState::Ready);
                assert(s.ready.contains(u as usize));
            }
            assert forall|u: int|
                0 <= u < after.states.len() && #[trigger] after.states[u]
                    == ThreadState::Running implies after.current == Some(u as usize) by {
                assert(s.states[u] == ThreadState::Running);
            }
        },
        ThreadState::Blocked(target) => {
            assert(s.parked(s.states[t as int], t));
            let q = s.queue_of(target)->0;
            let q2 = without(q, t);
            lemma_without(q, t);
            lemma_queue_ok(s, target);
            match target {
                WaitTarget::Mutex(m) => {
                    assert(s.mutexes[m as int].wf());
                },
                WaitTarget::Semaphore(x) => {
                    assert(s.semaphores[x as int].wf());
                },
                WaitTarget::Condvar(c) => {},
            }
            assert forall|k: int| 0 <= k < after.mutexes.len() implies (
            #[trigger] after.mutexes[k]).wf() by {
                assert(s.mutexes[k].wf());
            }
            assert forall|k: int| 0 <= k < after.semaphores.len() implies (
            #[trigger] after.semaphores[k]).wf() by {
                assert(s.semaphores[k].wf());
            }
            assert forall|other: WaitTarget| #![trigger s.queue_of(other)]
                s.queue_of(other) is Some implies after.queue_of(other) == Some(
                if other == target {
                    q2
                } else {
                    s.queue_of(other)->0
                },
            ) && after.queue_ok(after.queue_of(other)->0, other) by {
                lemma_queue_ok(s, other);
                let oq = s.queue_of(other)->0;
                let nq = after.queue_of(other)->0;
                assert forall|i: int| 0 <= i < nq.len() implies (#[trigger] nq[i])
                    < after.states.len() && after.states[nq[i] as int] == ThreadState::Blocked(
                    other,
                ) by {
                    let x = nq[i];
                    assert(nq.contains(x));
                    if other == target {
                        assert(x != t);
                        assert(q.contains(x));
                        let k = choose|k: int| 0 <= k < q.len() && q[k] == x;
                        assert(s.states[q[k] as int] == ThreadState::Blocked(other));
                    } else {
                        assert(s.states[oq[i] as int] == ThreadState::Blocked(other));
                    }
                }
            }
            assert forall|m: int| 0 <= m < after.mutexes.len() implies after.queue_ok(
                (#[trigger] after.mutexes[m]).waiters,
                WaitTarget::Mutex(m as usize),
            ) by {
                assert(s.queue_of(WaitTarget::Mutex(m as usize)) is Some);
            }
            assert forall|x: int| 0 <= x < after.semaphores.len() implies after.queue_ok(
                (#[trigger] after.semaphores[x]).waiters,
                WaitTarget::Semaphore(x as usize),
            ) by {
                assert(s.queue_of(WaitTarget::Semaphore(x as usize)) is Some);
            }
            assert forall|c: int| 0 <= c < after.condvars.len() implies after.queue_ok(
                (#[trigger] after.condvars[c]).waiters,
                WaitTarget::Condvar(c as usize),
            ) by {
                assert(s.queue_of(WaitTarget::Condvar(c as usize)) is Some);
            }
            assert forall|i: int| 0 <= i < after.ready.len() implies (#[trigger] after.ready[i])
                < after.states.len() && after.states[after.ready[i] as int]
                == ThreadState::Ready by {
                assert(s.states[s.ready[i] as int] == ThreadState::Ready);
            }
            assert forall|u: int|
                0 <= u < after.states.len() && #[trigger] after.states[u]
                    == ThreadState::Ready implies after.ready.contains(u as usize) by {
                assert(s.states[u] == ThreadState::Ready);
            }
            assert forall|u: int|
                0 <= u < after.states.len() && #[trigger] after.states[u]
                    == ThreadState::Running implies after.current == Some(u as usize) by {
                assert(s.states[u] == ThreadState::Running);
            }
            assert forall|u: int| 0 <= u < after.states.len() implies after.parked(
                #[trigger] after.states[u],
                u as usize,
            ) by {
                if u != t {
                    assert(s.parked(s.states[u], u as usize));
                    match s.states[u] {
                        ThreadState::Blocked(tg) => {
                            assert(s.queue_of(tg) is Some);
                            assert(after.queue_of(tg)->0.contains(u as usize));
                        },
                        _ => {},
                    }
                }
            }
        },
    }
}

impl Processor {
    /// Ends thread `tid` with `exit_code`, whatever it was doing, and takes
    /// it out of every queue: a running thread leaves the processor, a ready
    /// one the ready queue, a blocked one the queue it sat on.  Nothing
    /// changes for a thread that has exited, or if there is no thread `tid`.
    pub fn kill(&mut self, tid: usize, exit_code: isize)
        requires
            old(self).wf(),
        ensures
            final(self).wf(),
            final(self)@ == if tid < old(self)@.states.len() {
                old(self)@.kill(tid, exit_code)
            } else {
                old(self)@
            },
            forall|u: int|
                0 <= u < old(self)@.states.len() ==> final(self).context_of(u)
                    == old(self).context_of(u) && final(self).satp_of(u) == old(self).satp_of(u),
    {
        if tid >= self.threads.len() {
            return ;
        }
        proof {
            assert(old(self)@.parked(old(self)@.states[tid as int], tid));
            lemma_kill_wf(old(self)@, tid, exit_code);
        }
        match self.threads[tid].state {
            ThreadState::Running => {
                assert(old(self)@.states[tid as int] == ThreadState::Running);
                self.make_current_exited(exit_code);
            },
            ThreadState::Zombie(_) => {},
            ThreadState::Ready => {
                remove_from_queue(&mut self.ready, tid);
                self.threads[tid].state = ThreadState::Zombie(exit_code);
                proof {
                    let goal = old(self)@.kill(tid, exit_code);
                    assert(self@.states =~= goal.states);
                    assert(self@.pids =~= goal.pids);
                    assert(self@.mutexes =~= goal.mutexes);
                    assert(self@.semaphores =~= goal.semaphores);
                    assert(self@.condvars =~= goal.condvars);
                }
            },
            ThreadState::Blocked(target) => {
                match target {
                    WaitTarget::Mutex(m) => {
                        assert(old(self)@.mutexes[m as int].wf());
                        self.mutexes[m].remove_waiter(tid);
                    },
                    WaitTarget::Semaphore(x) => {
                        self.semaphores[x].remove_waiter(tid);
                    },
                    WaitTarget::Condvar(c) => {
                        self.condvars[c].remove_waiter(tid);
                    },
                }
                self.threads[tid].state = ThreadState::Zombie(exit_code);
                proof {
                    let goal = old(self)@.kill(tid, exit_code);
                    assert(self@.states =~= goal.states);
                    assert(self@.pids =~= goal.pids);
                    assert(self@.mutexes =~= goal.mutexes);
                    assert(self@.semaphores =~= goal.semaphores);
                    assert(self@.condvars =~= goal.condvars);
                }
            },
        }
    }
}

} // verus!
