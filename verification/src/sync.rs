//! Blocking synchronisation primitives.
//!
//! Each primitive owns a FIFO queue of the threads that wait on it.  None of
//! them suspends anything by itself: an operation that cannot proceed puts the
//! caller on the queue and reports it, and the dispatcher marks the thread
//! blocked; an operation that frees a resource hands back the thread to wake.

use std::collections::VecDeque;
use vstd::prelude::*;

verus! {

/// The queue `q` without thread `tid`: its first entry for `tid` is taken
/// out.  A queue that does not hold `tid` stays as it is.
pub open spec fn without(q: Seq<usize>, tid: usize) -> Seq<usize>
    decreases q.len(),
{
    if q.len() == 0 {
        q
    } else if q[0] == tid {
        q.drop_first()
    } else {
        seq![q[0]] + without(q.drop_first(), tid)
    }
}

/// Taking a thread out of a queue keeps the others in their order: what is
/// left holds exactly the other entries, and nothing twice if the queue held
/// nothing twice.
pub proof fn lemma_without(q: Seq<usize>, tid: usize)
    ensures
        !q.contains(tid) ==> without(q, tid) == q,
        q.contains(tid) ==> without(q, tid).len() + 1 == q.len(),
        forall|x: usize| x != tid ==> (#[trigger] without(q, tid).contains(x) <==> q.contains(x)),
        q.no_duplicates() ==> without(q, tid).no_duplicates() && !without(q, tid).contains(tid),
    decreases q.len(),
{
    if q.len() == 0 {
    } else if q[0] == tid {
        let rest = q.drop_first();
        assert forall|x: usize| x != tid implies (#[trigger] rest.contains(x) <==> q.contains(
            x,
        )) by {
            if q.contains(x) {
                let k = choose|k: int| 0 <= k < q.len() && q[k] == x;
                assert(rest[k - 1] == x);
            }
            if rest.contains(x) {
                let k = choose|k: int| 0 <= k < rest.len() && rest[k] == x;
                assert(q[k + 1] == x);
            }
        }
        if q.no_duplicates() {
            assert forall|i: int, j: int|
                0 <= i < rest.len() && 0 <= j < rest.len() && i != j implies rest[i] != rest[j] by {
                assert(rest[i] == q[i + 1] && rest[j] == q[j + 1]);
            }
            if rest.contains(tid) {
                let k = choose|k: int| 0 <= k < rest.len() && rest[k] == tid;
                assert(q[k + 1] == tid);
            }
        }
    } else {
        let rest = q.drop_first();
        lemma_without(rest, tid);
        let w = without(rest, tid);
        let r = seq![q[0]] + w;
        if !q.contains(tid) {
            if rest.contains(tid) {
                let k = choose|k: int| 0 <= k < rest.len() && rest[k] == tid;
                assert(q[k + 1] == tid);
            }
            assert(r =~= q);
        }
        if q.contains(tid) {
            let k = choose|k: int| 0 <= k < q.len() && q[k] == tid;
            assert(rest[k - 1] == tid);
        }
        assert forall|x: usize| x != tid implies (#[trigger] r.contains(x) <==> q.contains(x)) by {
            if q.contains(x) {
                let k = choose|k: int| 0 <= k < q.len() && q[k] == x;
                if k == 0 {
                    assert(r[0] == x);
                } else {
                    assert(rest[k - 1] == x);
                    assert(w.contains(x));
                    let j = choose|j: int| 0 <= j < w.len() && w[j] == x;
                    assert(r[j + 1] == x);
                }
            }
            if r.contains(x) {
                let k = choose|k: int| 0 <= k < r.len() && r[k] == x;
                if k == 0 {
                    assert(q[0] == x);
                } else {
                    assert(w[k - 1] == x);
                    assert(w.contains(x));
                    assert(rest.contains(x));
                    let j = choose|j: int| 0 <= j < rest.len() && rest[j] == x;
                    assert(q[j + 1] == x);
                }
            }
        }
        if q.no_duplicates() {
            assert forall|i: int, j: int|
                0 <= i < rest.len() && 0 <= j < rest.len() && i != j implies rest[i] != rest[j] by {
                assert(rest[i] == q[i + 1] && rest[j] == q[j + 1]);
            }
            assert(!rest.contains(q[0])) by {
                if rest.contains(q[0]) {
                    let k = choose|k: int| 0 <= k < rest.len() && rest[k] == q[0];
                    assert(q[k + 1] == q[0]);
                }
            }
            assert forall|i: int, j: int|
                0 <= i < r.len() && 0 <= j < r.len() && i != j implies r[i] != r[j] by {
                if i == 0 {
                    assert(w.contains(w[j - 1]));
                } else if j == 0 {
                    assert(w.contains(w[i - 1]));
                } else {
                    assert(r[i] == w[i - 1] && r[j] == w[j - 1]);
                }
            }
            if r.contains(tid) {
                let k = choose|k: int| 0 <= k < r.len() && r[k] == tid;
                assert(w[k - 1] == tid);
            }
        }
    }
}

/// Takes the first entry for `tid` out of the queue.  `true` exactly when
/// the queue held `tid`.
pub fn remove_from_queue(queue: &mut VecDeque<usize>, tid: usize) -> (found: bool)
    ensures
        found == old(queue)@.contains(tid),
        final(queue)@ == without(old(queue)@, tid),
{
    let n = queue.len();
    let mut i: usize = 0;
    proof {
        assert(queue@.subrange(0, n as int) =~= queue@);
        assert(queue@.subrange(0, 0) + without(queue@, tid) =~= without(queue@, tid));
    }
    while i < n
        invariant
            i <= n,
            n == queue@.len(),
            queue@ == old(queue)@,
            forall|k: int| 0 <= k < i ==> queue@[k] != tid,
            without(queue@, tid) == queue@.subrange(0, i as int) + without(
                queue@.subrange(i as int, n as int),
                tid,
            ),
        decreases n - i,
    {
        if queue[i] == tid {
            let ghost before = queue@;
            queue.remove(i);
            proof {
                let tail = before.subrange(i as int, n as int);
                assert(tail[0] == tid);
                assert(without(tail, tid) == tail.drop_first());
                assert(queue@ =~= before.subrange(0, i as int) + tail.drop_first());
            }
            return true;
        }
        proof {
            let tail = queue@.subrange(i as int, n as int);
            let next = queue@.subrange(i + 1, n as int);
            assert(tail.drop_first() =~= next);
            assert(queue@.subrange(0, i + 1) =~= queue@.subrange(0, i as int) + seq![tail[0]]);
            assert(queue@.subrange(0, i as int) + (seq![tail[0]] + without(next, tid))
                =~= queue@.subrange(0, i + 1) + without(next, tid));
        }
        i = i + 1;
    }
    proof {
        assert(queue@.subrange(n as int, n as int) =~= Seq::<usize>::empty());
        assert(queue@.subrange(0, n as int) =~= queue@);
        assert(queue@ + Seq::<usize>::empty() =~= queue@);
    }
    false
}

/// What a mutex is: who holds it, and who waits for it, oldest first.
pub struct MutexState {
    pub holder: Option<usize>,
    pub waiters: Seq<usize>,
}

impl MutexState {
    /// A mutex with waiters is held.
    pub open spec fn wf(self) -> bool {
        self.holder is None ==> self.waiters.len() == 0
    }

    pub open spec fn free() -> MutexState {
        MutexState { holder: None, waiters: Seq::empty() }
    }

    /// `tid` asks for the mutex: it gets a free one, and queues behind a held one.
    pub open spec fn lock(self, tid: usize) -> (MutexState, bool) {
        if self.holder is Some {
            (MutexState { holder: self.holder, waiters: self.waiters.push(tid) }, false)
        } else {
            (MutexState { holder: Some(tid), waiters: self.waiters }, true)
        }
    }

    /// The holder lets go: the oldest waiter becomes the holder at once, and
    /// only without waiters does the mutex become free.
    pub open spec fn unlock(self) -> (MutexState, Option<usize>) {
        if self.waiters.len() > 0 {
            (
                MutexState { holder: Some(self.waiters[0]), waiters: self.waiters.drop_first() },
                Some(self.waiters[0]),
            )
        } else {
            (MutexState { holder: None, waiters: self.waiters }, None)
        }
    }
}

/// A mutex whose contenders block.
pub struct MutexBlocking {
    holder: Option<usize>,
    wait_queue: VecDeque<usize>,
}

impl View for MutexBlocking {
    type V = MutexState;

    closed spec fn view(&self) -> MutexState {
        MutexState { holder: self.holder, waiters: self.wait_queue@ }
    }
}

impl MutexBlocking {
    pub open spec fn wf(&self) -> bool {
        self@.wf()
    }

    pub fn new() -> (m: Self)
        ensures
            m@ == MutexState::free(),
            m.wf(),
    {
        MutexBlocking { holder: None, wait_queue: VecDeque::new() }
    }

    /// The thread that holds the mutex, if any.
    pub fn holder(&self) -> (h: Option<usize>)
        ensures
            h == self@.holder,
    {
        self.holder
    }

    /// Whether the mutex is held.
    pub fn is_locked(&self) -> (b: bool)
        ensures
            b == (self@.holder is Some),
    {
        self.holder.is_some()
    }

    /// The number of threads that wait.
    pub fn waiting(&self) -> (n: usize)
        ensures
            n == self@.waiters.len(),
    {
        self.wait_queue.len()
    }

    /// Takes `tid` off the queue of the mutex.  `true` exactly when it waited.
    pub fn remove_waiter(&mut self, tid: usize) -> (found: bool)
        requires
            old(self).wf(),
        ensures
            final(self).wf(),
            found == old(self)@.waiters.contains(tid),
            final(self)@ == (MutexState { waiters: without(old(self)@.waiters, tid),
                ..old(self)@ }),
    {
        proof {
            lemma_without(self.wait_queue@, tid);
        }
        remove_from_queue(&mut self.wait_queue, tid)
    }

    /// `tid` tries to take the mutex.  `true`: it holds it now.  `false`: it
    /// has been queued and must be blocked by the caller.
    pub fn lock(&mut self, tid: usize) -> (acquired: bool)
        requires
            old(self).wf(),
        ensures
            (final(self)@, acquired) == old(self)@.lock(tid),
            final(self).wf(),
    {
        if self.holder.is_some() {
            self.wait_queue.push_back(tid);
            false
        } else {
            self.holder = Some(tid);
            true
        }
    }

    /// Releases the mutex.  With waiters, the oldest one becomes the holder and
    /// is handed back, to be made ready; the mutex is never free in between.
    pub fn unlock(&mut self) -> (woken: Option<usize>)
        requires
            old(self).wf(),
        ensures
            (final(self)@, woken) == old(self)@.unlock(),
            final(self).wf(),
    {
        let next = self.wait_queue.pop_front();
        self.holder = next;
        proof {
            if old(self)@.waiters.len() > 0 {
                assert(old(self)@.waiters.drop_first() =~= old(self)@.waiters.subrange(
                    1,
                    old(self)@.waiters.len() as int,
                ));
            }
        }
        next
    }
}

/// What a semaphore is: its count, and who waits for it, oldest first.
///
/// A count below zero says how many threads wait.
pub struct SemaphoreState {
    pub count: int,
    pub waiters: Seq<usize>,
}

impl SemaphoreState {
    pub open spec fn wf(self) -> bool {
        self.waiters.len() == if self.count < 0 {
            -self.count
        } else {
            0
        }
    }

    pub open spec fn with_count(count: int) -> SemaphoreState {
        SemaphoreState { count, waiters: Seq::empty() }
    }

    /// `tid` takes one unit: the count goes down, and below zero `tid` queues.
    pub open spec fn down(self, tid: usize) -> (SemaphoreState, bool) {
        if self.count - 1 < 0 {
            (SemaphoreState { count: self.count - 1, waiters: self.waiters.push(tid) }, false)
        } else {
            (SemaphoreState { count: self.count - 1, waiters: self.waiters }, true)
        }
    }

    /// One unit comes back: the count goes up, and the oldest waiter leaves the queue.
    pub open spec fn up(self) -> (SemaphoreState, Option<usize>) {
        if self.waiters.len() > 0 {
            (
                SemaphoreState { count: self.count + 1, waiters: self.waiters.drop_first() },
                Some(self.waiters[0]),
            )
        } else {
            (SemaphoreState { count: self.count + 1, waiters: self.waiters }, None)
        }
    }

    /// The state after the threads of `tids` have called `down`, in that order.
    pub open spec fn down_all(self, tids: Seq<usize>) -> SemaphoreState
        decreases tids.len(),
    {
        if tids.len() == 0 {
            self
        } else {
            self.down_all(tids.drop_last()).down(tids.last()).0
        }
    }

    /// The state after `n` calls of `up`.
    pub open spec fn up_times(self, n: nat) -> SemaphoreState
        decreases n,
    {
        if n == 0 {
            self
        } else {
            self.up_times((n - 1) as nat).up().0
        }
    }
}

/// A counting semaphore.
///
/// The units that are left and the queue are kept apart, so that no count can
/// overflow on `down`: the count of the model is `available` without waiters,
/// and minus the number of waiters with them.
pub struct Semaphore {
    available: usize,
    wait_queue: VecDeque<usize>,
}

impl View for Semaphore {
    type V = SemaphoreState;

    closed spec fn view(&self) -> SemaphoreState {
        SemaphoreState {
            count: if self.wait_queue@.len() > 0 {
                -(self.wait_queue@.len() as int)
            } else {
                self.available as int
            },
            waiters: self.wait_queue@,
        }
    }
}

impl Semaphore {
    pub closed spec fn wf(&self) -> bool {
        self.wait_queue@.len() > 0 ==> self.available == 0
    }

    pub proof fn lemma_wf(&self)
        requires
            self.wf(),
        ensures
            self@.wf(),
            self@.count <= usize::MAX,
    {
    }

    /// A semaphore with `res_count` units and nobody waiting.
    pub fn new(res_count: usize) -> (s: Self)
        ensures
            s@ == SemaphoreState::with_count(res_count as int),
            s.wf(),
    {
        Semaphore { available: res_count, wait_queue: VecDeque::new() }
    }

    /// The units that can be taken without waiting.
    pub fn available(&self) -> (n: usize)
        requires
            self.wf(),
        ensures
            n == if self@.count > 0 {
                self@.count
            } else {
                0
            },
    {
        self.available
    }

    /// The number of threads that wait.
    pub fn waiting(&self) -> (n: usize)
        ensures
            n == self@.waiters.len(),
    {
        self.wait_queue.len()
    }

    /// Takes `tid` off the queue of the semaphore, as if it had never asked
    /// for a unit.  `true` exactly when it waited.
    pub fn remove_waiter(&mut self, tid: usize) -> (found: bool)
        requires
            old(self).wf(),
        ensures
            final(self).wf(),
            found == old(self)@.waiters.contains(tid),
            final(self)@ == (SemaphoreState {
                waiters: without(old(self)@.waiters, tid),
                count: if found {
                    old(self)@.count + 1
                } else {
                    old(self)@.count
                },
            }),
    {
        proof {
            lemma_without(self.wait_queue@, tid);
        }
        remove_from_queue(&mut self.wait_queue, tid)
    }

    /// `tid` takes one unit.  `true`: it got one.  `false`: none was left,
    /// `tid` has been queued and must be blocked by the caller.
    pub fn down(&mut self, tid: usize) -> (acquired: bool)
        requires
            old(self).wf(),
        ensures
            (final(self)@, acquired) == old(self)@.down(tid),
            final(self).wf(),
    {
        if self.available > 0 {
            self.available = self.available - 1;
            true
        } else {
            self.wait_queue.push_back(tid);
            false
        }
    }

    /// Gives one unit back.  With waiters, the oldest one is handed back, to be
    /// made ready.
    pub fn up(&mut self) -> (woken: Option<usize>)
        requires
            old(self).wf(),
            old(self)@.count < usize::MAX,
        ensures
            (final(self)@, woken) == old(self)@.up(),
            final(self).wf(),
    {
        let next = self.wait_queue.pop_front();
        proof {
            if old(self)@.waiters.len() > 0 {
                assert(old(self)@.waiters.drop_first() =~= old(self)@.waiters.subrange(
                    1,
                    old(self)@.waiters.len() as int,
                ));
            }
        }
        if next.is_none() {
            self.available = self.available + 1;
        }
        next
    }
}

/// Threads that took `down` on a semaphore without units are woken by `up` in
/// the order in which they came: after the threads of `tids` have queued on a
/// semaphore that had no units and no waiters, the `i`-th call of `up` wakes
/// `tids[i]`.
pub proof fn lemma_semaphore_fifo(tids: Seq<usize>, i: int)
    requires
        0 <= i < tids.len(),
    ensures
        SemaphoreState::with_count(0).down_all(tids).up_times(i as nat).up().1 == Some(tids[i]),
{
    let s = SemaphoreState::with_count(0);
    lemma_down_all_queues(s, tids);
    lemma_up_times_drops(s.down_all(tids), i as nat);
}

/// Every `down` on a semaphore without units queues its caller behind the others.
pub proof fn lemma_down_all_queues(s: SemaphoreState, tids: Seq<usize>)
    requires
        s.wf(),
        s.count <= 0,
    ensures
        s.down_all(tids).wf(),
        s.down_all(tids).count == s.count - tids.len(),
        s.down_all(tids).waiters == s.waiters + tids,
    decreases tids.len(),
{
    if tids.len() == 0 {
        assert(s.waiters + tids =~= s.waiters);
    } else {
        lemma_down_all_queues(s, tids.drop_last());
        assert(s.waiters + tids =~= (s.waiters + tids.drop_last()).push(tids.last()));
    }
}

/// `n` calls of `up` on a semaphore with at least `n` waiters take the `n`
/// oldest ones off the queue.
pub proof fn lemma_up_times_drops(s: SemaphoreState, n: nat)
    requires
        s.wf(),
        n <= s.waiters.len(),
    ensures
        s.up_times(n).wf(),
        s.up_times(n).count == s.count + n,
        s.up_times(n).waiters == s.waiters.subrange(n as int, s.waiters.len() as int),
    decreases n,
{
    if n == 0 {
        assert(s.waiters.subrange(0, s.waiters.len() as int) =~= s.waiters);
    } else {
        lemma_up_times_drops(s, (n - 1) as nat);
        let t = s.up_times((n - 1) as nat);
        assert(t.waiters.drop_first() =~= s.waiters.subrange(n as int, s.waiters.len() as int));
    }
}

/// What a condition variable is: who waits on it, oldest first.
pub struct CondvarState {
    pub waiters: Seq<usize>,
}

impl CondvarState {
    pub open spec fn signal(self) -> (CondvarState, Option<usize>) {
        if self.waiters.len() > 0 {
            (CondvarState { waiters: self.waiters.drop_first() }, Some(self.waiters[0]))
        } else {
            (self, None)
        }
    }

    pub open spec fn wait(self, tid: usize) -> CondvarState {
        CondvarState { waiters: self.waiters.push(tid) }
    }
}

/// A condition variable.
pub struct Condvar {
    wait_queue: VecDeque<usize>,
}

impl View for Condvar {
    type V = CondvarState;

    closed spec fn view(&self) -> CondvarState {
        CondvarState { waiters: self.wait_queue@ }
    }
}

impl Condvar {
    pub fn new() -> (c: Self)
        ensures
            c@.waiters == Seq::<usize>::empty(),
    {
        Condvar { wait_queue: VecDeque::new() }
    }

    /// The number of threads that wait.
    pub fn waiting(&self) -> (n: usize)
        ensures
            n == self@.waiters.len(),
    {
        self.wait_queue.len()
    }

    /// Takes `tid` off the queue of the condition variable.  `true` exactly
    /// when it waited.
    pub fn remove_waiter(&mut self, tid: usize) -> (found: bool)
        ensures
            found == old(self)@.waiters.contains(tid),
            final(self)@ == (CondvarState { waiters: without(old(self)@.waiters, tid) }),
    {
        remove_from_queue(&mut self.wait_queue, tid)
    }

    /// Takes the oldest waiter off the queue and hands it back, to be made
    /// ready.  The woken thread holds no mutex: it has to lock again.
    pub fn signal(&mut self) -> (woken: Option<usize>)
        ensures
            (final(self)@, woken) == old(self)@.signal(),
    {
        let next = self.wait_queue.pop_front();
        proof {
            if old(self)@.waiters.len() > 0 {
                assert(old(self)@.waiters.drop_first() =~= old(self)@.waiters.subrange(
                    1,
                    old(self)@.waiters.len() as int,
                ));
            }
        }
        next
    }

    /// Queues `tid` on the condition variable; the caller must block it.
    /// Always `false`.
    pub fn wait_no_sched(&mut self, tid: usize) -> (proceed: bool)
        ensures
            !proceed,
            final(self)@ == old(self)@.wait(tid),
    {
        self.wait_queue.push_back(tid);
        false
    }

    /// In one step, releases `mutex` and queues `tid` on the condition
    /// variable.  The first result is always `false`: the caller must block
    /// `tid`.  The second is the thread to which the release handed the mutex,
    /// to be made ready.
    pub fn wait_with_mutex(&mut self, tid: usize, mutex: &mut MutexBlocking) -> (r: (
        bool,
        Option<usize>,
    ))
        requires
            old(mutex).wf(),
        ensures
            !r.0,
            (final(mutex)@, r.1) == old(mutex)@.unlock(),
            final(mutex).wf(),
            final(self)@ == old(self)@.wait(tid),
    {
        let woken = mutex.unlock();
        self.wait_queue.push_back(tid);
        (false, woken)
    }
}

} // verus!
