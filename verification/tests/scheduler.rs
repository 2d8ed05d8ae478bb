use tg_kernel::context::Context;
use tg_kernel::processor::{Processor, ThreadState, WaitTarget};

fn with_threads(n: usize) -> Processor {
    let mut p = Processor::new();
    for i in 0..n {
        assert_eq!(p.add(0, Context::user(0x1000 + i), 7), Some(i));
    }
    p
}

#[test]
fn ready_queue_is_round_robin() {
    let mut p = with_threads(3);
    assert_eq!(p.thread_count(), 3);
    assert_eq!(p.current(), None);
    assert_eq!(p.find_next(), Some(0));
    assert_eq!(p.state(0), Some(ThreadState::Running));
    // while a thread runs, it is the one that is found
    assert_eq!(p.find_next(), Some(0));
    p.make_current_suspend();
    assert_eq!(p.state(0), Some(ThreadState::Ready));
    assert_eq!(p.find_next(), Some(1));
    p.make_current_suspend();
    assert_eq!(p.find_next(), Some(2));
    p.make_current_suspend();
    assert_eq!(p.find_next(), Some(0));
    assert_eq!(p.context(0).pc(), 0x1000);
    assert_eq!(p.satp(0), Some(7));
    assert_eq!(p.pid_of(2), Some(0));
    assert_eq!(p.pid_of(3), None);
    assert_eq!(p.state(3), None);
}

#[test]
fn exited_thread_never_runs_again() {
    let mut p = with_threads(2);
    assert_eq!(p.find_next(), Some(0));
    p.make_current_exited(-3);
    assert_eq!(p.state(0), Some(ThreadState::Zombie(-3)));
    assert_eq!(p.current(), None);
    assert_eq!(p.find_next(), Some(1));
    p.make_current_exited(9);
    assert_eq!(p.find_next(), None);
    assert_eq!(p.state(1), Some(ThreadState::Zombie(9)));
    // without a running thread these change nothing
    p.make_current_exited(1);
    p.make_current_suspend();
    assert_eq!(p.ready_count(), 0);
}

#[test]
fn blocked_thread_is_invisible_until_unlock_names_it() {
    let mut p = with_threads(2);
    let m = p.mutex_create().unwrap();
    assert_eq!(p.find_next(), Some(0));
    assert_eq!(p.mutex_lock(m), Some(true));
    assert_eq!(p.mutex_holder(m), Some(0));
    p.make_current_suspend();
    assert_eq!(p.find_next(), Some(1));
    assert_eq!(p.mutex_lock(m), Some(false));
    assert_eq!(p.state(1), Some(ThreadState::Blocked(WaitTarget::Mutex(m))));
    assert_eq!(p.current(), None);
    assert!(!p.is_ready(1));
    // only thread 0 is scheduled, however often the queue goes round
    for _ in 0..5 {
        assert_eq!(p.find_next(), Some(0));
        assert!(!p.is_ready(1));
        p.make_current_suspend();
    }
    assert_eq!(p.find_next(), Some(0));
    assert_eq!(p.mutex_unlock(m), Some(Some(1)));
    assert!(p.is_ready(1));
    assert_eq!(p.mutex_holder(m), Some(1));
    p.make_current_suspend();
    assert_eq!(p.find_next(), Some(1));
    assert_eq!(p.mutex_unlock(m), Some(None));
    assert_eq!(p.mutex_holder(m), None);
}

#[test]
fn mutex_keeps_a_counter_exact() {
    // N threads each do M times: lock; read; yield; write back; unlock.
    // The yield inside the critical section would lose updates without the mutex.
    const N: usize = 4;
    const M: usize = 5;
    let mut p = with_threads(N);
    let m = p.mutex_create().unwrap();
    let mut counter = 0usize;
    let mut phase = [0usize; N]; // 0: wants lock, 1: holds and has read, 2: done
    let mut seen = [0usize; N];
    let mut rounds = [0usize; N];
    let mut holder: Option<usize> = None;
    let mut steps = 0;
    while let Some(t) = p.find_next() {
        steps += 1;
        assert!(steps < 10_000);
        match phase[t] {
            0 => match p.mutex_lock(m) {
                Some(true) => {
                    assert_eq!(holder, None);
                    holder = Some(t);
                    seen[t] = counter;
                    phase[t] = 1;
                    p.make_current_suspend();
                }
                Some(false) => {
                    // blocked: it owns the mutex when it runs again
                    assert!(holder.is_some() && holder != Some(t));
                    phase[t] = 3;
                }
                None => panic!("no such mutex"),
            },
            3 => {
                // woken as the new holder
                assert_eq!(p.mutex_holder(m), Some(t));
                assert_eq!(holder, None);
                holder = Some(t);
                seen[t] = counter;
                phase[t] = 1;
                p.make_current_suspend();
            }
            1 => {
                assert_eq!(holder, Some(t));
                assert_eq!(p.mutex_holder(m), Some(t));
                counter = seen[t] + 1;
                holder = None;
                p.mutex_unlock(m).unwrap();
                rounds[t] += 1;
                if rounds[t] == M {
                    p.make_current_exited(0);
                } else {
                    phase[t] = 0;
                    p.make_current_suspend();
                }
            }
            _ => unreachable!(),
        }
    }
    assert_eq!(counter, N * M);
    for t in 0..N {
        assert_eq!(p.state(t), Some(ThreadState::Zombie(0)));
    }
}

#[test]
fn semaphore_wakes_threads_in_order() {
    let mut p = with_threads(4);
    let s = p.semaphore_create(0).unwrap();
    for t in 0..3 {
        assert_eq!(p.find_next(), Some(t));
        assert_eq!(p.semaphore_down(s), Some(false));
        assert_eq!(p.state(t), Some(ThreadState::Blocked(WaitTarget::Semaphore(s))));
    }
    assert_eq!(p.find_next(), Some(3));
    assert_eq!(p.semaphore_up(s), Some(Some(0)));
    assert_eq!(p.semaphore_up(s), Some(Some(1)));
    assert_eq!(p.semaphore_up(s), Some(Some(2)));
    assert_eq!(p.semaphore_up(s), Some(None));
    assert_eq!(p.semaphore_down(s), Some(true));
    p.make_current_suspend();
    assert_eq!(p.find_next(), Some(0));
    p.make_current_suspend();
    assert_eq!(p.find_next(), Some(1));
}

#[test]
fn condvar_wait_releases_and_signal_does_not_relock() {
    let mut p = with_threads(2);
    let m = p.mutex_create().unwrap();
    let c = p.condvar_create().unwrap();
    assert_eq!(p.find_next(), Some(0));
    assert_eq!(p.mutex_lock(m), Some(true));
    assert_eq!(p.condvar_wait(c, m), Some((false, None)));
    assert_eq!(p.state(0), Some(ThreadState::Blocked(WaitTarget::Condvar(c))));
    assert_eq!(p.mutex_holder(m), None);
    assert_eq!(p.find_next(), Some(1));
    assert_eq!(p.mutex_lock(m), Some(true));
    assert_eq!(p.condvar_signal(c), Some(Some(0)));
    assert_eq!(p.state(0), Some(ThreadState::Ready));
    // the woken thread does not hold the mutex
    assert_eq!(p.mutex_holder(m), Some(1));
    assert_eq!(p.condvar_signal(c), Some(None));
    p.make_current_suspend();
    assert_eq!(p.find_next(), Some(0));
    assert_eq!(p.mutex_lock(m), Some(false));
}

#[test]
fn condvar_wait_hands_the_mutex_on() {
    let mut p = with_threads(2);
    let m = p.mutex_create().unwrap();
    let c = p.condvar_create().unwrap();
    assert_eq!(p.find_next(), Some(0));
    assert_eq!(p.mutex_lock(m), Some(true));
    p.make_current_suspend();
    assert_eq!(p.find_next(), Some(1));
    assert_eq!(p.mutex_lock(m), Some(false));
    assert_eq!(p.find_next(), Some(0));
    assert_eq!(p.condvar_wait(c, m), Some((false, Some(1))));
    assert_eq!(p.mutex_holder(m), Some(1));
    assert_eq!(p.state(1), Some(ThreadState::Ready));
    assert_eq!(p.find_next(), Some(1));
}

#[test]
fn calls_on_missing_objects_change_nothing() {
    let mut p = with_threads(1);
    assert_eq!(p.mutex_lock(0), None);
    assert_eq!(p.find_next(), Some(0));
    assert_eq!(p.mutex_lock(0), None);
    assert_eq!(p.mutex_unlock(0), None);
    assert_eq!(p.semaphore_down(0), None);
    assert_eq!(p.semaphore_up(0), None);
    assert_eq!(p.condvar_signal(0), None);
    assert_eq!(p.condvar_wait(0, 0), None);
    let m = p.mutex_create().unwrap();
    assert_eq!(p.condvar_wait(0, m), None);
    assert_eq!(p.state(0), Some(ThreadState::Running));
    assert_eq!(p.mutex_count(), 1);
    assert_eq!(p.semaphore_count(), 0);
    assert_eq!(p.condvar_count(), 0);
    let s = p.semaphore_create(usize::MAX).unwrap();
    assert_eq!(p.semaphore_up(s), None);
}

#[test]
fn killed_thread_leaves_its_queue() {
    let mut p = with_threads(4);
    let m = p.mutex_create().unwrap();
    let s = p.semaphore_create(0).unwrap();
    assert_eq!(p.find_next(), Some(0));
    assert_eq!(p.mutex_lock(m), Some(true));
    p.make_current_suspend();
    assert_eq!(p.find_next(), Some(1));
    assert_eq!(p.mutex_lock(m), Some(false));
    assert_eq!(p.find_next(), Some(2));
    assert_eq!(p.mutex_lock(m), Some(false));
    assert_eq!(p.find_next(), Some(3));
    assert_eq!(p.semaphore_down(s), Some(false));
    // thread 1 is killed while it waits for the mutex
    p.kill(1, -9);
    assert_eq!(p.state(1), Some(ThreadState::Zombie(-9)));
    assert_eq!(p.find_next(), Some(0));
    assert_eq!(p.mutex_unlock(m), Some(Some(2)));
    assert_eq!(p.mutex_unlock(m), Some(None));
    // thread 3 is killed on the semaphore: its down is undone
    p.kill(3, -9);
    assert_eq!(p.semaphore_up(s), Some(None));
    assert_eq!(p.semaphore_down(s), Some(true));
    // a ready thread is killed
    assert!(p.is_ready(2));
    p.kill(2, -9);
    assert!(!p.is_ready(2));
    // the running thread is killed
    p.kill(0, -9);
    assert_eq!(p.current(), None);
    assert_eq!(p.find_next(), None);
    // killing again keeps the first code
    p.kill(0, 5);
    assert_eq!(p.state(0), Some(ThreadState::Zombie(-9)));
    p.kill(77, 5);
}

#[test]
fn saved_registers_can_be_changed_by_thread() {
    let mut p = with_threads(2);
    p.set_a(1, 0, 99);
    p.move_next(1);
    assert_eq!(p.context(1).a(0), 99);
    assert_eq!(p.context(1).pc(), 0x1005);
    assert_eq!(p.context(0).a(0), 0);
    p.set_context(0, Context::user(0x7000));
    assert_eq!(p.context(0).pc(), 0x7000);
    assert_eq!(p.state(0), Some(ThreadState::Ready));
}

#[test]
fn chains_of_waiting_are_followed_to_their_end() {
    let mut p = Processor::new();
    for _ in 0..3 {
        p.add(0, Context::user(0), 0);
    }
    let a = p.mutex_create().unwrap();
    let b = p.mutex_create().unwrap();
    let c = p.mutex_create().unwrap();
    // thread 0 holds a and waits for b; thread 1 holds b and waits for c;
    // thread 2 holds c and runs
    assert_eq!(p.find_next(), Some(0));
    assert_eq!(p.mutex_lock(a), Some(true));
    p.make_current_suspend();
    assert_eq!(p.find_next(), Some(1));
    assert_eq!(p.mutex_lock(b), Some(true));
    p.make_current_suspend();
    assert_eq!(p.find_next(), Some(2));
    assert_eq!(p.mutex_lock(c), Some(true));
    assert!(p.would_deadlock(c));
    assert!(!p.would_deadlock(a));
    p.make_current_suspend();
    assert_eq!(p.find_next(), Some(0));
    assert!(!p.would_deadlock(b));
    assert_eq!(p.mutex_lock(b), Some(false));
    assert_eq!(p.find_next(), Some(1));
    assert!(!p.would_deadlock(c));
    assert!(p.would_deadlock(b));
    assert_eq!(p.mutex_lock(c), Some(false));
    assert_eq!(p.find_next(), Some(2));
    // a is held by 0, which waits for 1, which waits for 2
    assert!(p.would_deadlock(a));
    assert!(p.would_deadlock(b));
    assert!(p.would_deadlock(c));
    assert!(!p.would_deadlock(9));
    assert!(!p.detects(0));
    p.set_detecting(2, true);
    assert!(p.detects(2));
    assert!(!p.detects(0) && !p.detects(1) && !p.detects(3));
    p.set_detecting(0, true);
    p.set_detecting(2, false);
    assert!(p.detects(0) && !p.detects(2));
}
