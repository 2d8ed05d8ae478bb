use tg_kernel::sync::{Condvar, MutexBlocking, Semaphore};

#[test]
fn semaphore_wakes_in_arrival_order() {
    let mut sem = Semaphore::new(0);
    assert!(!sem.down(1));
    assert!(!sem.down(2));
    assert!(!sem.down(3));
    assert_eq!(sem.waiting(), 3);
    assert_eq!(sem.up(), Some(1));
    assert_eq!(sem.up(), Some(2));
    assert_eq!(sem.up(), Some(3));
    assert_eq!(sem.up(), None);
    assert_eq!(sem.available(), 1);
}

#[test]
fn semaphore_counts_units() {
    let mut sem = Semaphore::new(2);
    assert!(sem.down(7));
    assert!(sem.down(8));
    assert_eq!(sem.available(), 0);
    assert!(!sem.down(9));
    assert_eq!(sem.waiting(), 1);
    assert_eq!(sem.up(), Some(9));
    assert_eq!(sem.waiting(), 0);
    assert_eq!(sem.available(), 0);
}

#[test]
fn mutex_hands_over_without_a_free_window() {
    let mut m = MutexBlocking::new();
    assert!(!m.is_locked());
    assert!(m.lock(4));
    assert_eq!(m.holder(), Some(4));
    assert!(!m.lock(5));
    assert!(!m.lock(6));
    assert_eq!(m.holder(), Some(4));
    assert_eq!(m.unlock(), Some(5));
    assert!(m.is_locked());
    assert_eq!(m.holder(), Some(5));
    assert_eq!(m.unlock(), Some(6));
    assert_eq!(m.unlock(), None);
    assert!(!m.is_locked());
    assert_eq!(m.unlock(), None);
}

#[test]
fn condvar_wait_releases_the_mutex_and_queues_the_caller() {
    let mut m = MutexBlocking::new();
    let mut c = Condvar::new();
    assert!(m.lock(1));
    assert!(!m.lock(2));
    let (proceed, woken) = c.wait_with_mutex(1, &mut m);
    assert!(!proceed);
    assert_eq!(woken, Some(2));
    assert_eq!(m.holder(), Some(2));
    assert_eq!(c.waiting(), 1);
    assert_eq!(c.signal(), Some(1));
    assert_eq!(m.holder(), Some(2));
    assert_eq!(c.signal(), None);
}

#[test]
fn condvar_wait_frees_an_uncontended_mutex() {
    let mut m = MutexBlocking::new();
    let mut c = Condvar::new();
    assert!(m.lock(1));
    let (proceed, woken) = c.wait_with_mutex(1, &mut m);
    assert!(!proceed);
    assert_eq!(woken, None);
    assert!(!m.is_locked());
    assert!(!c.wait_no_sched(3));
    assert_eq!(c.signal(), Some(1));
    assert_eq!(c.signal(), Some(3));
}
