//! The system-call numbers, handles and clocks of the ABI, and what a call
//! can come to.
//!
//! The numbers are those of `tg_syscall`; this module takes each from there
//! and states its value.

use vstd::prelude::*;

verus! {

/// `SyscallId::EXIT` of `tg_syscall`: the number of the `exit` call, 93.
#[verifier::external_body]
fn syscall_id_exit() -> (id: usize)
    ensures
        id == 93,
{
    tg_syscall::SyscallId::EXIT.0
}

/// `SyscallId::SCHED_YIELD` of `tg_syscall`: the number of the `sched_yield`
/// call, 124.
#[verifier::external_body]
fn syscall_id_sched_yield() -> (id: usize)
    ensures
        id == 124,
{
    tg_syscall::SyscallId::SCHED_YIELD.0
}

/// `SyscallId::RT_SIGACTION` of `tg_syscall`: the number of the
/// `rt_sigaction` call, 134.
#[verifier::external_body]
fn syscall_id_rt_sigaction() -> (id: usize)
    ensures
        id == 134,
{
    tg_syscall::SyscallId::RT_SIGACTION.0
}

/// `SyscallId::RT_SIGRETURN` of `tg_syscall`: the number of the
/// `rt_sigreturn` call, 139.
#[verifier::external_body]
fn syscall_id_rt_sigreturn() -> (id: usize)
    ensures
        id == 139,
{
    tg_syscall::SyscallId::RT_SIGRETURN.0
}

/// `SyscallId::MUTEX_LOCK` of `tg_syscall`: the number of the `mutex_lock`
/// call, 1011.
#[verifier::external_body]
fn syscall_id_mutex_lock() -> (id: usize)
    ensures
        id == 1011,
{
    tg_syscall::SyscallId::MUTEX_LOCK.0
}

/// `SyscallId::SEMAPHORE_DOWN` of `tg_syscall`: the number of the
/// `semaphore_down` call, 1022.
#[verifier::external_body]
fn syscall_id_semaphore_down() -> (id: usize)
    ensures
        id == 1022,
{
    tg_syscall::SyscallId::SEMAPHORE_DOWN.0
}

/// `SyscallId::CONDVAR_WAIT` of `tg_syscall`: the number of the
/// `condvar_wait` call, 1032.
#[verifier::external_body]
fn syscall_id_condvar_wait() -> (id: usize)
    ensures
        id == 1032,
{
    tg_syscall::SyscallId::CONDVAR_WAIT.0
}

/// `STDIN` of `tg_syscall`: the handle of the console's input, 0.
#[verifier::external_body]
fn handle_stdin() -> (fd: usize)
    ensures
        fd == 0,
{
    tg_syscall::STDIN
}

/// `STDOUT` of `tg_syscall`: the handle of the console's output, 1.
#[verifier::external_body]
fn handle_stdout() -> (fd: usize)
    ensures
        fd == 1,
{
    tg_syscall::STDOUT
}

/// `STDDEBUG` of `tg_syscall`: the handle of the console's debug output, 2.
#[verifier::external_body]
fn handle_stddebug() -> (fd: usize)
    ensures
        fd == 2,
{
    tg_syscall::STDDEBUG
}

/// `ClockId::CLOCK_MONOTONIC` of `tg_syscall`: the number of the monotonic
/// clock, 1.
#[verifier::external_body]
fn clock_id_monotonic() -> (id: usize)
    ensures
        id == 1,
{
    tg_syscall::ClockId::CLOCK_MONOTONIC.0
}

/// `TimeSpec::from_millsecond` of `tg_syscall`: the whole seconds of a time
/// in milliseconds, and the rest in nanoseconds.
#[verifier::external_body]
fn timespec_from_millsecond(millsecond: usize) -> (t: (usize, usize))
    requires
        millsecond % 1000 * 1_000_000 <= usize::MAX,
    ensures
        t.0 == millsecond / 1000,
        t.1 == millsecond % 1000 * 1_000_000,
{
    let t = tg_syscall::TimeSpec::from_millsecond(millsecond);
    (t.tv_sec, t.tv_nsec)
}

pub const SYS_EXIT: usize = 93;

pub const SYS_SCHED_YIELD: usize = 124;

pub const SYS_RT_SIGACTION: usize = 134;

pub const SYS_RT_SIGRETURN: usize = 139;

pub const SYS_MUTEX_LOCK: usize = 1011;

pub const SYS_SEMAPHORE_DOWN: usize = 1022;

pub const SYS_CONDVAR_WAIT: usize = 1032;

pub const STDIN: usize = 0;

pub const STDOUT: usize = 1;

pub const STDDEBUG: usize = 2;

pub const CLOCK_MONOTONIC: usize = 1;

/// The kinds of system call that the dispatcher treats in a way of their own.
#[derive(Clone, Copy, PartialEq, Eq, Structural, Debug)]
pub enum SyscallKind {
    Exit,
    Yield,
    SigAction,
    SigReturn,
    /// `semaphore_down`, `mutex_lock` or `condvar_wait`: a call that may block.
    Blocking,
    Other,
}

/// The kind of the call with the number `id`.
pub open spec fn kind_of(id: usize) -> SyscallKind {
    if id == SYS_EXIT {
        SyscallKind::Exit
    } else if id == SYS_SCHED_YIELD {
        SyscallKind::Yield
    } else if id == SYS_RT_SIGACTION {
        SyscallKind::SigAction
    } else if id == SYS_RT_SIGRETURN {
        SyscallKind::SigReturn
    } else if id == SYS_SEMAPHORE_DOWN || id == SYS_MUTEX_LOCK || id == SYS_CONDVAR_WAIT {
        SyscallKind::Blocking
    } else {
        SyscallKind::Other
    }
}

/// The kind of the call with the number `id`.
pub fn classify(id: usize) -> (kind: SyscallKind)
    ensures
        kind == kind_of(id),
{
    if id == syscall_id_exit() {
        SyscallKind::Exit
    } else if id == syscall_id_sched_yield() {
        SyscallKind::Yield
    } else if id == syscall_id_rt_sigaction() {
        SyscallKind::SigAction
    } else if id == syscall_id_rt_sigreturn() {
        SyscallKind::SigReturn
    } else if id == syscall_id_semaphore_down() || id == syscall_id_mutex_lock() || id
        == syscall_id_condvar_wait() {
        SyscallKind::Blocking
    } else {
        SyscallKind::Other
    }
}

/// Whether `fd` is one of the console's output handles.
pub fn is_console_output(fd: usize) -> (b: bool)
    ensures
        b == (fd == STDOUT || fd == STDDEBUG),
{
    fd == handle_stdout() || fd == handle_stddebug()
}

/// Whether `fd` is the console's input handle.
pub fn is_console_input(fd: usize) -> (b: bool)
    ensures
        b == (fd == STDIN),
{
    fd == handle_stdin()
}

/// Whether `clock_id` names the monotonic clock, the one clock that is served.
pub fn is_monotonic(clock_id: usize) -> (b: bool)
    ensures
        b == (clock_id == CLOCK_MONOTONIC),
{
    clock_id == clock_id_monotonic()
}

/// What the handlers made of a system call.
#[derive(Clone, Copy, PartialEq, Eq, Structural, Debug)]
pub enum SyscallResult {
    /// The call was served; the value goes to the caller.
    Done(isize),
    /// No handler serves calls of this number.
    Unsupported(usize),
}

/// A time in seconds and nanoseconds.
#[derive(Clone, Copy, PartialEq, Eq, Structural, Debug)]
pub struct TimeSpec {
    pub tv_sec: usize,
    pub tv_nsec: usize,
}

/// The nanoseconds of a second.
pub const NANOS: usize = 1_000_000_000;

/// The ticks of the machine's timer are 80 nanoseconds long: 10000 / 125.
pub const TICK_SCALE_UP: usize = 10000;

pub const TICK_SCALE_DOWN: usize = 125;

/// The time that the timer shows after `ticks` ticks.
pub open spec fn time_of_ticks(ticks: usize) -> TimeSpec {
    let nanos = ticks * TICK_SCALE_UP / (TICK_SCALE_DOWN as int);
    TimeSpec { tv_sec: (nanos / (NANOS as int)) as usize,
        tv_nsec: (nanos % (NANOS as int)) as usize }
}

/// The monotonic time after `ticks` ticks of the timer.  `None` when the
/// count of nanoseconds would not fit a machine word.
pub fn clock_time(ticks: usize) -> (r: Option<TimeSpec>)
    ensures
        r is Some <==> ticks * TICK_SCALE_UP <= usize::MAX,
        r is Some ==> r->0 == time_of_ticks(ticks),
{
    match ticks.checked_mul(TICK_SCALE_UP) {
        None => None,
        Some(scaled) => {
            let nanos = scaled / TICK_SCALE_DOWN;
            Some(TimeSpec { tv_sec: nanos / NANOS, tv_nsec: nanos % NANOS })
        },
    }
}

/// The time in milliseconds that `t` shows, as the user library reports it.
pub open spec fn millis_of(t: TimeSpec) -> int {
    t.tv_sec * 1000 + t.tv_nsec / 1_000_000
}

/// The time `t` in milliseconds.  `None` when it does not fit.
pub fn get_time(t: TimeSpec) -> (r: Option<isize>)
    ensures
        r is Some <==> millis_of(t) <= isize::MAX,
        r is Some ==> r->0 == millis_of(t),
{
    let nanos_part = t.tv_nsec / 1_000_000;
    match t.tv_sec.checked_mul(1000) {
        None => None,
        Some(ms) => match ms.checked_add(nanos_part) {
            None => None,
            Some(total) => if total <= isize::MAX as usize {
                Some(total as isize)
            } else {
                None
            },
        },
    }
}

/// The sum of two times: seconds and nanoseconds are added, and a count of
/// nanoseconds above a second is carried over once.
pub open spec fn time_sum(a: TimeSpec, b: TimeSpec) -> TimeSpec {
    if a.tv_nsec + b.tv_nsec > NANOS {
        TimeSpec {
            tv_sec: (a.tv_sec + b.tv_sec + 1) as usize,
            tv_nsec: (a.tv_nsec + b.tv_nsec - NANOS) as usize,
        }
    } else {
        TimeSpec { tv_sec: (a.tv_sec + b.tv_sec) as usize, tv_nsec: (a.tv_nsec
            + b.tv_nsec) as usize }
    }
}

/// Whether time `a` is later than time `b`: by the seconds, and among equal
/// seconds by the nanoseconds.
pub open spec fn later(a: TimeSpec, b: TimeSpec) -> bool {
    a.tv_sec > b.tv_sec || (a.tv_sec == b.tv_sec && a.tv_nsec > b.tv_nsec)
}

/// The time until which a sleep of `period_ms` milliseconds that starts at
/// `now` lasts.  `None` when it does not fit.
pub fn sleep_deadline(now: TimeSpec, period_ms: usize) -> (r: Option<TimeSpec>)
    ensures
        r is Some <==> now.tv_sec + period_ms / 1000 + 1 <= usize::MAX && now.tv_nsec + period_ms
            % 1000 * 1_000_000 <= usize::MAX,
        r is Some ==> r->0 == time_sum(
            now,
            TimeSpec {
                tv_sec: period_ms / 1000,
                tv_nsec: (period_ms % 1000 * 1_000_000) as usize,
            },
        ),
{
    assert(period_ms % 1000 * 1_000_000 <= 999_000_000);
    let (sec, nsec) = timespec_from_millsecond(period_ms);
    let tv_sec = match now.tv_sec.checked_add(sec) {
        None => {
            return None;
        },
        Some(s) => s,
    };
    if tv_sec == usize::MAX {
        return None;
    }
    let tv_nsec = match now.tv_nsec.checked_add(nsec) {
        None => {
            return None;
        },
        Some(n) => n,
    };
    if tv_nsec > NANOS {
        Some(TimeSpec { tv_sec: tv_sec + 1, tv_nsec: tv_nsec - NANOS })
    } else {
        Some(TimeSpec { tv_sec, tv_nsec })
    }
}

/// Whether a sleep until `deadline` is over at `now`: only once `now` is
/// later than the deadline.
pub fn sleep_is_over(now: TimeSpec, deadline: TimeSpec) -> (over: bool)
    ensures
        over == later(now, deadline),
{
    now.tv_sec > deadline.tv_sec || (now.tv_sec == deadline.tv_sec && now.tv_nsec
        > deadline.tv_nsec)
}

/// What a trace request that reads a byte of memory came to: the byte, if the
/// answer is one.
pub fn trace_read(ret: isize) -> (r: Option<u8>)
    ensures
        r == if 0 <= ret <= 255 {
            Some(ret as u8)
        } else {
            None
        },
{
    if ret >= 0 && ret <= 255 {
        Some(ret as u8)
    } else {
        None
    }
}

} // verus!
