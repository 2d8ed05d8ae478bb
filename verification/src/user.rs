//! What the user library decides between two system calls.
//!
//! Reading a pipe to the end, filling a buffer with random bytes or
//! measuring how much work fits into a span of time are loops around a
//! system call.  Each turn of such a loop is one decision, made here from
//! the answer of the call.

use vstd::prelude::*;

verus! {

/// The answer of a pipe that has nothing to give or cannot take more now.
pub const TRY_AGAIN: isize = -2;

/// What a loop that moves a buffer through a pipe does next.
#[derive(Clone, Copy, PartialEq, Eq, Structural, Debug)]
pub enum PipeStep {
    /// The loop is over, with this answer.
    Return(isize),
    /// The call is made again after the processor has been given up.
    Retry,
    /// The call is made again for the rest of the buffer, of which this
    /// many bytes are done.
    Continue(usize),
}

/// The next step of reading `len` bytes from a pipe, of which `total` are
/// read, before the next call: the loop is over once the buffer is full.
pub open spec fn pipe_done(total: usize, len: usize) -> Option<isize> {
    if total >= len {
        Some(total as isize)
    } else {
        None
    }
}

/// Whether all is moved that was to be moved; then the answer is the number
/// of bytes.
pub fn pipe_finished(total: usize, len: usize) -> (r: Option<isize>)
    requires
        total <= isize::MAX,
    ensures
        r == pipe_done(total, len),
{
    if total >= len {
        Some(total as isize)
    } else {
        None
    }
}

/// The step after a `read` on a pipe has answered `ret`, when `total` of
/// `len` bytes had been read: -2 means to try again, 0 that the writing end
/// is closed, another negative number is an error, and a positive one the
/// number of bytes that came.
pub open spec fn pipe_read_next(total: usize, len: usize, ret: isize) -> PipeStep {
    if ret == TRY_AGAIN {
        PipeStep::Retry
    } else if ret == 0 {
        PipeStep::Return(total as isize)
    } else if ret < 0 {
        PipeStep::Return(ret)
    } else if total + ret <= len {
        PipeStep::Continue((total + ret) as usize)
    } else {
        PipeStep::Continue(len)
    }
}

/// Decides how the reading of a pipe goes on after a `read` has answered `ret`.
pub fn pipe_read(total: usize, len: usize, ret: isize) -> (step: PipeStep)
    requires
        total <= len,
        total <= isize::MAX,
    ensures
        step == pipe_read_next(total, len, ret),
{
    if ret == TRY_AGAIN {
        PipeStep::Retry
    } else if ret == 0 {
        PipeStep::Return(total as isize)
    } else if ret < 0 {
        PipeStep::Return(ret)
    } else if ret as usize <= len - total {
        PipeStep::Continue(total + ret as usize)
    } else {
        PipeStep::Continue(len)
    }
}

/// The step after a `write` on a pipe has answered `ret`, when `total` of
/// `len` bytes had been written: -2 means to try again, another negative
/// number is an error, and any other the number of bytes that went.
pub open spec fn pipe_write_next(total: usize, len: usize, ret: isize) -> PipeStep {
    if ret == TRY_AGAIN {
        PipeStep::Retry
    } else if ret < 0 {
        PipeStep::Return(ret)
    } else if total + ret <= len {
        PipeStep::Continue((total + ret) as usize)
    } else {
        PipeStep::Continue(len)
    }
}

/// Decides how the writing of a pipe goes on after a `write` has answered `ret`.
pub fn pipe_write(total: usize, len: usize, ret: isize) -> (step: PipeStep)
    requires
        total <= len,
    ensures
        step == pipe_write_next(total, len, ret),
{
    if ret == TRY_AGAIN {
        PipeStep::Retry
    } else if ret < 0 {
        PipeStep::Return(ret)
    } else if ret as usize <= len - total {
        PipeStep::Continue(total + ret as usize)
    } else {
        PipeStep::Continue(len)
    }
}

/// How many bytes are filled after the source of random bytes has answered
/// a request for the rest of a buffer of `len` bytes of which `count` were
/// filled: `Ok(n)` adds `n` bytes, and an error ends the filling.  The
/// second part says whether another request is made.
pub open spec fn entropy_next(count: usize, len: usize, answer: Result<usize, ()>) -> (usize,
    bool) {
    match answer {
        Ok(n) => if count + n < len {
            ((count + n) as usize, true)
        } else {
            (len, false)
        },
        Err(_) => (count, false),
    }
}

/// Decides how the filling of a buffer with random bytes goes on.
pub fn entropy_step(count: usize, len: usize, answer: Result<usize, ()>) -> (r: (usize, bool))
    requires
        count <= len,
    ensures
        r == entropy_next(count, len, answer),
{
    match answer {
        Ok(n) => if n < len - count {
            (count + n, true)
        } else {
            (len, false)
        },
        Err(_) => (count, false),
    }
}

/// The span of time, in milliseconds, over which work is counted.
pub const MAX_TIME: isize = 4000;

/// After how many turns the clock is read.
pub const CLOCK_EVERY: usize = 400;

/// Whether the clock is to be read after `acc` turns of work.
pub fn reads_clock(acc: usize) -> (b: bool)
    ensures
        b == (acc % CLOCK_EVERY == 0),
{
    acc % CLOCK_EVERY == 0
}

/// Whether the counting of work is over, `elapsed` milliseconds after its start.
pub fn counting_over(elapsed: isize) -> (b: bool)
    ensures
        b == (elapsed > MAX_TIME),
{
    elapsed > MAX_TIME
}

} // verus!
