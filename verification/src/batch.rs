//! The batch system: user programs run one after the other, and each system
//! call of the running one is finished here.

use crate::context::{register_of, Context, ContextState};
use crate::context::register_from;
use crate::syscall::{classify, kind_of, SyscallKind, SyscallResult};
use crate::trap::{instruction_length, next_instruction};
use vstd::prelude::*;

verus! {

/// The number of the call by which a program asks for one piece of the
/// picture to be drawn.
pub const SYS_DRAW_PIECE: usize = 500;

/// What becomes of the program after a system call.
#[derive(Clone, Copy, PartialEq, Eq, Structural, Debug)]
pub enum SyscallOutcome {
    /// The call is finished and the program runs on.
    Done,
    /// The program has asked to exit, with this code.
    Exit(usize),
    /// The program has asked for a call that is not served.
    Error(usize),
}

/// The context after a call has been finished with the result `value`: the
/// result is in `a0` and the counter has moved past the call instruction,
/// whose first half word is `insn` and which may be a compressed one.
pub open spec fn finished(c: ContextState, value: usize, insn: u16) -> ContextState {
    c.set_a(0, value).set_pc(c.pc.wrapping_add(instruction_length(insn)))
}

/// What the batch system makes of a system call, and the context afterwards.
///
/// For the call that draws a piece the result is zero, whatever `result`
/// holds.  A call to exit ends the program with the code of its first
/// argument and leaves the context alone, as does a call that is not served.
pub open spec fn handled(c: ContextState, result: SyscallResult, insn: u16) -> (
    SyscallOutcome,
    ContextState,
) {
    let id = c.a(7);
    if id == SYS_DRAW_PIECE {
        (SyscallOutcome::Done, finished(c, 0, insn))
    } else {
        match result {
            SyscallResult::Done(ret) => if kind_of(id) == SyscallKind::Exit {
                (SyscallOutcome::Exit(c.a(0)), c)
            } else {
                (SyscallOutcome::Done, finished(c, register_of(ret), insn))
            },
            SyscallResult::Unsupported(unsupported) => (SyscallOutcome::Error(unsupported), c),
        }
    }
}

/// The piece that the program asks to be drawn, if its call is the one that
/// draws a piece.
pub fn draw_request(ctx: &Context) -> (piece: Option<usize>)
    ensures
        piece == if ctx@.a(7) == SYS_DRAW_PIECE {
            Some(ctx@.a(0))
        } else {
            None
        },
{
    if ctx.a(7) == SYS_DRAW_PIECE {
        Some(ctx.a(0))
    } else {
        None
    }
}

/// Moves the counter past the instruction that trapped, whose first half
/// word is `insn`: by four bytes, or by two for a compressed instruction.
pub fn move_next_insn(ctx: &mut Context, insn: u16)
    ensures
        final(ctx)@ == old(ctx)@.set_pc(old(ctx)@.pc.wrapping_add(instruction_length(insn))),
{
    let pc = ctx.pc();
    ctx.set_pc(next_instruction(pc, insn));
}

/// Finishes the system call that the program in `ctx` has made.  `result` is
/// what the handlers made of the call and `insn` the first half word of the
/// call instruction.
pub fn handle_syscall(ctx: &mut Context, result: SyscallResult, insn: u16) -> (outcome:
    SyscallOutcome)
    ensures
        (outcome, final(ctx)@) == handled(old(ctx)@, result, insn),
{
    let id = ctx.a(7);
    if id == SYS_DRAW_PIECE {
        ctx.set_a(0, 0);
        move_next_insn(ctx, insn);
        return SyscallOutcome::Done;
    }
    match result {
        SyscallResult::Done(ret) => match classify(id) {
            SyscallKind::Exit => SyscallOutcome::Exit(ctx.a(0)),
            _ => {
                ctx.set_a(0, register_from(ret));
                move_next_insn(ctx, insn);
                SyscallOutcome::Done
            },
        },
        SyscallResult::Unsupported(unsupported) => SyscallOutcome::Error(unsupported),
    }
}

} // verus!
