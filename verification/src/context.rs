//! Execution contexts: the saved register file of one suspended thread.
//!
//! The registers live in a `LocalContext` of `tg_kernel_context`, which is also
//! what resumes a thread.  This module gives that type a model and states what
//! each of its accessors does to it.

use tg_kernel_context::LocalContext;
use vstd::prelude::*;

verus! {

/// `tg_kernel_context::LocalContext`, carried as an opaque value.
#[verifier::external_type_specification]
#[verifier::external_body]
pub struct ExLocalContext(tg_kernel_context::LocalContext);

/// The general registers `x1` to `x31` that a `LocalContext` holds, `x1` first.
pub uninterp spec fn local_context_regs(c: LocalContext) -> Seq<usize>;

/// The program counter that a `LocalContext` holds.
pub uninterp spec fn local_context_pc(c: LocalContext) -> usize;

/// The privilege bit of a `LocalContext`: whether it resumes in supervisor mode.
pub uninterp spec fn local_context_supervisor(c: LocalContext) -> bool;

/// The interrupt bit of a `LocalContext`: whether it resumes with interrupts on.
pub uninterp spec fn local_context_interrupt(c: LocalContext) -> bool;

/// The number of general registers that are saved (`x0` is not).
pub const REGISTERS: usize = 31;

/// The number of argument registers `a0` to `a7`.
pub const ARGUMENT_REGISTERS: usize = 8;

/// The index of `a0` among the saved registers.
pub const A0: usize = 9;

/// The index of the stack pointer among the saved registers.
pub const SP: usize = 1;

/// The length of an uncompressed instruction, by which a system call is skipped.
pub const INSTRUCTION_BYTES: usize = 4;

/// What an execution context is.
pub struct ContextState {
    pub regs: Seq<usize>,
    pub pc: usize,
    pub supervisor: bool,
    pub interrupt: bool,
}

impl ContextState {
    pub open spec fn wf(self) -> bool {
        self.regs.len() == REGISTERS
    }

    /// A fresh user context: all registers zero, user mode, interrupts on.
    pub open spec fn user(pc: usize) -> ContextState {
        ContextState {
            regs: Seq::new(REGISTERS as nat, |i: int| 0usize),
            pc,
            supervisor: false,
            interrupt: true,
        }
    }

    pub open spec fn a(self, n: int) -> usize {
        self.regs[A0 + n]
    }

    pub open spec fn sp(self) -> usize {
        self.regs[SP as int]
    }

    pub open spec fn set_a(self, n: int, value: usize) -> ContextState {
        ContextState { regs: self.regs.update(A0 + n, value), ..self }
    }

    pub open spec fn set_sp(self, value: usize) -> ContextState {
        ContextState { regs: self.regs.update(SP as int, value), ..self }
    }

    pub open spec fn set_pc(self, pc: usize) -> ContextState {
        ContextState { pc, ..self }
    }

    /// The counter after it has been moved past one uncompressed instruction;
    /// it wraps at the end of the address range.
    pub open spec fn next_pc(self) -> usize {
        if self.pc + INSTRUCTION_BYTES > usize::MAX {
            (self.pc + INSTRUCTION_BYTES - usize::MAX - 1) as usize
        } else {
            (self.pc + INSTRUCTION_BYTES) as usize
        }
    }

    pub open spec fn move_next(self) -> ContextState {
        self.set_pc(self.next_pc())
    }
}

/// `LocalContext::user`: the context that enters user code at `pc`, with all
/// registers zero, the privilege bit off and the interrupt bit on.
#[verifier::external_body]
fn local_context_user(pc: usize) -> (c: LocalContext)
    ensures
        local_context_regs(c) == Seq::new(REGISTERS as nat, |i: int| 0usize),
        local_context_pc(c) == pc,
        !local_context_supervisor(c),
        local_context_interrupt(c),
{
    LocalContext::user(pc)
}

/// `LocalContext::a`: reads argument register `n`, which is `x(n + 10)`.
/// Outside `a0` to `a7` the call would leave the argument registers, and from
/// `a22` on it would index past the register file.
#[verifier::external_body]
fn local_context_a(c: &LocalContext, n: usize) -> (value: usize)
    requires
        n < ARGUMENT_REGISTERS,
    ensures
        value == local_context_regs(*c)[A0 + n],
{
    c.a(n)
}

/// `LocalContext::a_mut`: writes argument register `n` and nothing else.
#[verifier::external_body]
fn local_context_set_a(c: &mut LocalContext, n: usize, value: usize)
    requires
        n < ARGUMENT_REGISTERS,
    ensures
        local_context_regs(*final(c)) == local_context_regs(*old(c)).update(A0 + n, value),
        local_context_pc(*final(c)) == local_context_pc(*old(c)),
        local_context_supervisor(*final(c)) == local_context_supervisor(*old(c)),
        local_context_interrupt(*final(c)) == local_context_interrupt(*old(c)),
{
    *c.a_mut(n) = value;
}

/// `LocalContext::sp`: reads the stack pointer, which is `x2`.
#[verifier::external_body]
fn local_context_sp(c: &LocalContext) -> (value: usize)
    ensures
        value == local_context_regs(*c)[SP as int],
{
    c.sp()
}

/// `LocalContext::sp_mut`: writes the stack pointer and nothing else.
#[verifier::external_body]
fn local_context_set_sp(c: &mut LocalContext, value: usize)
    ensures
        local_context_regs(*final(c)) == local_context_regs(*old(c)).update(SP as int, value),
        local_context_pc(*final(c)) == local_context_pc(*old(c)),
        local_context_supervisor(*final(c)) == local_context_supervisor(*old(c)),
        local_context_interrupt(*final(c)) == local_context_interrupt(*old(c)),
{
    *c.sp_mut() = value;
}

/// `LocalContext::pc`: reads the program counter.
#[verifier::external_body]
fn local_context_get_pc(c: &LocalContext) -> (value: usize)
    ensures
        value == local_context_pc(*c),
{
    c.pc()
}

/// `LocalContext::pc_mut`: writes the program counter and nothing else.
#[verifier::external_body]
fn local_context_set_pc(c: &mut LocalContext, value: usize)
    ensures
        local_context_pc(*final(c)) == value,
        local_context_regs(*final(c)) == local_context_regs(*old(c)),
        local_context_supervisor(*final(c)) == local_context_supervisor(*old(c)),
        local_context_interrupt(*final(c)) == local_context_interrupt(*old(c)),
{
    *c.pc_mut() = value;
}

/// `LocalContext::clone`: a copy that holds the same registers, counter and bits.
#[verifier::external_body]
fn local_context_clone(c: &LocalContext) -> (copy: LocalContext)
    ensures
        local_context_regs(copy) == local_context_regs(*c),
        local_context_pc(copy) == local_context_pc(*c),
        local_context_supervisor(copy) == local_context_supervisor(*c),
        local_context_interrupt(copy) == local_context_interrupt(*c),
{
    c.clone()
}

/// What the `LocalContext` `c` holds.
pub open spec fn local_context_state(c: LocalContext) -> ContextState {
    ContextState {
        regs: local_context_regs(c),
        pc: local_context_pc(c),
        supervisor: local_context_supervisor(c),
        interrupt: local_context_interrupt(c),
    }
}

/// The saved register file of one thread.
pub struct Context {
    inner: LocalContext,
}

impl View for Context {
    type V = ContextState;

    closed spec fn view(&self) -> ContextState {
        local_context_state(self.inner)
    }
}

impl Context {
    pub open spec fn wf(&self) -> bool {
        self@.wf()
    }

    /// The context of a thread that starts in user mode at `entry`.
    pub fn user(entry: usize) -> (c: Self)
        ensures
            c@ == ContextState::user(entry),
            c.wf(),
    {
        Context { inner: local_context_user(entry) }
    }

    /// The context that holds what `inner` holds.
    pub fn from_local(inner: LocalContext) -> (c: Self)
        ensures
            c@ == local_context_state(inner),
    {
        Context { inner }
    }

    /// The registers as the `LocalContext` that resumes the thread.
    pub fn into_local(self) -> (inner: LocalContext)
        ensures
            local_context_state(inner) == self@,
    {
        self.inner
    }

    /// Argument register `n`.
    pub fn a(&self, n: usize) -> (value: usize)
        requires
            n < ARGUMENT_REGISTERS,
        ensures
            value == self@.a(n as int),
    {
        local_context_a(&self.inner, n)
    }

    /// Writes argument register `n`.
    pub fn set_a(&mut self, n: usize, value: usize)
        requires
            n < ARGUMENT_REGISTERS,
        ensures
            final(self)@ == old(self)@.set_a(n as int, value),
            old(self).wf() ==> final(self).wf(),
    {
        local_context_set_a(&mut self.inner, n, value);
    }

    /// The stack pointer.
    pub fn sp(&self) -> (value: usize)
        ensures
            value == self@.sp(),
    {
        local_context_sp(&self.inner)
    }

    /// Writes the stack pointer.
    pub fn set_sp(&mut self, value: usize)
        ensures
            final(self)@ == old(self)@.set_sp(value),
            old(self).wf() ==> final(self).wf(),
    {
        local_context_set_sp(&mut self.inner, value);
    }

    /// The program counter.
    pub fn pc(&self) -> (value: usize)
        ensures
            value == self@.pc,
    {
        local_context_get_pc(&self.inner)
    }

    /// Writes the program counter.
    pub fn set_pc(&mut self, value: usize)
        ensures
            final(self)@ == old(self)@.set_pc(value),
            old(self).wf() ==> final(self).wf(),
    {
        local_context_set_pc(&mut self.inner, value);
    }

    /// Moves the program counter past the instruction that trapped, taken to
    /// be an uncompressed one.
    pub fn move_next(&mut self)
        ensures
            final(self)@ == old(self)@.move_next(),
            old(self).wf() ==> final(self).wf(),
    {
        let pc = local_context_get_pc(&self.inner);
        local_context_set_pc(&mut self.inner, pc.wrapping_add(INSTRUCTION_BYTES));
    }

    /// A copy of the context, as it is kept while a signal handler runs.
    pub fn duplicate(&self) -> (copy: Self)
        ensures
            copy@ == self@,
    {
        Context { inner: local_context_clone(&self.inner) }
    }

    /// The six arguments of a system call, `a0` to `a5`.
    pub fn syscall_args(&self) -> (args: [usize; 6])
        ensures
            forall|i: int| 0 <= i < 6 ==> args[i] == self@.a(i),
    {
        [self.a(0), self.a(1), self.a(2), self.a(3), self.a(4), self.a(5)]
    }

    /// The number of the system call that was asked for, from `a7`.
    pub fn syscall_id(&self) -> (id: usize)
        ensures
            id == self@.a(7),
    {
        self.a(7)
    }
}

/// The register value that stands for the signed result `value` of a system
/// call: the value itself, and for a negative one its two's complement.
pub open spec fn register_of(value: isize) -> usize {
    if value >= 0 {
        value as usize
    } else {
        (usize::MAX + 1 + value) as usize
    }
}

/// The register value that stands for the signed result `value`.
pub fn register_from(value: isize) -> (r: usize)
    ensures
        r == register_of(value),
{
    if value >= 0 {
        value as usize
    } else {
        let below = (-(value + 1)) as usize;
        usize::MAX - below
    }
}

/// The signed result that the register value `r` stands for.
pub open spec fn signed_of(r: usize) -> isize {
    if r <= isize::MAX {
        r as isize
    } else {
        (r - usize::MAX - 1) as isize
    }
}

/// The signed value that the register value `r` stands for.
pub fn signed_from(r: usize) -> (value: isize)
    ensures
        value == signed_of(r),
        register_of(value) == r,
{
    if r <= isize::MAX as usize {
        r as isize
    } else {
        let below = usize::MAX - r;
        -(below as isize) - 1
    }
}

} // verus!
