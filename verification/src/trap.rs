//! Why a thread came back to the kernel.
//!
//! The cause register names an interrupt or an exception by a number.  The
//! names are those of the `riscv` crate; the dispatcher only needs to tell the
//! timer, the devices and the system call from everything else.

use riscv::register::scause::{Exception, Interrupt};
use vstd::prelude::*;

verus! {

#[derive(Clone, Copy, PartialEq, Eq, Structural, Debug)]
pub enum InterruptKind {
    UserSoft,
    SupervisorSoft,
    UserTimer,
    SupervisorTimer,
    UserExternal,
    SupervisorExternal,
    Unknown,
}

#[derive(Clone, Copy, PartialEq, Eq, Structural, Debug)]
pub enum ExceptionKind {
    InstructionMisaligned,
    InstructionFault,
    IllegalInstruction,
    Breakpoint,
    LoadFault,
    StoreMisaligned,
    StoreFault,
    UserEnvCall,
    InstructionPageFault,
    LoadPageFault,
    StorePageFault,
    Unknown,
}

/// The interrupt that the code `nr` names.
pub open spec fn interrupt_named(nr: usize) -> InterruptKind {
    if nr == 0 {
        InterruptKind::UserSoft
    } else if nr == 1 {
        InterruptKind::SupervisorSoft
    } else if nr == 4 {
        InterruptKind::UserTimer
    } else if nr == 5 {
        InterruptKind::SupervisorTimer
    } else if nr == 8 {
        InterruptKind::UserExternal
    } else if nr == 9 {
        InterruptKind::SupervisorExternal
    } else {
        InterruptKind::Unknown
    }
}

/// The exception that the code `nr` names.
pub open spec fn exception_named(nr: usize) -> ExceptionKind {
    if nr == 0 {
        ExceptionKind::InstructionMisaligned
    } else if nr == 1 {
        ExceptionKind::InstructionFault
    } else if nr == 2 {
        ExceptionKind::IllegalInstruction
    } else if nr == 3 {
        ExceptionKind::Breakpoint
    } else if nr == 5 {
        ExceptionKind::LoadFault
    } else if nr == 6 {
        ExceptionKind::StoreMisaligned
    } else if nr == 7 {
        ExceptionKind::StoreFault
    } else if nr == 8 {
        ExceptionKind::UserEnvCall
    } else if nr == 12 {
        ExceptionKind::InstructionPageFault
    } else if nr == 13 {
        ExceptionKind::LoadPageFault
    } else if nr == 15 {
        ExceptionKind::StorePageFault
    } else {
        ExceptionKind::Unknown
    }
}

/// `Interrupt::from` of `riscv`: the interrupt that a code of the cause
/// register names; codes without a name give `Unknown`.
#[verifier::external_body]
fn interrupt_from(nr: usize) -> (kind: InterruptKind)
    ensures
        kind == interrupt_named(nr),
{
    match Interrupt::from(nr) {
        Interrupt::UserSoft => InterruptKind::UserSoft,
        Interrupt::SupervisorSoft => InterruptKind::SupervisorSoft,
        Interrupt::UserTimer => InterruptKind::UserTimer,
        Interrupt::SupervisorTimer => InterruptKind::SupervisorTimer,
        Interrupt::UserExternal => InterruptKind::UserExternal,
        Interrupt::SupervisorExternal => InterruptKind::SupervisorExternal,
        Interrupt::Unknown => InterruptKind::Unknown,
    }
}

/// `Exception::from` of `riscv`: the exception that a code of the cause
/// register names; codes without a name give `Unknown`.
#[verifier::external_body]
fn exception_from(nr: usize) -> (kind: ExceptionKind)
    ensures
        kind == exception_named(nr),
{
    match Exception::from(nr) {
        Exception::InstructionMisaligned => ExceptionKind::InstructionMisaligned,
        Exception::InstructionFault => ExceptionKind::InstructionFault,
        Exception::IllegalInstruction => ExceptionKind::IllegalInstruction,
        Exception::Breakpoint => ExceptionKind::Breakpoint,
        Exception::LoadFault => ExceptionKind::LoadFault,
        Exception::StoreMisaligned => ExceptionKind::StoreMisaligned,
        Exception::StoreFault => ExceptionKind::StoreFault,
        Exception::UserEnvCall => ExceptionKind::UserEnvCall,
        Exception::InstructionPageFault => ExceptionKind::InstructionPageFault,
        Exception::LoadPageFault => ExceptionKind::LoadPageFault,
        Exception::StorePageFault => ExceptionKind::StorePageFault,
        Exception::Unknown => ExceptionKind::Unknown,
    }
}

/// The cause of a trap.
#[derive(Clone, Copy, PartialEq, Eq, Structural, Debug)]
pub enum Trap {
    Interrupt(InterruptKind),
    Exception(ExceptionKind),
}

/// What the dispatcher makes of a trap.
#[derive(Clone, Copy, PartialEq, Eq, Structural, Debug)]
pub enum TrapClass {
    /// The time slice is over.
    Timer,
    /// A device asks for attention.
    Device,
    /// The thread asks the kernel for a service.
    Syscall,
    /// Anything else: the thread has done what it may not do, or the
    /// machine reports what the kernel does not expect.
    Fault,
}

impl Trap {
    /// The class of the trap.
    pub open spec fn class(self) -> TrapClass {
        match self {
            Trap::Interrupt(InterruptKind::SupervisorTimer) => TrapClass::Timer,
            Trap::Interrupt(InterruptKind::SupervisorExternal) => TrapClass::Device,
            Trap::Exception(ExceptionKind::UserEnvCall) => TrapClass::Syscall,
            _ => TrapClass::Fault,
        }
    }

    /// The cause that the register shows, given its interrupt bit and its code.
    pub open spec fn decoded(is_interrupt: bool, code: usize) -> Trap {
        if is_interrupt {
            Trap::Interrupt(interrupt_named(code))
        } else {
            Trap::Exception(exception_named(code))
        }
    }

    /// Reads the cause of a trap from the interrupt bit and the code of the
    /// cause register.
    pub fn decode(is_interrupt: bool, code: usize) -> (trap: Trap)
        ensures
            trap == Trap::decoded(is_interrupt, code),
    {
        if is_interrupt {
            Trap::Interrupt(interrupt_from(code))
        } else {
            Trap::Exception(exception_from(code))
        }
    }

    /// Tells the timer, the devices and the system call from everything else.
    pub fn classify(self) -> (class: TrapClass)
        ensures
            class == self.class(),
    {
        match self {
            Trap::Interrupt(InterruptKind::SupervisorTimer) => TrapClass::Timer,
            Trap::Interrupt(InterruptKind::SupervisorExternal) => TrapClass::Device,
            Trap::Exception(ExceptionKind::UserEnvCall) => TrapClass::Syscall,
            _ => TrapClass::Fault,
        }
    }
}

/// The length in bytes of the instruction whose first half word is `insn`:
/// four if its two lowest bits are set, two for a compressed one.
pub open spec fn instruction_length(insn: u16) -> usize {
    if insn % 4 == 3 {
        4
    } else {
        2
    }
}

/// The address of the instruction after the one at `pc` whose first half
/// word is `insn`; it wraps at the end of the address range.
pub fn next_instruction(pc: usize, insn: u16) -> (next: usize)
    ensures
        next == pc.wrapping_add(instruction_length(insn)),
{
    let len: usize = if insn % 4 == 3 {
        4
    } else {
        2
    };
    pc.wrapping_add(len)
}

/// Whether the interrupt request `irq` comes from one of the eight virtio
/// devices, whose interrupts the input devices acknowledge.
pub fn is_virtio_irq(irq: u32) -> (b: bool)
    ensures
        b == (1 <= irq <= 8),
{
    irq >= 1 && irq <= 8
}

} // verus!
