use tg_kernel::batch::{draw_request, handle_syscall, move_next_insn, SyscallOutcome};
use tg_kernel::context::{register_from, signed_from, Context};
use tg_kernel::syscall::{
    classify, clock_time, get_time, is_console_input, is_console_output, is_monotonic,
    sleep_deadline, sleep_is_over, trace_read, SyscallKind, SyscallResult, TimeSpec,
};
use tg_kernel::task::{select, SchedulingEvent, TaskControlBlock};
use tg_kernel::trap::{
    is_virtio_irq, next_instruction, ExceptionKind, InterruptKind, Trap, TrapClass,
};

#[test]
fn user_context_starts_clean() {
    let c = Context::user(0x1000);
    assert_eq!(c.pc(), 0x1000);
    assert_eq!(c.sp(), 0);
    for n in 0..8 {
        assert_eq!(c.a(n), 0);
    }
}

#[test]
fn context_registers_are_independent() {
    let mut c = Context::user(0x8000_0000);
    c.set_a(0, 11);
    c.set_a(7, 93);
    c.set_sp(0x9000);
    assert_eq!(c.a(0), 11);
    assert_eq!(c.a(7), 93);
    assert_eq!(c.a(1), 0);
    assert_eq!(c.sp(), 0x9000);
    assert_eq!(c.pc(), 0x8000_0000);
    c.move_next();
    assert_eq!(c.pc(), 0x8000_0004);
    assert_eq!(c.a(0), 11);
    let copy = c.duplicate();
    c.set_pc(5);
    c.set_a(0, 1);
    assert_eq!(copy.pc(), 0x8000_0004);
    assert_eq!(copy.a(0), 11);
    assert_eq!(copy.sp(), 0x9000);
    assert_eq!(copy.syscall_id(), 93);
    assert_eq!(copy.syscall_args(), [11, 0, 0, 0, 0, 0]);
}

#[test]
fn move_next_wraps_at_the_end_of_memory() {
    let mut c = Context::user(usize::MAX - 1);
    c.move_next();
    assert_eq!(c.pc(), 2);
}

#[test]
fn results_are_written_in_twos_complement() {
    assert_eq!(register_from(0), 0);
    assert_eq!(register_from(3), 3);
    assert_eq!(register_from(-1), usize::MAX);
    assert_eq!(register_from(-3), usize::MAX - 2);
    assert_eq!(register_from(isize::MIN), isize::MAX as usize + 1);
    assert_eq!(signed_from(usize::MAX), -1);
    assert_eq!(signed_from(7), 7);
    assert_eq!(signed_from(isize::MAX as usize + 1), isize::MIN);
}

#[test]
fn system_calls_are_told_apart_by_number() {
    assert_eq!(classify(93), SyscallKind::Exit);
    assert_eq!(classify(124), SyscallKind::Yield);
    assert_eq!(classify(134), SyscallKind::SigAction);
    assert_eq!(classify(139), SyscallKind::SigReturn);
    assert_eq!(classify(1011), SyscallKind::Blocking);
    assert_eq!(classify(1022), SyscallKind::Blocking);
    assert_eq!(classify(1032), SyscallKind::Blocking);
    assert_eq!(classify(64), SyscallKind::Other);
    assert_eq!(classify(1012), SyscallKind::Other);
    assert_eq!(classify(tg_syscall::SyscallId::EXIT.0), SyscallKind::Exit);
    assert_eq!(classify(tg_syscall::SyscallId::MUTEX_LOCK.0), SyscallKind::Blocking);
    assert!(is_console_output(1) && is_console_output(2) && !is_console_output(0));
    assert!(is_console_input(0) && !is_console_input(1));
    assert!(is_monotonic(1) && !is_monotonic(0));
}

#[test]
fn batch_finishes_a_served_call() {
    let mut c = Context::user(0x100);
    c.set_a(7, 64);
    c.set_a(0, 1);
    // an uncompressed instruction: the two low bits are set
    assert_eq!(handle_syscall(&mut c, SyscallResult::Done(3), 0x0073), SyscallOutcome::Done);
    assert_eq!(c.a(0), 3);
    assert_eq!(c.pc(), 0x104);
    // a compressed one
    assert_eq!(handle_syscall(&mut c, SyscallResult::Done(-1), 0x9002), SyscallOutcome::Done);
    assert_eq!(c.a(0), usize::MAX);
    assert_eq!(c.pc(), 0x106);
}

#[test]
fn batch_exit_and_unsupported_leave_the_context() {
    let mut c = Context::user(0x100);
    c.set_a(7, 93);
    c.set_a(0, 42);
    assert_eq!(handle_syscall(&mut c, SyscallResult::Done(0), 0x0073), SyscallOutcome::Exit(42));
    assert_eq!(c.pc(), 0x100);
    c.set_a(7, 9999);
    assert_eq!(
        handle_syscall(&mut c, SyscallResult::Unsupported(9999), 0x0073),
        SyscallOutcome::Error(9999)
    );
    assert_eq!(c.pc(), 0x100);
    assert_eq!(c.a(0), 42);
}

#[test]
fn batch_draw_call_answers_zero() {
    let mut c = Context::user(0x100);
    c.set_a(7, 500);
    c.set_a(0, 7);
    assert_eq!(draw_request(&c), Some(7));
    assert_eq!(
        handle_syscall(&mut c, SyscallResult::Unsupported(500), 0x0073),
        SyscallOutcome::Done
    );
    assert_eq!(c.a(0), 0);
    assert_eq!(c.pc(), 0x104);
    assert_eq!(draw_request(&c), Some(0));
    c.set_a(7, 64);
    assert_eq!(draw_request(&c), None);
    move_next_insn(&mut c, 0x0001);
    assert_eq!(c.pc(), 0x106);
    assert_eq!(next_instruction(usize::MAX, 3), 3);
}

#[test]
fn task_system_calls_become_events() {
    let mut t = TaskControlBlock::new(0x2000, 0x9000);
    assert_eq!(t.context().sp(), 0x9000);
    assert_eq!(t.context().pc(), 0x2000);
    let mut c = t.context().duplicate();
    c.set_a(7, 124);
    t.set_context(c);
    assert_eq!(t.handle_syscall(SyscallResult::Done(0)), SchedulingEvent::Yield);
    assert_eq!(t.context().pc(), 0x2004);
    let mut c = t.context().duplicate();
    c.set_a(7, 93);
    c.set_a(0, 5);
    t.set_context(c);
    assert_eq!(t.handle_syscall(SyscallResult::Done(0)), SchedulingEvent::Exit(5));
    assert_eq!(t.context().pc(), 0x2004);
    let mut c = t.context().duplicate();
    c.set_a(7, 64);
    t.set_context(c);
    assert_eq!(t.handle_syscall(SyscallResult::Done(12)), SchedulingEvent::Continue);
    assert_eq!(t.context().a(0), 12);
    assert_eq!(t.context().pc(), 0x2008);
    assert_eq!(
        t.handle_syscall(SyscallResult::Unsupported(64)),
        SchedulingEvent::UnsupportedSyscall(64)
    );
    assert_eq!(t.context().pc(), 0x2008);
}

#[test]
fn task_signal_handler_runs_on_a_saved_context() {
    let mut t = TaskControlBlock::new(0x2000, 0x9000);
    let mut c = t.context().duplicate();
    c.set_a(7, 134);
    c.set_a(1, 0x3000);
    t.set_context(c);
    assert_eq!(t.handle_syscall(SyscallResult::Done(0)), SchedulingEvent::Continue);
    assert_eq!(t.signal_handler, Some(0x3000));
    assert_eq!(t.context().a(0), 0);
    assert_eq!(t.context().pc(), 0x2004);
    // no signal: resuming changes nothing
    t.execute();
    assert_eq!(t.context().pc(), 0x2004);
    assert!(!t.in_handler());
    // a device interrupt from the input device raises the signal
    assert!(!t.after_trap(TrapClass::Device, SchedulingEvent::Continue, true));
    assert!(t.signal_pending);
    t.execute();
    assert!(!t.signal_pending);
    assert!(t.in_handler());
    assert_eq!(t.context().pc(), 0x3000);
    // a second signal while the handler runs is dropped
    t.signal_pending = true;
    t.execute();
    assert!(!t.signal_pending);
    assert_eq!(t.context().pc(), 0x3000);
    // the handler returns
    let mut c = t.context().duplicate();
    c.set_a(7, 139);
    t.set_context(c);
    assert_eq!(t.handle_syscall(SyscallResult::Done(0)), SchedulingEvent::Continue);
    assert!(!t.in_handler());
    assert_eq!(t.context().pc(), 0x2004);
    assert_eq!(t.context().a(7), 134);
    t.sigreturn();
    assert_eq!(t.context().pc(), 0x2004);
}

#[test]
fn task_traps_decide_the_turn() {
    let mut t = TaskControlBlock::new(0x2000, 0x9000);
    assert!(!t.after_trap(TrapClass::Timer, SchedulingEvent::Continue, false));
    assert!(!t.finish);
    assert!(t.after_trap(TrapClass::Syscall, SchedulingEvent::Continue, false));
    assert!(!t.after_trap(TrapClass::Syscall, SchedulingEvent::Yield, false));
    assert!(!t.finish);
    assert!(!t.after_trap(TrapClass::Device, SchedulingEvent::Continue, false));
    assert!(!t.signal_pending);
    assert!(!t.after_trap(TrapClass::Syscall, SchedulingEvent::Exit(0), false));
    assert!(t.finish);
    t.init(0x4000, 0x5000);
    assert!(!t.finish);
    assert_eq!(t.context().pc(), 0x4000);
    assert!(!t.after_trap(TrapClass::Fault, SchedulingEvent::Continue, false));
    assert!(t.finish);
    t.init(0x4000, 0x5000);
    assert!(!t.after_trap(TrapClass::Syscall, SchedulingEvent::UnsupportedSyscall(1), false));
    assert!(t.finish);
}

#[test]
fn round_robin_skips_finished_tasks() {
    let mut tasks = vec![
        TaskControlBlock::new(1, 1),
        TaskControlBlock::new(2, 2),
        TaskControlBlock::new(3, 3),
    ];
    assert_eq!(select(&tasks, 0), Some(0));
    assert_eq!(select(&tasks, 2), Some(2));
    tasks[2].finish = true;
    assert_eq!(select(&tasks, 2), Some(0));
    tasks[0].finish = true;
    assert_eq!(select(&tasks, 2), Some(1));
    assert_eq!(select(&tasks, 1), Some(1));
    tasks[1].finish = true;
    assert_eq!(select(&tasks, 1), None);
    assert_eq!(select(&Vec::new(), 0), None);
}

#[test]
fn cause_register_is_decoded() {
    assert_eq!(Trap::decode(true, 5), Trap::Interrupt(InterruptKind::SupervisorTimer));
    assert_eq!(Trap::decode(true, 9), Trap::Interrupt(InterruptKind::SupervisorExternal));
    assert_eq!(Trap::decode(true, 1), Trap::Interrupt(InterruptKind::SupervisorSoft));
    assert_eq!(Trap::decode(true, 7), Trap::Interrupt(InterruptKind::Unknown));
    assert_eq!(Trap::decode(false, 8), Trap::Exception(ExceptionKind::UserEnvCall));
    assert_eq!(Trap::decode(false, 2), Trap::Exception(ExceptionKind::IllegalInstruction));
    assert_eq!(Trap::decode(false, 13), Trap::Exception(ExceptionKind::LoadPageFault));
    assert_eq!(Trap::decode(false, 15), Trap::Exception(ExceptionKind::StorePageFault));
    assert_eq!(Trap::decode(false, 5), Trap::Exception(ExceptionKind::LoadFault));
    assert_eq!(Trap::decode(false, 4), Trap::Exception(ExceptionKind::Unknown));
    assert_eq!(Trap::decode(true, 5).classify(), TrapClass::Timer);
    assert_eq!(Trap::decode(true, 9).classify(), TrapClass::Device);
    assert_eq!(Trap::decode(false, 8).classify(), TrapClass::Syscall);
    assert_eq!(Trap::decode(false, 13).classify(), TrapClass::Fault);
    assert_eq!(Trap::decode(true, 1).classify(), TrapClass::Fault);
    assert!(is_virtio_irq(1) && is_virtio_irq(8) && !is_virtio_irq(0) && !is_virtio_irq(9));
}

#[test]
fn timer_ticks_become_time() {
    // 12.5 million ticks of 80 ns are one second
    assert_eq!(clock_time(12_500_000), Some(TimeSpec { tv_sec: 1, tv_nsec: 0 }));
    assert_eq!(clock_time(1), Some(TimeSpec { tv_sec: 0, tv_nsec: 80 }));
    assert_eq!(clock_time(12_500_001), Some(TimeSpec { tv_sec: 1, tv_nsec: 80 }));
    assert_eq!(clock_time(usize::MAX), None);
    assert_eq!(get_time(TimeSpec { tv_sec: 2, tv_nsec: 345_678_901 }), Some(2345));
    assert_eq!(get_time(TimeSpec { tv_sec: usize::MAX, tv_nsec: 0 }), None);
    assert_eq!(trace_read(0), Some(0));
    assert_eq!(trace_read(255), Some(255));
    assert_eq!(trace_read(256), None);
    assert_eq!(trace_read(-1), None);
}

#[test]
fn sleep_lasts_until_after_the_deadline() {
    let now = TimeSpec { tv_sec: 10, tv_nsec: 900_000_000 };
    let deadline = sleep_deadline(now, 1200).unwrap();
    assert_eq!(deadline, TimeSpec { tv_sec: 12, tv_nsec: 100_000_000 });
    assert!(!sleep_is_over(now, deadline));
    assert!(!sleep_is_over(deadline, deadline));
    assert!(sleep_is_over(TimeSpec { tv_sec: 12, tv_nsec: 100_000_001 }, deadline));
    assert!(sleep_is_over(TimeSpec { tv_sec: 13, tv_nsec: 0 }, deadline));
    // a sum of exactly one second of nanoseconds is not carried over
    assert_eq!(
        sleep_deadline(TimeSpec { tv_sec: 1, tv_nsec: 500_000_000 }, 500),
        Some(TimeSpec { tv_sec: 1, tv_nsec: 1_000_000_000 })
    );
    assert_eq!(sleep_deadline(TimeSpec { tv_sec: usize::MAX, tv_nsec: 0 }, 1), None);
}
