//! Tasks of the time-sharing system: a fixed set of programs that take turns,
//! each with its registers, its signal handler and a flag that says whether
//! it is done.

use crate::context::{register_from, register_of, Context, ContextState};
use crate::syscall::{classify, kind_of, SyscallKind, SyscallResult};
use crate::trap::TrapClass;
use vstd::arithmetic::div_mod::{lemma_mod_add_multiples_vanish, lemma_small_mod};
use vstd::prelude::*;

verus! {

/// What the main loop is to do with a task after a system call.
#[derive(Clone, Copy, PartialEq, Eq, Structural, Debug)]
pub enum SchedulingEvent {
    /// The call is finished; the task runs on.
    Continue,
    /// The task gives the processor up.
    Yield,
    /// The task has asked to exit, with this code.
    Exit(usize),
    /// The task has asked for a call that is not served.
    UnsupportedSyscall(usize),
}

/// What a task is.
pub struct TaskState {
    pub ctx: ContextState,
    pub finish: bool,
    pub signal_handler: Option<usize>,
    pub signal_pending: bool,
    pub saved_ctx: Option<ContextState>,
}

impl TaskState {
    /// A task that starts at `entry` with its stack at `stack_top`.
    pub open spec fn init(entry: usize, stack_top: usize) -> TaskState {
        TaskState {
            ctx: ContextState::user(entry).set_sp(stack_top),
            finish: false,
            signal_handler: None,
            signal_pending: false,
            saved_ctx: None,
        }
    }

    /// The task as it is resumed: a pending signal is delivered, if a
    /// handler is registered and none runs, by keeping a copy of the
    /// registers and entering the handler; a pending signal is forgotten
    /// either way.
    pub open spec fn execute(self) -> TaskState {
        if self.signal_pending {
            if self.signal_handler is Some && self.saved_ctx is None {
                TaskState {
                    saved_ctx: Some(self.ctx),
                    ctx: self.ctx.set_pc(self.signal_handler->0),
                    signal_pending: false,
                    ..self
                }
            } else {
                TaskState { signal_pending: false, ..self }
            }
        } else {
            self
        }
    }

    /// The task after its handler has returned: the registers that were kept
    /// are back.  Without a kept copy nothing changes.
    pub open spec fn sigreturn(self) -> TaskState {
        match self.saved_ctx {
            Some(ctx) => TaskState { ctx, saved_ctx: None, ..self },
            None => self,
        }
    }

    /// The task after a call has been finished with the result `value`.
    pub open spec fn finished(self, value: usize) -> TaskState {
        TaskState { ctx: self.ctx.set_a(0, value).move_next(), ..self }
    }

    /// What the system makes of a system call of the task, and the task afterwards.
    pub open spec fn handle_syscall(self, result: SyscallResult) -> (SchedulingEvent, TaskState) {
        let id = self.ctx.a(7);
        match result {
            SyscallResult::Done(ret) => match kind_of(id) {
                SyscallKind::Exit => (SchedulingEvent::Exit(self.ctx.a(0)), self),
                SyscallKind::Yield => (SchedulingEvent::Yield, self.finished(register_of(ret))),
                SyscallKind::SigAction => (
                    SchedulingEvent::Continue,
                    TaskState { signal_handler: Some(self.ctx.a(1)), ..self }.finished(0),
                ),
                SyscallKind::SigReturn => (SchedulingEvent::Continue, self.sigreturn()),
                _ => (SchedulingEvent::Continue, self.finished(register_of(ret))),
            },
            SyscallResult::Unsupported(_) => (SchedulingEvent::UnsupportedSyscall(id), self),
        }
    }

    /// What the main loop does after the task has trapped: whether the task
    /// is done, and whether the same task runs again at once.  `event` is
    /// what came of the system call, for a trap that is one, and `input`
    /// whether a device interrupt came from an input device.
    pub open spec fn after_trap(self, class: TrapClass, event: SchedulingEvent, input: bool) -> (
        TaskState,
        bool,
    ) {
        match class {
            TrapClass::Timer => (self, false),
            TrapClass::Device => (
                TaskState { signal_pending: self.signal_pending || input, ..self },
                false,
            ),
            TrapClass::Syscall => match event {
                SchedulingEvent::Continue => (self, true),
                SchedulingEvent::Yield => (self, false),
                SchedulingEvent::Exit(_) => (TaskState { finish: true, ..self }, false),
                SchedulingEvent::UnsupportedSyscall(_) => (
                    TaskState { finish: true, ..self },
                    false,
                ),
            },
            TrapClass::Fault => (TaskState { finish: true, ..self }, false),
        }
    }
}

/// The control block of one task.
pub struct TaskControlBlock {
    ctx: Context,
    /// Whether the task has exited or has been killed.
    pub finish: bool,
    /// The entry of the registered signal handler.
    pub signal_handler: Option<usize>,
    /// Whether a signal waits to be delivered.
    pub signal_pending: bool,
    saved_ctx: Option<Context>,
}

impl View for TaskControlBlock {
    type V = TaskState;

    closed spec fn view(&self) -> TaskState {
        TaskState {
            ctx: self.ctx@,
            finish: self.finish,
            signal_handler: self.signal_handler,
            signal_pending: self.signal_pending,
            saved_ctx: match self.saved_ctx {
                Some(c) => Some(c@),
                None => None,
            },
        }
    }
}

impl TaskControlBlock {
    /// A task that starts at `entry` with its stack at `stack_top`.
    pub fn new(entry: usize, stack_top: usize) -> (tcb: Self)
        ensures
            tcb@ == TaskState::init(entry, stack_top),
    {
        let mut ctx = Context::user(entry);
        ctx.set_sp(stack_top);
        TaskControlBlock {
            ctx,
            finish: false,
            signal_handler: None,
            signal_pending: false,
            saved_ctx: None,
        }
    }

    /// Makes the task start afresh at `entry` with its stack at `stack_top`.
    pub fn init(&mut self, entry: usize, stack_top: usize)
        ensures
            final(self)@ == TaskState::init(entry, stack_top),
    {
        let mut ctx = Context::user(entry);
        ctx.set_sp(stack_top);
        self.ctx = ctx;
        self.finish = false;
        self.signal_handler = None;
        self.signal_pending = false;
        self.saved_ctx = None;
    }

    /// The registers of the task.
    pub fn context(&self) -> (c: &Context)
        ensures
            c@ == self@.ctx,
    {
        &self.ctx
    }

    /// Takes the registers with which the task came back from user mode.
    pub fn set_context(&mut self, ctx: Context)
        ensures
            final(self)@ == (TaskState { ctx: ctx@, ..old(self)@ }),
    {
        self.ctx = ctx;
    }

    /// Whether a handler runs, that is, whether a copy of the registers is kept.
    pub fn in_handler(&self) -> (b: bool)
        ensures
            b == self@.saved_ctx is Some,
    {
        self.saved_ctx.is_some()
    }

    /// Prepares the task to be resumed: delivers a pending signal to the
    /// registered handler, unless a handler runs already.
    pub fn execute(&mut self)
        ensures
            final(self)@ == old(self)@.execute(),
    {
        if self.signal_pending {
            if let Some(handler) = self.signal_handler {
                if self.saved_ctx.is_none() {
                    self.saved_ctx = Some(self.ctx.duplicate());
                    self.ctx.set_pc(handler);
                }
            }
            self.signal_pending = false;
        }
    }

    /// Returns from the signal handler: the registers that were kept are back.
    pub fn sigreturn(&mut self)
        ensures
            final(self)@ == old(self)@.sigreturn(),
    {
        if let Some(ctx) = self.saved_ctx.take() {
            self.ctx = ctx;
        }
    }

    /// Finishes the system call that the task has made.  `result` is what the
    /// handlers made of the call.
    pub fn handle_syscall(&mut self, result: SyscallResult) -> (event: SchedulingEvent)
        ensures
            (event, final(self)@) == old(self)@.handle_syscall(result),
    {
        let id = self.ctx.a(7);
        match result {
            SyscallResult::Done(ret) => match classify(id) {
                SyscallKind::Exit => SchedulingEvent::Exit(self.ctx.a(0)),
                SyscallKind::Yield => {
                    self.ctx.set_a(0, register_from(ret));
                    self.ctx.move_next();
                    SchedulingEvent::Yield
                },
                SyscallKind::SigAction => {
                    self.signal_handler = Some(self.ctx.a(1));
                    self.ctx.set_a(0, 0);
                    self.ctx.move_next();
                    SchedulingEvent::Continue
                },
                SyscallKind::SigReturn => {
                    self.sigreturn();
                    SchedulingEvent::Continue
                },
                _ => {
                    self.ctx.set_a(0, register_from(ret));
                    self.ctx.move_next();
                    SchedulingEvent::Continue
                },
            },
            SyscallResult::Unsupported(_) => SchedulingEvent::UnsupportedSyscall(id),
        }
    }

    /// Takes note of what a trap means for the task.  `true`: the same task
    /// runs again at once.  `false`: it is the next task's turn.
    pub fn after_trap(&mut self, class: TrapClass, event: SchedulingEvent, input: bool) -> (again:
        bool)
        ensures
            (final(self)@, again) == old(self)@.after_trap(class, event, input),
    {
        match class {
            TrapClass::Timer => false,
            TrapClass::Device => {
                if input {
                    self.signal_pending = true;
                }
                false
            },
            TrapClass::Syscall => match event {
                SchedulingEvent::Continue => true,
                SchedulingEvent::Yield => false,
                SchedulingEvent::Exit(_) => {
                    self.finish = true;
                    false
                },
                SchedulingEvent::UnsupportedSyscall(_) => {
                    self.finish = true;
                    false
                },
            },
            TrapClass::Fault => {
                self.finish = true;
                false
            },
        }
    }
}

/// The task whose turn it is after task `i` of `n` tasks: the next one, and
/// after the last the first.
pub open spec fn turn_after(i: int, n: int) -> int {
    (i + 1) % n
}

/// The first task at or after `from`, going round, that is not done.
pub open spec fn next_unfinished(finish: Seq<bool>, from: int, steps: nat) -> Option<int>
    decreases steps,
{
    if steps == 0 || finish.len() == 0 {
        None
    } else if !finish[from] {
        Some(from)
    } else {
        next_unfinished(finish, turn_after(from, finish.len() as int), (steps - 1) as nat)
    }
}

/// The task to run next, given the task `from` whose turn it is: the first
/// one at or after it, going round, that is not done.  `None` exactly when
/// all are done.
pub fn select(tasks: &Vec<TaskControlBlock>, from: usize) -> (r: Option<usize>)
    requires
        from < tasks.len() || tasks.len() == 0,
    ensures
        r is None <==> forall|k: int| 0 <= k < tasks.len() ==> (#[trigger] tasks[k])@.finish,
        r is Some ==> r->0 < tasks.len() && !tasks[r->0 as int]@.finish,
        match r {
            Some(x) => Some(x as int),
            None => None,
        } == next_unfinished(
            Seq::new(tasks.len() as nat, |k: int| tasks[k]@.finish),
            from as int,
            tasks.len() as nat,
        ),
{
    let n = tasks.len();
    if n == 0 {
        return None;
    }
    let ghost finish = Seq::new(n as nat, |k: int| tasks[k]@.finish);
    let mut i = from;
    let mut steps: usize = 0;
    proof {
        lemma_small_mod(from as nat, n as nat);
    }
    while steps < n
        invariant
            n == tasks.len(),
            n > 0,
            i < n,
            steps <= n,
            finish == Seq::new(n as nat, |k: int| tasks[k]@.finish),
            i as int == (from + steps) % (n as int),
            forall|k: int| 0 <= k < steps ==> finish[#[trigger] turn(from as int, k, n as int)],
            next_unfinished(finish, from as int, n as nat) == next_unfinished(
                finish,
                i as int,
                (n - steps) as nat,
            ),
        decreases n - steps,
    {
        if !tasks[i].finish {
            return Some(i);
        }
        assert(finish[turn(from as int, steps as int, n as int)]);
        assert((from + steps + 1) % (n as int) == ((from + steps) % (n as int) + 1) % (n as int))
            by (nonlinear_arith)
            requires
                n > 0,
                from >= 0,
                steps >= 0,
        ;
        i = (i + 1) % n;
        steps = steps + 1;
    }
    proof {
        assert forall|k: int| 0 <= k < n implies (#[trigger] tasks[k])@.finish by {
            let j = lemma_round_covers(from as int, n as int, k);
            assert(finish[turn(from as int, j, n as int)]);
        }
    }
    None
}

/// The task whose turn it is `k` turns after that of task `from`, of `n` tasks.
pub open spec fn turn(from: int, k: int, n: int) -> int {
    (from + k) % n
}

/// Going round from `from` reaches every one of the `n` tasks within `n`
/// turns: task `k` after the number of turns that is handed back.
proof fn lemma_round_covers(from: int, n: int, k: int) -> (j: int)
    requires
        0 <= from < n,
        0 <= k < n,
    ensures
        0 <= j < n,
        turn(from, j, n) == k,
{
    lemma_small_mod(k as nat, n as nat);
    if k >= from {
        k - from
    } else {
        lemma_mod_add_multiples_vanish(k, n);
        k - from + n
    }
}

} // verus!
