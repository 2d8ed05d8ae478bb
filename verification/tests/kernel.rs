use std::collections::{HashMap, VecDeque};
use tg_kernel::address::TRAMPOLINE_VPN;
use tg_kernel::context::Context;
use tg_kernel::dispatch::{
    schedule, settle, Fate, SignalResult, EXIT_FAULT, EXIT_UNSUPPORTED,
};
use tg_kernel::flags::build_flags;
use tg_kernel::frame::FrameAllocator;
use tg_kernel::io::{classify_path, PathKind, Transfer};
use tg_kernel::kernel::{
    heap_bottom, page_range, Kernel, Segment, SpawnError, SyncKind, WaitOutcome, DEADLOCK, NO_PARENT,
    USER_STACK_TOP,
};
use tg_kernel::layout::{kernel_space, KernelRegion, KernelRegionTitle};
use tg_kernel::process::{Fd, Heap};
use tg_kernel::processor::{ThreadState, WaitTarget};
use tg_kernel::space::{trampoline_flags, MapError, Pte};
use tg_kernel::syscall::SyscallResult;
use tg_kernel::trap::TrapClass;
use tg_kernel::usermem::Chunk;

const TRAMPOLINE: u64 = 0x80_100;

fn boot_with(frames: usize) -> Kernel {
    let mut frames = FrameAllocator::new(0x90_000, frames).unwrap();
    let regions = vec![
        KernelRegion { title: KernelRegionTitle::Text, start: 0x8020_0000, end: 0x8020_3000 },
        KernelRegion { title: KernelRegionTitle::Rodata, start: 0x8020_3000, end: 0x8020_4000 },
        KernelRegion { title: KernelRegionTitle::Data, start: 0x8020_4000, end: 0x8020_5000 },
    ];
    let devices = vec![(0x0c000, 0x0c002), (0x10001, 0x10003)];
    let space = kernel_space(
        &mut frames,
        &regions,
        0x8020_5000,
        0x8021_0000,
        TRAMPOLINE << 12,
        &devices,
    )
    .unwrap();
    Kernel::new(frames, space, TRAMPOLINE).unwrap()
}

fn boot() -> Kernel {
    boot_with(256)
}

fn program() -> Vec<Segment> {
    vec![
        Segment { start: 0x10, end: 0x12, flags: build_flags("X_R") },
        Segment { start: 0x12, end: 0x13, flags: build_flags("WR") },
    ]
}

#[test]
fn kernel_space_is_identity_mapped() {
    let mut frames = FrameAllocator::new(0x90_000, 64).unwrap();
    let regions = vec![
        KernelRegion { title: KernelRegionTitle::Text, start: 0x8020_0000, end: 0x8020_3000 },
        KernelRegion { title: KernelRegionTitle::Data, start: 0x8020_3000, end: 0x8020_3800 },
    ];
    let space = kernel_space(
        &mut frames,
        &regions,
        0x8020_4000,
        0x8020_7800,
        TRAMPOLINE << 12,
        &vec![(0x0c000, 0x0c001)],
    )
    .unwrap();
    assert_eq!(space.entry(0x80200), Some(Pte { ppn: 0x80200, flags: build_flags("X_RV") }));
    assert_eq!(space.entry(0x80202), Some(Pte { ppn: 0x80202, flags: build_flags("X_RV") }));
    assert_eq!(space.entry(0x80203), Some(Pte { ppn: 0x80203, flags: build_flags("_WRV") }));
    // a part that ends inside a page takes the whole page, and so does the heap
    assert_eq!(space.entry(0x80204), Some(Pte { ppn: 0x80204, flags: build_flags("_WRV") }));
    assert_eq!(space.entry(0x80207), Some(Pte { ppn: 0x80207, flags: build_flags("_WRV") }));
    assert_eq!(space.entry(0x80208), None);
    assert_eq!(space.entry(0x0c000), Some(Pte { ppn: 0x0c000, flags: build_flags("_WRV") }));
    assert_eq!(
        space.entry(TRAMPOLINE_VPN),
        Some(Pte { ppn: TRAMPOLINE, flags: trampoline_flags() })
    );
    assert_eq!(space.translate(0x8020_1234, build_flags("XV")), Some(0x8020_1234));
}

#[test]
fn overlapping_kernel_regions_are_refused_and_nothing_leaks() {
    let mut frames = FrameAllocator::new(0x90_000, 64).unwrap();
    let regions = vec![
        KernelRegion { title: KernelRegionTitle::Text, start: 0x8020_0000, end: 0x8020_3000 },
        KernelRegion { title: KernelRegionTitle::Boot, start: 0x8020_2000, end: 0x8020_4000 },
    ];
    let r = kernel_space(&mut frames, &regions, 0x8020_4000, 0x8020_8000, 0, &Vec::new());
    assert!(matches!(r, Err(MapError::AlreadyMapped)));
    assert_eq!(frames.available(), 64);
    let mut tiny = FrameAllocator::new(0x90_000, 2).unwrap();
    let r = kernel_space(&mut tiny, &regions[..1].to_vec(), 0x8020_3000, 0x8020_8000, 0, &Vec::new());
    assert!(matches!(r, Err(MapError::OutOfFrames)));
    assert_eq!(tiny.available(), 2);
}

#[test]
fn spawn_builds_a_process_with_one_thread() {
    let mut k = boot();
    let free = k.available_frames();
    let s = k.spawn(&program(), 0x10_000, NO_PARENT).unwrap();
    assert_eq!((s.pid, s.tid), (0, 0));
    assert_eq!(s.frames.segments.len(), 2);
    assert_eq!(s.frames.segments[0].len(), 2);
    assert_eq!(s.frames.segments[1].len(), 1);
    assert_eq!(s.frames.stack.len(), 2);
    assert!(k.available_frames() < free);
    let p = k.get_proc(0).unwrap();
    assert_eq!(p.pid, 0);
    let code = p.address_space.entry(0x10).unwrap();
    assert_eq!(code.ppn, s.frames.segments[0][0]);
    assert!(code.flags.user && code.flags.executable && code.flags.readable && code.flags.owned);
    assert!(!code.flags.writable);
    let data = p.address_space.entry(0x12).unwrap();
    assert!(data.flags.writable && !data.flags.executable);
    let stack = p.address_space.entry(USER_STACK_TOP - 1).unwrap();
    assert_eq!(stack.ppn, s.frames.stack[1]);
    assert_eq!(stack.flags, build_flags("U_WRV").union(tg_kernel::flags::VmFlags::from_raw(256)));
    assert_eq!(p.address_space.entry(USER_STACK_TOP), None);
    assert_eq!(
        p.address_space.entry(TRAMPOLINE_VPN),
        Some(Pte { ppn: TRAMPOLINE, flags: trampoline_flags() })
    );
    let proc = k.processor();
    assert_eq!(proc.state(0), Some(ThreadState::Ready));
    assert_eq!(proc.context(0).pc(), 0x10_000);
    assert_eq!(proc.context(0).sp(), (USER_STACK_TOP as usize) << 12);
    assert_eq!(proc.satp(0), Some((8 << 60) | p.address_space.root_ppn()));
    assert_eq!(k.getpid(), -1);
    assert_eq!(k.find_next(), Some(0));
    assert_eq!(k.getpid(), 0);
    assert_eq!(k.gettid(), 0);
}

#[test]
fn failed_spawn_changes_nothing() {
    let mut k = boot_with(20);
    let free = k.available_frames();
    let huge = vec![Segment { start: 0, end: 4096, flags: build_flags("R") }];
    assert!(k.spawn(&huge, 0, NO_PARENT).is_err());
    assert_eq!(k.available_frames(), free);
    assert_eq!(k.thread_count(), 0);
    assert!(k.get_proc(0).is_none());
    let overlapping = vec![
        Segment { start: 0, end: 2, flags: build_flags("R") },
        Segment { start: 1, end: 3, flags: build_flags("R") },
    ];
    assert!(k.spawn(&overlapping, 0, NO_PARENT).is_err());
    assert_eq!(k.available_frames(), free);
    assert!(k.spawn(&program(), 0, NO_PARENT).is_ok());
}

#[test]
fn processes_are_isolated_and_share_only_the_trampoline() {
    let mut k = boot();
    let a = k.spawn(&program(), 0x10_000, NO_PARENT).unwrap();
    let b = k.spawn(&program(), 0x10_000, NO_PARENT).unwrap();
    let pa = k.get_proc(a.pid).unwrap();
    let pb = k.get_proc(b.pid).unwrap();
    let any = build_flags("V");
    for page in [0x10u64, 0x11, 0x12, USER_STACK_TOP - 2, USER_STACK_TOP - 1] {
        let fa = pa.address_space.translate(page << 12, any).unwrap() >> 12;
        let fb = pb.address_space.translate(page << 12, any).unwrap() >> 12;
        assert_ne!(fa, fb);
    }
    let top = TRAMPOLINE_VPN << 12;
    assert_eq!(
        pa.address_space.translate(top + 0x20, any),
        pb.address_space.translate(top + 0x20, any)
    );
    assert_eq!(pa.address_space.translate(top + 0x20, any), Some((TRAMPOLINE << 12) + 0x20));
}

/// Physical memory for the scenarios, one page per frame.
struct Memory(HashMap<u64, Vec<u8>>);

impl Memory {
    fn write(&mut self, chunks: &[Chunk], bytes: &[u8]) {
        let mut at = 0;
        for c in chunks {
            let page = self.0.entry(c.paddr >> 12).or_insert_with(|| vec![0; 4096]);
            let off = (c.paddr & 0xfff) as usize;
            page[off..off + c.len].copy_from_slice(&bytes[at..at + c.len]);
            at += c.len;
        }
    }

    fn read(&self, chunks: &[Chunk]) -> Vec<u8> {
        let mut out = Vec::new();
        for c in chunks {
            let off = (c.paddr & 0xfff) as usize;
            match self.0.get(&(c.paddr >> 12)) {
                Some(page) => out.extend_from_slice(&page[off..off + c.len]),
                None => out.extend(std::iter::repeat(0).take(c.len)),
            }
        }
        out
    }
}

#[test]
fn write_to_the_console_round_trip() {
    let mut k = boot();
    let s = k.spawn(&program(), 0x10_000, NO_PARENT).unwrap();
    let mut memory = Memory(HashMap::new());
    // the program's data page holds "ok\n" at offset 0x40
    let buf = 0x12_040usize;
    let frame = s.frames.segments[1][0];
    memory.write(&[Chunk { paddr: (frame << 12) + 0x40, len: 3 }], b"ok\n");
    assert_eq!(k.find_next(), Some(0));
    // the thread traps with write(1, buf, 3)
    let mut ctx = k.processor().context(0).duplicate();
    ctx.set_a(7, 64);
    ctx.set_a(0, 1);
    ctx.set_a(1, buf);
    ctx.set_a(2, 3);
    k.set_context(0, ctx);
    let (tid, id, args) = k.begin_syscall().unwrap();
    assert_eq!((tid, id), (0, 64));
    assert_eq!(args, [1, buf, 3, 0, 0, 0]);
    let mut console = Vec::new();
    let ret = match k.write(args[0], args[1], args[2], 0) {
        Transfer::Console { chunks, answer } => {
            console.extend(memory.read(&chunks));
            answer
        }
        other => panic!("unexpected {:?}", other),
    };
    assert_eq!(ret, 3);
    assert_eq!(console, b"ok\n");
    k.finish_syscall(tid, id, SyscallResult::Done(ret), SignalResult::NoSignal);
    assert_eq!(k.processor().context(0).a(0), 3);
    assert_eq!(k.processor().context(0).pc(), 0x10_004);
    assert_eq!(k.processor().state(0), Some(ThreadState::Ready));
}

#[test]
fn write_checks_every_page_of_the_buffer() {
    let mut k = boot();
    let s = k.spawn(&program(), 0x10_000, NO_PARENT).unwrap();
    assert_eq!(k.find_next(), Some(0));
    // a buffer that spans the two code pages and the data page
    match k.write(1, 0x10_ff0, 0x1020, 0) {
        Transfer::Console { chunks, answer } => {
            assert_eq!(answer, 0x1020);
            assert_eq!(
                chunks,
                vec![
                    Chunk { paddr: (s.frames.segments[0][0] << 12) + 0xff0, len: 0x10 },
                    Chunk { paddr: s.frames.segments[0][1] << 12, len: 0x1000 },
                    Chunk { paddr: s.frames.segments[1][0] << 12, len: 0x10 },
                ]
            );
        }
        other => panic!("unexpected {:?}", other),
    }
    // a buffer that runs into an unmapped page
    assert!(matches!(k.write(1, 0x12_ff0, 0x20, 0), Transfer::Refused));
    // an unmapped buffer
    assert!(matches!(k.write(2, 0x50_000, 1, 0), Transfer::Refused));
    // an empty write is served from a buffer that can be read, and refused else
    assert!(matches!(k.write(1, 0x12_000, 0, 0), Transfer::Console { answer: 0, .. }));
    assert!(matches!(k.write(1, 0x50_000, 0, 0), Transfer::Refused));
    assert!(matches!(k.write(2, 0x50_000, 0, 0), Transfer::Refused));
    // so is an empty read: code cannot be written, an unmapped page neither
    assert!(matches!(k.read(0, 0x12_000, 0), Transfer::Console { answer: 0, .. }));
    assert!(matches!(k.read(0, 0x10_000, 0), Transfer::Refused));
    assert!(matches!(k.read(0, 0x50_000, 0), Transfer::Refused));
    // reading from the console needs a writable buffer: code is not
    assert!(matches!(k.read(0, 0x10_000, 4), Transfer::Refused));
    assert!(matches!(k.read(0, 0x12_000, 4), Transfer::Console { answer: 4, .. }));
    // handles that are not open, and the console's output is not read from
    assert!(matches!(k.write(3, 0x12_000, 4, 0), Transfer::Refused));
    assert!(matches!(k.read(1, 0x12_000, 4), Transfer::Refused));
}

#[test]
fn handles_route_reads_and_writes() {
    let mut k = boot();
    let s = k.spawn(&program(), 0x10_000, NO_PARENT).unwrap();
    assert_eq!(k.open(Fd::VirtioGpu), -1);
    assert_eq!(k.find_next(), Some(0));
    assert_eq!(k.open(Fd::File { handle: 9, readable: true, writable: false }), 3);
    assert_eq!(k.open(Fd::VirtioGpu), 4);
    assert_eq!(k.open(Fd::VirtioInput), 5);
    let data = s.frames.segments[1][0] << 12;
    // the read-only file
    assert!(matches!(k.write(3, 0x12_000, 4, 0), Transfer::Refused));
    match k.read(3, 0x12_ffc, 16) {
        Transfer::File { fd, chunks } => {
            assert_eq!(fd, Fd::File { handle: 9, readable: true, writable: false });
            assert_eq!(chunks, vec![Chunk { paddr: data + 0xffc, len: 4 }]);
        }
        other => panic!("unexpected {:?}", other),
    }
    // the display takes what fits into the frame buffer and answers the count
    match k.write(4, 0x12_000, 100, 64) {
        Transfer::Display { chunks, answer } => {
            assert_eq!(answer, 100);
            assert_eq!(chunks, vec![Chunk { paddr: data, len: 64 }]);
        }
        other => panic!("unexpected {:?}", other),
    }
    assert!(matches!(k.write(4, 0x12_000, 100, 0), Transfer::Refused));
    assert!(matches!(k.read(4, 0x12_000, 4), Transfer::Refused));
    // the keys: at most 256 bytes are stored
    match k.read(5, 0x12_000, 1000) {
        Transfer::Keys { chunks, answer } => {
            assert_eq!(answer, 1000);
            assert_eq!(chunks, vec![Chunk { paddr: data, len: 256 }]);
        }
        other => panic!("unexpected {:?}", other),
    }
    assert!(matches!(k.read(5, 0x10_000, 8), Transfer::Refused));
    assert!(matches!(k.read(5, 0x12_000, 0), Transfer::Keys { answer: 0, .. }));
    assert!(matches!(k.read(5, 0x50_000, 0), Transfer::Refused));
    // pipes
    let ends = k.pipe(0x12_100, 5).unwrap();
    assert_eq!((ends.read_fd, ends.write_fd), (6, 7));
    assert_eq!((ends.read_slot, ends.write_slot), (data + 0x100, data + 0x108));
    assert!(k.pipe(0x10_000, 6).is_none());
    assert!(matches!(k.read(6, 0x12_000, 4), Transfer::File { fd: Fd::PipeRead(5), .. }));
    assert!(matches!(k.write(7, 0x12_000, 4, 0), Transfer::File { fd: Fd::PipeWrite(5), .. }));
    assert!(matches!(k.write(6, 0x12_000, 4, 0), Transfer::Refused));
    // closing
    assert_eq!(k.close(6), 0);
    assert_eq!(k.close(6), -1);
    assert_eq!(k.close(99), -1);
    assert!(matches!(k.read(6, 0x12_000, 4), Transfer::Refused));
    assert_eq!(k.open(Fd::VirtioGpu), 8);
    // the console is served by its numbers, open or not
    assert_eq!(k.close(1), 0);
    assert!(matches!(k.write(1, 0x12_000, 4, 0), Transfer::Console { answer: 4, .. }));
    assert_eq!(classify_path("/dev/gpu"), PathKind::Gpu);
    assert_eq!(classify_path("/dev/input"), PathKind::Input);
    assert_eq!(classify_path("/dev/gpu0"), PathKind::File);
    assert_eq!(classify_path("initproc"), PathKind::File);
    assert_eq!(classify_path(""), PathKind::File);
}

#[test]
fn fault_in_one_thread_leaves_the_other_alone() {
    let mut k = boot();
    let init = k.spawn(&program(), 0x10_000, NO_PARENT).unwrap();
    let p = k.spawn(&program(), 0x10_000, init.pid).unwrap();
    assert_eq!((p.pid, p.tid), (1, 1));
    // init runs and yields, then thread 1 of P makes thread 2
    assert_eq!(k.find_next(), Some(0));
    k.preempt();
    assert_eq!(k.find_next(), Some(1));
    let (tid2, stack) = k.thread_create(0x10_100, 77);
    assert_eq!(tid2, 2);
    assert_eq!(stack.len(), 2);
    assert_eq!(k.processor().context(2).a(0), 77);
    assert_eq!(k.processor().context(2).pc(), 0x10_100);
    assert_eq!(k.processor().context(2).sp(), ((USER_STACK_TOP - 3) as usize) << 12);
    assert_eq!(k.processor().pid_of(2), Some(1));
    let free_with_p = k.available_frames();
    // thread 1 dereferences an unmapped address and faults
    k.kill_faulting();
    assert_eq!(k.processor().state(1), Some(ThreadState::Zombie(EXIT_FAULT)));
    assert!(k.get_proc(1).is_some());
    assert_eq!(k.available_frames(), free_with_p);
    // the parent finds the child still running
    assert_eq!(k.find_next(), Some(0));
    assert_eq!(k.wait(1), WaitOutcome::StillRunning);
    assert_eq!(k.wait(usize::MAX), WaitOutcome::StillRunning);
    assert_eq!(k.wait(5), WaitOutcome::NoChild);
    k.preempt();
    // thread 2 runs on, collects the code of thread 1, and exits with 7
    assert_eq!(k.find_next(), Some(2));
    assert_eq!(k.waittid(2), -1);
    assert_eq!(k.waittid(1), EXIT_FAULT);
    assert_eq!(k.waittid(1), -1);
    assert_eq!(k.waittid(0), -1);
    let mut ctx = k.processor().context(2).duplicate();
    ctx.set_a(7, 93);
    ctx.set_a(0, 7);
    k.set_context(2, ctx);
    let (tid, id, args) = k.begin_syscall().unwrap();
    assert_eq!((tid, id, args[0]), (2, 93, 7));
    k.finish_syscall(tid, id, SyscallResult::Done(args[0] as isize), SignalResult::NoSignal);
    assert_eq!(k.processor().state(2), Some(ThreadState::Zombie(7)));
    // with its last thread the process is gone and its frames are free
    assert!(k.get_proc(1).is_none());
    assert!(k.available_frames() > free_with_p);
    // the parent collects the child with the code of its last thread
    assert_eq!(k.find_next(), Some(0));
    assert_eq!(k.wait(1), WaitOutcome::Collected { pid: 1, exit_code: 7 });
    assert_eq!(k.wait(1), WaitOutcome::NoChild);
    assert_eq!(k.wait(usize::MAX), WaitOutcome::NoChild);
}

#[test]
fn wait_for_any_child_collects_the_last_to_end() {
    let mut k = boot();
    let init = k.spawn(&program(), 0, NO_PARENT).unwrap();
    let a = k.spawn(&program(), 0, init.pid).unwrap();
    let b = k.spawn(&program(), 0, init.pid).unwrap();
    k.exit_thread(a.tid, 11);
    k.exit_thread(b.tid, 22);
    k.exit_thread(b.tid, 33);
    assert_eq!(k.find_next(), Some(0));
    assert_eq!(k.wait(usize::MAX), WaitOutcome::Collected { pid: b.pid, exit_code: 22 });
    assert_eq!(k.wait(usize::MAX), WaitOutcome::Collected { pid: a.pid, exit_code: 11 });
    assert_eq!(k.wait(usize::MAX), WaitOutcome::NoChild);
}

#[test]
fn orphans_go_to_the_first_process() {
    let mut k = boot();
    let init = k.spawn(&program(), 0, NO_PARENT).unwrap();
    let a = k.spawn(&program(), 0, init.pid).unwrap();
    let b = k.spawn(&program(), 0, a.pid).unwrap();
    // the middle process ends: its child becomes a child of process 0
    k.exit_thread(a.tid, 1);
    k.exit_thread(b.tid, 2);
    assert_eq!(k.find_next(), Some(0));
    assert_eq!(k.wait(b.pid), WaitOutcome::Collected { pid: b.pid, exit_code: 2 });
    assert_eq!(k.wait(a.pid), WaitOutcome::Collected { pid: a.pid, exit_code: 1 });
}

#[test]
fn unsupported_call_and_killing_signal_end_the_thread() {
    let mut k = boot();
    k.spawn(&program(), 0, NO_PARENT).unwrap();
    k.spawn(&program(), 0, 0).unwrap();
    assert_eq!(k.find_next(), Some(0));
    k.preempt();
    assert_eq!(k.find_next(), Some(1));
    let (tid, id, _) = k.begin_syscall().unwrap();
    k.finish_syscall(tid, id, SyscallResult::Unsupported(id), SignalResult::NoSignal);
    assert_eq!(k.processor().state(1), Some(ThreadState::Zombie(EXIT_UNSUPPORTED)));
    assert_eq!(k.find_next(), Some(0));
    let (tid, id, _) = k.begin_syscall().unwrap();
    k.finish_syscall(tid, id, SyscallResult::Done(0), SignalResult::ProcessKilled(-9));
    assert_eq!(k.processor().state(0), Some(ThreadState::Zombie(-9)));
    assert_eq!(k.find_next(), None);
    assert!(!k.is_deadlocked());
    assert!(k.begin_syscall().is_none());
    k.finish_syscall(9, 64, SyscallResult::Done(0), SignalResult::NoSignal);
    k.kill_faulting();
    k.exit_current(1);
}

#[test]
fn blocking_calls_block_in_the_kernel() {
    let mut k = boot();
    k.spawn(&program(), 0, NO_PARENT).unwrap();
    assert_eq!(k.mutex_create(true), -1);
    assert_eq!(k.find_next(), Some(0));
    assert_eq!(k.thread_create(0x100, 1).0, 1);
    assert_eq!(k.thread_create(0x200, 2).0, 2);
    assert_eq!(k.mutex_create(true), 0);
    // a mutex that does not block is no object: its slot stays empty and is taken next
    assert_eq!(k.mutex_create(false), 1);
    assert_eq!(k.object(SyncKind::Mutex, 1), None);
    assert_eq!(k.mutex_create(true), 1);
    assert_eq!(k.mutex_create(true), 2);
    assert_eq!(k.mutex_create(false), 3);
    assert_eq!(k.semaphore_create(1), 0);
    assert_eq!(k.condvar_create(0), 0);
    assert_eq!(k.object(SyncKind::Mutex, 0), Some(0));
    assert_eq!(k.object(SyncKind::Mutex, 1), Some(1));
    assert_eq!(k.object(SyncKind::Mutex, 2), Some(2));
    assert_eq!(k.object(SyncKind::Mutex, 3), None);
    assert_eq!(k.enable_deadlock_detect(2), -1);
    // a slot without an object, and slots that do not exist
    assert_eq!(k.mutex_lock(3), -1);
    assert_eq!(k.mutex_lock(7), -1);
    assert_eq!(k.mutex_unlock(7), -1);
    assert_eq!(k.semaphore_down(3), -1);
    assert_eq!(k.semaphore_up(3), -1);
    assert_eq!(k.condvar_signal(3), -1);
    assert_eq!(k.condvar_wait(3, 0), -1);
    assert_eq!(k.processor().state(0), Some(ThreadState::Running));
    // thread 0 takes the mutex and is preempted
    assert_eq!(k.mutex_lock(0), 0);
    k.preempt();
    // thread 1 blocks on it: the call answers -1 and the thread is out of the way
    assert_eq!(k.find_next(), Some(1));
    let (tid, id, _) = k.begin_syscall().unwrap();
    let ret = k.mutex_lock(0);
    assert_eq!(ret, -1);
    k.finish_syscall(tid, 1011, SyscallResult::Done(ret), SignalResult::NoSignal);
    let _ = id;
    assert_eq!(k.processor().state(1), Some(ThreadState::Blocked(WaitTarget::Mutex(0))));
    assert_eq!(k.processor().context(1).a(0), usize::MAX);
    assert!(!k.processor().is_ready(1));
    // thread 2 fails on a slot that does not exist: -1 too, but it stays ready
    assert_eq!(k.find_next(), Some(2));
    let (tid, _, _) = k.begin_syscall().unwrap();
    let ret = k.mutex_lock(9);
    k.finish_syscall(tid, 1011, SyscallResult::Done(ret), SignalResult::NoSignal);
    assert_eq!(k.processor().state(2), Some(ThreadState::Ready));
    // thread 0 unlocks: thread 1 is the holder and ready
    assert_eq!(k.find_next(), Some(0));
    assert_eq!(k.mutex_unlock(0), 0);
    assert_eq!(k.processor().mutex_holder(0), Some(1));
    assert!(k.processor().is_ready(1));
    // semaphores and condition variables
    assert_eq!(k.semaphore_down(0), 0);
    assert_eq!(k.semaphore_up(0), 0);
    assert_eq!(k.condvar_signal(0), 0);
    assert_eq!(k.mutex_lock(2), 0);
    assert_eq!(k.condvar_wait(0, 2), -1);
    assert_eq!(k.processor().state(0), Some(ThreadState::Blocked(WaitTarget::Condvar(0))));
    assert_eq!(k.processor().mutex_holder(2), None);
    // a signal kills thread 1 while... it is ready; thread 0 is killed while blocked
    k.exit_thread(0, -9);
    assert_eq!(k.find_next(), Some(2));
    assert_eq!(k.condvar_signal(0), 0);
    assert_eq!(k.processor().state(0), Some(ThreadState::Zombie(-9)));
    k.preempt();
    assert_eq!(k.find_next(), Some(1));
    // everybody else blocks for ever
    assert_eq!(k.semaphore_down(0), 0);
    assert_eq!(k.semaphore_down(0), -1);
    assert_eq!(k.find_next(), Some(2));
    assert_eq!(k.mutex_lock(0), -1);
    assert_eq!(k.find_next(), None);
    assert!(k.is_deadlocked());
}

#[test]
fn thread_stacks_go_down_from_the_top() {
    let mut k = boot();
    k.spawn(&program(), 0, NO_PARENT).unwrap();
    assert_eq!(k.thread_create(0, 0), (-1, Vec::new()));
    assert_eq!(k.find_next(), Some(0));
    let (t1, s1) = k.thread_create(0x100, 1);
    let (t2, _) = k.thread_create(0x100, 2);
    assert_eq!((t1, t2), (1, 2));
    let top = USER_STACK_TOP as usize;
    assert_eq!(k.processor().context(1).sp(), (top - 3) << 12);
    assert_eq!(k.processor().context(2).sp(), (top - 6) << 12);
    let space = &k.get_proc(0).unwrap().address_space;
    assert_eq!(space.entry(USER_STACK_TOP - 5).unwrap().ppn, s1[0]);
    assert_eq!(space.entry(USER_STACK_TOP - 4).unwrap().ppn, s1[1]);
    // the page between two stacks stays unmapped
    assert_eq!(space.entry(USER_STACK_TOP - 3), None);
    assert_eq!(space.entry(USER_STACK_TOP - 6), None);
    assert_eq!(k.processor().satp(1), k.processor().satp(0));
}

#[test]
fn thread_create_fails_closed_without_frames() {
    let mut k = boot_with(40);
    k.spawn(&program(), 0, NO_PARENT).unwrap();
    assert_eq!(k.find_next(), Some(0));
    let mut made = 0;
    loop {
        let (t, stack) = k.thread_create(0, 0);
        if t < 0 {
            assert!(stack.is_empty());
            break;
        }
        made += 1;
        assert!(made < 40);
    }
    assert!(made > 0);
    assert_eq!(k.thread_count(), made + 1);
    assert_eq!(k.processor().state(0), Some(ThreadState::Running));
}

#[test]
fn single_process_schedule() {
    let mut c = Context::user(0x100);
    c.set_a(7, 64);
    assert_eq!(schedule(&mut c, TrapClass::Timer, SyscallResult::Done(0)), Fate::Requeue);
    assert_eq!(schedule(&mut c, TrapClass::Device, SyscallResult::Done(0)), Fate::Requeue);
    assert_eq!(c.pc(), 0x100);
    assert_eq!(schedule(&mut c, TrapClass::Syscall, SyscallResult::Done(5)), Fate::Continue);
    assert_eq!((c.pc(), c.a(0)), (0x104, 5));
    assert_eq!(schedule(&mut c, TrapClass::Syscall, SyscallResult::Unsupported(64)), Fate::Remove);
    assert_eq!(schedule(&mut c, TrapClass::Fault, SyscallResult::Done(0)), Fate::Remove);
    c.set_a(7, 93);
    assert_eq!(schedule(&mut c, TrapClass::Syscall, SyscallResult::Done(0)), Fate::Remove);
    assert_eq!(c.pc(), 0x104);
    assert_eq!(tg_kernel::dispatch::next_timer(10, 125000), Some(125010));
    assert_eq!(tg_kernel::dispatch::next_timer(u64::MAX, 1), None);
}

#[test]
fn fork_copies_owned_pages_and_shares_the_rest() {
    let mut k = boot();
    assert_eq!(k.fork().0, -1);
    let s = k.spawn(&program(), 0x10_000, NO_PARENT).unwrap();
    assert_eq!(k.find_next(), Some(0));
    assert_eq!(k.open(Fd::VirtioGpu), 3);
    assert_eq!(k.mutex_create(true), 0);
    let mut ctx = k.processor().context(0).duplicate();
    ctx.set_a(0, 99);
    ctx.set_a(5, 55);
    ctx.set_pc(0x10_040);
    k.set_context(0, ctx);
    let before = k.available_frames();
    let (pid, copies) = k.fork();
    assert_eq!(pid, 1);
    // three pages of program and two of stack
    assert_eq!(copies.len(), 5);
    assert!(k.available_frames() < before);
    let parent = k.get_proc(0).unwrap();
    let child = k.get_proc(1).unwrap();
    for c in &copies {
        let p = parent.address_space.entry(c.vpn).unwrap();
        let q = child.address_space.entry(c.vpn).unwrap();
        assert_eq!(c.from, p.ppn);
        assert_eq!(c.to, q.ppn);
        assert_ne!(c.from, c.to);
        assert_eq!(p.flags, q.flags);
    }
    let pages: Vec<u64> = copies.iter().map(|c| c.vpn).collect();
    assert_eq!(pages, vec![0x10, 0x11, 0x12, USER_STACK_TOP - 2, USER_STACK_TOP - 1]);
    assert_eq!(copies[0].from, s.frames.segments[0][0]);
    assert_eq!(
        child.address_space.entry(TRAMPOLINE_VPN),
        parent.address_space.entry(TRAMPOLINE_VPN)
    );
    assert_eq!(child.address_space.entry(0x13), None);
    assert_eq!(child.fd_table, parent.fd_table);
    assert_eq!(child.mutex_list, parent.mutex_list);
    assert_eq!(child.pid, 1);
    // the child's thread mirrors the caller but sees zero
    let proc = k.processor();
    assert_eq!(proc.pid_of(1), Some(1));
    assert_eq!(proc.state(1), Some(ThreadState::Ready));
    assert_eq!(proc.context(1).a(0), 0);
    assert_eq!(proc.context(1).a(5), 55);
    assert_eq!(proc.context(1).pc(), 0x10_040);
    assert_eq!(proc.context(1).sp(), proc.context(0).sp());
    assert_eq!(proc.context(0).a(0), 99);
    assert_eq!(proc.satp(1), Some((8 << 60) | child.address_space.root_ppn()));
    assert_ne!(proc.satp(1), proc.satp(0));
    // the parent can wait for it
    assert_eq!(k.wait(1), WaitOutcome::StillRunning);
    k.exit_thread(1, 3);
    assert_eq!(k.wait(usize::MAX), WaitOutcome::Collected { pid: 1, exit_code: 3 });
    assert_eq!(k.available_frames(), before);
}

#[test]
fn fork_without_frames_changes_nothing() {
    let mut k = boot_with(24);
    k.spawn(&program(), 0, NO_PARENT).unwrap();
    assert_eq!(k.find_next(), Some(0));
    let before = k.available_frames();
    assert!(before < 10);
    let (pid, copies) = k.fork();
    assert_eq!(pid, -1);
    assert!(copies.is_empty());
    assert_eq!(k.available_frames(), before);
    assert_eq!(k.thread_count(), 1);
    assert!(k.get_proc(1).is_none());
}

#[test]
fn exec_replaces_the_program_in_place() {
    let mut k = boot();
    assert!(k.exec(&program(), 0).is_err());
    k.spawn(&program(), 0x10_000, NO_PARENT).unwrap();
    assert_eq!(k.find_next(), Some(0));
    assert_eq!(k.open(Fd::VirtioInput), 3);
    let before = k.available_frames();
    let old_satp = k.processor().satp(0);
    let other = vec![Segment { start: 0x40, end: 0x41, flags: build_flags("XR") }];
    let loaded = k.exec(&other, 0x40_000).unwrap();
    assert_eq!(loaded.segments.len(), 1);
    let p = k.get_proc(0).unwrap();
    assert_eq!(p.address_space.entry(0x10), None);
    assert_eq!(p.address_space.entry(0x40).unwrap().ppn, loaded.segments[0][0]);
    assert_eq!(p.address_space.entry(USER_STACK_TOP - 1).unwrap().ppn, loaded.stack[1]);
    assert_eq!(
        p.address_space.entry(TRAMPOLINE_VPN),
        Some(Pte { ppn: TRAMPOLINE, flags: trampoline_flags() })
    );
    assert_eq!(p.fd_table.len(), 4);
    assert_eq!(k.processor().context(0).pc(), 0x40_000);
    assert_eq!(k.processor().context(0).sp(), (USER_STACK_TOP as usize) << 12);
    assert_eq!(k.processor().context(0).a(0), 0);
    assert_eq!(k.processor().state(0), Some(ThreadState::Running));
    assert_eq!(k.processor().satp(0), Some((8 << 60) | p.address_space.root_ppn()));
    let _ = old_satp;
    // the smaller program leaves more frames free
    assert!(k.available_frames() > before);
    // a process with two threads cannot be replaced
    assert_eq!(k.thread_create(0, 0).0, 1);
    let free = k.available_frames();
    assert!(k.exec(&other, 0).is_err());
    assert_eq!(k.available_frames(), free);
    // nor can a program that does not fit
    k.exit_thread(1, 0);
    let huge = vec![Segment { start: 0, end: 1 << 20, flags: build_flags("R") }];
    assert!(k.exec(&huge, 0).is_err());
    assert_eq!(k.available_frames(), free);
    assert_eq!(k.get_proc(0).unwrap().address_space.entry(0x40).unwrap().ppn, loaded.segments[0][0]);
}

/// Two threads of one process and two mutexes: thread 0 holds mutex 0 and
/// runs, thread 1 holds mutex 1 and waits for mutex 0.
fn crossed_locks(detect: bool) -> Kernel {
    let mut k = boot();
    k.spawn(&program(), 0, NO_PARENT).unwrap();
    assert_eq!(k.enable_deadlock_detect(1), -1);
    assert_eq!(k.find_next(), Some(0));
    assert_eq!(k.thread_create(0x100, 1).0, 1);
    assert_eq!(k.mutex_create(true), 0);
    assert_eq!(k.mutex_create(true), 1);
    if detect {
        assert_eq!(k.enable_deadlock_detect(1), 0);
    }
    assert_eq!(k.mutex_lock(0), 0);
    k.preempt();
    assert_eq!(k.find_next(), Some(1));
    assert_eq!(k.mutex_lock(1), 0);
    assert_eq!(k.mutex_lock(0), -1);
    assert_eq!(k.processor().state(1), Some(ThreadState::Blocked(WaitTarget::Mutex(0))));
    assert_eq!(k.find_next(), Some(0));
    k
}

#[test]
fn a_lock_that_would_close_a_cycle_is_refused() {
    let mut k = crossed_locks(true);
    assert_eq!(DEADLOCK, -0xDEAD);
    assert_eq!(k.mutex_lock(1), DEADLOCK);
    // nothing has changed: the thread runs on and can give way
    assert_eq!(k.processor().state(0), Some(ThreadState::Running));
    assert_eq!(k.processor().mutex_holder(1), Some(1));
    assert!(!k.is_deadlocked());
    assert_eq!(k.mutex_unlock(0), 0);
    assert_eq!(k.processor().mutex_holder(0), Some(1));
    assert!(k.processor().is_ready(1));
    // now thread 1 does not wait any more, and thread 0 may wait for it
    assert_eq!(k.mutex_lock(1), -1);
    assert_eq!(k.processor().state(0), Some(ThreadState::Blocked(WaitTarget::Mutex(1))));
    assert!(!k.is_deadlocked());
}

#[test]
fn without_the_search_the_threads_wait_for_each_other() {
    let mut k = crossed_locks(false);
    assert_eq!(k.mutex_lock(1), -1);
    assert_eq!(k.processor().state(0), Some(ThreadState::Blocked(WaitTarget::Mutex(1))));
    assert_eq!(k.find_next(), None);
    assert!(k.is_deadlocked());
}

#[test]
fn a_thread_cannot_wait_for_a_mutex_that_it_holds() {
    let mut k = boot();
    k.spawn(&program(), 0, NO_PARENT).unwrap();
    assert_eq!(k.find_next(), Some(0));
    assert_eq!(k.mutex_create(true), 0);
    assert_eq!(k.enable_deadlock_detect(-1), -1);
    assert_eq!(k.enable_deadlock_detect(1), 0);
    assert!(k.processor().detects(0));
    assert!(!k.processor().detects(1));
    assert_eq!(k.mutex_lock(0), 0);
    assert_eq!(k.mutex_lock(0), DEADLOCK);
    assert_eq!(k.processor().state(0), Some(ThreadState::Running));
    // switched off again, the thread blocks itself for ever
    assert_eq!(k.enable_deadlock_detect(0), 0);
    assert!(!k.processor().detects(0));
    assert_eq!(k.mutex_lock(0), -1);
    assert_eq!(k.processor().state(0), Some(ThreadState::Blocked(WaitTarget::Mutex(0))));
    assert!(k.is_deadlocked());
}

#[test]
fn the_search_is_switched_on_process_by_process() {
    let mut k = boot();
    k.spawn(&program(), 0, NO_PARENT).unwrap();
    k.spawn(&program(), 0, 0).unwrap();
    assert_eq!(k.find_next(), Some(0));
    k.preempt();
    assert_eq!(k.find_next(), Some(1));
    assert_eq!(k.enable_deadlock_detect(1), 0);
    assert!(k.processor().detects(1));
    assert!(!k.processor().detects(0));
    assert_eq!(k.mutex_create(true), 0);
    assert_eq!(k.mutex_lock(0), 0);
    assert_eq!(k.mutex_lock(0), DEADLOCK);
}

#[test]
fn mmap_gives_a_process_new_pages() {
    let mut k = boot();
    k.spawn(&program(), 0, NO_PARENT).unwrap();
    assert_eq!(k.mmap(0x1000_0000, 4096, 3), (-1, Vec::new()));
    assert_eq!(k.find_next(), Some(0));
    let free = k.available_frames();
    let (ret, frames) = k.mmap(0x1000_0000, 4096, 3);
    assert_eq!((ret, frames.len()), (0, 1));
    let space = &k.get_proc(0).unwrap().address_space;
    let pte = space.entry(0x10000).unwrap();
    assert_eq!(pte.ppn, frames[0]);
    let f = pte.flags;
    assert!(f.valid && f.user && f.readable && f.writable && f.owned);
    assert!(!f.executable && !f.global);
    assert_eq!(space.translate(0x1000_0123, build_flags("U_WRV")), Some((frames[0] << 12) + 0x123));
    assert_eq!(space.entry(0x10001), None);
    assert!(k.available_frames() < free);
    // the pages next to it, the first of them mapped already
    assert_eq!(k.mmap(0x1000_0000 - 4096, 4096 + 1, 3).0, -1);
    // not the start of a page
    assert_eq!(k.mmap(0x1000_0000 + 4096 + 1, 4096, 3).0, -1);
    // no access, and more than access
    assert_eq!(k.mmap(0x1000_0000 + 4096, 4096, 0).0, -1);
    assert_eq!(k.mmap(0x1000_0000 + 4096, 4096, 3 | 8).0, -1);
    assert_eq!(k.mmap(0x1000_0000 + 4096, 0, 3).0, -1);
    assert_eq!(k.mmap(0x80_0000_0000 - 4096, 4096 + 1, 3).0, -1);
    assert_eq!(k.get_proc(0).unwrap().address_space.entry(0x10001), None);
    // a page and one byte are two pages; reading only
    let (ret, frames) = k.mmap(0x2000_0000, 4096 + 1, 1);
    assert_eq!((ret, frames.len()), (0, 2));
    let space = &k.get_proc(0).unwrap().address_space;
    assert_eq!(space.translate(0x2000_1000, build_flags("U__RV")), Some(frames[1] << 12));
    assert_eq!(space.translate(0x2000_1000, build_flags("U_WRV")), None);
    let (ret, frames) = k.mmap(0x3000_0000, 1, 4);
    assert_eq!((ret, frames.len()), (0, 1));
    let f = k.get_proc(0).unwrap().address_space.entry(0x30000).unwrap().flags;
    assert!(f.executable && !f.readable && !f.writable && f.user);
}

#[test]
fn mmap_fails_when_frames_run_out() {
    let mut k = boot_with(64);
    k.spawn(&program(), 0, NO_PARENT).unwrap();
    assert_eq!(k.find_next(), Some(0));
    let free = k.available_frames();
    assert_eq!(k.mmap(0x1000_0000, 4096 * (free + 1), 3), (-1, Vec::new()));
    assert_eq!(k.get_proc(0).unwrap().address_space.entry(0x10000), None);
}

#[test]
fn munmap_takes_whole_mapped_ranges_away() {
    let mut k = boot();
    k.spawn(&program(), 0, NO_PARENT).unwrap();
    assert_eq!(k.munmap(0x10_000, 4096), -1);
    assert_eq!(k.find_next(), Some(0));
    assert_eq!(k.mmap(0x1000_0000, 4096, 3).0, 0);
    // a page that is not mapped; not the start of a page; nothing
    assert_eq!(k.munmap(0x1000_0000, 4096 + 1), -1);
    assert_eq!(k.munmap(0x1000_0000 + 1, 4096 - 1), -1);
    assert_eq!(k.munmap(0x1000_0000, 0), -1);
    assert!(k.get_proc(0).unwrap().address_space.entry(0x10000).is_some());
    assert_eq!(k.munmap(0x1000_0000, 4096), 0);
    assert_eq!(k.get_proc(0).unwrap().address_space.entry(0x10000), None);
    assert_eq!(k.munmap(0x1000_0000, 4096), -1);
    // the page can be mapped again
    assert_eq!(k.mmap(0x1000_0000, 4096, 1).0, 0);
    // the trampoline is not the process's to unmap
    assert_eq!(k.munmap((TRAMPOLINE_VPN as usize) << 12, 4096), -1);
    assert!(k.get_proc(0).unwrap().address_space.entry(TRAMPOLINE_VPN).is_some());
    // the program's own pages are
    assert_eq!(k.munmap(0x10_000, 4096 * 3), 0);
    assert_eq!(k.get_proc(0).unwrap().address_space.entry(0x11), None);
}

#[test]
fn bytes_lie_in_whole_pages() {
    assert_eq!(page_range(0x1000, 1), Some((1, 2)));
    assert_eq!(page_range(0x1000, 4096), Some((1, 2)));
    assert_eq!(page_range(0x1000, 4097), Some((1, 3)));
    assert_eq!(page_range(0, 1 << 39), Some((0, 1 << 27)));
    assert_eq!(page_range(0x1000, 1 << 39), None);
    assert_eq!(page_range(0x1001, 1), None);
    assert_eq!(page_range(0x1000, 0), None);
    assert_eq!(page_range(usize::MAX - 4095, 4096), None);
}

#[test]
fn a_program_that_fits_is_started_while_frames_suffice() {
    let mut k = boot_with(200);
    // three pages of parts and two of stack: three frames each, and three more
    let owed = 3 + 3 * (3 + 2);
    let mut started = 0;
    loop {
        let free = k.available_frames();
        match k.spawn(&program(), 0x10_000, NO_PARENT) {
            Ok(_) => started += 1,
            Err(e) => {
                assert_eq!(e, SpawnError::Memory(MapError::OutOfFrames));
                assert!(free < owed);
                assert_eq!(k.available_frames(), free);
                break;
            }
        }
        assert!(started < 200);
    }
    assert!(started > 0);
}

#[test]
fn a_program_whose_parts_meet_is_refused() {
    let mut k = boot();
    let free = k.available_frames();
    let meeting = vec![
        Segment { start: 0x10, end: 0x12, flags: build_flags("X_R") },
        Segment { start: 0x11, end: 0x13, flags: build_flags("WR") },
    ];
    assert_eq!(k.spawn(&meeting, 0, NO_PARENT).err(), Some(SpawnError::Memory(MapError::AlreadyMapped)));
    let backwards = vec![Segment { start: 0x12, end: 0x10, flags: build_flags("R") }];
    assert_eq!(k.spawn(&backwards, 0, NO_PARENT).err(), Some(SpawnError::Memory(MapError::BadRange)));
    let on_the_stack =
        vec![Segment { start: USER_STACK_TOP - 1, end: USER_STACK_TOP, flags: build_flags("R") }];
    assert_eq!(
        k.spawn(&on_the_stack, 0, NO_PARENT).err(),
        Some(SpawnError::Memory(MapError::AlreadyMapped))
    );
    let on_the_trampoline =
        vec![Segment { start: TRAMPOLINE_VPN, end: TRAMPOLINE_VPN + 1, flags: build_flags("R") }];
    assert_eq!(
        k.spawn(&on_the_trampoline, 0, NO_PARENT).err(),
        Some(SpawnError::Memory(MapError::AlreadyMapped))
    );
    assert_eq!(k.available_frames(), free);
    assert!(k.get_proc(0).is_none());
}

#[test]
fn fork_goes_on_while_frames_suffice() {
    let mut k = boot_with(120);
    k.spawn(&program(), 0x10_000, NO_PARENT).unwrap();
    assert_eq!(k.find_next(), Some(0));
    // six pages are mapped: three of the program, two of the stack, the trampoline
    let owed = 1 + 3 * 6;
    let mut children = 0;
    loop {
        let free = k.available_frames();
        let (pid, copies) = k.fork();
        if pid < 0 {
            assert!(free < owed);
            assert_eq!(k.available_frames(), free);
            assert!(copies.is_empty());
            break;
        }
        assert_eq!(copies.len(), 5);
        children += 1;
        assert!(children < 120);
    }
    assert!(children > 0);
}

#[test]
fn threads_are_made_while_frames_suffice() {
    let mut k = boot_with(100);
    k.spawn(&program(), 0x10_000, NO_PARENT).unwrap();
    assert_eq!(k.find_next(), Some(0));
    let mut threads = 0;
    loop {
        let free = k.available_frames();
        let (tid, stack) = k.thread_create(0x100, 0);
        if tid < 0 {
            assert!(free < 6);
            assert!(stack.is_empty());
            break;
        }
        assert_eq!(stack.len(), 2);
        threads += 1;
        assert!(threads < 100);
    }
    assert!(threads > 0);
}

#[test]
fn preempted_processes_run_in_turns() {
    let mut list: VecDeque<u8> = VecDeque::from(vec![10, 11, 12]);
    let mut c = Context::user(0x1000);
    // the timer sends the head to the back: the next one runs
    let fate = schedule(&mut c, TrapClass::Timer, SyscallResult::Done(0));
    settle(&mut list, fate);
    assert_eq!(list, VecDeque::from(vec![11, 12, 10]));
    let fate = schedule(&mut c, TrapClass::Device, SyscallResult::Done(0));
    settle(&mut list, fate);
    assert_eq!(list, VecDeque::from(vec![12, 10, 11]));
    // a call that gives the processor up does so too, and is stepped over
    c.set_a(7, 124);
    let fate = schedule(&mut c, TrapClass::Syscall, SyscallResult::Done(0));
    assert_eq!((fate, c.pc(), c.a(0)), (Fate::Requeue, 0x1004, 0));
    settle(&mut list, fate);
    assert_eq!(list, VecDeque::from(vec![10, 11, 12]));
    // another call leaves the process at the head
    c.set_a(7, 64);
    let fate = schedule(&mut c, TrapClass::Syscall, SyscallResult::Done(3));
    assert_eq!(fate, Fate::Continue);
    settle(&mut list, fate);
    assert_eq!(list, VecDeque::from(vec![10, 11, 12]));
    // a fault takes the head away
    let fate = schedule(&mut c, TrapClass::Fault, SyscallResult::Done(0));
    settle(&mut list, fate);
    assert_eq!(list, VecDeque::from(vec![11, 12]));
    settle(&mut list, Fate::Remove);
    settle(&mut list, Fate::Requeue);
    assert_eq!(list, VecDeque::from(vec![12]));
    settle(&mut list, Fate::Remove);
    settle(&mut list, Fate::Remove);
    settle(&mut list, Fate::Requeue);
    assert!(list.is_empty());
}

#[test]
fn the_heap_begins_behind_the_program() {
    assert_eq!(heap_bottom(&program()), 0x13_000);
    assert_eq!(heap_bottom(&Vec::new()), 0);
    let mut k = boot();
    assert_eq!(k.sbrk(0), (-1, Vec::new()));
    k.spawn(&program(), 0x10_000, NO_PARENT).unwrap();
    assert_eq!(k.get_proc(0).unwrap().heap, Heap { bottom: 0x13_000, brk: 0x13_000 });
    assert_eq!(k.find_next(), Some(0));
    assert_eq!(k.sbrk(0), (0x13_000, Vec::new()));
    // the heap cannot go under its bottom
    assert_eq!(k.sbrk(-1), (-1, Vec::new()));
}

#[test]
fn sbrk_maps_and_unmaps_the_pages_of_the_heap() {
    let mut k = boot();
    k.spawn(&program(), 0x10_000, NO_PARENT).unwrap();
    assert_eq!(k.find_next(), Some(0));
    // one byte takes a page
    let (ret, frames) = k.sbrk(1);
    assert_eq!((ret, frames.len()), (0x13_000, 1));
    let space = &k.get_proc(0).unwrap().address_space;
    assert_eq!(space.translate(0x13_000, build_flags("U_WRV")), Some(frames[0] << 12));
    assert_eq!(space.translate(0x13_000, build_flags("UX__V")), None);
    assert_eq!(space.entry(0x14), None);
    assert_eq!(k.get_proc(0).unwrap().heap.brk, 0x13_001);
    // up to the end of the page nothing more is mapped
    assert_eq!(k.sbrk(0xfff), (0x13_001, Vec::new()));
    // two pages and a byte more: three pages
    let (ret, frames) = k.sbrk(0x2001);
    assert_eq!((ret, frames.len()), (0x14_000, 3));
    let space = &k.get_proc(0).unwrap().address_space;
    assert_eq!(space.entry(0x14).unwrap().ppn, frames[0]);
    assert_eq!(space.entry(0x16).unwrap().ppn, frames[2]);
    assert_eq!(space.entry(0x17), None);
    // back by a byte: the last page goes
    assert_eq!(k.sbrk(-1), (0x16_001, Vec::new()));
    let space = &k.get_proc(0).unwrap().address_space;
    assert_eq!(space.entry(0x16), None);
    assert!(space.entry(0x15).is_some());
    // back to the bottom, and no further
    assert_eq!(k.sbrk(-0x3000), (0x16_000, Vec::new()));
    assert_eq!(k.get_proc(0).unwrap().heap, Heap { bottom: 0x13_000, brk: 0x13_000 });
    assert_eq!(k.get_proc(0).unwrap().address_space.entry(0x13), None);
    assert!(k.get_proc(0).unwrap().address_space.entry(0x12).is_some());
    assert_eq!(k.sbrk(-1).0, -1);
}

#[test]
fn the_heap_does_not_grow_into_what_is_mapped() {
    let mut k = boot();
    k.spawn(&program(), 0x10_000, NO_PARENT).unwrap();
    assert_eq!(k.find_next(), Some(0));
    assert_eq!(k.mmap(0x15_000, 4096, 3).0, 0);
    assert_eq!(k.sbrk(0x2000).0, 0x13_000);
    let free = k.available_frames();
    assert_eq!(k.sbrk(1), (-1, Vec::new()));
    assert_eq!(k.available_frames(), free);
    assert_eq!(k.get_proc(0).unwrap().heap.brk, 0x15_000);
    // a child has the heap of its parent, a new program a new one
    let (child, _) = k.fork();
    assert_eq!(child, 1);
    assert_eq!(k.get_proc(1).unwrap().heap, Heap { bottom: 0x13_000, brk: 0x15_000 });
    let bigger = vec![Segment { start: 0x20, end: 0x30, flags: build_flags("WR") }];
    k.exec(&bigger, 0x20_000).unwrap();
    assert_eq!(k.get_proc(0).unwrap().heap, Heap { bottom: 0x30_000, brk: 0x30_000 });
}
