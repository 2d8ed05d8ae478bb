use tg_kernel::flags::build_flags;
use tg_kernel::frame::FrameAllocator;
use tg_kernel::heap::{dma_alloc, BumpAllocator, DMA_PAGE};
use tg_kernel::io::{open_access, path_byte, path_step};
use tg_kernel::kernel::{Kernel, Segment, NO_PARENT};
use tg_kernel::layout::{kernel_space, KernelRegion, KernelRegionTitle};
use tg_kernel::signal::{handleable, plan_sigaction, sendable, SigactionPlan, MAX_SIG};
use tg_kernel::user::{
    counting_over, entropy_step, pipe_finished, pipe_read, pipe_write, reads_clock, PipeStep,
    TRY_AGAIN,
};

fn kernel_with_one_process() -> (Kernel, u64, u64) {
    let mut frames = FrameAllocator::new(0x90_000, 128).unwrap();
    let regions =
        vec![KernelRegion { title: KernelRegionTitle::Text, start: 0x8020_0000, end: 0x8020_2000 }];
    let space =
        kernel_space(&mut frames, &regions, 0x8020_2000, 0x8020_4000, 0x80_100 << 12, &Vec::new())
            .unwrap();
    let mut k = Kernel::new(frames, space, 0x80_100).unwrap();
    let program = vec![
        Segment { start: 0x10, end: 0x11, flags: build_flags("X_R") },
        Segment { start: 0x12, end: 0x13, flags: build_flags("WR") },
    ];
    let s = k.spawn(&program, 0x10_000, NO_PARENT).unwrap();
    let code = s.frames.segments[0][0];
    let data = s.frames.segments[1][0];
    (k, code, data)
}

#[test]
fn bump_allocator_rounds_up_and_never_goes_back() {
    let mut a = BumpAllocator::new();
    assert_eq!(a.allocate(1, 1), None);
    a.init(0x1001, 0x1100);
    assert_eq!(a.allocate(3, 1), Some(0x1001));
    assert_eq!(a.next, 0x1004);
    assert_eq!(a.allocate(8, 16), Some(0x1010));
    assert_eq!(a.next, 0x1018);
    assert_eq!(a.allocate(0x100, 8), None);
    assert_eq!(a.next, 0x1018);
    assert_eq!(a.allocate(0xe8, 8), Some(0x1018));
    assert_eq!(a.next, 0x1100);
    assert_eq!(a.allocate(1, 1), None);
    assert_eq!(a.allocate(0, 1), Some(0x1100));
}

#[test]
fn bump_allocator_refuses_what_would_wrap() {
    let mut a = BumpAllocator::new();
    a.init(usize::MAX - 2, usize::MAX);
    assert_eq!(a.allocate(1, 8), None);
    assert_eq!(a.allocate(usize::MAX, 1), None);
    assert_eq!(a.allocate(2, 1), Some(usize::MAX - 2));
    assert_eq!(a.allocate(4, 0), None);
}

#[test]
fn device_memory_is_taken_page_by_page() {
    assert_eq!(dma_alloc(0, 2, 4 * DMA_PAGE), Some((0, 2 * DMA_PAGE)));
    assert_eq!(dma_alloc(2 * DMA_PAGE, 2, 4 * DMA_PAGE), Some((2 * DMA_PAGE, 4 * DMA_PAGE)));
    assert_eq!(dma_alloc(2 * DMA_PAGE, 3, 4 * DMA_PAGE), None);
    assert_eq!(dma_alloc(0, usize::MAX, 4 * DMA_PAGE), None);
    assert_eq!(dma_alloc(4 * DMA_PAGE, 0, 4 * DMA_PAGE), Some((4 * DMA_PAGE, 4 * DMA_PAGE)));
}

#[test]
fn reading_a_pipe_goes_on_until_the_buffer_is_full() {
    assert_eq!(pipe_finished(0, 10), None);
    assert_eq!(pipe_finished(10, 10), Some(10));
    assert_eq!(pipe_read(0, 10, TRY_AGAIN), PipeStep::Retry);
    assert_eq!(pipe_read(0, 10, 4), PipeStep::Continue(4));
    assert_eq!(pipe_read(4, 10, 6), PipeStep::Continue(10));
    assert_eq!(pipe_read(4, 10, 0), PipeStep::Return(4));
    assert_eq!(pipe_read(4, 10, -1), PipeStep::Return(-1));
    assert_eq!(pipe_read(4, 10, 60), PipeStep::Continue(10));
}

#[test]
fn writing_a_pipe_goes_on_until_all_is_written() {
    assert_eq!(pipe_write(0, 10, TRY_AGAIN), PipeStep::Retry);
    assert_eq!(pipe_write(0, 10, 0), PipeStep::Continue(0));
    assert_eq!(pipe_write(3, 10, 7), PipeStep::Continue(10));
    assert_eq!(pipe_write(3, 10, -1), PipeStep::Return(-1));
    assert_eq!(pipe_write(3, 10, 2), PipeStep::Continue(5));
}

#[test]
fn random_bytes_are_asked_for_until_the_buffer_is_full() {
    assert_eq!(entropy_step(0, 16, Ok(6)), (6, true));
    assert_eq!(entropy_step(6, 16, Ok(10)), (16, false));
    assert_eq!(entropy_step(6, 16, Ok(100)), (16, false));
    assert_eq!(entropy_step(6, 16, Err(())), (6, false));
}

#[test]
fn the_clock_is_read_every_four_hundred_turns() {
    assert!(reads_clock(0));
    assert!(!reads_clock(1));
    assert!(!reads_clock(399));
    assert!(reads_clock(400));
    assert!(reads_clock(1200));
    assert!(!counting_over(4000));
    assert!(counting_over(4001));
    assert!(!counting_over(-1));
}

#[test]
fn signal_numbers_are_told_apart() {
    assert!(!sendable(0));
    assert!(sendable(1));
    assert!(sendable(63));
    assert!(!sendable(64));
    assert!(!sendable(255));
    assert!(!handleable(0));
    assert!(handleable(1));
    assert!(handleable(31));
    assert!(!handleable(32));
    assert_eq!(MAX_SIG, 31);
}

#[test]
fn sigaction_finds_its_records() {
    let (k, code, data) = kernel_with_one_process();
    let space = &k.get_proc(0).unwrap().address_space;
    assert_eq!(
        plan_sigaction(space, 10, 0x12_010, 0x12_020),
        Some(SigactionPlan {
            old_action: Some((data << 12) + 0x20),
            action: Some((data << 12) + 0x10),
        })
    );
    assert_eq!(
        plan_sigaction(space, 10, 0x10_010, 0),
        Some(SigactionPlan { old_action: None, action: Some((code << 12) + 0x10) })
    );
    assert_eq!(
        plan_sigaction(space, 10, 0, 0),
        Some(SigactionPlan { old_action: None, action: None })
    );
    // the old record is written, so it cannot lie in the program's code
    assert_eq!(plan_sigaction(space, 10, 0, 0x10_010), None);
    assert_eq!(plan_sigaction(space, 10, 0x50_000, 0), None);
    assert_eq!(plan_sigaction(space, 0, 0x12_010, 0x12_020), None);
    assert_eq!(plan_sigaction(space, 32, 0x12_010, 0x12_020), None);
}

#[test]
fn kill_reaches_living_processes_only() {
    let (k, _, _) = kernel_with_one_process();
    assert_eq!(k.kill_target(0, 9), Some(0));
    assert_eq!(k.kill_target(0, 63), Some(0));
    assert_eq!(k.kill_target(0, 0), None);
    assert_eq!(k.kill_target(0, 64), None);
    assert_eq!(k.kill_target(1, 9), None);
    assert_eq!(k.kill_target(-1, 9), None);
}

#[test]
fn a_path_is_read_byte_by_byte_up_to_its_zero() {
    let (k, code, data) = kernel_with_one_process();
    let process = k.get_proc(0).unwrap();
    assert_eq!(path_byte(process, 0x10_ffe, 0), Some((code << 12) + 0xffe));
    assert_eq!(path_byte(process, 0x10_ffe, 1), Some((code << 12) + 0xfff));
    // the page behind the code is not mapped
    assert_eq!(path_byte(process, 0x10_ffe, 2), None);
    assert_eq!(path_byte(process, 0x12_000, 0x234), Some((data << 12) + 0x234));
    assert_eq!(path_byte(process, 0x50_000, 0), None);
    assert_eq!(path_byte(process, usize::MAX, 1), None);
    let mut text = Vec::new();
    assert!(path_step(&mut text, b'/'));
    assert!(path_step(&mut text, b'a'));
    assert!(path_step(&mut text, 0xff));
    assert!(!path_step(&mut text, 0));
    assert_eq!(text, vec![b'/', b'a', 0xff]);
}

#[test]
fn open_flags_name_the_access() {
    assert_eq!(open_access(0), Some((true, false)));
    assert_eq!(open_access(1), Some((false, true)));
    assert_eq!(open_access(2), Some((true, true)));
    assert_eq!(open_access(3), Some((false, true)));
    assert_eq!(open_access(1 << 9), Some((true, true)));
    assert_eq!(open_access((1 << 9) | 1), Some((false, true)));
    assert_eq!(open_access((1 << 10) | 2), Some((true, true)));
    assert_eq!(open_access(0x603), Some((false, true)));
    // bits that are no flags
    assert_eq!(open_access(4), None);
    assert_eq!(open_access(0x100), None);
    assert_eq!(open_access(0x800), None);
    assert_eq!(open_access(0x8000_0000), None);
    // only the low 32 bits count
    assert_eq!(open_access(1 << 32), Some((true, false)));
    assert_eq!(open_access((1 << 32) | 1), Some((false, true)));
}
