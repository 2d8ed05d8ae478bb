use tg_kernel::address::{index_of, page_base, page_ceil, page_of, page_offset, Sv39, TRAMPOLINE_VPN};
use tg_kernel::flags::{build_flags, parse_flags, VmFlags};
use tg_kernel::frame::FrameAllocator;
use tg_kernel::space::{trampoline_flags, AddressSpace, MapError, Pte};

#[test]
fn flags_are_read_from_letters() {
    let f = build_flags("U_WRV");
    assert!(f.user && f.writable && f.readable && f.valid);
    assert!(!f.executable && !f.global && !f.accessed && !f.dirty && !f.owned);
    assert_eq!(f.val(), 0b10111);
    assert_eq!(build_flags("__G_XWRV").val(), 0b101111);
    assert_eq!(build_flags("X_RV").val(), 0b1011);
    assert_eq!(build_flags("__RV").val(), 0b11);
    assert_eq!(build_flags("_WRV").val(), 0b111);
    assert_eq!(build_flags("RV").val(), 0b11);
    assert_eq!(build_flags("W_V").val(), 0b101);
    assert_eq!(build_flags("da").val(), 0b1100_0000);
    assert_eq!(build_flags("").val(), 0);
    assert_eq!(build_flags("12 ?z"), VmFlags::empty());
    assert_eq!(parse_flags("xwrv"), Ok(build_flags("XWRV")));
}

#[test]
fn flags_round_trip_through_numbers() {
    for raw in 0..512usize {
        assert_eq!(VmFlags::from_raw(raw).val(), raw);
    }
    assert_eq!(VmFlags::from_raw(512 + 3).val(), 3);
    let owned = VmFlags::from_raw(1 << 8);
    assert!(owned.owned && !owned.valid);
}

#[test]
fn contains_asks_for_every_flag() {
    let page = build_flags("U_WRV");
    assert!(page.contains(build_flags("RV")));
    assert!(page.contains(build_flags("W_V")));
    assert!(!page.contains(build_flags("XV")));
    assert!(page.contains(VmFlags::empty()));
    let read_only = build_flags("U__RV");
    assert!(read_only.contains(build_flags("RV")));
    assert!(!read_only.contains(build_flags("W_V")));
    assert!(!build_flags("U_W_V").contains(build_flags("RV")));
    assert!(build_flags("V").union(build_flags("R")).contains(build_flags("RV")));
    assert!(build_flags("R").is_leaf() && !build_flags("V").is_leaf());
    assert!(Sv39::is_leaf(0b0010) && Sv39::is_leaf(0b1000) && !Sv39::is_leaf(0b10001));
}

#[test]
fn addresses_split_into_page_and_offset() {
    assert_eq!(page_of(0x1234_5678), 0x12345);
    assert_eq!(page_offset(0x1234_5678), 0x678);
    assert_eq!(page_of(u64::MAX), TRAMPOLINE_VPN);
    assert_eq!(page_ceil(0x1000), 1);
    assert_eq!(page_ceil(0x1001), 2);
    assert_eq!(page_base(3), 0x3000);
    let vpn = (5 << 18) | (6 << 9) | 7;
    assert_eq!(index_of(vpn, 2), 5);
    assert_eq!(index_of(vpn, 1), 6);
    assert_eq!(index_of(vpn, 0), 7);
    assert_eq!(index_of(TRAMPOLINE_VPN, 2), 511);
}

#[test]
fn allocator_hands_each_frame_out_once() {
    let mut a = FrameAllocator::new(0x80000, 3).unwrap();
    assert_eq!(a.available(), 3);
    assert_eq!(a.allocate(), Some(0x80000));
    assert_eq!(a.allocate(), Some(0x80001));
    assert!(a.is_allocated(0x80000));
    assert!(!a.is_allocated(0x80002));
    assert!(!a.is_allocated(5));
    assert!(a.deallocate(0x80000));
    assert!(!a.deallocate(0x80000));
    assert!(!a.deallocate(0x90000));
    assert_eq!(a.allocate(), Some(0x80000));
    assert_eq!(a.allocate(), Some(0x80002));
    assert_eq!(a.allocate(), None);
    assert_eq!(a.available(), 0);
    assert!(FrameAllocator::new(1 << 44, 1).is_none());
    assert!(FrameAllocator::new((1 << 44) - 1, 1).is_some());
}

fn big() -> FrameAllocator {
    FrameAllocator::new(0x80000, 64).unwrap()
}

#[test]
fn translate_checks_mapping_and_permissions() {
    let mut frames = big();
    let mut s = AddressSpace::new(&mut frames).unwrap();
    assert_eq!(s.translate(0x1000, build_flags("RV")), None);
    assert_eq!(s.map_extern(&mut frames, 1, 3, 0x9_0000, build_flags("U__RV")), Ok(()));
    assert_eq!(s.translate(0x1000, build_flags("RV")), Some(0x9_0000 << 12));
    assert_eq!(s.translate(0x2abc, build_flags("RV")), Some((0x9_0001 << 12) + 0xabc));
    // read-only: a write is refused
    assert_eq!(s.translate(0x1000, build_flags("W_V")), None);
    // the neighbours are not mapped
    assert_eq!(s.translate(0x0fff, build_flags("V")), None);
    assert_eq!(s.translate(0x3000, build_flags("V")), None);
    assert_eq!(
        s.entry(2),
        Some(Pte { ppn: 0x9_0001, flags: build_flags("U__RV") })
    );
    assert_eq!(s.entry(3), None);
    assert_eq!(s.entry(2).unwrap().raw(), (0x9_0001 << 10) | 0b10011);
    // bits above the 39th do not count
    assert_eq!(s.translate((1 << 39) | 0x1004, build_flags("RV")), Some((0x9_0000 << 12) + 4));
    // write-only pages are not readable
    assert_eq!(s.map_extern(&mut frames, 8, 9, 0x9_0008, build_flags("U_W_V")), Ok(()));
    assert_eq!(s.translate(0x8000, build_flags("RV")), None);
    assert_eq!(s.translate(0x8000, build_flags("W_V")), Some(0x9_0008 << 12));
}

#[test]
fn mapping_errors_leave_the_space_alone() {
    let mut frames = big();
    let mut s = AddressSpace::new(&mut frames).unwrap();
    assert_eq!(s.map_extern(&mut frames, 4, 6, 100, build_flags("RV")), Ok(()));
    assert_eq!(s.map_extern(&mut frames, 5, 9, 200, build_flags("RV")), Err(MapError::AlreadyMapped));
    assert_eq!(s.entry(6), None);
    assert_eq!(s.entry(5).unwrap().ppn, 101);
    assert_eq!(s.map_extern(&mut frames, 9, 8, 200, build_flags("RV")), Err(MapError::BadRange));
    assert_eq!(
        s.map_extern(&mut frames, 0, (1 << 27) + 1, 0, build_flags("RV")),
        Err(MapError::BadRange)
    );
    assert_eq!(
        s.map_extern(&mut frames, 0, 2, (1 << 44) - 1, build_flags("RV")),
        Err(MapError::BadRange)
    );
    assert_eq!(s.map_extern(&mut frames, 10, 11, 1, build_flags("R")), Err(MapError::BadFlags));
    assert_eq!(
        s.map_extern(&mut frames, 10, 11, 1, VmFlags::from_raw(0x103)),
        Err(MapError::BadFlags)
    );
    assert_eq!(s.map_with_allocation(&mut frames, 10, 11, build_flags("R")), Err(MapError::BadFlags));
    assert_eq!(
        s.map_with_allocation(&mut frames, 4, 5, build_flags("RV")),
        Err(MapError::AlreadyMapped)
    );
    assert!(s.is_range_free(6, 100));
    assert!(!s.is_range_free(0, 5));
    assert!(s.is_range_free(7, 3));
    // an empty range maps nothing
    assert_eq!(s.map_extern(&mut frames, 7, 7, 1, build_flags("RV")), Ok(()));
    assert_eq!(s.entry(7), None);
}

#[test]
fn running_out_of_frames_fails_closed() {
    let mut frames = FrameAllocator::new(10, 3).unwrap();
    let mut s = AddressSpace::new(&mut frames).unwrap();
    // two tables are needed for the first page: both frames go
    assert_eq!(s.map_extern(&mut frames, 0, 1, 500, build_flags("RV")), Ok(()));
    assert_eq!(frames.available(), 0);
    // the same leaf table serves the neighbour
    assert_eq!(s.map_extern(&mut frames, 1, 2, 501, build_flags("RV")), Ok(()));
    // a page far away needs a table that cannot be had
    assert_eq!(
        s.map_extern(&mut frames, 600, 700, 900, build_flags("RV")),
        Err(MapError::OutOfFrames)
    );
    assert!(s.is_range_free(600, 700));
    assert_eq!(
        s.map_with_allocation(&mut frames, 2, 3, build_flags("RV")),
        Err(MapError::OutOfFrames)
    );
    assert_eq!(s.entry(2), None);
    assert_eq!(s.entry(0).unwrap().ppn, 500);
    assert!(AddressSpace::new(&mut frames).is_none());
}

#[test]
fn allocated_pages_are_owned_and_apart() {
    let mut frames = big();
    let mut a = AddressSpace::new(&mut frames).unwrap();
    let mut b = AddressSpace::new(&mut frames).unwrap();
    let fa = a.map_with_allocation(&mut frames, 16, 20, build_flags("U_WRV")).unwrap();
    let fb = b.map_with_allocation(&mut frames, 16, 20, build_flags("U_WRV")).unwrap();
    assert_eq!(fa.len(), 4);
    assert_eq!(fb.len(), 4);
    for i in 0..4u64 {
        let ea = a.entry(16 + i).unwrap();
        let eb = b.entry(16 + i).unwrap();
        assert_eq!(ea.ppn, fa[i as usize]);
        assert_eq!(eb.ppn, fb[i as usize]);
        assert!(ea.flags.owned && ea.flags.user && ea.flags.writable);
        assert!(frames.is_allocated(ea.ppn));
        for j in 0..4 {
            assert_ne!(fa[i as usize], fb[j]);
        }
        let va = (16 + i) << 12;
        let pa = a.translate(va, build_flags("RV")).unwrap();
        let pb = b.translate(va, build_flags("RV")).unwrap();
        assert_ne!(pa >> 12, pb >> 12);
    }
    assert_ne!(a.root_ppn(), b.root_ppn());
}

#[test]
fn trampoline_is_the_same_everywhere() {
    let mut frames = big();
    let tramp = 0x8_1234;
    let mut kernel = AddressSpace::new(&mut frames).unwrap();
    let mut user = AddressSpace::new(&mut frames).unwrap();
    assert_eq!(kernel.map_trampoline(&mut frames, tramp), Ok(()));
    assert_eq!(user.map_trampoline(&mut frames, tramp), Ok(()));
    let top = TRAMPOLINE_VPN << 12;
    let expect = Pte { ppn: tramp, flags: trampoline_flags() };
    assert_eq!(trampoline_flags(), build_flags("__G_XWRV"));
    assert_eq!(kernel.entry(TRAMPOLINE_VPN), Some(expect));
    assert_eq!(user.entry(TRAMPOLINE_VPN), Some(expect));
    // unrelated mappings come and go
    user.map_with_allocation(&mut frames, 0x10, 0x20, build_flags("U_WRV")).unwrap();
    user.map_extern(&mut frames, TRAMPOLINE_VPN - 4, TRAMPOLINE_VPN, 77, build_flags("RV"))
        .unwrap();
    user.unmap(0x10, 0x18);
    user.unmap(TRAMPOLINE_VPN - 4, TRAMPOLINE_VPN);
    kernel.map_extern(&mut frames, 0x80000, 0x80100, 0x80000, build_flags("_WRV")).unwrap();
    assert_eq!(kernel.entry(TRAMPOLINE_VPN), Some(expect));
    assert_eq!(user.entry(TRAMPOLINE_VPN), Some(expect));
    assert_eq!(
        kernel.translate(top + 8, build_flags("XV")),
        user.translate(top + 8, build_flags("XV"))
    );
    assert_eq!(user.translate(top + 8, build_flags("XV")), Some((tramp << 12) + 8));
    // the trampoline is not a user page
    assert_eq!(user.translate(top, build_flags("U")), None);
    assert_eq!(user.map_trampoline(&mut frames, tramp), Err(MapError::AlreadyMapped));
    let mut other = AddressSpace::new(&mut frames).unwrap();
    assert_eq!(other.map_trampoline(&mut frames, 1 << 44), Err(MapError::BadRange));
}

#[test]
fn unmap_takes_only_the_named_pages() {
    let mut frames = big();
    let mut s = AddressSpace::new(&mut frames).unwrap();
    s.map_extern(&mut frames, 0, 8, 1000, build_flags("RV")).unwrap();
    s.unmap(2, 5);
    for v in 0..8u64 {
        let e = s.entry(v);
        if (2..5).contains(&v) {
            assert_eq!(e, None);
        } else {
            assert_eq!(e.unwrap().ppn, 1000 + v);
        }
    }
    s.unmap(5, 2);
    s.unmap(100, u64::MAX);
    assert_eq!(s.entry(5).unwrap().ppn, 1005);
    // what was unmapped can be mapped again
    assert_eq!(s.map_extern(&mut frames, 2, 5, 2000, build_flags("RV")), Ok(()));
    assert_eq!(s.entry(3).unwrap().ppn, 2001);
}

#[test]
fn teardown_gives_every_frame_back() {
    let mut frames = big();
    let before = frames.available();
    let mut s = AddressSpace::new(&mut frames).unwrap();
    s.map_with_allocation(&mut frames, 0, 5, build_flags("U_WRV")).unwrap();
    s.map_extern(&mut frames, 1 << 20, (1 << 20) + 2, 0x80000 + 60, build_flags("RV")).unwrap();
    s.unmap(0, 2);
    assert!(frames.available() < before);
    let shared = 0x80000 + 60;
    let was = frames.is_allocated(shared);
    s.teardown(&mut frames);
    assert_eq!(frames.available(), before);
    assert_eq!(frames.is_allocated(shared), was);
}
