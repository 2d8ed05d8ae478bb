//! The address space of the kernel itself.
//!
//! The kernel sees its own image and the memory behind it at their physical
//! addresses, the devices at theirs, and the trampoline at the top page.

use crate::address::{page_ceil, page_of, vpn_of, PAGE_SIZE, PPN_LIMIT, VADDR_LIMIT};
use crate::flags::VmFlags;
use crate::frame::FrameAllocator;
use crate::space::{
    frames_taken, has_trampoline, mapped_extern, range_free, range_ok, trampoline_entry,
    AddressSpace, MapError, Pte,
};
use vstd::prelude::*;

verus! {

/// The parts of the kernel's image.
#[derive(Clone, Copy, PartialEq, Eq, Structural, Debug)]
pub enum KernelRegionTitle {
    Text,
    Rodata,
    Data,
    Boot,
}

/// One part of the kernel's image: what it holds and the addresses it spans.
#[derive(Clone, Copy, PartialEq, Eq, Structural, Debug)]
pub struct KernelRegion {
    pub title: KernelRegionTitle,
    pub start: u64,
    pub end: u64,
}

/// The flags under which a part of the image is mapped: code can be run and
/// read, constants can be read, data can be read and written.
pub open spec fn region_flags(title: KernelRegionTitle) -> VmFlags {
    match title {
        KernelRegionTitle::Text => VmFlags {
            valid: true,
            readable: true,
            executable: true,
            ..VmFlags::zero()
        },
        KernelRegionTitle::Rodata => VmFlags { valid: true, readable: true, ..VmFlags::zero() },
        KernelRegionTitle::Data => data_flags(),
        KernelRegionTitle::Boot => data_flags(),
    }
}

/// The flags of memory that the kernel reads and writes.
pub open spec fn data_flags() -> VmFlags {
    VmFlags { valid: true, readable: true, writable: true, ..VmFlags::zero() }
}

/// The flags under which a part of the image is mapped.
pub fn flags_for(title: KernelRegionTitle) -> (f: VmFlags)
    ensures
        f == region_flags(title),
{
    let mut f = VmFlags::empty();
    f.valid = true;
    f.readable = true;
    match title {
        KernelRegionTitle::Text => {
            f.executable = true;
        },
        KernelRegionTitle::Rodata => {},
        KernelRegionTitle::Data => {
            f.writable = true;
        },
        KernelRegionTitle::Boot => {
            f.writable = true;
        },
    }
    f
}

/// The first page of the addresses from `start` on.
pub open spec fn first_page(start: u64) -> u64 {
    vpn_of(start)
}

/// The page behind the last page that the addresses up to `end` touch.
pub open spec fn end_page(end: u64) -> u64 {
    ((end % VADDR_LIMIT + PAGE_SIZE - 1) / (PAGE_SIZE as int)) as u64
}

/// The mappings `map` with the pages that the addresses from `start` up to
/// `end` touch mapped to the frames of the same numbers.
pub open spec fn identity_mapped(map: Map<u64, Pte>, start: u64, end: u64, flags: VmFlags) -> Map<
    u64,
    Pte,
> {
    mapped_extern(map, first_page(start), end_page(end), first_page(start), flags)
}

/// The mappings `map` with the first `n` parts of the image mapped.
pub open spec fn regions_mapped(map: Map<u64, Pte>, regions: Seq<KernelRegion>, n: int) -> Map<
    u64,
    Pte,
>
    decreases n,
{
    if n <= 0 {
        map
    } else {
        identity_mapped(
            regions_mapped(map, regions, n - 1),
            regions[n - 1].start,
            regions[n - 1].end,
            region_flags(regions[n - 1].title),
        )
    }
}

/// The mappings `map` with the first `n` of the page ranges `ranges` mapped
/// to the frames of the same numbers, for reading and writing.
pub open spec fn devices_mapped(map: Map<u64, Pte>, ranges: Seq<(u64, u64)>, n: int) -> Map<
    u64,
    Pte,
>
    decreases n,
{
    if n <= 0 {
        map
    } else {
        mapped_extern(
            devices_mapped(map, ranges, n - 1),
            ranges[n - 1].0,
            ranges[n - 1].1,
            ranges[n - 1].0,
            data_flags(),
        )
    }
}

/// The mappings of the kernel: the parts of its image, the memory from the
/// end of the image up to `memory_end`, the trampoline in the frame of the
/// address `portal`, and the devices.
pub open spec fn kernel_mappings(
    regions: Seq<KernelRegion>,
    image_end: u64,
    memory_end: u64,
    portal: u64,
    devices: Seq<(u64, u64)>,
) -> Map<u64, Pte> {
    let image = regions_mapped(Map::empty(), regions, regions.len() as int);
    let heap = identity_mapped(image, image_end, memory_end, data_flags());
    let with_portal = heap.insert(
        crate::address::TRAMPOLINE_VPN,
        trampoline_entry(portal / PAGE_SIZE),
    );
    devices_mapped(with_portal, devices, devices.len() as int)
}

/// Maps the pages that the addresses from `start` up to `end` touch to the
/// frames of the same numbers.
pub fn map_identity(
    space: &mut AddressSpace,
    frames: &mut FrameAllocator,
    start: u64,
    end: u64,
    flags: VmFlags,
) -> (r: Result<(), MapError>)
    requires
        old(space).wf(),
        old(frames).wf(),
        old(space).within(old(frames)),
    ensures
        final(space).wf(),
        final(frames).wf(),
        final(space).within(final(frames)),
        final(space).root_frame() == old(space).root_frame(),
        final(frames).first() == old(frames).first(),
        final(frames).count() == old(frames).count(),
        frames_taken(
            old(space).owned_frames(),
            final(space).owned_frames(),
            old(frames).allocated(),
            final(frames).allocated(),
        ),
        match r {
            Ok(()) => {
                &&& final(space)@ == identity_mapped(old(space)@, start, end, flags)
                &&& area_fits(old(space)@, start, end)
                &&& flags.valid && !flags.owned
            },
            Err(e) => {
                &&& final(space)@ == old(space)@
                &&& e == MapError::BadRange <==> first_page(start) > end_page(end)
                &&& e == MapError::BadFlags <==> first_page(start) <= end_page(end) && !(
                flags.valid && !flags.owned)
                &&& e == MapError::AlreadyMapped <==> first_page(start) <= end_page(end)
                    && flags.valid && !flags.owned && !range_free(
                    old(space)@,
                    first_page(start),
                    end_page(end),
                )
                &&& e == MapError::OutOfFrames ==> old(frames).free_frames() < 2 * (end_page(end)
                    - first_page(start))
            },
        },
        final(frames).free_frames() <= old(frames).free_frames(),
        first_page(start) <= end_page(end) ==> old(frames).free_frames()
            <= final(frames).free_frames() + 2 * (end_page(end) - first_page(start)),
{
    let first = page_of(start);
    let last = page_ceil(end);
    space.map_extern(frames, first, last, first, flags)
}

/// Whether the pages that the addresses from `start` up to `end` touch can
/// be mapped into `map`: there are such pages, or none, and none of them
/// is mapped.
pub open spec fn area_fits(map: Map<u64, Pte>, start: u64, end: u64) -> bool {
    first_page(start) <= end_page(end) && range_free(map, first_page(start), end_page(end))
}

/// Whether the pages from `first` up to `last` can be mapped into `map`.
pub open spec fn pages_fit(map: Map<u64, Pte>, first: u64, last: u64) -> bool {
    range_ok(first, last) && range_free(map, first, last)
}

/// Whether the address space of the kernel can be laid out: each part of
/// the image, the memory behind it, the trampoline and each device can be
/// mapped after what was mapped before it.
pub open spec fn kernel_fits(
    regions: Seq<KernelRegion>,
    image_end: u64,
    memory_end: u64,
    portal: u64,
    devices: Seq<(u64, u64)>,
) -> bool {
    let image = regions_mapped(Map::empty(), regions, regions.len() as int);
    let heap = identity_mapped(image, image_end, memory_end, data_flags());
    let with_portal = heap.insert(
        crate::address::TRAMPOLINE_VPN,
        trampoline_entry(portal / PAGE_SIZE),
    );
    &&& forall|i: int|
        0 <= i < regions.len() ==> area_fits(
            #[trigger] regions_mapped(Map::empty(), regions, i),
            regions[i].start,
            regions[i].end,
        )
    &&& area_fits(image, image_end, memory_end)
    &&& portal / PAGE_SIZE < PPN_LIMIT
    &&& !heap.contains_key(crate::address::TRAMPOLINE_VPN)
    &&& forall|j: int|
        0 <= j < devices.len() ==> pages_fit(
            #[trigger] devices_mapped(with_portal, devices, j),
            devices[j].0,
            devices[j].1,
        )
}

/// The number of pages of the first `n` parts of the image.
pub open spec fn pages_of_regions(regions: Seq<KernelRegion>, n: int) -> int
    decreases n,
{
    if n <= 0 {
        0
    } else {
        pages_of_regions(regions, n - 1) + (end_page(regions[n - 1].end) - first_page(
            regions[n - 1].start,
        ))
    }
}

/// The number of pages of the first `n` devices.
pub open spec fn pages_of_devices(devices: Seq<(u64, u64)>, n: int) -> int
    decreases n,
{
    if n <= 0 {
        0
    } else {
        pages_of_devices(devices, n - 1) + (devices[n - 1].1 - devices[n - 1].0)
    }
}

/// A number of free frames with which a kernel that can be laid out is
/// sure to get its address space: three for the root table and the tables
/// of the trampoline, and two for each other page, for the tables on the
/// way to it.
pub open spec fn frames_for_kernel(
    regions: Seq<KernelRegion>,
    image_end: u64,
    memory_end: u64,
    devices: Seq<(u64, u64)>,
) -> int {
    3 + 2 * (pages_of_regions(regions, regions.len() as int) + (end_page(memory_end)
        - first_page(image_end)) + pages_of_devices(devices, devices.len() as int))
}

/// Parts that can be mapped have no fewer pages together than the first of
/// them.
pub proof fn lemma_pages_of_regions(regions: Seq<KernelRegion>, n: int, m: int)
    requires
        0 <= n <= m <= regions.len(),
        forall|i: int|
            0 <= i < regions.len() ==> first_page(#[trigger] regions[i].start) <= end_page(
                regions[i].end,
            ),
    ensures
        0 <= pages_of_regions(regions, n) <= pages_of_regions(regions, m),
    decreases m,
{
    if m > n {
        lemma_pages_of_regions(regions, n, m - 1);
        assert(first_page(regions[m - 1].start) <= end_page(regions[m - 1].end));
    } else if n > 0 {
        lemma_pages_of_regions(regions, n - 1, n - 1);
        assert(first_page(regions[n - 1].start) <= end_page(regions[n - 1].end));
    }
}

/// Devices that can be mapped have no fewer pages together than the first
/// of them.
pub proof fn lemma_pages_of_devices(devices: Seq<(u64, u64)>, n: int, m: int)
    requires
        0 <= n <= m <= devices.len(),
        forall|j: int| 0 <= j < devices.len() ==> (#[trigger] devices[j]).0 <= devices[j].1,
    ensures
        0 <= pages_of_devices(devices, n) <= pages_of_devices(devices, m),
    decreases m,
{
    if m > n {
        lemma_pages_of_devices(devices, n, m - 1);
        assert(devices[m - 1].0 <= devices[m - 1].1);
    } else if n > 0 {
        lemma_pages_of_devices(devices, n - 1, n - 1);
        assert(devices[n - 1].0 <= devices[n - 1].1);
    }
}

/// Builds the address space of the kernel.  On an error every frame that
/// was taken has been given back.
pub fn kernel_space(
    frames: &mut FrameAllocator,
    regions: &Vec<KernelRegion>,
    image_end: u64,
    memory_end: u64,
    portal: u64,
    devices: &Vec<(u64, u64)>,
) -> (r: Result<AddressSpace, MapError>)
    requires
        old(frames).wf(),
    ensures
        final(frames).wf(),
        final(frames).first() == old(frames).first(),
        final(frames).count() == old(frames).count(),
        match r {
            Ok(space) => {
                &&& space.wf()
                &&& space.within(final(frames))
                &&& space.owned_frames().disjoint(old(frames).allocated())
                &&& final(frames).allocated() == old(frames).allocated().union(
                    space.owned_frames(),
                )
                &&& space@ == kernel_mappings(regions@, image_end, memory_end, portal, devices@)
                &&& has_trampoline(space@, portal / PAGE_SIZE)
                &&& kernel_fits(regions@, image_end, memory_end, portal, devices@)
            },
            Err(e) => {
                &&& final(frames).allocated() == old(frames).allocated()
                &&& e != MapError::OutOfFrames ==> !kernel_fits(
                    regions@,
                    image_end,
                    memory_end,
                    portal,
                    devices@,
                )
            },
        },
        kernel_fits(regions@, image_end, memory_end, portal, devices@)
            && old(frames).free_frames()
            >= frames_for_kernel(regions@, image_end, memory_end, devices@)
            ==> r is Ok,
{
    let ghost free0 = old(frames).free_frames();
    let ghost fits = kernel_fits(regions@, image_end, memory_end, portal, devices@);
    let ghost total = frames_for_kernel(regions@, image_end, memory_end, devices@);
    let ghost whole = identity_mapped(
        regions_mapped(Map::empty(), regions@, regions@.len() as int),
        image_end,
        memory_end,
        data_flags(),
    ).insert(crate::address::TRAMPOLINE_VPN, trampoline_entry(portal / PAGE_SIZE));
    proof {
        if fits {
            assert forall|i: int| 0 <= i < regions@.len() implies first_page(
                #[trigger] regions@[i].start,
            ) <= end_page(regions@[i].end) by {
                assert(area_fits(
                    regions_mapped(Map::empty(), regions@, i),
                    regions@[i].start,
                    regions@[i].end,
                ));
            }
            assert forall|k: int| 0 <= k < devices@.len() implies (#[trigger] devices@[k]).0
                <= devices@[k].1 by {
                assert(pages_fit(devices_mapped(whole, devices@, k), devices@[k].0, devices@[k].1));
            }
            lemma_pages_of_regions(regions@, 0, regions@.len() as int);
            lemma_pages_of_devices(devices@, 0, devices@.len() as int);
        }
    }
    let mut space = match AddressSpace::new(frames) {
        Some(space) => space,
        None => {
            return Err(MapError::OutOfFrames);
        },
    };
    let ghost a0 = old(frames).allocated();
    assert(fresh(space.owned_frames(), a0, frames.allocated())) by {
        assert(frames.allocated() =~= a0.union(space.owned_frames()));
    }
    let mut i: usize = 0;
    while i < regions.len()
        invariant
            i <= regions@.len(),
            space.wf(),
            frames.wf(),
            space.within(frames),
            frames.first() == old(frames).first(),
            frames.count() == old(frames).count(),
            a0 == old(frames).allocated(),
            fresh(space.owned_frames(), a0, frames.allocated()),
            space@ == regions_mapped(Map::empty(), regions@, i as int),
            free0 == old(frames).free_frames(),
            free0 <= frames.free_frames() + 1 + 2 * pages_of_regions(regions@, i as int),
            fits == kernel_fits(regions@, image_end, memory_end, portal, devices@),
            total == frames_for_kernel(regions@, image_end, memory_end, devices@),
            fits ==> forall|k: int|
                0 <= k < regions@.len() ==> first_page(#[trigger] regions@[k].start) <= end_page(
                    regions@[k].end,
                ),
            fits ==> 0 <= pages_of_devices(devices@, devices@.len() as int),
            forall|k: int|
                0 <= k < i ==> area_fits(
                    #[trigger] regions_mapped(Map::empty(), regions@, k),
                    regions@[k].start,
                    regions@[k].end,
                ),
        decreases regions@.len() - i,
    {
        let region = regions[i];
        proof {
            if fits {
                assert(area_fits(
                    regions_mapped(Map::empty(), regions@, i as int),
                    regions@[i as int].start,
                    regions@[i as int].end,
                ));
                lemma_pages_of_regions(regions@, i + 1, regions@.len() as int);
            }
        }
        let ghost o1 = space.owned_frames();
        let ghost a1 = frames.allocated();
        let r = map_identity(&mut space, frames, region.start, region.end, flags_for(region.title));
        proof {
            lemma_fresh_taken(o1, space.owned_frames(), a0, a1, frames.allocated());
        }
        if let Err(e) = r {
            proof {
                lemma_fresh_difference(space.owned_frames(), a0, frames.allocated());
            }
            space.teardown(frames);
            return Err(e);
        }
        i = i + 1;
    }
    let mut heap_flags = VmFlags::empty();
    heap_flags.valid = true;
    heap_flags.readable = true;
    heap_flags.writable = true;
    let ghost o1 = space.owned_frames();
    let ghost a1 = frames.allocated();
    let r = map_identity(&mut space, frames, image_end, memory_end, heap_flags);
    proof {
        lemma_fresh_taken(o1, space.owned_frames(), a0, a1, frames.allocated());
    }
    if let Err(e) = r {
        proof {
            lemma_fresh_difference(space.owned_frames(), a0, frames.allocated());
        }
        space.teardown(frames);
        return Err(e);
    }
    let ghost o2 = space.owned_frames();
    let ghost a2 = frames.allocated();
    let r = space.map_trampoline(frames, portal / PAGE_SIZE);
    proof {
        lemma_fresh_taken(o2, space.owned_frames(), a0, a2, frames.allocated());
    }
    if let Err(e) = r {
        proof {
            lemma_fresh_difference(space.owned_frames(), a0, frames.allocated());
        }
        space.teardown(frames);
        return Err(e);
    }
    let ghost with_portal = space@;
    let ghost before_devices = 3 + 2 * (pages_of_regions(regions@, regions@.len() as int) + (
    end_page(memory_end) - first_page(image_end)));
    proof {
        if fits {
            assert forall|k: int| 0 <= k < devices@.len() implies (#[trigger] devices@[k]).0
                <= devices@[k].1 by {
                assert(pages_fit(
                    devices_mapped(with_portal, devices@, k),
                    devices@[k].0,
                    devices@[k].1,
                ));
            }
        }
    }
    let mut j: usize = 0;
    while j < devices.len()
        invariant
            j <= devices@.len(),
            free0 == old(frames).free_frames(),
            total == frames_for_kernel(regions@, image_end, memory_end, devices@),
            forall|k: int|
                0 <= k < regions@.len() ==> area_fits(
                    #[trigger] regions_mapped(Map::empty(), regions@, k),
                    regions@[k].start,
                    regions@[k].end,
                ),
            area_fits(
                regions_mapped(Map::empty(), regions@, regions@.len() as int),
                image_end,
                memory_end,
            ),
            portal / PAGE_SIZE < PPN_LIMIT,
            !identity_mapped(
                regions_mapped(Map::empty(), regions@, regions@.len() as int),
                image_end,
                memory_end,
                data_flags(),
            ).contains_key(crate::address::TRAMPOLINE_VPN),
            forall|k: int|
                0 <= k < j ==> pages_fit(
                    #[trigger] devices_mapped(with_portal, devices@, k),
                    devices@[k].0,
                    devices@[k].1,
                ),
            fits == kernel_fits(regions@, image_end, memory_end, portal, devices@),
            fits ==> free0 <= frames.free_frames() + before_devices + 2 * pages_of_devices(
                devices@,
                j as int,
            ),
            fits ==> forall|k: int|
                0 <= k < devices@.len() ==> (#[trigger] devices@[k]).0 <= devices@[k].1,
            before_devices == 3 + 2 * (pages_of_regions(regions@, regions@.len() as int) + (
            end_page(memory_end) - first_page(image_end))),
            with_portal == identity_mapped(
                regions_mapped(Map::empty(), regions@, regions@.len() as int),
                image_end,
                memory_end,
                data_flags(),
            ).insert(crate::address::TRAMPOLINE_VPN, trampoline_entry(portal / PAGE_SIZE)),
            space.wf(),
            frames.wf(),
            space.within(frames),
            frames.first() == old(frames).first(),
            frames.count() == old(frames).count(),
            a0 == old(frames).allocated(),
            fresh(space.owned_frames(), a0, frames.allocated()),
            has_trampoline(space@, portal / PAGE_SIZE),
            heap_flags == data_flags(),
            space@ == devices_mapped(with_portal, devices@, j as int),
        decreases devices@.len() - j,
    {
        let (first, last) = devices[j];
        let ghost o3 = space.owned_frames();
        let ghost a3 = frames.allocated();
        proof {
            assert(devices@[j as int] == (first, last));
            if fits {
                assert(pages_fit(
                    devices_mapped(with_portal, devices@, j as int),
                    devices@[j as int].0,
                    devices@[j as int].1,
                ));
                lemma_pages_of_devices(devices@, j + 1, devices@.len() as int);
            }
        }
        let r = space.map_extern(frames, first, last, first, heap_flags);
        proof {
            lemma_fresh_taken(o3, space.owned_frames(), a0, a3, frames.allocated());
        }
        if let Err(e) = r {
            proof {
                lemma_fresh_difference(space.owned_frames(), a0, frames.allocated());
            }
            space.teardown(frames);
            return Err(e);
        }
        proof {
            assert(devices@[j as int] == (first, last));
            crate::space::lemma_trampoline_survives_map_extern(
                devices_mapped(with_portal, devices@, j as int),
                (portal / PAGE_SIZE) as u64,
                first,
                last,
                first,
                heap_flags,
            );
            assert(space@ == devices_mapped(with_portal, devices@, j + 1));
        }
        j = j + 1;
    }
    proof {
        lemma_fresh_difference(space.owned_frames(), a0, frames.allocated());
    }
    Ok(space)
}

/// Whether the frames `owned` have all been taken since the allocator had
/// handed out `before`, and make up the difference to what it has handed
/// out now.
pub open spec fn fresh(owned: Set<u64>, before: Set<u64>, now: Set<u64>) -> bool {
    owned.disjoint(before) && now == before.union(owned)
}

/// A space of fresh frames that takes more frames is a space of fresh frames.
pub proof fn lemma_fresh_taken(
    owned_before: Set<u64>,
    owned_after: Set<u64>,
    start: Set<u64>,
    allocated_before: Set<u64>,
    allocated_after: Set<u64>,
)
    requires
        fresh(owned_before, start, allocated_before),
        frames_taken(owned_before, owned_after, allocated_before, allocated_after),
    ensures
        fresh(owned_after, start, allocated_after),
{
    assert forall|x: u64| owned_after.contains(x) implies !start.contains(x) by {
        if !owned_before.contains(x) {
            assert(owned_after.difference(owned_before).contains(x));
        }
    }
    assert(allocated_after =~= start.union(owned_after));
}

/// Giving fresh frames back leaves what had been handed out before.
pub proof fn lemma_fresh_difference(owned: Set<u64>, start: Set<u64>, now: Set<u64>)
    requires
        fresh(owned, start, now),
    ensures
        now.difference(owned) == start,
        owned.subset_of(now),
{
    assert(now.difference(owned) =~= start);
}

} // verus!
