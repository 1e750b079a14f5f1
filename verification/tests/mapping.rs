use uefi_bootloader::addr::{Frame, Page, VirtualAddress};
use uefi_bootloader::context::BootContext;
use uefi_bootloader::elf::{segment_image, ElfSegment};
use uefi_bootloader::frame_allocator::{FramePool, FrameSupply, MemoryRegion, RegionKind,
    StaticMapFrameAllocator};
use uefi_bootloader::loader::{allocation_placement, flags_for_segment, AllocationPlacement,
    TRAMPOLINE_PHYSICAL_ADDRESS};
use uefi_bootloader::mapper::Mapper;
use uefi_bootloader::BootError;

fn pool_of(frames: std::ops::Range<u64>) -> FramePool {
    let mut pool = FramePool::new();
    for f in frames {
        pool.grant(Frame { number: f });
    }
    pool
}

fn page_of(vaddr: u64) -> Page {
    Page::containing_address(VirtualAddress::new_canonical(vaddr))
}

#[test]
fn mapper_resolves_what_was_mapped_with_exact_flags() {
    let mut supply = FrameSupply::Firmware(pool_of(1000..1100));
    let mut mapper = Mapper::new(&mut supply).unwrap();
    let page = page_of(0x20_0000);
    let frame = Frame { number: 0x500 };
    let flags = flags_for_segment(&ElfSegment {
        vaddr: 0x20_0000,
        paddr: 0,
        offset: 0,
        filesz: 0,
        memsz: 0x1000,
        flags: 5, // readable and executable
    });
    mapper.map(page, frame, flags, &mut supply).unwrap();
    let (f, fl) = mapper.translate(page).unwrap();
    assert_eq!(f.number, 0x500);
    assert!(fl.present);
    assert!(!fl.writable);
    assert!(!fl.no_execute);
    // a page that was never mapped stays unmapped
    assert!(mapper.translate(page_of(0x30_0000)).is_none());
}

#[test]
fn remapping_same_page_same_flags_is_idempotent() {
    let mut supply = FrameSupply::Firmware(pool_of(1000..1100));
    let mut mapper = Mapper::new(&mut supply).unwrap();
    let page = page_of(0x20_0000);
    let frame = Frame { number: 0x500 };
    let flags = uefi_bootloader::mapper::PteFlags::new().present(true);
    mapper.map(page, frame, flags, &mut supply).unwrap();
    assert_eq!(mapper.map(page, frame, flags, &mut supply), Ok(()));
    // different flags for the same page is a logic error
    let other = flags.writable(true);
    assert_eq!(
        mapper.map(page, frame, other, &mut supply),
        Err(BootError::ConfigurationError)
    );
    // the original mapping is still intact
    let (f, fl) = mapper.translate(page).unwrap();
    assert_eq!(f.number, 0x500);
    assert_eq!(fl, flags);
}

#[test]
fn mapping_two_pages_never_aliases_one_leaf() {
    let mut supply = FrameSupply::Firmware(pool_of(1000..1100));
    let mut mapper = Mapper::new(&mut supply).unwrap();
    let flags = uefi_bootloader::mapper::PteFlags::new().present(true);
    // neighbours in one table, and pages far apart in distinct subtrees
    let pages = [0x20_0000u64, 0x20_1000, 0x40_0000, 0xFFFF_FFFF_8000_0000];
    for (i, &va) in pages.iter().enumerate() {
        mapper.map(page_of(va), Frame { number: 0x600 + i as u64 }, flags, &mut supply).unwrap();
    }
    for (i, &va) in pages.iter().enumerate() {
        let (f, _) = mapper.translate(page_of(va)).unwrap();
        assert_eq!(f.number, 0x600 + i as u64);
    }
}

#[test]
fn mapper_without_frames_reports_out_of_memory() {
    let mut supply = FrameSupply::Firmware(FramePool::new());
    assert!(matches!(Mapper::new(&mut supply), Err(BootError::OutOfMemory)));
}

#[test]
fn segment_image_round_trip_zero_fills_the_tail() {
    let file: Vec<u8> = (0u8..64).collect();
    let segment = ElfSegment {
        vaddr: 0x20_0000,
        paddr: 0,
        offset: 8,
        filesz: 16,
        memsz: 40,
        flags: 6,
    };
    let img = segment_image(&file, &segment).unwrap();
    assert_eq!(img.len(), 40);
    assert_eq!(&img[..16], &file[8..24]);
    assert!(img[16..].iter().all(|&b| b == 0));
}

#[test]
fn segment_image_rejects_reads_past_the_file() {
    let file: Vec<u8> = vec![0; 16];
    let segment = ElfSegment {
        vaddr: 0x20_0000,
        paddr: 0,
        offset: 8,
        filesz: 16,
        memsz: 40,
        flags: 6,
    };
    assert_eq!(segment_image(&file, &segment), Err(BootError::ConfigurationError));
}

#[test]
fn trampoline_segment_gets_fixed_placement() {
    let mut seg = ElfSegment {
        vaddr: 0x20_0000,
        paddr: TRAMPOLINE_PHYSICAL_ADDRESS,
        offset: 0,
        filesz: 0,
        memsz: 0x1000,
        flags: 5,
    };
    assert_eq!(
        allocation_placement(&seg),
        AllocationPlacement::Fixed(TRAMPOLINE_PHYSICAL_ADDRESS)
    );
    seg.paddr = 0x123000;
    assert_eq!(allocation_placement(&seg), AllocationPlacement::AnyAddress);
}

#[test]
fn two_segment_kernel_loads_without_overlap() {
    // one readable-executable segment, one readable-writable segment
    let text = ElfSegment {
        vaddr: 0x20_0000,
        paddr: 0,
        offset: 0,
        filesz: 0x1000,
        memsz: 0x1000,
        flags: 5,
    };
    let data = ElfSegment {
        vaddr: 0x40_0000,
        paddr: 0,
        offset: 0x1000,
        filesz: 0x800,
        memsz: 0x2000,
        flags: 6,
    };
    let mut ctx = BootContext::new(pool_of(1000..1100)).unwrap();
    let r1 = ctx.map_segment(&text, 0x50_0000).unwrap();
    let r2 = ctx.map_segment(&data, 0x60_0000).unwrap();
    // the two claims are disjoint
    assert!(r1.end.number < r2.start.number || r2.end.number < r1.start.number);
    assert_eq!(r1.start.number, 0x200);
    assert_eq!(r1.end.number, 0x200);
    assert_eq!(r2.start.number, 0x400);
    assert_eq!(r2.end.number, 0x401);
    // both are present in the final page table with the right permissions
    let (f, fl) = ctx.mapper.translate(page_of(0x20_0000)).unwrap();
    assert_eq!(f.number, 0x500);
    assert!(fl.present && !fl.writable && !fl.no_execute);
    for (i, va) in [0x40_0000u64, 0x40_1000].iter().enumerate() {
        let (f, fl) = ctx.mapper.translate(page_of(*va)).unwrap();
        assert_eq!(f.number, 0x600 + i as u64);
        assert!(fl.present && fl.writable && fl.no_execute);
    }
    // a second kernel claiming the same range would be refused
    assert_eq!(
        ctx.map_segment(&text, 0x70_0000),
        Err(BootError::ConfigurationError)
    );
}

#[test]
fn runtime_stack_is_mapped_with_a_guard_page() {
    let text = ElfSegment {
        vaddr: 0x20_0000,
        paddr: 0,
        offset: 0,
        filesz: 0x1000,
        memsz: 0x1000,
        flags: 5,
    };
    let mut ctx = BootContext::new(pool_of(1000..1100)).unwrap();
    ctx.map_segment(&text, 0x50_0000).unwrap();
    let snapshot = vec![MemoryRegion::new(0x2000, 64, RegionKind::Usable)];
    let mut rt = ctx.exit_boot_services(snapshot);
    let top = rt.set_up_mappings(4).unwrap();
    assert_eq!(top.value % 4096, 0);
    // the four stack pages below the top are mapped writable, no-execute
    for i in 1..=4u64 {
        let page = Page { number: top.value / 4096 - i };
        let (_, fl) = rt.mapper.translate(page).unwrap();
        assert!(fl.present && fl.writable && fl.no_execute);
    }
    // the guard page below them is not mapped
    let guard = Page { number: top.value / 4096 - 5 };
    assert!(rt.mapper.translate(guard).is_none());
    // the mappings made in the boot phase survived the transition
    assert!(rt.mapper.translate(page_of(0x20_0000)).is_some());
    // and the root table frame is the one the jump will load
    let root = rt.page_table();
    assert_eq!(root.number, 1099);
}

#[test]
fn exhausted_snapshot_fails_stack_setup_with_out_of_memory() {
    let ctx = BootContext::new(pool_of(1000..1100)).unwrap();
    let snapshot = vec![MemoryRegion::new(0, 8, RegionKind::Usable)];
    let mut rt = ctx.exit_boot_services(snapshot);
    // every frame of the snapshot lies below 1 MiB, so nothing is allocatable
    assert_eq!(rt.set_up_mappings(4), Err(BootError::OutOfMemory));
}

#[test]
fn static_allocator_backs_table_frames_after_exit() {
    let mut supply = FrameSupply::Snapshot(StaticMapFrameAllocator::new(vec![
        MemoryRegion::new(0x1000, 16, RegionKind::Usable),
    ]));
    let mut mapper = Mapper::new(&mut supply).unwrap();
    let flags = uefi_bootloader::mapper::PteFlags::new().present(true);
    mapper.map(page_of(0x20_0000), Frame { number: 0x800 }, flags, &mut supply).unwrap();
    let (f, _) = mapper.translate(page_of(0x20_0000)).unwrap();
    assert_eq!(f.number, 0x800);
}

#[test]
fn identity_mapping_maps_page_number_to_equal_frame_number() {
    let ctx = BootContext::new(pool_of(1000..1100)).unwrap();
    let snapshot = vec![MemoryRegion::new(0x2000, 64, RegionKind::Usable)];
    let mut rt = ctx.exit_boot_services(snapshot);
    let window = uefi_bootloader::addr::FrameRange::new(
        Frame { number: 0x100 },
        Frame { number: 0x10F },
    );
    let flags = uefi_bootloader::mapper::PteFlags::new().present(true).writable(true);
    rt.identity_map(window, flags).unwrap();
    for n in 0x100..=0x10Fu64 {
        let (f, fl) = rt.mapper.translate(Page { number: n }).unwrap();
        assert_eq!(f.number, n);
        assert!(fl.writable && !fl.no_execute);
    }
    // a second window overlapping the first is refused
    let overlap = uefi_bootloader::addr::FrameRange::new(
        Frame { number: 0x10F },
        Frame { number: 0x110 },
    );
    assert_eq!(rt.identity_map(overlap, flags), Err(BootError::ConfigurationError));
}
