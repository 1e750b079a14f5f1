use uefi_bootloader::addr::{Frame, Page, PhysicalAddress, VirtualAddress};
use uefi_bootloader::frame_allocator::{MemoryRegion, RegionKind, StaticMapFrameAllocator};
use uefi_bootloader::page_allocator::{PageAllocator, ALLOCATION_START_PAGE};
use uefi_bootloader::elf::ElfSegment;
use uefi_bootloader::BootError;

fn usable(start_frame: u64, frame_count: u64) -> MemoryRegion {
    MemoryRegion::new(start_frame, frame_count, RegionKind::Usable)
}

#[test]
fn canonical_addresses_are_sign_extended() {
    let high = VirtualAddress::new_canonical(0x0000_8000_0000_0000);
    assert_eq!(high.value, 0xFFFF_8000_0000_0000);
    let low = VirtualAddress::new_canonical(0x7FFF_FFFF_FFFF);
    assert_eq!(low.value, 0x7FFF_FFFF_FFFF);
    let truncated = VirtualAddress::new_canonical(0x1234_5678_9ABC_DEF0);
    assert_eq!(truncated.value, 0x5678_9ABC_DEF0);
}

#[test]
fn virtual_checked_add_refuses_noncanonical_results() {
    let a = VirtualAddress::new_canonical(0x7FFF_FFFF_F000);
    assert!(a.checked_add(0xFFF).is_some());
    assert!(a.checked_add(0x1000).is_none());
    let p = PhysicalAddress::new(u64::MAX);
    assert!(p.checked_add(1).is_none());
}

#[test]
fn frames_and_pages_truncate_to_granules() {
    let f = Frame::containing_address(PhysicalAddress::new(0x1234));
    assert_eq!(f.number, 1);
    assert_eq!(f.start_address().value, 0x1000);
    let p = Page::containing_address(VirtualAddress::new_canonical(0x200FFF));
    assert_eq!(p.number, 0x200);
}

#[test]
fn allocator_hands_out_contiguous_runs() {
    let regions = vec![usable(256, 16), usable(512, 8)];
    let mut alloc = StaticMapFrameAllocator::new(regions);
    let a = alloc.allocate(4).unwrap();
    assert_eq!(a.start.number, 256);
    assert_eq!(a.end.number, 259);
    let b = alloc.allocate(12).unwrap();
    assert_eq!(b.start.number, 260);
    assert_eq!(b.end.number, 271);
    let c = alloc.allocate(8).unwrap();
    assert_eq!(c.start.number, 512);
    assert_eq!(c.end.number, 519);
    assert_eq!(alloc.allocate(1), Err(BootError::OutOfMemory));
}

#[test]
fn allocator_never_yields_overlapping_or_reserved_frames() {
    let regions = vec![
        usable(0, 1024),
        MemoryRegion::new(1024, 64, RegionKind::Reserved),
        usable(2048, 4),
        MemoryRegion::new(4096, 64, RegionKind::Mmio),
    ];
    let mut alloc = StaticMapFrameAllocator::new(regions);
    let mut yielded: Vec<(u64, u64)> = Vec::new();
    loop {
        match alloc.allocate(2) {
            Ok(fr) => {
                for &(s, e) in &yielded {
                    assert!(fr.end.number < s || e < fr.start.number);
                }
                // never below 1 MiB, never in the reserved or device regions
                assert!(fr.start.number >= 256);
                assert!(fr.end.number < 1024 || (2048..2052).contains(&fr.start.number));
                yielded.push((fr.start.number, fr.end.number));
            },
            Err(e) => {
                assert_eq!(e, BootError::OutOfMemory);
                break;
            },
        }
    }
    // 768 frames above 1 MiB in the first region, 4 in the second
    assert_eq!(yielded.len(), (1024 - 256) / 2 + 2);
}

#[test]
fn allocator_skips_low_memory_even_when_map_starts_at_zero() {
    let regions = vec![usable(0, 300)];
    let mut alloc = StaticMapFrameAllocator::new(regions);
    let a = alloc.allocate(1).unwrap();
    assert_eq!(a.start.number, 256);
    let b = alloc.allocate(43).unwrap();
    assert_eq!(b.end.number, 299);
    assert_eq!(alloc.allocate(1), Err(BootError::OutOfMemory));
}

#[test]
fn allocator_reports_out_of_memory_for_oversized_requests() {
    let regions = vec![usable(256, 16)];
    let mut alloc = StaticMapFrameAllocator::new(regions);
    assert_eq!(alloc.allocate(17), Err(BootError::OutOfMemory));
    // the cursor did not move: a fitting request still succeeds
    assert_eq!(alloc.allocate(16).unwrap().start.number, 256);
}

fn segment_at(vaddr: u64, memsz: u64) -> ElfSegment {
    ElfSegment { vaddr, paddr: 0, offset: 0, filesz: memsz, memsz, flags: 4 }
}

#[test]
fn page_allocator_returns_lowest_free_range_above_threshold() {
    let mut pa = PageAllocator::new();
    let a = pa.allocate_range(4).unwrap();
    assert_eq!(a.start.number, ALLOCATION_START_PAGE);
    assert_eq!(a.end.number, ALLOCATION_START_PAGE + 3);
    let b = pa.allocate_range(2).unwrap();
    assert_eq!(b.start.number, ALLOCATION_START_PAGE + 4);
}

#[test]
fn page_allocator_claims_stay_pairwise_disjoint() {
    let mut pa = PageAllocator::new();
    let mut claimed: Vec<(u64, u64)> = Vec::new();
    let seg1 = segment_at(0x20_0000, 0x1000);
    let seg2 = segment_at(0x40_0000, 0x2000);
    let r1 = pa.mark_segment_as_used(&seg1).unwrap();
    claimed.push((r1.start.number, r1.end.number));
    let r2 = pa.mark_segment_as_used(&seg2).unwrap();
    claimed.push((r2.start.number, r2.end.number));
    for _ in 0..4 {
        let r = pa.allocate_range(3).unwrap();
        claimed.push((r.start.number, r.end.number));
    }
    for i in 0..claimed.len() {
        for j in 0..claimed.len() {
            if i != j {
                let (s1, e1) = claimed[i];
                let (s2, e2) = claimed[j];
                assert!(e1 < s2 || e2 < s1);
            }
        }
    }
}

#[test]
fn overlapping_segment_claim_is_a_configuration_error() {
    let mut pa = PageAllocator::new();
    pa.mark_segment_as_used(&segment_at(0x20_0000, 0x2000)).unwrap();
    let overlapping = segment_at(0x20_1000, 0x1000);
    assert_eq!(
        pa.mark_segment_as_used(&overlapping),
        Err(BootError::ConfigurationError)
    );
}

#[test]
fn malformed_segment_is_a_configuration_error() {
    let mut pa = PageAllocator::new();
    // empty segment
    assert_eq!(
        pa.mark_segment_as_used(&segment_at(0x20_0000, 0)),
        Err(BootError::ConfigurationError)
    );
    // unaligned start
    assert_eq!(
        pa.mark_segment_as_used(&segment_at(0x20_0800, 0x1000)),
        Err(BootError::ConfigurationError)
    );
}

#[test]
fn page_allocator_reports_virtual_space_exhausted() {
    let mut pa = PageAllocator::new();
    assert_eq!(
        pa.allocate_range(u64::MAX),
        Err(BootError::VirtualSpaceExhausted)
    );
}
