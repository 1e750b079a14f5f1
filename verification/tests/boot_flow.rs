use uefi_bootloader::bootinfo::{build_frame_buffer, get_rsdp_address, ConfigTableEntry,
    ConfigTableKind, KernelContext, PixelFormat};
use uefi_bootloader::addr::{Frame, PhysicalAddress, VirtualAddress};
use uefi_bootloader::context::{predicted_map_size, validate_snapshot_capture, BootContext,
    MAP_HEADROOM_DESCRIPTORS};
use uefi_bootloader::frame_allocator::{FramePool, MemoryRegion, RegionKind};
use uefi_bootloader::BootError;

#[test]
fn teardown_buffer_reserves_headroom_for_eight_descriptors() {
    // a firmware-reported map of 4096 bytes over 64-byte descriptors
    let predicted = predicted_map_size(4096, 64).unwrap();
    assert_eq!(predicted, 4096 + 8 * 64);
    assert!(predicted >= 4096 + MAP_HEADROOM_DESCRIPTORS * 64);
    // the capture succeeds if the firmware grew the map by fewer than
    // eight entries during the exit call
    assert_eq!(validate_snapshot_capture(predicted, 4096 + 7 * 64), Ok(()));
    // growth beyond the reserved headroom is a fatal firmware error
    assert_eq!(
        validate_snapshot_capture(predicted, 4096 + 9 * 64),
        Err(BootError::FirmwareError)
    );
}

#[test]
fn absurd_firmware_map_sizes_are_firmware_errors() {
    assert_eq!(
        predicted_map_size(u64::MAX, 64),
        Err(BootError::FirmwareError)
    );
}

#[test]
fn bitmask_framebuffer_is_refused_before_any_other_work() {
    assert_eq!(
        build_frame_buffer(0x8000_0000, 0x20_0000, 1024, 768, PixelFormat::Bitmask, 1024),
        Err(BootError::ConfigurationError)
    );
    assert_eq!(
        build_frame_buffer(0x8000_0000, 0x20_0000, 1024, 768, PixelFormat::BltOnly, 1024),
        Err(BootError::ConfigurationError)
    );
}

#[test]
fn plain_framebuffer_formats_are_accepted() {
    for format in [PixelFormat::Rgb, PixelFormat::Bgr] {
        let fb = build_frame_buffer(0x8000_0000, 0x20_0000, 1024, 768, format, 1024).unwrap();
        assert_eq!(fb.start, 0x8000_0000);
        assert_eq!(fb.info.width, 1024);
        assert_eq!(fb.info.height, 768);
        assert_eq!(fb.info.bytes_per_pixel, 4);
        assert_eq!(fb.info.stride, 1024);
        assert_eq!(fb.info.pixel_format, format);
    }
}

fn entry(kind: ConfigTableKind, address: u64) -> ConfigTableEntry {
    ConfigTableEntry { kind, address }
}

#[test]
fn rsdp_prefers_the_newer_acpi_table() {
    let entries = vec![
        entry(ConfigTableKind::Other, 0x100),
        entry(ConfigTableKind::Acpi1, 0x200),
        entry(ConfigTableKind::Acpi2, 0x300),
        entry(ConfigTableKind::Acpi2, 0x400),
    ];
    assert_eq!(get_rsdp_address(&entries), Some(0x300));
}

#[test]
fn rsdp_falls_back_to_the_older_acpi_table() {
    let entries = vec![
        entry(ConfigTableKind::Other, 0x100),
        entry(ConfigTableKind::Acpi1, 0x200),
        entry(ConfigTableKind::Acpi1, 0x250),
    ];
    assert_eq!(get_rsdp_address(&entries), Some(0x200));
    assert_eq!(get_rsdp_address(&Vec::new()), None);
    assert_eq!(
        get_rsdp_address(&vec![entry(ConfigTableKind::Other, 0x100)]),
        None
    );
}

#[test]
fn boot_information_carries_the_final_memory_map() {
    let mut pool = FramePool::new();
    for f in 1000..1016u64 {
        pool.grant(Frame { number: f });
    }
    let ctx = BootContext::new(pool).unwrap();
    let snapshot = vec![
        MemoryRegion::new(0, 256, RegionKind::Reserved),
        MemoryRegion::new(256, 1024, RegionKind::Usable),
        MemoryRegion::new(0x2000, 8, RegionKind::Mmio),
    ];
    let rt = ctx.exit_boot_services(snapshot.clone());
    let info = rt.create_boot_info(None, Some(0xE_0000), Vec::new(), Vec::new());
    assert_eq!(info.rsdp_address, Some(0xE_0000));
    assert!(info.frame_buffer.is_none());
    assert_eq!(info.memory_map, snapshot);
}

#[test]
fn empty_frame_pool_means_out_of_memory() {
    assert!(matches!(
        BootContext::new(FramePool::new()),
        Err(BootError::OutOfMemory)
    ));
}

#[test]
fn kernel_context_carries_the_jump_state() {
    let kc = KernelContext::new(
        Frame { number: 0x1234 },
        VirtualAddress::new_canonical(0xFFFF_FFFF_F000_0000),
        VirtualAddress::new_canonical(0xFFFF_FFFF_8000_0000),
        PhysicalAddress::new(0x7_0000),
    );
    assert_eq!(kc.page_table_frame.number, 0x1234);
    assert_eq!(kc.stack_top.value, 0xFFFF_FFFF_F000_0000);
    assert_eq!(kc.entry_point.value, 0xFFFF_FFFF_8000_0000);
    assert_eq!(kc.boot_info_address.value, 0x7_0000);
}

#[test]
fn memory_map_encoding_has_fixed_offsets_and_exact_bytes() {
    let regions = vec![
        MemoryRegion::new(0x100, 0x2, RegionKind::Usable),
        MemoryRegion::new(0x1_0000, 0x10, RegionKind::Mmio),
    ];
    let bytes = uefi_bootloader::bootinfo::encode_memory_map(&regions);
    assert_eq!(bytes.len(), 8 + 24 * 2);
    // the little-endian count comes first
    assert_eq!(&bytes[0..8], &2u64.to_le_bytes());
    // first record: start frame, frame count, kind tag
    assert_eq!(&bytes[8..16], &0x100u64.to_le_bytes());
    assert_eq!(&bytes[16..24], &0x2u64.to_le_bytes());
    assert_eq!(&bytes[24..32], &0u64.to_le_bytes());
    // second record at the fixed 24-byte stride
    assert_eq!(&bytes[32..40], &0x1_0000u64.to_le_bytes());
    assert_eq!(&bytes[40..48], &0x10u64.to_le_bytes());
    assert_eq!(&bytes[48..56], &3u64.to_le_bytes());
}

#[test]
fn whole_record_encoding_pins_every_byte() {
    let fb = build_frame_buffer(0x8000_0000, 0x20_0000, 1024, 768, PixelFormat::Bgr, 1024).unwrap();
    let info = uefi_bootloader::bootinfo::BootInformation {
        frame_buffer: Some(fb),
        rsdp_address: Some(0xE_0000),
        elf_sections: vec![uefi_bootloader::bootinfo::ElfSection { start: 0x20_0000, size: 0x1000, flags: 5 }],
        modules: vec![uefi_bootloader::bootinfo::ModuleDescriptor {
            name: b"initrd".to_vec(),
            physical_start: 0x70_0000,
            size: 0x4000,
        }],
        memory_map: vec![MemoryRegion::new(0x100, 0x2, RegionKind::Usable)],
    };
    let bytes = uefi_bootloader::bootinfo::encode_boot_information(&info).unwrap();
    assert_eq!(bytes.len(), 0x68 + 24 + 24 + 88);
    // framebuffer block at fixed offsets
    assert_eq!(&bytes[0x00..0x08], &1u64.to_le_bytes());
    assert_eq!(&bytes[0x08..0x10], &0x8000_0000u64.to_le_bytes());
    assert_eq!(&bytes[0x28..0x30], &1u64.to_le_bytes()); // Bgr tag
    // ACPI pointer block
    assert_eq!(&bytes[0x40..0x48], &1u64.to_le_bytes());
    assert_eq!(&bytes[0x48..0x50], &0xE_0000u64.to_le_bytes());
    // the three list lengths
    assert_eq!(&bytes[0x50..0x58], &1u64.to_le_bytes());
    assert_eq!(&bytes[0x58..0x60], &1u64.to_le_bytes());
    assert_eq!(&bytes[0x60..0x68], &1u64.to_le_bytes());
    // the one section record
    assert_eq!(&bytes[0x68..0x70], &0x20_0000u64.to_le_bytes());
    // the one memory-map record follows the sections
    assert_eq!(&bytes[0x80..0x88], &0x100u64.to_le_bytes());
    // the one module record: name length, then the padded name field
    assert_eq!(&bytes[0x98..0xA0], &6u64.to_le_bytes());
    assert_eq!(&bytes[0xB0..0xB6], b"initrd");
    assert!(bytes[0xB6..0xF0].iter().all(|&b| b == 0));
    // an oversized module name is refused
    let mut bad = info;
    bad.modules[0].name = vec![b'x'; 65];
    assert_eq!(
        uefi_bootloader::bootinfo::encode_boot_information(&bad),
        Err(BootError::ConfigurationError)
    );
}
