use uefi_bootloader::elf::parse_loadable_segments;
use uefi_bootloader::BootError;

fn push_u16(v: &mut Vec<u8>, x: u16) {
    v.extend_from_slice(&x.to_le_bytes());
}

fn push_u32(v: &mut Vec<u8>, x: u32) {
    v.extend_from_slice(&x.to_le_bytes());
}

fn push_u64(v: &mut Vec<u8>, x: u64) {
    v.extend_from_slice(&x.to_le_bytes());
}

fn push_program_header(
    v: &mut Vec<u8>,
    p_type: u32,
    p_flags: u32,
    vaddr: u64,
    filesz: u64,
    memsz: u64,
) {
    push_u32(v, p_type);
    push_u32(v, p_flags);
    push_u64(v, 0); // offset
    push_u64(v, vaddr);
    push_u64(v, 0); // paddr
    push_u64(v, filesz);
    push_u64(v, memsz);
    push_u64(v, 0x1000); // align
}

/// A minimal two-header 64-bit kernel image: one loadable segment and one
/// note segment.
fn minimal_image() -> Vec<u8> {
    let mut v = Vec::new();
    v.extend_from_slice(&[0x7F, b'E', b'L', b'F', 2, 1, 1, 0]);
    v.extend_from_slice(&[0u8; 8]);
    push_u16(&mut v, 2); // executable
    push_u16(&mut v, 0x3E); // x86-64
    push_u32(&mut v, 1); // version
    push_u64(&mut v, 0x20_1000); // entry point
    push_u64(&mut v, 64); // program header table offset
    push_u64(&mut v, 0); // no section headers
    push_u32(&mut v, 0); // flags
    push_u16(&mut v, 64); // header size
    push_u16(&mut v, 56); // program header size
    push_u16(&mut v, 2); // program header count
    push_u16(&mut v, 0);
    push_u16(&mut v, 0);
    push_u16(&mut v, 0);
    push_program_header(&mut v, 1, 5, 0x20_0000, 0x80, 0x1000);
    push_program_header(&mut v, 4, 4, 0, 0x10, 0x10);
    v
}

#[test]
fn parsing_keeps_only_the_loadable_segments() {
    let (entry, segments) = parse_loadable_segments(&minimal_image()).unwrap();
    assert_eq!(entry, 0x20_1000);
    assert_eq!(segments.len(), 1);
    assert_eq!(segments[0].vaddr, 0x20_0000);
    assert_eq!(segments[0].filesz, 0x80);
    assert_eq!(segments[0].memsz, 0x1000);
    assert_eq!(segments[0].flags, 5);
}

#[test]
fn an_image_that_does_not_parse_is_a_configuration_error() {
    let garbage: Vec<u8> = vec![0xAB; 40];
    assert_eq!(
        parse_loadable_segments(&garbage),
        Err(BootError::ConfigurationError)
    );
    assert_eq!(
        parse_loadable_segments(&Vec::new()),
        Err(BootError::ConfigurationError)
    );
}
