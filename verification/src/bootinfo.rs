use vstd::prelude::*;
use crate::addr::{Frame, PhysicalAddress, VirtualAddress};
use crate::frame_allocator::{MemoryRegion, RegionKind};
use crate::BootError;

verus! {

/// The pixel layouts a framebuffer can report.
#[derive(Clone, Copy, Debug, PartialEq, Eq, Structural)]
pub enum PixelFormat {
    Rgb,
    Bgr,
    Bitmask,
    BltOnly,
}

/// The shape of the graphical framebuffer, as handed to the kernel.
#[derive(Clone, Copy, Debug, PartialEq, Eq, Structural)]
pub struct FrameBufferInfo {
    pub size: u64,
    pub width: u64,
    pub height: u64,
    pub pixel_format: PixelFormat,
    pub bytes_per_pixel: u64,
    pub stride: u64,
}

/// A framebuffer: where it starts in memory, and its shape.
#[derive(Clone, Copy, Debug, PartialEq, Eq, Structural)]
pub struct FrameBuffer {
    pub start: u64,
    pub info: FrameBufferInfo,
}

/// Builds the framebuffer descriptor out of what the firmware reported.
/// Only the two plain four-byte layouts are supported: a `Bitmask` or
/// `BltOnly` report is refused outright, before any logger or mapping work
/// could rely on it.
pub fn build_frame_buffer(
    start: u64,
    size: u64,
    width: u64,
    height: u64,
    pixel_format: PixelFormat,
    stride: u64,
) -> (r: Result<FrameBuffer, BootError>)
    ensures
        r is Ok <==> pixel_format == PixelFormat::Rgb || pixel_format == PixelFormat::Bgr,
        r is Ok ==> r->Ok_0 == (FrameBuffer {
            start,
            info: FrameBufferInfo {
                size,
                width,
                height,
                pixel_format,
                bytes_per_pixel: 4,
                stride,
            },
        }),
        r is Err ==> r == Err::<FrameBuffer, BootError>(BootError::ConfigurationError),
{
    match pixel_format {
        PixelFormat::Rgb | PixelFormat::Bgr => Ok(
            FrameBuffer {
                start,
                info: FrameBufferInfo {
                    size,
                    width,
                    height,
                    pixel_format,
                    bytes_per_pixel: 4,
                    stride,
                },
            },
        ),
        PixelFormat::Bitmask | PixelFormat::BltOnly => Err(BootError::ConfigurationError),
    }
}

/// What a firmware configuration-table entry is, as far as the loader
/// cares: one of the two ACPI root-pointer tags, or something else.
#[derive(Clone, Copy, Debug, PartialEq, Eq, Structural)]
pub enum ConfigTableKind {
    Acpi2,
    Acpi1,
    Other,
}

#[derive(Clone, Copy, Debug, PartialEq, Eq, Structural)]
pub struct ConfigTableEntry {
    pub kind: ConfigTableKind,
    pub address: u64,
}

pub open spec fn has_kind(entries: Seq<ConfigTableEntry>, kind: ConfigTableKind) -> bool {
    exists|i: int| 0 <= i < entries.len() && (#[trigger] entries[i]).kind == kind
}

/// The ACPI root pointer the kernel should use: the first 2.x entry if any
/// exists, else the first 1.x entry, else nothing.
pub fn get_rsdp_address(entries: &Vec<ConfigTableEntry>) -> (r: Option<u64>)
    ensures
        has_kind(entries@, ConfigTableKind::Acpi2) ==> (exists|i: int|
            0 <= i < entries@.len() && (#[trigger] entries@[i]).kind == ConfigTableKind::Acpi2
                && r == Some(entries@[i].address) && (forall|j: int|
                0 <= j < i ==> (#[trigger] entries@[j]).kind != ConfigTableKind::Acpi2)),
        !has_kind(entries@, ConfigTableKind::Acpi2) && has_kind(entries@, ConfigTableKind::Acpi1)
            ==> (exists|i: int|
            0 <= i < entries@.len() && (#[trigger] entries@[i]).kind == ConfigTableKind::Acpi1
                && r == Some(entries@[i].address) && (forall|j: int|
                0 <= j < i ==> (#[trigger] entries@[j]).kind != ConfigTableKind::Acpi1)),
        !has_kind(entries@, ConfigTableKind::Acpi2) && !has_kind(entries@, ConfigTableKind::Acpi1)
            ==> r is None,
{
    let mut i: usize = 0;
    while i < entries.len()
        invariant
            i <= entries@.len(),
            forall|j: int| 0 <= j < i ==> (#[trigger] entries@[j]).kind != ConfigTableKind::Acpi2,
        decreases entries@.len() - i,
    {
        let e = entries[i];
        if e.kind == ConfigTableKind::Acpi2 {
            return Some(e.address);
        }
        i += 1;
    }
    let mut i: usize = 0;
    while i < entries.len()
        invariant
            i <= entries@.len(),
            forall|j: int| 0 <= j < i ==> (#[trigger] entries@[j]).kind != ConfigTableKind::Acpi1,
            forall|j: int| 0 <= j < entries@.len() ==> (#[trigger] entries@[j]).kind
                != ConfigTableKind::Acpi2,
        decreases entries@.len() - i,
    {
        let e = entries[i];
        if e.kind == ConfigTableKind::Acpi1 {
            return Some(e.address);
        }
        i += 1;
    }
    None
}

/// One loaded ELF section as reported to the kernel: its virtual range and
/// the permission bits it was given.
#[derive(Clone, Copy, Debug, PartialEq, Eq, Structural)]
pub struct ElfSection {
    pub start: u64,
    pub size: u64,
    pub flags: u64,
}

/// One named module blob loaded next to the kernel.
#[derive(Clone, Debug, PartialEq, Eq)]
pub struct ModuleDescriptor {
    pub name: Vec<u8>,
    pub physical_start: u64,
    pub size: u64,
}

/// The handoff record the kernel parses after the jump: framebuffer, ACPI
/// root pointer, loaded-section list, module list, and the final physical
/// memory map.
pub struct BootInformation {
    pub frame_buffer: Option<FrameBuffer>,
    pub rsdp_address: Option<u64>,
    pub elf_sections: Vec<ElfSection>,
    pub modules: Vec<ModuleDescriptor>,
    pub memory_map: Vec<MemoryRegion>,
}

/// The context the jump needs and nothing more: the root table frame to
/// activate, the stack top to install, the entry point to jump to, and
/// where the boot information sits.
#[derive(Clone, Copy, Debug, PartialEq, Eq, Structural)]
pub struct KernelContext {
    pub page_table_frame: Frame,
    pub stack_top: VirtualAddress,
    pub entry_point: VirtualAddress,
    pub boot_info_address: PhysicalAddress,
}

impl KernelContext {
    pub fn new(
        page_table_frame: Frame,
        stack_top: VirtualAddress,
        entry_point: VirtualAddress,
        boot_info_address: PhysicalAddress,
    ) -> (r: KernelContext)
        ensures
            r == (KernelContext { page_table_frame, stack_top, entry_point, boot_info_address }),
    {
        KernelContext { page_table_frame, stack_top, entry_point, boot_info_address }
    }
}

/// The value of the `k`th little-endian byte of a machine word.
pub open spec fn le_byte(x: u64, k: int) -> u8 {
    if k == 0 {
        (x % 256) as u8
    } else if k == 1 {
        ((x / 0x100) % 256) as u8
    } else if k == 2 {
        ((x / 0x1_0000) % 256) as u8
    } else if k == 3 {
        ((x / 0x100_0000) % 256) as u8
    } else if k == 4 {
        ((x / 0x1_0000_0000) % 256) as u8
    } else if k == 5 {
        ((x / 0x100_0000_0000) % 256) as u8
    } else if k == 6 {
        ((x / 0x1_0000_0000_0000) % 256) as u8
    } else {
        ((x / 0x100_0000_0000_0000) % 256) as u8
    }
}

/// The stable wire tag of a region kind.
pub open spec fn region_kind_tag(kind: RegionKind) -> u64 {
    match kind {
        RegionKind::Usable => 0,
        RegionKind::Reserved => 1,
        RegionKind::LoaderOwned => 2,
        RegionKind::Mmio => 3,
    }
}

/// The `k`th byte of one 24-byte descriptor record: start frame, frame
/// count, then the kind tag, each a little-endian word.
pub open spec fn region_byte(region: MemoryRegion, k: int) -> u8 {
    if k < 8 {
        le_byte(region.start_frame, k)
    } else if k < 16 {
        le_byte(region.frame_count, k - 8)
    } else {
        le_byte(region_kind_tag(region.kind), k - 16)
    }
}

fn region_kind_value(kind: RegionKind) -> (r: u64)
    ensures
        r == region_kind_tag(kind),
{
    match kind {
        RegionKind::Usable => 0,
        RegionKind::Reserved => 1,
        RegionKind::LoaderOwned => 2,
        RegionKind::Mmio => 3,
    }
}

/// Encodes the final memory map in the stable, self-describing form the
/// kernel parses: a little-endian count, then one 24-byte record per
/// descriptor at a fixed stride — start frame, frame count, kind tag.
pub fn encode_memory_map(regions: &Vec<MemoryRegion>) -> (r: Vec<u8>)
    requires
        regions@.len() <= 0xFFFF_FFFF,
    ensures
        r@.len() == 8 + 24 * regions@.len(),
        forall|k: int| 0 <= k < 8 ==> r@[k] == le_byte(regions@.len() as u64, k),
        forall|i: int, k: int|
            0 <= i < regions@.len() && 0 <= k < 24 ==> #[trigger] r@[8 + 24 * i + k]
                == region_byte(regions@[i], k),
{
    let mut out: Vec<u8> = Vec::new();
    push_u64_le(&mut out, regions.len() as u64);
    let mut i: usize = 0;
    while i < regions.len()
        invariant
            i <= regions@.len(),
            regions@.len() <= 0xFFFF_FFFF,
            out@.len() == 8 + 24 * i,
            forall|k: int| 0 <= k < 8 ==> out@[k] == le_byte(regions@.len() as u64, k),
            forall|j: int, k: int|
                0 <= j < i && 0 <= k < 24 ==> #[trigger] out@[8 + 24 * j + k] == region_byte(
                    regions@[j],
                    k,
                ),
        decreases regions@.len() - i,
    {
        let region = regions[i];
        push_u64_le(&mut out, region.start_frame);
        push_u64_le(&mut out, region.frame_count);
        push_u64_le(&mut out, region_kind_value(region.kind));
        i += 1;
    }
    out
}

/// The stable wire tag of a pixel format.
pub open spec fn pixel_format_tag(f: PixelFormat) -> u64 {
    match f {
        PixelFormat::Rgb => 0,
        PixelFormat::Bgr => 1,
        PixelFormat::Bitmask => 2,
        PixelFormat::BltOnly => 3,
    }
}

/// The eight bytes of a machine word, least significant first.
pub open spec fn le_bytes_of(x: u64) -> Seq<u8> {
    seq![
        le_byte(x, 0),
        le_byte(x, 1),
        le_byte(x, 2),
        le_byte(x, 3),
        le_byte(x, 4),
        le_byte(x, 5),
        le_byte(x, 6),
        le_byte(x, 7),
    ]
}

/// An eight-byte little-endian word sits at `off`.
pub open spec fn le_word_at(bytes: Seq<u8>, off: int, x: u64) -> bool {
    forall|k: int| 0 <= k < 8 ==> bytes[off + k] == le_byte(x, k)
}

/// The run of words laid out back to back.
pub open spec fn words_bytes(ws: Seq<u64>) -> Seq<u8>
    decreases ws.len(),
{
    if ws.len() == 0 {
        Seq::empty()
    } else {
        words_bytes(ws.drop_last()) + le_bytes_of(ws.last())
    }
}

/// The eight header words describing the framebuffer: a presence flag and
/// the descriptor's fields, zero when absent.
pub open spec fn frame_buffer_word(fb: Option<FrameBuffer>, w: int) -> u64 {
    match fb {
        Some(f) => if w == 0 {
            1
        } else if w == 1 {
            f.start
        } else if w == 2 {
            f.info.size
        } else if w == 3 {
            f.info.width
        } else if w == 4 {
            f.info.height
        } else if w == 5 {
            pixel_format_tag(f.info.pixel_format)
        } else if w == 6 {
            f.info.bytes_per_pixel
        } else {
            f.info.stride
        },
        None => 0,
    }
}

/// The thirteen fixed-offset header words of the handoff record: the
/// framebuffer block, the ACPI pointer block, and the three list lengths.
pub open spec fn header_words(info: BootInformation) -> Seq<u64> {
    seq![
        frame_buffer_word(info.frame_buffer, 0),
        frame_buffer_word(info.frame_buffer, 1),
        frame_buffer_word(info.frame_buffer, 2),
        frame_buffer_word(info.frame_buffer, 3),
        frame_buffer_word(info.frame_buffer, 4),
        frame_buffer_word(info.frame_buffer, 5),
        frame_buffer_word(info.frame_buffer, 6),
        frame_buffer_word(info.frame_buffer, 7),
        if info.rsdp_address is Some {
            1u64
        } else {
            0u64
        },
        match info.rsdp_address {
            Some(a) => a,
            None => 0u64,
        },
        info.elf_sections@.len() as u64,
        info.memory_map@.len() as u64,
        info.modules@.len() as u64,
    ]
}

/// One 24-byte section record: virtual start, size, permission flags.
pub open spec fn section_bytes(s: ElfSection) -> Seq<u8> {
    le_bytes_of(s.start) + le_bytes_of(s.size) + le_bytes_of(s.flags)
}

pub open spec fn sections_bytes(ss: Seq<ElfSection>) -> Seq<u8>
    decreases ss.len(),
{
    if ss.len() == 0 {
        Seq::empty()
    } else {
        sections_bytes(ss.drop_last()) + section_bytes(ss.last())
    }
}

/// One 24-byte memory-map record: start frame, frame count, kind tag.
pub open spec fn memory_region_bytes(r: MemoryRegion) -> Seq<u8> {
    le_bytes_of(r.start_frame) + le_bytes_of(r.frame_count) + le_bytes_of(region_kind_tag(r.kind))
}

pub open spec fn memory_regions_bytes(rs: Seq<MemoryRegion>) -> Seq<u8>
    decreases rs.len(),
{
    if rs.len() == 0 {
        Seq::empty()
    } else {
        memory_regions_bytes(rs.drop_last()) + memory_region_bytes(rs.last())
    }
}

/// One 88-byte module record: name length, physical start, size, then the
/// name zero-padded to a fixed 64-byte field.
pub open spec fn module_bytes(m: ModuleDescriptor) -> Seq<u8> {
    le_bytes_of(m.name@.len() as u64) + le_bytes_of(m.physical_start) + le_bytes_of(m.size)
        + Seq::new(
        64,
        |t: int|
            if t < m.name@.len() {
                m.name@[t]
            } else {
                0u8
            },
    )
}

pub open spec fn modules_bytes(ms: Seq<ModuleDescriptor>) -> Seq<u8>
    decreases ms.len(),
{
    if ms.len() == 0 {
        Seq::empty()
    } else {
        modules_bytes(ms.drop_last()) + module_bytes(ms.last())
    }
}

/// The whole record: header, section records, memory-map records, module
/// records, each list at a fixed stride behind its length word.
pub open spec fn boot_information_bytes(info: BootInformation) -> Seq<u8> {
    words_bytes(header_words(info)) + sections_bytes(info.elf_sections@) + memory_regions_bytes(
        info.memory_map@,
    ) + modules_bytes(info.modules@)
}

proof fn lemma_words_bytes_len(ws: Seq<u64>)
    ensures
        words_bytes(ws).len() == 8 * ws.len(),
    decreases ws.len(),
{
    if ws.len() > 0 {
        lemma_words_bytes_len(ws.drop_last());
    }
}

/// Word `w` of a word run sits at byte offset `8 * w`.
proof fn lemma_words_bytes_index(ws: Seq<u64>, w: int)
    requires
        0 <= w < ws.len(),
    ensures
        le_word_at(words_bytes(ws), 8 * w, ws[w]),
    decreases ws.len(),
{
    lemma_words_bytes_len(ws.drop_last());
    if w < ws.len() - 1 {
        lemma_words_bytes_index(ws.drop_last(), w);
        assert forall|k: int| 0 <= k < 8 implies words_bytes(ws)[8 * w + k] == le_byte(
            ws[w],
            k,
        ) by {
            assert(words_bytes(ws)[8 * w + k] == words_bytes(ws.drop_last())[8 * w + k]);
        }
    }
}

fn push_u64_le(out: &mut Vec<u8>, x: u64)
    ensures
        final(out)@ == old(out)@ + le_bytes_of(x),
        final(out)@.len() == old(out)@.len() + 8,
{
    out.push((x % 256) as u8);
    out.push(((x / 0x100) % 256) as u8);
    out.push(((x / 0x1_0000) % 256) as u8);
    out.push(((x / 0x100_0000) % 256) as u8);
    out.push(((x / 0x1_0000_0000) % 256) as u8);
    out.push(((x / 0x100_0000_0000) % 256) as u8);
    out.push(((x / 0x1_0000_0000_0000) % 256) as u8);
    out.push(((x / 0x100_0000_0000_0000) % 256) as u8);
    proof {
        assert(out@ =~= old(out)@ + le_bytes_of(x));
    }
}

fn pixel_format_value(f: PixelFormat) -> (r: u64)
    ensures
        r == pixel_format_tag(f),
{
    match f {
        PixelFormat::Rgb => 0,
        PixelFormat::Bgr => 1,
        PixelFormat::Bitmask => 2,
        PixelFormat::BltOnly => 3,
    }
}

/// Encodes the whole handoff record in the stable, self-describing form a
/// separately compiled kernel parses: thirteen fixed-offset header words,
/// then the section, memory-map and module records at fixed strides, every
/// byte pinned by the specification. Fails exactly when some module name
/// exceeds the 64-byte name field.
#[verifier::rlimit(80)]
pub fn encode_boot_information(info: &BootInformation) -> (r: Result<Vec<u8>, BootError>)
    ensures
        r is Ok <==> (forall|i: int|
            0 <= i < info.modules@.len() ==> (#[trigger] info.modules@[i]).name@.len() <= 64),
        r is Err ==> r == Err::<Vec<u8>, BootError>(BootError::ConfigurationError),
        r is Ok ==> r->Ok_0@ == boot_information_bytes(*info),
        r is Ok ==> (forall|w: int|
            0 <= w < 13 ==> #[trigger] le_word_at(r->Ok_0@, 8 * w, header_words(*info)[w])),
{
    let mut i: usize = 0;
    while i < info.modules.len()
        invariant
            i <= info.modules@.len(),
            forall|j: int| 0 <= j < i ==> (#[trigger] info.modules@[j]).name@.len() <= 64,
        decreases info.modules@.len() - i,
    {
        if info.modules[i].name.len() > 64 {
            return Err(BootError::ConfigurationError);
        }
        i += 1;
    }
    let mut words: Vec<u64> = Vec::new();
    match &info.frame_buffer {
        Some(fb) => {
            words.push(1);
            words.push(fb.start);
            words.push(fb.info.size);
            words.push(fb.info.width);
            words.push(fb.info.height);
            words.push(pixel_format_value(fb.info.pixel_format));
            words.push(fb.info.bytes_per_pixel);
            words.push(fb.info.stride);
        },
        None => {
            let mut w: usize = 0;
            while w < 8
                invariant
                    w <= 8,
                    info.frame_buffer is None,
                    words@.len() == w,
                    forall|v: int| 0 <= v < w ==> words@[v] == 0,
                decreases 8 - w,
            {
                words.push(0);
                w += 1;
            }
        },
    }
    match info.rsdp_address {
        Some(a) => {
            words.push(1);
            words.push(a);
        },
        None => {
            words.push(0);
            words.push(0);
        },
    }
    words.push(info.elf_sections.len() as u64);
    words.push(info.memory_map.len() as u64);
    words.push(info.modules.len() as u64);
    proof {
        assert(words@ =~= header_words(*info));
    }
    let mut out: Vec<u8> = Vec::new();
    let mut w: usize = 0;
    while w < words.len()
        invariant
            w <= words@.len(),
            out@ == words_bytes(words@.subrange(0, w as int)),
        decreases words@.len() - w,
    {
        push_u64_le(&mut out, words[w]);
        proof {
            assert(words@.subrange(0, w + 1).drop_last() =~= words@.subrange(0, w as int));
        }
        w += 1;
    }
    proof {
        assert(words@.subrange(0, words@.len() as int) =~= words@);
    }
    let ghost hdr = out@;
    let mut i: usize = 0;
    while i < info.elf_sections.len()
        invariant
            i <= info.elf_sections@.len(),
            hdr == words_bytes(header_words(*info)),
            out@ == hdr + sections_bytes(info.elf_sections@.subrange(0, i as int)),
        decreases info.elf_sections@.len() - i,
    {
        let sct = info.elf_sections[i];
        push_u64_le(&mut out, sct.start);
        push_u64_le(&mut out, sct.size);
        push_u64_le(&mut out, sct.flags);
        proof {
            assert(info.elf_sections@.subrange(0, i + 1).drop_last() =~= info.elf_sections@.subrange(
                0,
                i as int,
            ));
            assert(out@ =~= hdr + sections_bytes(info.elf_sections@.subrange(0, i + 1)));
        }
        i += 1;
    }
    proof {
        assert(info.elf_sections@.subrange(0, info.elf_sections@.len() as int)
            =~= info.elf_sections@);
    }
    let ghost hs = out@;
    let mut i: usize = 0;
    while i < info.memory_map.len()
        invariant
            i <= info.memory_map@.len(),
            hs == words_bytes(header_words(*info)) + sections_bytes(info.elf_sections@),
            out@ == hs + memory_regions_bytes(info.memory_map@.subrange(0, i as int)),
        decreases info.memory_map@.len() - i,
    {
        let region = info.memory_map[i];
        push_u64_le(&mut out, region.start_frame);
        push_u64_le(&mut out, region.frame_count);
        push_u64_le(&mut out, region_kind_value(region.kind));
        proof {
            assert(info.memory_map@.subrange(0, i + 1).drop_last() =~= info.memory_map@.subrange(
                0,
                i as int,
            ));
            assert(out@ =~= hs + memory_regions_bytes(info.memory_map@.subrange(0, i + 1)));
        }
        i += 1;
    }
    proof {
        assert(info.memory_map@.subrange(0, info.memory_map@.len() as int) =~= info.memory_map@);
    }
    let ghost hsr = out@;
    let mut i: usize = 0;
    while i < info.modules.len()
        invariant
            i <= info.modules@.len(),
            hsr == words_bytes(header_words(*info)) + sections_bytes(info.elf_sections@)
                + memory_regions_bytes(info.memory_map@),
            out@ == hsr + modules_bytes(info.modules@.subrange(0, i as int)),
            forall|j: int| 0 <= j < info.modules@.len() ==> (#[trigger] info.modules@[j]).name@.len()
                <= 64,
        decreases info.modules@.len() - i,
    {
        let m = &info.modules[i];
        let ghost mbase = out@;
        push_u64_le(&mut out, m.name.len() as u64);
        push_u64_le(&mut out, m.physical_start);
        push_u64_le(&mut out, m.size);
        let ghost fixed = out@;
        let mut j: usize = 0;
        while j < 64
            invariant
                j <= 64,
                m == &info.modules@[i as int],
                m.name@.len() <= 64,
                out@ == fixed + Seq::new(
                    j as nat,
                    |t: int|
                        if t < m.name@.len() {
                            m.name@[t]
                        } else {
                            0u8
                        },
                ),
            decreases 64 - j,
        {
            if j < m.name.len() {
                let b = m.name[j];
                out.push(b);
            } else {
                out.push(0);
            }
            proof {
                assert(out@ =~= fixed + Seq::new(
                    (j + 1) as nat,
                    |t: int|
                        if t < m.name@.len() {
                            m.name@[t]
                        } else {
                            0u8
                        },
                ));
            }
            j += 1;
        }
        proof {
            assert(info.modules@.subrange(0, i + 1).drop_last() =~= info.modules@.subrange(
                0,
                i as int,
            ));
            assert(out@ =~= hsr + modules_bytes(info.modules@.subrange(0, i + 1)));
        }
        i += 1;
    }
    proof {
        assert(info.modules@.subrange(0, info.modules@.len() as int) =~= info.modules@);
        assert(out@ == boot_information_bytes(*info));
        assert forall|w2: int|
            0 <= w2 < 13 implies #[trigger] le_word_at(out@, 8 * w2, header_words(*info)[w2]) by {
            lemma_words_bytes_index(header_words(*info), w2);
            lemma_words_bytes_len(header_words(*info));
            assert forall|k: int| 0 <= k < 8 implies out@[8 * w2 + k] == le_byte(
                header_words(*info)[w2],
                k,
            ) by {
                assert(out@[8 * w2 + k] == words_bytes(header_words(*info))[8 * w2 + k]);
            }
        }
    }
    Ok(out)
}

} // verus!
