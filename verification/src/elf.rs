use vstd::prelude::*;
use crate::addr::{addr_is_canonical, LOWER_HALF_END, PAGE_SIZE, Page, PageRange, UPPER_HALF_START};
use crate::BootError;

verus! {

/// One loadable program header of a kernel image, reduced to the plain
/// values the loader reads: addresses, sizes and permission bits.
#[derive(Clone, Copy, Debug, PartialEq, Eq, Structural)]
pub struct ElfSegment {
    /// Virtual address the segment wants to live at.
    pub vaddr: u64,
    /// Physical address the image asks for; only a fixed low trampoline
    /// address is honoured.
    pub paddr: u64,
    /// Offset of the segment's file-backed bytes inside the image file.
    pub offset: u64,
    /// Number of file-backed bytes.
    pub filesz: u64,
    /// Size of the segment's memory image; the tail beyond `filesz` must
    /// read as zero.
    pub memsz: u64,
    /// Permission bits: bit 0 executable, bit 1 writable, bit 2 readable.
    pub flags: u32,
}

impl ElfSegment {
    /// A segment the loader accepts: non-empty, no more file bytes than
    /// memory bytes, page-aligned start, and a virtual range that stays
    /// canonical inside one half of the address space.
    pub open spec fn wf(self) -> bool {
        1 <= self.memsz && self.filesz <= self.memsz && self.vaddr % PAGE_SIZE == 0
            && self.vaddr + self.memsz - 1 <= u64::MAX && addr_is_canonical(self.vaddr)
            && addr_is_canonical((self.vaddr + self.memsz - 1) as u64) && (self.vaddr + self.memsz
            - 1 < LOWER_HALF_END || self.vaddr >= UPPER_HALF_START)
    }

    pub open spec fn start_page(self) -> int {
        self.vaddr as int / PAGE_SIZE as int
    }

    pub open spec fn end_page(self) -> int {
        (self.vaddr + self.memsz - 1) / PAGE_SIZE as int
    }

    /// The run of pages the segment's memory image covers.
    pub open spec fn page_range(self) -> PageRange {
        PageRange {
            start: Page { number: self.start_page() as u64 },
            end: Page { number: self.end_page() as u64 },
        }
    }

    pub fn is_well_formed(&self) -> (r: bool)
        ensures
            r == self.wf(),
    {
        1 <= self.memsz && self.filesz <= self.memsz && self.vaddr % PAGE_SIZE == 0
            && self.vaddr <= u64::MAX - (self.memsz - 1) && (self.vaddr < LOWER_HALF_END
            || self.vaddr >= UPPER_HALF_START) && ({
            let end: u64 = self.vaddr + (self.memsz - 1);
            (end < LOWER_HALF_END || end >= UPPER_HALF_START) && (end < LOWER_HALF_END
                || self.vaddr >= UPPER_HALF_START)
        })
    }
}

/// Builds the memory image of a segment: `memsz` bytes, of which the first
/// `filesz` come from the file and the rest read as zero. Zero-filling is
/// what gives uninitialized-data tails their meaning without the file
/// carrying them.
pub fn segment_image(file: &Vec<u8>, segment: &ElfSegment) -> (r: Result<Vec<u8>, BootError>)
    ensures
        r is Ok <==> segment.offset + segment.filesz <= file@.len() && segment.filesz
            <= segment.memsz && segment.memsz <= usize::MAX,
        r is Ok ==> r->Ok_0@.len() == segment.memsz && (forall|i: int|
            0 <= i < segment.filesz ==> r->Ok_0@[i] == file@[segment.offset + i]) && (forall|
            i: int,
        |
            segment.filesz <= i < segment.memsz ==> r->Ok_0@[i] == 0),
        r is Err ==> r == Err::<Vec<u8>, BootError>(BootError::ConfigurationError),
{
    let flen: usize = file.len();
    let len_u: u64 = flen as u64;
    if segment.filesz > segment.memsz || segment.memsz > usize::MAX as u64 || segment.offset
        > len_u || segment.filesz > len_u - segment.offset {
        return Err(BootError::ConfigurationError);
    }
    let fsz: usize = segment.filesz as usize;
    let msz: usize = segment.memsz as usize;
    let off: usize = segment.offset as usize;
    let mut img: Vec<u8> = Vec::new();
    let mut i: usize = 0;
    while i < fsz
        invariant
            i <= fsz,
            fsz == segment.filesz,
            off == segment.offset,
            flen == file@.len(),
            off + fsz <= flen,
            img@.len() == i,
            forall|j: int| 0 <= j < i ==> img@[j] == file@[segment.offset + j],
        decreases fsz - i,
    {
        img.push(file[off + i]);
        i += 1;
    }
    while i < msz
        invariant
            fsz <= i <= msz,
            fsz == segment.filesz,
            msz == segment.memsz,
            img@.len() == i,
            forall|j: int| 0 <= j < fsz ==> img@[j] == file@[segment.offset + j],
            forall|j: int| fsz <= j < i ==> img@[j] == 0,
        decreases msz - i,
    {
        img.push(0);
        i += 1;
    }
    Ok(img)
}

/// A program header as the image file declares it: its type tag, and the
/// loader-relevant fields.
#[derive(Clone, Copy, Debug, PartialEq, Eq, Structural)]
pub struct ProgramHeaderInfo {
    pub segment_type: u32,
    pub segment: ElfSegment,
}

/// The type tag of a loadable program header.
pub const SEGMENT_TYPE_LOADABLE: u32 = 1;

/// What parsing an image yields: whether it parses at all, its entry point,
/// and its program headers. The result is a function of the bytes alone.
pub uninterp spec fn parsed_elf_of(bytes: Seq<u8>) -> (bool, u64, Seq<ProgramHeaderInfo>);

/// A parsed kernel image: its entry point and its program headers.
pub struct ElfImage {
    pub entry: u64,
    pub headers: Vec<ProgramHeaderInfo>,
}

/// Relies on goblin::elf::Elf::parse: whether an image parses, its entry
/// point, and its program headers depend on the bytes alone.
#[verifier::external_body]
fn parse_elf(bytes: &Vec<u8>) -> (r: Result<ElfImage, BootError>)
    ensures
        r is Ok <==> parsed_elf_of(bytes@).0,
        r is Ok ==> r->Ok_0.entry == parsed_elf_of(bytes@).1,
        r is Ok ==> r->Ok_0.headers@ == parsed_elf_of(bytes@).2,
        r is Err ==> r->Err_0 == BootError::ConfigurationError,
{
    let convert = |ph: &goblin::elf::ProgramHeader| ProgramHeaderInfo {
        segment_type: ph.p_type,
        segment: ElfSegment {
            vaddr: ph.p_vaddr, paddr: ph.p_paddr, offset: ph.p_offset,
            filesz: ph.p_filesz, memsz: ph.p_memsz, flags: ph.p_flags,
        },
    };
    match goblin::elf::Elf::parse(bytes) {
        Ok(elf) => Ok(ElfImage {
            entry: elf.entry,
            headers: elf.program_headers.iter().map(convert).collect(),
        }),
        Err(_) => Err(BootError::ConfigurationError),
    }
}

/// The loadable segments among a run of program headers, in file order.
pub open spec fn loadable_of(headers: Seq<ProgramHeaderInfo>) -> Seq<ElfSegment>
    decreases headers.len(),
{
    if headers.len() == 0 {
        Seq::empty()
    } else {
        let rest = loadable_of(headers.drop_last());
        if headers.last().segment_type == SEGMENT_TYPE_LOADABLE {
            rest.push(headers.last().segment)
        } else {
            rest
        }
    }
}

/// Keeps exactly the loadable program headers, in the order the file lists
/// them.
pub fn loadable_segments(headers: &Vec<ProgramHeaderInfo>) -> (r: Vec<ElfSegment>)
    ensures
        r@ == loadable_of(headers@),
{
    let mut out: Vec<ElfSegment> = Vec::new();
    let mut i: usize = 0;
    while i < headers.len()
        invariant
            i <= headers@.len(),
            out@ == loadable_of(headers@.subrange(0, i as int)),
        decreases headers@.len() - i,
    {
        let h = headers[i];
        proof {
            assert(headers@.subrange(0, i + 1).drop_last() == headers@.subrange(0, i as int));
            assert(headers@.subrange(0, i + 1).last() == headers@[i as int]);
        }
        if h.segment_type == SEGMENT_TYPE_LOADABLE {
            out.push(h.segment);
        }
        i += 1;
    }
    proof {
        assert(headers@.subrange(0, headers@.len() as int) == headers@);
    }
    out
}

/// Parses a kernel image and returns its entry point together with its
/// loadable segments, in file order; an image goblin does not accept is a
/// configuration error.
pub fn parse_loadable_segments(bytes: &Vec<u8>) -> (r: Result<(u64, Vec<ElfSegment>), BootError>)
    ensures
        r is Ok <==> parsed_elf_of(bytes@).0,
        r is Ok ==> ({
            let (entry, segments) = r->Ok_0;
            entry == parsed_elf_of(bytes@).1 && segments@ == loadable_of(parsed_elf_of(bytes@).2)
        }),
        r is Err ==> r == Err::<(u64, Vec<ElfSegment>), BootError>(BootError::ConfigurationError),
{
    match parse_elf(bytes) {
        Ok(image) => Ok((image.entry, loadable_segments(&image.headers))),
        Err(e) => Err(e),
    }
}

} // verus!
