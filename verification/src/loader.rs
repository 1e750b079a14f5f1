use vstd::prelude::*;
use crate::addr::{Frame, PageRange, PAGE_NUMBER_LIMIT, PAGE_SIZE, VPN_SPAN};
use crate::elf::ElfSegment;
use crate::frame_allocator::FrameSupply;
use crate::mapper::{pool_fresh_for, Mapper, PteFlags};
use crate::page_allocator::PageAllocator;
use crate::BootError;

verus! {

/// The one architecture-defined physical address a segment may demand: the
/// low real-mode trampoline window, which must sit below the hardware's
/// start-up address ceiling and be identity-placed.
pub const TRAMPOLINE_PHYSICAL_ADDRESS: u64 = 0x10_0000;

/// How the backing memory of a segment is to be obtained.
#[derive(Clone, Copy, Debug, PartialEq, Eq, Structural)]
pub enum AllocationPlacement {
    Fixed(u64),
    AnyAddress,
}

/// The placement policy: exactly the trampoline address is honoured as a
/// fixed physical placement; everything else takes allocator-chosen memory.
pub fn allocation_placement(segment: &ElfSegment) -> (r: AllocationPlacement)
    ensures
        segment.paddr == TRAMPOLINE_PHYSICAL_ADDRESS ==> r == AllocationPlacement::Fixed(
            TRAMPOLINE_PHYSICAL_ADDRESS,
        ),
        segment.paddr != TRAMPOLINE_PHYSICAL_ADDRESS ==> r == AllocationPlacement::AnyAddress,
{
    if segment.paddr == TRAMPOLINE_PHYSICAL_ADDRESS {
        AllocationPlacement::Fixed(TRAMPOLINE_PHYSICAL_ADDRESS)
    } else {
        AllocationPlacement::AnyAddress
    }
}

/// The page permissions a segment's flag bits call for: always present,
/// writable exactly when the segment is writable, no-execute exactly when it
/// is not executable.
pub open spec fn segment_flags(segment: ElfSegment) -> PteFlags {
    PteFlags {
        present: true,
        writable: segment.flags & 2 != 0,
        no_execute: segment.flags & 1 == 0,
    }
}

pub fn flags_for_segment(segment: &ElfSegment) -> (r: PteFlags)
    ensures
        r == segment_flags(*segment),
{
    let mut flags = PteFlags::new().present(true);
    if segment.flags & 1 == 0 {
        flags = flags.no_execute(true);
    }
    if segment.flags & 2 != 0 {
        flags = flags.writable(true);
    }
    flags
}

/// The four-level index tuple of the `k`th page of a range.
pub open spec fn range_vpn(pr: PageRange, k: int) -> int {
    (pr.start.number + k) % (VPN_SPAN as int)
}

/// Some page of the range has this index tuple.
pub open spec fn covers_vpn(pr: PageRange, q: int) -> bool {
    exists|k: int| 0 <= k < pr.count() && q == #[trigger] range_vpn(pr, k)
}

proof fn lemma_aligned_offset_div(base: int, off: int)
    requires
        base >= 0,
        off >= 0,
        base % (PAGE_SIZE as int) == 0,
    ensures
        (base + off) / (PAGE_SIZE as int) == base / (PAGE_SIZE as int) + off / (PAGE_SIZE as int),
{
    let d = PAGE_SIZE as int;
    let b = base / d;
    vstd::arithmetic::div_mod::lemma_fundamental_div_mod(base, d);
    vstd::arithmetic::div_mod::lemma_fundamental_div_mod(off, d);
    assert(base + off == d * (b + off / d) + off % d) by (nonlinear_arith)
        requires
            base == d * b,
            off == d * (off / d) + off % d,
    ;
    vstd::arithmetic::div_mod::lemma_div_multiples_vanish_fancy(b + off / d, off % d, d);
}

/// The inputs on which loading a segment is owed success: a well-formed
/// segment whose virtual range is unclaimed and unmapped, backing memory
/// that does not overrun the address space, and a granted pool holding
/// enough collision-free frames for every table the walk could need.
pub open spec fn map_segment_succeeds(
    page_allocator: PageAllocator,
    mapper: Mapper,
    supply: FrameSupply,
    segment: ElfSegment,
    phys_start: u64,
) -> bool {
    segment.wf() && crate::page_allocator::range_free(
        page_allocator.claims@,
        segment.start_page(),
        segment.page_range().count(),
    ) && segment.memsz - 1 <= u64::MAX - phys_start && (forall|k: int|
        0 <= k < segment.page_range().count() ==> (#[trigger] mapper.resolve(
            range_vpn(segment.page_range(), k),
        )) is None) && (supply matches FrameSupply::Firmware(p) && crate::mapper::pool_fresh_for(
        mapper,
        p.frames(),
    ) && p.frames().len() >= 3 * segment.page_range().count())
}

/// Distinct pages of one well-formed range have distinct index tuples.
pub proof fn lemma_range_vpns_distinct(pr: PageRange, j: int, k: int)
    requires
        pr.wf(),
        0 <= j < pr.count(),
        0 <= k < pr.count(),
        j != k,
    ensures
        range_vpn(pr, j) != range_vpn(pr, k),
{
    let pj = crate::addr::Page { number: (pr.start.number + j) as u64 };
    let pk = crate::addr::Page { number: (pr.start.number + k) as u64 };
    pr.lemma_members_canonical(pj.number);
    pr.lemma_members_canonical(pk.number);
    if range_vpn(pr, j) == range_vpn(pr, k) {
        crate::addr::lemma_vpn_injective(pj, pk);
        assert(false);
    }
}

/// Loads one segment's address-space shape: claims its virtual range in the
/// ledger, then maps every page of the range, in increasing order, onto the
/// physically contiguous backing frames that start at `phys_start`, with the
/// permissions the segment's flags call for. The caller has already placed
/// the segment's zero-filled memory image at `phys_start`.
pub fn map_segment(
    page_allocator: &mut PageAllocator,
    mapper: &mut Mapper,
    supply: &mut FrameSupply,
    segment: &ElfSegment,
    phys_start: u64,
) -> (r: Result<PageRange, BootError>)
    requires
        old(page_allocator).wf(),
        old(mapper).wf(),
        old(supply).wf(),
        phys_start % PAGE_SIZE == 0,
    ensures
        final(page_allocator).wf(),
        final(mapper).wf(),
        final(supply).wf(),
        ((*old(supply)) is Firmware <==> (*final(supply)) is Firmware),
        !segment.wf() ==> r == Err::<PageRange, BootError>(BootError::ConfigurationError),
        r is Ok ==> ({
            let pr = r->Ok_0;
            pr == segment.page_range() && pr.wf() && final(page_allocator).claims@ == old(
                page_allocator,
            ).claims@.push(pr) && (forall|k: int|
                0 <= k < pr.count() ==> final(mapper).resolve(#[trigger] range_vpn(pr, k))
                    == Some(
                    (phys_start as int / PAGE_SIZE as int + k, segment_flags(*segment)),
                ))
        }),
        forall|q: int|
            0 <= q < VPN_SPAN && !covers_vpn(segment.page_range(), q) ==> final(mapper).resolve(q)
                == old(mapper).resolve(q),
        r is Err ==> r->Err_0 == BootError::ConfigurationError || r->Err_0
            == BootError::OutOfMemory || r->Err_0 == BootError::FirmwareError,
        final(mapper).tables@[0].frame == old(mapper).tables@[0].frame,
        r is Err ==> final(page_allocator).claims@ == old(page_allocator).claims@
            || final(page_allocator).claims@ == old(page_allocator).claims@.push(
            segment.page_range(),
        ),
        r == Err::<PageRange, BootError>(BootError::OutOfMemory) ==> final(supply).exhausted(),
        old(supply).monotone_to(*final(supply)),
        r == Err::<PageRange, BootError>(BootError::FirmwareError) ==> old(supply).consumed_from(
            *final(supply),
        ),
        r == Err::<PageRange, BootError>(BootError::ConfigurationError) ==> (!segment.wf()
            || !crate::page_allocator::range_free(
            old(page_allocator).claims@,
            segment.start_page(),
            segment.page_range().count(),
        ) || segment.memsz - 1 > u64::MAX - phys_start || (exists|q: int|
            0 <= q < VPN_SPAN && (#[trigger] old(mapper).resolve(q)) is Some)),
        segment.wf() ==> ((*old(supply)) matches FrameSupply::Firmware(p0) ==> ((*final(supply))
            matches FrameSupply::Firmware(p1) && p1.frames().len() + 3
            * segment.page_range().count() >= p0.frames().len() && (pool_fresh_for(
            *old(mapper),
            p0.frames(),
        ) ==> pool_fresh_for(*final(mapper), p1.frames())))),
        map_segment_succeeds(
            *old(page_allocator),
            *old(mapper),
            *old(supply),
            *segment,
            phys_start,
        ) ==> r is Ok,
{
    if !segment.is_well_formed() {
        return Err(BootError::ConfigurationError);
    }
    if segment.memsz - 1 > u64::MAX - phys_start {
        return Err(BootError::ConfigurationError);
    }
    let pr = match page_allocator.mark_segment_as_used(segment) {
        Ok(pr) => pr,
        Err(e) => {
            return Err(e);
        },
    };
    let fstart: u64 = phys_start / PAGE_SIZE;
    let count: u64 = pr.end.number - pr.start.number + 1;
    proof {
        lemma_aligned_offset_div(segment.vaddr as int, (segment.memsz - 1) as int);
        lemma_aligned_offset_div(phys_start as int, (segment.memsz - 1) as int);
        vstd::arithmetic::div_mod::lemma_div_is_ordered(
            (phys_start + (segment.memsz - 1)) as int,
            u64::MAX as int,
            PAGE_SIZE as int,
        );
        assert(fstart + count - 1 == (phys_start + (segment.memsz - 1)) as int / (
        PAGE_SIZE as int));
        assert(fstart + count <= PAGE_NUMBER_LIMIT);
    }
    let flags = flags_for_segment(segment);
    let ghost m0 = *mapper;
    let ghost happy = map_segment_succeeds(
        *old(page_allocator),
        *old(mapper),
        *old(supply),
        *segment,
        phys_start,
    );
    let mut k: u64 = 0;
    while k < count
        invariant
            mapper.wf(),
            supply.wf(),
            (*old(supply) is Firmware <==> *supply is Firmware),
            mapper.tables@[0].frame == m0.tables@[0].frame,
            happy == map_segment_succeeds(
                *old(page_allocator),
                m0,
                *old(supply),
                *segment,
                phys_start,
            ),
            (*old(supply)) matches FrameSupply::Firmware(q0) ==> ((*supply)
                matches FrameSupply::Firmware(qk) && qk.frames().len() + 3 * k
                >= q0.frames().len() && (pool_fresh_for(m0, q0.frames()) ==> pool_fresh_for(
                *mapper,
                qk.frames(),
            ))),
            happy ==> (forall|j: int|
                k <= j < count ==> (#[trigger] mapper.resolve(range_vpn(pr, j))) is None),
            page_allocator.wf(),
            segment.wf(),
            pr == segment.page_range(),
            page_allocator.claims@ == old(page_allocator).claims@.push(pr),
            m0 == *old(mapper),
            old(supply).monotone_to(*supply),
            forall|j: int|
                k <= j < count ==> #[trigger] mapper.resolve(range_vpn(pr, j)) == m0.resolve(
                    range_vpn(pr, j),
                ),
            pr.wf(),
            k <= count,
            count == pr.count(),
            fstart == phys_start as int / PAGE_SIZE as int,
            fstart + count <= PAGE_NUMBER_LIMIT,
            flags == segment_flags(*segment),
            forall|j: int|
                0 <= j < k ==> mapper.resolve(#[trigger] range_vpn(pr, j)) == Some(
                    (fstart + j, flags),
                ),
            forall|q: int|
                0 <= q < VPN_SPAN && !covers_vpn(pr, q) ==> mapper.resolve(q) == m0.resolve(q),
        decreases count - k,
    {
        let page = pr.nth(k);
        let frame = Frame { number: fstart + k };
        proof {
            assert(page.vpn() == range_vpn(pr, k as int));
        }
        let ghost s_before = *supply;
        let ghost m_before = *mapper;
        match mapper.map(page, frame, flags, supply) {
            Ok(()) => {},
            Err(e) => {
                proof {
                    assert forall|q: int|
                        0 <= q < VPN_SPAN && !covers_vpn(pr, q) implies mapper.resolve(q)
                        == m0.resolve(q) by {
                        assert(covers_vpn(pr, range_vpn(pr, k as int)));
                    }
                    if happy {
                        let s0 = *old(supply);
                        let q0 = s0->Firmware_0;
                        let qk = s_before->Firmware_0;
                        assert(qk.frames().len() >= 3);
                        assert(m_before.resolve(page.vpn()) is None);
                        assert(false);
                    }
                    if e == BootError::FirmwareError {
                        crate::mapper::lemma_consumed_chain(*old(supply), s_before, *supply, *supply);
                    }
                    if e == BootError::ConfigurationError {
                        assert(m_before.resolve(page.vpn()) is Some);
                        assert(0 <= range_vpn(pr, k as int) < VPN_SPAN);
                        assert((#[trigger] m0.resolve(range_vpn(pr, k as int))) is Some);
                    }
                }
                return Err(e);
            },
        }
        proof {
            assert forall|j: int|
                k + 1 <= j < count implies #[trigger] mapper.resolve(range_vpn(pr, j))
                == m0.resolve(range_vpn(pr, j)) by {
                lemma_range_vpns_distinct(pr, j, k as int);
                assert(0 <= range_vpn(pr, j) < VPN_SPAN);
                assert(mapper.resolve(range_vpn(pr, j)) == m_before.resolve(range_vpn(pr, j)));
            }
            assert forall|j: int|
                0 <= j < k + 1 implies mapper.resolve(#[trigger] range_vpn(pr, j)) == Some(
                (fstart + j, flags),
            ) by {
                if j < k {
                    lemma_range_vpns_distinct(pr, j, k as int);
                    assert(0 <= range_vpn(pr, j) < VPN_SPAN);
                }
            }
            assert forall|q: int|
                0 <= q < VPN_SPAN && !covers_vpn(pr, q) implies mapper.resolve(q) == m0.resolve(
                q,
            ) by {
                assert(covers_vpn(pr, range_vpn(pr, k as int)));
                assert(q != page.vpn());
            }
            if happy {
                assert forall|j: int|
                    k + 1 <= j < count implies (#[trigger] mapper.resolve(range_vpn(pr, j)))
                    is None by {
                    lemma_range_vpns_distinct(pr, j, k as int);
                    assert(0 <= range_vpn(pr, j) < VPN_SPAN);
                }
            }
        }
        k += 1;
    }
    Ok(pr)
}

} // verus!
