use vstd::prelude::*;
use crate::addr::{Frame, FrameRange, Page, PageRange, VirtualAddress, PAGE_NUMBER_LIMIT,
    PAGE_SIZE, UPPER_HALF_START, VPN_SPAN};
use crate::bootinfo::{BootInformation, ElfSection, FrameBuffer, ModuleDescriptor};
use crate::elf::ElfSegment;
use crate::frame_allocator::{regions_wf, FramePool, FrameSupply, MemoryRegion,
    StaticMapFrameAllocator};
use crate::loader;
use crate::mapper::{Mapper, PteFlags};
use crate::page_allocator::PageAllocator;
use crate::BootError;

verus! {

/// How many descriptors of headroom the teardown buffer reserves beyond the
/// firmware-reported map size: the buffer allocation itself, and the
/// retrieval, may grow the map a little.
pub const MAP_HEADROOM_DESCRIPTORS: u64 = 8;

/// The size of buffer to allocate for the final memory-map snapshot, given
/// the firmware's reported size and descriptor stride.
pub fn predicted_map_size(map_size: u64, entry_size: u64) -> (r: Result<u64, BootError>)
    ensures
        r is Ok <==> map_size + MAP_HEADROOM_DESCRIPTORS * entry_size <= u64::MAX,
        r is Ok ==> r->Ok_0 == map_size + MAP_HEADROOM_DESCRIPTORS * entry_size,
        r is Err ==> r == Err::<u64, BootError>(BootError::FirmwareError),
{
    match entry_size.checked_mul(MAP_HEADROOM_DESCRIPTORS) {
        Some(headroom) => match map_size.checked_add(headroom) {
            Some(total) => Ok(total),
            None => Err(BootError::FirmwareError),
        },
        None => Err(BootError::FirmwareError),
    }
}

/// Law: a teardown buffer sized by the headroom rule holds the final map
/// whenever the firmware's exit call grew it by at most the reserved number
/// of descriptors.
pub proof fn lemma_headroom_suffices(map_size: u64, entry_size: u64, growth: u64)
    requires
        map_size + MAP_HEADROOM_DESCRIPTORS * entry_size <= u64::MAX,
        growth <= MAP_HEADROOM_DESCRIPTORS,
    ensures
        map_size + growth * entry_size <= map_size + MAP_HEADROOM_DESCRIPTORS * entry_size,
{
    assert(growth * entry_size <= MAP_HEADROOM_DESCRIPTORS * entry_size) by (nonlinear_arith)
        requires
            growth <= MAP_HEADROOM_DESCRIPTORS,
    ;
}

/// Whether the snapshot the teardown call wrote actually fit in the buffer
/// that was allocated for it; growth beyond the reserved headroom is fatal.
pub fn validate_snapshot_capture(buffer_size: u64, final_map_size: u64) -> (r: Result<
    (),
    BootError,
>)
    ensures
        r is Ok <==> final_map_size <= buffer_size,
        r is Err ==> r == Err::<(), BootError>(BootError::FirmwareError),
{
    if final_map_size <= buffer_size {
        Ok(())
    } else {
        Err(BootError::FirmwareError)
    }
}

/// The loader while firmware services are still up: the claim ledger, the
/// page-table builder, and a pool of firmware-granted frames that backs new
/// table nodes. Consumed, whole, by the one-way transition to the runtime
/// phase.
pub struct BootContext {
    pub page_allocator: PageAllocator,
    pub mapper: Mapper,
    pub frame_supply: FrameSupply,
}

impl BootContext {
    pub open spec fn wf(self) -> bool {
        self.page_allocator.wf() && self.mapper.wf() && self.frame_supply.wf()
            && self.frame_supply is Firmware
    }

    /// Builds the boot-phase context: an empty ledger and a fresh zeroed
    /// root table whose frame comes out of the firmware-granted pool.
    pub fn new(pool: FramePool) -> (r: Result<BootContext, BootError>)
        requires
            pool.wf(),
        ensures
            r is Ok <==> pool.frames().len() >= 1,
            r is Ok ==> ({
                let c = r->Ok_0;
                c.wf() && c.page_allocator.claims@ == Seq::<PageRange>::empty() && (forall|q: int|
                    (#[trigger] c.mapper.resolve(q)) is None) && (c.frame_supply
                    matches FrameSupply::Firmware(p1) && p1.frames() == pool.frames().drop_last()
                    && (crate::frame_allocator::frames_distinct(pool.frames())
                    ==> crate::mapper::pool_fresh_for(c.mapper, p1.frames())))
            }),
            r is Err ==> r == Err::<BootContext, BootError>(BootError::OutOfMemory),
    {
        let mut supply = FrameSupply::Firmware(pool);
        let mapper = match Mapper::new(&mut supply) {
            Ok(m) => m,
            Err(e) => {
                return Err(e);
            },
        };
        let c = BootContext { page_allocator: PageAllocator::new(), mapper, frame_supply: supply };
        proof {
            let p1 = c.frame_supply->Firmware_0;
            if crate::frame_allocator::frames_distinct(pool.frames()) {
                assert forall|i: int|
                    0 <= i < p1.frames().len() implies !crate::mapper::arena_has_frame(
                    c.mapper,
                    #[trigger] p1.frames()[i],
                ) by {
                    assert(p1.frames()[i] == pool.frames()[i]);
                    assert(pool.frames()[i] != pool.frames()[pool.frames().len() - 1]);
                    if crate::mapper::arena_has_frame(c.mapper, p1.frames()[i]) {
                        let n = choose|n: int|
                            0 <= n < c.mapper.tables@.len() && (#[trigger] c.mapper.tables@[n]).frame
                                == p1.frames()[i];
                        assert(n == 0);
                        assert(false);
                    }
                }
            }
        }
        Ok(c)
    }

    /// Records one firmware-granted frame as available to back page tables.
    pub fn grant_frame(&mut self, frame: Frame)
        requires
            old(self).wf(),
            frame.wf(),
        ensures
            final(self).wf(),
            final(self).mapper == old(self).mapper,
            final(self).page_allocator == old(self).page_allocator,
            (old(self).frame_supply matches FrameSupply::Firmware(p0)
                && final(self).frame_supply matches FrameSupply::Firmware(p1) && p1.frames()
                == p0.frames().push(frame.number)),
    {
        match &mut self.frame_supply {
            FrameSupply::Firmware(pool) => pool.grant(frame),
            FrameSupply::Snapshot(_) => {
                proof {
                    assert(false);
                }
            },
        }
    }

    /// How many granted frames are still waiting in the pool.
    pub fn frames_available(&self) -> (r: usize)
        requires
            self.wf(),
        ensures
            self.frame_supply matches FrameSupply::Firmware(p) ==> r == p.frames().len(),
    {
        match &self.frame_supply {
            FrameSupply::Firmware(pool) => pool.available(),
            FrameSupply::Snapshot(_) => {
                proof {
                    assert(false);
                }
                0
            },
        }
    }

    /// Claims and maps one loadable segment whose zero-filled image the
    /// caller has placed at `phys_start` (see `loader::map_segment`).
    pub fn map_segment(&mut self, segment: &ElfSegment, phys_start: u64) -> (r: Result<
        PageRange,
        BootError,
    >)
        requires
            old(self).wf(),
            phys_start % PAGE_SIZE == 0,
        ensures
            final(self).wf(),
            !segment.wf() ==> r == Err::<PageRange, BootError>(BootError::ConfigurationError),
            r is Ok ==> ({
                let pr = r->Ok_0;
                pr == segment.page_range() && pr.wf() && final(self).page_allocator.claims@ == old(self).page_allocator.claims@.push(pr) && (forall|k: int|
                    0 <= k < pr.count() ==> final(self).mapper.resolve(
                        #[trigger] loader::range_vpn(pr, k),
                    ) == Some(
                        (phys_start as int / PAGE_SIZE as int + k, loader::segment_flags(*segment)),
                    ))
            }),
            forall|q: int|
                0 <= q < VPN_SPAN && !loader::covers_vpn(segment.page_range(), q) ==> final(self).mapper.resolve(q) == old(self).mapper.resolve(q),
            r is Err ==> r->Err_0 == BootError::ConfigurationError || r->Err_0
                == BootError::OutOfMemory || r->Err_0 == BootError::FirmwareError,
            final(self).mapper.tables@[0].frame == old(self).mapper.tables@[0].frame,
            r is Err ==> final(self).page_allocator.claims@ == old(self).page_allocator.claims@
                || final(self).page_allocator.claims@ == old(self).page_allocator.claims@.push(
                segment.page_range(),
            ),
            r == Err::<PageRange, BootError>(BootError::OutOfMemory) ==> final(self).frame_supply.exhausted(),
            old(self).frame_supply.monotone_to(final(self).frame_supply),
            r == Err::<PageRange, BootError>(BootError::FirmwareError) ==> old(self).frame_supply.consumed_from(final(self).frame_supply),
            r == Err::<PageRange, BootError>(BootError::ConfigurationError) ==> (!segment.wf()
                || !crate::page_allocator::range_free(
                old(self).page_allocator.claims@,
                segment.start_page(),
                segment.page_range().count(),
            ) || segment.memsz - 1 > u64::MAX - phys_start || (exists|q: int|
                0 <= q < VPN_SPAN && (#[trigger] old(self).mapper.resolve(q)) is Some)),
            loader::map_segment_succeeds(
                old(self).page_allocator,
                old(self).mapper,
                old(self).frame_supply,
                *segment,
                phys_start,
            ) ==> r is Ok,
            segment.wf() ==> (old(self).frame_supply matches FrameSupply::Firmware(p0) ==> (final(self).frame_supply matches FrameSupply::Firmware(p1) && p1.frames().len() + 3
                * segment.page_range().count() >= p0.frames().len() && (
            crate::mapper::pool_fresh_for(old(self).mapper, p0.frames())
                ==> crate::mapper::pool_fresh_for(final(self).mapper, p1.frames())))),
    {
        loader::map_segment(
            &mut self.page_allocator,
            &mut self.mapper,
            &mut self.frame_supply,
            segment,
            phys_start,
        )
    }

    /// The one-way Boot-to-Runtime transition: consumes the boot context —
    /// after it no firmware capability survives — and carries the ledger and
    /// the page tables forward unchanged, now backed by the static-map
    /// allocator over the frozen snapshot the teardown call produced.
    pub fn exit_boot_services(self, snapshot: Vec<MemoryRegion>) -> (r: RuntimeContext)
        requires
            self.wf(),
            regions_wf(snapshot@),
        ensures
            r.wf(),
            r.page_allocator == self.page_allocator,
            r.mapper == self.mapper,
            r.frame_supply matches FrameSupply::Snapshot(a) && a.regions() == snapshot@
                && a.yielded() == Set::<int>::empty(),
    {
        RuntimeContext {
            page_allocator: self.page_allocator,
            mapper: self.mapper,
            frame_supply: FrameSupply::Snapshot(StaticMapFrameAllocator::new(snapshot)),
        }
    }
}

/// The loader after firmware teardown: same ledger and page tables, but
/// physical frames now come only from the frozen memory-map snapshot.
pub struct RuntimeContext {
    pub page_allocator: PageAllocator,
    pub mapper: Mapper,
    pub frame_supply: FrameSupply,
}

impl RuntimeContext {
    pub open spec fn wf(self) -> bool {
        self.page_allocator.wf() && self.mapper.wf() && self.frame_supply.wf()
            && self.frame_supply is Snapshot
    }

    /// The flags every stack page gets: data, never code.
    pub open spec fn stack_flags() -> PteFlags {
        PteFlags { present: true, writable: true, no_execute: true }
    }

    /// The physical frame of the root page table, for the final switch.
    pub fn page_table(&mut self) -> (r: Frame)
        requires
            old(self).wf(),
        ensures
            *final(self) == *old(self),
            r.number == old(self).mapper.tables@[0].frame,
            r.wf(),
    {
        self.mapper.frame()
    }

    /// Allocates and maps the kernel's first stack: a fresh virtual range of
    /// `stack_pages` pages plus one unmapped guard page below them, backed
    /// by frames from the snapshot, writable and no-execute. Returns the
    /// stack top, one byte past the highest mapped page.
    pub fn set_up_mappings(&mut self, stack_pages: u64) -> (r: Result<VirtualAddress, BootError>)
        requires
            old(self).wf(),
            1 <= stack_pages < 0x8_0000,
        ensures
            final(self).wf(),
            r is Ok ==> ({
                let claims2 = final(self).page_allocator.claims@;
                claims2.len() == old(self).page_allocator.claims@.len() + 1 && claims2.subrange(
                    0,
                    claims2.len() - 1,
                ) == old(self).page_allocator.claims@ && ({
                    let pr = claims2.last();
                    pr.wf() && pr.count() == stack_pages + 1 && r->Ok_0.value == (pr.end.number
                        + 1) * PAGE_SIZE && r->Ok_0.wf() && (forall|k: int|
                        1 <= k <= stack_pages ==> ((#[trigger] final(self).mapper.resolve(
                            loader::range_vpn(pr, k),
                        )) matches Some(m) && m.1 == RuntimeContext::stack_flags()))
                        && final(self).mapper.resolve(loader::range_vpn(pr, 0)) == old(self).mapper.resolve(loader::range_vpn(pr, 0))
                })
            }),
            r is Err ==> final(self).page_allocator.claims@ == old(self).page_allocator.claims@
                || final(self).page_allocator.claims@.len() == old(self).page_allocator.claims@.len() + 1,
            final(self).mapper.tables@[0].frame == old(self).mapper.tables@[0].frame,
            r == Err::<VirtualAddress, BootError>(BootError::OutOfMemory) ==> (final(self).frame_supply matches FrameSupply::Snapshot(a) && (!a.can_allocate(1)
                || !a.can_allocate(stack_pages as int))),
            old(self).frame_supply.monotone_to(final(self).frame_supply),
            r == Err::<VirtualAddress, BootError>(BootError::FirmwareError) ==> old(self).frame_supply.consumed_from(final(self).frame_supply),
            r == Err::<VirtualAddress, BootError>(BootError::ConfigurationError) ==> (exists|
                q: int,
            |
                0 <= q < VPN_SPAN && (#[trigger] old(self).mapper.resolve(q)) is Some),
            r == Err::<VirtualAddress, BootError>(BootError::VirtualSpaceExhausted) ==> (!(
            exists|p: int|
                crate::page_allocator::ALLOCATION_START_PAGE <= p && p + (stack_pages + 1)
                    <= PAGE_NUMBER_LIMIT && #[trigger] crate::page_allocator::range_free(
                    old(self).page_allocator.claims@,
                    p,
                    stack_pages + 1,
                )) || (final(self).page_allocator.claims@.len() == old(self).page_allocator.claims@.len() + 1 && final(self).page_allocator.claims@.last().end.number
                == PAGE_NUMBER_LIMIT - 1)),
    {
        let pr = match self.page_allocator.allocate_range(stack_pages + 1) {
            Ok(pr) => pr,
            Err(e) => {
                return Err(e);
            },
        };
        if pr.end.number >= PAGE_NUMBER_LIMIT - 1 {
            return Err(BootError::VirtualSpaceExhausted);
        }
        let fr = match &mut self.frame_supply {
            FrameSupply::Snapshot(alloc) => match alloc.allocate(stack_pages) {
                Ok(fr) => fr,
                Err(e) => {
                    return Err(e);
                },
            },
            FrameSupply::Firmware(_) => {
                proof {
                    assert(false);
                }
                return Err(BootError::FirmwareError);
            },
        };
        let flags = PteFlags::new().present(true).writable(true).no_execute(true);
        let ghost m0 = self.mapper;
        let ghost claims1 = self.page_allocator.claims@;
        let mut k: u64 = 1;
        while k <= stack_pages
            invariant
                self.mapper.wf(),
                self.frame_supply.wf(),
                self.frame_supply is Snapshot,
                m0 == old(self).mapper,
                old(self).frame_supply.monotone_to(self.frame_supply),
                forall|j: int|
                    k <= j <= stack_pages ==> #[trigger] self.mapper.resolve(
                        loader::range_vpn(pr, j),
                    ) == m0.resolve(loader::range_vpn(pr, j)),
                self.page_allocator.wf(),
                self.page_allocator.claims@ == claims1,
                claims1 == old(self).page_allocator.claims@.push(pr),
                self.mapper.tables@[0].frame == old(self).mapper.tables@[0].frame,
                pr.wf(),
                1 <= k <= stack_pages + 1,
                pr.count() == stack_pages + 1,
                fr.wf(),
                fr.count() == stack_pages,
                flags == RuntimeContext::stack_flags(),
                forall|j: int|
                    1 <= j < k ==> (#[trigger] self.mapper.resolve(loader::range_vpn(pr, j)))
                        == Some((fr.start.number + j - 1, flags)),
                forall|q: int|
                    0 <= q < VPN_SPAN && !loader::covers_vpn(pr, q) ==> self.mapper.resolve(q)
                        == m0.resolve(q),
                self.mapper.resolve(loader::range_vpn(pr, 0)) == m0.resolve(
                    loader::range_vpn(pr, 0),
                ),
            decreases stack_pages + 1 - k,
        {
            let page = pr.nth(k);
            let frame = fr.nth(k - 1);
            proof {
                assert(page.vpn() == loader::range_vpn(pr, k as int));
            }
            let ghost s_before = self.frame_supply;
            let ghost m_before = self.mapper;
            let supply = &mut self.frame_supply;
            match self.mapper.map(page, frame, flags, supply) {
                Ok(()) => {},
                Err(e) => {
                    proof {
                        if e == BootError::FirmwareError {
                            crate::mapper::lemma_consumed_chain(
                                old(self).frame_supply,
                                s_before,
                                self.frame_supply,
                                self.frame_supply,
                            );
                        }
                        if e == BootError::ConfigurationError {
                            assert(m_before.resolve(page.vpn()) is Some);
                            assert(m_before.resolve(loader::range_vpn(pr, k as int))
                                == m0.resolve(loader::range_vpn(pr, k as int)));
                            assert(0 <= loader::range_vpn(pr, k as int) < VPN_SPAN);
                            assert((#[trigger] old(self).mapper.resolve(
                                loader::range_vpn(pr, k as int),
                            )) is Some);
                        }
                    }
                    return Err(e);
                },
            }
            proof {
                assert forall|j: int|
                    k + 1 <= j <= stack_pages implies #[trigger] self.mapper.resolve(
                    loader::range_vpn(pr, j),
                ) == m0.resolve(loader::range_vpn(pr, j)) by {
                    loader::lemma_range_vpns_distinct(pr, j, k as int);
                    assert(0 <= loader::range_vpn(pr, j) < VPN_SPAN);
                    assert(self.mapper.resolve(loader::range_vpn(pr, j)) == m_before.resolve(
                        loader::range_vpn(pr, j),
                    ));
                }
                assert forall|j: int|
                    1 <= j < k + 1 implies (#[trigger] self.mapper.resolve(
                    loader::range_vpn(pr, j),
                )) == Some((fr.start.number + j - 1, flags)) by {
                    if j < k {
                        loader::lemma_range_vpns_distinct(pr, j, k as int);
                        assert(0 <= loader::range_vpn(pr, j) < VPN_SPAN);
                    }
                }
                assert forall|q: int|
                    0 <= q < VPN_SPAN && !loader::covers_vpn(pr, q) implies self.mapper.resolve(
                    q,
                ) == m0.resolve(q) by {
                    assert(loader::covers_vpn(pr, loader::range_vpn(pr, k as int)));
                    assert(q != page.vpn());
                }
                assert(self.mapper.resolve(loader::range_vpn(pr, 0)) == m0.resolve(
                    loader::range_vpn(pr, 0),
                )) by {
                    loader::lemma_range_vpns_distinct(pr, 0, k as int);
                    assert(0 <= loader::range_vpn(pr, 0) < VPN_SPAN);
                }
            }
            k += 1;
        }
        let top_page: u64 = pr.end.number + 1;
        proof {
            assert(top_page * PAGE_SIZE <= u64::MAX && top_page * PAGE_SIZE >= UPPER_HALF_START)
                by (nonlinear_arith)
                requires
                    crate::page_allocator::ALLOCATION_START_PAGE < top_page
                        < PAGE_NUMBER_LIMIT,
            ;
        }
        Ok(VirtualAddress { value: top_page * PAGE_SIZE })
    }

    /// Identity-maps a run of physical frames — page number equal to frame
    /// number — with the given flags, claiming the window in the ledger
    /// first: the mappings the kernel needs to read physical memory (the
    /// handoff record, device windows) before it builds its own.
    pub fn identity_map(&mut self, range: FrameRange, flags: PteFlags) -> (r: Result<
        (),
        BootError,
    >)
        requires
            old(self).wf(),
            range.wf(),
            range.end.number < crate::addr::LOWER_HALF_END_PAGE,
        ensures
            final(self).wf(),
            r is Ok ==> ({
                let pr = (PageRange {
                    start: Page { number: range.start.number },
                    end: Page { number: range.end.number },
                });
                final(self).page_allocator.claims@ == old(self).page_allocator.claims@.push(pr)
                    && (forall|k: int|
                    0 <= k < pr.count() ==> final(self).mapper.resolve(
                        #[trigger] loader::range_vpn(pr, k),
                    ) == Some((range.start.number + k, flags)))
            }),
            r is Err ==> r->Err_0 == BootError::ConfigurationError || r->Err_0
                == BootError::OutOfMemory || r->Err_0 == BootError::FirmwareError,
            final(self).mapper.tables@[0].frame == old(self).mapper.tables@[0].frame,
            r is Err ==> final(self).page_allocator.claims@ == old(self).page_allocator.claims@
                || final(self).page_allocator.claims@ == old(self).page_allocator.claims@.push(
                (PageRange {
                    start: Page { number: range.start.number },
                    end: Page { number: range.end.number },
                }),
            ),
            r == Err::<(), BootError>(BootError::OutOfMemory) ==> final(self).frame_supply.exhausted(),
            old(self).frame_supply.monotone_to(final(self).frame_supply),
            r == Err::<(), BootError>(BootError::FirmwareError) ==> old(self).frame_supply.consumed_from(final(self).frame_supply),
            r == Err::<(), BootError>(BootError::ConfigurationError) ==> ((exists|q: int|
                0 <= q < VPN_SPAN && (#[trigger] old(self).mapper.resolve(q)) is Some) || !(
            crate::page_allocator::range_free(
                old(self).page_allocator.claims@,
                range.start.number as int,
                range.end.number - range.start.number + 1,
            ))),
    {
        let pr = PageRange::new(
            Page { number: range.start.number },
            Page { number: range.end.number },
        );
        match self.page_allocator.claim_range(pr) {
            Ok(()) => {},
            Err(e) => {
                return Err(e);
            },
        }
        let ghost m0 = self.mapper;
        let ghost claims1 = self.page_allocator.claims@;
        let count: u64 = range.end.number - range.start.number + 1;
        let mut k: u64 = 0;
        while k < count
            invariant
                self.mapper.wf(),
                self.frame_supply.wf(),
                self.frame_supply is Snapshot,
                self.page_allocator.wf(),
                self.page_allocator.claims@ == claims1,
                claims1 == old(self).page_allocator.claims@.push(pr),
                self.mapper.tables@[0].frame == old(self).mapper.tables@[0].frame,
                m0 == old(self).mapper,
                old(self).frame_supply.monotone_to(self.frame_supply),
                forall|j: int|
                    k <= j < count ==> #[trigger] self.mapper.resolve(loader::range_vpn(pr, j))
                        == m0.resolve(loader::range_vpn(pr, j)),
                pr.wf(),
                pr.start.number == range.start.number,
                pr.end.number == range.end.number,
                range.wf(),
                k <= count,
                count == pr.count(),
                forall|j: int|
                    0 <= j < k ==> self.mapper.resolve(#[trigger] loader::range_vpn(pr, j))
                        == Some((range.start.number + j, flags)),
            decreases count - k,
        {
            let page = pr.nth(k);
            let frame = range.nth(k);
            proof {
                assert(page.vpn() == loader::range_vpn(pr, k as int));
            }
            let ghost s_before = self.frame_supply;
            let ghost m_before = self.mapper;
            let supply = &mut self.frame_supply;
            match self.mapper.map(page, frame, flags, supply) {
                Ok(()) => {},
                Err(e) => {
                    proof {
                        if e == BootError::FirmwareError {
                            crate::mapper::lemma_consumed_chain(
                                old(self).frame_supply,
                                s_before,
                                self.frame_supply,
                                self.frame_supply,
                            );
                        }
                        if e == BootError::ConfigurationError {
                            assert(m_before.resolve(page.vpn()) is Some);
                            assert(0 <= loader::range_vpn(pr, k as int) < VPN_SPAN);
                            assert((#[trigger] old(self).mapper.resolve(
                                loader::range_vpn(pr, k as int),
                            )) is Some);
                        }
                    }
                    return Err(e);
                },
            }
            proof {
                assert forall|j: int|
                    k + 1 <= j < count implies #[trigger] self.mapper.resolve(
                    loader::range_vpn(pr, j),
                ) == m0.resolve(loader::range_vpn(pr, j)) by {
                    loader::lemma_range_vpns_distinct(pr, j, k as int);
                    assert(0 <= loader::range_vpn(pr, j) < VPN_SPAN);
                    assert(self.mapper.resolve(loader::range_vpn(pr, j)) == m_before.resolve(
                        loader::range_vpn(pr, j),
                    ));
                }
                assert forall|j: int|
                    0 <= j < k + 1 implies self.mapper.resolve(#[trigger] loader::range_vpn(pr, j))
                    == Some((range.start.number + j, flags)) by {
                    if j < k {
                        loader::lemma_range_vpns_distinct(pr, j, k as int);
                        assert(0 <= loader::range_vpn(pr, j) < VPN_SPAN);
                    }
                }
            }
            k += 1;
        }
        Ok(())
    }

    /// Assembles the handoff record inside values the kernel can read after
    /// the jump: the arguments as given, plus the final physical memory map
    /// held by the snapshot allocator.
    pub fn create_boot_info(
        &self,
        frame_buffer: Option<FrameBuffer>,
        rsdp_address: Option<u64>,
        modules: Vec<ModuleDescriptor>,
        elf_sections: Vec<ElfSection>,
    ) -> (r: BootInformation)
        requires
            self.wf(),
        ensures
            r.frame_buffer == frame_buffer,
            r.rsdp_address == rsdp_address,
            r.modules == modules,
            r.elf_sections == elf_sections,
            self.frame_supply matches FrameSupply::Snapshot(a) ==> r.memory_map@ == a.regions(),
    {
        let memory_map: Vec<MemoryRegion> = match &self.frame_supply {
            FrameSupply::Snapshot(alloc) => alloc.memory_map(),
            FrameSupply::Firmware(_) => {
                proof {
                    assert(false);
                }
                Vec::new()
            },
        };
        BootInformation { frame_buffer, rsdp_address, elf_sections, modules, memory_map }
    }
}

} // verus!
