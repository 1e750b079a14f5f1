use vstd::prelude::*;
use crate::addr::{Frame, FrameRange, PAGE_NUMBER_LIMIT};
use crate::BootError;

verus! {

/// Frames below 1 MiB are never handed out: that window is left for
/// firmware relics and the low identity-mapped trampoline.
pub const MIN_ALLOCATABLE_FRAME: u64 = 256;

/// What a memory-map descriptor says about a physical range.
#[derive(Clone, Copy, Debug, PartialEq, Eq, Structural)]
pub enum RegionKind {
    Usable,
    Reserved,
    LoaderOwned,
    Mmio,
}

/// One descriptor of the firmware's final memory-map snapshot: a contiguous
/// physical range and its kind.
#[derive(Clone, Copy, Debug, PartialEq, Eq, Structural)]
pub struct MemoryRegion {
    pub start_frame: u64,
    pub frame_count: u64,
    pub kind: RegionKind,
}

impl MemoryRegion {
    pub open spec fn wf(self) -> bool {
        self.start_frame + self.frame_count <= PAGE_NUMBER_LIMIT
    }

    pub fn new(start_frame: u64, frame_count: u64, kind: RegionKind) -> (r: MemoryRegion)
        requires
            start_frame + frame_count <= PAGE_NUMBER_LIMIT,
        ensures
            r == (MemoryRegion { start_frame, frame_count, kind }),
    {
        MemoryRegion { start_frame, frame_count, kind }
    }
}

/// No frame number appears twice in the run.
pub open spec fn frames_distinct(frames: Seq<u64>) -> bool {
    forall|i: int, j: int| 0 <= i < j < frames.len() ==> frames[i] != frames[j]
}

pub open spec fn regions_wf(regions: Seq<MemoryRegion>) -> bool {
    forall|i: int| 0 <= i < regions.len() ==> #[trigger] regions[i].wf()
}

/// A frame lies inside some usable descriptor of the snapshot.
pub open spec fn frame_usable(regions: Seq<MemoryRegion>, f: int) -> bool {
    exists|i: int|
        0 <= i < regions.len() && (#[trigger] regions[i]).kind is Usable
            && regions[i].start_frame <= f < regions[i].start_frame + regions[i].frame_count
}

/// Where an allocation out of `region` would have to begin, given that every
/// frame below `next` is already spoken for.
pub open spec fn region_candidate(region: MemoryRegion, next: int) -> int {
    if region.start_frame >= next {
        region.start_frame as int
    } else {
        next
    }
}

/// `region` still holds `count` contiguous frames at or above `next`.
pub open spec fn region_fits(region: MemoryRegion, next: int, count: int) -> bool {
    region.kind is Usable && region_candidate(region, next) + count <= region.start_frame
        + region.frame_count
}

/// The frame allocator used once firmware services are gone: it walks an
/// immutable memory-map snapshot with a cursor that only ever grows, so no
/// frame is handed out twice and nothing is ever freed.
pub struct StaticMapFrameAllocator {
    pub regions: Vec<MemoryRegion>,
    pub next_frame: u64,
    pub yielded: Ghost<Set<int>>,
}

impl StaticMapFrameAllocator {
    pub open spec fn regions(self) -> Seq<MemoryRegion> {
        self.regions@
    }

    /// The frames this allocator has handed out so far.
    pub open spec fn yielded(self) -> Set<int> {
        self.yielded@
    }

    pub open spec fn cursor(self) -> int {
        self.next_frame as int
    }

    pub open spec fn wf(self) -> bool {
        regions_wf(self.regions@) && MIN_ALLOCATABLE_FRAME <= self.next_frame
            && forall|f: int|
                self.yielded@.contains(f) ==> MIN_ALLOCATABLE_FRAME <= f < self.next_frame
                    && frame_usable(self.regions@, f)
    }

    /// There is still a run of `count` contiguous never-yielded frames in
    /// some usable region.
    pub open spec fn can_allocate(self, count: int) -> bool {
        exists|i: int|
            0 <= i < self.regions@.len() && region_fits(
                #[trigger] self.regions@[i],
                self.next_frame as int,
                count,
            )
    }

    /// A copy of the snapshot, descriptor for descriptor, for the handoff
    /// record.
    pub fn memory_map(&self) -> (r: Vec<MemoryRegion>)
        ensures
            r@ == self.regions(),
    {
        let mut out: Vec<MemoryRegion> = Vec::new();
        let mut i: usize = 0;
        while i < self.regions.len()
            invariant
                i <= self.regions@.len(),
                out@ == self.regions@.subrange(0, i as int),
            decreases self.regions@.len() - i,
        {
            out.push(self.regions[i]);
            i += 1;
        }
        proof {
            assert(out@ == self.regions@.subrange(0, self.regions@.len() as int));
            assert(self.regions@.subrange(0, self.regions@.len() as int) == self.regions@);
        }
        out
    }

    /// Wraps a memory-map snapshot. The snapshot is the sole source of truth:
    /// it is never changed afterwards.
    pub fn new(regions: Vec<MemoryRegion>) -> (r: StaticMapFrameAllocator)
        requires
            regions_wf(regions@),
        ensures
            r.wf(),
            r.regions() == regions@,
            r.yielded() == Set::<int>::empty(),
            r.cursor() == MIN_ALLOCATABLE_FRAME,
    {
        StaticMapFrameAllocator {
            regions,
            next_frame: MIN_ALLOCATABLE_FRAME,
            yielded: Ghost(Set::empty()),
        }
    }

    /// One successful allocation step: `fr` holds exactly `count` contiguous,
    /// usable, never-before-yielded frames, all at or above 1 MiB, and the
    /// ledger grows by exactly those frames.
    pub open spec fn allocated_into(
        pre: StaticMapFrameAllocator,
        post: StaticMapFrameAllocator,
        count: int,
        fr: FrameRange,
    ) -> bool {
        fr.wf() && fr.count() == count && fr.start.number >= MIN_ALLOCATABLE_FRAME && (forall|
            f: int,
        |
            fr.contains(f) ==> frame_usable(pre.regions(), f) && !pre.yielded().contains(f))
            && post.yielded() == pre.yielded().union(fr.to_set()) && post.regions()
            == pre.regions()
    }

    /// Hands out the next `count` contiguous free frames, scanning the
    /// snapshot's usable regions and never revisiting anything at or below
    /// the cursor; fails with `OutOfMemory` exactly when no usable region
    /// still holds such a run.
    pub fn allocate(&mut self, count: u64) -> (r: Result<FrameRange, BootError>)
        requires
            old(self).wf(),
            count >= 1,
        ensures
            final(self).wf(),
            final(self).regions() == old(self).regions(),
            r is Ok <==> old(self).can_allocate(count as int),
            r is Ok ==> StaticMapFrameAllocator::allocated_into(
                *old(self),
                *final(self),
                count as int,
                r->Ok_0,
            ),
            r is Err ==> r == Err::<FrameRange, BootError>(BootError::OutOfMemory) && *final(self)
                == *old(self),
    {
        let mut i: usize = 0;
        while i < self.regions.len()
            invariant
                0 <= i <= self.regions.len(),
                *self == *old(self),
                old(self).wf(),
                count >= 1,
                forall|j: int|
                    0 <= j < i ==> !region_fits(
                        self.regions@[j],
                        self.next_frame as int,
                        count as int,
                    ),
            decreases self.regions.len() - i,
        {
            let region = self.regions[i];
            if region.kind == RegionKind::Usable {
                let cand: u64 = if region.start_frame >= self.next_frame {
                    region.start_frame
                } else {
                    self.next_frame
                };
                proof {
                    assert(self.regions@[i as int].wf());
                }
                let end_excl: u64 = region.start_frame + region.frame_count;
                if cand < end_excl && count <= end_excl - cand {
                    let fr = FrameRange::new(
                        Frame { number: cand },
                        Frame { number: cand + count - 1 },
                    );
                    self.next_frame = cand + count;
                    self.yielded = Ghost(self.yielded@.union(fr.to_set()));
                    proof {
                        assert(region_fits(
                            self.regions@[i as int],
                            old(self).next_frame as int,
                            count as int,
                        ));
                        assert forall|f: int| fr.contains(f) implies frame_usable(
                            self.regions@,
                            f,
                        ) && !old(self).yielded@.contains(f) by {
                            assert(self.regions@[i as int].kind is Usable
                                && self.regions@[i as int].start_frame <= f < self.regions@[
                                i as int
                            ].start_frame + self.regions@[i as int].frame_count);
                        }
                    }
                    return Ok(fr);
                }
            }
            i += 1;
        }
        Err(BootError::OutOfMemory)
    }
}

/// Law: two allocations out of one static-map allocator, however many other
/// allocations come between them, never hand out overlapping frames, and no
/// frame handed out lies outside the snapshot's usable regions.
pub proof fn lemma_yields_never_overlap(
    a0: StaticMapFrameAllocator,
    a1: StaticMapFrameAllocator,
    b0: StaticMapFrameAllocator,
    b1: StaticMapFrameAllocator,
    c1: int,
    c2: int,
    r1: FrameRange,
    r2: FrameRange,
)
    requires
        StaticMapFrameAllocator::allocated_into(a0, a1, c1, r1),
        a1.yielded().subset_of(b0.yielded()),
        StaticMapFrameAllocator::allocated_into(b0, b1, c2, r2),
    ensures
        r1.disjoint(r2),
        forall|f: int| r1.contains(f) ==> frame_usable(a0.regions(), f),
        forall|f: int| r2.contains(f) ==> frame_usable(b0.regions(), f),
{
    if !r1.disjoint(r2) {
        let f: int = if r1.start.number >= r2.start.number {
            r1.start.number as int
        } else {
            r2.start.number as int
        };
        assert(r1.contains(f) && r2.contains(f));
        assert(a1.yielded().contains(f)) by {
            assert(r1.to_set().contains(f));
        }
        assert(!b0.yielded().contains(f));
        assert(false);
    }
}

/// The frames the firmware has granted to the loader while boot services are
/// still up, waiting to back page-table nodes; a last-in-first-out pool.
pub struct FramePool {
    pub frames: Vec<u64>,
}

impl FramePool {
    pub open spec fn frames(self) -> Seq<u64> {
        self.frames@
    }

    pub open spec fn wf(self) -> bool {
        forall|i: int| 0 <= i < self.frames@.len() ==> #[trigger] self.frames@[i]
            < PAGE_NUMBER_LIMIT
    }

    pub fn new() -> (r: FramePool)
        ensures
            r.wf(),
            r.frames() == Seq::<u64>::empty(),
    {
        FramePool { frames: Vec::new() }
    }

    /// Records one firmware-granted frame as available for table allocation.
    pub fn grant(&mut self, frame: Frame)
        requires
            old(self).wf(),
            frame.wf(),
        ensures
            final(self).wf(),
            final(self).frames() == old(self).frames().push(frame.number),
    {
        self.frames.push(frame.number);
    }

    pub fn available(&self) -> (r: usize)
        ensures
            r == self.frames().len(),
    {
        self.frames.len()
    }

    pub fn take(&mut self) -> (r: Option<Frame>)
        requires
            old(self).wf(),
        ensures
            final(self).wf(),
            r is Some <==> old(self).frames().len() > 0,
            r is Some ==> r->0.wf() && r->0.number == old(self).frames().last()
                && final(self).frames() == old(self).frames().drop_last(),
            r is None ==> final(self).frames() == old(self).frames(),
    {
        match self.frames.pop() {
            Some(f) => Some(Frame { number: f }),
            None => None,
        }
    }
}

/// The frame source a mapper draws table frames from: firmware-granted
/// frames before teardown, the static-map allocator after it.
pub enum FrameSupply {
    Firmware(FramePool),
    Snapshot(StaticMapFrameAllocator),
}

impl FrameSupply {
    pub open spec fn wf(self) -> bool {
        match self {
            FrameSupply::Firmware(pool) => pool.wf(),
            FrameSupply::Snapshot(alloc) => alloc.wf(),
        }
    }

    /// Nothing more can be handed out: the granted pool is empty, or no
    /// usable run of even one frame is left past the snapshot's cursor.
    pub open spec fn exhausted(self) -> bool {
        match self {
            FrameSupply::Firmware(pool) => pool.frames().len() == 0,
            FrameSupply::Snapshot(alloc) => !alloc.can_allocate(1),
        }
    }

    /// A frame really left the supply on the way to `post`: the pool
    /// shrank, or the snapshot's ledger gained a frame.
    pub open spec fn consumed_from(self, post: FrameSupply) -> bool {
        match (self, post) {
            (FrameSupply::Firmware(p0), FrameSupply::Firmware(p1)) => p1.frames().len()
                < p0.frames().len(),
            (FrameSupply::Snapshot(a0), FrameSupply::Snapshot(a1)) => exists|f: int|
                a1.yielded().contains(f) && !a0.yielded().contains(f),
            _ => false,
        }
    }

    /// The step from this supply to `post` never returns anything: the pool
    /// can only shrink, the snapshot ledger only grow.
    pub open spec fn monotone_to(self, post: FrameSupply) -> bool {
        match (self, post) {
            (FrameSupply::Firmware(p0), FrameSupply::Firmware(p1)) => p1.frames().len()
                <= p0.frames().len(),
            (FrameSupply::Snapshot(a0), FrameSupply::Snapshot(a1)) => a0.yielded().subset_of(
                a1.yielded(),
            ),
            _ => false,
        }
    }

    /// Hands out one frame to back a page-table node: the most recently
    /// granted frame of the pool, or the next single frame of the snapshot.
    /// Succeeds exactly when the supply is not exhausted.
    pub fn allocate_table_frame(&mut self) -> (r: Result<Frame, BootError>)
        requires
            old(self).wf(),
        ensures
            final(self).wf(),
            (*old(self)) is Firmware <==> (*final(self)) is Firmware,
            r is Ok <==> !old(self).exhausted(),
            r is Ok ==> r->Ok_0.wf() && old(self).consumed_from(*final(self)),
            old(self).monotone_to(*final(self)),
            r is Err ==> r->Err_0 == BootError::OutOfMemory && final(self).exhausted(),
            (*old(self)) matches FrameSupply::Firmware(p0) ==> ((*final(self))
                matches FrameSupply::Firmware(p1) && (r is Ok ==> p1.frames()
                == p0.frames().drop_last() && r->Ok_0.number == p0.frames().last()) && (r is Err
                ==> p1.frames() == p0.frames())),
            (*old(self)) matches FrameSupply::Snapshot(a0) ==> ((*final(self))
                matches FrameSupply::Snapshot(a1) && (r is Ok
                ==> StaticMapFrameAllocator::allocated_into(
                a0,
                a1,
                1,
                (FrameRange { start: r->Ok_0, end: r->Ok_0 }),
            )) && (r is Err ==> a1 == a0)),
    {
        match self {
            FrameSupply::Firmware(pool) => match pool.take() {
                Some(f) => Ok(f),
                None => Err(BootError::OutOfMemory),
            },
            FrameSupply::Snapshot(alloc) => match alloc.allocate(1) {
                Ok(fr) => {
                    proof {
                        assert(fr.contains(fr.start.number as int));
                        assert(fr.to_set().contains(fr.start.number as int));
                        assert(alloc.yielded().contains(fr.start.number as int));
                    }
                    Ok(fr.start)
                },
                Err(e) => Err(e),
            },
        }
    }
}

} // verus!
