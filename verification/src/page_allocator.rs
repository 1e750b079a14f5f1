use vstd::prelude::*;
use crate::addr::{Page, PageRange, PAGE_NUMBER_LIMIT, PAGE_SIZE, LOWER_HALF_END,
    LOWER_HALF_END_PAGE, UPPER_HALF_START_PAGE};
use crate::elf::ElfSegment;
use crate::BootError;

verus! {

/// The page number of the architecture-defined base above which the
/// allocator places fresh ranges (the top two gigabytes of the canonical
/// upper half, where the kernel image lives).
pub const ALLOCATION_START_PAGE: u64 = 0xF_FFFF_FFF8_0000;

/// No claimed range overlaps the run of `count` pages starting at `p`.
pub open spec fn range_free(claims: Seq<PageRange>, p: int, count: int) -> bool {
    forall|i: int|
        0 <= i < claims.len() ==> (#[trigger] claims[i]).end.number < p || p + count
            <= claims[i].start.number
}

/// The ledger of already-claimed virtual ranges: loaded segments, stacks and
/// handoff structures. Claims are permanent; nothing is ever released.
pub struct PageAllocator {
    pub claims: Vec<PageRange>,
}

impl PageAllocator {
    pub open spec fn claims(self) -> Seq<PageRange> {
        self.claims@
    }

    /// Every claim well formed, and no two claims overlap.
    pub open spec fn wf(self) -> bool {
        (forall|i: int| 0 <= i < self.claims@.len() ==> (#[trigger] self.claims@[i]).wf())
            && (forall|i: int, j: int|
            0 <= i < j < self.claims@.len() ==> (#[trigger] self.claims@[i]).disjoint(
                #[trigger] self.claims@[j],
            ))
    }

    pub fn new() -> (r: PageAllocator)
        ensures
            r.wf(),
            r.claims() == Seq::<PageRange>::empty(),
    {
        PageAllocator { claims: Vec::new() }
    }

    /// Some claim overlapping the run of `count` pages at `start`, if any.
    fn find_conflict(&self, start: u64, count: u64) -> (r: Option<PageRange>)
        requires
            self.wf(),
            1 <= count,
            start + count <= PAGE_NUMBER_LIMIT,
        ensures
            r is None ==> range_free(self.claims@, start as int, count as int),
            r is Some ==> (exists|i: int|
                0 <= i < self.claims@.len() && self.claims@[i] == r->0) && !(r->0.end.number
                < start || start + count <= r->0.start.number),
    {
        let mut i: usize = 0;
        while i < self.claims.len()
            invariant
                i <= self.claims@.len(),
                start + count <= PAGE_NUMBER_LIMIT,
                forall|j: int|
                    0 <= j < i ==> (#[trigger] self.claims@[j]).end.number < start || start + count
                        <= self.claims@[j].start.number,
            decreases self.claims@.len() - i,
        {
            let c = self.claims[i];
            if !(c.end.number < start || c.start.number >= start + count) {
                return Some(c);
            }
            i += 1;
        }
        None
    }

    /// Hands out the lowest free virtual range of `num_pages` pages at or
    /// above the reservation threshold, claiming it; fails with
    /// `VirtualSpaceExhausted` exactly when no such range exists below the
    /// canonical boundary.
    pub fn allocate_range(&mut self, num_pages: u64) -> (r: Result<PageRange, BootError>)
        requires
            old(self).wf(),
            1 <= num_pages,
        ensures
            final(self).wf(),
            r is Ok <==> exists|p: int|
                ALLOCATION_START_PAGE <= p && p + num_pages <= PAGE_NUMBER_LIMIT
                    && #[trigger] range_free(old(self).claims@, p, num_pages as int),
            r is Ok ==> ({
                let pr = r->Ok_0;
                pr.wf() && pr.count() == num_pages && pr.start.number >= ALLOCATION_START_PAGE
                    && range_free(old(self).claims@, pr.start.number as int, num_pages as int)
                    && final(self).claims@ == old(self).claims@.push(pr) && (forall|p: int|
                    ALLOCATION_START_PAGE <= p < pr.start.number ==> !range_free(
                        old(self).claims@,
                        p,
                        num_pages as int,
                    ))
            }),
            r is Err ==> r == Err::<PageRange, BootError>(BootError::VirtualSpaceExhausted)
                && final(self).claims@ == old(self).claims@,
    {
        if num_pages > PAGE_NUMBER_LIMIT - ALLOCATION_START_PAGE {
            return Err(BootError::VirtualSpaceExhausted);
        }
        let mut cand: u64 = ALLOCATION_START_PAGE;
        loop
            invariant
                old(self).wf(),
                *self == *old(self),
                1 <= num_pages,
                ALLOCATION_START_PAGE <= cand,
                cand + num_pages <= PAGE_NUMBER_LIMIT,
                forall|p: int|
                    ALLOCATION_START_PAGE <= p < cand ==> !range_free(
                        old(self).claims@,
                        p,
                        num_pages as int,
                    ),
            decreases PAGE_NUMBER_LIMIT - cand,
        {
            match self.find_conflict(cand, num_pages) {
                None => {
                    let pr = PageRange::new(
                        Page { number: cand },
                        Page { number: cand + num_pages - 1 },
                    );
                    self.claims.push(pr);
                    proof {
                        let pre = old(self).claims@;
                        assert forall|i: int, j: int|
                            0 <= i < j < self.claims@.len() implies (#[trigger] self.claims@[i]).disjoint(
                            #[trigger] self.claims@[j],
                        ) by {
                            if j == pre.len() {
                                assert(pre[i].end.number < cand || cand + num_pages
                                    <= pre[i].start.number);
                            }
                        }
                    }
                    return Ok(pr);
                },
                Some(c) => {
                    let e: u64 = c.end.number;
                    proof {
                        let i_c = choose|i: int|
                            0 <= i < old(self).claims@.len() && old(self).claims@[i] == c;
                        assert forall|p: int| cand <= p <= e implies !range_free(
                            old(self).claims@,
                            p,
                            num_pages as int,
                        ) by {
                            assert(!((#[trigger] old(self).claims@[i_c]).end.number < p || p
                                + num_pages <= old(self).claims@[i_c].start.number));
                        }
                        assert(old(self).claims@[i_c].wf());
                    }
                    if num_pages > PAGE_NUMBER_LIMIT - (e + 1) {
                        proof {
                            assert forall|p: int|
                                ALLOCATION_START_PAGE <= p && p + num_pages <= PAGE_NUMBER_LIMIT
                                    implies !range_free(
                                old(self).claims@,
                                p,
                                num_pages as int,
                            ) by {}
                        }
                        return Err(BootError::VirtualSpaceExhausted);
                    }
                    cand = e + 1;
                },
            }
        }
    }

    /// Claims an exact page range chosen by the loader itself (an identity
    /// window, a handoff structure), so that later allocator-chosen ranges
    /// can never collide with it; an overlap is a configuration error.
    pub fn claim_range(&mut self, range: PageRange) -> (r: Result<(), BootError>)
        requires
            old(self).wf(),
            range.wf(),
        ensures
            final(self).wf(),
            r is Ok <==> range_free(
                old(self).claims@,
                range.start.number as int,
                range.count(),
            ),
            r is Ok ==> final(self).claims@ == old(self).claims@.push(range),
            r is Err ==> r == Err::<(), BootError>(BootError::ConfigurationError)
                && final(self).claims@ == old(self).claims@,
    {
        let count: u64 = range.end.number - range.start.number + 1;
        match self.find_conflict(range.start.number, count) {
            None => {
                self.claims.push(range);
                proof {
                    let pre = old(self).claims@;
                    assert forall|i: int, j: int|
                        0 <= i < j < self.claims@.len() implies (#[trigger] self.claims@[i]).disjoint(
                        #[trigger] self.claims@[j],
                    ) by {
                        if j == pre.len() {
                            assert(pre[i].end.number < range.start.number || range.start.number
                                + count <= pre[i].start.number);
                        }
                    }
                }
                Ok(())
            },
            Some(c) => {
                proof {
                    let i_c = choose|i: int|
                        0 <= i < old(self).claims@.len() && old(self).claims@[i] == c;
                    assert(!((#[trigger] old(self).claims@[i_c]).end.number < range.start.number
                        || range.start.number + count <= old(self).claims@[i_c].start.number));
                }
                Err(BootError::ConfigurationError)
            },
        }
    }

    /// Claims the page range a loadable segment will occupy, so that later
    /// allocator-chosen ranges can never collide with loader-chosen ones;
    /// an overlap with an existing claim is a configuration error.
    pub fn mark_segment_as_used(&mut self, segment: &ElfSegment) -> (r: Result<
        PageRange,
        BootError,
    >)
        requires
            old(self).wf(),
        ensures
            final(self).wf(),
            r is Ok <==> segment.wf() && range_free(
                old(self).claims@,
                segment.start_page(),
                segment.end_page() - segment.start_page() + 1,
            ),
            r is Ok ==> r->Ok_0 == segment.page_range() && final(self).claims@
                == old(self).claims@.push(segment.page_range()),
            r is Err ==> r == Err::<PageRange, BootError>(BootError::ConfigurationError)
                && final(self).claims@ == old(self).claims@,
    {
        if !segment.is_well_formed() {
            return Err(BootError::ConfigurationError);
        }
        let sp: u64 = segment.vaddr / PAGE_SIZE;
        let last: u64 = segment.vaddr + (segment.memsz - 1);
        let ep: u64 = last / PAGE_SIZE;
        proof {
            vstd::arithmetic::div_mod::lemma_div_is_ordered(
                segment.vaddr as int,
                last as int,
                PAGE_SIZE as int,
            );
            if last < LOWER_HALF_END {
                vstd::arithmetic::div_mod::lemma_div_is_ordered(
                    last as int,
                    (LOWER_HALF_END - 1) as int,
                    PAGE_SIZE as int,
                );
                assert(ep < LOWER_HALF_END_PAGE);
            } else {
                vstd::arithmetic::div_mod::lemma_div_is_ordered(
                    crate::addr::UPPER_HALF_START as int,
                    segment.vaddr as int,
                    PAGE_SIZE as int,
                );
                vstd::arithmetic::div_mod::lemma_div_is_ordered(
                    last as int,
                    u64::MAX as int,
                    PAGE_SIZE as int,
                );
                assert(UPPER_HALF_START_PAGE <= sp && ep < PAGE_NUMBER_LIMIT);
            }
        }
        let count: u64 = ep - sp + 1;
        match self.find_conflict(sp, count) {
            None => {
                let pr = PageRange::new(Page { number: sp }, Page { number: ep });
                self.claims.push(pr);
                proof {
                    let pre = old(self).claims@;
                    assert forall|i: int, j: int|
                        0 <= i < j < self.claims@.len() implies (#[trigger] self.claims@[i]).disjoint(
                        #[trigger] self.claims@[j],
                    ) by {
                        if j == pre.len() {
                            assert(pre[i].end.number < sp || sp + count <= pre[i].start.number);
                        }
                    }
                }
                Ok(pr)
            },
            Some(c) => {
                proof {
                    let i_c = choose|i: int|
                        0 <= i < old(self).claims@.len() && old(self).claims@[i] == c;
                    assert(!((#[trigger] old(self).claims@[i_c]).end.number < sp || sp + count
                        <= old(self).claims@[i_c].start.number));
                }
                Err(BootError::ConfigurationError)
            },
        }
    }
}

/// Law: under the allocator's invariant, any two distinct claimed ranges are
/// disjoint — the union of claims stays pairwise disjoint after every call,
/// since every operation preserves the invariant.
pub proof fn lemma_claims_pairwise_disjoint(pa: PageAllocator, i: int, j: int)
    requires
        pa.wf(),
        0 <= i < pa.claims().len(),
        0 <= j < pa.claims().len(),
        i != j,
    ensures
        pa.claims()[i].disjoint(pa.claims()[j]),
{
    if i < j {
        assert(pa.claims@[i].disjoint(pa.claims@[j]));
    } else {
        assert(pa.claims@[j].disjoint(pa.claims@[i]));
    }
}

} // verus!
