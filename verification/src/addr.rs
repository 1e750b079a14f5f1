use vstd::prelude::*;
use vstd::arithmetic::div_mod::{lemma_div_is_ordered, lemma_fundamental_div_mod};

verus! {

/// Size in bytes of one frame of physical memory and of one page of virtual
/// address space.
pub const PAGE_SIZE: u64 = 4096;

/// Exclusive upper bound on frame and page numbers; `n * PAGE_SIZE` fits in a
/// machine word exactly when `n` lies below this bound.
pub const PAGE_NUMBER_LIMIT: u64 = 0x10_0000_0000_0000;

/// Exclusive upper bound of the lower canonical half of the virtual address
/// space (addresses whose bit 47 is clear, with all higher bits clear).
pub const LOWER_HALF_END: u64 = 0x8000_0000_0000;

/// Lowest address of the upper canonical half of the virtual address space
/// (addresses whose bit 47 is set, with all higher bits set).
pub const UPPER_HALF_START: u64 = 0xFFFF_8000_0000_0000;

/// Page number of the first page of the upper canonical half.
pub const UPPER_HALF_START_PAGE: u64 = 0xF_FFF8_0000_0000;

/// Exclusive upper bound on page numbers of the lower canonical half.
pub const LOWER_HALF_END_PAGE: u64 = 0x8_0000_0000;

/// Number of distinct page-table indices a page number occupies: four
/// nine-bit levels, so `512^4`.
pub const VPN_SPAN: u64 = 0x10_0000_0000;

/// A virtual address is canonical when its unused high bits are a sign
/// extension of bit 47.
pub open spec fn addr_is_canonical(a: u64) -> bool {
    a < LOWER_HALF_END || a >= UPPER_HALF_START
}

/// The page numbers that contain some canonical virtual address.
pub open spec fn page_number_is_canonical(n: u64) -> bool {
    n < LOWER_HALF_END_PAGE || (UPPER_HALF_START_PAGE <= n && n < PAGE_NUMBER_LIMIT)
}

/// A location in physical memory.
#[derive(Clone, Copy, Debug, PartialEq, Eq, Structural)]
pub struct PhysicalAddress {
    pub value: u64,
}

impl PhysicalAddress {
    pub fn new(value: u64) -> (r: PhysicalAddress)
        ensures
            r.value == value,
    {
        PhysicalAddress { value }
    }

    /// Offset arithmetic that refuses to wrap past the representable range.
    pub fn checked_add(self, offset: u64) -> (r: Option<PhysicalAddress>)
        ensures
            r is Some <==> self.value + offset <= u64::MAX,
            r is Some ==> r->0.value == self.value + offset,
    {
        match self.value.checked_add(offset) {
            Some(v) => Some(PhysicalAddress { value: v }),
            None => None,
        }
    }
}

/// A location in the virtual address space; always canonical.
#[derive(Clone, Copy, Debug, PartialEq, Eq, Structural)]
pub struct VirtualAddress {
    pub value: u64,
}

impl VirtualAddress {
    pub open spec fn wf(self) -> bool {
        addr_is_canonical(self.value)
    }

    /// Normalizes an arbitrary machine word into a canonical virtual address
    /// by sign-extending bit 47; the low 48 bits are kept as given.
    pub fn new_canonical(value: u64) -> (r: VirtualAddress)
        ensures
            r.wf(),
            r.value % 0x1_0000_0000_0000 == value % 0x1_0000_0000_0000,
    {
        let low: u64 = value % 0x1_0000_0000_0000;
        if low >= LOWER_HALF_END {
            let r = VirtualAddress { value: low + 0xFFFF_0000_0000_0000 };
            proof {
                assert((low + 0xFFFF_0000_0000_0000) % 0x1_0000_0000_0000 == low % 0x1_0000_0000_0000
                    && low % 0x1_0000_0000_0000 == low
                    && value % 0x1_0000_0000_0000 % 0x1_0000_0000_0000 == value % 0x1_0000_0000_0000)
                    by (nonlinear_arith)
                    requires
                        low == value % 0x1_0000_0000_0000,
                        low < 0x1_0000_0000_0000,
                    ;
            }
            r
        } else {
            let r = VirtualAddress { value: low };
            proof {
                assert(value % 0x1_0000_0000_0000 % 0x1_0000_0000_0000 == value % 0x1_0000_0000_0000)
                    by (nonlinear_arith);
            }
            r
        }
    }

    /// Offset arithmetic that refuses both machine-word wrap-around and a
    /// result that would leave canonical form.
    pub fn checked_add(self, offset: u64) -> (r: Option<VirtualAddress>)
        ensures
            r is Some <==> self.value + offset <= u64::MAX
                && addr_is_canonical((self.value + offset) as u64),
            r is Some ==> r->0.wf() && r->0.value == self.value + offset,
    {
        match self.value.checked_add(offset) {
            Some(v) => {
                if v < LOWER_HALF_END || v >= UPPER_HALF_START {
                    Some(VirtualAddress { value: v })
                } else {
                    None
                }
            },
            None => None,
        }
    }
}

/// A page-sized, page-aligned granule of physical memory, identified by its
/// index from the start of the physical address space.
#[derive(Clone, Copy, Debug, PartialEq, Eq, Structural)]
pub struct Frame {
    pub number: u64,
}

impl Frame {
    pub open spec fn wf(self) -> bool {
        self.number < PAGE_NUMBER_LIMIT
    }

    /// The frame a physical address falls in; truncates to the granule.
    pub fn containing_address(addr: PhysicalAddress) -> (r: Frame)
        ensures
            r.number == addr.value as int / PAGE_SIZE as int,
            r.wf(),
    {
        let n: u64 = addr.value / PAGE_SIZE;
        proof {
            lemma_div_is_ordered(addr.value as int, u64::MAX as int, PAGE_SIZE as int);
        }
        Frame { number: n }
    }

    pub fn start_address(self) -> (r: PhysicalAddress)
        requires
            self.wf(),
        ensures
            r.value == self.number * PAGE_SIZE,
    {
        PhysicalAddress { value: self.number * PAGE_SIZE }
    }
}

/// A page-sized, page-aligned slot of the virtual address space, identified
/// by its index from address zero.
#[derive(Clone, Copy, Debug, PartialEq, Eq, Structural)]
pub struct Page {
    pub number: u64,
}

impl Page {
    pub open spec fn wf(self) -> bool {
        page_number_is_canonical(self.number)
    }

    /// The low 36 bits of the page number: the four nine-bit page-table
    /// indices that locate this page's leaf entry.
    pub open spec fn vpn(self) -> int {
        self.number as int % VPN_SPAN as int
    }

    pub fn vpn_value(self) -> (r: u64)
        ensures
            r == self.vpn(),
    {
        self.number % VPN_SPAN
    }

    /// The page a virtual address falls in; truncates to the granule.
    pub fn containing_address(addr: VirtualAddress) -> (r: Page)
        requires
            addr.wf(),
        ensures
            r.number == addr.value as int / PAGE_SIZE as int,
            r.wf(),
    {
        let n: u64 = addr.value / PAGE_SIZE;
        proof {
            if addr.value < LOWER_HALF_END {
                lemma_div_is_ordered(addr.value as int, (LOWER_HALF_END - 1) as int, PAGE_SIZE as int);
            } else {
                lemma_div_is_ordered(UPPER_HALF_START as int, addr.value as int, PAGE_SIZE as int);
                lemma_div_is_ordered(addr.value as int, u64::MAX as int, PAGE_SIZE as int);
            }
        }
        Page { number: n }
    }

    pub fn start_address(self) -> (r: VirtualAddress)
        requires
            self.wf(),
        ensures
            r.value == self.number * PAGE_SIZE,
            r.wf(),
    {
        proof {
            assert(page_number_is_canonical(self.number) ==> addr_is_canonical(
                (self.number * PAGE_SIZE) as u64,
            )) by (nonlinear_arith);
        }
        VirtualAddress { value: self.number * PAGE_SIZE }
    }
}

/// Two canonical pages with the same four-level index tuple are the same
/// page: the sign-extension bits carry no extra information.
pub proof fn lemma_vpn_injective(p: Page, q: Page)
    requires
        p.wf(),
        q.wf(),
        p.vpn() == q.vpn(),
    ensures
        p == q,
{
    lemma_fundamental_div_mod(p.number as int, VPN_SPAN as int);
    lemma_fundamental_div_mod(q.number as int, VPN_SPAN as int);
    assert(p.number < LOWER_HALF_END_PAGE ==> p.number as int / VPN_SPAN as int == 0)
        by (nonlinear_arith);
    assert(q.number < LOWER_HALF_END_PAGE ==> q.number as int / VPN_SPAN as int == 0)
        by (nonlinear_arith);
    assert(UPPER_HALF_START_PAGE <= p.number && p.number < PAGE_NUMBER_LIMIT
        ==> p.number as int / VPN_SPAN as int == 0xFFFF) by (nonlinear_arith);
    assert(UPPER_HALF_START_PAGE <= q.number && q.number < PAGE_NUMBER_LIMIT
        ==> q.number as int / VPN_SPAN as int == 0xFFFF) by (nonlinear_arith);
    assert(p.number < LOWER_HALF_END_PAGE ==> p.vpn() < LOWER_HALF_END_PAGE)
        by (nonlinear_arith);
    assert(UPPER_HALF_START_PAGE <= p.number && p.number < PAGE_NUMBER_LIMIT
        ==> p.vpn() >= LOWER_HALF_END_PAGE) by (nonlinear_arith);
    assert(q.number < LOWER_HALF_END_PAGE ==> q.vpn() < LOWER_HALF_END_PAGE)
        by (nonlinear_arith);
    assert(UPPER_HALF_START_PAGE <= q.number && q.number < PAGE_NUMBER_LIMIT
        ==> q.vpn() >= LOWER_HALF_END_PAGE) by (nonlinear_arith);
}

/// An inclusive, contiguous run of frames.
#[derive(Clone, Copy, Debug, PartialEq, Eq, Structural)]
pub struct FrameRange {
    pub start: Frame,
    pub end: Frame,
}

impl FrameRange {
    pub open spec fn wf(self) -> bool {
        self.start.number <= self.end.number && self.end.number < PAGE_NUMBER_LIMIT
    }

    pub open spec fn count(self) -> int {
        self.end.number - self.start.number + 1
    }

    pub open spec fn contains(self, n: int) -> bool {
        self.start.number <= n <= self.end.number
    }

    pub open spec fn to_set(self) -> Set<int> {
        Set::new(|n: int| self.contains(n))
    }

    pub open spec fn disjoint(self, other: FrameRange) -> bool {
        self.end.number < other.start.number || other.end.number < self.start.number
    }

    pub fn new(start: Frame, end: Frame) -> (r: FrameRange)
        requires
            start.number <= end.number,
            end.number < PAGE_NUMBER_LIMIT,
        ensures
            r.start == start,
            r.end == end,
            r.wf(),
    {
        FrameRange { start, end }
    }

    /// The `i`th member, counted from the start of the range.
    pub fn nth(self, i: u64) -> (r: Frame)
        requires
            self.wf(),
            i < self.count(),
        ensures
            r.number == self.start.number + i,
            r.wf(),
    {
        Frame { number: self.start.number + i }
    }
}

/// An inclusive, contiguous run of pages, wholly inside one canonical half.
#[derive(Clone, Copy, Debug, PartialEq, Eq, Structural)]
pub struct PageRange {
    pub start: Page,
    pub end: Page,
}

impl PageRange {
    pub open spec fn wf(self) -> bool {
        self.start.number <= self.end.number && self.start.wf() && self.end.wf()
            && (self.end.number < LOWER_HALF_END_PAGE || self.start.number
            >= UPPER_HALF_START_PAGE)
    }

    pub open spec fn count(self) -> int {
        self.end.number - self.start.number + 1
    }

    pub open spec fn contains(self, n: int) -> bool {
        self.start.number <= n <= self.end.number
    }

    pub open spec fn disjoint(self, other: PageRange) -> bool {
        self.end.number < other.start.number || other.end.number < self.start.number
    }

    /// Every member of a well-formed range is itself canonical.
    pub proof fn lemma_members_canonical(self, n: u64)
        requires
            self.wf(),
            self.contains(n as int),
        ensures
            page_number_is_canonical(n),
    {
    }

    pub fn new(start: Page, end: Page) -> (r: PageRange)
        requires
            start.number <= end.number,
            start.wf(),
            end.wf(),
            end.number < LOWER_HALF_END_PAGE || start.number >= UPPER_HALF_START_PAGE,
        ensures
            r.start == start,
            r.end == end,
            r.wf(),
    {
        PageRange { start, end }
    }

    /// The `i`th member, counted from the start of the range.
    pub fn nth(self, i: u64) -> (r: Page)
        requires
            self.wf(),
            i < self.count(),
        ensures
            r.number == self.start.number + i,
            r.wf(),
    {
        Page { number: self.start.number + i }
    }
}

} // verus!
