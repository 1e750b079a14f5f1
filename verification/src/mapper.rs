use vstd::prelude::*;
use crate::addr::{Frame, Page, PAGE_NUMBER_LIMIT, VPN_SPAN};
use crate::frame_allocator::FrameSupply;
use crate::BootError;

verus! {

/// Permission bits of one leaf page-table entry.
#[derive(Clone, Copy, Debug, PartialEq, Eq, Structural)]
pub struct PteFlags {
    pub present: bool,
    pub writable: bool,
    pub no_execute: bool,
}

impl PteFlags {
    pub fn new() -> (r: PteFlags)
        ensures
            r == (PteFlags { present: false, writable: false, no_execute: false }),
    {
        PteFlags { present: false, writable: false, no_execute: false }
    }

    pub fn present(self, v: bool) -> (r: PteFlags)
        ensures
            r == (PteFlags { present: v, ..self }),
    {
        PteFlags { present: v, ..self }
    }

    pub fn writable(self, v: bool) -> (r: PteFlags)
        ensures
            r == (PteFlags { writable: v, ..self }),
    {
        PteFlags { writable: v, ..self }
    }

    pub fn no_execute(self, v: bool) -> (r: PteFlags)
        ensures
            r == (PteFlags { no_execute: v, ..self }),
    {
        PteFlags { no_execute: v, ..self }
    }
}

/// One slot of a page table: empty, a pointer to the next-level table, or a
/// leaf mapping.
#[derive(Clone, Copy, Debug, PartialEq, Eq, Structural)]
pub enum PageTableEntry {
    Vacant,
    NextTable { frame: u64, node: usize },
    Leaf { frame: u64, flags: PteFlags },
}

/// One page table: the physical frame it lives in, its level (4 is the
/// root), and its 512 slots. Tables live in an arena indexed by `node`
/// numbers; the `frame` key is what the hardware will eventually see.
pub struct TableNode {
    pub frame: u64,
    pub level: u64,
    pub entries: Vec<PageTableEntry>,
}

/// The nine-bit table index a page number selects at a given level.
pub open spec fn index_for_level(vpn: int, level: int) -> int {
    if level == 1 {
        vpn % 512
    } else if level == 2 {
        (vpn / 512) % 512
    } else if level == 3 {
        (vpn / 0x40000) % 512
    } else {
        (vpn / 0x8000000) % 512
    }
}

pub open spec fn is_next_to(e: PageTableEntry, c: int) -> bool {
    match e {
        PageTableEntry::NextTable { node, .. } => node as int == c,
        _ => false,
    }
}

pub open spec fn next_node_of(e: PageTableEntry) -> int {
    match e {
        PageTableEntry::NextTable { node, .. } => node as int,
        _ => -1,
    }
}

/// What one slot may hold, given the level of the table it sits in: pointers
/// only above level 1, each to an existing node of the level below whose
/// frame key the pointer repeats; leaves only at level 1.
pub open spec fn entry_wf(tables: Seq<TableNode>, level: int, e: PageTableEntry) -> bool {
    match e {
        PageTableEntry::Vacant => true,
        PageTableEntry::NextTable { frame, node } => level > 1 && 0 <= node < tables.len()
            && tables[node as int].level == level - 1 && tables[node as int].frame == frame,
        PageTableEntry::Leaf { frame, .. } => level == 1 && frame < PAGE_NUMBER_LIMIT,
    }
}

pub open spec fn node_wf(tables: Seq<TableNode>, n: int) -> bool {
    tables[n].entries@.len() == 512 && 1 <= tables[n].level <= 4 && tables[n].frame
        < PAGE_NUMBER_LIMIT && forall|s: int|
        0 <= s < 512 ==> entry_wf(tables, tables[n].level as int, #[trigger] tables[n].entries@[s])
}

/// No table has two parents: pointer slots are injective, so the tables form
/// a tree and two pages reach a common leaf slot only along one path.
pub open spec fn parents_unique(tables: Seq<TableNode>) -> bool {
    forall|n1: int, s1: int, n2: int, s2: int|
        0 <= n1 < tables.len() && 0 <= s1 < tables[n1].entries@.len() && 0 <= n2 < tables.len()
            && 0 <= s2 < tables[n2].entries@.len() && (#[trigger] tables[n1].entries@[s1])
            is NextTable && (#[trigger] tables[n2].entries@[s2]) is NextTable && next_node_of(
            tables[n1].entries@[s1],
        ) == next_node_of(tables[n2].entries@[s2]) ==> n1 == n2 && s1 == s2
}

/// Distinct tables occupy distinct physical frames.
pub open spec fn frames_unique(tables: Seq<TableNode>) -> bool {
    forall|n1: int, n2: int|
        #![trigger tables[n1].frame, tables[n2].frame]
        0 <= n1 < n2 < tables.len() ==> tables[n1].frame != tables[n2].frame
}

pub open spec fn tables_wf(tables: Seq<TableNode>) -> bool {
    tables.len() >= 1 && tables[0].level == 4 && (forall|n: int|
        0 <= n < tables.len() ==> #[trigger] node_wf(tables, n)) && parents_unique(tables)
        && frames_unique(tables)
}

/// Consumption at one step survives monotone steps on either side.
pub proof fn lemma_consumed_chain(s0: FrameSupply, s1: FrameSupply, s2: FrameSupply, s3: FrameSupply)
    requires
        s0.monotone_to(s1),
        s1.consumed_from(s2),
        s2.monotone_to(s3),
    ensures
        s0.consumed_from(s3),
{
    if s1 is Snapshot {
        let f = choose|f: int|
            s2->Snapshot_0.yielded().contains(f) && !s1->Snapshot_0.yielded().contains(f);
        assert(s3->Snapshot_0.yielded().contains(f) && !s0->Snapshot_0.yielded().contains(f));
    }
}

/// Some table node already lives in this physical frame.
pub open spec fn arena_has_frame(m: Mapper, f: u64) -> bool {
    exists|n: int| 0 <= n < m.tables@.len() && (#[trigger] m.tables@[n]).frame == f
}

/// The pool's frames can back new table nodes without ever colliding: none
/// is already a table frame, and no two of them are the same.
pub open spec fn pool_fresh_for(m: Mapper, frames: Seq<u64>) -> bool {
    (forall|i: int| 0 <= i < frames.len() ==> !arena_has_frame(m, #[trigger] frames[i]))
        && crate::frame_allocator::frames_distinct(frames)
}

/// The translation the table tree encodes: walk from `n` at `level` by the
/// page number's per-level indices down to a leaf.
pub open spec fn resolve_at(tables: Seq<TableNode>, n: int, level: int, vpn: int) -> Option<
    (int, PteFlags),
>
    decreases level,
{
    if level < 1 || !(0 <= n < tables.len()) {
        None
    } else {
        let idx = index_for_level(vpn, level);
        if !(0 <= idx < tables[n].entries@.len()) {
            None
        } else {
            match tables[n].entries@[idx] {
                PageTableEntry::Vacant => None,
                PageTableEntry::NextTable { frame, node } => if level > 1 {
                    resolve_at(tables, node as int, level - 1, vpn)
                } else {
                    None
                },
                PageTableEntry::Leaf { frame, flags } => if level == 1 {
                    Some((frame as int, flags))
                } else {
                    None
                },
            }
        }
    }
}

/// The leaf slot (node, slot index) the walk for `vpn` ends at, whatever
/// that slot holds.
pub open spec fn leaf_of(tables: Seq<TableNode>, n: int, level: int, vpn: int) -> Option<
    (int, int),
>
    decreases level,
{
    if level < 1 || !(0 <= n < tables.len()) {
        None
    } else {
        let idx = index_for_level(vpn, level);
        if !(0 <= idx < tables[n].entries@.len()) {
            None
        } else if level == 1 {
            Some((n, idx))
        } else {
            match tables[n].entries@[idx] {
                PageTableEntry::NextTable { node, .. } => leaf_of(tables, node as int, level - 1, vpn),
                _ => None,
            }
        }
    }
}

/// Extending the tree — appending one all-vacant node and turning one vacant
/// slot into the pointer to it — changes no translation at all: every walk
/// that reaches the new pointer ends in the empty node.
proof fn lemma_extend_preserves_resolve(
    t1: Seq<TableNode>,
    t2: Seq<TableNode>,
    un: int,
    us: int,
    n: int,
    level: int,
    vpn: int,
)
    requires
        0 <= un < t1.len(),
        0 <= us < t1[un].entries@.len(),
        t1[un].entries@[us] is Vacant,
        t2.len() == t1.len() + 1,
        t2[t1.len() as int].entries@.len() == 512,
        forall|s: int| 0 <= s < 512 ==> (#[trigger] t2[t1.len() as int].entries@[s]) is Vacant,
        forall|m: int| 0 <= m < t1.len() && m != un ==> t2[m] == t1[m],
        t2[un].entries@ == t1[un].entries@.update(us, t2[un].entries@[us]),
        t2[un].entries@[us] is NextTable,
        next_node_of(t2[un].entries@[us]) == t1.len(),
        t2[un].level == t1[un].level,
        t2[un].frame == t1[un].frame,
        0 <= n < t1.len(),
    ensures
        resolve_at(t2, n, level, vpn) == resolve_at(t1, n, level, vpn),
    decreases level,
{
    if level >= 1 {
        let idx = index_for_level(vpn, level);
        assert(t2[n].entries@.len() == t1[n].entries@.len());
        if 0 <= idx < t1[n].entries@.len() {
            if n == un && idx == us {
                assert(resolve_at(t1, n, level, vpn) is None);
                if level > 1 {
                    let fresh = t1.len() as int;
                    assert(resolve_at(t2, n, level, vpn) == resolve_at(t2, fresh, level - 1, vpn));
                    if level - 1 >= 1 {
                        let idx2 = index_for_level(vpn, level - 1);
                        if 0 <= idx2 < 512 {
                            assert(t2[fresh].entries@[idx2] is Vacant);
                            assert(resolve_at(t2, fresh, level - 1, vpn) is None);
                        }
                    }
                } else {
                    assert(resolve_at(t2, n, level, vpn) is None);
                }
            } else {
                assert(t2[n].entries@[idx] == t1[n].entries@[idx]);
                match t1[n].entries@[idx] {
                    PageTableEntry::NextTable { frame, node } => {
                        if level > 1 {
                            let c = node as int;
                            if 0 <= c < t1.len() {
                                lemma_extend_preserves_resolve(t1, t2, un, us, c, level - 1, vpn);
                            } else if c == t1.len() {
                                assert(resolve_at(t1, c, level - 1, vpn) is None);
                                if level - 1 >= 1 {
                                    let idx2 = index_for_level(vpn, level - 1);
                                    if 0 <= idx2 < 512 {
                                        assert(t2[c].entries@[idx2] is Vacant);
                                    }
                                }
                                assert(resolve_at(t2, c, level - 1, vpn) is None);
                            } else {
                                assert(resolve_at(t1, c, level - 1, vpn) is None);
                                assert(resolve_at(t2, c, level - 1, vpn) is None);
                            }
                        }
                    },
                    _ => {},
                }
            }
        }
    }
}

/// Changing what one level-1 slot holds (vacant or leaf, to a leaf) leaves
/// every walk alone that does not end at exactly that slot.
proof fn lemma_update_leaf_preserves_others(
    t1: Seq<TableNode>,
    t2: Seq<TableNode>,
    un: int,
    us: int,
    n: int,
    level: int,
    vpn: int,
)
    requires
        t1.len() == t2.len(),
        0 <= un < t1.len(),
        0 <= us < t1[un].entries@.len(),
        t1[un].entries@[us] is Vacant || t1[un].entries@[us] is Leaf,
        t2[un].entries@[us] is Leaf,
        forall|m: int| 0 <= m < t1.len() && m != un ==> t2[m] == t1[m],
        t2[un].entries@ == t1[un].entries@.update(us, t2[un].entries@[us]),
        t2[un].level == t1[un].level,
        t2[un].frame == t1[un].frame,
        leaf_of(t1, n, level, vpn) != Some((un, us)),
    ensures
        resolve_at(t2, n, level, vpn) == resolve_at(t1, n, level, vpn),
        leaf_of(t2, n, level, vpn) == leaf_of(t1, n, level, vpn),
    decreases level,
{
    if level >= 1 && 0 <= n < t1.len() {
        let idx = index_for_level(vpn, level);
        assert(t2[n].entries@.len() == t1[n].entries@.len());
        if 0 <= idx < t1[n].entries@.len() {
            if level == 1 {
                assert(leaf_of(t1, n, level, vpn) == Some((n, idx)));
                assert((n, idx) != (un, us));
                if n == un {
                    assert(idx != us);
                    assert(t2[n].entries@[idx] == t1[n].entries@[idx]);
                } else {
                    assert(t2[n].entries@[idx] == t1[n].entries@[idx]);
                }
            } else {
                if n == un && idx == us {
                    assert(resolve_at(t1, n, level, vpn) is None);
                    assert(resolve_at(t2, n, level, vpn) is None);
                    assert(leaf_of(t1, n, level, vpn) is None);
                    assert(leaf_of(t2, n, level, vpn) is None);
                } else {
                    assert(t2[n].entries@[idx] == t1[n].entries@[idx]);
                    match t1[n].entries@[idx] {
                        PageTableEntry::NextTable { frame, node } => {
                            assert(leaf_of(t1, n, level, vpn) == leaf_of(
                                t1,
                                node as int,
                                level - 1,
                                vpn,
                            ));
                            lemma_update_leaf_preserves_others(
                                t1,
                                t2,
                                un,
                                us,
                                node as int,
                                level - 1,
                                vpn,
                            );
                        },
                        _ => {},
                    }
                }
            }
        }
    }
}

/// Two walks from same-level nodes that end at the same leaf slot started at
/// the same node and agreed on every table index on the way down.
proof fn lemma_leaf_of_injective(
    t: Seq<TableNode>,
    n1: int,
    n2: int,
    level: int,
    p: int,
    q: int,
)
    requires
        tables_wf(t),
        1 <= level <= 4,
        0 <= n1 < t.len(),
        0 <= n2 < t.len(),
        t[n1].level == level,
        t[n2].level == level,
        leaf_of(t, n1, level, p) == leaf_of(t, n2, level, q),
        leaf_of(t, n1, level, p) is Some,
    ensures
        n1 == n2,
        forall|l: int| 1 <= l <= level ==> index_for_level(p, l) == index_for_level(q, l),
    decreases level,
{
    assert(node_wf(t, n1));
    assert(node_wf(t, n2));
    let ip = index_for_level(p, level);
    let iq = index_for_level(q, level);
    if level == 1 {
        assert(leaf_of(t, n1, level, p) == Some((n1, ip)));
        assert(leaf_of(t, n2, level, q) == Some((n2, iq)));
    } else {
        let ep = t[n1].entries@[ip];
        let eq_ = t[n2].entries@[iq];
        assert(entry_wf(t, t[n1].level as int, ep));
        assert(entry_wf(t, t[n2].level as int, eq_));
        match ep {
            PageTableEntry::NextTable { frame: fp, node: cp } => {
                match eq_ {
                    PageTableEntry::NextTable { frame: fq, node: cq } => {
                        lemma_leaf_of_injective(t, cp as int, cq as int, level - 1, p, q);
                        assert(next_node_of(ep) == next_node_of(eq_));
                        assert(n1 == n2 && ip == iq);
                    },
                    _ => {
                        assert(leaf_of(t, n2, level, q) is None);
                    },
                }
            },
            _ => {
                assert(leaf_of(t, n1, level, p) is None);
            },
        }
    }
}

/// A page number below `VPN_SPAN` is determined by its four table indices.
proof fn lemma_indices_determine_vpn(p: int, q: int)
    requires
        0 <= p < VPN_SPAN,
        0 <= q < VPN_SPAN,
        forall|l: int| 1 <= l <= 4 ==> index_for_level(p, l) == index_for_level(q, l),
    ensures
        p == q,
{
    assert(index_for_level(p, 1) == index_for_level(q, 1));
    assert(index_for_level(p, 2) == index_for_level(q, 2));
    assert(index_for_level(p, 3) == index_for_level(q, 3));
    assert(index_for_level(p, 4) == index_for_level(q, 4));
    lemma_vpn_reconstruct(p);
    lemma_vpn_reconstruct(q);
}

/// Rebuilds a page number from its four nine-bit indices.
proof fn lemma_vpn_reconstruct(p: int)
    requires
        0 <= p < VPN_SPAN,
    ensures
        p == ((index_for_level(p, 4) * 512 + index_for_level(p, 3)) * 512 + index_for_level(p, 2))
            * 512 + index_for_level(p, 1),
{
    vstd::arithmetic::div_mod::lemma_fundamental_div_mod(p, 512);
    vstd::arithmetic::div_mod::lemma_fundamental_div_mod(p / 512, 512);
    vstd::arithmetic::div_mod::lemma_fundamental_div_mod(p / 0x40000, 512);
    assert((p / 512) / 512 == p / 0x40000) by {
        vstd::arithmetic::div_mod::lemma_div_denominator(p, 512, 512);
    }
    assert((p / 0x40000) / 512 == p / 0x8000000) by {
        vstd::arithmetic::div_mod::lemma_div_denominator(p, 0x40000, 512);
    }
    assert(p / 0x8000000 < 512) by {
        vstd::arithmetic::div_mod::lemma_div_is_ordered(p, VPN_SPAN - 1, 0x8000000);
    }
    assert(0 <= p / 0x8000000) by {
        vstd::arithmetic::div_mod::lemma_div_is_ordered(0, p, 0x8000000);
    }
    assert(index_for_level(p, 4) == p / 0x8000000) by {
        vstd::arithmetic::div_mod::lemma_small_mod((p / 0x8000000) as nat, 512);
    }
}

/// The page-table builder: owns the arena of table nodes, rooted at node 0,
/// and installs leaf mappings, growing intermediate tables out of a frame
/// supply as needed. It never unmaps; mappings only accumulate until the
/// one-time jump.
pub struct Mapper {
    pub tables: Vec<TableNode>,
}

fn make_empty_node(frame: u64, level: u64) -> (r: TableNode)
    requires
        frame < PAGE_NUMBER_LIMIT,
        1 <= level <= 4,
    ensures
        r.frame == frame,
        r.level == level,
        r.entries@.len() == 512,
        forall|s: int| 0 <= s < 512 ==> (#[trigger] r.entries@[s]) is Vacant,
{
    let mut entries: Vec<PageTableEntry> = Vec::new();
    let mut i: usize = 0;
    while i < 512
        invariant
            i <= 512,
            entries@.len() == i,
            forall|s: int| 0 <= s < i ==> (#[trigger] entries@[s]) is Vacant,
        decreases 512 - i,
    {
        entries.push(PageTableEntry::Vacant);
        i += 1;
    }
    TableNode { frame, level, entries }
}

fn vec_index_mut<T>(v: &mut Vec<T>, i: usize) -> (element: &mut T)
    requires
        i < old(v).len(),
    ensures
        *element == old(v)@[i as int],
        final(v)@ == old(v)@.update(i as int, *final(element)),
{
    &mut v[i]
}

/// Overwrites one slot of one node, leaving everything else in place.
fn set_entry(tables: &mut Vec<TableNode>, n: usize, s: usize, e: PageTableEntry)
    requires
        n < old(tables).len(),
        s < old(tables)@[n as int].entries@.len(),
    ensures
        final(tables)@.len() == old(tables)@.len(),
        forall|m: int| 0 <= m < old(tables)@.len() && m != n ==> final(tables)@[m] == old(
            tables,
        )@[m],
        final(tables)@[n as int].level == old(tables)@[n as int].level,
        final(tables)@[n as int].frame == old(tables)@[n as int].frame,
        final(tables)@[n as int].entries@ == old(tables)@[n as int].entries@.update(s as int, e),
{
    let node = vec_index_mut(tables, n);
    let slot = vec_index_mut(&mut node.entries, s);
    *slot = e;
}

fn index_at(vpn: u64, level: u64) -> (r: usize)
    requires
        1 <= level <= 4,
    ensures
        r == index_for_level(vpn as int, level as int),
        r < 512,
{
    let shifted: u64 = if level == 1 {
        vpn
    } else if level == 2 {
        vpn / 512
    } else if level == 3 {
        vpn / 0x40000
    } else {
        vpn / 0x8000000
    };
    (shifted % 512) as usize
}

impl Mapper {
    pub open spec fn wf(self) -> bool {
        tables_wf(self.tables@)
    }

    /// The translation this mapper's tree encodes for a page number's low 36
    /// bits.
    pub open spec fn resolve(self, vpn: int) -> Option<(int, PteFlags)> {
        resolve_at(self.tables@, 0, 4, vpn)
    }

    /// Creates the root table, zero-filled so every entry starts not
    /// present; the root frame comes from the supply.
    pub fn new(supply: &mut FrameSupply) -> (r: Result<Mapper, BootError>)
        requires
            old(supply).wf(),
        ensures
            final(supply).wf(),
            (*old(supply)) is Firmware <==> (*final(supply)) is Firmware,
            r is Ok <==> !old(supply).exhausted(),
            r is Ok ==> r->Ok_0.wf() && (forall|q: int| (#[trigger] r->Ok_0.resolve(q)) is None),
            r is Err ==> r->Err_0 == BootError::OutOfMemory && final(supply).exhausted(),
            (*old(supply)) matches FrameSupply::Firmware(p0) ==> ((*final(supply))
                matches FrameSupply::Firmware(p1) && (r is Ok ==> p1.frames()
                == p0.frames().drop_last() && r->Ok_0.tables@.len() == 1
                && r->Ok_0.tables@[0].frame == p0.frames().last())),
    {
        let frame = match supply.allocate_table_frame() {
            Ok(f) => f,
            Err(e) => {
                return Err(e);
            },
        };
        let root = make_empty_node(frame.number, 4);
        let mut tables: Vec<TableNode> = Vec::new();
        tables.push(root);
        let m = Mapper { tables };
        proof {
            assert forall|n: int| 0 <= n < m.tables@.len() implies #[trigger] node_wf(
                m.tables@,
                n,
            ) by {
                assert forall|s: int| 0 <= s < 512 implies entry_wf(
                    m.tables@,
                    m.tables@[n].level as int,
                    #[trigger] m.tables@[n].entries@[s],
                ) by {
                    assert(m.tables@[n].entries@[s] is Vacant);
                }
            }
            assert forall|q: int| (#[trigger] m.resolve(q)) is None by {
                let idx = index_for_level(q, 4);
                if 0 <= idx < 512 {
                    assert(m.tables@[0].entries@[idx] is Vacant);
                }
            }
        }
        Ok(m)
    }

    /// The physical frame of the root table: what gets loaded into the
    /// hardware's page-table register at the jump.
    pub fn frame(&self) -> (r: Frame)
        requires
            self.wf(),
        ensures
            r.number == self.tables@[0].frame,
            r.wf(),
    {
        proof {
            assert(node_wf(self.tables@, 0));
        }
        Frame { number: self.tables[0].frame }
    }

    fn entry_at(&self, n: usize, s: usize) -> (r: PageTableEntry)
        requires
            n < self.tables@.len(),
            s < self.tables@[n as int].entries@.len(),
        ensures
            r == self.tables@[n as int].entries@[s as int],
    {
        self.tables[n].entries[s]
    }

    fn frame_in_use(&self, f: u64) -> (r: bool)
        ensures
            r == exists|m: int| 0 <= m < self.tables@.len() && (#[trigger] self.tables@[m].frame)
                == f,
    {
        let mut i: usize = 0;
        while i < self.tables.len()
            invariant
                i <= self.tables@.len(),
                forall|m: int| 0 <= m < i ==> (#[trigger] self.tables@[m].frame) != f,
            decreases self.tables@.len() - i,
        {
            if self.tables[i].frame == f {
                return true;
            }
            i += 1;
        }
        false
    }

    /// Walks one level down from node `n` (at `level`), creating and
    /// installing a fresh zeroed table out of `supply` if the slot is
    /// vacant. Translations are untouched either way.
    fn descend(&mut self, n: usize, level: u64, vpn: u64, supply: &mut FrameSupply) -> (r: Result<
        usize,
        BootError,
    >)
        requires
            old(self).wf(),
            old(supply).wf(),
            n < old(self).tables@.len(),
            2 <= level <= 4,
            old(self).tables@[n as int].level == level,
        ensures
            final(self).wf(),
            final(supply).wf(),
            (*old(supply)) is Firmware <==> (*final(supply)) is Firmware,
            r == Err::<usize, BootError>(BootError::OutOfMemory) ==> final(supply).exhausted(),
            old(supply).monotone_to(*final(supply)),
            r == Err::<usize, BootError>(BootError::FirmwareError) ==> old(supply).consumed_from(
                *final(supply),
            ),
            (*old(supply)) matches FrameSupply::Firmware(p0) ==> ((*final(supply))
                matches FrameSupply::Firmware(p1) && p1.frames().len() + 1 >= p0.frames().len()
                && (pool_fresh_for(*old(self), p0.frames()) ==> pool_fresh_for(
                *final(self),
                p1.frames(),
            ) && (p0.frames().len() >= 1 ==> r is Ok))),
            final(self).tables@.len() >= old(self).tables@.len(),
            forall|m: int|
                0 <= m < old(self).tables@.len() ==> (#[trigger] final(self).tables@[m]).level
                    == old(self).tables@[m].level && final(self).tables@[m].frame == old(self).tables@[m].frame && final(self).tables@[m].entries@.len() == old(self).tables@[m].entries@.len(),
            forall|m: int, s: int|
                0 <= m < old(self).tables@.len() && 0 <= s < old(self).tables@[m].entries@.len()
                    && !((#[trigger] old(self).tables@[m].entries@[s]) is Vacant) ==> final(self).tables@[m].entries@[s] == old(self).tables@[m].entries@[s],
            forall|q: int|
                resolve_at(final(self).tables@, 0, 4, q) == resolve_at(
                    old(self).tables@,
                    0,
                    4,
                    q,
                ),
            r is Ok ==> r->Ok_0 < final(self).tables@.len() && final(self).tables@[r->Ok_0 as int].level == level - 1 && is_next_to(
                final(self).tables@[n as int].entries@[index_for_level(vpn as int, level as int)],
                r->Ok_0 as int,
            ),
            r is Err ==> final(self).tables@ == old(self).tables@ && (r->Err_0
                == BootError::OutOfMemory || r->Err_0 == BootError::FirmwareError) && old(self).tables@[n as int].entries@[index_for_level(vpn as int, level as int)] is Vacant,
    {
        let idx = index_at(vpn, level);
        proof {
            assert(node_wf(self.tables@, n as int));
        }
        let entry = self.entry_at(n, idx);
        match entry {
            PageTableEntry::NextTable { frame: _, node } => {
                proof {
                    assert(entry_wf(self.tables@, level as int, entry));
                }
                Ok(node)
            },
            PageTableEntry::Leaf { .. } => {
                proof {
                    assert(entry_wf(self.tables@, level as int, entry));
                    assert(false);
                }
                Err(BootError::FirmwareError)
            },
            PageTableEntry::Vacant => {
                let frame = match supply.allocate_table_frame() {
                    Ok(f) => f,
                    Err(e) => {
                        return Err(e);
                    },
                };
                if self.frame_in_use(frame.number) {
                    proof {
                        let s0 = *old(supply);
                        if s0 is Firmware {
                            let p0 = s0->Firmware_0;
                            if pool_fresh_for(*old(self), p0.frames()) && p0.frames().len() >= 1 {
                                assert(frame.number == p0.frames().last());
                                assert(!arena_has_frame(
                                    *old(self),
                                    p0.frames()[p0.frames().len() - 1],
                                ));
                                assert(false);
                            }
                        }
                    }
                    return Err(BootError::FirmwareError);
                }
                let newi: usize = self.tables.len();
                let child = make_empty_node(frame.number, level - 1);
                self.tables.push(child);
                set_entry(
                    &mut self.tables,
                    n,
                    idx,
                    PageTableEntry::NextTable { frame: frame.number, node: newi },
                );
                proof {
                    let t1 = old(self).tables@;
                    let t2 = self.tables@;
                    assert(t2.len() == t1.len() + 1);
                    assert(t2[newi as int].entries@.len() == 512);
                    assert(forall|m: int| 0 <= m < t1.len() && m != n ==> t2[m] == t1[m]);
                    assert(t2[n as int].entries@ == t1[n as int].entries@.update(
                        idx as int,
                        t2[n as int].entries@[idx as int],
                    ));
                    // well-formedness of the grown tree
                    assert forall|m: int| 0 <= m < t2.len() implies #[trigger] node_wf(t2, m) by {
                        assert(node_wf(t1, 0));
                        if m < t1.len() {
                            assert(node_wf(t1, m));
                            assert forall|s: int| 0 <= s < 512 implies entry_wf(
                                t2,
                                t2[m].level as int,
                                #[trigger] t2[m].entries@[s],
                            ) by {
                                if m == n && s == idx {
                                } else {
                                    assert(t2[m].entries@[s] == t1[m].entries@[s]);
                                    assert(entry_wf(t1, t1[m].level as int, t1[m].entries@[s]));
                                }
                            }
                        } else {
                            assert(m == newi);
                            assert forall|s: int| 0 <= s < 512 implies entry_wf(
                                t2,
                                t2[m].level as int,
                                #[trigger] t2[m].entries@[s],
                            ) by {
                                assert(t2[m].entries@[s] is Vacant);
                            }
                        }
                    }
                    assert(parents_unique(t2)) by {
                        assert forall|m1: int, s1: int, m2: int, s2: int|
                            0 <= m1 < t2.len() && 0 <= s1 < t2[m1].entries@.len() && 0 <= m2
                                < t2.len() && 0 <= s2 < t2[m2].entries@.len() && (
                            #[trigger] t2[m1].entries@[s1]) is NextTable && (
                            #[trigger] t2[m2].entries@[s2]) is NextTable && next_node_of(
                                t2[m1].entries@[s1],
                            ) == next_node_of(t2[m2].entries@[s2]) implies m1 == m2 && s1
                            == s2 by {
                            if m1 == newi as int || m2 == newi as int {
                                // the fresh node is all vacant
                            } else {
                                let e1 = t2[m1].entries@[s1];
                                let e2 = t2[m2].entries@[s2];
                                if m1 == n && s1 == idx {
                                    if m2 == n && s2 == idx {
                                    } else {
                                        assert(e2 == t1[m2].entries@[s2]);
                                        assert(node_wf(t1, m2));
                                        assert(entry_wf(t1, t1[m2].level as int, e2));
                                        assert(next_node_of(e2) < t1.len());
                                        assert(false);
                                    }
                                } else {
                                    assert(e1 == t1[m1].entries@[s1]);
                                    if m2 == n && s2 == idx {
                                        assert(node_wf(t1, m1));
                                        assert(entry_wf(t1, t1[m1].level as int, e1));
                                        assert(next_node_of(e1) < t1.len());
                                        assert(false);
                                    } else {
                                        assert(e2 == t1[m2].entries@[s2]);
                                    }
                                }
                            }
                        }
                    }
                    assert(frames_unique(t2)) by {
                        assert forall|m1: int, m2: int|
                            0 <= m1 < m2 < t2.len() implies t2[m1].frame != t2[m2].frame by {
                            if m2 == newi as int {
                                assert(!(exists|m: int|
                                    0 <= m < t1.len() && (#[trigger] t1[m].frame)
                                        == frame.number));
                                assert(t2[m1].frame == t1[m1].frame);
                            }
                        }
                    }
                    // translations untouched
                    assert forall|q: int|
                        resolve_at(t2, 0, 4, q) == resolve_at(t1, 0, 4, q) by {
                        lemma_extend_preserves_resolve(t1, t2, n as int, idx as int, 0, 4, q);
                    }
                    // remaining pool frames stay collision-free
                    let s0 = *old(supply);
                    if s0 is Firmware {
                        let p0 = s0->Firmware_0;
                        let p1 = (*supply)->Firmware_0;
                        assert(p1.frames() == p0.frames().drop_last());
                        assert(frame.number == p0.frames().last());
                        if pool_fresh_for(*old(self), p0.frames()) {
                            assert forall|i: int|
                                0 <= i < p1.frames().len() implies !arena_has_frame(
                                *self,
                                #[trigger] p1.frames()[i],
                            ) by {
                                assert(p1.frames()[i] == p0.frames()[i]);
                                assert(!arena_has_frame(*old(self), p0.frames()[i]));
                                assert(p0.frames()[i] != p0.frames()[p0.frames().len() - 1]);
                                if arena_has_frame(*self, p1.frames()[i]) {
                                    let m = choose|m: int|
                                        0 <= m < self.tables@.len() && (
                                        #[trigger] self.tables@[m]).frame == p1.frames()[i];
                                    if m < t1.len() {
                                        assert(old(self).tables@[m].frame == p1.frames()[i]);
                                    } else {
                                        assert(self.tables@[m].frame == frame.number);
                                    }
                                    assert(false);
                                }
                            }
                        }
                    }
                }
                Ok(newi)
            },
        }
    }

    /// Installs the mapping `page -> frame` with `flags`, walking the four
    /// levels from the root and growing intermediate tables out of `supply`.
    /// Re-mapping a page that already has exactly this mapping succeeds and
    /// changes nothing; re-mapping it differently is refused. Whatever
    /// happens, no other page's translation moves.
    pub fn map(&mut self, page: Page, frame: Frame, flags: PteFlags, supply: &mut FrameSupply) -> (r:
        Result<(), BootError>)
        requires
            old(self).wf(),
            old(supply).wf(),
            page.wf(),
            frame.wf(),
        ensures
            final(self).wf(),
            final(supply).wf(),
            (*old(supply)) is Firmware <==> (*final(supply)) is Firmware,
            r is Ok ==> final(self).resolve(page.vpn()) == Some((frame.number as int, flags)),
            forall|q: int|
                0 <= q < VPN_SPAN && q != page.vpn() ==> final(self).resolve(q) == old(self).resolve(q),
            r is Err ==> forall|q: int|
                0 <= q < VPN_SPAN ==> final(self).resolve(q) == old(self).resolve(q),
            r == Err::<(), BootError>(BootError::ConfigurationError) <==> (old(self).resolve(
                page.vpn(),
            ) is Some && old(self).resolve(page.vpn()) != Some((frame.number as int, flags))),
            old(self).resolve(page.vpn()) == Some((frame.number as int, flags)) ==> r is Ok,
            r is Err ==> r->Err_0 == BootError::OutOfMemory || r->Err_0 == BootError::FirmwareError
                || r->Err_0 == BootError::ConfigurationError,
            final(self).tables@[0].frame == old(self).tables@[0].frame,
            r == Err::<(), BootError>(BootError::OutOfMemory) ==> final(supply).exhausted(),
            old(supply).monotone_to(*final(supply)),
            r == Err::<(), BootError>(BootError::FirmwareError) ==> old(supply).consumed_from(
                *final(supply),
            ),
            (*old(supply)) matches FrameSupply::Firmware(p0) ==> ((*final(supply))
                matches FrameSupply::Firmware(p1) && p1.frames().len() + 3 >= p0.frames().len()
                && (pool_fresh_for(*old(self), p0.frames()) ==> pool_fresh_for(
                *final(self),
                p1.frames(),
            ) && (p0.frames().len() >= 3 && !(old(self).resolve(page.vpn()) is Some && old(
                self,
            ).resolve(page.vpn()) != Some((frame.number as int, flags))) ==> r is Ok))),
    {
        let vpn = page.vpn_value();
        let ghost gv = page.vpn();
        let ghost t0 = self.tables@;
        let n3 = match self.descend(0, 4, vpn, supply) {
            Ok(c) => c,
            Err(e) => {
                proof {
                    assert(node_wf(t0, 0));
                    assert(resolve_at(t0, 0, 4, gv) is None);
                    let s0 = *old(supply);
                    if s0 is Firmware {
                        let p0 = s0->Firmware_0;
                        if pool_fresh_for(*old(self), p0.frames()) && p0.frames().len() >= 3 {
                            assert(false);
                        }
                    }
                }
                return Err(e);
            },
        };
        let ghost t1 = self.tables@;
        let n2 = match self.descend(n3, 3, vpn, supply) {
            Ok(c) => c,
            Err(e) => {
                proof {
                    assert(node_wf(t1, 0));
                    assert(node_wf(t1, n3 as int));
                    assert(is_next_to(t1[0].entries@[index_for_level(gv, 4)], n3 as int));
                    assert(resolve_at(t1, 0, 4, gv) == resolve_at(t1, n3 as int, 3, gv));
                    assert(t1[n3 as int].entries@[index_for_level(gv, 3)] is Vacant);
                    assert(resolve_at(t1, n3 as int, 3, gv) is None);
                    assert(resolve_at(t1, 0, 4, gv) == resolve_at(t0, 0, 4, gv));
                    let s0 = *old(supply);
                    if s0 is Firmware {
                        let p0 = s0->Firmware_0;
                        if pool_fresh_for(*old(self), p0.frames()) && p0.frames().len() >= 3 {
                            assert(false);
                        }
                    }
                }
                return Err(e);
            },
        };
        let ghost t2 = self.tables@;
        let n1 = match self.descend(n2, 2, vpn, supply) {
            Ok(c) => c,
            Err(e) => {
                proof {
                    assert(node_wf(t2, 0));
                    assert(node_wf(t2, n3 as int));
                    assert(node_wf(t2, n2 as int));
                    assert(node_wf(t1, 0));
                    assert(is_next_to(t1[0].entries@[index_for_level(gv, 4)], n3 as int));
                    assert(t1[0].entries@[index_for_level(gv, 4)] is NextTable);
                    assert(t2[0].entries@[index_for_level(gv, 4)] == t1[0].entries@[
                        index_for_level(gv, 4)]);
                    assert(is_next_to(t2[0].entries@[index_for_level(gv, 4)], n3 as int));
                    assert(is_next_to(t2[n3 as int].entries@[index_for_level(gv, 3)], n2 as int));
                    assert(resolve_at(t2, 0, 4, gv) == resolve_at(t2, n3 as int, 3, gv));
                    assert(resolve_at(t2, n3 as int, 3, gv) == resolve_at(t2, n2 as int, 2, gv));
                    assert(t2[n2 as int].entries@[index_for_level(gv, 2)] is Vacant);
                    assert(resolve_at(t2, n2 as int, 2, gv) is None);
                    assert forall|q: int| resolve_at(t2, 0, 4, q) == resolve_at(
                        t0,
                        0,
                        4,
                        q,
                    ) by {
                        assert(resolve_at(t1, 0, 4, q) == resolve_at(t0, 0, 4, q));
                        assert(resolve_at(t2, 0, 4, q) == resolve_at(t1, 0, 4, q));
                    }
                    let s0 = *old(supply);
                    if s0 is Firmware {
                        let p0 = s0->Firmware_0;
                        if pool_fresh_for(*old(self), p0.frames()) && p0.frames().len() >= 3 {
                            assert(false);
                        }
                    }
                }
                return Err(e);
            },
        };
        let ghost t3 = self.tables@;
        let idx1 = index_at(vpn, 1);
        proof {
            let i4 = index_for_level(gv, 4);
            let i3 = index_for_level(gv, 3);
            let i2 = index_for_level(gv, 2);
            let i1 = index_for_level(gv, 1);
            assert(node_wf(t1, 0));
            assert(node_wf(t2, 0));
            assert(node_wf(t2, n3 as int));
            assert(node_wf(t3, 0));
            assert(node_wf(t3, n3 as int));
            assert(node_wf(t3, n2 as int));
            assert(node_wf(t3, n1 as int));
            // the three pointers installed by the descends survive to the
            // present tree
            assert(is_next_to(t1[0].entries@[i4], n3 as int));
            assert(t1[0].entries@[i4] is NextTable);
            assert(t2[0].entries@[i4] == t1[0].entries@[i4]);
            assert(t3[0].entries@[i4] == t2[0].entries@[i4]);
            assert(is_next_to(t3[0].entries@[i4], n3 as int));
            assert(is_next_to(t2[n3 as int].entries@[i3], n2 as int));
            assert(t2[n3 as int].entries@[i3] is NextTable);
            assert(t3[n3 as int].entries@[i3] == t2[n3 as int].entries@[i3]);
            assert(is_next_to(t3[n3 as int].entries@[i3], n2 as int));
            assert(is_next_to(t3[n2 as int].entries@[i2], n1 as int));
            // walk unfolding at the present tree
            assert(resolve_at(t3, 0, 4, gv) == resolve_at(t3, n3 as int, 3, gv));
            assert(resolve_at(t3, n3 as int, 3, gv) == resolve_at(t3, n2 as int, 2, gv));
            assert(resolve_at(t3, n2 as int, 2, gv) == resolve_at(t3, n1 as int, 1, gv));
            assert(leaf_of(t3, 0, 4, gv) == leaf_of(t3, n3 as int, 3, gv));
            assert(leaf_of(t3, n3 as int, 3, gv) == leaf_of(t3, n2 as int, 2, gv));
            assert(leaf_of(t3, n2 as int, 2, gv) == leaf_of(t3, n1 as int, 1, gv));
            assert(leaf_of(t3, n1 as int, 1, gv) == Some((n1 as int, i1)));
            assert(t3[0].level == 4 && t3[n3 as int].level == 3 && t3[n2 as int].level == 2
                && t3[n1 as int].level == 1);
            assert(t1[0].frame == t0[0].frame && t2[0].frame == t1[0].frame && t3[0].frame
                == t2[0].frame);
            assert(n1 as int != 0 && n1 != n3 && n1 != n2);
            // no translation moved during the descends
            assert forall|q: int| resolve_at(t3, 0, 4, q) == resolve_at(t0, 0, 4, q) by {
                assert(resolve_at(t1, 0, 4, q) == resolve_at(t0, 0, 4, q));
                assert(resolve_at(t2, 0, 4, q) == resolve_at(t1, 0, 4, q));
                assert(resolve_at(t3, 0, 4, q) == resolve_at(t2, 0, 4, q));
            }
        }
        let entry = self.entry_at(n1, idx1);
        match entry {
            PageTableEntry::Vacant => {
                set_entry(
                    &mut self.tables,
                    n1,
                    idx1,
                    PageTableEntry::Leaf { frame: frame.number, flags },
                );
                proof {
                    let t4 = self.tables@;
                    let i4 = index_for_level(gv, 4);
                    let i3 = index_for_level(gv, 3);
                    let i2 = index_for_level(gv, 2);
                    assert(resolve_at(t3, n1 as int, 1, gv) is None);
                    // well-formedness after the leaf install
                    assert forall|m: int| 0 <= m < t4.len() implies #[trigger] node_wf(t4, m) by {
                        assert(node_wf(t3, m));
                        assert forall|s: int| 0 <= s < 512 implies entry_wf(
                            t4,
                            t4[m].level as int,
                            #[trigger] t4[m].entries@[s],
                        ) by {
                            if m == n1 as int && s == idx1 as int {
                                assert(t3[n1 as int].level == 1);
                            } else {
                                assert(t4[m].entries@[s] == t3[m].entries@[s]);
                                assert(entry_wf(t3, t3[m].level as int, t3[m].entries@[s]));
                            }
                        }
                    }
                    assert(parents_unique(t4)) by {
                        assert forall|m1: int, s1: int, m2: int, s2: int|
                            0 <= m1 < t4.len() && 0 <= s1 < t4[m1].entries@.len() && 0 <= m2
                                < t4.len() && 0 <= s2 < t4[m2].entries@.len() && (
                            #[trigger] t4[m1].entries@[s1]) is NextTable && (
                            #[trigger] t4[m2].entries@[s2]) is NextTable && next_node_of(
                                t4[m1].entries@[s1],
                            ) == next_node_of(t4[m2].entries@[s2]) implies m1 == m2 && s1
                            == s2 by {
                            assert(t4[m1].entries@[s1] == t3[m1].entries@[s1]);
                            assert(t4[m2].entries@[s2] == t3[m2].entries@[s2]);
                        }
                    }
                    assert(frames_unique(t4));
                    assert(tables_wf(t4));
                    // the new translation
                    assert(t4[n1 as int].entries@[idx1 as int] == (PageTableEntry::Leaf {
                        frame: frame.number,
                        flags,
                    }));
                    assert(resolve_at(t4, n1 as int, 1, gv) == Some(
                        (frame.number as int, flags),
                    ));
                    assert(t4[0].entries@[i4] == t3[0].entries@[i4]);
                    assert(t4[n3 as int].entries@[i3] == t3[n3 as int].entries@[i3]);
                    assert(t4[n2 as int].entries@[i2] == t3[n2 as int].entries@[i2]);
                    assert(is_next_to(t4[0].entries@[i4], n3 as int));
                    assert(is_next_to(t4[n3 as int].entries@[i3], n2 as int));
                    assert(is_next_to(t4[n2 as int].entries@[i2], n1 as int));
                    assert(resolve_at(t4, 0, 4, gv) == resolve_at(t4, n3 as int, 3, gv));
                    assert(resolve_at(t4, n3 as int, 3, gv) == resolve_at(t4, n2 as int, 2, gv));
                    assert(resolve_at(t4, n2 as int, 2, gv) == resolve_at(t4, n1 as int, 1, gv));
                    // all other pages are untouched
                    assert forall|q: int|
                        0 <= q < VPN_SPAN && q != gv implies resolve_at(t4, 0, 4, q)
                        == resolve_at(t0, 0, 4, q) by {
                        if leaf_of(t3, 0, 4, q) == Some((n1 as int, idx1 as int)) {
                            lemma_leaf_of_injective(t3, 0, 0, 4, gv, q);
                            lemma_indices_determine_vpn(gv, q);
                            assert(false);
                        }
                        lemma_update_leaf_preserves_others(
                            t3,
                            t4,
                            n1 as int,
                            idx1 as int,
                            0,
                            4,
                            q,
                        );
                        assert(resolve_at(t3, 0, 4, q) == resolve_at(t0, 0, 4, q));
                    }
                }
                Ok(())
            },
            PageTableEntry::Leaf { frame: f2, flags: fl2 } => {
                proof {
                    assert(resolve_at(t3, n1 as int, 1, gv) == Some((f2 as int, fl2)));
                    assert(resolve_at(t0, 0, 4, gv) == Some((f2 as int, fl2)));
                }
                if f2 == frame.number && fl2 == flags {
                    Ok(())
                } else {
                    Err(BootError::ConfigurationError)
                }
            },
            PageTableEntry::NextTable { .. } => {
                proof {
                    assert(entry_wf(t3, t3[n1 as int].level as int, t3[n1 as int].entries@[
                        idx1 as int]));
                    assert(false);
                }
                Err(BootError::FirmwareError)
            },
        }
    }

    /// The mapping currently installed for `page`, if any: walks the tree as
    /// the hardware would.
    pub fn translate(&self, page: Page) -> (r: Option<(Frame, PteFlags)>)
        requires
            self.wf(),
            page.wf(),
        ensures
            r is None ==> self.resolve(page.vpn()) is None,
            r is Some ==> ({
                let (fr, fl) = r->0;
                self.resolve(page.vpn()) == Some((fr.number as int, fl)) && fr.wf()
            }),
    {
        let vpn = page.vpn_value();
        let ghost gv = page.vpn();
        let ghost t = self.tables@;
        proof {
            assert(node_wf(t, 0));
        }
        let idx4 = index_at(vpn, 4);
        let e4 = self.entry_at(0, idx4);
        let n3: usize = match e4 {
            PageTableEntry::NextTable { frame: _, node } => {
                proof {
                    assert(entry_wf(t, 4, e4));
                    assert(resolve_at(t, 0, 4, gv) == resolve_at(t, node as int, 3, gv));
                    assert(node_wf(t, node as int));
                }
                node
            },
            _ => {
                proof {
                    assert(entry_wf(t, 4, e4));
                    assert(resolve_at(t, 0, 4, gv) is None);
                }
                return None;
            },
        };
        let idx3 = index_at(vpn, 3);
        let e3 = self.entry_at(n3, idx3);
        let n2: usize = match e3 {
            PageTableEntry::NextTable { frame: _, node } => {
                proof {
                    assert(entry_wf(t, 3, e3));
                    assert(resolve_at(t, n3 as int, 3, gv) == resolve_at(t, node as int, 2, gv));
                    assert(node_wf(t, node as int));
                }
                node
            },
            _ => {
                proof {
                    assert(entry_wf(t, 3, e3));
                    assert(resolve_at(t, n3 as int, 3, gv) is None);
                }
                return None;
            },
        };
        let idx2 = index_at(vpn, 2);
        let e2 = self.entry_at(n2, idx2);
        let n1: usize = match e2 {
            PageTableEntry::NextTable { frame: _, node } => {
                proof {
                    assert(entry_wf(t, 2, e2));
                    assert(resolve_at(t, n2 as int, 2, gv) == resolve_at(t, node as int, 1, gv));
                    assert(node_wf(t, node as int));
                }
                node
            },
            _ => {
                proof {
                    assert(entry_wf(t, 2, e2));
                    assert(resolve_at(t, n2 as int, 2, gv) is None);
                }
                return None;
            },
        };
        let idx1 = index_at(vpn, 1);
        let e1 = self.entry_at(n1, idx1);
        match e1 {
            PageTableEntry::Leaf { frame, flags } => {
                proof {
                    assert(entry_wf(t, 1, e1));
                    assert(resolve_at(t, n1 as int, 1, gv) == Some((frame as int, flags)));
                    assert(node_wf(t, n1 as int));
                }
                Some((Frame { number: frame }, flags))
            },
            _ => {
                proof {
                    assert(entry_wf(t, 1, e1));
                    assert(resolve_at(t, n1 as int, 1, gv) is None);
                }
                None
            },
        }
    }
}

/// Law: the mapper never aliases one leaf entry for two different pages —
/// under the tree invariant, the walks of two distinct canonical pages end
/// at distinct leaf slots.
pub proof fn lemma_no_leaf_aliasing(m: Mapper, p: Page, q: Page)
    requires
        m.wf(),
        p.wf(),
        q.wf(),
        p != q,
        leaf_of(m.tables@, 0, 4, p.vpn()) is Some,
        leaf_of(m.tables@, 0, 4, q.vpn()) is Some,
    ensures
        leaf_of(m.tables@, 0, 4, p.vpn()) != leaf_of(m.tables@, 0, 4, q.vpn()),
{
    if leaf_of(m.tables@, 0, 4, p.vpn()) == leaf_of(m.tables@, 0, 4, q.vpn()) {
        lemma_leaf_of_injective(m.tables@, 0, 0, 4, p.vpn(), q.vpn());
        lemma_indices_determine_vpn(p.vpn(), q.vpn());
        crate::addr::lemma_vpn_injective(p, q);
        assert(false);
    }
}

} // verus!
