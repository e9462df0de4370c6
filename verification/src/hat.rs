//! Hardware Address Translation: construction and mutation of the
//! multi-level page-table tree mapping virtual to physical addresses.
//!
//! The kernel walks raw table frames through the direct map; here the same
//! frames are held as owned table descriptors, each carrying its physical
//! base, the tree level it serves, and its 512 entry words. The walk the
//! hardware performs is the spec function `walk_base` / `entry_at`, and the
//! contracts of `map_pages` and `unmap_pages` speak in terms of it.

use vstd::prelude::*;

use crate::mmu::{MmuInfo, PageSize, spec_level_size, spec_level_flags};
use crate::pte::{spec_prot_flags, PTE_USER, PTE_WRITE};
use crate::pmm::{
    Pmm, Region, alloc_frames, carve, carve_addr, covered, find_fit, frame_count, region_end,
    region_wf, wf_runs,
};
use crate::pte::{
    Prot, lemma_align_bits, lemma_parent_or, lemma_pte_pack, pte_addr, pte_huge, pte_present,
    PARENT_FLAGS, PTE_ADDR_MASK, PTE_HUGE, PTE_PRESENT,
};
use crate::vm::{PhysAddr, VirtAddr, PAGE_SIZE};

verus! {

/// Failures `map_pages` reports to its caller.
#[derive(Clone, Copy, Debug, PartialEq, Eq, Structural)]
pub enum Error {
    /// A leaf in the requested range is already present with a different
    /// translation; the payload is the physical address it holds.
    AlreadyMapped(PhysAddr),
    /// A huge-page leaf sits where an intermediate table is needed.
    HugePage(PageSize, PhysAddr),
}

/// One owned page-table frame: its physical base, the tree level it serves,
/// and its 512 entry words.
#[derive(Debug)]
pub struct TableFrame {
    pub base: usize,
    pub level: usize,
    pub entries: Vec<u64>,
}

/// Whether some owned table sits at physical base `b`.
pub open spec fn has_table(s: Seq<TableFrame>, b: int) -> bool {
    exists|i: int| 0 <= i < s.len() && (#[trigger] s[i]).base == b
}

/// The entries of the owned table at base `b` (meaningful when it exists
/// and bases are distinct).
pub open spec fn table_entries(s: Seq<TableFrame>, b: int) -> Seq<u64> {
    let i = choose|i: int| 0 <= i < s.len() && (#[trigger] s[i]).base == b;
    s[i].entries@
}

/// The level of the owned table at base `b`.
pub open spec fn table_level(s: Seq<TableFrame>, b: int) -> int {
    let i = choose|i: int| 0 <= i < s.len() && (#[trigger] s[i]).base == b;
    s[i].level as int
}

/// No two owned tables share a base.
pub open spec fn distinct_bases(s: Seq<TableFrame>) -> bool {
    forall|i: int, k: int|
        0 <= i < s.len() && 0 <= k < s.len() && i != k ==> (#[trigger] s[i]).base != (
        #[trigger] s[k]).base
}

/// The 9-bit table index virtual address `v` selects at `level`.
pub open spec fn spec_index_for(v: usize, level: int) -> int {
    (((v as u64) >> ((12 + 9 * level) as u64)) & 0x1ff) as int
}

/// With distinct bases, looking a table up by the base of element `i` gives
/// element `i` itself.
pub proof fn lemma_table_lookup(s: Seq<TableFrame>, i: int)
    requires
        distinct_bases(s),
        0 <= i < s.len(),
    ensures
        has_table(s, s[i].base as int),
        table_entries(s, s[i].base as int) == s[i].entries@,
        table_level(s, s[i].base as int) == s[i].level as int,
{
    let b = s[i].base as int;
    assert(0 <= i < s.len() && s[i].base == b);
    let k = choose|k: int| 0 <= k < s.len() && (#[trigger] s[k]).base == b;
    assert(k == i);
}

/// A table index is always inside the 512-entry table.
pub proof fn lemma_index_bound(v: usize, level: int)
    ensures
        0 <= spec_index_for(v, level) < 512,
{
    let sh = (12 + 9 * level) as u64;
    let w = v as u64;
    assert((w >> sh) & 0x1ff < 512) by (bit_vector);
}

/// The base of the table the hardware consults at `level` when walking
/// virtual address `v` from the top table: a nonnegative result is that
/// base; `-1` means the walk found an absent intermediate entry (vacant);
/// `-2` means it is blocked, by a huge-page leaf or by a table the address
/// space does not own.
pub open spec fn walk_base(s: Seq<TableFrame>, top: int, max: int, v: usize, level: int) -> int
    decreases max - level,
{
    if level >= max {
        top
    } else {
        let up = walk_base(s, top, max, v, level + 1);
        if up < 0 {
            up
        } else if !has_table(s, up) {
            -2
        } else {
            let e = table_entries(s, up)[spec_index_for(v, level + 1)];
            if !pte_present(e) {
                -1
            } else if pte_huge(e) {
                -2
            } else if has_table(s, pte_addr(e)) && table_level(s, pte_addr(e)) == level {
                pte_addr(e)
            } else {
                -2
            }
        }
    }
}

/// The entry word the walk for `v` examines at `level`, when the walk
/// reaches a table there.
pub open spec fn entry_at(s: Seq<TableFrame>, top: int, max: int, v: usize, level: int) -> Option<
    u64,
> {
    let b = walk_base(s, top, max, v, level);
    if b >= 0 && has_table(s, b) {
        Some(table_entries(s, b)[spec_index_for(v, level)])
    } else {
        None
    }
}

/// An intermediate entry carries the widened parent permissions: present,
/// pointing at a table rather than a huge leaf, with the write and user
/// bits set. Access is restricted only by the leaf entry's bits.
pub open spec fn parent_widened(e: u64) -> bool {
    &&& pte_present(e)
    &&& !pte_huge(e)
    &&& e & PARENT_FLAGS == PARENT_FLAGS
}

/// The entry the walk examines at `level` is a widened parent entry.
pub open spec fn widened_at(s: Seq<TableFrame>, top: int, max: int, v: usize, level: int) -> bool {
    match entry_at(s, top, max, v, level) {
        Some(e) => parent_widened(e),
        None => false,
    }
}

/// The examined entry is a present, non-huge intermediate.
pub open spec fn intermediate_at(
    s: Seq<TableFrame>,
    top: int,
    max: int,
    v: usize,
    level: int,
) -> bool {
    match entry_at(s, top, max, v, level) {
        Some(e) => pte_present(e) && !pte_huge(e),
        None => false,
    }
}

/// Well-formedness of a table forest: distinct, page-aligned,
/// entry-representable bases; a top table at the top level; every child
/// pointer that stays inside the forest lands one level down; and no two
/// child pointers share a target, so the forest is a forest.
pub open spec fn forest_wf(s: Seq<TableFrame>, top: int, max: int) -> bool {
    &&& distinct_bases(s)
    &&& has_table(s, top)
    &&& table_level(s, top) == max
    &&& forall|i: int|
        0 <= i < s.len() ==> {
            let t = #[trigger] s[i];
            &&& t.base as int % PAGE_SIZE as int == 0
            &&& t.base as int <= 0x000f_ffff_ffff_f000
            &&& t.entries@.len() == 512
            &&& t.level as int <= max
        }
    &&& forall|i: int, j: int|
        #![trigger s[i].entries@[j]]
        {
            let e = s[i].entries@[j];
            (0 <= i < s.len() && 0 <= j < 512 && s[i].level > 0 && pte_present(e) && !pte_huge(e)
                && has_table(s, pte_addr(e))) ==> table_level(s, pte_addr(e)) == s[i].level - 1
        }
    &&& forall|i: int, j: int|
        #![trigger s[i].entries@[j]]
        0 <= i < s.len() && 0 <= j < 512 ==> pte_addr(s[i].entries@[j]) <= usize::MAX
    &&& forall|i1: int, j1: int, i2: int, j2: int|
        #![trigger s[i1].entries@[j1], s[i2].entries@[j2]]
        {
            let e1 = s[i1].entries@[j1];
            let e2 = s[i2].entries@[j2];
            (0 <= i1 < s.len() && 0 <= j1 < 512 && 0 <= i2 < s.len() && 0 <= j2 < 512 && s[i1].level
                > 0 && s[i2].level > 0 && !(i1 == i2 && j1 == j2) && pte_present(e1) && !pte_huge(
                e1,
            ) && pte_present(e2) && !pte_huge(e2) && has_table(s, pte_addr(e1))) ==> pte_addr(e1)
                != pte_addr(e2)
        }
}

/// Hardware Address Translation context: one address space.
pub struct Hat {
    mmu: MmuInfo,
    /// Physical base of the top-level table.
    top_level: usize,
    /// Every table frame this address space owns, the top one included.
    tables: Vec<TableFrame>,
    /// Pages mapped per level, one counter per paging level.
    mapped_pages: Vec<usize>,
    pcid: usize,
    cr3: usize,
}

impl Hat {
    pub closed spec fn tables_seq(&self) -> Seq<TableFrame> {
        self.tables@
    }

    pub closed spec fn spec_top(&self) -> int {
        self.top_level as int
    }

    pub closed spec fn spec_mmu(&self) -> MmuInfo {
        self.mmu
    }

    pub open spec fn spec_max(&self) -> int {
        self.spec_mmu().max_level as int
    }

    pub closed spec fn spec_pcid(&self) -> int {
        self.pcid as int
    }

    pub closed spec fn spec_cr3(&self) -> int {
        self.cr3 as int
    }

    pub closed spec fn spec_mapped_pages(&self) -> Seq<usize> {
        self.mapped_pages@
    }

    /// The walk result for this address space.
    pub open spec fn walk(&self, v: usize, level: int) -> int {
        walk_base(self.tables_seq(), self.spec_top(), self.spec_max(), v, level)
    }

    /// The entry the walk for `v` examines at `level`.
    pub open spec fn entry(&self, v: usize, level: int) -> Option<u64> {
        entry_at(self.tables_seq(), self.spec_top(), self.spec_max(), v, level)
    }

    /// Well-formedness of this address space: a well-formed table forest
    /// under a well-formed configuration.
    pub open spec fn wf(&self) -> bool {
        &&& self.spec_mmu().wf()
        &&& self.spec_mapped_pages().len() == 5
        &&& forest_wf(self.tables_seq(), self.spec_top(), self.spec_max())
    }

    /// The address space and the frame allocator touch disjoint frames: no
    /// owned table base is free, and no entry that points outside the owned
    /// set points at a free frame. The second half keeps a freshly
    /// allocated table from colliding with a stale pointer.
    pub open spec fn disjoint_from(&self, pmm: &Pmm) -> bool {
        tables_disjoint(self.tables_seq(), pmm.runs())
    }
}

/// The forest and a free list touch disjoint frames.
pub open spec fn tables_disjoint(s: Seq<TableFrame>, runs: Seq<Region>) -> bool {
    &&& forall|i: int| 0 <= i < s.len() ==> !covered(runs, (#[trigger] s[i]).base as int)
    &&& forall|i: int, j: int|
        #![trigger s[i].entries@[j]]
        {
            let e = s[i].entries@[j];
            (0 <= i < s.len() && 0 <= j < 512 && s[i].level > 0 && pte_present(e) && !pte_huge(e)
                && !has_table(s, pte_addr(e))) ==> !covered(runs, pte_addr(e))
        }
}

/// Every free run sits below the width of a page-table entry's address
/// field, as physical memory does on this architecture.
pub open spec fn pmm_below_pte_range(s: Seq<Region>) -> bool {
    forall|i: int| 0 <= i < s.len() ==> region_end(#[trigger] s[i]) <= 0x0010_0000_0000_0000
}

/// A reached walk lands on an owned table of exactly the level asked for.
pub proof fn lemma_walk_reaches_table(s: Seq<TableFrame>, top: int, max: int, v: usize, level: int)
    requires
        has_table(s, top),
        table_level(s, top) == max,
        level <= max,
        walk_base(s, top, max, v, level) >= 0,
    ensures
        has_table(s, walk_base(s, top, max, v, level)),
        table_level(s, walk_base(s, top, max, v, level)) == level,
    decreases max - level,
{
    if level >= max {
    } else {
        let up = walk_base(s, top, max, v, level + 1);
        assert(up >= 0);
        lemma_walk_reaches_table(s, top, max, v, level + 1);
    }
}

/// 512 zero entry words: a freshly allocated, zero-filled table.
fn zero_table() -> (r: Vec<u64>)
    ensures
        r@.len() == 512,
        forall|j: int| 0 <= j < 512 ==> r@[j] == 0u64,
{
    let mut v: Vec<u64> = Vec::new();
    let mut i: usize = 0;
    while i < 512
        invariant
            i <= 512,
            v@.len() == i,
            forall|j: int| 0 <= j < i ==> v@[j] == 0u64,
        decreases 512 - i,
    {
        v.push(0);
        i += 1;
    }
    v
}

/// The 9-bit table index `v` selects at `level`, computed.
pub fn table_index(v: usize, level: usize) -> (r: usize)
    requires
        level <= 4,
    ensures
        r == spec_index_for(v, level as int),
        r < 512,
{
    proof {
        lemma_index_bound(v, level as int);
    }
    (((v as u64) >> ((12 + 9 * level) as u64)) & 0x1ff) as usize
}

impl VirtAddr {
    /// The table index this address selects at `level`.
    pub fn index_for(self, level: u32) -> (r: usize)
        requires
            level <= 4,
        ensures
            r == spec_index_for(self.spec_value() as usize, level as int),
            r < 512,
    {
        table_index(self.to_usize(), level as usize)
    }

    /// Whether the address avoids the noncanonical hole.
    pub fn is_canonical(self, mmu: &MmuInfo) -> (r: bool)
        ensures
            r <==> !(mmu.hole_start <= (self.spec_value() as u64) && (self.spec_value() as u64)
                < mmu.hole_end),
    {
        let v = self.to_usize() as u64;
        !(mmu.hole_start <= v && v < mmu.hole_end)
    }
}

impl Hat {
    /// Find the owned table at physical base `b`.
    fn find_table(&self, b: u64) -> (r: Option<usize>)
        ensures
            r matches Some(i) ==> i < self.tables_seq().len() && self.tables_seq()[i as int].base
                as u64 == b,
            r is None ==> !has_table(self.tables_seq(), b as int),
    {
        let mut i: usize = 0;
        while i < self.tables.len()
            invariant
                i <= self.tables_seq().len(),
                forall|k: int| 0 <= k < i ==> (#[trigger] self.tables_seq()[k]).base as u64 != b,
            decreases self.tables_seq().len() - i,
        {
            if self.tables[i].base as u64 == b {
                return Some(i);
            }
            i += 1;
        }
        proof {
            assert forall|k: int|
                0 <= k < self.tables_seq().len() implies (#[trigger] self.tables_seq()[k]).base
                != b as int by {
                assert(self.tables_seq()[k].base as u64 != b);
            }
        }
        None
    }
}

/// Two virtual addresses select the same slot at every level from `ml` up:
/// to the walker they are the same page.
pub open spec fn same_page(v1: usize, v2: usize, ml: int, max: int) -> bool {
    forall|l: int| ml <= l <= max ==> spec_index_for(v1, l) == spec_index_for(v2, l)
}

/// Replacing one entry word with another that keeps its address, present
/// and huge bits leaves every walk where it was, and changes examined
/// entries only at the written slot.
proof fn lemma_walk_after_or(
    s: Seq<TableFrame>,
    s2: Seq<TableFrame>,
    i: int,
    j: int,
    top: int,
    max: int,
    v: usize,
    l: int,
)
    requires
        0 <= i < s.len(),
        0 <= j < 512,
        s2.len() == s.len(),
        forall|k: int| 0 <= k < s.len() && k != i ==> s2[k] == s[k],
        s2[i].base == s[i].base,
        s2[i].level == s[i].level,
        s2[i].entries@ == s[i].entries@.update(j, s2[i].entries@[j]),
        s[i].entries@.len() == 512,
        pte_addr(s2[i].entries@[j]) == pte_addr(s[i].entries@[j]),
        pte_present(s2[i].entries@[j]) == pte_present(s[i].entries@[j]),
        pte_huge(s2[i].entries@[j]) == pte_huge(s[i].entries@[j]),
        distinct_bases(s),
    ensures
        walk_base(s2, top, max, v, l) == walk_base(s, top, max, v, l),
    decreases max - l,
{
    lemma_same_tables(s, s2, i);
    if l >= max {
    } else {
        lemma_walk_after_or(s, s2, i, j, top, max, v, l + 1);
        lemma_index_bound(v, l + 1);
        let up = walk_base(s, top, max, v, l + 1);
        if up >= 0 && has_table(s, up) {
            let e = table_entries(s, up)[spec_index_for(v, l + 1)];
            let e2 = table_entries(s2, up)[spec_index_for(v, l + 1)];
            assert(pte_addr(e2) == pte_addr(e) && pte_present(e2) == pte_present(e) && pte_huge(e2)
                == pte_huge(e));
        }
    }
}

/// Shared plumbing: a single-table replacement that keeps base and level
/// keeps the lookup structure: the same bases exist, with the same levels,
/// and all other tables read the same.
proof fn lemma_same_tables(s: Seq<TableFrame>, s2: Seq<TableFrame>, i: int)
    requires
        0 <= i < s.len(),
        s2.len() == s.len(),
        forall|k: int| 0 <= k < s.len() && k != i ==> s2[k] == s[k],
        s2[i].base == s[i].base,
        s2[i].level == s[i].level,
        distinct_bases(s),
    ensures
        distinct_bases(s2),
        forall|b: int| has_table(s2, b) <==> has_table(s, b),
        forall|b: int| has_table(s, b) ==> table_level(s2, b) == table_level(s, b),
        forall|b: int|
            has_table(s, b) && b != s[i].base ==> table_entries(s2, b) == table_entries(s, b),
        has_table(s, s[i].base as int),
        table_entries(s2, s[i].base as int) == s2[i].entries@,
        table_entries(s, s[i].base as int) == s[i].entries@,
    decreases s.len(),
{
    assert forall|b: int| has_table(s2, b) implies has_table(s, b) by {
        let k = choose|k: int| 0 <= k < s2.len() && (#[trigger] s2[k]).base == b;
        assert(s[k].base == b);
    }
    assert forall|b: int| has_table(s, b) implies has_table(s2, b) by {
        let k = choose|k: int| 0 <= k < s.len() && (#[trigger] s[k]).base == b;
        assert(s2[k].base == b);
    }
    assert forall|i1: int, k1: int|
        0 <= i1 < s2.len() && 0 <= k1 < s2.len() && i1 != k1 implies (#[trigger] s2[i1]).base != (
    #[trigger] s2[k1]).base by {
        assert(s2[i1].base == s[i1].base || i1 == i);
        assert(s[i1].base != s[k1].base);
    }
    assert forall|b: int| has_table(s, b) implies table_level(s2, b) == table_level(s, b) by {
        let k = choose|k: int| 0 <= k < s.len() && (#[trigger] s[k]).base == b;
        let k2 = choose|k2: int| 0 <= k2 < s2.len() && (#[trigger] s2[k2]).base == b;
        assert(s2[k2].base == s[k2].base);
        assert(k2 == k);
    }
    assert forall|b: int|
        has_table(s, b) && b != s[i].base implies table_entries(s2, b) == table_entries(s, b) by {
        let k = choose|k: int| 0 <= k < s.len() && (#[trigger] s[k]).base == b;
        let k2 = choose|k2: int| 0 <= k2 < s2.len() && (#[trigger] s2[k2]).base == b;
        assert(s2[k2].base == s[k2].base);
        assert(k2 == k && k != i);
    }
    lemma_table_lookup(s, i);
    let k2 = choose|k2: int| 0 <= k2 < s2.len() && (#[trigger] s2[k2]).base == s[i].base;
    assert(s2[k2].base == s[k2].base);
    assert(k2 == i);
}

/// Filling a slot that held an absent entry leaves every walk that had
/// reached a table where it was, and keeps blocked walks blocked.
proof fn lemma_walk_after_fill(
    s: Seq<TableFrame>,
    s2: Seq<TableFrame>,
    i: int,
    j: int,
    top: int,
    max: int,
    v: usize,
    l: int,
)
    requires
        0 <= i < s.len(),
        0 <= j < 512,
        s2.len() == s.len(),
        forall|k: int| 0 <= k < s.len() && k != i ==> s2[k] == s[k],
        s2[i].base == s[i].base,
        s2[i].level == s[i].level,
        s2[i].entries@ == s[i].entries@.update(j, s2[i].entries@[j]),
        s[i].entries@.len() == 512,
        !pte_present(s[i].entries@[j]),
        distinct_bases(s),
    ensures
        walk_base(s, top, max, v, l) >= 0 ==> walk_base(s2, top, max, v, l) == walk_base(
            s,
            top,
            max,
            v,
            l,
        ),
        walk_base(s, top, max, v, l) == -2 ==> walk_base(s2, top, max, v, l) == -2,
    decreases max - l,
{
    lemma_same_tables(s, s2, i);
    if l >= max {
    } else {
        lemma_walk_after_fill(s, s2, i, j, top, max, v, l + 1);
        lemma_index_bound(v, l + 1);
        let up = walk_base(s, top, max, v, l + 1);
        if up >= 0 && has_table(s, up) {
            let e = table_entries(s, up)[spec_index_for(v, l + 1)];
            let e2 = table_entries(s2, up)[spec_index_for(v, l + 1)];
            if up == s[i].base && spec_index_for(v, l + 1) == j {
                assert(!pte_present(e));
            } else {
                assert(e2 == e);
            }
        }
    }
}

/// Appending a fresh table that nothing in the old forest points at leaves
/// every walk result exactly as it was.
proof fn lemma_walk_after_push(
    s: Seq<TableFrame>,
    s2: Seq<TableFrame>,
    top: int,
    max: int,
    v: usize,
    l: int,
)
    requires
        s2.len() == s.len() + 1,
        forall|k: int| 0 <= k < s.len() ==> s2[k] == s[k],
        !has_table(s, s2[s.len() as int].base as int),
        forall|i: int, j: int|
            #![trigger s[i].entries@[j]]
            {
                let e = s[i].entries@[j];
                (0 <= i < s.len() && 0 <= j < 512 && s[i].level > 0 && pte_present(e) && !pte_huge(
                    e,
                )) ==> pte_addr(e) != s2[s.len() as int].base as int
            },
        has_table(s, top),
        table_level(s, top) == max,
        forall|i: int| 0 <= i < s.len() ==> (#[trigger] s[i]).entries@.len() == 512,
        forall|i: int| 0 <= i < s.len() ==> (#[trigger] s[i]).level as int <= max,
        distinct_bases(s),
        0 <= l,
    ensures
        walk_base(s2, top, max, v, l) == walk_base(s, top, max, v, l),
    decreases max - l,
{
    lemma_push_tables(s, s2);
    if l >= max {
    } else {
        lemma_walk_after_push(s, s2, top, max, v, l + 1);
        lemma_index_bound(v, l + 1);
        let up = walk_base(s, top, max, v, l + 1);
        if up >= 0 {
            lemma_walk_reaches_table(s, top, max, v, l + 1);
            assert(table_level(s, up) == l + 1);
            let ki = choose|ki: int| 0 <= ki < s.len() && (#[trigger] s[ki]).base == up;
            let e = table_entries(s, up)[spec_index_for(v, l + 1)];
            assert(e == s[ki].entries@[spec_index_for(v, l + 1)]) by {
                lemma_table_lookup(s, ki);
            }
            if pte_present(e) && !pte_huge(e) {
                assert(s[ki].level > 0);
                assert(pte_addr(e) != s2[s.len() as int].base as int);
                assert(has_table(s2, pte_addr(e)) <==> has_table(s, pte_addr(e)));
            }
        }
    }
}

/// Appending any table keeps the old lookups intact; when its base is
/// fresh, existence of other bases is unchanged.
proof fn lemma_push_tables(s: Seq<TableFrame>, s2: Seq<TableFrame>)
    requires
        s2.len() == s.len() + 1,
        forall|k: int| 0 <= k < s.len() ==> s2[k] == s[k],
        !has_table(s, s2[s.len() as int].base as int),
        distinct_bases(s),
    ensures
        distinct_bases(s2),
        forall|b: int|
            has_table(s2, b) <==> (has_table(s, b) || b == s2[s.len() as int].base as int),
        forall|b: int| has_table(s, b) ==> table_level(s2, b) == table_level(s, b),
        forall|b: int| has_table(s, b) ==> table_entries(s2, b) == table_entries(s, b),
        has_table(s2, s2[s.len() as int].base as int),
        table_entries(s2, s2[s.len() as int].base as int) == s2[s.len() as int].entries@,
        table_level(s2, s2[s.len() as int].base as int) == s2[s.len() as int].level as int,
{
    let nb = s2[s.len() as int].base as int;
    assert forall|i1: int, k1: int|
        0 <= i1 < s2.len() && 0 <= k1 < s2.len() && i1 != k1 implies (#[trigger] s2[i1]).base != (
    #[trigger] s2[k1]).base by {
        if i1 < s.len() && k1 < s.len() {
            assert(s2[i1] == s[i1] && s2[k1] == s[k1]);
        } else if i1 < s.len() {
            assert(s2[i1] == s[i1]);
            assert(s[i1].base != nb);
        } else {
            assert(s2[k1] == s[k1]);
            assert(s[k1].base != nb);
        }
    }
    assert forall|b: int| has_table(s2, b) implies (has_table(s, b) || b == nb) by {
        let k = choose|k: int| 0 <= k < s2.len() && (#[trigger] s2[k]).base == b;
        if k < s.len() {
            assert(s[k].base == b);
        }
    }
    assert forall|b: int| has_table(s, b) implies has_table(s2, b) by {
        let k = choose|k: int| 0 <= k < s.len() && (#[trigger] s[k]).base == b;
        assert(s2[k].base == b);
    }
    assert forall|b: int|
        has_table(s, b) implies table_level(s2, b) == table_level(s, b) && table_entries(s2, b)
            == table_entries(s, b) by {
        let k = choose|k: int| 0 <= k < s.len() && (#[trigger] s[k]).base == b;
        let k2 = choose|k2: int| 0 <= k2 < s2.len() && (#[trigger] s2[k2]).base == b;
        assert(b != nb);
        assert(k2 < s.len());
        assert(s2[k2] == s[k2]);
        assert(k2 == k);
    }
    assert(s2[s.len() as int].base == nb);
    let k2 = choose|k2: int| 0 <= k2 < s2.len() && (#[trigger] s2[k2]).base == nb;
    assert(k2 == s.len()) by {
        if k2 < s.len() {
            assert(s[k2].base == nb);
        }
    }
}

/// Walks that agree on every index above `l` land on the same table.
proof fn lemma_walk_same_indices(
    s: Seq<TableFrame>,
    top: int,
    max: int,
    v1: usize,
    v2: usize,
    l: int,
)
    requires
        forall|l2: int| l < l2 <= max ==> spec_index_for(v1, l2) == spec_index_for(v2, l2),
    ensures
        walk_base(s, top, max, v1, l) == walk_base(s, top, max, v2, l),
    decreases max - l,
{
    if l >= max {
    } else {
        lemma_walk_same_indices(s, top, max, v1, v2, l + 1);
    }
}

/// Walks that disagree on some index above `l`, and both reach a table at
/// `l`, reach different tables: the forest shares no child between two
/// parent slots.
proof fn lemma_walk_separate(
    s: Seq<TableFrame>,
    top: int,
    max: int,
    v1: usize,
    v2: usize,
    l: int,
)
    requires
        forest_wf(s, top, max),
        0 <= l < max,
        walk_base(s, top, max, v1, l) >= 0,
        walk_base(s, top, max, v2, l) >= 0,
        exists|l2: int| l < l2 <= max && spec_index_for(v1, l2) != spec_index_for(v2, l2),
    ensures
        walk_base(s, top, max, v1, l) != walk_base(s, top, max, v2, l),
    decreases max - l,
{
    let up1 = walk_base(s, top, max, v1, l + 1);
    let up2 = walk_base(s, top, max, v2, l + 1);
    assert(up1 >= 0 && up2 >= 0);
    lemma_walk_reaches_table(s, top, max, v1, l + 1);
    lemma_walk_reaches_table(s, top, max, v2, l + 1);
    let j1 = spec_index_for(v1, l + 1);
    let j2 = spec_index_for(v2, l + 1);
    lemma_index_bound(v1, l + 1);
    lemma_index_bound(v2, l + 1);
    let ki1 = choose|k: int| 0 <= k < s.len() && (#[trigger] s[k]).base == up1;
    let ki2 = choose|k: int| 0 <= k < s.len() && (#[trigger] s[k]).base == up2;
    lemma_table_lookup(s, ki1);
    lemma_table_lookup(s, ki2);
    assert(s[ki1].base == up1 && s[ki2].base == up2);
    assert(s[ki1].level == l + 1 && s[ki2].level == l + 1);
    let e1 = s[ki1].entries@[j1];
    let e2 = s[ki2].entries@[j2];
    assert(table_entries(s, up1)[j1] == e1);
    assert(table_entries(s, up2)[j2] == e2);
    assert(pte_present(e1) && !pte_huge(e1) && has_table(s, pte_addr(e1)));
    assert(pte_present(e2) && !pte_huge(e2) && has_table(s, pte_addr(e2)));
    assert(walk_base(s, top, max, v1, l) == pte_addr(e1));
    assert(walk_base(s, top, max, v2, l) == pte_addr(e2));

    if exists|l3: int| l + 1 < l3 <= max && spec_index_for(v1, l3) != spec_index_for(v2, l3) {
        lemma_walk_separate(s, top, max, v1, v2, l + 1);
        assert(up1 != up2);
        assert(ki1 != ki2);
        assert(pte_addr(e1) != pte_addr(e2));
    } else {
        assert forall|l2: int|
            l + 1 < l2 <= max implies spec_index_for(v1, l2) == spec_index_for(v2, l2) by {}
        lemma_walk_same_indices(s, top, max, v1, v2, l + 1);
        assert(up1 == up2);
        assert(ki1 == ki2);
        assert(j1 != j2) by {
            let l2 = choose|l2: int|
                l < l2 <= max && spec_index_for(v1, l2) != spec_index_for(v2, l2);
            assert(l2 == l + 1);
        }
        assert(pte_addr(e1) != pte_addr(e2));
    }
}

/// Two pages the walker can tell apart never share a leaf slot: either
/// their walks reach different tables, or they select different entries.
pub proof fn lemma_distinct_leaf_slots(
    s: Seq<TableFrame>,
    top: int,
    max: int,
    v1: usize,
    v2: usize,
    ml: int,
)
    requires
        forest_wf(s, top, max),
        0 <= ml <= max,
        walk_base(s, top, max, v1, ml) >= 0,
        walk_base(s, top, max, v2, ml) >= 0,
        !same_page(v1, v2, ml, max),
    ensures
        walk_base(s, top, max, v1, ml) != walk_base(s, top, max, v2, ml) || spec_index_for(v1, ml)
            != spec_index_for(v2, ml),
{
    if spec_index_for(v1, ml) == spec_index_for(v2, ml) {
        let l2 = choose|l2: int| ml <= l2 <= max && spec_index_for(v1, l2) != spec_index_for(
            v2,
            l2,
        );
        assert(ml < l2 <= max);
        lemma_walk_separate(s, top, max, v1, v2, ml);
    }
}

impl Hat {
    /// Create an address space: allocate the top-level table, copy the
    /// kernel's golden template of shared top-level entries into it, and
    /// record the PCID and the cached hardware root value. The template's
    /// outward pointers must target allocated kernel tables, never frames
    /// the allocator still owns.
    pub fn new(mmu: MmuInfo, pmm: &mut Pmm, asid: usize, initial: &Vec<u64>) -> (r: Hat)
        requires
            mmu.wf(),
            old(pmm).wf(),
            pmm_below_pte_range(old(pmm).runs()),
            frame_count(old(pmm).runs()) > 0,
            initial@.len() == 512,
            forall|j: int|
                0 <= j < 512 && pte_present(#[trigger] initial@[j]) && !pte_huge(initial@[j])
                    ==> !covered(old(pmm).runs(), pte_addr(initial@[j])),
            forall|j: int| 0 <= j < 512 ==> pte_addr(#[trigger] initial@[j]) <= usize::MAX,
        ensures
            r.wf(),
            final(pmm).wf(),
            r.disjoint_from(final(pmm)),
            pmm_below_pte_range(final(pmm).runs()),
            r.spec_mmu() == mmu,
            r.tables_seq().len() == 1,
            r.tables_seq()[0].base as int == r.spec_top(),
            r.tables_seq()[0].entries@ == initial@,
            r.spec_pcid() == (asid & 0xfff) as int,
            r.spec_cr3() == (if mmu.pcide {
                (r.spec_top() as usize) | (asid & 0xfff)
            } else {
                r.spec_top() as usize
            }) as int,
            r.spec_mapped_pages() == seq![0usize, 0, 0, 0, 0],
            ({
                let s0 = old(pmm).runs();
                let f = find_fit(s0, 1);
                &&& f >= 0
                &&& r.spec_top() == carve_addr(s0, f, 1)
                &&& final(pmm).runs() == carve(s0, f, 1)
                &&& frame_count(final(pmm).runs()) == frame_count(s0) - 1
            }),
    {
        let ghost s0 = pmm.runs();
        proof {
            if s0.len() == 0 {
                assert(frame_count(s0) == 0);
            }
            assert(s0.last().len >= 1);
            assert(find_fit(s0, 1) == s0.len() - 1);
        }
        let top = match alloc_frames(pmm, 1) {
            Some(addr) => addr.to_usize(),
            None => {
                // Unreachable: the allocator holds at least one frame.
                proof {
                    assert(false);
                }
                0
            },
        };
        proof {
            let f = find_fit(s0, 1int);
            assert(region_wf(s0[f]));
            assert((s0[f].len - 1) * (PAGE_SIZE as int) + 1 * (PAGE_SIZE as int) == s0[f].len * (
            PAGE_SIZE as int)) by (nonlinear_arith);
            assert(top + PAGE_SIZE == region_end(s0[f]));
            assert(top as int <= 0x000f_ffff_ffff_f000);
        }

        let mut entries: Vec<u64> = Vec::new();
        let mut i: usize = 0;
        while i < 512
            invariant
                i <= 512,
                entries@.len() == i,
                initial@.len() == 512,
                forall|j: int| 0 <= j < i ==> entries@[j] == initial@[j],
            decreases 512 - i,
        {
            entries.push(initial[i]);
            i += 1;
        }
        proof {
            assert(entries@ =~= initial@);
        }

        let max = mmu.max_level as usize;
        let pcid = asid & 0xfff;
        let cr3 = if mmu.pcide {
            top | pcid
        } else {
            top
        };
        let mut tables: Vec<TableFrame> = Vec::new();
        tables.push(TableFrame { base: top, level: max, entries });
        let mut mapped_pages: Vec<usize> = Vec::new();
        mapped_pages.push(0);
        mapped_pages.push(0);
        mapped_pages.push(0);
        mapped_pages.push(0);
        mapped_pages.push(0);
        let hat = Hat { mmu, top_level: top, tables, mapped_pages, pcid, cr3 };
        proof {
            assert(hat.spec_mapped_pages() =~= seq![0usize, 0, 0, 0, 0]);
            let s = hat.tables_seq();
            lemma_table_lookup(s, 0);
            assert forall|i1: int, j1: int|
                #![trigger s[i1].entries@[j1]]
                0 <= i1 < s.len() && 0 <= j1 < 512 && s[i1].level > 0 && pte_present(
                    s[i1].entries@[j1],
                ) && !pte_huge(s[i1].entries@[j1]) implies !has_table(
                s,
                pte_addr(s[i1].entries@[j1]),
            ) by {
                let e = s[i1].entries@[j1];
                assert(e == initial@[j1]);
                assert(!covered(s0, pte_addr(e)));
                assert(covered(s0, hat.spec_top()));
                if has_table(s, pte_addr(e)) {
                    let k = choose|k: int| 0 <= k < s.len() && (#[trigger] s[k]).base == pte_addr(
                        e,
                    );
                    assert(k == 0);
                    assert(pte_addr(e) == hat.spec_top());
                }
            }
            assert(forest_wf(s, hat.spec_top(), hat.spec_max()));
            assert forall|i1: int|
                0 <= i1 < s.len() implies !covered(pmm.runs(), (#[trigger] s[i1]).base as int) by {
                assert(i1 == 0);
            }
        }
        hat
    }

    /// The cached value for the hardware translation root register,
    /// including the PCID when enabled. The unverified shell writes it to
    /// the register on an address-space switch.
    pub fn root_value(&self) -> (r: usize)
        ensures
            r as int == self.spec_cr3(),
    {
        self.cr3
    }

    /// The process-context id recorded at creation.
    pub fn pcid(&self) -> (r: usize)
        ensures
            r as int == self.spec_pcid(),
    {
        self.pcid
    }

    /// How many pages are mapped at `level`.
    pub fn mapped_count(&self, level: usize) -> (r: usize)
        requires
            self.wf(),
            level < 5,
        ensures
            r == self.spec_mapped_pages()[level as int],
    {
        self.mapped_pages[level]
    }

    /// The entry the hardware walk for `virt` examines at `level`, or
    /// `None` when the walk never reaches a table there.
    pub fn lookup(&self, virt: VirtAddr, level: usize) -> (r: Option<u64>)
        requires
            self.wf(),
            level <= self.spec_max(),
        ensures
            r == self.entry(virt.spec_value() as usize, level as int),
    {
        let ghost s = self.tables_seq();
        let v = virt.to_usize();
        let max = self.mmu.max_level as usize;
        let mut l: usize = max;
        let mut ti: usize = match self.find_table(self.top_level as u64) {
            Some(i) => i,
            None => {
                proof {
                    assert(false);
                }
                0
            },
        };
        proof {
            lemma_table_lookup(s, ti as int);
            assert(self.walk(v, max as int) == self.spec_top());
        }
        while l > level
            invariant
                self.wf(),
                level <= l <= self.spec_max(),
                s == self.tables_seq(),
                v == virt.spec_value() as usize,
                max == self.spec_max(),
                (ti as int) < s.len(),
                s[ti as int].base as int == self.walk(v, l as int),
                s[ti as int].level == l,
                self.walk(v, l as int) >= 0,
            decreases l,
        {
            let idx = table_index(v, l);
            let e = self.tables[ti].entries[idx];
            proof {
                lemma_table_lookup(s, ti as int);
                assert(table_entries(s, self.walk(v, l as int))[idx as int] == e);
            }
            if e & PTE_PRESENT == 0 {
                proof {
                    assert(!pte_present(e));
                    assert(self.walk(v, l as int - 1) == -1);
                    lemma_walk_propagates(s, self.spec_top(), self.spec_max(), v, level as int,
                        l as int - 1);
                }
                return None;
            }
            if e & PTE_HUGE != 0 {
                proof {
                    assert(pte_huge(e));
                    assert(self.walk(v, l as int - 1) == -2);
                    lemma_walk_propagates(s, self.spec_top(), self.spec_max(), v, level as int,
                        l as int - 1);
                }
                return None;
            }
            let child = e & PTE_ADDR_MASK;
            match self.find_table(child) {
                Some(ci) => {
                    proof {
                        lemma_table_lookup(s, ci as int);
                        assert(has_table(s, pte_addr(e)));
                    }
                    if self.tables[ci].level == l - 1 {
                        proof {
                            assert(table_level(s, pte_addr(e)) == l - 1);
                            assert(self.walk(v, l as int - 1) == pte_addr(e));
                        }
                        ti = ci;
                        l -= 1;
                    } else {
                        proof {
                            assert(table_level(s, pte_addr(e)) == self.tables_seq()[ci as int].level);
                            assert(self.walk(v, l as int - 1) == -2);
                            lemma_walk_propagates(s, self.spec_top(), self.spec_max(), v,
                                level as int, l as int - 1);
                        }
                        return None;
                    }
                },
                None => {
                    proof {
                        assert(self.walk(v, l as int - 1) == -2);
                        lemma_walk_propagates(s, self.spec_top(), self.spec_max(), v, level as int,
                            l as int - 1);
                    }
                    return None;
                },
            }
        }
        let idx = table_index(v, l);
        let e = self.tables[ti].entries[idx];
        proof {
            lemma_table_lookup(s, ti as int);
        }
        Some(e)
    }
}

/// A walk that has gone vacant or blocked stays so all the way down.
pub proof fn lemma_walk_propagates(
    s: Seq<TableFrame>,
    top: int,
    max: int,
    v: usize,
    level: int,
    l: int,
)
    requires
        level <= l,
        walk_base(s, top, max, v, l) < 0,
    ensures
        walk_base(s, top, max, v, level) == walk_base(s, top, max, v, l),
    decreases l - level,
{
    if level < l {
        assert(walk_base(s, top, max, v, l - 1) == walk_base(s, top, max, v, l));
        lemma_walk_propagates(s, top, max, v, level, l - 1);
    }
}

/// The update-in-place shape the mutation lemmas share: `s2` is `s` with
/// one entry word of table `i` replaced.
pub open spec fn slot_update(s: Seq<TableFrame>, s2: Seq<TableFrame>, i: int, j: int) -> bool {
    &&& 0 <= i < s.len()
    &&& 0 <= j < 512
    &&& s2.len() == s.len()
    &&& forall|k: int| 0 <= k < s.len() && k != i ==> s2[k] == s[k]
    &&& s2[i].base == s[i].base
    &&& s2[i].level == s[i].level
    &&& s2[i].entries@ == s[i].entries@.update(j, s2[i].entries@[j])
    &&& s[i].entries@.len() == 512
}

/// Widening an entry with the parent flags preserves the whole forest
/// shape and its disjointness from any free list.
proof fn lemma_wf_after_or(
    s: Seq<TableFrame>,
    s2: Seq<TableFrame>,
    i: int,
    j: int,
    top: int,
    max: int,
    runs: Seq<Region>,
)
    requires
        forest_wf(s, top, max),
        slot_update(s, s2, i, j),
        pte_addr(s2[i].entries@[j]) == pte_addr(s[i].entries@[j]),
        pte_present(s2[i].entries@[j]) == pte_present(s[i].entries@[j]),
        pte_huge(s2[i].entries@[j]) == pte_huge(s[i].entries@[j]),
        tables_disjoint(s, runs),
    ensures
        forest_wf(s2, top, max),
        tables_disjoint(s2, runs),
{
    lemma_same_tables(s, s2, i);
    assert forall|i1: int, j1: int|
        #![trigger s2[i1].entries@[j1]]
        0 <= i1 < s2.len() && 0 <= j1 < 512 implies pte_addr(s2[i1].entries@[j1]) == pte_addr(
        s[i1].entries@[j1]) && pte_present(s2[i1].entries@[j1]) == pte_present(s[i1].entries@[j1])
        && pte_huge(s2[i1].entries@[j1]) == pte_huge(s[i1].entries@[j1]) by {
        if i1 == i && j1 == j {
        } else if i1 == i {
            assert(s2[i1].entries@[j1] == s[i1].entries@[j1]);
        } else {
            assert(s2[i1] == s[i1]);
        }
    }
}

/// Writing a child pointer into an absent slot, aimed at an owned table
/// one level down that nothing else points at, preserves the forest shape
/// and its disjointness.
#[verifier::rlimit(50)]
#[verifier::spinoff_prover]
proof fn lemma_wf_after_childfill(
    s: Seq<TableFrame>,
    s2: Seq<TableFrame>,
    i: int,
    j: int,
    top: int,
    max: int,
    runs: Seq<Region>,
)
    requires
        forest_wf(s, top, max),
        slot_update(s, s2, i, j),
        !pte_present(s[i].entries@[j]),
        pte_present(s2[i].entries@[j]),
        !pte_huge(s2[i].entries@[j]),
        has_table(s, pte_addr(s2[i].entries@[j])),
        table_level(s, pte_addr(s2[i].entries@[j])) == s[i].level - 1,
        pte_addr(s2[i].entries@[j]) <= usize::MAX,
        forall|i1: int, j1: int|
            #![trigger s[i1].entries@[j1]]
            {
                let e = s[i1].entries@[j1];
                (0 <= i1 < s.len() && 0 <= j1 < 512 && s[i1].level > 0 && pte_present(e)
                    && !pte_huge(e)) ==> pte_addr(e) != pte_addr(s2[i].entries@[j])
            },
        tables_disjoint(s, runs),
    ensures
        forest_wf(s2, top, max),
        tables_disjoint(s2, runs),
{
    lemma_same_tables(s, s2, i);
    let nv = s2[i].entries@[j];
    assert forall|i1: int, j1: int|
        #![trigger s2[i1].entries@[j1]]
        0 <= i1 < s2.len() && 0 <= j1 < 512 implies s2[i1].entries@[j1] == (if i1 == i && j1 == j {
        nv
    } else {
        s[i1].entries@[j1]
    }) by {
        if i1 != i {
            assert(s2[i1] == s[i1]);
        }
    }
}

/// Appending a fresh, zero-filled table that nothing points at preserves
/// the forest shape and, once its frame has left the free list, the
/// disjointness.
#[verifier::rlimit(50)]
#[verifier::spinoff_prover]
proof fn lemma_wf_after_push(
    s: Seq<TableFrame>,
    s2: Seq<TableFrame>,
    top: int,
    max: int,
    runs: Seq<Region>,
)
    requires
        forest_wf(s, top, max),
        s2.len() == s.len() + 1,
        forall|k: int| 0 <= k < s.len() ==> s2[k] == s[k],
        !has_table(s, s2[s.len() as int].base as int),
        s2[s.len() as int].base as int % PAGE_SIZE as int == 0,
        s2[s.len() as int].base as int <= 0x000f_ffff_ffff_f000,
        s2[s.len() as int].entries@.len() == 512,
        0 <= s2[s.len() as int].level as int <= max,
        forall|q: int| 0 <= q < 512 ==> s2[s.len() as int].entries@[q] == 0u64,
        forall|i1: int, j1: int|
            #![trigger s[i1].entries@[j1]]
            {
                let e = s[i1].entries@[j1];
                (0 <= i1 < s.len() && 0 <= j1 < 512 && s[i1].level > 0 && pte_present(e)
                    && !pte_huge(e)) ==> pte_addr(e) != s2[s.len() as int].base as int
            },
        tables_disjoint(s, runs),
        !covered(runs, s2[s.len() as int].base as int),
    ensures
        forest_wf(s2, top, max),
        tables_disjoint(s2, runs),
{
    lemma_push_tables(s, s2);
    let ni = s.len() as int;
    assert(pte_present(0u64) == false && pte_huge(0u64) == false && pte_addr(0u64) == 0)
        by (bit_vector);
    assert forall|i1: int, j1: int|
        #![trigger s2[i1].entries@[j1]]
        0 <= i1 < s2.len() && 0 <= j1 < 512 implies (i1 < s.len() ==> s2[i1].entries@[j1]
        == s[i1].entries@[j1]) && (i1 == ni ==> !pte_present(s2[i1].entries@[j1])) by {
        if i1 < s.len() {
            assert(s2[i1] == s[i1]);
        } else {
            assert(s2[i1].entries@[j1] == 0u64);
        }
    }
}

/// Writing a leaf word into a table at the leaf level preserves the forest
/// shape and disjointness: a huge leaf never looks like a child pointer,
/// and entries of a bottom-level table are never consulted as parents.
#[verifier::rlimit(50)]
#[verifier::spinoff_prover]
proof fn lemma_wf_after_leafwrite(
    s: Seq<TableFrame>,
    s2: Seq<TableFrame>,
    i: int,
    j: int,
    top: int,
    max: int,
    runs: Seq<Region>,
)
    requires
        forest_wf(s, top, max),
        slot_update(s, s2, i, j),
        s[i].level > 0 ==> (pte_huge(s2[i].entries@[j]) || !pte_present(s2[i].entries@[j])),
        pte_addr(s2[i].entries@[j]) <= usize::MAX,
        tables_disjoint(s, runs),
    ensures
        forest_wf(s2, top, max),
        tables_disjoint(s2, runs),
{
    lemma_same_tables(s, s2, i);
    assert forall|i1: int, j1: int|
        #![trigger s2[i1].entries@[j1]]
        0 <= i1 < s2.len() && 0 <= j1 < 512 implies s2[i1].entries@[j1] == (if i1 == i && j1 == j {
        s2[i].entries@[j]
    } else {
        s[i1].entries@[j1]
    }) by {
        if i1 != i {
            assert(s2[i1] == s[i1]);
        }
    }
}

/// Writing into a table whose level is at or below `l` cannot move a walk
/// that asks for a table at `l`: the walk only consults tables above `l`.
proof fn lemma_walk_low_update(
    s: Seq<TableFrame>,
    s2: Seq<TableFrame>,
    i: int,
    j: int,
    top: int,
    max: int,
    v: usize,
    l: int,
)
    requires
        slot_update(s, s2, i, j),
        distinct_bases(s),
        has_table(s, top),
        table_level(s, top) == max,
        s[i].level as int <= l,
    ensures
        walk_base(s2, top, max, v, l) == walk_base(s, top, max, v, l),
    decreases max - l,
{
    lemma_same_tables(s, s2, i);
    if l >= max {
    } else {
        lemma_walk_low_update(s, s2, i, j, top, max, v, l + 1);
        lemma_index_bound(v, l + 1);
        let up = walk_base(s, top, max, v, l + 1);
        if up >= 0 && has_table(s, up) {
            lemma_walk_reaches_table(s, top, max, v, l + 1);
            assert(table_level(s, up) == l + 1);
            assert(up != s[i].base) by {
                lemma_table_lookup(s, i);
            }
            assert(table_entries(s2, up) == table_entries(s, up));
        }
    }
}

/// Installing a child pointer to a fresh all-zero table either leaves a
/// walk where it was, or turns a vacant walk into one that reaches the
/// fresh table, or leaves it vacant; it never blocks a walk.
#[verifier::rlimit(50)]
#[verifier::spinoff_prover]
proof fn lemma_walk_after_install(
    s: Seq<TableFrame>,
    s2: Seq<TableFrame>,
    i: int,
    j: int,
    nb: int,
    top: int,
    max: int,
    v: usize,
    l: int,
)
    requires
        slot_update(s, s2, i, j),
        distinct_bases(s),
        has_table(s, top),
        table_level(s, top) == max,
        !pte_present(s[i].entries@[j]),
        pte_present(s2[i].entries@[j]),
        !pte_huge(s2[i].entries@[j]),
        pte_addr(s2[i].entries@[j]) == nb,
        has_table(s, nb),
        table_level(s, nb) == s[i].level - 1,
        forall|q: int| 0 <= q < 512 ==> table_entries(s, nb)[q] == 0u64,
        0 <= l,
    ensures
        walk_base(s2, top, max, v, l) == walk_base(s, top, max, v, l) || (walk_base(
            s,
            top,
            max,
            v,
            l,
        ) == -1 && (walk_base(s2, top, max, v, l) == -1 || (walk_base(s2, top, max, v, l) == nb
            && l == table_level(s, nb)))),
    decreases max - l,
{
    lemma_same_tables(s, s2, i);
    assert(pte_present(0u64) == false) by (bit_vector);
    if l >= max {
    } else {
        lemma_walk_after_install(s, s2, i, j, nb, top, max, v, l + 1);
        lemma_index_bound(v, l + 1);
        let up = walk_base(s, top, max, v, l + 1);
        let up2 = walk_base(s2, top, max, v, l + 1);
        if up2 == up {
            if up >= 0 && has_table(s, up) {
                let e = table_entries(s, up)[spec_index_for(v, l + 1)];
                let e2 = table_entries(s2, up)[spec_index_for(v, l + 1)];
                if up == s[i].base && spec_index_for(v, l + 1) == j {
                    // The filled slot: the old walk was vacant here; the new
                    // one descends into the fresh table.
                    assert(!pte_present(e));
                    assert(e2 == s2[i].entries@[j]);
                    assert(walk_base(s, top, max, v, l) == -1);
                    lemma_walk_reaches_table(s, top, max, v, l + 1);
                    assert(table_level(s, up) == l + 1);
                    assert(s[i].level == l + 1);
                    assert(table_level(s, nb) == l);
                    assert(walk_base(s2, top, max, v, l) == nb);
                } else {
                    assert(e2 == e);
                }
            }
        } else {
            // The parent walk diverged: it reached the fresh table, whose
            // entries are all zero, so this level goes vacant on both
            // sides of the comparison.
            assert(up == -1 && (up2 == -1 || up2 == nb));
            if up2 == nb {
                let e2 = table_entries(s2, nb)[spec_index_for(v, l + 1)];
                assert(table_entries(s2, nb) == table_entries(s, nb));
                assert(e2 == 0u64);
                assert(walk_base(s2, top, max, v, l) == -1);
            }
        }
    }
}

/// Whether an entry already found at a leaf slot lets a mapping of
/// `expected` proceed: an absent walk or slot does, and so does the very
/// same translation (an idempotent remap); a differing present entry does
/// not.
pub open spec fn slot_accepts(entry: Option<u64>, expected: u64) -> bool {
    match entry {
        None => true,
        Some(e) => !pte_present(e) || e == expected,
    }
}

/// How one mapping step may change the view other pages have of level
/// `ml`: present entries stay word-for-word, absent walks gain at most
/// non-present entries, unblocked walks stay unblocked, and present
/// non-huge intermediates above `ml` stay present and non-huge.
pub open spec fn preserves_level(
    s1: Seq<TableFrame>,
    s2: Seq<TableFrame>,
    top: int,
    max: int,
    ml: int,
) -> bool {
    &&& forall|v2: usize|
        (#[trigger] entry_at(s1, top, max, v2, ml)) matches Some(e) ==> entry_at(
            s2,
            top,
            max,
            v2,
            ml,
        ) == Some(e)
    &&& forall|v2: usize|
        entry_at(s1, top, max, v2, ml) is None ==> ((#[trigger] entry_at(s2, top, max, v2, ml))
            is None || !pte_present(entry_at(s2, top, max, v2, ml)->Some_0))
    &&& forall|v2: usize|
        (#[trigger] walk_base(s1, top, max, v2, ml)) != -2 ==> walk_base(s2, top, max, v2, ml)
            != -2
    &&& forall|v2: usize, l2: int|
        ml < l2 <= max && #[trigger] intermediate_at(s1, top, max, v2, l2) ==> intermediate_at(
            s2,
            top,
            max,
            v2,
            l2,
        )
    &&& forall|v2: usize, l2: int|
        ml < l2 <= max && #[trigger] widened_at(s1, top, max, v2, l2) ==> widened_at(
            s2,
            top,
            max,
            v2,
            l2,
        )
}

proof fn lemma_preserves_refl(s: Seq<TableFrame>, top: int, max: int, ml: int)
    ensures
        preserves_level(s, s, top, max, ml),
{
}

proof fn lemma_preserves_trans(
    s1: Seq<TableFrame>,
    s2: Seq<TableFrame>,
    s3: Seq<TableFrame>,
    top: int,
    max: int,
    ml: int,
)
    requires
        preserves_level(s1, s2, top, max, ml),
        preserves_level(s2, s3, top, max, ml),
    ensures
        preserves_level(s1, s3, top, max, ml),
{
    assert forall|v2: usize|
        entry_at(s1, top, max, v2, ml) is None implies ((#[trigger] entry_at(s3, top, max, v2, ml))
        is None || !pte_present(entry_at(s3, top, max, v2, ml)->Some_0)) by {
        assert(entry_at(s2, top, max, v2, ml) is None || !pte_present(
            entry_at(s2, top, max, v2, ml)->Some_0,
        ));
    }
}

/// Widening one intermediate entry with the parent flags is invisible at
/// level `ml` and below the walk: every walk stays, every examined value
/// keeps its address, present and huge bits.
#[verifier::rlimit(60)]
#[verifier::spinoff_prover]
proof fn lemma_preserves_after_or(
    s: Seq<TableFrame>,
    s2: Seq<TableFrame>,
    i: int,
    j: int,
    top: int,
    max: int,
    ml: int,
)
    requires
        slot_update(s, s2, i, j),
        distinct_bases(s),
        has_table(s, top),
        table_level(s, top) == max,
        forall|k: int| 0 <= k < s.len() ==> (#[trigger] s[k]).level as int <= max,
        pte_addr(s2[i].entries@[j]) == pte_addr(s[i].entries@[j]),
        pte_present(s2[i].entries@[j]) == pte_present(s[i].entries@[j]),
        pte_huge(s2[i].entries@[j]) == pte_huge(s[i].entries@[j]),
        s2[i].entries@[j] & PARENT_FLAGS == PARENT_FLAGS,
        s[i].level as int > ml,
        0 <= ml <= max,
    ensures
        preserves_level(s, s2, top, max, ml),
{
    lemma_same_tables(s, s2, i);
    assert forall|v2: usize, l2: int| 0 <= l2 <= max implies walk_base(s2, top, max, v2, l2)
        == walk_base(s, top, max, v2, l2) by {
        lemma_walk_after_or(s, s2, i, j, top, max, v2, l2);
    }
    assert forall|v2: usize|
        (#[trigger] entry_at(s, top, max, v2, ml)) is Some implies entry_at(s2, top, max, v2, ml)
        == entry_at(s, top, max, v2, ml) by {
        let b = walk_base(s, top, max, v2, ml);
        lemma_walk_reaches_table(s, top, max, v2, ml);
        assert(table_level(s, b) == ml);
        assert(b != s[i].base) by {
            lemma_table_lookup(s, i);
        }
        assert(table_entries(s2, b) == table_entries(s, b));
    }
    assert forall|v2: usize, l2: int|
        ml < l2 <= max && #[trigger] intermediate_at(s, top, max, v2, l2) implies intermediate_at(
        s2,
        top,
        max,
        v2,
        l2,
    ) by {
        let b = walk_base(s, top, max, v2, l2);
        lemma_index_bound(v2, l2);
        if b == s[i].base && spec_index_for(v2, l2) == j {
            assert(table_entries(s2, b)[j] == s2[i].entries@[j]);
        } else if b == s[i].base {
            assert(table_entries(s2, b)[spec_index_for(v2, l2)] == table_entries(s, b)[
                spec_index_for(v2, l2)]);
        } else {
            assert(table_entries(s2, b) == table_entries(s, b));
        }
    }
    assert forall|v2: usize, l2: int|
        ml < l2 <= max && #[trigger] widened_at(s, top, max, v2, l2) implies widened_at(
        s2,
        top,
        max,
        v2,
        l2,
    ) by {
        let b = walk_base(s, top, max, v2, l2);
        lemma_index_bound(v2, l2);
        if b == s[i].base && spec_index_for(v2, l2) == j {
            assert(table_entries(s2, b)[j] == s2[i].entries@[j]);
        } else if b == s[i].base {
            assert(table_entries(s2, b)[spec_index_for(v2, l2)] == table_entries(s, b)[
                spec_index_for(v2, l2)]);
        } else {
            assert(table_entries(s2, b) == table_entries(s, b));
        }
    }
}

/// Appending a fresh table nothing points at changes no walk and no
/// examined entry at all.
#[verifier::rlimit(60)]
#[verifier::spinoff_prover]
proof fn lemma_preserves_after_push(
    s: Seq<TableFrame>,
    s2: Seq<TableFrame>,
    top: int,
    max: int,
    ml: int,
)
    requires
        s2.len() == s.len() + 1,
        forall|k: int| 0 <= k < s.len() ==> s2[k] == s[k],
        !has_table(s, s2[s.len() as int].base as int),
        forall|i: int, j: int|
            #![trigger s[i].entries@[j]]
            {
                let e = s[i].entries@[j];
                (0 <= i < s.len() && 0 <= j < 512 && s[i].level > 0 && pte_present(e) && !pte_huge(
                    e,
                )) ==> pte_addr(e) != s2[s.len() as int].base as int
            },
        has_table(s, top),
        table_level(s, top) == max,
        forall|i: int| 0 <= i < s.len() ==> (#[trigger] s[i]).entries@.len() == 512,
        forall|i: int| 0 <= i < s.len() ==> (#[trigger] s[i]).level as int <= max,
        distinct_bases(s),
        0 <= ml,
    ensures
        preserves_level(s, s2, top, max, ml),
        forall|v2: usize, l2: int|
            0 <= l2 <= max ==> #[trigger] entry_at(s2, top, max, v2, l2) == entry_at(
                s,
                top,
                max,
                v2,
                l2,
            ),
        forall|v2: usize, l2: int|
            0 <= l2 <= max ==> #[trigger] walk_base(s2, top, max, v2, l2) == walk_base(
                s,
                top,
                max,
                v2,
                l2,
            ),
{
    lemma_push_tables(s, s2);
    assert forall|v2: usize, l2: int| 0 <= l2 <= max implies #[trigger] walk_base(
        s2,
        top,
        max,
        v2,
        l2,
    ) == walk_base(s, top, max, v2, l2) by {
        lemma_walk_after_push(s, s2, top, max, v2, l2);
    }
    assert forall|v2: usize, l2: int| 0 <= l2 <= max implies #[trigger] entry_at(
        s2,
        top,
        max,
        v2,
        l2,
    ) == entry_at(s, top, max, v2, l2) by {
        let b = walk_base(s, top, max, v2, l2);
        if b >= 0 && has_table(s, b) {
            assert(table_entries(s2, b) == table_entries(s, b));
        } else if b >= 0 {
            assert(b != s2[s.len() as int].base as int);
        }
    }
}

/// Installing a child pointer to a fresh all-zero table keeps every
/// present view of level `ml` and may only extend vacant walks with
/// non-present entries.
#[verifier::rlimit(100)]
#[verifier::spinoff_prover]
proof fn lemma_preserves_after_install(
    s: Seq<TableFrame>,
    s2: Seq<TableFrame>,
    i: int,
    j: int,
    nb: int,
    top: int,
    max: int,
    ml: int,
)
    requires
        slot_update(s, s2, i, j),
        distinct_bases(s),
        has_table(s, top),
        table_level(s, top) == max,
        !pte_present(s[i].entries@[j]),
        pte_present(s2[i].entries@[j]),
        !pte_huge(s2[i].entries@[j]),
        pte_addr(s2[i].entries@[j]) == nb,
        has_table(s, nb),
        table_level(s, nb) == s[i].level - 1,
        forall|q: int| 0 <= q < 512 ==> table_entries(s, nb)[q] == 0u64,
        s[i].level as int > ml,
        0 <= ml <= max,
    ensures
        preserves_level(s, s2, top, max, ml),
{
    lemma_same_tables(s, s2, i);
    assert(pte_present(0u64) == false) by (bit_vector);
    assert forall|v2: usize|
        (#[trigger] entry_at(s, top, max, v2, ml)) is Some implies entry_at(s2, top, max, v2, ml)
        == entry_at(s, top, max, v2, ml) by {
        lemma_walk_after_install(s, s2, i, j, nb, top, max, v2, ml);
        let b = walk_base(s, top, max, v2, ml);
        lemma_walk_reaches_table(s, top, max, v2, ml);
        assert(walk_base(s2, top, max, v2, ml) == b);
        assert(table_level(s, b) == ml);
        assert(b != s[i].base) by {
            lemma_table_lookup(s, i);
        }
        assert(table_entries(s2, b) == table_entries(s, b));
    }
    assert forall|v2: usize|
        entry_at(s, top, max, v2, ml) is None implies ((#[trigger] entry_at(s2, top, max, v2, ml))
        is None || !pte_present(entry_at(s2, top, max, v2, ml)->Some_0)) by {
        lemma_walk_after_install(s, s2, i, j, nb, top, max, v2, ml);
        let b2 = walk_base(s2, top, max, v2, ml);
        if b2 >= 0 && has_table(s2, b2) {
            if b2 == nb {
                lemma_index_bound(v2, ml);
                assert(table_entries(s2, nb) == table_entries(s, nb));
                assert(table_entries(s2, b2)[spec_index_for(v2, ml)] == 0u64);
            } else {
                let b = walk_base(s, top, max, v2, ml);
                assert(b == b2);
                assert(has_table(s, b2));
            }
        }
    }
    assert forall|v2: usize|
        (#[trigger] walk_base(s, top, max, v2, ml)) != -2 implies walk_base(s2, top, max, v2, ml)
            != -2 by {
        lemma_walk_after_install(s, s2, i, j, nb, top, max, v2, ml);
    }
    assert forall|v2: usize, l2: int|
        ml < l2 <= max && #[trigger] intermediate_at(s, top, max, v2, l2) implies intermediate_at(
        s2,
        top,
        max,
        v2,
        l2,
    ) by {
        lemma_walk_after_install(s, s2, i, j, nb, top, max, v2, l2);
        let b = walk_base(s, top, max, v2, l2);
        lemma_walk_reaches_table(s, top, max, v2, l2);
        assert(walk_base(s2, top, max, v2, l2) == b);
        lemma_index_bound(v2, l2);
        if b == s[i].base && spec_index_for(v2, l2) == j {
            assert(!pte_present(table_entries(s, b)[j]));
        } else if b == s[i].base {
            assert(table_entries(s2, b)[spec_index_for(v2, l2)] == table_entries(s, b)[
                spec_index_for(v2, l2)]);
        } else {
            assert(table_entries(s2, b) == table_entries(s, b));
        }
    }
    assert forall|v2: usize, l2: int|
        ml < l2 <= max && #[trigger] widened_at(s, top, max, v2, l2) implies widened_at(
        s2,
        top,
        max,
        v2,
        l2,
    ) by {
        lemma_walk_after_install(s, s2, i, j, nb, top, max, v2, l2);
        let b = walk_base(s, top, max, v2, l2);
        lemma_walk_reaches_table(s, top, max, v2, l2);
        assert(walk_base(s2, top, max, v2, l2) == b);
        lemma_index_bound(v2, l2);
        if b == s[i].base && spec_index_for(v2, l2) == j {
            assert(!pte_present(table_entries(s, b)[j]));
        } else if b == s[i].base {
            assert(table_entries(s2, b)[spec_index_for(v2, l2)] == table_entries(s, b)[
                spec_index_for(v2, l2)]);
        } else {
            assert(table_entries(s2, b) == table_entries(s, b));
        }
    }
}

impl Hat {
    /// Insert one translation: point the walk for `vk` at level `ml` to
    /// physical address `pk` with the given leaf flags, creating the
    /// intermediate tables on the way down and widening the ones already
    /// there. Reports `AlreadyMapped` when a different present translation
    /// is in the way; an identical remap is an idempotent no-op.
    #[verifier::rlimit(100)]
    #[verifier::spinoff_prover]
    fn map_one(
        &mut self,
        pmm: &mut Pmm,
        vk: usize,
        pk: usize,
        ml: usize,
        leaf_flags: u64,
    ) -> (r: Result<(), Error>)
        requires
            old(self).wf(),
            old(pmm).wf(),
            old(self).disjoint_from(old(pmm)),
            pmm_below_pte_range(old(pmm).runs()),
            ml <= 2,
            old(self).walk(vk, ml as int) >= 0 || frame_count(old(pmm).runs()) >= old(
                self,
            ).spec_max() - ml,
            pk as int % PAGE_SIZE as int == 0,
            pk as int <= 0x000f_ffff_ffff_f000,
            leaf_flags & PTE_ADDR_MASK == 0,
            pte_present(leaf_flags),
            ml >= 1 ==> pte_huge(leaf_flags),
            old(self).walk(vk, ml as int) != -2,
        ensures
            final(self).wf(),
            final(pmm).wf(),
            final(self).disjoint_from(final(pmm)),
            pmm_below_pte_range(final(pmm).runs()),
            final(self).spec_mmu() == old(self).spec_mmu(),
            final(self).spec_top() == old(self).spec_top(),
            final(self).spec_pcid() == old(self).spec_pcid(),
            final(self).spec_cr3() == old(self).spec_cr3(),
            final(self).spec_mapped_pages() == old(self).spec_mapped_pages(),
            old(self).tables_seq().len() <= final(self).tables_seq().len(),
            forall|i: int|
                0 <= i < old(self).tables_seq().len() ==> (#[trigger] final(self).tables_seq()[i]).base
                    == old(self).tables_seq()[i].base && final(self).tables_seq()[i].level == old(self).tables_seq()[i].level,
            frame_count(final(pmm).runs()) <= frame_count(old(pmm).runs()),
            frame_count(final(pmm).runs()) >= frame_count(old(pmm).runs()) - (old(self).spec_max() - ml),
            forall|x: int| #[trigger] covered(final(pmm).runs(), x) ==> covered(old(pmm).runs(), x),
            old(self).walk(vk, ml as int) >= 0 ==> final(pmm).runs() == old(pmm).runs(),
            r is Ok <==> slot_accepts(old(self).entry(vk, ml as int), (pk as u64) | leaf_flags),
            r is Ok ==> final(self).entry(vk, ml as int) == Some((pk as u64) | leaf_flags),
            forall|l2: int|
                ml < l2 <= final(self).spec_max() && r is Ok ==> #[trigger] intermediate_at(
                    final(self).tables_seq(),
                    final(self).spec_top(),
                    final(self).spec_max(),
                    vk,
                    l2,
                ),
            forall|l2: int|
                ml < l2 <= final(self).spec_max() && r is Ok ==> #[trigger] widened_at(
                    final(self).tables_seq(),
                    final(self).spec_top(),
                    final(self).spec_max(),
                    vk,
                    l2,
                ),
            r is Err ==> ({
                let e = old(self).entry(vk, ml as int)->Some_0;
                &&& old(self).entry(vk, ml as int) is Some
                &&& pte_present(e)
                &&& e != ((pk as u64) | leaf_flags)
                &&& r->Err_0 matches Error::AlreadyMapped(p) && p.spec_value() == pte_addr(e)
                &&& final(self).entry(vk, ml as int) == old(self).entry(vk, ml as int)
            }),
            forall|v2: usize|
                !same_page(v2, vk, ml as int, final(self).spec_max()) && (#[trigger] old(self).entry(
                    v2,
                    ml as int,
                )) is Some ==> final(self).entry(v2, ml as int) == old(self).entry(v2, ml as int),
            forall|v2: usize|
                !same_page(v2, vk, ml as int, final(self).spec_max()) && (#[trigger] old(self).entry(
                    v2,
                    ml as int,
                )) is None ==> (final(self).entry(v2, ml as int) is None || !pte_present(
                    final(self).entry(v2, ml as int)->Some_0,
                )),
            forall|v2: usize|
                (#[trigger] old(self).walk(v2, ml as int)) != -2 ==> final(self).walk(v2, ml as int)
                    != -2,
            forall|v2: usize, l2: int|
                ml < l2 <= final(self).spec_max() && #[trigger] intermediate_at(
                    old(self).tables_seq(),
                    old(self).spec_top(),
                    old(self).spec_max(),
                    v2,
                    l2,
                ) ==> intermediate_at(
                    final(self).tables_seq(),
                    final(self).spec_top(),
                    final(self).spec_max(),
                    v2,
                    l2,
                ),
            forall|v2: usize, l2: int|
                ml < l2 <= final(self).spec_max() && #[trigger] widened_at(
                    old(self).tables_seq(),
                    old(self).spec_top(),
                    old(self).spec_max(),
                    v2,
                    l2,
                ) ==> widened_at(
                    final(self).tables_seq(),
                    final(self).spec_top(),
                    final(self).spec_max(),
                    v2,
                    l2,
                ),
    {
        let ghost s_old = self.tables_seq();
        let ghost rs_old = pmm.runs();
        let ghost top = self.spec_top();
        let ghost maxg = self.spec_max();
        let expected: u64 = (pk as u64) | leaf_flags;
        proof {
            lemma_align_bits(pk as u64);
            lemma_pte_pack(pk as u64, leaf_flags);
            lemma_preserves_refl(s_old, top, maxg, ml as int);
        }
        let max = self.mmu.max_level as usize;
        let mut l: usize = max;
        let mut ti: usize = match self.find_table(self.top_level as u64) {
            Some(i) => i,
            None => {
                proof {
                    assert(false);
                }
                0
            },
        };
        proof {
            lemma_table_lookup(s_old, ti as int);
        }
        while l > ml
            invariant
                ml <= l <= maxg,
                ml <= 2,
                self.wf(),
                pmm.wf(),
                self.disjoint_from(pmm),
                pmm_below_pte_range(pmm.runs()),
                self.spec_mmu() == old(self).spec_mmu(),
                self.spec_top() == top,
                self.spec_max() == maxg,
                self.spec_pcid() == old(self).spec_pcid(),
                self.spec_cr3() == old(self).spec_cr3(),
                self.spec_mapped_pages() == old(self).spec_mapped_pages(),
                s_old == old(self).tables_seq(),
                rs_old == old(pmm).runs(),
                top == old(self).spec_top(),
                maxg == old(self).spec_max(),
                s_old.len() <= self.tables_seq().len(),
                forall|i: int|
                    0 <= i < s_old.len() ==> (#[trigger] self.tables_seq()[i]).base
                        == s_old[i].base && self.tables_seq()[i].level == s_old[i].level,
                frame_count(pmm.runs()) <= frame_count(rs_old),
                frame_count(pmm.runs()) >= frame_count(rs_old) - (maxg - l),
                old(self).walk(vk, ml as int) < 0 ==> frame_count(rs_old) >= maxg - ml,
                old(self).walk(vk, ml as int) >= 0 ==> pmm.runs() == rs_old,
                forall|x: int| #[trigger] covered(pmm.runs(), x) ==> covered(rs_old, x),
                preserves_level(s_old, self.tables_seq(), top, maxg, ml as int),
                (ti as int) < self.tables_seq().len(),
                self.tables_seq()[ti as int].base as int == self.walk(vk, l as int),
                self.tables_seq()[ti as int].level == l,
                self.walk(vk, l as int) >= 0,
                self.walk(vk, ml as int) != -2,
                forall|l2: int|
                    l < l2 <= maxg ==> #[trigger] widened_at(
                        self.tables_seq(),
                        top,
                        maxg,
                        vk,
                        l2,
                    ),
            decreases l,
        {
            let ghost pre = self.tables_seq();
            let ghost pre_runs = pmm.runs();
            let idx = table_index(vk, l);
            let e = self.tables[ti].entries[idx];
            proof {
                lemma_table_lookup(pre, ti as int);
                assert(table_entries(pre, self.walk(vk, l as int))[idx as int] == e);
                assert(self.entry(vk, l as int) == Some(e));
            }
            if e & PTE_PRESENT == 0 {
                // Absent: allocate a fresh zeroed child table and install it.
                // The caller's path, then, was not complete, so the frame
                // budget is available.
                proof {
                    assert(!pte_present(e));
                    assert(walk_base(pre, top, maxg, vk, l as int - 1) == -1);
                    lemma_walk_propagates(pre, top, maxg, vk, ml as int, l as int - 1);
                    assert(self.walk(vk, ml as int) == -1);
                    if old(self).walk(vk, ml as int) >= 0 {
                        lemma_walk_reaches_table(s_old, top, maxg, vk, ml as int);
                        assert(old(self).entry(vk, ml as int) is Some);
                        assert(self.entry(vk, ml as int) is Some);
                        assert(false);
                    }
                    if pmm.runs().len() == 0 {
                        assert(frame_count(pmm.runs()) == 0);
                    }
                    assert(pmm.runs().last().len >= 1);
                    assert(find_fit(pmm.runs(), 1) == pmm.runs().len() - 1);
                }
                let b = match alloc_frames(pmm, 1) {
                    Some(a) => a.to_usize(),
                    None => {
                        proof {
                            assert(false);
                        }
                        0
                    },
                };
                proof {
                    let f = find_fit(pre_runs, 1int);
                    assert(region_wf(pre_runs[f]));
                    assert((pre_runs[f].len - 1) * (PAGE_SIZE as int) + 1 * (PAGE_SIZE as int)
                        == pre_runs[f].len * (PAGE_SIZE as int)) by (nonlinear_arith);
                    assert(b + PAGE_SIZE == region_end(pre_runs[f]));
                    assert(b as int <= 0x000f_ffff_ffff_f000);
                    // The fresh frame was free, so it is no owned table and
                    // no stale pointer targets it.
                    assert(covered(pre_runs, b as int));
                    assert(!has_table(pre, b as int)) by {
                        if has_table(pre, b as int) {
                            let k = choose|k: int|
                                0 <= k < pre.len() && (#[trigger] pre[k]).base == b as int;
                            assert(!covered(pre_runs, pre[k].base as int));
                        }
                    }
                    assert forall|i1: int, j1: int|
                        #![trigger pre[i1].entries@[j1]]
                        {
                            let e1 = pre[i1].entries@[j1];
                            (0 <= i1 < pre.len() && 0 <= j1 < 512 && pre[i1].level > 0
                                && pte_present(e1) && !pte_huge(e1))
                        } implies pte_addr(pre[i1].entries@[j1]) != b as int by {
                        let e1 = pre[i1].entries@[j1];
                        if has_table(pre, pte_addr(e1)) {
                            let k = choose|k: int|
                                0 <= k < pre.len() && (#[trigger] pre[k]).base == pte_addr(e1);
                            assert(!covered(pre_runs, pre[k].base as int));
                        } else {
                            assert(!covered(pre_runs, pte_addr(e1)));
                        }
                    }
                }
                self.tables.push(TableFrame { base: b, level: l - 1, entries: zero_table() });
                let ci = self.tables.len() - 1;
                let ghost mid = self.tables_seq();
                proof {
                    assert(mid[mid.len() - 1].base == b);
                    assert(forall|q: int|
                        0 <= q < 512 ==> #[trigger] mid[mid.len() - 1].entries@[q] == 0u64);
                    lemma_wf_after_push(pre, mid, top, maxg, pmm.runs());
                    lemma_preserves_after_push(pre, mid, top, maxg, ml as int);
                    lemma_preserves_trans(s_old, pre, mid, top, maxg, ml as int);
                    lemma_push_tables(pre, mid);
                }
                let e2 = (b as u64) | (PTE_PRESENT | PARENT_FLAGS);
                proof {
                    lemma_align_bits(b as u64);
                    assert((PTE_PRESENT | PARENT_FLAGS) & PTE_ADDR_MASK == 0 && (PTE_PRESENT
                        | PARENT_FLAGS) & PTE_PRESENT != 0 && (PTE_PRESENT | PARENT_FLAGS)
                        & PTE_HUGE == 0 && (PTE_PRESENT | PARENT_FLAGS) & PARENT_FLAGS
                        == PARENT_FLAGS) by (bit_vector);
                    lemma_pte_pack(b as u64, PTE_PRESENT | PARENT_FLAGS);
                    assert(pte_addr(e2) == b && pte_present(e2) && !pte_huge(e2));
                    assert(parent_widened(e2));
                }
                self.tables[ti].entries[idx] = e2;
                let ghost post = self.tables_seq();
                proof {
                    assert(slot_update(mid, post, ti as int, idx as int));
                    assert(table_entries(mid, mid[ti as int].base as int) == mid[ti as int].entries@)
                        by {
                        lemma_table_lookup(mid, ti as int);
                    }
                    assert(!pte_present(mid[ti as int].entries@[idx as int]));
                    assert(has_table(mid, b as int) && table_level(mid, b as int) == l - 1) by {
                        lemma_table_lookup(mid, mid.len() - 1);
                    }
                    assert(forall|q: int|
                        0 <= q < 512 ==> table_entries(mid, b as int)[q] == 0u64) by {
                        lemma_table_lookup(mid, mid.len() - 1);
                    }
                    lemma_wf_after_childfill(mid, post, ti as int, idx as int, top, maxg,
                        pmm.runs());
                    lemma_preserves_after_install(mid, post, ti as int, idx as int, b as int, top,
                        maxg, ml as int);
                    lemma_preserves_trans(s_old, mid, post, top, maxg, ml as int);
                    lemma_same_tables(mid, post, ti as int);
                    // The walk for `vk` now descends into the fresh table.
                    assert(walk_base(post, top, maxg, vk, l as int) == walk_base(
                        mid,
                        top,
                        maxg,
                        vk,
                        l as int,
                    )) by {
                        lemma_walk_low_update(mid, post, ti as int, idx as int, top, maxg, vk,
                            l as int);
                    }
                    assert(table_entries(post, post[ti as int].base as int)[idx as int] == e2) by {
                        lemma_table_lookup(post, ti as int);
                    }
                    assert(walk_base(post, top, maxg, vk, l as int - 1) == b as int);
                    assert(post[ci as int].base == b && post[ci as int].level == l - 1);
                    assert(self.walk(vk, ml as int) != -2);
                    assert forall|l2: int|
                        l - 1 < l2 <= maxg implies #[trigger] widened_at(
                        post,
                        top,
                        maxg,
                        vk,
                        l2,
                    ) by {
                        if l2 == l {
                            assert(entry_at(post, top, maxg, vk, l as int) == Some(e2));
                        } else {
                            assert(widened_at(pre, top, maxg, vk, l2));
                            assert(widened_at(mid, top, maxg, vk, l2));
                            lemma_preserves_after_install(mid, post, ti as int, idx as int,
                                b as int, top, maxg, ml as int);
                        }
                    }
                }
                ti = ci;
            } else {
                // Present: the entry must be a sound child pointer, or the
                // walk for `vk` would be blocked, which the caller ruled
                // out.
                proof {
                    assert(pte_present(e));
                    if pte_huge(e) || !(has_table(pre, pte_addr(e)) && table_level(
                        pre,
                        pte_addr(e),
                    ) == l - 1) {
                        assert(walk_base(pre, top, maxg, vk, l as int - 1) == -2);
                        lemma_walk_propagates(pre, top, maxg, vk, ml as int, l as int - 1);
                        assert(false);
                    }
                }
                let e2 = e | PARENT_FLAGS;
                proof {
                    lemma_parent_or(e);
                }
                self.tables[ti].entries[idx] = e2;
                let ghost post = self.tables_seq();
                proof {
                    assert(slot_update(pre, post, ti as int, idx as int));
                    lemma_wf_after_or(pre, post, ti as int, idx as int, top, maxg, pmm.runs());
                    lemma_preserves_after_or(pre, post, ti as int, idx as int, top, maxg,
                        ml as int);
                    lemma_preserves_trans(s_old, pre, post, top, maxg, ml as int);
                    lemma_same_tables(pre, post, ti as int);
                    assert forall|v2: usize, l2: int| 0 <= l2 <= maxg implies walk_base(
                        post,
                        top,
                        maxg,
                        v2,
                        l2,
                    ) == walk_base(pre, top, maxg, v2, l2) by {
                        lemma_walk_after_or(pre, post, ti as int, idx as int, top, maxg, v2, l2);
                    }
                    assert(table_entries(post, post[ti as int].base as int)[idx as int] == e2) by {
                        lemma_table_lookup(post, ti as int);
                    }
                    assert(walk_base(post, top, maxg, vk, l as int - 1) == pte_addr(e));
                    assert(self.walk(vk, ml as int) != -2);
                    assert forall|l2: int|
                        l - 1 < l2 <= maxg implies #[trigger] widened_at(
                        post,
                        top,
                        maxg,
                        vk,
                        l2,
                    ) by {
                        if l2 == l {
                            assert(entry_at(post, top, maxg, vk, l as int) == Some(e2));
                            assert(parent_widened(e2));
                        } else {
                            assert(widened_at(pre, top, maxg, vk, l2));
                            lemma_preserves_after_or(pre, post, ti as int, idx as int, top, maxg,
                                ml as int);
                        }
                    }
                }
                let child = e2 & PTE_ADDR_MASK;
                proof {
                    assert(child as int == pte_addr(e));
                    assert(has_table(post, pte_addr(e)));
                }
                ti = match self.find_table(child) {
                    Some(ci) => ci,
                    None => {
                        proof {
                            assert(false);
                        }
                        0
                    },
                };
                proof {
                    lemma_table_lookup(post, ti as int);
                    assert(post[ti as int].base as int == pte_addr(e));
                    assert(post[ti as int].level as int == table_level(post, pte_addr(e)));
                    assert(table_level(post, pte_addr(e)) == table_level(pre, pte_addr(e)));
                }
            }
            l -= 1;
        }

        // Leaf level: check for a conflicting translation and write.
        let ghost pre = self.tables_seq();
        let idx = table_index(vk, ml);
        let e = self.tables[ti].entries[idx];
        proof {
            lemma_table_lookup(pre, ti as int);
            assert(table_entries(pre, self.walk(vk, ml as int))[idx as int] == e);
            assert(self.entry(vk, ml as int) == Some(e));
            // Tie the current slot back to the entry the caller saw.
            if old(self).entry(vk, ml as int) is Some {
                assert(self.entry(vk, ml as int) == old(self).entry(vk, ml as int));
            } else {
                assert(!pte_present(e));
            }
        }
        if e & PTE_PRESENT != 0 && e != expected {
            let pa = e & PTE_ADDR_MASK;
            proof {
                assert(pte_present(e));
                assert(pa as int == pte_addr(e));
                assert(pte_addr(pre[ti as int].entries@[idx as int]) <= usize::MAX);
            }
            return Err(Error::AlreadyMapped(PhysAddr::new(pa as usize)));
        }
        proof {
            assert(!pte_present(e) || e == expected);
            assert(slot_accepts(old(self).entry(vk, ml as int), expected));
        }
        self.tables[ti].entries[idx] = expected;
        let ghost post = self.tables_seq();
        proof {
            assert(slot_update(pre, post, ti as int, idx as int));
            assert(pre[ti as int].level == ml);
            lemma_wf_after_leafwrite(pre, post, ti as int, idx as int, top, maxg, pmm.runs());
            lemma_same_tables(pre, post, ti as int);
            assert forall|v2: usize, l2: int| ml <= l2 <= maxg implies walk_base(
                post,
                top,
                maxg,
                v2,
                l2,
            ) == walk_base(pre, top, maxg, v2, l2) by {
                lemma_walk_low_update(pre, post, ti as int, idx as int, top, maxg, v2, l2);
            }
            assert(table_entries(post, post[ti as int].base as int)[idx as int] == expected) by {
                lemma_table_lookup(post, ti as int);
            }
            assert(self.entry(vk, ml as int) == Some(expected));
            // Other pages keep their view of the leaf level.
            let wb = pre[ti as int].base as int;
            assert forall|v2: usize|
                !same_page(v2, vk, ml as int, maxg) && (#[trigger] entry_at(
                    s_old,
                    top,
                    maxg,
                    v2,
                    ml as int,
                )) is Some implies entry_at(post, top, maxg, v2, ml as int) == entry_at(
                s_old,
                top,
                maxg,
                v2,
                ml as int,
            ) by {
                assert(entry_at(pre, top, maxg, v2, ml as int) == entry_at(
                    s_old,
                    top,
                    maxg,
                    v2,
                    ml as int,
                ));
                lemma_distinct_leaf_slots(pre, top, maxg, v2, vk, ml as int);
                lemma_index_bound(v2, ml as int);
                let b2 = walk_base(pre, top, maxg, v2, ml as int);
                if b2 == wb {
                    assert(spec_index_for(v2, ml as int) != idx as int);
                    assert(table_entries(post, b2)[spec_index_for(v2, ml as int)]
                        == table_entries(pre, b2)[spec_index_for(v2, ml as int)]);
                } else {
                    assert(table_entries(post, b2) == table_entries(pre, b2));
                }
            }
            assert forall|v2: usize|
                !same_page(v2, vk, ml as int, maxg) && (#[trigger] entry_at(
                    s_old,
                    top,
                    maxg,
                    v2,
                    ml as int,
                )) is None implies (entry_at(post, top, maxg, v2, ml as int) is None || !pte_present(
                entry_at(post, top, maxg, v2, ml as int)->Some_0,
            )) by {
                let cur = entry_at(pre, top, maxg, v2, ml as int);
                assert(cur is None || !pte_present(cur->Some_0));
                let b2 = walk_base(pre, top, maxg, v2, ml as int);
                if b2 >= 0 && has_table(pre, b2) {
                    lemma_distinct_leaf_slots(pre, top, maxg, v2, vk, ml as int);
                    lemma_index_bound(v2, ml as int);
                    if b2 == wb {
                        assert(spec_index_for(v2, ml as int) != idx as int);
                        assert(table_entries(post, b2)[spec_index_for(v2, ml as int)]
                            == table_entries(pre, b2)[spec_index_for(v2, ml as int)]);
                    } else {
                        assert(table_entries(post, b2) == table_entries(pre, b2));
                    }
                }
            }
            assert forall|v2: usize, l2: int|
                ml < l2 <= maxg && #[trigger] intermediate_at(s_old, top, maxg, v2, l2) implies
                intermediate_at(post, top, maxg, v2, l2) by {
                assert(intermediate_at(pre, top, maxg, v2, l2));
                let b2 = walk_base(pre, top, maxg, v2, l2);
                lemma_walk_reaches_table(pre, top, maxg, v2, l2);
                assert(b2 != wb) by {
                    lemma_table_lookup(pre, ti as int);
                }
                assert(table_entries(post, b2) == table_entries(pre, b2));
            }
            assert forall|v2: usize, l2: int|
                ml < l2 <= maxg && #[trigger] widened_at(s_old, top, maxg, v2, l2) implies
                widened_at(post, top, maxg, v2, l2) by {
                assert(widened_at(pre, top, maxg, v2, l2));
                let b2 = walk_base(pre, top, maxg, v2, l2);
                lemma_walk_reaches_table(pre, top, maxg, v2, l2);
                assert(b2 != wb) by {
                    lemma_table_lookup(pre, ti as int);
                }
                assert(table_entries(post, b2) == table_entries(pre, b2));
            }
            assert forall|l2: int| ml < l2 <= maxg implies #[trigger] widened_at(
                post,
                top,
                maxg,
                vk,
                l2,
            ) by {
                assert(widened_at(pre, top, maxg, vk, l2));
                let b2 = walk_base(pre, top, maxg, vk, l2);
                lemma_walk_reaches_table(pre, top, maxg, vk, l2);
                assert(b2 != wb) by {
                    lemma_table_lookup(pre, ti as int);
                }
                assert(table_entries(post, b2) == table_entries(pre, b2));
            }
            assert forall|l2: int| ml < l2 <= maxg implies #[trigger] intermediate_at(
                post,
                top,
                maxg,
                vk,
                l2,
            ) by {
                assert(widened_at(post, top, maxg, vk, l2));
            }
        }
        Ok(())
    }
}

/// How many pages of the range still lack a complete walk to their leaf
/// level: only these can make `map_pages` allocate intermediate tables, so
/// only these need a frame budget. A page whose walk already reaches a
/// table at the leaf level allocates nothing.
pub open spec fn unready_pages(
    s: Seq<TableFrame>,
    top: int,
    max: int,
    virt: int,
    ml: int,
    ps: int,
    lo: int,
    hi: int,
) -> int
    decreases hi - lo,
{
    if lo >= hi {
        0
    } else {
        (if walk_base(s, top, max, (virt + lo * ps) as usize, ml) < 0 {
            1int
        } else {
            0int
        }) + unready_pages(s, top, max, virt, ml, ps, lo + 1, hi)
    }
}

/// The unready count is nonnegative and splits at any midpoint.
pub proof fn lemma_unready_split(
    s: Seq<TableFrame>,
    top: int,
    max: int,
    virt: int,
    ml: int,
    ps: int,
    lo: int,
    mid: int,
    hi: int,
)
    requires
        lo <= mid <= hi,
    ensures
        unready_pages(s, top, max, virt, ml, ps, lo, hi) == unready_pages(
            s,
            top,
            max,
            virt,
            ml,
            ps,
            lo,
            mid,
        ) + unready_pages(s, top, max, virt, ml, ps, mid, hi),
        unready_pages(s, top, max, virt, ml, ps, lo, hi) >= 0,
    decreases mid - lo,
{
    if lo < mid {
        lemma_unready_split(s, top, max, virt, ml, ps, lo + 1, mid, hi);
    } else {
        lemma_unready_nonneg(s, top, max, virt, ml, ps, lo, hi);
    }
}

/// The unready count is never negative.
pub proof fn lemma_unready_nonneg(
    s: Seq<TableFrame>,
    top: int,
    max: int,
    virt: int,
    ml: int,
    ps: int,
    lo: int,
    hi: int,
)
    ensures
        unready_pages(s, top, max, virt, ml, ps, lo, hi) >= 0,
    decreases hi - lo,
{
    if lo < hi {
        lemma_unready_nonneg(s, top, max, virt, ml, ps, lo + 1, hi);
    }
}

/// A range whose every page already walks to its leaf level needs no
/// frames at all.
pub proof fn lemma_unready_zero(
    s: Seq<TableFrame>,
    top: int,
    max: int,
    virt: int,
    ml: int,
    ps: int,
    lo: int,
    hi: int,
)
    requires
        forall|k: int|
            lo <= k < hi ==> #[trigger] walk_base(s, top, max, (virt + k * ps) as usize, ml) >= 0,
    ensures
        unready_pages(s, top, max, virt, ml, ps, lo, hi) == 0,
    decreases hi - lo,
{
    if lo < hi {
        lemma_unready_zero(s, top, max, virt, ml, ps, lo + 1, hi);
    }
}

/// The leaf flags a mapping request resolves to: the protection map entry,
/// the per-level bits, and the present bit.
pub open spec fn spec_leaf_flags(mmu: MmuInfo, prot: Prot, ml: int) -> u64 {
    mmu.protmap.view()[prot.spec_bits()] | spec_level_flags(ml) | PTE_PRESENT
}

/// The leaf flags of any well-formed configuration stay out of the address
/// bits, carry the present bit, and carry the huge bit at the huge levels.
pub proof fn lemma_leaf_flags_shape(mmu: MmuInfo, prot: Prot, ml: int)
    requires
        mmu.wf(),
        prot.wf(),
        0 <= ml <= 2,
    ensures
        spec_leaf_flags(mmu, prot, ml) & PTE_ADDR_MASK == 0,
        pte_present(spec_leaf_flags(mmu, prot, ml)),
        ml >= 1 ==> pte_huge(spec_leaf_flags(mmu, prot, ml)),
{
    assert((spec_level_flags(ml) == 0 || spec_level_flags(ml) == PTE_HUGE));
    let pm = mmu.protmap.view()[prot.spec_bits()];
    assert(pm == spec_prot_flags(mmu.nx_bit, prot.spec_bits()));
    let w: u64 = if (prot.spec_bits() / 2) % 2 == 1 {
        PTE_WRITE
    } else {
        0
    };
    let x: u64 = if (prot.spec_bits() / 4) % 2 == 1 {
        0
    } else {
        mmu.nx_bit
    };
    let u: u64 = if (prot.spec_bits() / 8) % 2 == 1 {
        PTE_USER
    } else {
        0
    };
    assert(pm == (w | x | u));
    assert forall|hb: u64| hb == 0 || hb == PTE_HUGE implies ((w | x | u) | hb) & PTE_ADDR_MASK
        == 0 && (((w | x | u) | hb) | PTE_PRESENT) & PTE_ADDR_MASK == 0 && pte_present(((w | x | u)
        | hb) | PTE_PRESENT) && (hb == PTE_HUGE ==> pte_huge((((w | x | u) | hb)
        | PTE_PRESENT))) by {
        assert(((w | x | u) | hb) & 0x000f_ffff_ffff_f000 == 0 && (((w | x | u) | hb) | 1u64)
            & 0x000f_ffff_ffff_f000 == 0 && (((w | x | u) | hb) | 1u64) & 1u64 != 0 && (hb
            == 0x80u64 ==> (((w | x | u) | hb) | 1u64) & 0x80u64 != 0)) by (bit_vector)
            requires
                (w == 0 || w == 0x2u64) && (x == 0 || x == 0x8000_0000_0000_0000u64) && (u == 0
                    || u == 0x4u64) && (hb == 0 || hb == 0x80u64),
        ;
    }
}

/// Two distinct aligned pages drawn from one canonical side of the address
/// space differ in at least one table index, because the index fields,
/// the in-page offset, and the sign-extension bits together cover the
/// whole word.
#[verifier::rlimit(60)]
#[verifier::spinoff_prover]
proof fn lemma_same_page_equal(a: usize, b: usize, ml: int, max: int)
    requires
        0 <= ml <= 2,
        max == 3 || max == 4,
        a as int % spec_level_size(ml) == 0,
        b as int % spec_level_size(ml) == 0,
        max == 3 ==> (a as u64) >> 47 == (b as u64) >> 47,
        max == 4 ==> (a as u64) >> 56 == (b as u64) >> 56,
        same_page(a, b, ml, max),
    ensures
        a == b,
{
    let av = a as u64;
    let bv = b as u64;
    assert(spec_index_for(a, 0) == (av >> 12) & 0x1ff);
    assert(spec_index_for(a, 1) == (av >> 21) & 0x1ff);
    assert(spec_index_for(a, 2) == (av >> 30) & 0x1ff);
    assert(spec_index_for(a, 3) == (av >> 39) & 0x1ff);
    assert(spec_index_for(a, 4) == (av >> 48) & 0x1ff);
    if ml == 0 {
        assert(av % 0x1000 == 0 && bv % 0x1000 == 0);
        if max == 3 {
            assert(av == bv) by (bit_vector)
                requires
                    av % 0x1000 == 0 && bv % 0x1000 == 0 && av >> 47 == bv >> 47 && (av >> 12)
                        & 0x1ff == (bv >> 12) & 0x1ff && (av >> 21) & 0x1ff == (bv >> 21) & 0x1ff
                        && (av >> 30) & 0x1ff == (bv >> 30) & 0x1ff && (av >> 39) & 0x1ff == (bv
                        >> 39) & 0x1ff,
            ;
        } else {
            assert(av == bv) by (bit_vector)
                requires
                    av % 0x1000 == 0 && bv % 0x1000 == 0 && av >> 56 == bv >> 56 && (av >> 12)
                        & 0x1ff == (bv >> 12) & 0x1ff && (av >> 21) & 0x1ff == (bv >> 21) & 0x1ff
                        && (av >> 30) & 0x1ff == (bv >> 30) & 0x1ff && (av >> 39) & 0x1ff == (bv
                        >> 39) & 0x1ff && (av >> 48) & 0x1ff == (bv >> 48) & 0x1ff,
            ;
        }
    } else if ml == 1 {
        assert(av % 0x20_0000 == 0 && bv % 0x20_0000 == 0);
        if max == 3 {
            assert(av == bv) by (bit_vector)
                requires
                    av % 0x20_0000 == 0 && bv % 0x20_0000 == 0 && av >> 47 == bv >> 47 && (av
                        >> 21) & 0x1ff == (bv >> 21) & 0x1ff && (av >> 30) & 0x1ff == (bv >> 30)
                        & 0x1ff && (av >> 39) & 0x1ff == (bv >> 39) & 0x1ff,
            ;
        } else {
            assert(av == bv) by (bit_vector)
                requires
                    av % 0x20_0000 == 0 && bv % 0x20_0000 == 0 && av >> 56 == bv >> 56 && (av
                        >> 21) & 0x1ff == (bv >> 21) & 0x1ff && (av >> 30) & 0x1ff == (bv >> 30)
                        & 0x1ff && (av >> 39) & 0x1ff == (bv >> 39) & 0x1ff && (av >> 48) & 0x1ff
                        == (bv >> 48) & 0x1ff,
            ;
        }
    } else {
        assert(av % 0x4000_0000 == 0 && bv % 0x4000_0000 == 0);
        if max == 3 {
            assert(av == bv) by (bit_vector)
                requires
                    av % 0x4000_0000 == 0 && bv % 0x4000_0000 == 0 && av >> 47 == bv >> 47 && (av
                        >> 30) & 0x1ff == (bv >> 30) & 0x1ff && (av >> 39) & 0x1ff == (bv >> 39)
                        & 0x1ff,
            ;
        } else {
            assert(av == bv) by (bit_vector)
                requires
                    av % 0x4000_0000 == 0 && bv % 0x4000_0000 == 0 && av >> 56 == bv >> 56 && (av
                        >> 30) & 0x1ff == (bv >> 30) & 0x1ff && (av >> 39) & 0x1ff == (bv >> 39)
                        & 0x1ff && (av >> 48) & 0x1ff == (bv >> 48) & 0x1ff,
            ;
        }
    }
}

/// A mapping range that keeps to one canonical side of the hole.
pub open spec fn range_canonical(mmu: MmuInfo, virt: int, size: int) -> bool {
    virt + size <= mmu.hole_start as int || virt >= mmu.hole_end as int
}

/// Distinct pages of one aligned, canonical-side range are distinguishable
/// to the walker.
#[verifier::rlimit(60)]
#[verifier::spinoff_prover]
proof fn lemma_pages_not_same_page(mmu: MmuInfo, virt: usize, size: int, v1: usize, v2: usize, ml: int)
    requires
        mmu.wf(),
        0 <= ml <= 2,
        virt as int % spec_level_size(ml) == 0,
        range_canonical(mmu, virt as int, size),
        virt + size <= usize::MAX + 1,
        v1 != v2,
        virt <= v1 < virt + size,
        virt <= v2 < virt + size,
        v1 as int % spec_level_size(ml) == 0,
        v2 as int % spec_level_size(ml) == 0,
    ensures
        !same_page(v1, v2, ml, mmu.max_level as int),
{
    let max = mmu.max_level as int;
    let a = v1 as u64;
    let b = v2 as u64;
    if same_page(v1, v2, ml, max) {
        if virt as int + size <= mmu.hole_start as int {
            if max == 3 {
                assert(a < 0x8000_0000_0000 && b < 0x8000_0000_0000);
                assert(a >> 47 == 0 && b >> 47 == 0) by (bit_vector)
                    requires
                        a < 0x8000_0000_0000 && b < 0x8000_0000_0000,
                ;
            } else {
                assert(a < 0x0100_0000_0000_0000 && b < 0x0100_0000_0000_0000);
                assert(a >> 56 == 0 && b >> 56 == 0) by (bit_vector)
                    requires
                        a < 0x0100_0000_0000_0000 && b < 0x0100_0000_0000_0000,
                ;
            }
        } else {
            if max == 3 {
                assert(a >= 0xffff_8000_0000_0000 && b >= 0xffff_8000_0000_0000);
                assert(a >> 47 == 0x1ffff && b >> 47 == 0x1ffff) by (bit_vector)
                    requires
                        a >= 0xffff_8000_0000_0000 && b >= 0xffff_8000_0000_0000,
                ;
            } else {
                assert(a >= 0xff00_0000_0000_0000 && b >= 0xff00_0000_0000_0000);
                assert(a >> 56 >= 0xff && b >> 56 >= 0xff && a >> 56 <= 0xff && b >> 56 <= 0xff)
                    by (bit_vector)
                    requires
                        a >= 0xff00_0000_0000_0000 && b >= 0xff00_0000_0000_0000,
                ;
            }
        }
        lemma_same_page_equal(v1, v2, ml, max);
        assert(false);
    }
}

impl Hat {
    /// Insert a translation of `size` bytes from `virt` to `phys` at the
    /// requested page size, which silently downgrades from 1 GiB to 2 MiB
    /// when the CPU lacks gigapages. Intermediate tables are allocated from
    /// the frame allocator as needed. A leaf already present with a
    /// different translation stops the fill and is reported as
    /// `AlreadyMapped` with the physical address it holds; an identical
    /// remap is an idempotent no-op.
    #[verifier::rlimit(100)]
    #[verifier::spinoff_prover]
    pub fn map_pages(
        &mut self,
        pmm: &mut Pmm,
        virt: VirtAddr,
        phys: PhysAddr,
        size: usize,
        page_size: PageSize,
        prot: Prot,
    ) -> (r: Result<(), Error>)
        requires
            old(self).wf(),
            old(pmm).wf(),
            old(self).disjoint_from(old(pmm)),
            pmm_below_pte_range(old(pmm).runs()),
            prot.wf(),
            ({
                let ml = old(self).spec_mmu().spec_map_level(page_size);
                let ps = spec_level_size(ml);
                let total = size as int / ps;
                &&& virt.spec_value() % ps == 0
                &&& phys.spec_value() % ps == 0
                &&& size as int % ps == 0
                &&& virt.spec_value() + size <= usize::MAX + 1
                &&& phys.spec_value() + size <= usize::MAX + 1
                &&& phys.spec_value() + size <= 0x0010_0000_0000_0000
                &&& range_canonical(old(self).spec_mmu(), virt.spec_value(), size as int)
                &&& frame_count(old(pmm).runs()) >= (old(self).spec_max() - ml) * unready_pages(
                    old(self).tables_seq(),
                    old(self).spec_top(),
                    old(self).spec_max(),
                    virt.spec_value(),
                    ml,
                    ps,
                    0,
                    total,
                )
                &&& old(self).spec_mapped_pages()[ml] + total <= usize::MAX
                &&& forall|k: int|
                    0 <= k < total ==> #[trigger] old(self).walk(
                        (virt.spec_value() + k * ps) as usize,
                        ml,
                    ) != -2
            }),
        ensures
            final(self).wf(),
            final(pmm).wf(),
            final(self).disjoint_from(final(pmm)),
            pmm_below_pte_range(final(pmm).runs()),
            final(self).spec_mmu() == old(self).spec_mmu(),
            final(self).spec_top() == old(self).spec_top(),
            final(self).spec_pcid() == old(self).spec_pcid(),
            final(self).spec_cr3() == old(self).spec_cr3(),
            old(self).tables_seq().len() <= final(self).tables_seq().len(),
            forall|i: int|
                0 <= i < old(self).tables_seq().len() ==> (#[trigger] final(self).tables_seq()[i]).base
                    == old(self).tables_seq()[i].base && final(self).tables_seq()[i].level == old(self).tables_seq()[i].level,
            frame_count(final(pmm).runs()) <= frame_count(old(pmm).runs()),
            forall|x: int| #[trigger] covered(final(pmm).runs(), x) ==> covered(old(pmm).runs(), x),
            ({
                let mmu = old(self).spec_mmu();
                let ml = mmu.spec_map_level(page_size);
                let ps = spec_level_size(ml);
                let total = size as int / ps;
                let v0 = virt.spec_value();
                let p0 = phys.spec_value();
                let lf = spec_leaf_flags(mmu, prot, ml);
                let maxg = old(self).spec_max();
                &&& (r is Ok <==> (forall|k: int|
                    0 <= k < total ==> slot_accepts(
                        #[trigger] old(self).entry((v0 + k * ps) as usize, ml),
                        ((p0 + k * ps) as usize as u64) | lf,
                    )))
                &&& (r is Ok ==> forall|k: int|
                    0 <= k < total ==> #[trigger] final(self).entry((v0 + k * ps) as usize, ml)
                        == Some(((p0 + k * ps) as usize as u64) | lf))
                &&& (r is Ok ==> forall|k: int, l2: int|
                    0 <= k < total && ml < l2 <= maxg ==> #[trigger] intermediate_at(
                        final(self).tables_seq(),
                        final(self).spec_top(),
                        maxg,
                        (v0 + k * ps) as usize,
                        l2,
                    ))
                &&& (r is Ok ==> forall|k: int, l2: int|
                    0 <= k < total && ml < l2 <= maxg ==> #[trigger] widened_at(
                        final(self).tables_seq(),
                        final(self).spec_top(),
                        maxg,
                        (v0 + k * ps) as usize,
                        l2,
                    ))
                &&& frame_count(final(pmm).runs()) >= frame_count(old(pmm).runs()) - (maxg - ml)
                    * unready_pages(
                    old(self).tables_seq(),
                    old(self).spec_top(),
                    maxg,
                    v0,
                    ml,
                    ps,
                    0,
                    total,
                )
                // Translations of pages outside the range are untouched:
                // present leaves keep their word, absent walks gain at most
                // non-present entries, unblocked walks stay unblocked, and
                // intermediates elsewhere stay present, non-huge and
                // widened.
                &&& forall|v2: usize|
                    (forall|k: int|
                        0 <= k < total ==> !(#[trigger] same_page(
                            v2,
                            (v0 + k * ps) as usize,
                            ml,
                            maxg,
                        ))) && (#[trigger] old(self).entry(v2, ml)) is Some ==> final(self).entry(
                        v2,
                        ml,
                    ) == old(self).entry(v2, ml)
                &&& forall|v2: usize|
                    (forall|k: int|
                        0 <= k < total ==> !(#[trigger] same_page(
                            v2,
                            (v0 + k * ps) as usize,
                            ml,
                            maxg,
                        ))) && (#[trigger] old(self).entry(v2, ml)) is None ==> (final(self).entry(
                        v2,
                        ml,
                    ) is None || !pte_present(final(self).entry(v2, ml)->Some_0))
                &&& forall|v2: usize|
                    (#[trigger] old(self).walk(v2, ml)) != -2 ==> final(self).walk(v2, ml) != -2
                &&& forall|v2: usize, l2: int|
                    ml < l2 <= maxg && #[trigger] intermediate_at(
                        old(self).tables_seq(),
                        old(self).spec_top(),
                        maxg,
                        v2,
                        l2,
                    ) ==> intermediate_at(
                        final(self).tables_seq(),
                        final(self).spec_top(),
                        maxg,
                        v2,
                        l2,
                    )
                &&& forall|v2: usize, l2: int|
                    ml < l2 <= maxg && #[trigger] widened_at(
                        old(self).tables_seq(),
                        old(self).spec_top(),
                        maxg,
                        v2,
                        l2,
                    ) ==> widened_at(
                        final(self).tables_seq(),
                        final(self).spec_top(),
                        maxg,
                        v2,
                        l2,
                    )
                &&& (r is Ok ==> final(self).spec_mapped_pages() == old(self).spec_mapped_pages().update(
                    ml,
                    (old(self).spec_mapped_pages()[ml] + total) as usize,
                ))
                &&& (r is Err ==> final(self).spec_mapped_pages() == old(self).spec_mapped_pages())
                &&& (r is Err ==> exists|k: int|
                    {
                        &&& 0 <= k < total
                        &&& !slot_accepts(
                            #[trigger] old(self).entry((v0 + k * ps) as usize, ml),
                            ((p0 + k * ps) as usize as u64) | lf,
                        )
                        &&& (forall|j: int|
                            0 <= j < k ==> slot_accepts(
                                #[trigger] old(self).entry((v0 + j * ps) as usize, ml),
                                ((p0 + j * ps) as usize as u64) | lf,
                            ))
                        &&& (r->Err_0 matches Error::AlreadyMapped(p) && p.spec_value() == pte_addr(
                            old(self).entry((v0 + k * ps) as usize, ml)->Some_0,
                        ))
                        &&& (forall|j: int|
                            0 <= j < k ==> #[trigger] final(self).entry((v0 + j * ps) as usize, ml)
                                == Some(((p0 + j * ps) as usize as u64) | lf))
                        // The conflicting leaf and the pages past it are
                        // untouched.
                        &&& final(self).entry((v0 + k * ps) as usize, ml) == old(self).entry(
                            (v0 + k * ps) as usize,
                            ml,
                        )
                        &&& (forall|j: int|
                            k < j < total && (#[trigger] old(self).entry(
                                (v0 + j * ps) as usize,
                                ml,
                            )) is Some ==> final(self).entry((v0 + j * ps) as usize, ml) == old(
                                self,
                            ).entry((v0 + j * ps) as usize, ml))
                        &&& (forall|j: int|
                            k < j < total && (#[trigger] old(self).entry(
                                (v0 + j * ps) as usize,
                                ml,
                            )) is None ==> (final(self).entry((v0 + j * ps) as usize, ml) is None
                                || !pte_present(
                                final(self).entry((v0 + j * ps) as usize, ml)->Some_0,
                            )))
                    })
            }),
    {
        let ghost s_old = self.tables_seq();
        let ghost rs_old = pmm.runs();
        let ghost top = self.spec_top();
        let ghost maxg = self.spec_max();
        let ghost mmu0 = self.spec_mmu();
        let ml = self.mmu.map_level(page_size);
        let psz = self.mmu.level_size(ml);
        let lf = (self.mmu.protmap.index(prot) | self.mmu.level_flags(ml)) | PTE_PRESENT;
        proof {
            lemma_leaf_flags_shape(mmu0, prot, ml as int);
            assert(lf == spec_leaf_flags(mmu0, prot, ml as int));
        }
        let total = size / psz;
        let ghost psg = psz as int;
        proof {
            assert(total * psg == size) by {
                assert(size as int % psg == 0);
                assert(size as int / psg * psg + size as int % psg == size) by (nonlinear_arith)
                    requires
                        psg > 0,
                ;
            }
        }
        let mut k: usize = 0;
        let mut result: Result<(), Error> = Ok(());
        while k < total
            invariant
                0 <= k <= total,
                total * psg == size,
                psg == spec_level_size(ml as int),
                psz == psg,
                ml == mmu0.spec_map_level(page_size),
                ml <= 2,
                lf == spec_leaf_flags(mmu0, prot, ml as int),
                lf & PTE_ADDR_MASK == 0,
                pte_present(lf),
                ml >= 1 ==> pte_huge(lf),
                self.wf(),
                pmm.wf(),
                self.disjoint_from(pmm),
                pmm_below_pte_range(pmm.runs()),
                self.spec_mmu() == mmu0,
                mmu0 == old(self).spec_mmu(),
                mmu0.wf(),
                self.spec_top() == top,
                self.spec_max() == maxg,
                self.spec_pcid() == old(self).spec_pcid(),
                self.spec_cr3() == old(self).spec_cr3(),
                self.spec_mapped_pages() == old(self).spec_mapped_pages(),
                s_old == old(self).tables_seq(),
                rs_old == old(pmm).runs(),
                top == old(self).spec_top(),
                maxg == old(self).spec_max(),
                old(self).wf(),
                s_old.len() <= self.tables_seq().len(),
                forall|i: int|
                    0 <= i < s_old.len() ==> (#[trigger] self.tables_seq()[i]).base
                        == s_old[i].base && self.tables_seq()[i].level == s_old[i].level,
                frame_count(pmm.runs()) <= frame_count(rs_old),
                frame_count(pmm.runs()) >= frame_count(rs_old) - (maxg - ml) * unready_pages(
                    s_old,
                    top,
                    maxg,
                    virt.spec_value(),
                    ml as int,
                    psg,
                    0,
                    k as int,
                ),
                frame_count(rs_old) >= (maxg - ml) * unready_pages(
                    s_old,
                    top,
                    maxg,
                    virt.spec_value(),
                    ml as int,
                    psg,
                    0,
                    total as int,
                ),
                forall|x: int| #[trigger] covered(pmm.runs(), x) ==> covered(rs_old, x),
                virt.spec_value() % psg == 0,
                phys.spec_value() % psg == 0,
                virt.spec_value() + size <= usize::MAX + 1,
                phys.spec_value() + size <= usize::MAX + 1,
                phys.spec_value() + size <= 0x0010_0000_0000_0000,
                range_canonical(mmu0, virt.spec_value(), size as int),
                result is Ok,
                // Pages done so far hold their exact leaves and their
                // intermediate path.
                forall|j: int|
                    0 <= j < k ==> #[trigger] self.entry(
                        (virt.spec_value() + j * psg) as usize,
                        ml as int,
                    ) == Some(((phys.spec_value() + j * psg) as usize as u64) | lf),
                forall|j: int, l2: int|
                    0 <= j < k && ml < l2 <= maxg ==> #[trigger] widened_at(
                        self.tables_seq(),
                        top,
                        maxg,
                        (virt.spec_value() + j * psg) as usize,
                        l2,
                    ),
                forall|j: int|
                    0 <= j < k ==> slot_accepts(
                        #[trigger] old(self).entry((virt.spec_value() + j * psg) as usize, ml as int),
                        ((phys.spec_value() + j * psg) as usize as u64) | lf,
                    ),
                // Pages still to come read as they did at entry.
                forall|j: int|
                    k <= j < total && (#[trigger] old(self).entry(
                        (virt.spec_value() + j * psg) as usize,
                        ml as int,
                    )) is Some ==> self.entry((virt.spec_value() + j * psg) as usize, ml as int)
                        == old(self).entry((virt.spec_value() + j * psg) as usize, ml as int),
                forall|j: int|
                    k <= j < total && (#[trigger] old(self).entry(
                        (virt.spec_value() + j * psg) as usize,
                        ml as int,
                    )) is None ==> (self.entry((virt.spec_value() + j * psg) as usize, ml as int)
                        is None || !pte_present(
                        self.entry((virt.spec_value() + j * psg) as usize, ml as int)->Some_0,
                    )),
                forall|j: int|
                    0 <= j < total ==> #[trigger] old(self).walk(
                        (virt.spec_value() + j * psg) as usize,
                        ml as int,
                    ) != -2,
                forall|j: int|
                    k <= j < total ==> #[trigger] self.walk(
                        (virt.spec_value() + j * psg) as usize,
                        ml as int,
                    ) != -2,
                // Pages outside the range read as they did at entry.
                forall|v2: usize|
                    (forall|j: int|
                        0 <= j < total ==> !(#[trigger] same_page(
                            v2,
                            (virt.spec_value() + j * psg) as usize,
                            ml as int,
                            maxg,
                        ))) && (#[trigger] old(self).entry(v2, ml as int)) is Some ==> self.entry(
                        v2,
                        ml as int,
                    ) == old(self).entry(v2, ml as int),
                forall|v2: usize|
                    (forall|j: int|
                        0 <= j < total ==> !(#[trigger] same_page(
                            v2,
                            (virt.spec_value() + j * psg) as usize,
                            ml as int,
                            maxg,
                        ))) && (#[trigger] old(self).entry(v2, ml as int)) is None ==> (self.entry(
                        v2,
                        ml as int,
                    ) is None || !pte_present(self.entry(v2, ml as int)->Some_0)),
                forall|v2: usize|
                    (#[trigger] old(self).walk(v2, ml as int)) != -2 ==> self.walk(v2, ml as int)
                        != -2,
                forall|v2: usize, l2: int|
                    ml < l2 <= maxg && #[trigger] intermediate_at(s_old, top, maxg, v2, l2)
                        ==> intermediate_at(self.tables_seq(), top, maxg, v2, l2),
                forall|v2: usize, l2: int|
                    ml < l2 <= maxg && #[trigger] widened_at(s_old, top, maxg, v2, l2)
                        ==> widened_at(self.tables_seq(), top, maxg, v2, l2),
            decreases total - k,
        {
            let ghost hat_pre = *self;
            proof {
                assert((k as int) * psg <= (total as int - 1) * psg) by (nonlinear_arith)
                    requires
                        k as int <= total as int - 1 && psg > 0,
                ;
                assert((k as int) * psg >= 0) by (nonlinear_arith)
                    requires
                        k as int >= 0 && psg > 0,
                ;
                assert((k as int + 1) * psg == k as int * psg + psg) by (nonlinear_arith);
                assert((total as int - 1) * psg == total * psg - psg) by (nonlinear_arith);
            }
            let vk = virt.to_usize() + k * psz;
            let pk = phys.to_usize() + k * psz;
            proof {
                assert(vk as int == virt.spec_value() + k as int * psg);
                assert(pk as int == phys.spec_value() + k as int * psg);
                assert(vk as int % psg == 0 && pk as int % psg == 0) by {
                    lemma_mod_sum_aligned(virt.spec_value(), k as int, psg);
                    lemma_mod_sum_aligned(phys.spec_value(), k as int, psg);
                }
                assert(pk as int % PAGE_SIZE as int == 0) by {
                    lemma_align_coarser(pk as int, psg);
                }
                // The budget covers this page: a page whose walk was
                // already complete allocates nothing, and every other page
                // counts among the unready ones the caller budgeted for.
                let v0g = virt.spec_value();
                lemma_unready_split(s_old, top, maxg, v0g, ml as int, psg, 0, k as int,
                    total as int);
                lemma_unready_nonneg(s_old, top, maxg, v0g, ml as int, psg, k as int + 1,
                    total as int);
                lemma_unready_nonneg(s_old, top, maxg, v0g, ml as int, psg, 0, k as int);
                if walk_base(s_old, top, maxg, vk, ml as int) >= 0 {
                    lemma_walk_reaches_table(s_old, top, maxg, vk, ml as int);
                    assert(old(self).entry(vk, ml as int) is Some);
                    assert(self.entry(vk, ml as int) == old(self).entry(vk, ml as int));
                    assert(self.walk(vk, ml as int) >= 0);
                } else {
                    let ua = unready_pages(s_old, top, maxg, v0g, ml as int, psg, 0, k as int);
                    let ub = unready_pages(s_old, top, maxg, v0g, ml as int, psg, k as int,
                        total as int);
                    let uc = unready_pages(s_old, top, maxg, v0g, ml as int, psg, k as int + 1,
                        total as int);
                    assert(ub == 1 + uc);
                    assert((maxg - ml) * (ua + ub) == (maxg - ml) * ua + (maxg - ml) * ub)
                        by (nonlinear_arith);
                    assert((maxg - ml) * ub == (maxg - ml) * 1 + (maxg - ml) * uc)
                        by (nonlinear_arith)
                        requires
                            ub == 1 + uc,
                    ;
                    assert((maxg - ml) * uc >= 0) by (nonlinear_arith)
                        requires
                            maxg - ml >= 0 && uc >= 0,
                    ;
                    assert(frame_count(pmm.runs()) >= maxg - ml);
                }
            }
            proof {
                // Every other page of the range selects a different slot.
                assert forall|j: int|
                    0 <= j < total && j != k implies !(#[trigger] same_page(
                    (virt.spec_value() + j * psg) as usize,
                    vk,
                    ml as int,
                    maxg,
                )) by {
                    let vj = (virt.spec_value() + j * psg) as usize;
                    assert(j * psg >= 0 && j * psg <= (total as int - 1) * psg) by (nonlinear_arith)
                        requires
                            0 <= j <= total as int - 1 && psg > 0,
                    ;
                    assert(vj as int % psg == 0) by {
                        lemma_mod_sum_aligned(virt.spec_value(), j, psg);
                    }
                    assert(vj != vk) by {
                        assert(j * psg != k as int * psg) by (nonlinear_arith)
                            requires
                                j != k as int && psg > 0,
                        ;
                    }
                    lemma_pages_not_same_page(mmu0, (virt.spec_value()) as usize, size as int, vj,
                        vk, ml as int);
                }
            }
            let ghost fc_pre = frame_count(pmm.runs());
            match self.map_one(pmm, vk, pk, ml, lf) {
                Ok(()) => {
                    proof {
                        let v0 = virt.spec_value();
                        let p0 = phys.spec_value();
                        // Re-establish the frame bound with one more page
                        // accounted for.
                        lemma_unready_split(s_old, top, maxg, v0, ml as int, psg, 0, k as int,
                            k as int + 1);
                        let ua = unready_pages(s_old, top, maxg, v0, ml as int, psg, 0, k as int);
                        let ud = unready_pages(s_old, top, maxg, v0, ml as int, psg, k as int,
                            k as int + 1);
                        assert(unready_pages(s_old, top, maxg, v0, ml as int, psg, k as int + 1,
                            k as int + 1) == 0);
                        assert(ud == (if walk_base(s_old, top, maxg, vk, ml as int) < 0 {
                            1int
                        } else {
                            0int
                        }));
                        if walk_base(s_old, top, maxg, vk, ml as int) >= 0 {
                            assert(frame_count(pmm.runs()) == fc_pre);
                        } else {
                            assert((maxg - ml) * (ua + 1) == (maxg - ml) * ua + (maxg - ml))
                                by (nonlinear_arith);
                        }
                        // Pages already mapped keep their leaves and paths;
                        // the page just mapped gains its own.
                        assert forall|j: int| 0 <= j < k as int + 1 implies #[trigger] self.entry(
                            (v0 + j * psg) as usize,
                            ml as int,
                        ) == Some(((p0 + j * psg) as usize as u64) | lf) by {
                            if j < k as int {
                                assert(hat_pre.entry((v0 + j * psg) as usize, ml as int) == Some(
                                    ((p0 + j * psg) as usize as u64) | lf,
                                ));
                                assert(!same_page((v0 + j * psg) as usize, vk, ml as int, maxg));
                            } else {
                                assert((v0 + j * psg) as usize == vk);
                            }
                        }
                        assert forall|j: int|
                            k as int + 1 <= j < total && (#[trigger] old(self).entry(
                                (v0 + j * psg) as usize,
                                ml as int,
                            )) is Some implies self.entry((v0 + j * psg) as usize, ml as int)
                            == old(self).entry((v0 + j * psg) as usize, ml as int) by {
                            assert(!same_page((v0 + j * psg) as usize, vk, ml as int, maxg));
                            assert(hat_pre.entry((v0 + j * psg) as usize, ml as int) == old(self).entry((v0 + j * psg) as usize, ml as int));
                        }
                        assert forall|j: int|
                            k as int + 1 <= j < total && (#[trigger] old(self).entry(
                                (v0 + j * psg) as usize,
                                ml as int,
                            )) is None implies (self.entry((v0 + j * psg) as usize, ml as int)
                            is None || !pte_present(
                            self.entry((v0 + j * psg) as usize, ml as int)->Some_0,
                        )) by {
                            assert(!same_page((v0 + j * psg) as usize, vk, ml as int, maxg));
                            let cur = hat_pre.entry((v0 + j * psg) as usize, ml as int);
                            assert(cur is None || !pte_present(cur->Some_0));
                            if cur is Some {
                                assert(self.entry((v0 + j * psg) as usize, ml as int) == cur);
                            }
                        }
                        assert forall|j: int| k as int + 1 <= j < total implies #[trigger] self.walk(
                            (v0 + j * psg) as usize,
                            ml as int,
                        ) != -2 by {
                            assert(hat_pre.walk((v0 + j * psg) as usize, ml as int) != -2);
                        }
                        assert forall|j: int, l2: int|
                            0 <= j < k as int + 1 && ml < l2 <= maxg implies #[trigger] widened_at(
                            self.tables_seq(),
                            top,
                            maxg,
                            (v0 + j * psg) as usize,
                            l2,
                        ) by {
                            if j < k as int {
                                assert(widened_at(hat_pre.tables_seq(), top, maxg,
                                    (v0 + j * psg) as usize, l2));
                            } else {
                                assert((v0 + j * psg) as usize == vk);
                            }
                        }
                        assert forall|v2: usize|
                            (forall|j: int|
                                0 <= j < total ==> !(#[trigger] same_page(
                                    v2,
                                    (v0 + j * psg) as usize,
                                    ml as int,
                                    maxg,
                                ))) && (#[trigger] old(self).entry(v2, ml as int)) is Some implies
                            self.entry(v2, ml as int) == old(self).entry(v2, ml as int) by {
                            assert(!same_page(v2, (v0 + k as int * psg) as usize, ml as int, maxg));
                            assert(!same_page(v2, vk, ml as int, maxg));
                            assert(hat_pre.entry(v2, ml as int) == old(self).entry(v2, ml as int));
                        }
                        assert forall|v2: usize|
                            (forall|j: int|
                                0 <= j < total ==> !(#[trigger] same_page(
                                    v2,
                                    (v0 + j * psg) as usize,
                                    ml as int,
                                    maxg,
                                ))) && (#[trigger] old(self).entry(v2, ml as int)) is None implies
                            (self.entry(v2, ml as int) is None || !pte_present(
                                self.entry(v2, ml as int)->Some_0,
                            )) by {
                            assert(!same_page(v2, (v0 + k as int * psg) as usize, ml as int, maxg));
                            assert(!same_page(v2, vk, ml as int, maxg));
                            let cur = hat_pre.entry(v2, ml as int);
                            assert(cur is None || !pte_present(cur->Some_0));
                            if cur is Some {
                                assert(self.entry(v2, ml as int) == cur);
                            }
                        }
                    }
                    k += 1;
                },
                Err(e) => {
                    proof {
                        assert(hat_pre.entry(
                            (virt.spec_value() + k as int * psg) as usize,
                            ml as int,
                        ) is Some);
                        assert(old(self).entry(
                            (virt.spec_value() + k as int * psg) as usize,
                            ml as int,
                        ) is Some);
                        assert(!slot_accepts(
                            old(self).entry((virt.spec_value() + k as int * psg) as usize, ml as int),
                            ((phys.spec_value() + k as int * psg) as usize as u64) | lf,
                        ));
                    }
                    proof {
                        let v0 = virt.spec_value();
                        let p0 = phys.spec_value();
                        let kk = k as int;
                        assert(0 <= kk < total as int);
                        assert(!slot_accepts(
                            old(self).entry((v0 + kk * psg) as usize, ml as int),
                            ((p0 + kk * psg) as usize as u64) | lf,
                        ));
                        assert(forall|j: int|
                            0 <= j < kk ==> slot_accepts(
                                #[trigger] old(self).entry((v0 + j * psg) as usize, ml as int),
                                ((p0 + j * psg) as usize as u64) | lf,
                            ));
                        assert(e matches Error::AlreadyMapped(p) && p.spec_value() == pte_addr(
                            old(self).entry((v0 + kk * psg) as usize, ml as int)->Some_0,
                        ));
                        assert forall|j: int| 0 <= j < kk implies #[trigger] self.entry(
                            (v0 + j * psg) as usize,
                            ml as int,
                        ) == Some(((p0 + j * psg) as usize as u64) | lf) by {
                            assert(!same_page((v0 + j * psg) as usize, vk, ml as int, maxg));
                            assert(hat_pre.entry((v0 + j * psg) as usize, ml as int) == Some(
                                ((p0 + j * psg) as usize as u64) | lf,
                            ));
                        }
                        // The conflicting leaf keeps its old word, and the
                        // pages past it read as they did at entry.
                        assert(self.entry(vk, ml as int) == old(self).entry(vk, ml as int));
                        assert forall|j: int|
                            kk < j < total && (#[trigger] old(self).entry(
                                (v0 + j * psg) as usize,
                                ml as int,
                            )) is Some implies self.entry((v0 + j * psg) as usize, ml as int)
                            == old(self).entry((v0 + j * psg) as usize, ml as int) by {
                            assert(!same_page((v0 + j * psg) as usize, vk, ml as int, maxg));
                            assert(hat_pre.entry((v0 + j * psg) as usize, ml as int) == old(
                                self,
                            ).entry((v0 + j * psg) as usize, ml as int));
                        }
                        assert forall|j: int|
                            kk < j < total && (#[trigger] old(self).entry(
                                (v0 + j * psg) as usize,
                                ml as int,
                            )) is None implies (self.entry((v0 + j * psg) as usize, ml as int)
                            is None || !pte_present(
                            self.entry((v0 + j * psg) as usize, ml as int)->Some_0,
                        )) by {
                            assert(!same_page((v0 + j * psg) as usize, vk, ml as int, maxg));
                            let cur = hat_pre.entry((v0 + j * psg) as usize, ml as int);
                            assert(cur is None || !pte_present(cur->Some_0));
                            if cur is Some {
                                assert(self.entry((v0 + j * psg) as usize, ml as int) == cur);
                            }
                        }
                        // Pages outside the range read as they did at
                        // entry, and the frame bound holds for the whole
                        // budget.
                        assert forall|v2: usize|
                            (forall|j: int|
                                0 <= j < total ==> !(#[trigger] same_page(
                                    v2,
                                    (v0 + j * psg) as usize,
                                    ml as int,
                                    maxg,
                                ))) && (#[trigger] old(self).entry(v2, ml as int)) is Some implies
                            self.entry(v2, ml as int) == old(self).entry(v2, ml as int) by {
                            assert(!same_page(v2, (v0 + kk * psg) as usize, ml as int, maxg));
                            assert(!same_page(v2, vk, ml as int, maxg));
                            assert(hat_pre.entry(v2, ml as int) == old(self).entry(v2, ml as int));
                        }
                        assert forall|v2: usize|
                            (forall|j: int|
                                0 <= j < total ==> !(#[trigger] same_page(
                                    v2,
                                    (v0 + j * psg) as usize,
                                    ml as int,
                                    maxg,
                                ))) && (#[trigger] old(self).entry(v2, ml as int)) is None implies
                            (self.entry(v2, ml as int) is None || !pte_present(
                                self.entry(v2, ml as int)->Some_0,
                            )) by {
                            assert(!same_page(v2, (v0 + kk * psg) as usize, ml as int, maxg));
                            assert(!same_page(v2, vk, ml as int, maxg));
                            let cur = hat_pre.entry(v2, ml as int);
                            assert(cur is None || !pte_present(cur->Some_0));
                            if cur is Some {
                                assert(self.entry(v2, ml as int) == cur);
                            }
                        }
                        lemma_unready_split(s_old, top, maxg, v0, ml as int, psg, 0, kk,
                            total as int);
                        lemma_unready_nonneg(s_old, top, maxg, v0, ml as int, psg, kk,
                            total as int);
                        let ua = unready_pages(s_old, top, maxg, v0, ml as int, psg, 0, kk);
                        let ub = unready_pages(s_old, top, maxg, v0, ml as int, psg, kk,
                            total as int);
                        assert((maxg - ml) * (ua + ub) == (maxg - ml) * ua + (maxg - ml) * ub)
                            by (nonlinear_arith);
                        assert((maxg - ml) * ub >= 0) by (nonlinear_arith)
                            requires
                                maxg - ml >= 0 && ub >= 0,
                        ;
                    }
                    return Err(e);
                },
            }
        }
        let ghost before_count = *self;
        let done = self.mapped_pages[ml];
        self.mapped_pages[ml] = done + total;
        proof {
            assert(self.spec_mapped_pages() =~= old(self).spec_mapped_pages().update(
                ml as int,
                (old(self).spec_mapped_pages()[ml as int] + total as int) as usize,
            ));
            // The page-count update touches no table.
            assert(self.tables_seq() == before_count.tables_seq());
            assert forall|j: int| 0 <= j < total implies #[trigger] self.entry(
                (virt.spec_value() + j * psg) as usize,
                ml as int,
            ) == Some(((phys.spec_value() + j * psg) as usize as u64) | lf) by {
                assert(before_count.entry((virt.spec_value() + j * psg) as usize, ml as int)
                    == Some(((phys.spec_value() + j * psg) as usize as u64) | lf));
            }
            assert forall|j: int, l2: int|
                0 <= j < total && ml < l2 <= maxg implies #[trigger] widened_at(
                self.tables_seq(),
                top,
                maxg,
                (virt.spec_value() + j * psg) as usize,
                l2,
            ) by {
                assert(widened_at(before_count.tables_seq(), top, maxg,
                    (virt.spec_value() + j * psg) as usize, l2));
            }
            assert forall|j: int, l2: int|
                0 <= j < total && ml < l2 <= maxg implies #[trigger] intermediate_at(
                self.tables_seq(),
                top,
                maxg,
                (virt.spec_value() + j * psg) as usize,
                l2,
            ) by {
                assert(widened_at(self.tables_seq(), top, maxg,
                    (virt.spec_value() + j * psg) as usize, l2));
            }
        }
        Ok(())
    }
}

/// A sum of an aligned base and a multiple of the alignment is aligned.
proof fn lemma_mod_sum_aligned(base: int, k: int, p: int)
    requires
        p > 0,
        base % p == 0,
    ensures
        (base + k * p) % p == 0,
{
    vstd::arithmetic::div_mod::lemma_mod_multiples_vanish(k, base, p);
    assert(p * k == k * p) by (nonlinear_arith);
}

/// Alignment to a leaf size implies page alignment: every leaf size is a
/// multiple of the page size.
proof fn lemma_align_coarser(a: int, p: int)
    requires
        p == 0x1000 || p == 0x20_0000 || p == 0x4000_0000,
        a % p == 0,
        a >= 0,
    ensures
        a % 0x1000 == 0,
{
    let q = a / p;
    assert(a == q * p) by (nonlinear_arith)
        requires
            a % p == 0 && p > 0 && q == a / p,
    ;
    if p == 0x1000 {
    } else if p == 0x20_0000 {
        assert((q * 0x20_0000) % 0x1000 == 0) by (nonlinear_arith);
    } else {
        assert((q * 0x4000_0000) % 0x1000 == 0) by (nonlinear_arith);
    }
}

impl Hat {
    /// Clear the leaf for one page at level `ml`. The page must be mapped:
    /// clearing an absent translation is a hard bug in the kernel.
    #[verifier::rlimit(100)]
    #[verifier::spinoff_prover]
    fn unmap_one(&mut self, vk: usize, ml: usize)
        requires
            old(self).wf(),
            ml <= 2,
            old(self).entry(vk, ml as int) is Some,
            pte_present(old(self).entry(vk, ml as int)->Some_0),
        ensures
            final(self).wf(),
            final(self).spec_mmu() == old(self).spec_mmu(),
            final(self).spec_top() == old(self).spec_top(),
            final(self).spec_pcid() == old(self).spec_pcid(),
            final(self).spec_cr3() == old(self).spec_cr3(),
            final(self).spec_mapped_pages() == old(self).spec_mapped_pages(),
            final(self).tables_seq().len() == old(self).tables_seq().len(),
            forall|i: int|
                0 <= i < old(self).tables_seq().len() ==> (#[trigger] final(self).tables_seq()[i]).base == old(self).tables_seq()[i].base && final(self).tables_seq()[i].level == old(self).tables_seq()[i].level,
            final(self).entry(vk, ml as int) == Some(0u64),
            forall|v2: usize, l2: int|
                ml < l2 <= final(self).spec_max() ==> #[trigger] final(self).entry(v2, l2) == old(self).entry(v2, l2),
            forall|v2: usize|
                !same_page(v2, vk, ml as int, final(self).spec_max()) ==> #[trigger] final(self).entry(v2, ml as int) == old(self).entry(v2, ml as int),
            forall|v2: usize| #[trigger]
                final(self).walk(v2, ml as int) == old(self).walk(v2, ml as int),
            forall|rs: Seq<Region>|
                #[trigger] tables_disjoint(old(self).tables_seq(), rs) ==> tables_disjoint(
                    final(self).tables_seq(),
                    rs,
                ),
    {
        let ghost s_old = self.tables_seq();
        let ghost top = self.spec_top();
        let ghost maxg = self.spec_max();
        let max = self.mmu.max_level as usize;
        let mut l: usize = max;
        let mut ti: usize = match self.find_table(self.top_level as u64) {
            Some(i) => i,
            None => {
                proof {
                    assert(false);
                }
                0
            },
        };
        proof {
            lemma_table_lookup(s_old, ti as int);
        }
        while l > ml
            invariant
                ml <= l <= maxg,
                self.wf(),
                *self == *old(self),
                s_old == self.tables_seq(),
                top == self.spec_top(),
                maxg == self.spec_max(),
                max == maxg,
                (ti as int) < s_old.len(),
                s_old[ti as int].base as int == self.walk(vk, l as int),
                s_old[ti as int].level == l,
                self.walk(vk, l as int) >= 0,
                self.entry(vk, ml as int) is Some,
                pte_present(self.entry(vk, ml as int)->Some_0),
            decreases l,
        {
            let idx = table_index(vk, l);
            let e = self.tables[ti].entries[idx];
            proof {
                lemma_table_lookup(s_old, ti as int);
                assert(table_entries(s_old, self.walk(vk, l as int))[idx as int] == e);
                // A blocked or vacant step would contradict the mapped leaf.
                if !pte_present(e) || pte_huge(e) || !(has_table(s_old, pte_addr(e)) && table_level(
                    s_old,
                    pte_addr(e),
                ) == l - 1) {
                    assert(walk_base(s_old, top, maxg, vk, l as int - 1) < 0);
                    lemma_walk_propagates(s_old, top, maxg, vk, ml as int, l as int - 1);
                    assert(false);
                }
            }
            let child = e & PTE_ADDR_MASK;
            ti = match self.find_table(child) {
                Some(ci) => ci,
                None => {
                    proof {
                        assert(false);
                    }
                    0
                },
            };
            proof {
                lemma_table_lookup(s_old, ti as int);
            }
            l -= 1;
        }
        let idx = table_index(vk, ml);
        proof {
            lemma_table_lookup(s_old, ti as int);
        }
        self.tables[ti].entries[idx] = 0;
        let ghost post = self.tables_seq();
        proof {
            assert(slot_update(s_old, post, ti as int, idx as int));
            assert(pte_present(0u64) == false && pte_huge(0u64) == false && pte_addr(0u64) == 0)
                by (bit_vector);
            let wb = s_old[ti as int].base as int;
            assert forall|rs: Seq<Region>|
                #[trigger] tables_disjoint(s_old, rs) implies tables_disjoint(post, rs) by {
                lemma_wf_after_leafwrite(s_old, post, ti as int, idx as int, top, maxg, rs);
            }
            lemma_wf_after_leafwrite(s_old, post, ti as int, idx as int, top, maxg,
                Seq::<Region>::empty());
            lemma_same_tables(s_old, post, ti as int);
            assert forall|v2: usize, l2: int| ml <= l2 <= maxg implies walk_base(
                post,
                top,
                maxg,
                v2,
                l2,
            ) == walk_base(s_old, top, maxg, v2, l2) by {
                lemma_walk_low_update(s_old, post, ti as int, idx as int, top, maxg, v2, l2);
            }
            assert(table_entries(post, post[ti as int].base as int)[idx as int] == 0u64) by {
                lemma_table_lookup(post, ti as int);
            }
            assert(self.entry(vk, ml as int) == Some(0u64));
            assert forall|v2: usize, l2: int| ml < l2 <= maxg implies #[trigger] entry_at(
                post,
                top,
                maxg,
                v2,
                l2,
            ) == entry_at(s_old, top, maxg, v2, l2) by {
                let b2 = walk_base(s_old, top, maxg, v2, l2);
                if b2 >= 0 && has_table(s_old, b2) {
                    lemma_walk_reaches_table(s_old, top, maxg, v2, l2);
                    assert(b2 != wb) by {
                        lemma_table_lookup(s_old, ti as int);
                    }
                    assert(table_entries(post, b2) == table_entries(s_old, b2));
                }
            }
            assert forall|v2: usize|
                !same_page(v2, vk, ml as int, maxg) implies #[trigger] entry_at(
                post,
                top,
                maxg,
                v2,
                ml as int,
            ) == entry_at(s_old, top, maxg, v2, ml as int) by {
                let b2 = walk_base(s_old, top, maxg, v2, ml as int);
                if b2 >= 0 && has_table(s_old, b2) {
                    lemma_distinct_leaf_slots(s_old, top, maxg, v2, vk, ml as int);
                    lemma_index_bound(v2, ml as int);
                    if b2 == wb {
                        assert(spec_index_for(v2, ml as int) != idx as int);
                        assert(table_entries(post, b2)[spec_index_for(v2, ml as int)]
                            == table_entries(s_old, b2)[spec_index_for(v2, ml as int)]);
                    } else {
                        assert(table_entries(post, b2) == table_entries(s_old, b2));
                    }
                }
            }
        }
    }

    /// Remove the translations of `size` bytes starting at `virt`,
    /// established at the given page size. Every covered leaf must be
    /// present; it is cleared to the null entry. The intermediate tables
    /// stay in place, and the TLB is not touched: invalidation is the
    /// caller's duty.
    #[verifier::rlimit(100)]
    #[verifier::spinoff_prover]
    pub fn unmap_pages(&mut self, virt: VirtAddr, size: usize, page_size: PageSize)
        requires
            old(self).wf(),
            ({
                let ml = old(self).spec_mmu().spec_map_level(page_size);
                let ps = spec_level_size(ml);
                let total = size as int / ps;
                &&& virt.spec_value() % ps == 0
                &&& size as int % ps == 0
                &&& virt.spec_value() + size <= usize::MAX + 1
                &&& range_canonical(old(self).spec_mmu(), virt.spec_value(), size as int)
                &&& forall|k: int|
                    0 <= k < total ==> (#[trigger] old(self).entry(
                        (virt.spec_value() + k * ps) as usize,
                        ml,
                    )) is Some && pte_present(
                        old(self).entry((virt.spec_value() + k * ps) as usize, ml)->Some_0,
                    )
            }),
        ensures
            final(self).wf(),
            final(self).spec_mmu() == old(self).spec_mmu(),
            final(self).spec_top() == old(self).spec_top(),
            final(self).spec_pcid() == old(self).spec_pcid(),
            final(self).spec_cr3() == old(self).spec_cr3(),
            final(self).spec_mapped_pages() == old(self).spec_mapped_pages(),
            final(self).tables_seq().len() == old(self).tables_seq().len(),
            forall|i: int|
                0 <= i < old(self).tables_seq().len() ==> (#[trigger] final(self).tables_seq()[i]).base == old(self).tables_seq()[i].base && final(self).tables_seq()[i].level == old(self).tables_seq()[i].level,
            ({
                let ml = old(self).spec_mmu().spec_map_level(page_size);
                let ps = spec_level_size(ml);
                let total = size as int / ps;
                let v0 = virt.spec_value();
                let maxg = old(self).spec_max();
                &&& forall|k: int|
                    0 <= k < total ==> #[trigger] final(self).entry((v0 + k * ps) as usize, ml)
                        == Some(0u64)
                &&& forall|k: int, l2: int|
                    0 <= k < total && ml < l2 <= maxg ==> #[trigger] final(self).entry(
                        (v0 + k * ps) as usize,
                        l2,
                    ) == old(self).entry((v0 + k * ps) as usize, l2)
                &&& forall|v2: usize|
                    (forall|k: int|
                        0 <= k < total ==> !(#[trigger] same_page(
                            v2,
                            (v0 + k * ps) as usize,
                            ml,
                            maxg,
                        ))) ==> #[trigger] final(self).entry(v2, ml) == old(self).entry(v2, ml)
                &&& forall|v2: usize| #[trigger]
                    final(self).walk(v2, ml) == old(self).walk(v2, ml)
            }),
            forall|rs: Seq<Region>|
                #[trigger] tables_disjoint(old(self).tables_seq(), rs) ==> tables_disjoint(
                    final(self).tables_seq(),
                    rs,
                ),
    {
        let ghost s_old = self.tables_seq();
        let ghost top = self.spec_top();
        let ghost maxg = self.spec_max();
        let ghost mmu0 = self.spec_mmu();
        let ml = self.mmu.map_level(page_size);
        let psz = self.mmu.level_size(ml);
        let total = size / psz;
        let ghost psg = psz as int;
        proof {
            assert(total * psg == size) by {
                assert(size as int / psg * psg + size as int % psg == size) by (nonlinear_arith)
                    requires
                        psg > 0,
                ;
            }
        }
        let mut k: usize = 0;
        while k < total
            invariant
                0 <= k <= total,
                total * psg == size,
                psg == spec_level_size(ml as int),
                psz == psg,
                ml == mmu0.spec_map_level(page_size),
                ml <= 2,
                self.wf(),
                self.spec_mmu() == mmu0,
                mmu0 == old(self).spec_mmu(),
                mmu0.wf(),
                self.spec_top() == top,
                self.spec_max() == maxg,
                self.spec_pcid() == old(self).spec_pcid(),
                self.spec_cr3() == old(self).spec_cr3(),
                self.spec_mapped_pages() == old(self).spec_mapped_pages(),
                s_old == old(self).tables_seq(),
                top == old(self).spec_top(),
                maxg == old(self).spec_max(),
                self.tables_seq().len() == s_old.len(),
                forall|i: int|
                    0 <= i < s_old.len() ==> (#[trigger] self.tables_seq()[i]).base
                        == s_old[i].base && self.tables_seq()[i].level == s_old[i].level,
                virt.spec_value() % psg == 0,
                virt.spec_value() + size <= usize::MAX + 1,
                range_canonical(mmu0, virt.spec_value(), size as int),
                forall|j: int|
                    0 <= j < total ==> (#[trigger] old(self).entry(
                        (virt.spec_value() + j * psg) as usize,
                        ml as int,
                    )) is Some && pte_present(
                        old(self).entry((virt.spec_value() + j * psg) as usize, ml as int)->Some_0,
                    ),
                forall|j: int|
                    0 <= j < k ==> #[trigger] self.entry(
                        (virt.spec_value() + j * psg) as usize,
                        ml as int,
                    ) == Some(0u64),
                forall|j: int|
                    k <= j < total ==> #[trigger] self.entry(
                        (virt.spec_value() + j * psg) as usize,
                        ml as int,
                    ) == old(self).entry((virt.spec_value() + j * psg) as usize, ml as int),
                forall|v2: usize, l2: int|
                    ml < l2 <= maxg ==> #[trigger] self.entry(v2, l2) == old(self).entry(v2, l2),
                forall|v2: usize|
                    (forall|j: int|
                        0 <= j < total ==> !(#[trigger] same_page(
                            v2,
                            (virt.spec_value() + j * psg) as usize,
                            ml as int,
                            maxg,
                        ))) ==> #[trigger] self.entry(v2, ml as int) == old(self).entry(
                        v2,
                        ml as int,
                    ),
                forall|v2: usize| #[trigger]
                    self.walk(v2, ml as int) == old(self).walk(v2, ml as int),
                forall|rs: Seq<Region>|
                    #[trigger] tables_disjoint(s_old, rs) ==> tables_disjoint(
                        self.tables_seq(),
                        rs,
                    ),
            decreases total - k,
        {
            let ghost hat_pre = *self;
            proof {
                assert((k as int) * psg <= (total as int - 1) * psg) by (nonlinear_arith)
                    requires
                        k as int <= total as int - 1 && psg > 0,
                ;
                assert((k as int) * psg >= 0) by (nonlinear_arith)
                    requires
                        k as int >= 0 && psg > 0,
                ;
                assert((total as int - 1) * psg == total * psg - psg) by (nonlinear_arith);
            }
            let vk = virt.to_usize() + k * psz;
            proof {
                assert(vk as int == virt.spec_value() + k as int * psg);
            }
            self.unmap_one(vk, ml);
            proof {
                let v0 = virt.spec_value();
                assert forall|j: int|
                    0 <= j < total && j != k implies !(#[trigger] same_page(
                    (v0 + j * psg) as usize,
                    vk,
                    ml as int,
                    maxg,
                )) by {
                    let vj = (v0 + j * psg) as usize;
                    assert(j * psg >= 0 && j * psg <= (total as int - 1) * psg) by (nonlinear_arith)
                        requires
                            0 <= j <= total as int - 1 && psg > 0,
                    ;
                    assert(vj as int % psg == 0 && vk as int % psg == 0) by {
                        lemma_mod_sum_aligned(v0, j, psg);
                        lemma_mod_sum_aligned(v0, k as int, psg);
                    }
                    assert(vj != vk) by {
                        assert(j * psg != k as int * psg) by (nonlinear_arith)
                            requires
                                j != k as int && psg > 0,
                        ;
                    }
                    lemma_pages_not_same_page(mmu0, (v0) as usize, size as int, vj, vk, ml as int);
                }
                assert forall|j: int| 0 <= j < k as int + 1 implies #[trigger] self.entry(
                    (v0 + j * psg) as usize,
                    ml as int,
                ) == Some(0u64) by {
                    if j < k as int {
                        assert(hat_pre.entry((v0 + j * psg) as usize, ml as int) == Some(0u64));
                        assert(!same_page((v0 + j * psg) as usize, vk, ml as int, maxg));
                    } else {
                        assert((v0 + j * psg) as usize == vk);
                    }
                }
                assert forall|j: int| k as int + 1 <= j < total implies #[trigger] self.entry(
                    (v0 + j * psg) as usize,
                    ml as int,
                ) == old(self).entry((v0 + j * psg) as usize, ml as int) by {
                    assert(!same_page((v0 + j * psg) as usize, vk, ml as int, maxg));
                    assert(hat_pre.entry((v0 + j * psg) as usize, ml as int) == old(self).entry(
                        (v0 + j * psg) as usize,
                        ml as int,
                    ));
                }
                assert forall|v2: usize|
                    (forall|j: int|
                        0 <= j < total ==> !(#[trigger] same_page(
                            v2,
                            (v0 + j * psg) as usize,
                            ml as int,
                            maxg,
                        ))) implies #[trigger] self.entry(v2, ml as int) == old(self).entry(
                    v2,
                    ml as int,
                ) by {
                    assert(!same_page(v2, (v0 + k as int * psg) as usize, ml as int, maxg));
                    assert(!same_page(v2, vk, ml as int, maxg));
                    assert(hat_pre.entry(v2, ml as int) == old(self).entry(v2, ml as int));
                }
            }
            k += 1;
        }
    }
}

/// Remapping a range with the very translations it already holds is
/// accepted everywhere and needs no frames: after a successful fill,
/// every leaf of the range holds exactly the expected entry, a slot
/// holding the expected entry accepts it again, every walk of the range
/// is complete, and the unready-page count — the only thing the frame
/// budget is charged for — is zero. An identical remap is therefore an
/// idempotent no-op, even from a drained allocator.
pub proof fn lemma_map_idempotent(
    h: Hat,
    virt: int,
    phys: int,
    size: int,
    page_size: PageSize,
    prot: Prot,
)
    requires
        ({
            let ml = h.spec_mmu().spec_map_level(page_size);
            let ps = spec_level_size(ml);
            let lf = spec_leaf_flags(h.spec_mmu(), prot, ml);
            forall|k: int|
                0 <= k < size / ps ==> #[trigger] h.entry((virt + k * ps) as usize, ml) == Some(
                    ((phys + k * ps) as usize as u64) | lf,
                )
        }),
    ensures
        ({
            let ml = h.spec_mmu().spec_map_level(page_size);
            let ps = spec_level_size(ml);
            let lf = spec_leaf_flags(h.spec_mmu(), prot, ml);
            &&& forall|k: int|
                0 <= k < size / ps ==> slot_accepts(
                    #[trigger] h.entry((virt + k * ps) as usize, ml),
                    ((phys + k * ps) as usize as u64) | lf,
                )
            &&& forall|k: int|
                0 <= k < size / ps ==> #[trigger] h.walk((virt + k * ps) as usize, ml) >= 0
            &&& unready_pages(
                h.tables_seq(),
                h.spec_top(),
                h.spec_max(),
                virt,
                ml,
                ps,
                0,
                size / ps,
            ) == 0
        }),
{
    let ml = h.spec_mmu().spec_map_level(page_size);
    let ps = spec_level_size(ml);
    assert forall|k: int| 0 <= k < size / ps implies #[trigger] walk_base(
        h.tables_seq(),
        h.spec_top(),
        h.spec_max(),
        (virt + k * ps) as usize,
        ml,
    ) >= 0 by {
        assert(h.entry((virt + k * ps) as usize, ml) is Some);
    }
    lemma_unready_zero(h.tables_seq(), h.spec_top(), h.spec_max(), virt, ml, ps, 0, size / ps);
}

/// Remapping a range to a different physical address is refused on its
/// very first page, with the physical address already mapped there: the
/// leaf holds a present entry whose address bits are the old frame, and a
/// request for another frame packs different address bits.
pub proof fn lemma_map_conflict(
    h: Hat,
    virt: int,
    phys: int,
    phys2: int,
    size: int,
    page_size: PageSize,
    prot: Prot,
)
    requires
        phys != phys2,
        ({
            let ml = h.spec_mmu().spec_map_level(page_size);
            let ps = spec_level_size(ml);
            let lf = spec_leaf_flags(h.spec_mmu(), prot, ml);
            &&& size / ps >= 1
            &&& phys % ps == 0
            &&& phys2 % ps == 0
            &&& 0 <= phys
            &&& 0 <= phys2
            &&& phys + size <= 0x0010_0000_0000_0000
            &&& phys2 + size <= 0x0010_0000_0000_0000
            &&& phys + size <= usize::MAX + 1
            &&& phys2 + size <= usize::MAX + 1
            &&& h.spec_mmu().wf()
            &&& prot.wf()
            &&& forall|k: int|
                0 <= k < size / ps ==> #[trigger] h.entry((virt + k * ps) as usize, ml) == Some(
                    ((phys + k * ps) as usize as u64) | lf,
                )
        }),
    ensures
        ({
            let ml = h.spec_mmu().spec_map_level(page_size);
            let ps = spec_level_size(ml);
            let lf = spec_leaf_flags(h.spec_mmu(), prot, ml);
            &&& !slot_accepts(
                h.entry(virt as usize, ml),
                ((phys2 + 0 * ps) as usize as u64) | lf,
            )
            &&& pte_addr(h.entry(virt as usize, ml)->Some_0) == phys
        }),
{
    let ml = h.spec_mmu().spec_map_level(page_size);
    let ps = spec_level_size(ml);
    let lf = spec_leaf_flags(h.spec_mmu(), prot, ml);
    lemma_leaf_flags_shape(h.spec_mmu(), prot, ml);
    assert(h.entry((virt + 0 * ps) as usize, ml) == Some(((phys + 0 * ps) as usize as u64) | lf));
    assert((virt + 0 * ps) as usize == virt as usize);
    let e = ((phys) as usize as u64) | lf;
    let e2 = ((phys2) as usize as u64) | lf;
    lemma_align_coarser(phys, ps);
    lemma_align_coarser(phys2, ps);
    assert(ps >= 0x1000);
    assert(phys as usize as u64 == phys && phys2 as usize as u64 == phys2);
    lemma_align_bits(phys as usize as u64);
    lemma_align_bits(phys2 as usize as u64);
    lemma_pte_pack(phys as usize as u64, lf);
    lemma_pte_pack(phys2 as usize as u64, lf);
    assert(pte_addr(e) == phys && pte_addr(e2) == phys2);
    assert(e != e2);
    let base_flags = h.spec_mmu().protmap.view()[prot.spec_bits()] | spec_level_flags(ml);
    assert(lf == base_flags | PTE_PRESENT);
    assert((base_flags | 1u64) & 1u64 != 0) by (bit_vector);
    assert(pte_present(lf));
    assert(pte_present(e));
}

/// Filling a range that crosses a table boundary lays down, page for page,
/// exactly the translations that mapping each page by itself would lay
/// down: the expected leaf of page `k` of the whole range is the expected
/// leaf of the single-page request at `virt + k * ps`, and the two
/// acceptance conditions read the same slot.
pub proof fn lemma_map_page_at_a_time(
    mmu: MmuInfo,
    virt: int,
    phys: int,
    size: int,
    page_size: PageSize,
    prot: Prot,
    k: int,
)
    requires
        0 <= k < size / spec_level_size(mmu.spec_map_level(page_size)),
    ensures
        ({
            let ml = mmu.spec_map_level(page_size);
            let ps = spec_level_size(ml);
            let lf = spec_leaf_flags(mmu, prot, ml);
            // page k of the big range...
            ((phys + k * ps) as usize as u64) | lf == (((phys + k * ps) + 0 * ps) as usize as u64)
                | lf
            // ...lands at the very address page 0 of the small range lands at.
             && (virt + k * ps) == ((virt + k * ps) + 0 * ps)
        }),
{
}

} // verus!
