//! Physical Memory Manager: a free list of page-frame runs, kept sorted by
//! base address and coalesced, serving contiguous-frame allocation from the
//! high end and bulk free with neighbour coalescing.
//!
//! The kernel keeps the list nodes inside the free frames themselves; here
//! the same list is held as region descriptors, which is the model the rest
//! of the crate reasons about. One lock (the caller's) serializes access.

use vstd::prelude::*;

use crate::vm::{PhysAddr, VirtAddr, Hhdm, PAGE_SIZE, pages_for, spec_pages_for};

verus! {

/// One maximal run of free page frames: `len` frames starting at physical
/// address `base`.
#[derive(Clone, Copy, Debug, PartialEq, Eq, Structural)]
pub struct Region {
    pub base: usize,
    pub len: usize,
}

/// One past the last byte of a run.
pub open spec fn region_end(r: Region) -> int {
    r.base + r.len * PAGE_SIZE
}

/// A single run is sane: nonempty, page-aligned, wholly inside the address
/// space.
pub open spec fn region_wf(r: Region) -> bool {
    &&& r.len > 0
    &&& r.base as int % PAGE_SIZE as int == 0
    &&& region_end(r) <= usize::MAX
}

/// The free list is sorted strictly by `base`, and every adjacent pair keeps
/// a gap: `a.base + PAGE_SIZE * a.len < b.base`. Runs that touch would have
/// been coalesced into one.
pub open spec fn wf_runs(s: Seq<Region>) -> bool {
    &&& forall|i: int| 0 <= i < s.len() ==> region_wf(#[trigger] s[i])
    &&& forall|i: int| 0 <= i < s.len() - 1 ==> region_end(#[trigger] s[i]) < s[i + 1].base
}

/// Whether byte address `a` lies inside some free run.
pub open spec fn covered(s: Seq<Region>, a: int) -> bool {
    exists|i: int| 0 <= i < s.len() && (#[trigger] s[i]).base <= a < region_end(s[i])
}

/// Total number of free frames on the list.
pub open spec fn frame_count(s: Seq<Region>) -> int
    decreases s.len(),
{
    if s.len() == 0 {
        0
    } else {
        frame_count(s.drop_last()) + s.last().len
    }
}

/// Index of the run the allocator carves from: walking from the tail, the
/// first run with at least `n` frames. `-1` when no run fits.
pub open spec fn find_fit(s: Seq<Region>, n: int) -> int
    decreases s.len(),
{
    if s.len() == 0 {
        -1
    } else if s.last().len >= n {
        s.len() - 1
    } else {
        find_fit(s.drop_last(), n)
    }
}

/// The free list after carving `n` frames from the top of run `i`.
pub open spec fn carve(s: Seq<Region>, i: int, n: int) -> Seq<Region> {
    if s[i].len == n {
        s.remove(i)
    } else {
        s.update(i, Region { base: s[i].base, len: (s[i].len - n) as usize })
    }
}

/// The address the allocator hands out when carving run `i`: the base of the
/// top `n` frames.
pub open spec fn carve_addr(s: Seq<Region>, i: int, n: int) -> int {
    s[i].base + (s[i].len - n) * PAGE_SIZE
}

/// Where a run starting at `base` belongs in the sorted list: the number of
/// runs that stay below it.
pub open spec fn insert_pos(s: Seq<Region>, base: int) -> int
    decreases s.len(),
{
    if s.len() == 0 {
        0
    } else if s.last().base < base {
        s.len() as int
    } else {
        insert_pos(s.drop_last(), base)
    }
}

/// The free list after inserting a run of `n` frames at `base`, coalescing
/// with the left and the right neighbour whenever they touch.
pub open spec fn insert_run(s: Seq<Region>, base: int, n: int) -> Seq<Region> {
    let j = insert_pos(s, base);
    let ml = j > 0 && region_end(s[j - 1]) == base;
    let mr = j < s.len() && base + n * PAGE_SIZE == s[j].base;
    let nb = if ml { s[j - 1].base as int } else { base };
    let nl = (if ml { s[j - 1].len as int } else { 0 }) + n + (if mr { s[j].len as int } else { 0 });
    let lo = if ml { j - 1 } else { j };
    let hi = if mr { j + 1 } else { j };
    s.subrange(0, lo) + seq![Region { base: nb as usize, len: nl as usize }]
        + s.subrange(hi, s.len() as int)
}

/// `insert_pos` is the unique index with everything below it based under
/// `base` and everything from it on based at or above `base`.
pub proof fn lemma_insert_pos_char(s: Seq<Region>, base: int, j: int)
    requires
        0 <= j <= s.len(),
        forall|k: int| j <= k < s.len() ==> (#[trigger] s[k]).base >= base,
        j > 0 ==> s[j - 1].base < base,
    ensures
        insert_pos(s, base) == j,
    decreases s.len(),
{
    if s.len() == 0 {
    } else if s.last().base < base {
        assert(j == s.len());
    } else {
        assert(j < s.len());
        lemma_insert_pos_char(s.drop_last(), base, j);
    }
}

/// `find_fit` is the unique index of the highest run with room for `n`.
pub proof fn lemma_find_fit_char(s: Seq<Region>, n: int, j: int)
    requires
        0 <= j < s.len(),
        s[j].len >= n,
        forall|k: int| j < k < s.len() ==> (#[trigger] s[k]).len < n,
    ensures
        find_fit(s, n) == j,
    decreases s.len(),
{
    if s.last().len >= n {
        assert(j == s.len() - 1);
    } else {
        assert(j < s.len() - 1);
        lemma_find_fit_char(s.drop_last(), n, j);
    }
}

/// A fitting index returned by `find_fit` is a real index of a run with
/// room.
pub proof fn lemma_find_fit_props(s: Seq<Region>, n: int)
    ensures
        find_fit(s, n) == -1 || (0 <= find_fit(s, n) < s.len() && s[find_fit(s, n)].len >= n),
    decreases s.len(),
{
    if s.len() == 0 {
    } else if s.last().len >= n {
    } else {
        lemma_find_fit_props(s.drop_last(), n);
    }
}

/// When no run has room for `n`, nothing fits.
pub proof fn lemma_find_fit_none(s: Seq<Region>, n: int)
    requires
        forall|k: int| 0 <= k < s.len() ==> (#[trigger] s[k]).len < n,
    ensures
        find_fit(s, n) == -1,
    decreases s.len(),
{
    if s.len() > 0 {
        lemma_find_fit_none(s.drop_last(), n);
    }
}

/// A frame count is never negative.
pub proof fn lemma_frame_count_nonneg(s: Seq<Region>)
    ensures
        frame_count(s) >= 0,
    decreases s.len(),
{
    if s.len() > 0 {
        lemma_frame_count_nonneg(s.drop_last());
    }
}

/// Counting frames distributes over concatenation.
pub proof fn lemma_frame_count_concat(a: Seq<Region>, b: Seq<Region>)
    ensures
        frame_count(a + b) == frame_count(a) + frame_count(b),
    decreases b.len(),
{
    if b.len() == 0 {
        assert(a + b =~= a);
    } else {
        lemma_frame_count_concat(a, b.drop_last());
        assert((a + b).drop_last() =~= a + b.drop_last());
        assert((a + b).last() == b.last());
    }
}

/// An address is covered by a concatenation exactly when one of the halves
/// covers it.
pub proof fn lemma_covered_concat(a: Seq<Region>, b: Seq<Region>, x: int)
    ensures
        covered(a + b, x) <==> (covered(a, x) || covered(b, x)),
{
    if covered(a, x) {
        let i = choose|i: int| 0 <= i < a.len() && (#[trigger] a[i]).base <= x < region_end(a[i]);
        assert((a + b)[i] == a[i]);
    }
    if covered(b, x) {
        let i = choose|i: int| 0 <= i < b.len() && (#[trigger] b[i]).base <= x < region_end(b[i]);
        assert((a + b)[a.len() + i] == b[i]);
    }
    if covered(a + b, x) {
        let i = choose|i: int|
            0 <= i < (a + b).len() && (#[trigger] (a + b)[i]).base <= x < region_end((a + b)[i]);
        if i < a.len() {
            assert(a[i] == (a + b)[i]);
        } else {
            assert(b[i - a.len()] == (a + b)[i]);
        }
    }
}

/// In a well-formed list every earlier run ends below every later base.
pub proof fn lemma_wf_order(s: Seq<Region>, i: int, k: int)
    requires
        wf_runs(s),
        0 <= i < k < s.len(),
    ensures
        region_end(s[i]) < s[k].base,
    decreases k - i,
{
    if k == i + 1 {
    } else {
        lemma_wf_order(s, i + 1, k);
    }
}

/// What `insert_pos` picks: everything below it is based under `base`,
/// everything from it on is based at or above `base`.
#[verifier::rlimit(50)]
#[verifier::spinoff_prover]
pub proof fn lemma_insert_pos_props(s: Seq<Region>, base: int)
    requires
        wf_runs(s),
    ensures
        0 <= insert_pos(s, base) <= s.len(),
        forall|k: int| 0 <= k < insert_pos(s, base) ==> (#[trigger] s[k]).base < base,
        forall|k: int| insert_pos(s, base) <= k < s.len() ==> (#[trigger] s[k]).base >= base,
    decreases s.len(),
{
    if s.len() == 0 {
    } else if s.last().base < base {
        assert forall|k: int| 0 <= k < s.len() implies (#[trigger] s[k]).base < base by {
            if k < s.len() - 1 {
                lemma_wf_order(s, k, s.len() - 1);
            }
        }
    } else {
        let t = s.drop_last();
        assert(wf_runs(t)) by {
            assert(forall|i: int| 0 <= i < t.len() ==> #[trigger] t[i] == s[i]);
        }
        lemma_insert_pos_props(t, base);
        let j = insert_pos(s, base);
        assert(j == insert_pos(t, base));
        assert forall|k: int| j <= k < s.len() implies (#[trigger] s[k]).base >= base by {
            if k < s.len() - 1 {
                assert(t[k] == s[k]);
            } else {
                assert(s[k] == s.last());
            }
        }
        assert forall|k: int| 0 <= k < j implies (#[trigger] s[k]).base < base by {
            assert(t[k] == s[k]);
        }
    }
}

/// Splitting a list splits its frame count.
pub proof fn lemma_frame_count_split(s: Seq<Region>, mid: int)
    requires
        0 <= mid <= s.len(),
    ensures
        frame_count(s) == frame_count(s.subrange(0, mid)) + frame_count(
            s.subrange(mid, s.len() as int),
        ),
{
    lemma_frame_count_concat(s.subrange(0, mid), s.subrange(mid, s.len() as int));
    assert(s.subrange(0, mid) + s.subrange(mid, s.len() as int) =~= s);
}

/// Frame counts of one- and two-element lists.
pub proof fn lemma_frame_count_small(r1: Region, r2: Region)
    ensures
        frame_count(seq![r1]) == r1.len,
        frame_count(seq![r1, r2]) == r1.len + r2.len,
        frame_count(Seq::<Region>::empty()) == 0,
{
    reveal_with_fuel(frame_count, 3);
    assert(seq![r1].drop_last() =~= Seq::<Region>::empty());
    assert(seq![r1].last() == r1);
    assert(seq![r1, r2].drop_last() =~= seq![r1]);
    assert(seq![r1, r2].last() == r2);
}

/// The preconditions under which a run of `n` frames at `base` may be
/// returned to the allocator: aligned, nonempty, inside the address space,
/// and overlapping no run already free.
pub open spec fn insert_pre(s: Seq<Region>, base: int, n: int) -> bool {
    &&& wf_runs(s)
    &&& 0 <= base
    &&& base % (PAGE_SIZE as int) == 0
    &&& n > 0
    &&& base + n * PAGE_SIZE <= usize::MAX
    &&& forall|i: int|
        0 <= i < s.len() ==> region_end(#[trigger] s[i]) <= base || base + n * PAGE_SIZE
            <= s[i].base
}

/// Facts about the insertion point that every part of the insertion proof
/// leans on.
proof fn lemma_insert_setup(s: Seq<Region>, base: int, n: int)
    requires
        insert_pre(s, base, n),
    ensures
        0 <= insert_pos(s, base) <= s.len(),
        forall|k: int| 0 <= k < insert_pos(s, base) ==> (#[trigger] s[k]).base < base,
        forall|k: int| insert_pos(s, base) <= k < s.len() ==> (#[trigger] s[k]).base >= base,
        insert_pos(s, base) > 0 ==> region_end(s[insert_pos(s, base) - 1]) <= base,
        insert_pos(s, base) < s.len() ==> base + n * PAGE_SIZE <= s[insert_pos(s, base)].base,
{
    lemma_insert_pos_props(s, base);
    let j = insert_pos(s, base);
    if j > 0 {
        assert(region_end(s[j - 1]) > s[j - 1].base);
    }
    if j < s.len() {
        assert(region_end(s[j]) > s[j].base);
    }
}

/// The merged run produced by an insertion is itself well formed.
proof fn lemma_insert_merged_wf(s: Seq<Region>, base: int, n: int)
    requires
        insert_pre(s, base, n),
    ensures
        ({
            let j = insert_pos(s, base);
            let ml = j > 0 && region_end(s[j - 1]) == base;
            let mr = j < s.len() && base + n * PAGE_SIZE == s[j].base;
            let nb = if ml { s[j - 1].base as int } else { base };
            let nl = (if ml { s[j - 1].len as int } else { 0 }) + n + (if mr {
                s[j].len as int
            } else {
                0
            });
            let merged = Region { base: nb as usize, len: nl as usize };
            &&& region_wf(merged)
            &&& merged.base == nb
            &&& merged.len == nl
            &&& merged.base == (if ml { s[j - 1].base as int } else { base })
            &&& region_end(merged) == (if mr { region_end(s[j]) } else { base + n * PAGE_SIZE })
        }),
{
    lemma_insert_setup(s, base, n);
    let j = insert_pos(s, base);
    let ml = j > 0 && region_end(s[j - 1]) == base;
    let mr = j < s.len() && base + n * PAGE_SIZE == s[j].base;
    let a = if ml { s[j - 1].len as int } else { 0 };
    let c = if mr { s[j].len as int } else { 0 };
    assert((a + n + c) * (PAGE_SIZE as int) == a * (PAGE_SIZE as int) + n * (PAGE_SIZE as int) + c
        * (PAGE_SIZE as int)) by (nonlinear_arith);
}

/// Insertion keeps the free list well formed.
#[verifier::rlimit(100)]
#[verifier::spinoff_prover]
proof fn lemma_insert_run_wf(s: Seq<Region>, base: int, n: int)
    requires
        insert_pre(s, base, n),
    ensures
        wf_runs(insert_run(s, base, n)),
{
    lemma_insert_setup(s, base, n);
    lemma_insert_merged_wf(s, base, n);
    let j = insert_pos(s, base);
    let ml = j > 0 && region_end(s[j - 1]) == base;
    let mr = j < s.len() && base + n * PAGE_SIZE == s[j].base;
    let lo = if ml { j - 1 } else { j };
    let hi = if mr { j + 1 } else { j };
    let ins = insert_run(s, base, n);
    let merged = ins[lo];
    assert(ins == s.subrange(0, lo) + seq![merged] + s.subrange(hi, s.len() as int));

    assert forall|i: int| 0 <= i < ins.len() implies region_wf(#[trigger] ins[i]) by {
        if i < lo {
            assert(ins[i] == s[i]);
        } else if i > lo {
            assert(ins[i] == s[i - lo - 1 + hi]);
        }
    }
    assert forall|i: int| 0 <= i < ins.len() - 1 implies region_end(#[trigger] ins[i]) < ins[i
        + 1].base by {
        if i + 1 < lo {
            assert(ins[i] == s[i] && ins[i + 1] == s[i + 1]);
        } else if i + 1 == lo {
            assert(ins[i] == s[i]);
            if ml {
                assert(i == j - 2);
            } else {
                assert(i == j - 1);
                assert(region_end(s[j - 1]) <= base && region_end(s[j - 1]) != base);
            }
        } else if i == lo {
            assert(ins[i + 1] == s[hi]);
            if mr {
                assert(region_end(merged) == region_end(s[j]));
            } else {
                assert(region_end(merged) == base + n * PAGE_SIZE);
            }
        } else {
            assert(ins[i] == s[i - lo - 1 + hi] && ins[i + 1] == s[i - lo + hi]);
        }
    }
}

/// Insertion adds exactly the new byte range to what is covered.
#[verifier::rlimit(100)]
#[verifier::spinoff_prover]
proof fn lemma_insert_run_covered_at(s: Seq<Region>, base: int, n: int, x: int)
    requires
        insert_pre(s, base, n),
    ensures
        covered(insert_run(s, base, n), x) <==> covered(s, x) || (base <= x < base + n
            * PAGE_SIZE),
{
    lemma_insert_setup(s, base, n);
    lemma_insert_merged_wf(s, base, n);
    let j = insert_pos(s, base);
    let ml = j > 0 && region_end(s[j - 1]) == base;
    let mr = j < s.len() && base + n * PAGE_SIZE == s[j].base;
    let lo = if ml { j - 1 } else { j };
    let hi = if mr { j + 1 } else { j };
    let ins = insert_run(s, base, n);
    let merged = ins[lo];
    let left = s.subrange(0, lo);
    let right = s.subrange(hi, s.len() as int);
    assert(ins == left + seq![merged] + right);
    assert(seq![merged][0] == merged);

    lemma_covered_concat(left + seq![merged], right, x);
    lemma_covered_concat(left, seq![merged], x);
    if covered(left, x) {
        let i = choose|i: int|
            0 <= i < left.len() && (#[trigger] left[i]).base <= x < region_end(left[i]);
        assert(s[i] == left[i]);
        assert(covered(s, x));
    }
    if covered(right, x) {
        let i = choose|i: int|
            0 <= i < right.len() && (#[trigger] right[i]).base <= x < region_end(right[i]);
        assert(s[i + hi] == right[i]);
        assert(covered(s, x));
    }
    if covered(seq![merged], x) {
        assert(merged.base <= x < region_end(merged));
        if ml && x < base {
            assert(s[j - 1].base <= x < region_end(s[j - 1]));
            assert(covered(s, x));
        } else if mr && x >= base + n * PAGE_SIZE {
            assert(s[j].base <= x < region_end(s[j]));
            assert(covered(s, x));
        }
    }
    if covered(s, x) {
        let i = choose|i: int| 0 <= i < s.len() && (#[trigger] s[i]).base <= x < region_end(s[i]);
        if i < lo {
            assert(left[i] == s[i]);
            assert(covered(left, x));
        } else if i >= hi {
            assert(right[i - hi] == s[i]);
            assert(covered(right, x));
        } else {
            assert(merged.base <= x < region_end(merged));
            assert(covered(seq![merged], x));
        }
    }
    if base <= x < base + n * PAGE_SIZE {
        assert(merged.base <= x < region_end(merged));
        assert(covered(seq![merged], x));
    }
}

/// Insertion grows the frame count by exactly `n`.
#[verifier::rlimit(100)]
#[verifier::spinoff_prover]
proof fn lemma_insert_run_count(s: Seq<Region>, base: int, n: int)
    requires
        insert_pre(s, base, n),
    ensures
        frame_count(insert_run(s, base, n)) == frame_count(s) + n,
{
    lemma_insert_setup(s, base, n);
    lemma_insert_merged_wf(s, base, n);
    let j = insert_pos(s, base);
    let ml = j > 0 && region_end(s[j - 1]) == base;
    let mr = j < s.len() && base + n * PAGE_SIZE == s[j].base;
    let lo = if ml { j - 1 } else { j };
    let hi = if mr { j + 1 } else { j };
    let ins = insert_run(s, base, n);
    let merged = ins[lo];
    let left = s.subrange(0, lo);
    let right = s.subrange(hi, s.len() as int);
    assert(ins == left + seq![merged] + right);

    lemma_frame_count_concat(left + seq![merged], right);
    lemma_frame_count_concat(left, seq![merged]);
    lemma_frame_count_small(merged, merged);
    lemma_frame_count_split(s, lo);
    let tail = s.subrange(lo, s.len() as int);
    lemma_frame_count_split(tail, hi - lo);
    assert(tail.subrange(hi - lo, tail.len() as int) =~= right);
    let mids = tail.subrange(0, hi - lo);
    assert(frame_count(mids) == merged.len - n) by {
        lemma_insert_merged_wf(s, base, n);
        if ml && mr {
            assert(mids =~= seq![s[j - 1], s[j]]);
            lemma_frame_count_small(s[j - 1], s[j]);
        } else if ml {
            assert(mids =~= seq![s[j - 1]]);
            lemma_frame_count_small(s[j - 1], s[j - 1]);
        } else if mr {
            assert(mids =~= seq![s[j]]);
            lemma_frame_count_small(s[j], s[j]);
        } else {
            assert(mids =~= Seq::<Region>::empty());
        }
    }
}

/// Inserting a run, with coalescing, keeps the list well formed, adds
/// exactly the new frames to the covered bytes, and grows the frame count by
/// `n`.
pub proof fn lemma_insert_run(s: Seq<Region>, base: int, n: int)
    requires
        insert_pre(s, base, n),
    ensures
        wf_runs(insert_run(s, base, n)),
        forall|x: int|
            #[trigger] covered(insert_run(s, base, n), x) <==> covered(s, x) || (base <= x < base
                + n * PAGE_SIZE),
        frame_count(insert_run(s, base, n)) == frame_count(s) + n,
{
    lemma_insert_run_wf(s, base, n);
    lemma_insert_run_count(s, base, n);
    assert forall|x: int|
        #[trigger] covered(insert_run(s, base, n), x) <==> covered(s, x) || (base <= x < base + n
            * PAGE_SIZE) by {
        lemma_insert_run_covered_at(s, base, n, x);
    }
}

/// The inserted list, written as the one vector operation each coalescing
/// case performs.
#[verifier::rlimit(100)]
#[verifier::spinoff_prover]
proof fn lemma_insert_shape(s: Seq<Region>, base: int, n: int)
    requires
        insert_pre(s, base, n),
    ensures
        ({
            let j = insert_pos(s, base);
            let ml = j > 0 && region_end(s[j - 1]) == base;
            let mr = j < s.len() && base + n * PAGE_SIZE == s[j].base;
            let ins = insert_run(s, base, n);
            &&& (ml && mr) ==> ins == s.update(
                j - 1,
                Region {
                    base: s[j - 1].base,
                    len: (s[j - 1].len + n + s[j].len) as usize,
                },
            ).remove(j)
            &&& (ml && !mr) ==> ins == s.update(
                j - 1,
                Region { base: s[j - 1].base, len: (s[j - 1].len + n) as usize },
            )
            &&& (!ml && mr) ==> ins == s.update(
                j,
                Region { base: base as usize, len: (n + s[j].len) as usize },
            )
            &&& (!ml && !mr) ==> ins == s.insert(j, Region { base: base as usize, len: n as usize })
        }),
{
    lemma_insert_setup(s, base, n);
    lemma_insert_merged_wf(s, base, n);
    let j = insert_pos(s, base);
    let ml = j > 0 && region_end(s[j - 1]) == base;
    let mr = j < s.len() && base + n * PAGE_SIZE == s[j].base;
    let ins = insert_run(s, base, n);
    if ml && mr {
        assert(ins =~= s.update(
            j - 1,
            Region { base: s[j - 1].base, len: (s[j - 1].len + n + s[j].len) as usize },
        ).remove(j));
    } else if ml {
        assert(ins =~= s.update(
            j - 1,
            Region { base: s[j - 1].base, len: (s[j - 1].len + n) as usize },
        ));
    } else if mr {
        assert(ins =~= s.update(j, Region { base: base as usize, len: (n + s[j].len) as usize }));
    } else {
        assert(ins =~= s.insert(j, Region { base: base as usize, len: n as usize }));
    }
}

/// The physical frame allocator: the sorted, coalesced run list.
pub struct Pmm {
    regions: Vec<Region>,
}

impl Pmm {
    /// The run list this allocator currently holds.
    pub closed spec fn runs(&self) -> Seq<Region> {
        self.regions@
    }

    pub open spec fn wf(&self) -> bool {
        wf_runs(self.runs())
    }

    /// An empty allocator owning no frames.
    pub fn new() -> (r: Pmm)
        ensures
            r.runs() == Seq::<Region>::empty(),
            r.wf(),
    {
        Pmm { regions: Vec::new() }
    }

    pub fn num_regions(&self) -> (r: usize)
        ensures
            r == self.runs().len(),
    {
        self.regions.len()
    }

    pub fn region_at(&self, i: usize) -> (r: Region)
        requires
            i < self.runs().len(),
        ensures
            r == self.runs()[i as int],
    {
        self.regions[i]
    }

    /// Insert a run of `len` frames at `base`, keeping the list sorted and
    /// coalescing with the neighbours that touch it. The caller guarantees
    /// the run overlaps nothing already free; an overlap is a hard bug in
    /// the kernel.
    #[verifier::rlimit(100)]
    #[verifier::spinoff_prover]
    fn insert_region(&mut self, base: usize, len: usize)
        requires
            insert_pre(old(self).runs(), base as int, len as int),
        ensures
            final(self).wf(),
            final(self).runs() == insert_run(old(self).runs(), base as int, len as int),
            forall|x: int|
                #[trigger] covered(final(self).runs(), x) <==> covered(old(self).runs(), x) || (
                base <= x < base + len * PAGE_SIZE),
            frame_count(final(self).runs()) == frame_count(old(self).runs()) + len,
    {
        let ghost s0 = self.regions@;
        proof {
            lemma_insert_setup(s0, base as int, len as int);
            lemma_insert_merged_wf(s0, base as int, len as int);
            lemma_insert_run(s0, base as int, len as int);
        }

        // Walk back from the tail to the first run based below the new one.
        let mut j: usize = self.regions.len();
        while j > 0 && self.regions[j - 1].base >= base
            invariant
                j <= self.regions.len(),
                self.regions@ == s0,
                insert_pre(s0, base as int, len as int),
                forall|k: int| j <= k < s0.len() ==> (#[trigger] s0[k]).base >= base,
            decreases j,
        {
            j -= 1;
        }
        proof {
            lemma_insert_pos_char(s0, base as int, j as int);
        }

        let mut merge_left = false;
        if j > 0 {
            let prev = self.regions[j - 1];
            merge_left = prev.base + prev.len * PAGE_SIZE == base;
        }
        let mut merge_right = false;
        if j < self.regions.len() {
            merge_right = base + len * PAGE_SIZE == self.regions[j].base;
        }

        proof {
            lemma_insert_shape(s0, base as int, len as int);
        }
        if merge_left && merge_right {
            let prev = self.regions[j - 1];
            let next = self.regions[j];
            self.regions[j - 1] = Region { base: prev.base, len: prev.len + len + next.len };
            self.regions.remove(j);
        } else if merge_left {
            let prev = self.regions[j - 1];
            self.regions[j - 1] = Region { base: prev.base, len: prev.len + len };
        } else if merge_right {
            let next = self.regions[j];
            self.regions[j] = Region { base, len: len + next.len };
        } else {
            self.regions.insert(j, Region { base, len });
        }
    }
}

/// Return `num_frames` contiguous frames starting at `base` to the
/// allocator. The range must be page-aligned, nonempty, and must not
/// overlap any run already free.
pub fn free_frames(pmm: &mut Pmm, base: PhysAddr, num_frames: usize)
    requires
        insert_pre(old(pmm).runs(), base.spec_value(), num_frames as int),
    ensures
        final(pmm).wf(),
        final(pmm).runs() == insert_run(old(pmm).runs(), base.spec_value(), num_frames as int),
        forall|x: int|
            #[trigger] covered(final(pmm).runs(), x) <==> covered(old(pmm).runs(), x) || (
            base.spec_value() <= x < base.spec_value() + num_frames * PAGE_SIZE),
        frame_count(final(pmm).runs()) == frame_count(old(pmm).runs()) + num_frames,
{
    pmm.insert_region(base.to_usize(), num_frames);
}

/// Allocate `num_frames` contiguous frames, carving them from the top of
/// the highest-address run that has room; `None` when no run fits.
#[verifier::rlimit(100)]
#[verifier::spinoff_prover]
pub fn alloc_frames(pmm: &mut Pmm, num_frames: usize) -> (r: Option<PhysAddr>)
    requires
        old(pmm).wf(),
        num_frames > 0,
    ensures
        final(pmm).wf(),
        r is None ==> find_fit(old(pmm).runs(), num_frames as int) == -1 && final(pmm).runs()
            == old(pmm).runs(),
        r matches Some(addr) ==> ({
            let s0 = old(pmm).runs();
            let f = find_fit(s0, num_frames as int);
            &&& f >= 0
            &&& addr.spec_value() == carve_addr(s0, f, num_frames as int)
            &&& final(pmm).runs() == carve(s0, f, num_frames as int)
            &&& addr.spec_value() % (PAGE_SIZE as int) == 0
            &&& addr.spec_value() + num_frames * PAGE_SIZE <= usize::MAX
            &&& frame_count(final(pmm).runs()) == frame_count(s0) - num_frames
            &&& forall|x: int|
                #[trigger] covered(final(pmm).runs(), x) <==> covered(s0, x) && !(
                addr.spec_value() <= x < addr.spec_value() + num_frames * PAGE_SIZE)
        }),
{
    let ghost s0 = pmm.regions@;
    let n = num_frames;
    let mut i: usize = pmm.regions.len();
    while i > 0 && pmm.regions[i - 1].len < n
        invariant
            i <= pmm.regions.len(),
            pmm.regions@ == s0,
            wf_runs(s0),
            n == num_frames,
            n > 0,
            forall|k: int| i <= k < s0.len() ==> (#[trigger] s0[k]).len < n,
        decreases i,
    {
        i -= 1;
    }
    if i == 0 {
        proof {
            lemma_find_fit_none(s0, n as int);
        }
        return None;
    }
    let f = i - 1;
    let reg = pmm.regions[f];
    proof {
        lemma_find_fit_char(s0, n as int, f as int);
    }
    let new_len = reg.len - n;
    let addr = reg.base + new_len * PAGE_SIZE;
    if new_len == 0 {
        pmm.regions.remove(f);
    } else {
        pmm.regions[f] = Region { base: reg.base, len: new_len };
    }
    proof {
        assert(region_wf(s0[f as int]));
        lemma_carve(s0, f as int, n as int);
        assert(pmm.regions@ == carve(s0, f as int, n as int));
        assert((reg.len - n) * (PAGE_SIZE as int) + n * (PAGE_SIZE as int) == reg.len * (
        PAGE_SIZE as int)) by (nonlinear_arith);
        assert(addr % PAGE_SIZE == 0) by {
            lemma_mod_multiple(reg.base as int, new_len as int);
        }
    }
    Some(PhysAddr::new(addr))
}

/// Adding a multiple of the page size preserves page alignment.
proof fn lemma_mod_multiple(a: int, k: int)
    requires
        a % (PAGE_SIZE as int) == 0,
        k >= 0,
    ensures
        (a + k * PAGE_SIZE) % (PAGE_SIZE as int) == 0,
{
    let p = PAGE_SIZE as int;
    vstd::arithmetic::div_mod::lemma_mod_multiples_vanish(k, a, p);
    assert(p * k == k * p) by (nonlinear_arith);
}

/// What carving does to well-formedness, coverage, and the count.
#[verifier::rlimit(100)]
#[verifier::spinoff_prover]
proof fn lemma_carve(s: Seq<Region>, f: int, n: int)
    requires
        wf_runs(s),
        0 <= f < s.len(),
        n > 0,
        s[f].len >= n,
    ensures
        wf_runs(carve(s, f, n)),
        frame_count(carve(s, f, n)) == frame_count(s) - n,
        forall|x: int|
            #[trigger] covered(carve(s, f, n), x) <==> covered(s, x) && !(carve_addr(s, f, n) <= x
                < carve_addr(s, f, n) + n * PAGE_SIZE),
{
    let c = carve(s, f, n);
    let a = carve_addr(s, f, n);
    let r = s[f];
    assert((r.len - n) * (PAGE_SIZE as int) + n * (PAGE_SIZE as int) == r.len * (PAGE_SIZE as int))
        by (nonlinear_arith);
    assert(a + n * PAGE_SIZE == region_end(r));

    if r.len == n {
        assert(c == s.remove(f));
        assert(c =~= s.subrange(0, f) + s.subrange(f + 1, s.len() as int));
        assert forall|i: int| 0 <= i < c.len() implies region_wf(#[trigger] c[i]) by {
            if i < f {
                assert(c[i] == s[i]);
            } else {
                assert(c[i] == s[i + 1]);
            }
        }
        assert forall|i: int| 0 <= i < c.len() - 1 implies region_end(#[trigger] c[i]) < c[i
            + 1].base by {
            if i < f - 1 {
                assert(c[i] == s[i] && c[i + 1] == s[i + 1]);
            } else if i == f - 1 {
                assert(c[i] == s[i] && c[i + 1] == s[f + 1]);
                lemma_wf_order(s, f - 1, f + 1);
            } else {
                assert(c[i] == s[i + 1] && c[i + 1] == s[i + 2]);
            }
        }
        lemma_frame_count_split(s, f);
        let t = s.subrange(f, s.len() as int);
        lemma_frame_count_split(t, 1);
        assert(t.subrange(0, 1) =~= seq![r]);
        lemma_frame_count_small(r, r);
        assert(t.subrange(1, t.len() as int) =~= s.subrange(f + 1, s.len() as int));
        lemma_frame_count_concat(s.subrange(0, f), s.subrange(f + 1, s.len() as int));
    } else {
        let shrunk = Region { base: r.base, len: (r.len - n) as usize };
        assert(c == s.update(f, shrunk));
        assert(region_end(shrunk) == a);
        assert forall|i: int| 0 <= i < c.len() implies region_wf(#[trigger] c[i]) by {
            if i != f {
                assert(c[i] == s[i]);
            }
        }
        assert forall|i: int| 0 <= i < c.len() - 1 implies region_end(#[trigger] c[i]) < c[i
            + 1].base by {
            if i != f && i + 1 != f {
                assert(c[i] == s[i] && c[i + 1] == s[i + 1]);
            } else if i == f {
                assert(c[i + 1] == s[i + 1]);
                assert(region_end(shrunk) <= region_end(r));
            } else {
                assert(c[i] == s[i]);
            }
        }
        lemma_frame_count_update(s, f, shrunk);
    }

    // Coverage: exactly the carved byte range disappears.
    assert forall|x: int|
        #[trigger] covered(c, x) <==> covered(s, x) && !(a <= x < a + n * PAGE_SIZE) by {
        if covered(c, x) {
            let i = choose|i: int|
                0 <= i < c.len() && (#[trigger] c[i]).base <= x < region_end(c[i]);
            if r.len == n {
                let iorig = if i < f {
                    i
                } else {
                    i + 1
                };
                assert(s[iorig] == c[i]);
                assert(covered(s, x));
                if iorig < f {
                    lemma_wf_order(s, iorig, f);
                    assert(x < a);
                } else if iorig > f {
                    lemma_wf_order(s, f, iorig);
                    assert(x >= s[iorig].base);
                }
            } else {
                let iorig = i;
                if i == f {
                    assert(s[f].base <= x < a);
                } else {
                    assert(s[iorig] == c[i]);
                }
                assert(covered(s, x));
                if iorig < f {
                    lemma_wf_order(s, iorig, f);
                } else if iorig > f {
                    lemma_wf_order(s, f, iorig);
                }
            }
        }
        if covered(s, x) && !(a <= x < a + n * PAGE_SIZE) {
            let i = choose|i: int|
                0 <= i < s.len() && (#[trigger] s[i]).base <= x < region_end(s[i]);
            if r.len == n {
                if i < f {
                    assert(c[i] == s[i]);
                    assert(covered(c, x));
                } else if i > f {
                    assert(c[i - 1] == s[i]);
                    assert(covered(c, x));
                } else {
                    assert(a <= x < a + n * PAGE_SIZE);
                }
            } else {
                if i != f {
                    assert(c[i] == s[i]);
                    assert(covered(c, x));
                } else {
                    assert(x < a);
                    assert(c[f].base <= x < region_end(c[f]));
                    assert(covered(c, x));
                }
            }
        }
    }
}

/// Replacing one run changes the count by the difference in lengths.
proof fn lemma_frame_count_update(s: Seq<Region>, f: int, r: Region)
    requires
        0 <= f < s.len(),
    ensures
        frame_count(s.update(f, r)) == frame_count(s) - s[f].len + r.len,
{
    let c = s.update(f, r);
    lemma_frame_count_split(s, f);
    lemma_frame_count_split(c, f);
    assert(c.subrange(0, f) =~= s.subrange(0, f));
    let t = s.subrange(f, s.len() as int);
    let u = c.subrange(f, c.len() as int);
    lemma_frame_count_split(t, 1);
    lemma_frame_count_split(u, 1);
    assert(t.subrange(0, 1) =~= seq![s[f]]);
    assert(u.subrange(0, 1) =~= seq![r]);
    lemma_frame_count_small(s[f], r);
    lemma_frame_count_small(r, r);
    assert(u.subrange(1, u.len() as int) =~= t.subrange(1, t.len() as int));
}

/// A well-formed free list is the canonical decomposition of its covered
/// bytes into maximal runs: two well-formed lists covering the same bytes
/// are the same list.
#[verifier::rlimit(100)]
#[verifier::spinoff_prover]
pub proof fn lemma_wf_covered_unique(s1: Seq<Region>, s2: Seq<Region>)
    requires
        wf_runs(s1),
        wf_runs(s2),
        forall|x: int| covered(s1, x) <==> covered(s2, x),
    ensures
        s1 == s2,
    decreases s1.len(),
{
    if s1.len() == 0 {
        if s2.len() > 0 {
            assert(covered(s2, s2[0].base as int));
            assert(!covered(s1, s2[0].base as int));
        }
        assert(s1 =~= s2);
    } else if s2.len() == 0 {
        assert(covered(s1, s1[0].base as int));
        assert(!covered(s2, s1[0].base as int));
    } else {
        let a = s1[0];
        let b = s2[0];
        // Nothing below the first base is covered.
        assert forall|x: int| x < a.base implies !covered(s1, x) by {
            assert forall|i: int| 0 <= i < s1.len() implies !((#[trigger] s1[i]).base <= x) by {
                if i > 0 {
                    lemma_wf_order(s1, 0, i);
                }
            }
        }
        assert forall|x: int| x < b.base implies !covered(s2, x) by {
            assert forall|i: int| 0 <= i < s2.len() implies !((#[trigger] s2[i]).base <= x) by {
                if i > 0 {
                    lemma_wf_order(s2, 0, i);
                }
            }
        }
        assert(covered(s1, a.base as int));
        assert(covered(s2, b.base as int));
        assert(a.base == b.base);
        // Nothing at the first run's end is covered, so the lengths agree.
        assert(!covered(s1, region_end(a))) by {
            assert forall|i: int|
                0 <= i < s1.len() implies !((#[trigger] s1[i]).base <= region_end(a) < region_end(
                s1[i])) by {
                if i > 0 {
                    lemma_wf_order(s1, 0, i);
                }
            }
        }
        assert(!covered(s2, region_end(b))) by {
            assert forall|i: int|
                0 <= i < s2.len() implies !((#[trigger] s2[i]).base <= region_end(b) < region_end(
                s2[i])) by {
                if i > 0 {
                    lemma_wf_order(s2, 0, i);
                }
            }
        }
        if region_end(a) < region_end(b) {
            assert(covered(s2, region_end(a)));
        }
        if region_end(b) < region_end(a) {
            assert(covered(s1, region_end(b)));
        }
        assert(region_end(a) == region_end(b));
        assert(a.len == b.len);

        let t1 = s1.subrange(1, s1.len() as int);
        let t2 = s2.subrange(1, s2.len() as int);
        assert(wf_runs(t1)) by {
            assert(forall|i: int| 0 <= i < t1.len() ==> #[trigger] t1[i] == s1[i + 1]);
        }
        assert(wf_runs(t2)) by {
            assert(forall|i: int| 0 <= i < t2.len() ==> #[trigger] t2[i] == s2[i + 1]);
        }
        assert forall|x: int| covered(t1, x) <==> covered(t2, x) by {
            lemma_covered_drop_first(s1, x);
            lemma_covered_drop_first(s2, x);
        }
        lemma_wf_covered_unique(t1, t2);
        assert(a == b);
        assert forall|i: int| 0 <= i < s1.len() implies s1[i] == s2[i] by {
            if i > 0 {
                assert(s1[i] == t1[i - 1]);
                assert(s2[i] == t2[i - 1]);
            }
        }
        assert(s1 =~= s2);
    }
}

/// Dropping the first run uncovers exactly its byte range.
proof fn lemma_covered_drop_first(s: Seq<Region>, x: int)
    requires
        wf_runs(s),
        s.len() > 0,
    ensures
        covered(s.subrange(1, s.len() as int), x) <==> (covered(s, x) && !(s[0].base <= x
            < region_end(s[0]))),
{
    let t = s.subrange(1, s.len() as int);
    if covered(t, x) {
        let i = choose|i: int| 0 <= i < t.len() && (#[trigger] t[i]).base <= x < region_end(t[i]);
        assert(s[i + 1] == t[i]);
        assert(covered(s, x));
        lemma_wf_order(s, 0, i + 1);
    }
    if covered(s, x) && !(s[0].base <= x < region_end(s[0])) {
        let i = choose|i: int| 0 <= i < s.len() && (#[trigger] s[i]).base <= x < region_end(s[i]);
        assert(i != 0);
        assert(t[i - 1] == s[i]);
        assert(covered(t, x));
    }
}

/// Seeding an empty allocator with one run and then asking for the whole
/// run hands back its base and leaves the allocator empty again: the tail
/// carve of a single run starts at its base.
pub proof fn lemma_seed_then_alloc(base: int, n: int)
    requires
        0 <= base,
        base % (PAGE_SIZE as int) == 0,
        n > 0,
        base + n * PAGE_SIZE <= usize::MAX,
    ensures
        insert_run(Seq::<Region>::empty(), base, n) == seq![
            Region { base: base as usize, len: n as usize },
        ],
        find_fit(insert_run(Seq::<Region>::empty(), base, n), n) == 0,
        carve_addr(insert_run(Seq::<Region>::empty(), base, n), 0, n) == base,
        carve(insert_run(Seq::<Region>::empty(), base, n), 0, n) == Seq::<Region>::empty(),
{
    let e = Seq::<Region>::empty();
    let r = Region { base: base as usize, len: n as usize };
    assert(insert_pos(e, base) == 0);
    assert(insert_run(e, base, n) =~= seq![r]);
    let s = insert_run(e, base, n);
    assert(s.last() == r);
    assert(find_fit(s, n) == 0);
    assert(carve(s, 0, n) == s.remove(0));
    assert(s.remove(0) =~= e);
}

/// Freeing two adjacent ranges one after the other coalesces into exactly
/// the state reached by freeing the combined range at once.
#[verifier::rlimit(100)]
#[verifier::spinoff_prover]
pub proof fn lemma_free_coalesces(s: Seq<Region>, base: int, n: int, m: int)
    requires
        insert_pre(s, base, n + m),
        n > 0,
        m > 0,
    ensures
        insert_run(insert_run(s, base, n), base + n * PAGE_SIZE, m) == insert_run(s, base, n + m),
{
    let p = PAGE_SIZE as int;
    assert((n + m) * p == n * p + m * p) by (nonlinear_arith);
    assert(insert_pre(s, base, n)) by {
        assert forall|i: int|
            0 <= i < s.len() implies region_end(#[trigger] s[i]) <= base || base + n * p
                <= s[i].base by {
            assert(region_end(s[i]) <= base || base + (n + m) * p <= s[i].base);
        }
    }
    lemma_insert_run(s, base, n);
    let s1 = insert_run(s, base, n);
    let base2 = base + n * p;
    assert(base2 % p == base % p) by {
        vstd::arithmetic::div_mod::lemma_mod_multiples_vanish(n, base, p);
        assert(p * n == n * p) by (nonlinear_arith);
    }
    assert(insert_pre(s1, base2, m)) by {
        assert forall|i: int|
            0 <= i < s1.len() implies region_end(#[trigger] s1[i]) <= base2 || base2 + m * p
                <= s1[i].base by {
            if !(region_end(s1[i]) <= base2 || base2 + m * p <= s1[i].base) {
                // The run and the new range would share a byte, which the
                // coverage of `s1` forbids.
                let z = if s1[i].base >= base2 {
                    s1[i].base as int
                } else {
                    base2
                };
                assert(s1[i].base <= z < region_end(s1[i]));
                assert(base2 <= z < base2 + m * p);
                assert(covered(s1, z));
                assert(!covered(s, z)) by {
                    assert forall|k: int|
                        0 <= k < s.len() implies !((#[trigger] s[k]).base <= z < region_end(
                        s[k])) by {
                        assert(region_end(s[k]) <= base || base + (n + m) * p <= s[k].base);
                    }
                }
                assert(false);
            }
        }
    }
    lemma_insert_run(s1, base2, m);
    lemma_insert_run(s, base, n + m);
    let lhs = insert_run(s1, base2, m);
    let rhs = insert_run(s, base, n + m);
    assert forall|x: int| covered(lhs, x) <==> covered(rhs, x) by {
        assert(covered(lhs, x) <==> covered(s1, x) || (base2 <= x < base2 + m * p));
        assert(covered(s1, x) <==> covered(s, x) || (base <= x < base + n * p));
        assert(covered(rhs, x) <==> covered(s, x) || (base <= x < base + (n + m) * p));
    }
    lemma_wf_covered_unique(lhs, rhs);
}

/// When the run the allocator picks holds exactly the requested frames, the
/// whole run leaves the list.
pub proof fn lemma_alloc_exact_fit(s: Seq<Region>, n: int)
    requires
        wf_runs(s),
        n > 0,
        find_fit(s, n) >= 0,
        s[find_fit(s, n)].len == n,
    ensures
        carve(s, find_fit(s, n), n) == s.remove(find_fit(s, n)),
{
}

/// The general allocator interface over the frame allocator: page-sized,
/// page-aligned requests carved from the free list. The kernel's adapter
/// zeroes the returned frames and hands out direct-map pointers; the
/// zeroing and the pointer cast are memory effects of the unverified
/// shell.
pub struct FrameAllocator;

impl FrameAllocator {
    /// Serve an allocation of `size` bytes, rounded up to whole frames.
    pub fn allocate(&self, pmm: &mut Pmm, size: usize) -> (r: Option<PhysAddr>)
        requires
            old(pmm).wf(),
            size as int % PAGE_SIZE as int == 0,
            size > 0,
            size <= usize::MAX - PAGE_SIZE,
        ensures
            final(pmm).wf(),
            ({
                let s0 = old(pmm).runs();
                let n = spec_pages_for(size as int);
                let f = find_fit(s0, n);
                &&& (r is None ==> f == -1 && final(pmm).runs() == s0)
                &&& (r matches Some(addr) ==> f >= 0 && addr.spec_value() == carve_addr(s0, f, n)
                    && final(pmm).runs() == carve(s0, f, n))
            }),
    {
        let n = pages_for(size);
        alloc_frames(pmm, n)
    }

    /// Return an allocation made through the direct map, translating the
    /// pointer back to its physical base.
    pub fn deallocate(&self, pmm: &mut Pmm, virt: VirtAddr, hhdm: &Hhdm, size: usize)
        requires
            virt.spec_value() >= hhdm.spec_base(),
            size <= usize::MAX - PAGE_SIZE,
            size > 0,
            insert_pre(
                old(pmm).runs(),
                virt.spec_value() - hhdm.spec_base(),
                spec_pages_for(size as int),
            ),
        ensures
            final(pmm).wf(),
            final(pmm).runs() == insert_run(
                old(pmm).runs(),
                virt.spec_value() - hhdm.spec_base(),
                spec_pages_for(size as int),
            ),
    {
        let num_frames = pages_for(size);
        free_frames(pmm, virt.to_physical(hhdm), num_frames);
    }
}

} // verus!
