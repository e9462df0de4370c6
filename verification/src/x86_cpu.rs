//! x86_64 per-CPU state: the GDT and TSS each CPU owns, the descriptor
//! encodings early init computes, the control-register updates the feature
//! probe calls for, and the private interrupt stacks.

use vstd::prelude::*;

use crate::mmu::CpuFeatures;
use crate::pmm::{Pmm, alloc_frames, carve, carve_addr, find_fit, region_end, region_wf};
use crate::vm::{Hhdm, PAGE_SIZE};

verus! {

/// Size in bytes of the task-state segment; `io_map_base` set to it
/// disables the I/O permission bitmap.
pub const TSS_SIZE: usize = 104;

/// The per-CPU global descriptor table: null, kernel code and data, the
/// 32-bit user segments, the 64-bit user segments, and the two-slot TSS
/// descriptor.
#[derive(Clone, Copy, Debug, PartialEq, Eq, Structural)]
pub struct Gdt {
    pub null: u64,
    pub kernel_code: u64,
    pub kernel_data: u64,
    pub user_code_32: u64,
    pub user_data_32: u64,
    pub user_code: u64,
    pub user_data: u64,
    pub tss: u64,
    pub tss_hi: u64,
}

/// The low descriptor word of the TSS system segment: an available 64-bit
/// TSS (type 0x89), base split across bytes 2..4 and 7, and the limit
/// `TSS_SIZE - 1 = 0x67` in the low bytes; the limit's high nibble is
/// zero, so only its low word appears.
pub open spec fn spec_tss_desc_lo(tss_base: u64) -> u64 {
    (0x89u64 << 40) | ((tss_base & 0xff000000) << 32) | ((tss_base & 0x00ffffff) << 16) | 0x67
}

impl Gdt {
    /// The table early init loads, with the TSS descriptor computed from
    /// the address of this CPU's TSS. The fixed descriptors come straight
    /// from the architectural formats: long-mode kernel code (type 0x9A),
    /// kernel data (type 0x92), the legacy 32-bit user segments, and the
    /// 64-bit user segments.
    pub fn new(tss_base: u64) -> (r: Gdt)
        ensures
            r.null == 0,
            r.kernel_code == 0x00209a0000000000u64,
            r.kernel_data == 0x0000920000000000u64,
            r.user_code_32 == 0x00cffa000000ffffu64,
            r.user_data_32 == 0x00cff2000000ffffu64,
            r.user_code == 0x0060fa0000000000u64,
            r.user_data == 0x0000f20000000000u64,
            r.tss == spec_tss_desc_lo(tss_base),
            r.tss_hi == tss_base >> 32,
    {
        Gdt {
            null: 0,
            kernel_code: 0x00209a0000000000,
            kernel_data: 0x0000920000000000,
            user_code_32: 0x00cffa000000ffff,
            user_data_32: 0x00cff2000000ffff,
            user_code: 0x0060fa0000000000,
            user_data: 0x0000f20000000000,
            tss: (0x89u64 << 40) | ((tss_base & 0xff000000) << 32) | ((tss_base & 0x00ffffff)
                << 16) | 0x67,
            tss_hi: tss_base >> 32,
        }
    }
}

/// The task-state segment: three privileged stack pointers, seven
/// interrupt stacks (held here in an eight-slot table indexed by IST
/// number, slot zero unused), and the I/O map base.
#[derive(Debug)]
pub struct Tss {
    pub privileged_stack_table: Vec<usize>,
    pub interrupt_stack_table: Vec<usize>,
    pub io_map_base: u16,
}

impl Tss {
    pub open spec fn wf(&self) -> bool {
        &&& self.privileged_stack_table@.len() == 3
        &&& self.interrupt_stack_table@.len() == 8
    }

    /// A zeroed TSS with the I/O permission bitmap disabled.
    pub fn new() -> (r: Tss)
        ensures
            r.wf(),
            forall|i: int| 0 <= i < 3 ==> r.privileged_stack_table@[i] == 0usize,
            forall|i: int| 0 <= i < 8 ==> r.interrupt_stack_table@[i] == 0usize,
            r.io_map_base == TSS_SIZE as u16,
    {
        let mut privileged_stack_table: Vec<usize> = Vec::new();
        let mut i: usize = 0;
        while i < 3
            invariant
                i <= 3,
                privileged_stack_table@.len() == i,
                forall|k: int| 0 <= k < i ==> privileged_stack_table@[k] == 0usize,
            decreases 3 - i,
        {
            privileged_stack_table.push(0);
            i += 1;
        }
        let mut interrupt_stack_table: Vec<usize> = Vec::new();
        let mut j: usize = 0;
        while j < 8
            invariant
                j <= 8,
                interrupt_stack_table@.len() == j,
                forall|k: int| 0 <= k < j ==> interrupt_stack_table@[k] == 0usize,
            decreases 8 - j,
        {
            interrupt_stack_table.push(0);
            j += 1;
        }
        Tss { privileged_stack_table, interrupt_stack_table, io_map_base: TSS_SIZE as u16 }
    }

    /// Point interrupt stack `ist` at `stack_top`, returning the pointer
    /// it held before.
    pub fn set_interrupt_stack(&mut self, ist: usize, stack_top: usize) -> (r: usize)
        requires
            old(self).wf(),
            1 <= ist <= 7,
        ensures
            final(self).wf(),
            r == old(self).interrupt_stack_table@[ist as int],
            final(self).interrupt_stack_table@ == old(self).interrupt_stack_table@.update(
                ist as int,
                stack_top,
            ),
            final(self).privileged_stack_table@ == old(self).privileged_stack_table@,
            final(self).io_map_base == old(self).io_map_base,
    {
        let prev = self.interrupt_stack_table[ist];
        self.interrupt_stack_table[ist] = stack_top;
        prev
    }
}

/// Per-CPU machine-dependent state: the descriptor tables and the cached
/// feature probe. The kernel also keeps a self-pointer here for O(1)
/// current-CPU retrieval through the segment base; that pointer lives in
/// the unverified shell.
#[derive(Debug)]
pub struct CpuData {
    pub gdt: Gdt,
    pub tss: Tss,
    pub cpu_features: CpuFeatures,
}

/// The machine-independent per-CPU structure, embedding the
/// machine-dependent payload at its head.
#[derive(Debug)]
pub struct Cpu {
    pub md_data: CpuData,
}

/// The control-register and feature-enable values early init computes
/// from the probe: CR4 gains PGE, PCIDE, SMAP, SMEP and UMIP as offered.
pub fn cr4_for_features(cr4: u64, features: &CpuFeatures) -> (r: u64)
    ensures
        r == cr4 | (if features.global_pages {
            0x80u64
        } else {
            0
        }) | (if features.pcid {
            0x2_0000u64
        } else {
            0
        }) | (if features.smap {
            0x20_0000u64
        } else {
            0
        }) | (if features.smep {
            0x10_0000u64
        } else {
            0
        }) | (if features.umip {
            0x800u64
        } else {
            0
        }),
{
    cr4 | (if features.global_pages {
        0x80u64
    } else {
        0
    }) | (if features.pcid {
        0x2_0000u64
    } else {
        0
    }) | (if features.smap {
        0x20_0000u64
    } else {
        0
    }) | (if features.smep {
        0x10_0000u64
    } else {
        0
    }) | (if features.umip {
        0x800u64
    } else {
        0
    })
}

/// EFER gains the no-execute enable when the CPU offers the bit.
pub fn efer_for_features(efer: u64, features: &CpuFeatures) -> (r: u64)
    ensures
        r == efer | (if features.nx {
            0x800u64
        } else {
            0
        }),
{
    efer | (if features.nx {
        0x800u64
    } else {
        0
    })
}

/// Give each in-use interrupt stack four freshly allocated frames and
/// point its TSS slot at the top, walking the vectors in order: the debug
/// exception fills IST 1, the NMI fills IST 3, the double fault fills IST
/// 2, and the machine check fills IST 4. Every slot must still be null,
/// and each of the four allocations must find a fitting run; a failed
/// allocation here is fatal in the kernel.
#[verifier::rlimit(100)]
#[verifier::spinoff_prover]
pub fn init_interrupt_stacks(tss: &mut Tss, pmm: &mut Pmm, hhdm: &Hhdm)
    requires
        old(tss).wf(),
        old(pmm).wf(),
        ({
            let s0 = old(pmm).runs();
            let s1 = carve(s0, find_fit(s0, 4), 4);
            let s2 = carve(s1, find_fit(s1, 4), 4);
            let s3 = carve(s2, find_fit(s2, 4), 4);
            &&& find_fit(s0, 4) >= 0
            &&& find_fit(s1, 4) >= 0
            &&& find_fit(s2, 4) >= 0
            &&& find_fit(s3, 4) >= 0
        }),
        forall|i: int| 1 <= i < 8 ==> old(tss).interrupt_stack_table@[i] == 0usize,
        hhdm.spec_base() + 0x0010_0000_0000_0000 <= usize::MAX,
        crate::hat::pmm_below_pte_range(old(pmm).runs()),
    ensures
        final(tss).wf(),
        final(pmm).wf(),
        ({
            let s0 = old(pmm).runs();
            let a1 = carve_addr(s0, find_fit(s0, 4), 4);
            let s1 = carve(s0, find_fit(s0, 4), 4);
            let a2 = carve_addr(s1, find_fit(s1, 4), 4);
            let s2 = carve(s1, find_fit(s1, 4), 4);
            let a3 = carve_addr(s2, find_fit(s2, 4), 4);
            let s3 = carve(s2, find_fit(s2, 4), 4);
            let a4 = carve_addr(s3, find_fit(s3, 4), 4);
            let s4 = carve(s3, find_fit(s3, 4), 4);
            let four_pages = 4 * PAGE_SIZE;
            &&& final(pmm).runs() == s4
            &&& final(tss).interrupt_stack_table@ == old(tss).interrupt_stack_table@.update(
                1,
                (hhdm.spec_base() + a1 + four_pages) as usize,
            ).update(3, (hhdm.spec_base() + a2 + four_pages) as usize).update(
                2,
                (hhdm.spec_base() + a3 + four_pages) as usize,
            ).update(4, (hhdm.spec_base() + a4 + four_pages) as usize)
        }),
        final(tss).privileged_stack_table@ == old(tss).privileged_stack_table@,
        final(tss).io_map_base == old(tss).io_map_base,
{
    let ghost s0 = pmm.runs();
    // The vectors with a private stack, in vector order, with their IST.
    let mut step: usize = 0;
    while step < 4
        invariant
            step <= 4,
            tss.wf(),
            pmm.wf(),
            tss.privileged_stack_table@ == old(tss).privileged_stack_table@,
            tss.io_map_base == old(tss).io_map_base,
            hhdm.spec_base() + 0x0010_0000_0000_0000 <= usize::MAX,
            crate::hat::pmm_below_pte_range(pmm.runs()),
            ({
                let s1 = carve(s0, find_fit(s0, 4), 4);
                let s2 = carve(s1, find_fit(s1, 4), 4);
                let s3 = carve(s2, find_fit(s2, 4), 4);
                &&& find_fit(s0, 4) >= 0
                &&& find_fit(s1, 4) >= 0
                &&& find_fit(s2, 4) >= 0
                &&& find_fit(s3, 4) >= 0
            }),
            ({
                let a1 = carve_addr(s0, find_fit(s0, 4), 4);
                let s1 = carve(s0, find_fit(s0, 4), 4);
                let a2 = carve_addr(s1, find_fit(s1, 4), 4);
                let s2 = carve(s1, find_fit(s1, 4), 4);
                let a3 = carve_addr(s2, find_fit(s2, 4), 4);
                let s3 = carve(s2, find_fit(s2, 4), 4);
                let a4 = carve_addr(s3, find_fit(s3, 4), 4);
                let s4 = carve(s3, find_fit(s3, 4), 4);
                let four_pages = 4 * PAGE_SIZE;
                &&& (step == 0 ==> pmm.runs() == s0 && tss.interrupt_stack_table@ == old(
                    tss,
                ).interrupt_stack_table@)
                &&& (step == 1 ==> pmm.runs() == s1 && tss.interrupt_stack_table@ == old(
                    tss,
                ).interrupt_stack_table@.update(1, (hhdm.spec_base() + a1 + four_pages) as usize))
                &&& (step == 2 ==> pmm.runs() == s2 && tss.interrupt_stack_table@ == old(
                    tss,
                ).interrupt_stack_table@.update(
                    1,
                    (hhdm.spec_base() + a1 + four_pages) as usize,
                ).update(3, (hhdm.spec_base() + a2 + four_pages) as usize))
                &&& (step == 3 ==> pmm.runs() == s3 && tss.interrupt_stack_table@ == old(
                    tss,
                ).interrupt_stack_table@.update(
                    1,
                    (hhdm.spec_base() + a1 + four_pages) as usize,
                ).update(3, (hhdm.spec_base() + a2 + four_pages) as usize).update(
                    2,
                    (hhdm.spec_base() + a3 + four_pages) as usize,
                ))
                &&& (step == 4 ==> pmm.runs() == s4 && tss.interrupt_stack_table@ == old(
                    tss,
                ).interrupt_stack_table@.update(
                    1,
                    (hhdm.spec_base() + a1 + four_pages) as usize,
                ).update(3, (hhdm.spec_base() + a2 + four_pages) as usize).update(
                    2,
                    (hhdm.spec_base() + a3 + four_pages) as usize,
                ).update(4, (hhdm.spec_base() + a4 + four_pages) as usize))
            }),
        decreases 4 - step,
    {
        let ist: usize = if step == 0 {
            1
        } else if step == 1 {
            3
        } else if step == 2 {
            2
        } else {
            4
        };
        let ghost pre = pmm.runs();
        proof {
            assert(find_fit(pre, 4) >= 0);
            crate::pmm::lemma_find_fit_props(pre, 4);
        }
        let stack_base = match alloc_frames(pmm, 4) {
            Some(a) => a.to_usize(),
            None => {
                proof {
                    assert(false);
                }
                0
            },
        };
        proof {
            let f = find_fit(pre, 4int);
            assert(region_wf(pre[f]));
            assert((pre[f].len - 4) * (PAGE_SIZE as int) + 4 * (PAGE_SIZE as int) == pre[f].len
                * (PAGE_SIZE as int)) by (nonlinear_arith);
            assert(stack_base + 4 * PAGE_SIZE == region_end(pre[f]));
            assert(stack_base + 4 * PAGE_SIZE <= 0x0010_0000_0000_0000);
        }
        let stack_top = hhdm.base() + (stack_base + 4 * PAGE_SIZE);
        let prev = tss.set_interrupt_stack(ist, stack_top);
        step += 1;
    }
    proof {
        assert(final(tss).interrupt_stack_table@ == tss.interrupt_stack_table@);
    }
}

} // verus!
