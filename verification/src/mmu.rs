//! Process-wide MMU configuration: paging depth, the noncanonical hole, the
//! per-level page sizes and flags, and the protection map. Derived once from
//! the CPU feature probe and the negotiated paging mode, read-only after.

use vstd::prelude::*;

use crate::pte::{ProtMap, PTE_GLOBAL, PTE_HUGE, PTE_NO_EXECUTE};

verus! {

/// The page sizes a translation can be established at.
#[derive(Clone, Copy, Debug, PartialEq, Eq, Structural)]
pub enum PageSize {
    Size4KiB,
    Size2MiB,
    Size1GiB,
}

impl PageSize {
    /// The page-table level a leaf of this size lives at.
    pub open spec fn spec_level(self) -> int {
        match self {
            PageSize::Size4KiB => 0,
            PageSize::Size2MiB => 1,
            PageSize::Size1GiB => 2,
        }
    }

    pub fn level(self) -> (r: usize)
        ensures
            r == self.spec_level(),
    {
        match self {
            PageSize::Size4KiB => 0,
            PageSize::Size2MiB => 1,
            PageSize::Size1GiB => 2,
        }
    }
}

/// The number of bytes one leaf at `level` maps.
pub open spec fn spec_level_size(level: int) -> int {
    if level == 0 {
        0x1000
    } else if level == 1 {
        0x20_0000
    } else {
        0x4000_0000
    }
}

/// The extra flag bits a leaf at `level` carries: the huge bit everywhere
/// but the bottom level.
pub open spec fn spec_level_flags(level: int) -> u64 {
    if level == 1 || level == 2 {
        PTE_HUGE
    } else {
        0
    }
}

/// The CPU features the virtual-memory subsystem cares about, as the early
/// probe reports them.
#[derive(Clone, Copy, Debug, PartialEq, Eq, Structural)]
pub struct CpuFeatures {
    /// 1 GiB leaf mappings are available.
    pub gigapages: bool,
    /// The no-execute bit is available.
    pub nx: bool,
    /// Global pages are available.
    pub global_pages: bool,
    /// TLB entries can be tagged with a process-context id.
    pub pcid: bool,
    /// Supervisor-mode access prevention.
    pub smap: bool,
    /// Supervisor-mode execute prevention.
    pub smep: bool,
    /// User-mode instruction prevention.
    pub umip: bool,
}

/// Read-mostly MMU configuration, published once during early init.
#[derive(Debug)]
pub struct MmuInfo {
    /// `PTE_NO_EXECUTE` when the CPU offers it, zero otherwise.
    pub nx_bit: u64,
    /// `PTE_GLOBAL` when the CPU offers it, zero otherwise.
    pub global_bit: u64,
    pub gigapages: bool,
    /// Virtual address bits: 48 or 57.
    pub bits: u32,
    /// Paging levels: 4 or 5.
    pub levels: u32,
    /// Index of the top level: `levels - 1`.
    pub max_level: u32,
    pub protmap: ProtMap,
    /// The noncanonical hole `[hole_start, hole_end)`, as 64-bit values.
    pub hole_start: u64,
    pub hole_end: u64,
    pub pcide: bool,
    pub max_page_size: PageSize,
}

impl MmuInfo {
    /// The shape every published configuration has.
    pub open spec fn wf(self) -> bool {
        &&& self.max_level == 3 || self.max_level == 4
        &&& self.levels == self.max_level + 1
        &&& self.bits == (if self.max_level == 3 {
            48u32
        } else {
            57u32
        })
        &&& self.hole_start == (if self.max_level == 3 {
            0x0000_8000_0000_0000u64
        } else {
            0x0100_0000_0000_0000u64
        })
        &&& self.hole_end == (if self.max_level == 3 {
            0xffff_8000_0000_0000u64
        } else {
            0xff00_0000_0000_0000u64
        })
        &&& self.nx_bit == 0 || self.nx_bit == PTE_NO_EXECUTE
        &&& self.global_bit == 0 || self.global_bit == PTE_GLOBAL
        &&& self.protmap.matches(self.nx_bit)
        &&& self.max_page_size == (if self.gigapages {
            PageSize::Size1GiB
        } else {
            PageSize::Size2MiB
        })
    }

    /// The level a request for `page_size` is actually mapped at: a 1 GiB
    /// request silently downgrades to 2 MiB when the CPU lacks gigapages.
    pub open spec fn spec_map_level(self, page_size: PageSize) -> int {
        if page_size == PageSize::Size1GiB && !self.gigapages {
            1
        } else {
            page_size.spec_level()
        }
    }

    pub fn map_level(&self, page_size: PageSize) -> (r: usize)
        ensures
            r == self.spec_map_level(page_size),
            0 <= r <= 2,
    {
        if page_size == PageSize::Size1GiB && !self.gigapages {
            1
        } else {
            page_size.level()
        }
    }

    /// The byte size of one leaf at `level`.
    pub fn level_size(&self, level: usize) -> (r: usize)
        requires
            level <= 2,
        ensures
            r == spec_level_size(level as int),
    {
        if level == 0 {
            0x1000
        } else if level == 1 {
            0x20_0000
        } else {
            0x4000_0000
        }
    }

    /// The extra flag bits of a leaf at `level`.
    pub fn level_flags(&self, level: usize) -> (r: u64)
        requires
            level <= 2,
        ensures
            r == spec_level_flags(level as int),
    {
        if level == 1 || level == 2 {
            PTE_HUGE
        } else {
            0
        }
    }

    /// Build the configuration from the probed feature set and the
    /// negotiated paging depth.
    pub fn new(features: &CpuFeatures, five_level: bool) -> (r: MmuInfo)
        ensures
            r.wf(),
            r.nx_bit == (if features.nx {
                PTE_NO_EXECUTE
            } else {
                0
            }),
            r.global_bit == (if features.global_pages {
                PTE_GLOBAL
            } else {
                0
            }),
            r.gigapages == features.gigapages,
            r.pcide == features.pcid,
            r.max_level == (if five_level {
                4int
            } else {
                3int
            }),
            r.hole_start == (if five_level {
                0x0100_0000_0000_0000u64
            } else {
                0x0000_8000_0000_0000u64
            }),
            r.hole_end == (if five_level {
                0xff00_0000_0000_0000u64
            } else {
                0xffff_8000_0000_0000u64
            }),
    {
        let nx_bit = if features.nx {
            PTE_NO_EXECUTE
        } else {
            0
        };
        MmuInfo {
            nx_bit,
            global_bit: if features.global_pages {
                PTE_GLOBAL
            } else {
                0
            },
            gigapages: features.gigapages,
            bits: if five_level {
                57
            } else {
                48
            },
            levels: if five_level {
                5
            } else {
                4
            },
            max_level: if five_level {
                4
            } else {
                3
            },
            protmap: ProtMap::new(nx_bit),
            hole_start: if five_level {
                0x0100_0000_0000_0000
            } else {
                0x0000_8000_0000_0000
            },
            hole_end: if five_level {
                0xff00_0000_0000_0000
            } else {
                0xffff_8000_0000_0000
            },
            pcide: features.pcid,
            max_page_size: if features.gigapages {
                PageSize::Size1GiB
            } else {
                PageSize::Size2MiB
            },
        }
    }
}

/// A 1 GiB request on a machine without gigapages lands on the very level,
/// with the very leaf size and flags, that a 2 MiB request lands on: the
/// downgrade changes nothing but the page count.
pub proof fn lemma_gigapage_fallback(mmu: MmuInfo)
    requires
        !mmu.gigapages,
    ensures
        mmu.spec_map_level(PageSize::Size1GiB) == mmu.spec_map_level(PageSize::Size2MiB),
        spec_level_size(mmu.spec_map_level(PageSize::Size1GiB)) == spec_level_size(1),
        spec_level_flags(mmu.spec_map_level(PageSize::Size1GiB)) == PTE_HUGE,
{
}

} // verus!
