//! x86_64 virtual-memory odds and ends: the raw page-table entry view a
//! future address-space abstraction builds on, and the write-protect
//! update early init computes for CR0.

use vstd::prelude::*;

use crate::vm::PhysAddr;

verus! {

/// A raw page-table entry word, viewed minimally: present bit and frame
/// address.
#[derive(Clone, Copy, Debug, PartialEq, Eq, Structural)]
pub struct PageTableEntry(pub u64);

impl PageTableEntry {
    /// The physical address of the frame the entry maps: everything above
    /// the low flag bits.
    pub fn addr(self) -> (r: PhysAddr)
        requires
            ((self.0 >> 12) << 12) as int <= usize::MAX,
        ensures
            r.spec_value() == ((self.0 >> 12) << 12) as int,
    {
        PhysAddr::new(((self.0 >> 12) << 12) as usize)
    }

    pub fn is_present(self) -> (r: bool)
        ensures
            r <==> self.0 & 0x1 != 0,
    {
        self.0 & 0x1 != 0
    }
}

/// One whole page table: 512 raw entries.
#[derive(Debug)]
pub struct PageTable {
    pub entries: Vec<PageTableEntry>,
}

/// An address space as the portable layer will hold it: its top-level
/// table. The table frame itself comes from the frame allocator.
#[derive(Debug)]
pub struct ArchVmspace {
    pub pml4: PageTable,
}

/// The write-protect bit of CR0, which early init turns on so the kernel
/// honours read-only mappings.
pub const CR0_WP: u64 = 0x1_0000;

/// The CR0 value the virtual-memory init settles on: the current value
/// with write protection enabled.
pub fn init(cr0: u64) -> (r: u64)
    ensures
        r == cr0 | CR0_WP,
{
    cr0 | CR0_WP
}

} // verus!
