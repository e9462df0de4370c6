//! Addressing primitives: physical and virtual addresses, the page size, and
//! the higher-half direct map (HHDM) through which physical memory is reached.

use vstd::prelude::*;

verus! {

/// Size in bytes of one page frame.
pub const PAGE_SIZE: usize = 0x1000;

/// Number of whole pages needed to hold `size` bytes.
pub open spec fn spec_pages_for(size: int) -> int {
    (size + PAGE_SIZE - 1) / PAGE_SIZE as int
}

/// Round a byte count up to whole pages.
pub fn pages_for(size: usize) -> (r: usize)
    requires
        size <= usize::MAX - PAGE_SIZE,
    ensures
        r == spec_pages_for(size as int),
        size > 0 ==> r > 0,
        size == 0 ==> r == 0,
{
    (size + PAGE_SIZE - 1) / PAGE_SIZE
}

/// The higher-half direct map: physical address `p` is visible at virtual
/// address `base + p`. The base is established exactly once during early
/// boot; afterwards it is read-only, which this type models by owning the
/// published value.
#[derive(Clone, Copy, Debug)]
pub struct Hhdm {
    base: usize,
}

impl Hhdm {
    pub closed spec fn spec_base(self) -> int {
        self.base as int
    }

    /// Publish the direct-map base. A base of zero is permitted: physical
    /// address zero then maps to virtual address zero.
    pub fn new(base: VirtAddr) -> (r: Hhdm)
        ensures
            r.spec_base() == base.spec_value(),
    {
        Hhdm { base: base.to_usize() }
    }

    pub fn base(self) -> (r: usize)
        ensures
            r == self.spec_base(),
    {
        self.base
    }
}

/// A physical memory address.
#[derive(Clone, Copy, Debug, PartialEq, Eq, Structural, Hash)]
pub struct PhysAddr(usize);

impl PhysAddr {
    pub closed spec fn spec_value(self) -> int {
        self.0 as int
    }

    pub fn new(addr: usize) -> (r: PhysAddr)
        ensures
            r.spec_value() == addr,
    {
        PhysAddr(addr)
    }

    pub fn to_usize(self) -> (r: usize)
        ensures
            r == self.spec_value(),
    {
        self.0
    }

    /// Where this physical address appears inside the direct map.
    pub fn to_virtual(self, hhdm: &Hhdm) -> (r: VirtAddr)
        requires
            self.spec_value() + hhdm.spec_base() <= usize::MAX,
        ensures
            r.spec_value() == hhdm.spec_base() + self.spec_value(),
    {
        VirtAddr::new(hhdm.base() + self.0)
    }

    pub fn is_aligned(self, align: usize) -> (r: bool)
        requires
            align > 0,
        ensures
            r <==> self.spec_value() % (align as int) == 0,
    {
        self.0 % align == 0
    }
}

/// A virtual memory address.
#[derive(Clone, Copy, Debug, PartialEq, Eq, Structural, Hash)]
pub struct VirtAddr(usize);

impl VirtAddr {
    pub closed spec fn spec_value(self) -> int {
        self.0 as int
    }

    pub fn new(addr: usize) -> (r: VirtAddr)
        ensures
            r.spec_value() == addr,
    {
        VirtAddr(addr)
    }

    pub fn null() -> (r: VirtAddr)
        ensures
            r.spec_value() == 0,
    {
        VirtAddr(0)
    }

    pub fn to_usize(self) -> (r: usize)
        ensures
            r == self.spec_value(),
    {
        self.0
    }

    /// The null check is nothing but a comparison with zero: when the
    /// direct-map base is zero, virtual address zero is a perfectly good
    /// window onto physical address zero.
    pub fn is_null(self) -> (r: bool)
        ensures
            r <==> self.spec_value() == 0,
    {
        self.0 == 0
    }

    /// Translate back to a physical address. Only defined for addresses
    /// inside the direct-map window.
    pub fn to_physical(self, hhdm: &Hhdm) -> (r: PhysAddr)
        requires
            self.spec_value() >= hhdm.spec_base(),
        ensures
            r.spec_value() == self.spec_value() - hhdm.spec_base(),
    {
        PhysAddr(self.0 - hhdm.base())
    }

    pub fn is_aligned(self, align: usize) -> (r: bool)
        requires
            align > 0,
        ensures
            r <==> self.spec_value() % (align as int) == 0,
    {
        self.0 % align == 0
    }
}

/// Hook the virtual-memory subsystem into the trap path: the page-fault
/// handler slot is registered with the dispatcher.
pub fn init() {
    crate::trap::register_handler();
}

/// Translating through the direct map and back is the identity, whatever the
/// base, including a base of zero.
pub proof fn lemma_hhdm_round_trip(hhdm: Hhdm, phys: PhysAddr, virt: VirtAddr)
    requires
        phys.spec_value() + hhdm.spec_base() <= usize::MAX,
        virt.spec_value() >= hhdm.spec_base(),
    ensures
        (hhdm.spec_base() + phys.spec_value()) - hhdm.spec_base() == phys.spec_value(),
        hhdm.spec_base() + (virt.spec_value() - hhdm.spec_base()) == virt.spec_value(),
{
}

} // verus!
