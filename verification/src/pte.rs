//! Page-table entries: a 64-bit word holding a physical address in its
//! middle bits and permission flags around it, and the protection map that
//! turns a 4-bit protection request into the flags for a leaf entry.

use vstd::prelude::*;

use crate::vm::PhysAddr;

verus! {

pub const PTE_PRESENT: u64 = 1;
pub const PTE_WRITE: u64 = 0x2;
pub const PTE_USER: u64 = 0x4;
pub const PTE_CACHE_WRITE_THROUGH: u64 = 0x8;
pub const PTE_CACHE_DISABLE: u64 = 0x10;
pub const PTE_ACCESSED: u64 = 0x20;
pub const PTE_DIRTY: u64 = 0x40;
/// On the 4 KiB level this bit is PAT; on every higher level it marks a
/// huge-page leaf.
pub const PTE_HUGE: u64 = 0x80;
pub const PTE_GLOBAL: u64 = 0x100;
pub const PTE_NO_EXECUTE: u64 = 0x8000_0000_0000_0000;

/// The bits of an entry that hold the physical address of the next table or
/// of the mapped frame.
pub const PTE_ADDR_MASK: u64 = 0x000f_ffff_ffff_f000;

/// All defined flag bits.
pub const PTE_FLAGS_MASK: u64 = 0x8000_0000_0000_11ff;

/// Intermediate entries are installed with the widest permissions; the leaf
/// restricts further.
pub const PARENT_FLAGS: u64 = 0x6;

/// Protection-request bits, the index into the protection map.
pub const PROT_READ: u8 = 1;
pub const PROT_WRITE: u8 = 2;
pub const PROT_EXEC: u8 = 4;
pub const PROT_USER: u8 = 8;

/// A protection request: any combination of read, write, execute and user.
#[derive(Clone, Copy, Debug, PartialEq, Eq, Structural)]
pub struct Prot(pub u8);

impl Prot {
    pub open spec fn spec_bits(self) -> int {
        self.0 as int
    }

    /// The request fits the 4-bit protection-map index.
    pub open spec fn wf(self) -> bool {
        self.0 < 16
    }

    pub open spec fn spec_write(self) -> bool {
        (self.spec_bits() / 2) % 2 == 1
    }

    pub open spec fn spec_exec(self) -> bool {
        (self.spec_bits() / 4) % 2 == 1
    }

    pub open spec fn spec_user(self) -> bool {
        (self.spec_bits() / 8) % 2 == 1
    }
}

/// The leaf flags the protection map resolves index `idx` to, given the
/// no-execute bit the hardware offers (`PTE_NO_EXECUTE`, or zero when the
/// CPU lacks it): write permission is explicit, the no-execute bit is set
/// exactly for non-executable ranges, and the user bit is the high bit of
/// the index.
pub open spec fn spec_prot_flags(nx_bit: u64, idx: int) -> u64 {
    (if (idx / 2) % 2 == 1 {
        PTE_WRITE
    } else {
        0
    }) | (if (idx / 4) % 2 == 1 {
        0
    } else {
        nx_bit
    }) | (if (idx / 8) % 2 == 1 {
        PTE_USER
    } else {
        0
    })
}

/// The fixed 16-entry table resolving a protection request to leaf flags.
#[derive(Debug)]
pub struct ProtMap {
    entries: Vec<u64>,
}

impl ProtMap {
    pub closed spec fn view(self) -> Seq<u64> {
        self.entries@
    }

    /// The whole table realizes `spec_prot_flags` for this no-execute bit.
    pub open spec fn matches(self, nx_bit: u64) -> bool {
        &&& self.view().len() == 16
        &&& forall|i: int| 0 <= i < 16 ==> self.view()[i] == spec_prot_flags(nx_bit, i)
    }

    /// An all-zero table, the placeholder before the feature probe runs.
    pub fn empty() -> (r: ProtMap)
        ensures
            r.view() =~= seq![0u64, 0, 0, 0, 0, 0, 0, 0, 0, 0, 0, 0, 0, 0, 0, 0],
    {
        let mut entries: Vec<u64> = Vec::new();
        let mut i: usize = 0;
        while i < 16
            invariant
                i <= 16,
                entries@.len() == i,
                forall|k: int| 0 <= k < i ==> entries@[k] == 0,
            decreases 16 - i,
        {
            entries.push(0);
            i += 1;
        }
        ProtMap { entries }
    }

    /// Populate the table from the probed no-execute bit: each of the
    /// sixteen entries realizes the architecture's permission inversions
    /// for its protection index.
    pub fn new(nx_bit: u64) -> (r: ProtMap)
        ensures
            r.matches(nx_bit),
    {
        let mut entries: Vec<u64> = Vec::new();
        let mut i: u8 = 0;
        while i < 16
            invariant
                i <= 16,
                entries@.len() == i,
                forall|k: int| 0 <= k < i ==> entries@[k] == spec_prot_flags(nx_bit, k),
            decreases 16 - i,
        {
            entries.push(prot_flags_for(nx_bit, i));
            i += 1;
        }
        ProtMap { entries }
    }

    /// Resolve a protection request.
    pub fn index(&self, prot: Prot) -> (r: u64)
        requires
            prot.wf(),
            self.view().len() == 16,
        ensures
            r == self.view()[prot.spec_bits()],
    {
        self.entries[prot.0 as usize]
    }
}

/// The leaf flags for one protection index: write permission is granted
/// explicitly, execution is withheld through the no-execute bit, and the
/// user bit mirrors the high bit of the index.
pub fn prot_flags_for(nx_bit: u64, idx: u8) -> (r: u64)
    requires
        idx < 16,
    ensures
        r == spec_prot_flags(nx_bit, idx as int),
{
    proof {
        assert(((idx & 2 != 0) <==> (idx / 2) % 2 == 1) && ((idx & 4 != 0) <==> (idx / 4) % 2
            == 1) && ((idx & 8 != 0) <==> (idx / 8) % 2 == 1)) by (bit_vector);
    }
    let w = if idx & 2 != 0 {
        PTE_WRITE
    } else {
        0
    };
    let x = if idx & 4 != 0 {
        0
    } else {
        nx_bit
    };
    let u = if idx & 8 != 0 {
        PTE_USER
    } else {
        0
    };
    w | x | u
}

/// What the protection map promises, spelled out bit by bit: the resolved
/// flags contain WRITE exactly when the request includes write, contain the
/// no-execute bit exactly when the request lacks execute and the CPU offers
/// the bit, and contain USER exactly when the request includes user.
pub proof fn lemma_protmap_bits(m: ProtMap, nx_bit: u64, prot: Prot)
    requires
        m.matches(nx_bit),
        nx_bit == 0 || nx_bit == PTE_NO_EXECUTE,
        prot.wf(),
    ensures
        m.view()[prot.spec_bits()] & PTE_WRITE != 0 <==> prot.spec_write(),
        m.view()[prot.spec_bits()] & PTE_NO_EXECUTE != 0 <==> (!prot.spec_exec() && nx_bit
            == PTE_NO_EXECUTE),
        m.view()[prot.spec_bits()] & PTE_USER != 0 <==> prot.spec_user(),
{
    let w = if prot.spec_write() {
        PTE_WRITE
    } else {
        0
    };
    let x = if !prot.spec_exec() {
        nx_bit
    } else {
        0
    };
    let u = if prot.spec_user() {
        PTE_USER
    } else {
        0
    };
    assert(m.view()[prot.spec_bits()] == spec_prot_flags(nx_bit, prot.spec_bits()));
    assert(m.view()[prot.spec_bits()] == (w | x | u));
    assert((w | x | u) & PTE_WRITE != 0 <==> w == PTE_WRITE) by (bit_vector)
        requires
            (w == 0 || w == PTE_WRITE) && (x == 0 || x == PTE_NO_EXECUTE) && (u == 0 || u
                == PTE_USER),
    ;
    assert((w | x | u) & PTE_NO_EXECUTE != 0 <==> x == PTE_NO_EXECUTE) by (bit_vector)
        requires
            (w == 0 || w == PTE_WRITE) && (x == 0 || x == PTE_NO_EXECUTE) && (u == 0 || u
                == PTE_USER),
    ;
    assert((w | x | u) & PTE_USER != 0 <==> u == PTE_USER) by (bit_vector)
        requires
            (w == 0 || w == PTE_WRITE) && (x == 0 || x == PTE_NO_EXECUTE) && (u == 0 || u
                == PTE_USER),
    ;
}

/// A page-table entry: one 64-bit word. Equality is bitwise.
#[derive(Clone, Copy, Debug, PartialEq, Eq, Structural)]
pub struct Pte(pub u64);

impl Pte {
    pub open spec fn spec_bits(self) -> u64 {
        self.0
    }

    /// The null entry: absent.
    pub fn null() -> (r: Pte)
        ensures
            r.spec_bits() == 0,
    {
        Pte(0)
    }

    /// Pack a physical address and flag bits into one entry word.
    pub fn new(addr: PhysAddr, flags: u64) -> (r: Pte)
        requires
            addr.spec_value() <= u64::MAX,
        ensures
            r.spec_bits() == (addr.spec_value() as u64 | flags),
    {
        Pte(addr.to_usize() as u64 | flags)
    }

    /// The physical address held in the entry. The address bits must fit
    /// the machine word, which on a 64-bit machine they always do.
    pub fn addr(self) -> (r: PhysAddr)
        requires
            (self.spec_bits() & PTE_ADDR_MASK) as int <= usize::MAX,
        ensures
            r.spec_value() == (self.spec_bits() & PTE_ADDR_MASK) as int,
    {
        let bits = self.0;
        proof {
            assert((bits & PTE_ADDR_MASK) <= 0x000f_ffff_ffff_f000u64) by (bit_vector);
        }
        PhysAddr::new((bits & PTE_ADDR_MASK) as usize)
    }

    /// The defined flag bits of the entry.
    pub fn flags(self) -> (r: u64)
        ensures
            r == self.spec_bits() & PTE_FLAGS_MASK,
    {
        self.0 & PTE_FLAGS_MASK
    }

    pub open spec fn spec_present(self) -> bool {
        self.spec_bits() & PTE_PRESENT != 0
    }

    pub fn present(self) -> (r: bool)
        ensures
            r == self.spec_present(),
    {
        self.0 & PTE_PRESENT != 0
    }

    pub open spec fn spec_huge(self) -> bool {
        self.spec_bits() & PTE_HUGE != 0
    }

    pub fn huge(self) -> (r: bool)
        ensures
            r == self.spec_huge(),
    {
        self.0 & PTE_HUGE != 0
    }
}

/// Spec-level views of a raw entry word.
pub open spec fn pte_present(e: u64) -> bool {
    e & PTE_PRESENT != 0
}

pub open spec fn pte_huge(e: u64) -> bool {
    e & PTE_HUGE != 0
}

pub open spec fn pte_addr(e: u64) -> int {
    (e & PTE_ADDR_MASK) as int
}

/// Packing an aligned physical address below 2^52 with flags that stay out
/// of the address bits keeps every part recoverable.
pub proof fn lemma_pte_pack(addr: u64, flags: u64)
    requires
        addr & 0xfff == 0,
        addr < 0x0010_0000_0000_0000,
        flags & PTE_ADDR_MASK == 0,
    ensures
        pte_addr(addr | flags) == addr,
        pte_present(addr | flags) == (flags & PTE_PRESENT != 0),
        pte_huge(addr | flags) == (flags & PTE_HUGE != 0),
        (addr | flags) & PARENT_FLAGS == flags & PARENT_FLAGS,
{
    assert((addr | flags) & 0x000f_ffff_ffff_f000 == addr && (addr | flags) & 1 == flags & 1 && (
    addr | flags) & 0x80 == flags & 0x80 && (addr | flags) & 6 == flags & 6) by (bit_vector)
        requires
            addr & 0xfff == 0 && addr < 0x0010_0000_0000_0000 && flags & 0x000f_ffff_ffff_f000
                == 0,
    ;
}

/// Widening an intermediate entry with the parent flags touches neither the
/// address bits nor the present or huge bit, and leaves the parent flags
/// set.
pub proof fn lemma_parent_or(e: u64)
    ensures
        pte_addr(e | PARENT_FLAGS) == pte_addr(e),
        pte_present(e | PARENT_FLAGS) == pte_present(e),
        pte_huge(e | PARENT_FLAGS) == pte_huge(e),
        (e | PARENT_FLAGS) & PARENT_FLAGS == PARENT_FLAGS,
{
    assert((e | 6u64) & 0x000f_ffff_ffff_f000 == e & 0x000f_ffff_ffff_f000 && (e | 6u64) & 1 == e
        & 1 && (e | 6u64) & 0x80 == e & 0x80 && (e | 6u64) & 6u64 == 6u64) by (bit_vector);
}

/// Page alignment as arithmetic and as a bit test agree.
pub proof fn lemma_align_bits(a: u64)
    ensures
        a % 4096 == 0 <==> a & 0xfff == 0,
{
    assert(a % 4096 == 0 <==> a & 0xfff == 0) by (bit_vector);
}

} // verus!
