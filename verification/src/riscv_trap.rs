//! RISC-V trap entry: the frame the entry stub saves, the fixed exception
//! name table, and the interrupt and user-memory windows on `sstatus`,
//! modelled as functions on the register value. The restore discipline
//! follows the x86_64 variant: the saved state decides whether the bit
//! comes back, so nested windows compose.

use vstd::prelude::*;

use crate::riscv_cpu::Sstatus;
use crate::trap::{Exception, TrapFrameApi};

verus! {

/// The frame the trap entry stub saves: the cause, the faulting PC, the
/// trap value, the saved status, and the 32 general-purpose registers.
#[derive(Debug)]
pub struct TrapFrame {
    pub cause: usize,
    pub epc: usize,
    pub val: usize,
    pub sstatus: Sstatus,
    pub gpr: Vec<usize>,
}

/// The architectural name of a synchronous exception cause.
pub open spec fn spec_cause_name(c: usize) -> Option<&'static str> {
    if c == 0 {
        Some("instruction address misaligned")
    } else if c == 1 {
        Some("instruction address fault")
    } else if c == 2 {
        Some("illegal instruction")
    } else if c == 3 {
        Some("breakpoint")
    } else if c == 4 {
        Some("load address misaligned")
    } else if c == 5 {
        Some("load access fault")
    } else if c == 6 {
        Some("store/amo address misaligned")
    } else if c == 7 {
        Some("store/amo access fault")
    } else if c == 8 {
        Some("environment call from u-mode")
    } else if c == 9 {
        Some("environment call from s-mode")
    } else if c == 10 {
        Some("reserved")
    } else if c == 11 {
        Some("reserved")
    } else if c == 12 {
        Some("instruction page fault")
    } else if c == 13 {
        Some("load page fault")
    } else if c == 14 {
        Some("reserved")
    } else if c == 15 {
        Some("store/amo page fault")
    } else {
        None
    }
}

pub fn cause_name(c: usize) -> (r: Option<&'static str>)
    ensures
        r == spec_cause_name(c),
{
    if c == 0 {
        Some("instruction address misaligned")
    } else if c == 1 {
        Some("instruction address fault")
    } else if c == 2 {
        Some("illegal instruction")
    } else if c == 3 {
        Some("breakpoint")
    } else if c == 4 {
        Some("load address misaligned")
    } else if c == 5 {
        Some("load access fault")
    } else if c == 6 {
        Some("store/amo address misaligned")
    } else if c == 7 {
        Some("store/amo access fault")
    } else if c == 8 {
        Some("environment call from u-mode")
    } else if c == 9 {
        Some("environment call from s-mode")
    } else if c == 10 {
        Some("reserved")
    } else if c == 11 {
        Some("reserved")
    } else if c == 12 {
        Some("instruction page fault")
    } else if c == 13 {
        Some("load page fault")
    } else if c == 14 {
        Some("reserved")
    } else if c == 15 {
        Some("store/amo page fault")
    } else {
        None
    }
}

impl TrapFrameApi for TrapFrame {
    /// An exception has the interrupt bit, the most significant bit of
    /// the cause, clear.
    open spec fn spec_is_exception(&self) -> bool {
        (self.cause as u64) >> 63 == 0
    }

    open spec fn spec_exception(&self) -> Option<Exception> {
        if self.spec_is_exception() && spec_cause_name(self.cause) is Some {
            Some(Exception { vector: self.cause, name: spec_cause_name(self.cause)->Some_0 })
        } else {
            None
        }
    }

    fn is_exception(&self) -> (r: bool)
        ensures
            r == self.spec_is_exception(),
    {
        (self.cause as u64) >> 63 == 0
    }

    fn exception(&self) -> (r: Option<Exception>)
        ensures
            r == self.spec_exception(),
    {
        if self.is_exception() {
            match cause_name(self.cause) {
                Some(name) => Some(Exception { vector: self.cause, name }),
                None => None,
            }
        } else {
            None
        }
    }
}

/// The supervisor interrupt-enable bit of `sstatus`.
pub const SSTATUS_SIE: u64 = 0x2;

/// The supervisor-user-memory bit of `sstatus`, which opens kernel access
/// to user pages.
pub const SSTATUS_SUM: u64 = 0x4_0000;

/// Save-and-disable half of an interrupt-free window: clear SIE, remember
/// whether it was set.
pub fn interrupts_save_disable(sstatus: u64) -> (r: (u64, bool))
    ensures
        r.0 == sstatus & !SSTATUS_SIE,
        r.1 <==> sstatus & SSTATUS_SIE != 0,
{
    (sstatus & !SSTATUS_SIE, sstatus & SSTATUS_SIE != 0)
}

/// Restore half of an interrupt-free window: set SIE again only when the
/// saved state had it set, so nested windows compose.
pub fn interrupts_restore(sstatus: u64, prev_enabled: bool) -> (r: u64)
    ensures
        r == (if prev_enabled {
            sstatus | SSTATUS_SIE
        } else {
            sstatus
        }),
{
    if prev_enabled {
        sstatus | SSTATUS_SIE
    } else {
        sstatus
    }
}

/// Leaving an interrupt-free window restores the status word exactly.
pub proof fn lemma_interrupt_window_composes(sstatus: u64)
    ensures
        (if sstatus & SSTATUS_SIE != 0 {
            (sstatus & !SSTATUS_SIE) | SSTATUS_SIE
        } else {
            sstatus & !SSTATUS_SIE
        }) == sstatus,
{
    assert(sstatus & 0x2u64 != 0 ==> ((sstatus & !0x2u64) | 0x2u64) == sstatus) by (bit_vector);
    assert(sstatus & 0x2u64 == 0 ==> (sstatus & !0x2u64) == sstatus) by (bit_vector);
}

/// Open a user-memory window: set SUM, remember whether it was set.
pub fn user_access_open(sstatus: u64) -> (r: (u64, bool))
    ensures
        r.0 == sstatus | SSTATUS_SUM,
        r.1 <==> sstatus & SSTATUS_SUM != 0,
{
    (sstatus | SSTATUS_SUM, sstatus & SSTATUS_SUM != 0)
}

/// Close a user-memory window: clear SUM again only when the saved state
/// had it clear, so nested windows compose.
pub fn user_access_close(sstatus: u64, prev_sum: bool) -> (r: u64)
    ensures
        r == (if prev_sum {
            sstatus
        } else {
            sstatus & !SSTATUS_SUM
        }),
{
    if prev_sum {
        sstatus
    } else {
        sstatus & !SSTATUS_SUM
    }
}

/// Leaving a user-memory window restores the status word exactly.
pub proof fn lemma_user_access_window_composes(sstatus: u64)
    ensures
        (if sstatus & SSTATUS_SUM != 0 {
            sstatus | SSTATUS_SUM
        } else {
            (sstatus | SSTATUS_SUM) & !SSTATUS_SUM
        }) == sstatus,
{
    assert(sstatus & 0x4_0000u64 != 0 ==> (sstatus | 0x4_0000u64) == sstatus) by (bit_vector);
    assert(sstatus & 0x4_0000u64 == 0 ==> ((sstatus | 0x4_0000u64) & !0x4_0000u64) == sstatus)
        by (bit_vector);
}

} // verus!
