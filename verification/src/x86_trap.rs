//! x86_64 trap entry: the trap frame every entry path builds, the IDT
//! descriptors, the interrupt-stack assignment, and the register shuffles
//! of the fast system-call paths, modelled as functions on frame values.

use vstd::prelude::*;

use crate::trap::{Exception, TrapFrameApi};

verus! {

/// Synthetic `info` values for traps that enter outside the IDT.
pub const T_SYSENTER: usize = 256;

pub const T_SYSENTER_UD: usize = 257;

pub const T_SYSCALL: usize = 258;

/// RFLAGS bits cleared on system-call entry: TF, IF, DF, AC.
pub const TRAP_FMASK: usize = 0x4_0700;

/// GDT selectors, by byte offset into the GDT.
pub const SEL_KCODE: u16 = 8;

pub const SEL_KDATA: u16 = 16;

pub const SEL_UCODE32: u16 = 24;

pub const SEL_UDATA32: u16 = 32;

pub const SEL_UCODE: u16 = 40;

pub const SEL_UDATA: u16 = 48;

pub const SEL_TSS: u16 = 56;

/// The opcode of `sysenter`, as read at a faulting RIP.
pub const SYSENTER_OPCODE: u16 = 0x340f;

/// The fixed frame layout pushed on every interrupt, exception and system
/// call; its field order is the ABI the assembly stubs build.
#[derive(Clone, Copy, Debug, PartialEq, Eq, Structural)]
pub struct TrapFrame {
    pub rdi: usize,
    pub rsi: usize,
    pub rdx: usize,
    pub r10: usize,
    pub r8: usize,
    pub r9: usize,
    pub rax: usize,
    pub rbx: usize,
    pub rcx: usize,
    pub rbp: usize,
    pub r11: usize,
    pub r12: usize,
    pub r13: usize,
    pub r14: usize,
    pub r15: usize,
    pub info: usize,
    pub error: usize,
    pub rip: usize,
    pub cs: usize,
    pub rflags: usize,
    pub rsp: usize,
    pub ss: usize,
}

/// The architectural name of an exception vector.
pub open spec fn spec_exception_name(v: usize) -> Option<&'static str> {
    if v == 0 {
        Some("divide error")
    } else if v == 1 {
        Some("debug")
    } else if v == 2 {
        Some("non-maskable interrupt")
    } else if v == 3 {
        Some("breakpoint")
    } else if v == 4 {
        Some("overflow")
    } else if v == 5 {
        Some("bound range exceeded")
    } else if v == 6 {
        Some("invalid opcode")
    } else if v == 7 {
        Some("device not available")
    } else if v == 8 {
        Some("double fault")
    } else if v == 10 {
        Some("invalid tss")
    } else if v == 11 {
        Some("segment not present")
    } else if v == 12 {
        Some("stack fault")
    } else if v == 13 {
        Some("general protection fault")
    } else if v == 14 {
        Some("page fault")
    } else if v == 16 {
        Some("x87 floating-point error")
    } else if v == 17 {
        Some("alignment check")
    } else if v == 18 {
        Some("machine check")
    } else if v == 19 {
        Some("simd floating-point error")
    } else if v == 20 {
        Some("virtualization")
    } else if v == 21 {
        Some("control protection")
    } else {
        None
    }
}

/// The architectural name of an exception vector, looked up in the fixed
/// table.
pub fn exception_name(v: usize) -> (r: Option<&'static str>)
    ensures
        r == spec_exception_name(v),
{
    if v == 0 {
        Some("divide error")
    } else if v == 1 {
        Some("debug")
    } else if v == 2 {
        Some("non-maskable interrupt")
    } else if v == 3 {
        Some("breakpoint")
    } else if v == 4 {
        Some("overflow")
    } else if v == 5 {
        Some("bound range exceeded")
    } else if v == 6 {
        Some("invalid opcode")
    } else if v == 7 {
        Some("device not available")
    } else if v == 8 {
        Some("double fault")
    } else if v == 10 {
        Some("invalid tss")
    } else if v == 11 {
        Some("segment not present")
    } else if v == 12 {
        Some("stack fault")
    } else if v == 13 {
        Some("general protection fault")
    } else if v == 14 {
        Some("page fault")
    } else if v == 16 {
        Some("x87 floating-point error")
    } else if v == 17 {
        Some("alignment check")
    } else if v == 18 {
        Some("machine check")
    } else if v == 19 {
        Some("simd floating-point error")
    } else if v == 20 {
        Some("virtualization")
    } else if v == 21 {
        Some("control protection")
    } else {
        None
    }
}

impl TrapFrameApi for TrapFrame {
    /// A frame is an exception exactly when its vector is below 32. The
    /// synthetic system-call numbers sit above every hardware vector, so
    /// `syscall` and `sysenter` frames are never classified as exceptions.
    open spec fn spec_is_exception(&self) -> bool {
        self.info < 32
    }

    open spec fn spec_exception(&self) -> Option<Exception> {
        if self.spec_is_exception() && spec_exception_name(self.info) is Some {
            Some(Exception { vector: self.info, name: spec_exception_name(self.info)->Some_0 })
        } else {
            None
        }
    }

    fn is_exception(&self) -> (r: bool)
        ensures
            r == self.spec_is_exception(),
    {
        self.info < 32
    }

    fn exception(&self) -> (r: Option<Exception>)
        ensures
            r == self.spec_exception(),
    {
        if self.info < 32 {
            match exception_name(self.info) {
                Some(name) => Some(Exception { vector: self.info, name }),
                None => None,
            }
        } else {
            None
        }
    }
}

impl TrapFrame {
    /// The frame the `syscall` fast path builds immediately before calling
    /// the dispatcher: the hardware-pushed tail is synthesized from the
    /// user's stack pointer and the return context `syscall` left in RCX
    /// and R11, the entry mask is applied to the saved flags, and the user
    /// selectors fill CS and SS.
    pub fn for_syscall(
        rdi: usize,
        rsi: usize,
        rdx: usize,
        r10: usize,
        r8: usize,
        r9: usize,
        rax: usize,
        rbx: usize,
        rcx: usize,
        rbp: usize,
        r11: usize,
        r12: usize,
        r13: usize,
        r14: usize,
        r15: usize,
        user_rsp: usize,
    ) -> (r: TrapFrame)
        ensures
            r.rdi == rdi && r.rsi == rsi && r.rdx == rdx && r.r10 == r10 && r.r8 == r8 && r.r9
                == r9 && r.rax == rax && r.rbx == rbx && r.rcx == rcx && r.rbp == rbp && r.r11
                == r11 && r.r12 == r12 && r.r13 == r13 && r.r14 == r14 && r.r15 == r15,
            r.info == T_SYSCALL,
            r.error == 0,
            r.rip == rcx,
            r.cs == SEL_UCODE,
            r.rflags == r11 & !TRAP_FMASK,
            r.rsp == user_rsp,
            r.ss == SEL_UDATA,
    {
        TrapFrame {
            rdi,
            rsi,
            rdx,
            r10,
            r8,
            r9,
            rax,
            rbx,
            rcx,
            rbp,
            r11,
            r12,
            r13,
            r14,
            r15,
            info: T_SYSCALL,
            error: 0,
            rip: rcx,
            cs: SEL_UCODE as usize,
            rflags: r11 & !TRAP_FMASK,
            rsp: user_rsp,
            ss: SEL_UDATA as usize,
        }
    }

    /// The frame the `sysenter` fast path builds: the same shape the IDT
    /// mechanism pushes, with the user stack pointer taken from R11 and
    /// the return RIP from RCX per the `sysenter` convention, the saved
    /// flags image kept unmasked, and the synthetic `sysenter` trap
    /// number.
    pub fn for_sysenter(
        rdi: usize,
        rsi: usize,
        rdx: usize,
        r10: usize,
        r8: usize,
        r9: usize,
        rax: usize,
        rbx: usize,
        rcx: usize,
        rbp: usize,
        r11: usize,
        r12: usize,
        r13: usize,
        r14: usize,
        r15: usize,
        rflags: usize,
    ) -> (r: TrapFrame)
        ensures
            r.rdi == rdi && r.rsi == rsi && r.rdx == rdx && r.r10 == r10 && r.r8 == r8 && r.r9
                == r9 && r.rax == rax && r.rbx == rbx && r.rcx == rcx && r.rbp == rbp && r.r11
                == r11 && r.r12 == r12 && r.r13 == r13 && r.r14 == r14 && r.r15 == r15,
            r.info == T_SYSENTER,
            r.error == 0,
            r.rip == rcx,
            r.cs == SEL_UCODE,
            r.rflags == rflags,
            r.rsp == r11,
            r.ss == SEL_UDATA,
    {
        TrapFrame {
            rdi,
            rsi,
            rdx,
            r10,
            r8,
            r9,
            rax,
            rbx,
            rcx,
            rbp,
            r11,
            r12,
            r13,
            r14,
            r15,
            info: T_SYSENTER,
            error: 0,
            rip: rcx,
            cs: SEL_UCODE as usize,
            rflags,
            rsp: r11,
            ss: SEL_UDATA as usize,
        }
    }
}

/// The live RFLAGS image after the `sysenter` entry mask: DF, IF, TF and
/// AC are cleared, as the FMASK policy demands of every system-call
/// entry.
pub fn sysenter_entry_flags(rflags: usize) -> (r: usize)
    ensures
        r == rflags & !TRAP_FMASK,
{
    rflags & !TRAP_FMASK
}

/// The RFLAGS image `sysexit` returns with: the trace and interrupt
/// enable bits are cleared from the saved image before it is popped; the
/// `sti` on the way out turns interrupts back on after the switch.
pub fn sysexit_flags(rflags: usize) -> (r: usize)
    ensures
        r == rflags & !0x300usize,
{
    rflags & !0x300
}

/// Catch the invalid-opcode exception some CPUs raise for `sysenter`: when
/// the faulting instruction, read by the caller under a user-access
/// window, is the `sysenter` opcode, rewrite the frame into a synthetic
/// system-call entry using the return context the user passed in RCX and
/// R11. A frame faulting at a null RIP is left alone.
pub fn catch_sysenter(tf: &mut TrapFrame, fault_opcode: u16)
    ensures
        old(tf).rip == 0 ==> *final(tf) == *old(tf),
        old(tf).rip != 0 && fault_opcode == SYSENTER_OPCODE ==> *final(tf) == (TrapFrame {
            rip: old(tf).rcx,
            rsp: old(tf).r11,
            info: T_SYSENTER_UD,
            ..*old(tf)
        }),
        old(tf).rip != 0 && fault_opcode != SYSENTER_OPCODE ==> *final(tf) == *old(tf),
{
    if tf.rip == 0 {
        return ;
    }
    if fault_opcode == SYSENTER_OPCODE {
        tf.rip = tf.rcx;
        tf.rsp = tf.r11;
        tf.info = T_SYSENTER_UD;
    }
}

/// One 128-bit IDT gate descriptor: a 64-bit interrupt gate at the kernel
/// code selector, with DPL 3 only for the system-call vector and the
/// interrupt stack the architectural table assigns.
pub open spec fn spec_idt_descriptor(v: usize, offset: usize, ist: usize) -> u128 {
    let dpl: u128 = if v == 0x80 {
        3
    } else {
        0
    };
    (0x8eu128 << 40) | (dpl << 45) | ((ist as u128) << 32) | ((SEL_KCODE as u128) << 16) | (((
    offset as u128) & 0xffffffff00000000) << 32) | (((offset as u128) & 0x00000000ffff0000) << 32)
        | ((offset as u128) & 0x000000000000ffff)
}

/// The interrupt-stack index a vector runs on: the debug exception, NMI,
/// double fault and machine check each get a private stack; everything
/// else stays on the current one.
pub open spec fn spec_ist_for(v: usize) -> int {
    if v == 1 {
        1
    } else if v == 8 {
        2
    } else if v == 2 {
        3
    } else if v == 18 {
        4
    } else {
        0
    }
}

pub fn ist_for(v: usize) -> (r: usize)
    ensures
        r == spec_ist_for(v),
{
    if v == 1 {
        1
    } else if v == 8 {
        2
    } else if v == 2 {
        3
    } else if v == 18 {
        4
    } else {
        0
    }
}

/// An x86_64 interrupt vector.
#[derive(Clone, Copy, Debug, PartialEq, Eq, Structural)]
pub struct Vector(pub u8);

/// The interrupt-stack-table slots a TSS offers; most vectors switch no
/// stack.
#[derive(Clone, Copy, Debug, PartialEq, Eq, Structural)]
pub enum Ist {
    NoSwitch,
    Ist1,
    Ist2,
    Ist3,
    Ist4,
    Ist5,
    Ist6,
    Ist7,
}

impl Ist {
    /// The slot number, with zero for no switch.
    pub fn index(self) -> (r: usize)
        ensures
            r <= 7,
    {
        match self {
            Ist::NoSwitch => 0,
            Ist::Ist1 => 1,
            Ist::Ist2 => 2,
            Ist::Ist3 => 3,
            Ist::Ist4 => 4,
            Ist::Ist5 => 5,
            Ist::Ist6 => 6,
            Ist::Ist7 => 7,
        }
    }
}

impl Vector {
    pub fn to_usize(self) -> (r: usize)
        ensures
            r == self.0,
    {
        self.0 as usize
    }

    /// The private stack this vector runs on, per the architectural
    /// assignment table.
    pub fn ist(self) -> (r: Ist)
        ensures
            r == (if self.0 == 1 {
                Ist::Ist1
            } else if self.0 == 8 {
                Ist::Ist2
            } else if self.0 == 2 {
                Ist::Ist3
            } else if self.0 == 18 {
                Ist::Ist4
            } else {
                Ist::NoSwitch
            }),
    {
        match self.0 {
            1 => Ist::Ist1,
            8 => Ist::Ist2,
            2 => Ist::Ist3,
            18 => Ist::Ist4,
            _ => Ist::NoSwitch,
        }
    }
}

/// Every vector, in ascending order.
pub fn vectors() -> (r: Vec<Vector>)
    ensures
        r@.len() == 256,
        forall|i: int| 0 <= i < 256 ==> (#[trigger] r@[i]).0 == i,
{
    let mut r: Vec<Vector> = Vec::new();
    let mut v: usize = 0;
    while v < 256
        invariant
            v <= 256,
            r@.len() == v,
            forall|i: int| 0 <= i < v ==> (#[trigger] r@[i]).0 == i,
        decreases 256 - v,
    {
        r.push(Vector(v as u8));
        v += 1;
    }
    r
}

/// Fixed-size table of 256 gate descriptors, one per vector.
pub struct InterruptDescriptorTable {
    descriptors: Vec<u128>,
}

impl InterruptDescriptorTable {
    pub closed spec fn view(&self) -> Seq<u128> {
        self.descriptors@
    }

    /// An all-null table.
    pub fn new() -> (r: InterruptDescriptorTable)
        ensures
            r.view().len() == 256,
            forall|i: int| 0 <= i < 256 ==> r.view()[i] == 0u128,
    {
        let mut descriptors: Vec<u128> = Vec::new();
        let mut i: usize = 0;
        while i < 256
            invariant
                i <= 256,
                descriptors@.len() == i,
                forall|k: int| 0 <= k < i ==> descriptors@[k] == 0u128,
            decreases 256 - i,
        {
            descriptors.push(0);
            i += 1;
        }
        InterruptDescriptorTable { descriptors }
    }

    /// Fill every gate from the per-vector assembly stubs: each vector's
    /// descriptor points at its stub, at the kernel code selector, with
    /// its assigned interrupt stack, and with DPL 3 only for the
    /// system-call vector.
    pub fn build(stubs: &Vec<usize>) -> (r: InterruptDescriptorTable)
        requires
            stubs@.len() == 256,
        ensures
            r.view().len() == 256,
            forall|v: int|
                0 <= v < 256 ==> r.view()[v] == spec_idt_descriptor(
                    v as usize,
                    stubs@[v],
                    spec_ist_for(v as usize) as usize,
                ),
    {
        let mut descriptors: Vec<u128> = Vec::new();
        let mut v: usize = 0;
        while v < 256
            invariant
                v <= 256,
                stubs@.len() == 256,
                descriptors@.len() == v,
                forall|k: int|
                    0 <= k < v ==> descriptors@[k] == spec_idt_descriptor(
                        k as usize,
                        stubs@[k],
                        spec_ist_for(k as usize) as usize,
                    ),
            decreases 256 - v,
        {
            let offset = stubs[v];
            let ist = ist_for(v);
            let dpl: u128 = if v == 0x80 {
                3
            } else {
                0
            };
            let d: u128 = (0x8eu128 << 40) | (dpl << 45) | ((ist as u128) << 32) | ((
            SEL_KCODE as u128) << 16) | (((offset as u128) & 0xffffffff00000000) << 32) | (((
            offset as u128) & 0x00000000ffff0000) << 32) | ((offset as u128)
                & 0x000000000000ffff);
            descriptors.push(d);
            v += 1;
        }
        InterruptDescriptorTable { descriptors }
    }

    pub fn descriptor(&self, v: usize) -> (r: u128)
        requires
            v < self.view().len(),
        ensures
            r == self.view()[v as int],
    {
        self.descriptors[v]
    }
}

/// The IA32_STAR layout the system-call setup programs: the 32-bit user
/// code selector in the top word selects the return segments, the kernel
/// code selector in the next word selects the entry segments.
pub fn star_value() -> (r: u64)
    ensures
        r == ((SEL_UCODE32 as u64) << 48) | ((SEL_KCODE as u64) << 32),
{
    ((SEL_UCODE32 as u64) << 48) | ((SEL_KCODE as u64) << 32)
}

/// The interrupt-enable bit of RFLAGS.
pub const RFLAGS_IF: u64 = 0x200;

/// Save-and-disable half of an interrupt-free window: clear IF, remember
/// whether it was set.
pub fn interrupts_save_disable(rflags: u64) -> (r: (u64, bool))
    ensures
        r.0 == rflags & !RFLAGS_IF,
        r.1 <==> rflags & RFLAGS_IF != 0,
{
    (rflags & !RFLAGS_IF, rflags & RFLAGS_IF != 0)
}

/// Restore half of an interrupt-free window: set IF again only when the
/// saved state had it set, so nested windows compose.
pub fn interrupts_restore(rflags: u64, prev_enabled: bool) -> (r: u64)
    ensures
        r == (if prev_enabled {
            rflags | RFLAGS_IF
        } else {
            rflags
        }),
{
    if prev_enabled {
        rflags | RFLAGS_IF
    } else {
        rflags
    }
}

/// Leaving an interrupt-free window restores the flags word exactly:
/// nested windows compose.
pub proof fn lemma_interrupt_window_composes(rflags: u64)
    ensures
        (if rflags & RFLAGS_IF != 0 {
            (rflags & !RFLAGS_IF) | RFLAGS_IF
        } else {
            rflags & !RFLAGS_IF
        }) == rflags,
{
    assert(rflags & 0x200u64 != 0 ==> ((rflags & !0x200u64) | 0x200u64) == rflags) by (bit_vector);
    assert(rflags & 0x200u64 == 0 ==> (rflags & !0x200u64) == rflags) by (bit_vector);
}

/// The alignment-check bit of RFLAGS, which SMAP borrows as the
/// user-access switch.
pub const RFLAGS_AC: u64 = 0x4_0000;

/// Open a user-space access window (the `stac` step): set AC, remember
/// whether it was already set.
pub fn user_access_open(rflags: u64) -> (r: (u64, bool))
    ensures
        r.0 == rflags | RFLAGS_AC,
        r.1 <==> rflags & RFLAGS_AC != 0,
{
    (rflags | RFLAGS_AC, rflags & RFLAGS_AC != 0)
}

/// Close a user-space access window (the `clac` step): clear AC again
/// only when the saved state had it clear, so nested windows compose.
pub fn user_access_close(rflags: u64, prev_ac: bool) -> (r: u64)
    ensures
        r == (if prev_ac {
            rflags
        } else {
            rflags & !RFLAGS_AC
        }),
{
    if prev_ac {
        rflags
    } else {
        rflags & !RFLAGS_AC
    }
}

/// The guarded open step of a user-access window: `stac` may only run
/// when SMAP is enabled, so with SMAP off the flags are left alone and
/// the saved state reports the bit as already set, which disarms the
/// closing `clac` as well.
pub fn user_access_gate(smap_enabled: bool, rflags: u64) -> (r: (u64, bool))
    ensures
        smap_enabled ==> r.0 == rflags | RFLAGS_AC && (r.1 <==> rflags & RFLAGS_AC != 0),
        !smap_enabled ==> r.0 == rflags && r.1,
{
    if smap_enabled {
        user_access_open(rflags)
    } else {
        (rflags, true)
    }
}

/// Leaving a user-access window restores the flags word exactly: nested
/// windows compose.
pub proof fn lemma_user_access_window_composes(rflags: u64)
    ensures
        (if rflags & RFLAGS_AC != 0 {
            rflags | RFLAGS_AC
        } else {
            (rflags | RFLAGS_AC) & !RFLAGS_AC
        }) == rflags,
{
    assert(rflags & 0x4_0000u64 != 0 ==> (rflags | 0x4_0000u64) == rflags) by (bit_vector);
    assert(rflags & 0x4_0000u64 == 0 ==> ((rflags | 0x4_0000u64) & !0x4_0000u64) == rflags)
        by (bit_vector);
}

} // verus!
