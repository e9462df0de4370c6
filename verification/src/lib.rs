//! Core of the Bolt kernel: addressing primitives, the physical memory
//! manager, the hardware address translation engine, and the trap dispatch
//! path, together with the per-CPU descriptor tables that back them.
//!
//! Everything here is plain data and arithmetic: the machine registers, the
//! boot protocol, and the raw memory behind the page tables are driven by a
//! thin unverified shell around this crate.

pub mod acpi;
pub mod hat;
pub mod mmu;
pub mod panic;
pub mod pmm;
pub mod pte;
pub mod riscv_cpu;
pub mod riscv_trap;
pub mod trap;
pub mod vm;
pub mod x86_cpu;
pub mod x86_trap;
pub mod x86_vm;
pub mod xtask;
