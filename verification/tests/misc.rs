use bolt::acpi::{parse_eisa_id, ResourceKind};
use bolt::mmu::{CpuFeatures, MmuInfo, PageSize};
use bolt::panic::{register_executable, ExecutableRegistry};
use bolt::pte::{
    prot_flags_for, Prot, ProtMap, Pte, PROT_EXEC, PROT_USER, PROT_WRITE, PTE_NO_EXECUTE,
    PTE_PRESENT, PTE_USER, PTE_WRITE,
};
use bolt::riscv_cpu::{ExtensionState, PrivilegeLevel, Sstatus};
use bolt::riscv_trap::TrapFrame as RvTrapFrame;
use bolt::trap::{dispatch, TrapDisposition, TrapFrameApi};
use bolt::vm::{pages_for, VirtAddr};
use bolt::x86_cpu::{cr4_for_features, efer_for_features, Gdt, Tss};
use bolt::x86_vm::{init, PageTableEntry};
use bolt::xtask::{TargetArch, XtaskArgs};

#[test]
fn protmap_realizes_the_inversions() {
    let map = ProtMap::new(PTE_NO_EXECUTE);
    for bits in 0u8..16 {
        let flags = map.index(Prot(bits));
        assert_eq!(flags & PTE_WRITE != 0, bits & PROT_WRITE != 0, "write, index {bits}");
        assert_eq!(flags & PTE_NO_EXECUTE != 0, bits & PROT_EXEC == 0, "nx, index {bits}");
        assert_eq!(flags & PTE_USER != 0, bits & PROT_USER != 0, "user, index {bits}");
        assert_eq!(flags, prot_flags_for(PTE_NO_EXECUTE, bits));
    }

    // Without the no-execute bit the NX column is empty everywhere.
    let no_nx = ProtMap::new(0);
    for bits in 0u8..16 {
        assert_eq!(no_nx.index(Prot(bits)) & PTE_NO_EXECUTE, 0);
    }
}

#[test]
fn pte_packs_and_unpacks() {
    let pte = Pte::new(bolt::vm::PhysAddr::new(0x1234_4000), PTE_PRESENT | PTE_WRITE);
    assert_eq!(pte.addr().to_usize(), 0x1234_4000);
    assert!(pte.present());
    assert!(!pte.huge());
    assert_eq!(pte.flags(), PTE_PRESENT | PTE_WRITE);
    assert_eq!(Pte::null().0, 0);
}

#[test]
fn mmu_info_follows_the_probe() {
    let f = CpuFeatures {
        gigapages: true,
        nx: false,
        global_pages: false,
        pcid: true,
        smap: false,
        smep: false,
        umip: false,
    };
    let four = MmuInfo::new(&f, false);
    assert_eq!(four.bits, 48);
    assert_eq!(four.levels, 4);
    assert_eq!(four.max_level, 3);
    assert_eq!(four.nx_bit, 0);
    assert!(four.gigapages);
    assert!(four.pcide);
    assert_eq!(four.max_page_size, PageSize::Size1GiB);
    assert_eq!(four.map_level(PageSize::Size1GiB), 2);

    let five = MmuInfo::new(&f, true);
    assert_eq!(five.bits, 57);
    assert_eq!(five.levels, 5);
    assert_eq!(five.max_level, 4);

    let no_giga = MmuInfo::new(&CpuFeatures { gigapages: false, ..f }, false);
    assert_eq!(no_giga.map_level(PageSize::Size1GiB), 1);
    assert_eq!(no_giga.level_size(1), 0x20_0000);
    assert_eq!(no_giga.level_size(2), 0x4000_0000);
    assert_eq!(no_giga.max_page_size, PageSize::Size2MiB);
}

#[test]
fn gdt_and_tss_encodings() {
    let gdt = Gdt::new(0xffff_8000_1234_5678);
    assert_eq!(gdt.null, 0);
    assert_eq!(gdt.kernel_code, 0x00209a0000000000);
    assert_eq!(gdt.kernel_data, 0x0000920000000000);
    assert_eq!(gdt.user_code, 0x0060fa0000000000);
    // TSS descriptor: type 0x89, limit 0x67, base split per the encoding.
    assert_eq!(gdt.tss & 0xffff, 0x67);
    assert_eq!((gdt.tss >> 40) & 0xff, 0x89);
    assert_eq!((gdt.tss >> 16) & 0xff_ffff, 0x34_5678);
    assert_eq!((gdt.tss >> 56) & 0xff, 0x12);
    assert_eq!(gdt.tss_hi, 0xffff_8000);

    let mut tss = Tss::new();
    assert_eq!(tss.io_map_base, 104);
    let prev = tss.set_interrupt_stack(3, 0xffff_9000_0000_4000);
    assert_eq!(prev, 0);
    let again = tss.set_interrupt_stack(3, 0xffff_9000_0000_8000);
    assert_eq!(again, 0xffff_9000_0000_4000);
}

#[test]
fn control_registers_follow_features() {
    let f = CpuFeatures {
        gigapages: false,
        nx: true,
        global_pages: true,
        pcid: false,
        smap: true,
        smep: true,
        umip: false,
    };
    let cr4 = cr4_for_features(0x20, &f);
    assert_eq!(cr4, 0x20 | 0x80 | 0x20_0000 | 0x10_0000);
    assert_eq!(efer_for_features(0x500, &f), 0x500 | 0x800);
    assert_eq!(init(0x11), 0x11 | 0x1_0000);
    let pte = PageTableEntry(0x5000 | 1);
    assert!(pte.is_present());
    assert_eq!(pte.addr().to_usize(), 0x5000);
}

#[test]
fn sstatus_fields_decode() {
    let s = Sstatus { bits: (1 << 8) | (2 << 9) | (3 << 13) | (1 << 15) | (1usize << 63) };
    assert_eq!(s.previous_privilege_level(), PrivilegeLevel::Supervisor);
    assert!(s.dirty_state());
    assert_eq!(s.vector_state(), ExtensionState::Clean);
    assert_eq!(s.fpu_state(), ExtensionState::Dirty);
    assert_eq!(s.extension_state(), ExtensionState::Initial);

    let user = Sstatus { bits: 0 };
    assert_eq!(user.previous_privilege_level(), PrivilegeLevel::User);
    assert!(!user.dirty_state());
    assert_eq!(user.fpu_state(), ExtensionState::Off);
}

#[test]
fn riscv_trap_frame_names_exceptions() {
    let tf = RvTrapFrame {
        cause: 15,
        epc: 0x8020_0000,
        val: 0x9000_0000,
        sstatus: Sstatus { bits: 0 },
        gpr: vec![0; 32],
    };
    assert!(tf.is_exception());
    match dispatch(&tf) {
        TrapDisposition::Fatal(e) => assert_eq!(e.name, "store/amo page fault"),
        TrapDisposition::Route => panic!("exception must be fatal"),
    }

    let intr = RvTrapFrame {
        cause: (1usize << 63) | 5,
        epc: 0,
        val: 0,
        sstatus: Sstatus { bits: 0 },
        gpr: vec![0; 32],
    };
    assert!(!intr.is_exception());
    assert!(matches!(dispatch(&intr), TrapDisposition::Route));
}

#[test]
fn resource_kind_decodes() {
    assert_eq!(ResourceKind::from_raw(0), ResourceKind::Memory);
    assert_eq!(ResourceKind::from_raw(1), ResourceKind::Io);
    assert_eq!(ResourceKind::from_raw(2), ResourceKind::BusNumberRange);
    assert_eq!(ResourceKind::from_raw(3), ResourceKind::Reserved(3));
    assert_eq!(ResourceKind::from_raw(191), ResourceKind::Reserved(191));
    assert_eq!(ResourceKind::from_raw(192), ResourceKind::Vendor(192));
    assert_eq!(ResourceKind::from_raw(255), ResourceKind::Vendor(255));
}

#[test]
fn eisa_id_decodes_to_ascii() {
    // "PNP" is 0x10, 0x0e, 0x10 in the packed letter code; 0103 follows
    // as hexadecimal digits.
    let x: u32 = (0x10 << 26) | (0x0e << 21) | (0x10 << 16) | (0x0 << 12) | (0x1 << 8) | (0x0 << 4)
        | 0x3;
    assert_eq!(parse_eisa_id(x), b"PNP0103".to_vec());
}

#[test]
fn executable_registers_once() {
    let mut reg = ExecutableRegistry::new();
    assert!(!reg.is_registered());
    assert!(register_executable(&mut reg, vec![0x7f, b'E', b'L', b'F']).is_ok());
    assert!(reg.is_registered());
    assert_eq!(reg.image().unwrap()[1], b'E');
    assert!(register_executable(&mut reg, vec![1, 2, 3]).is_err());
    assert_eq!(reg.image().unwrap().len(), 4);
}

#[test]
fn build_profile_names() {
    let debug = XtaskArgs { target: TargetArch::X8664, release: false };
    assert_eq!(debug.profile(), "debug");
    let release = XtaskArgs { target: TargetArch::Riscv64, release: true };
    assert_eq!(release.profile(), "release");
}

#[test]
fn pages_for_rounds_up() {
    assert_eq!(pages_for(0), 0);
    assert_eq!(pages_for(1), 1);
    assert_eq!(pages_for(0x1000), 1);
    assert_eq!(pages_for(0x1001), 2);
    assert_eq!(pages_for(0x4000), 4);
}

#[test]
fn canonical_hole_is_respected() {
    let f = CpuFeatures {
        gigapages: false,
        nx: true,
        global_pages: false,
        pcid: false,
        smap: false,
        smep: false,
        umip: false,
    };
    let mmu = MmuInfo::new(&f, false);
    assert!(VirtAddr::new(0x7fff_ffff_ffff).is_canonical(&mmu));
    assert!(!VirtAddr::new(0x8000_0000_0000).is_canonical(&mmu));
    assert!(!VirtAddr::new(0xffff_7fff_ffff_ffff).is_canonical(&mmu));
    assert!(VirtAddr::new(0xffff_8000_0000_0000).is_canonical(&mmu));
}
