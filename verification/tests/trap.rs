use bolt::trap::{dispatch, register_handler, TrapDisposition, TrapFrameApi, Vector};
use bolt::pmm::{free_frames, Pmm};
use bolt::vm::{Hhdm, PhysAddr, VirtAddr};
use bolt::x86_cpu::{init_interrupt_stacks, Tss};
use bolt::x86_trap::{
    catch_sysenter, exception_name, interrupts_restore, interrupts_save_disable, ist_for,
    star_value, user_access_close, user_access_open, vectors, InterruptDescriptorTable, Ist,
    sysenter_entry_flags, sysexit_flags, user_access_gate, TrapFrame, Vector as XVector,
    SEL_KCODE, SEL_UCODE, SEL_UDATA, SYSENTER_OPCODE, TRAP_FMASK, T_SYSCALL, T_SYSENTER,
    T_SYSENTER_UD,
};

fn zero_frame() -> TrapFrame {
    TrapFrame {
        rdi: 0,
        rsi: 0,
        rdx: 0,
        r10: 0,
        r8: 0,
        r9: 0,
        rax: 0,
        rbx: 0,
        rcx: 0,
        rbp: 0,
        r11: 0,
        r12: 0,
        r13: 0,
        r14: 0,
        r15: 0,
        info: 0,
        error: 0,
        rip: 0,
        cs: 0,
        rflags: 0,
        rsp: 0,
        ss: 0,
    }
}

#[test]
fn dispatch_escalates_page_fault() {
    let tf = TrapFrame { info: 14, cs: SEL_UCODE as usize | 3, error: 0x4, ..zero_frame() };
    assert!(tf.is_exception());
    match dispatch(&tf) {
        TrapDisposition::Fatal(e) => {
            assert_eq!(e.vector, 14);
            assert_eq!(e.name, "page fault");
        }
        TrapDisposition::Route => panic!("page fault must be fatal"),
    }
}

#[test]
fn syscall_frames_are_not_exceptions() {
    // The synthetic system-call numbers sit above every hardware vector:
    // a syscall frame must route, never panic as a fatal exception.
    for info in [T_SYSCALL, bolt::x86_trap::T_SYSENTER, T_SYSENTER_UD] {
        let tf = TrapFrame { info, cs: SEL_UCODE as usize | 3, ..zero_frame() };
        assert!(!tf.is_exception());
        assert!(matches!(dispatch(&tf), TrapDisposition::Route));
    }
}

#[test]
fn sysenter_entry_mask_clears_fmask_bits() {
    let live = sysenter_entry_flags(0x4_0346); // DF|IF|TF|AC set
    assert_eq!(live, 0x46);
    assert_eq!(live & TRAP_FMASK, 0);
}

#[test]
fn user_access_gate_respects_smap() {
    // SMAP enabled: AC is set and the prior state is remembered.
    let (opened, prev) = user_access_gate(true, 0x246);
    assert_eq!(opened, 0x246 | 0x4_0000);
    assert!(!prev);
    // SMAP disabled: the flags stay put and the closing half is disarmed.
    let (same, armed) = user_access_gate(false, 0x246);
    assert_eq!(same, 0x246);
    assert!(armed);
}

#[test]
fn dispatch_routes_interrupts() {
    let tf = TrapFrame { info: 0x40, ..zero_frame() };
    assert!(!tf.is_exception());
    assert!(matches!(dispatch(&tf), TrapDisposition::Route));
    register_handler();
}

#[test]
fn vector_exception_boundary() {
    assert!(Vector(31).is_exception());
    assert!(!Vector(32).is_exception());
    assert_eq!(exception_name(8), Some("double fault"));
    assert_eq!(exception_name(9), None);
    assert_eq!(exception_name(33), None);
}

#[test]
fn syscall_frame_shape() {
    let user_rsp = 0x7fff_f000usize;
    let rcx = 0x40_1000usize; // user return RIP
    let r11 = 0x2_0346usize; // user RFLAGS with TF|IF|DF|AC set
    let tf = TrapFrame::for_syscall(
        1, 2, 3, 4, 5, 6, 77, 8, rcx, 9, r11, 10, 11, 12, 13, user_rsp,
    );
    assert_eq!(tf.info, T_SYSCALL);
    assert_eq!(tf.error, 0);
    assert_eq!(tf.rip, rcx);
    assert_eq!(tf.cs, SEL_UCODE as usize);
    assert_eq!(tf.ss, SEL_UDATA as usize);
    assert_eq!(tf.rsp, user_rsp);
    assert_eq!(tf.rflags, r11 & !TRAP_FMASK);
    assert_eq!(tf.rflags & 0x100, 0); // TF cleared
    assert_eq!(tf.rflags & 0x200, 0); // IF cleared
    assert_eq!(tf.rax, 77); // syscall number travels in RAX
    assert_eq!(tf.rdi, 1); // first argument
}

#[test]
fn sysenter_frame_shape() {
    let tf = TrapFrame::for_sysenter(
        1, 2, 3, 4, 5, 6, 7, 8, 0x40_3000, 9, 0x7fff_d000, 10, 11, 12, 13, 0x346,
    );
    assert_eq!(tf.info, T_SYSENTER);
    assert_eq!(tf.rip, 0x40_3000);
    assert_eq!(tf.rsp, 0x7fff_d000);
    assert_eq!(tf.cs, SEL_UCODE as usize);
    assert_eq!(tf.ss, SEL_UDATA as usize);
    assert_eq!(tf.rflags, 0x346);
    // the exit path pops a masked image and re-enables interrupts itself
    assert_eq!(sysexit_flags(tf.rflags), 0x46);
}

#[test]
fn sysenter_rewrite_on_amd_ud() {
    let mut tf = TrapFrame { rip: 0x1234, rcx: 0x40_2000, r11: 0x7fff_e000, info: 6, ..zero_frame() };
    catch_sysenter(&mut tf, SYSENTER_OPCODE);
    assert_eq!(tf.rip, 0x40_2000);
    assert_eq!(tf.rsp, 0x7fff_e000);
    assert_eq!(tf.info, T_SYSENTER_UD);

    let mut other = TrapFrame { rip: 0x1234, info: 6, ..zero_frame() };
    catch_sysenter(&mut other, 0x9090);
    assert_eq!(other.info, 6);
    assert_eq!(other.rip, 0x1234);

    let mut null_rip = TrapFrame { rip: 0, info: 6, ..zero_frame() };
    catch_sysenter(&mut null_rip, SYSENTER_OPCODE);
    assert_eq!(null_rip.info, 6);
}

#[test]
fn idt_descriptors_follow_the_encoding() {
    let mut stubs = Vec::new();
    for v in 0..256usize {
        stubs.push(0xffff_ffff_8010_0000 + v * 32);
    }
    let idt = InterruptDescriptorTable::build(&stubs);

    for v in [0usize, 1, 2, 8, 14, 0x80, 255] {
        let d = idt.descriptor(v);
        let offset = stubs[v] as u128;
        // offset split: low word, mid word, high dword.
        assert_eq!(d & 0xffff, offset & 0xffff);
        assert_eq!((d >> 48) & 0xffff, (offset >> 16) & 0xffff);
        assert_eq!((d >> 64) & 0xffff_ffff, (offset >> 32) & 0xffff_ffff);
        // kernel code selector, interrupt-gate type, present.
        assert_eq!((d >> 16) & 0xffff, SEL_KCODE as u128);
        // DPL sits in bits 45..46: 3 for the system-call gate, 0 elsewhere.
        assert_eq!((d >> 45) & 0x3, if v == 0x80 { 3 } else { 0 });
        assert_eq!((d >> 40) & 0xff, 0x8e | (((v == 0x80) as u128) * 0x60));
        // the architectural interrupt-stack table.
        assert_eq!((d >> 32) & 0x7, ist_for(v) as u128);
    }
    assert_eq!(ist_for(1), 1);
    assert_eq!(ist_for(8), 2);
    assert_eq!(ist_for(2), 3);
    assert_eq!(ist_for(18), 4);
    assert_eq!(ist_for(14), 0);

    let empty = InterruptDescriptorTable::new();
    assert_eq!(empty.descriptor(0x80), 0);
}

#[test]
fn star_selects_the_call_segments() {
    let star = star_value();
    assert_eq!((star >> 32) & 0xffff, SEL_KCODE as u64);
    assert_eq!(star >> 48, 24); // 32-bit user code selector
}

#[test]
fn interrupt_window_nests() {
    let rflags = 0x246u64; // IF set
    let (inner, was_on) = interrupts_save_disable(rflags);
    assert_eq!(inner & 0x200, 0);
    assert!(was_on);
    let (inner2, was_on2) = interrupts_save_disable(inner);
    assert!(!was_on2);
    let back1 = interrupts_restore(inner2, was_on2);
    let back0 = interrupts_restore(back1, was_on);
    assert_eq!(back0, rflags);
}

#[test]
fn user_access_window_nests() {
    let rflags = 0x246u64; // AC clear
    let (open, prev) = user_access_open(rflags);
    assert_eq!(open & 0x4_0000, 0x4_0000);
    assert!(!prev);
    let (open2, prev2) = user_access_open(open);
    assert!(prev2);
    let back1 = user_access_close(open2, prev2);
    let back0 = user_access_close(back1, prev);
    assert_eq!(back0, rflags);
}

#[test]
fn vectors_enumerate_with_their_stacks() {
    let all = vectors();
    assert_eq!(all.len(), 256);
    assert_eq!(all[14].to_usize(), 14);
    assert_eq!(XVector(1).ist(), Ist::Ist1);
    assert_eq!(XVector(8).ist(), Ist::Ist2);
    assert_eq!(XVector(2).ist(), Ist::Ist3);
    assert_eq!(XVector(18).ist(), Ist::Ist4);
    assert_eq!(XVector(14).ist(), Ist::NoSwitch);
    assert_eq!(Ist::Ist4.index(), 4);
    assert_eq!(Ist::NoSwitch.index(), 0);
}

#[test]
fn interrupt_stacks_accept_split_runs() {
    // The four stacks need four fitting allocations, not one big run:
    // two 8-frame runs serve them, tail run first.
    let hhdm = Hhdm::new(VirtAddr::new(0xffff_8000_0000_0000));
    let mut pmm = Pmm::new();
    free_frames(&mut pmm, PhysAddr::new(0x20_0000), 8);
    free_frames(&mut pmm, PhysAddr::new(0x40_0000), 8);
    let mut tss = Tss::new();
    init_interrupt_stacks(&mut tss, &mut pmm, &hhdm);
    assert_eq!(tss.interrupt_stack_table[1], 0xffff_8000_0040_8000);
    assert_eq!(tss.interrupt_stack_table[3], 0xffff_8000_0040_4000);
    assert_eq!(tss.interrupt_stack_table[2], 0xffff_8000_0020_8000);
    assert_eq!(tss.interrupt_stack_table[4], 0xffff_8000_0020_4000);
    assert_eq!(pmm.num_regions(), 0);
}

#[test]
fn interrupt_stacks_fill_their_slots() {
    let hhdm = Hhdm::new(VirtAddr::new(0xffff_8000_0000_0000));
    let mut pmm = Pmm::new();
    free_frames(&mut pmm, PhysAddr::new(0x20_0000), 16);
    let mut tss = Tss::new();
    init_interrupt_stacks(&mut tss, &mut pmm, &hhdm);

    // Four stacks of four frames each, carved downward from the top of
    // the run, each slot holding the stack top: vector order fills IST 1,
    // 3, 2, 4.
    assert_eq!(tss.interrupt_stack_table[1], 0xffff_8000_0021_0000);
    assert_eq!(tss.interrupt_stack_table[3], 0xffff_8000_0020_c000);
    assert_eq!(tss.interrupt_stack_table[2], 0xffff_8000_0020_8000);
    assert_eq!(tss.interrupt_stack_table[4], 0xffff_8000_0020_4000);
    assert_eq!(pmm.num_regions(), 0);
    assert_eq!(tss.interrupt_stack_table[5], 0);
}
