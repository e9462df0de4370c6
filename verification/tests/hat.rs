use bolt::hat::{Error, Hat};
use bolt::mmu::{CpuFeatures, MmuInfo, PageSize};
use bolt::pmm::{free_frames, Pmm};
use bolt::pte::{Prot, PTE_HUGE, PTE_NO_EXECUTE, PTE_PRESENT, PTE_WRITE};
use bolt::vm::{PhysAddr, VirtAddr};

fn features() -> CpuFeatures {
    CpuFeatures {
        gigapages: false,
        nx: true,
        global_pages: true,
        pcid: false,
        smap: true,
        smep: true,
        umip: false,
    }
}

fn fresh_hat(frames: usize) -> (Hat, Pmm) {
    let mmu = MmuInfo::new(&features(), false);
    let mut pmm = Pmm::new();
    free_frames(&mut pmm, PhysAddr::new(0x100_0000), frames);
    let initial = vec![0u64; 512];
    let hat = Hat::new(mmu, &mut pmm, 0, &initial);
    (hat, pmm)
}

const KV: usize = 0xffff_8000_0000_0000;

#[test]
fn hat_maps_two_small_pages() {
    let (mut hat, mut pmm) = fresh_hat(64);
    let r = hat.map_pages(
        &mut pmm,
        VirtAddr::new(KV),
        PhysAddr::new(0x10_0000),
        0x2000,
        PageSize::Size4KiB,
        Prot(bolt::pte::PROT_READ | bolt::pte::PROT_WRITE),
    );
    assert!(r.is_ok());

    // The top-level slot holds a present intermediate.
    let top = hat.lookup(VirtAddr::new(KV), 3).expect("top entry");
    assert!(top & PTE_PRESENT != 0);
    assert!(top & PTE_HUGE == 0);

    // Descending reaches the two leaves, write-allowed and no-execute.
    let expect0 = 0x10_0000u64 | PTE_WRITE | PTE_NO_EXECUTE | PTE_PRESENT;
    let expect1 = 0x10_1000u64 | PTE_WRITE | PTE_NO_EXECUTE | PTE_PRESENT;
    assert_eq!(hat.lookup(VirtAddr::new(KV), 0), Some(expect0));
    assert_eq!(hat.lookup(VirtAddr::new(KV + 0x1000), 0), Some(expect1));
}

#[test]
fn hat_huge_over_small_conflicts() {
    let (mut hat, mut pmm) = fresh_hat(64);
    let prot = Prot(bolt::pte::PROT_READ | bolt::pte::PROT_WRITE);
    let r = hat.map_pages(
        &mut pmm,
        VirtAddr::new(KV),
        PhysAddr::new(0x10_0000),
        0x2000,
        PageSize::Size4KiB,
        prot,
    );
    assert!(r.is_ok());

    // A 2 MiB leaf over the existing 4 KiB table must be refused: the
    // parent level holds a present intermediate.
    let r2 = hat.map_pages(
        &mut pmm,
        VirtAddr::new(KV),
        PhysAddr::new(0x10_0000),
        0x20_0000,
        PageSize::Size2MiB,
        prot,
    );
    assert!(matches!(r2, Err(Error::AlreadyMapped(_))));
}

#[test]
fn hat_intermediates_are_widened() {
    let (mut hat, mut pmm) = fresh_hat(64);
    let prot = Prot(bolt::pte::PROT_READ);
    let v = VirtAddr::new(KV);
    let p = PhysAddr::new(0x60_0000);
    assert!(hat.map_pages(&mut pmm, v, p, 0x1000, PageSize::Size4KiB, prot).is_ok());
    // Every intermediate on the path carries the widened parent
    // permissions: present, write and user, huge clear.
    for level in 1..=3usize {
        let e = hat.lookup(v, level).expect("intermediate");
        assert_eq!(e & 0x7, 0x7, "level {level}");
        assert_eq!(e & bolt::pte::PTE_HUGE, 0, "level {level}");
    }
}

#[test]
fn hat_identical_remap_needs_no_frames() {
    // An identical remap walks existing tables and allocates nothing, so
    // it succeeds even after the allocator has been drained.
    let (mut hat, mut pmm) = fresh_hat(8);
    let prot = Prot(bolt::pte::PROT_READ | bolt::pte::PROT_WRITE);
    let v = VirtAddr::new(KV);
    let p = PhysAddr::new(0x20_0000);
    assert!(hat.map_pages(&mut pmm, v, p, 0x2000, PageSize::Size4KiB, prot).is_ok());
    while bolt::pmm::alloc_frames(&mut pmm, 1).is_some() {}
    assert_eq!(pmm.num_regions(), 0);
    assert!(hat.map_pages(&mut pmm, v, p, 0x2000, PageSize::Size4KiB, prot).is_ok());
    let expect0 = 0x20_0000u64 | PTE_WRITE | PTE_NO_EXECUTE | PTE_PRESENT;
    assert_eq!(hat.lookup(v, 0), Some(expect0));
}

#[test]
fn hat_conflict_leaves_state_alone() {
    // A refused remap reports the old frame and changes nothing: the
    // conflicting leaf and its neighbour keep their words.
    let (mut hat, mut pmm) = fresh_hat(64);
    let prot = Prot(bolt::pte::PROT_READ | bolt::pte::PROT_WRITE);
    let v = VirtAddr::new(KV);
    assert!(hat
        .map_pages(&mut pmm, v, PhysAddr::new(0x20_0000), 0x2000, PageSize::Size4KiB, prot)
        .is_ok());
    let before0 = hat.lookup(v, 0);
    let before1 = hat.lookup(VirtAddr::new(KV + 0x1000), 0);
    let r = hat.map_pages(&mut pmm, v, PhysAddr::new(0x30_0000), 0x2000, PageSize::Size4KiB, prot);
    assert!(matches!(r, Err(Error::AlreadyMapped(p)) if p.to_usize() == 0x20_0000));
    assert_eq!(hat.lookup(v, 0), before0);
    assert_eq!(hat.lookup(VirtAddr::new(KV + 0x1000), 0), before1);
}

#[test]
fn hat_identical_remap_is_ok() {
    let (mut hat, mut pmm) = fresh_hat(64);
    let prot = Prot(bolt::pte::PROT_READ | bolt::pte::PROT_WRITE);
    let v = VirtAddr::new(KV);
    let p = PhysAddr::new(0x20_0000);
    assert!(hat.map_pages(&mut pmm, v, p, 0x3000, PageSize::Size4KiB, prot).is_ok());
    assert!(hat.map_pages(&mut pmm, v, p, 0x3000, PageSize::Size4KiB, prot).is_ok());
    let expect0 = 0x20_0000u64 | PTE_WRITE | PTE_NO_EXECUTE | PTE_PRESENT;
    assert_eq!(hat.lookup(v, 0), Some(expect0));
}

#[test]
fn hat_differing_remap_reports_old_frame() {
    let (mut hat, mut pmm) = fresh_hat(64);
    let prot = Prot(bolt::pte::PROT_READ | bolt::pte::PROT_WRITE);
    let v = VirtAddr::new(KV);
    assert!(hat
        .map_pages(&mut pmm, v, PhysAddr::new(0x20_0000), 0x2000, PageSize::Size4KiB, prot)
        .is_ok());
    let r = hat.map_pages(&mut pmm, v, PhysAddr::new(0x30_0000), 0x2000, PageSize::Size4KiB, prot);
    match r {
        Err(Error::AlreadyMapped(p)) => assert_eq!(p.to_usize(), 0x20_0000),
        other => panic!("expected AlreadyMapped, got {:?}", other),
    }
}

#[test]
fn hat_unmap_clears_leaves_keeps_tables() {
    let (mut hat, mut pmm) = fresh_hat(64);
    let prot = Prot(bolt::pte::PROT_READ | bolt::pte::PROT_WRITE);
    let v = VirtAddr::new(KV);
    let p = PhysAddr::new(0x10_0000);
    assert!(hat.map_pages(&mut pmm, v, p, 0x2000, PageSize::Size4KiB, prot).is_ok());

    hat.unmap_pages(v, 0x2000, PageSize::Size4KiB);

    // Every covered leaf is the null entry; the intermediates still exist.
    assert_eq!(hat.lookup(v, 0), Some(0));
    assert_eq!(hat.lookup(VirtAddr::new(KV + 0x1000), 0), Some(0));
    let top = hat.lookup(v, 3).expect("intermediate survives");
    assert!(top & PTE_PRESENT != 0);
}

#[test]
fn hat_boundary_crossing_matches_single_pages() {
    // A range crossing a 512-entry table boundary, mapped at once and one
    // page at a time, yields the same translations.
    let prot = Prot(bolt::pte::PROT_READ | bolt::pte::PROT_WRITE);
    let v = KV + 0x1ff000;
    let p = 0x40_0000usize;

    let (mut whole, mut pmm1) = fresh_hat(64);
    assert!(whole
        .map_pages(&mut pmm1, VirtAddr::new(v), PhysAddr::new(p), 0x2000, PageSize::Size4KiB, prot)
        .is_ok());

    let (mut single, mut pmm2) = fresh_hat(64);
    for k in 0..2usize {
        assert!(single
            .map_pages(
                &mut pmm2,
                VirtAddr::new(v + k * 0x1000),
                PhysAddr::new(p + k * 0x1000),
                0x1000,
                PageSize::Size4KiB,
                prot,
            )
            .is_ok());
    }

    for k in 0..2usize {
        let a = whole.lookup(VirtAddr::new(v + k * 0x1000), 0);
        let b = single.lookup(VirtAddr::new(v + k * 0x1000), 0);
        assert_eq!(a, b);
        assert!(a.unwrap() & PTE_PRESENT != 0);
    }
}

#[test]
fn hat_gigapage_downgrades_without_gigapages() {
    let (mut hat, mut pmm) = fresh_hat(2100);
    let prot = Prot(bolt::pte::PROT_READ | bolt::pte::PROT_WRITE);
    let v = VirtAddr::new(KV);
    let p = PhysAddr::new(0x4000_0000);
    let r = hat.map_pages(&mut pmm, v, p, 0x4000_0000, PageSize::Size1GiB, prot);
    assert!(r.is_ok());

    // 512 pages of 2 MiB were laid down, with the same translation a
    // 2 MiB request would produce.
    assert_eq!(hat.mapped_count(1), 512);
    let leaf = hat.lookup(v, 1).expect("level-1 leaf");
    assert_eq!(leaf, 0x4000_0000u64 | PTE_WRITE | PTE_NO_EXECUTE | PTE_HUGE | PTE_PRESENT);
    let leaf_last = hat.lookup(VirtAddr::new(KV + 511 * 0x20_0000), 1).expect("last leaf");
    assert_eq!(
        leaf_last,
        (0x4000_0000u64 + 511 * 0x20_0000) | PTE_WRITE | PTE_NO_EXECUTE | PTE_HUGE | PTE_PRESENT
    );
}

#[test]
fn hat_new_copies_template_and_builds_root() {
    let mmu = MmuInfo::new(
        &CpuFeatures { pcid: true, ..features() },
        false,
    );
    let mut pmm = Pmm::new();
    free_frames(&mut pmm, PhysAddr::new(0x8000), 1);
    let mut initial = vec![0u64; 512];
    initial[256] = 0xdead_b000u64 | PTE_PRESENT;
    let hat = Hat::new(mmu, &mut pmm, 0x1777, &initial);

    // The only frame was carved for the top table; PCID is the low twelve
    // bits of the ASID, folded into the cached root value.
    assert_eq!(pmm.num_regions(), 0);
    assert_eq!(hat.pcid(), 0x777);
    assert_eq!(hat.root_value(), 0x8000 | 0x777);

    // The template's kernel half was copied verbatim: the walk at the top
    // level for an address selecting index 256 reads it back.
    let v = VirtAddr::new(KV); // index 256 at the top level
    assert_eq!(hat.lookup(v, 3), Some(0xdead_b000u64 | PTE_PRESENT));
}

#[test]
fn hat_map_needs_write_and_user_bits_right() {
    let (mut hat, mut pmm) = fresh_hat(64);
    let prot = Prot(bolt::pte::PROT_READ | bolt::pte::PROT_EXEC);
    let v = VirtAddr::new(KV);
    let p = PhysAddr::new(0x50_0000);
    assert!(hat.map_pages(&mut pmm, v, p, 0x1000, PageSize::Size4KiB, prot).is_ok());
    // Executable mapping: no write bit, no no-execute bit.
    assert_eq!(hat.lookup(v, 0), Some(0x50_0000u64 | PTE_PRESENT));
}
