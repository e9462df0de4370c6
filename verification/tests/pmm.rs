use bolt::pmm::{alloc_frames, free_frames, FrameAllocator, Pmm, Region};
use bolt::vm::{Hhdm, PhysAddr, VirtAddr};

#[test]
fn pmm_seeding_coalesces_into_one_run() {
    let mut pmm = Pmm::new();
    free_frames(&mut pmm, PhysAddr::new(0x1000), 3);
    free_frames(&mut pmm, PhysAddr::new(0x4000), 2);
    free_frames(&mut pmm, PhysAddr::new(0x6000), 1);
    assert_eq!(pmm.num_regions(), 1);
    assert_eq!(pmm.region_at(0), Region { base: 0x1000, len: 6 });

    let got = alloc_frames(&mut pmm, 2);
    assert_eq!(got.map(|a| a.to_usize()), Some(0x5000));
    assert_eq!(pmm.num_regions(), 1);
    assert_eq!(pmm.region_at(0), Region { base: 0x1000, len: 4 });
}

#[test]
fn pmm_non_adjacent_runs_alloc_from_tail() {
    let mut pmm = Pmm::new();
    free_frames(&mut pmm, PhysAddr::new(0x1000), 1);
    free_frames(&mut pmm, PhysAddr::new(0x3000), 1);
    assert_eq!(pmm.num_regions(), 2);

    let got = alloc_frames(&mut pmm, 1);
    assert_eq!(got.map(|a| a.to_usize()), Some(0x3000));
    assert_eq!(pmm.num_regions(), 1);
    assert_eq!(pmm.region_at(0), Region { base: 0x1000, len: 1 });
}

#[test]
fn pmm_free_then_alloc_returns_base() {
    let mut pmm = Pmm::new();
    free_frames(&mut pmm, PhysAddr::new(0x2000), 4);
    let got = alloc_frames(&mut pmm, 4);
    assert_eq!(got.map(|a| a.to_usize()), Some(0x2000));
    assert_eq!(pmm.num_regions(), 0);
}

#[test]
fn pmm_exact_fit_removes_the_run() {
    let mut pmm = Pmm::new();
    free_frames(&mut pmm, PhysAddr::new(0x1000), 2);
    free_frames(&mut pmm, PhysAddr::new(0x5000), 3);
    assert_eq!(pmm.num_regions(), 2);
    let got = alloc_frames(&mut pmm, 3);
    assert_eq!(got.map(|a| a.to_usize()), Some(0x5000));
    assert_eq!(pmm.num_regions(), 1);
    assert_eq!(pmm.region_at(0), Region { base: 0x1000, len: 2 });
}

#[test]
fn pmm_adjacent_frees_coalesce_like_one_free() {
    let mut split = Pmm::new();
    free_frames(&mut split, PhysAddr::new(0x8000), 2);
    free_frames(&mut split, PhysAddr::new(0xa000), 3);

    let mut whole = Pmm::new();
    free_frames(&mut whole, PhysAddr::new(0x8000), 5);

    assert_eq!(split.num_regions(), whole.num_regions());
    assert_eq!(split.region_at(0), whole.region_at(0));
}

#[test]
fn pmm_insert_in_middle_keeps_order() {
    let mut pmm = Pmm::new();
    free_frames(&mut pmm, PhysAddr::new(0x9000), 1);
    free_frames(&mut pmm, PhysAddr::new(0x1000), 1);
    free_frames(&mut pmm, PhysAddr::new(0x5000), 1);
    assert_eq!(pmm.num_regions(), 3);
    assert_eq!(pmm.region_at(0), Region { base: 0x1000, len: 1 });
    assert_eq!(pmm.region_at(1), Region { base: 0x5000, len: 1 });
    assert_eq!(pmm.region_at(2), Region { base: 0x9000, len: 1 });
}

#[test]
fn pmm_alloc_without_fit_returns_none() {
    let mut pmm = Pmm::new();
    free_frames(&mut pmm, PhysAddr::new(0x1000), 2);
    assert!(alloc_frames(&mut pmm, 3).is_none());
    assert_eq!(pmm.region_at(0), Region { base: 0x1000, len: 2 });
}

#[test]
fn frame_allocator_round_trip() {
    let hhdm = Hhdm::new(VirtAddr::new(0xffff_8000_0000_0000));
    let alloc = FrameAllocator;
    let mut pmm = Pmm::new();
    free_frames(&mut pmm, PhysAddr::new(0x40_0000), 8);

    let got = alloc.allocate(&mut pmm, 0x3000);
    let phys = got.expect("three frames should fit");
    assert_eq!(phys.to_usize(), 0x40_5000);

    let virt = phys.to_virtual(&hhdm);
    assert_eq!(virt.to_usize(), 0xffff_8000_0040_5000);
    alloc.deallocate(&mut pmm, virt, &hhdm, 0x3000);
    assert_eq!(pmm.num_regions(), 1);
    assert_eq!(pmm.region_at(0), Region { base: 0x40_0000, len: 8 });
}

#[test]
fn hhdm_base_zero_is_ordinary() {
    let hhdm = Hhdm::new(VirtAddr::null());
    let phys = PhysAddr::new(0);
    let virt = phys.to_virtual(&hhdm);
    assert_eq!(virt.to_usize(), 0);
    assert!(virt.is_null());
    assert_eq!(virt.to_physical(&hhdm).to_usize(), 0);

    let mut pmm = Pmm::new();
    free_frames(&mut pmm, PhysAddr::new(0x7000), 1);
    let got = alloc_frames(&mut pmm, 1);
    assert_eq!(got.map(|a| a.to_usize()), Some(0x7000));
}
