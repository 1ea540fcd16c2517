use kernel::mm::pmm::{self, MemoryRegion, MemoryRegionKind, Pmm, MAX_FRAMES, PAGE_SIZE};

fn usable(start: u64, end: u64) -> MemoryRegion {
    MemoryRegion { start, end, kind: MemoryRegionKind::Usable }
}

#[test]
fn empty_bitmap_has_nothing_to_give() {
    let mut p = Pmm::new();
    assert_eq!(pmm::free_frames(&p), 0);
    assert_eq!(pmm::alloc_frame(&mut p), None);
}

#[test]
fn init_marks_usable_frames_above_two_mib() {
    let mut p = Pmm::new();
    let regions = [
        usable(0, 0x10_0000),
        usable(0x20_0000, 0x20_5000),
        MemoryRegion { start: 0x30_0000, end: 0x40_0000, kind: MemoryRegionKind::Bootloader },
        MemoryRegion { start: 0x50_0000, end: 0x60_0000, kind: MemoryRegionKind::UnknownBios(2) },
    ];
    pmm::init(&mut p, &regions);
    // Only frames 512..517 are usable and not in the first 2 MiB.
    assert_eq!(pmm::free_frames(&p), 5);
}

#[test]
fn init_clips_at_the_end_of_the_bitmap() {
    let mut p = Pmm::new();
    let last = MAX_FRAMES as u64 * PAGE_SIZE;
    pmm::init(&mut p, &[usable(last - 2 * PAGE_SIZE, last + 8 * PAGE_SIZE)]);
    assert_eq!(pmm::free_frames(&p), 2);
}

#[test]
fn alloc_hands_out_lowest_frame_and_free_returns_it() {
    let mut p = Pmm::new();
    pmm::init(&mut p, &[usable(0x20_0000, 0x20_3000)]);
    assert_eq!(pmm::alloc_frame(&mut p), Some(0x20_0000));
    assert_eq!(pmm::alloc_frame(&mut p), Some(0x20_1000));
    assert_eq!(pmm::free_frames(&p), 1);
    pmm::free_frame(&mut p, 0x20_0000);
    assert_eq!(pmm::free_frames(&p), 2);
    assert_eq!(pmm::alloc_frame(&mut p), Some(0x20_0000));
    assert_eq!(pmm::alloc_frame(&mut p), Some(0x20_2000));
    assert_eq!(pmm::alloc_frame(&mut p), None);
}

#[test]
fn frames_below_two_mib_are_never_allocated() {
    let mut p = Pmm::new();
    p.set_free(3);
    p.set_free(511);
    assert_eq!(p.free_count(), 2);
    assert_eq!(p.allocate(), None);
    p.set_free(700);
    assert_eq!(p.allocate(), Some(700));
    assert_eq!(p.free_count(), 2);
}

#[test]
fn double_free_and_out_of_range_change_nothing() {
    let mut p = Pmm::new();
    p.free(600);
    p.free(600);
    assert_eq!(p.free_count(), 1);
    p.free(MAX_FRAMES);
    p.set_used(MAX_FRAMES + 5);
    assert_eq!(p.free_count(), 1);
    p.set_used(600);
    p.set_used(600);
    assert_eq!(p.free_count(), 0);
    pmm::free_frame(&mut p, u64::MAX);
    assert_eq!(pmm::free_frames(&p), 0);
}

#[test]
fn allocation_skips_full_words() {
    let mut p = Pmm::new();
    p.set_free(64 * 20 + 63);
    p.set_free(64 * 30);
    assert_eq!(pmm::alloc_frame(&mut p), Some((64 * 20 + 63) * PAGE_SIZE));
    assert_eq!(pmm::alloc_frame(&mut p), Some(64 * 30 * PAGE_SIZE));
}

#[test]
fn can_allocate_reports_frames_above_two_mib() {
    let mut p = Pmm::new();
    assert!(!p.can_allocate());
    p.set_free(3);
    assert!(!p.can_allocate());
    p.set_free(MAX_FRAMES - 1);
    assert!(p.can_allocate());
    assert_eq!(p.allocate(), Some(MAX_FRAMES - 1));
    assert!(!p.can_allocate());
}
