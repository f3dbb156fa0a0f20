//! Frame allocator and free-slot tracker behavior on concrete maps.

use ion_loader::elf::Segment;
use ion_loader::pmm::{BootFrameAllocator, MemoryRegion, MemoryRegionType, UsedLevel4Entries};

fn usable(start: u64, end: u64) -> MemoryRegion {
    MemoryRegion { start, end, kind: MemoryRegionType::Usable }
}

fn reserved(start: u64, end: u64) -> MemoryRegion {
    MemoryRegion { start, end, kind: MemoryRegionType::UnknownUefi(11) }
}

#[test]
fn frames_are_unique_aligned_and_contained() {
    let map = vec![usable(0x100000, 0x140000)];
    let mut alloc = BootFrameAllocator::new(map);
    let mut seen: Vec<u64> = Vec::new();
    while let Some(frame) = alloc.allocate_frame() {
        assert_eq!(frame % 4096, 0);
        assert!(frame >= 0x1000);
        assert!(frame >= 0x100000);
        assert!(frame + 4096 <= 0x140000);
        assert!(!seen.contains(&frame));
        seen.push(frame);
    }
    // a 64-frame region yields frames strictly below its end frame
    assert_eq!(seen.len(), 63);
}

#[test]
fn exhaustion_after_capacity_is_reported() {
    // 4-frame usable region: the cursor hands out frames below the end
    // frame, so capacity is 3
    let map = vec![usable(0x100000, 0x104000)];
    let mut alloc = BootFrameAllocator::new(map);
    assert_eq!(alloc.allocate_frame(), Some(0x100000));
    assert_eq!(alloc.allocate_frame(), Some(0x101000));
    assert_eq!(alloc.allocate_frame(), Some(0x102000));
    assert_eq!(alloc.allocate_frame(), None);
    assert_eq!(alloc.allocate_frame(), None);
}

#[test]
fn frame_zero_is_never_allocated() {
    let map = vec![usable(0x0, 0x4000)];
    let mut alloc = BootFrameAllocator::new(map);
    let first = alloc.allocate_frame().unwrap();
    assert_eq!(first, 0x1000);
    assert_eq!(alloc.allocate_frame(), Some(0x2000));
    assert_eq!(alloc.allocate_frame(), None);
}

#[test]
fn reserved_regions_are_skipped() {
    let map = vec![
        reserved(0x1000, 0x8000),
        usable(0x10000, 0x13000),
        reserved(0x20000, 0x30000),
        usable(0x40000, 0x43000),
    ];
    let mut alloc = BootFrameAllocator::new(map);
    assert_eq!(alloc.allocate_frame(), Some(0x10000));
    assert_eq!(alloc.allocate_frame(), Some(0x11000));
    assert_eq!(alloc.allocate_frame(), Some(0x40000));
    assert_eq!(alloc.allocate_frame(), Some(0x41000));
    assert_eq!(alloc.allocate_frame(), None);
}

#[test]
fn map_accessors_are_stable() {
    let map = vec![usable(0x100000, 0x140000), reserved(0x140000, 0x150000)];
    let mut alloc = BootFrameAllocator::new(map);
    assert_eq!(alloc.len(), 2);
    assert_eq!(alloc.max_phys_addr(), 0x150000);
    let _ = alloc.allocate_frame();
    assert_eq!(alloc.len(), 2);
    assert_eq!(alloc.max_phys_addr(), 0x150000);
}

#[test]
fn slot_tracker_hands_out_distinct_slots_until_full() {
    let segments = Vec::new();
    let mut used = UsedLevel4Entries::new(&segments);
    let mut seen = vec![false; 512];
    // entry 0 is reserved unconditionally, the rest drain in order
    let mut count = 0;
    while let Some(idx) = used.get_free_entry() {
        assert!((idx as usize) < 512);
        assert!(!seen[idx as usize]);
        seen[idx as usize] = true;
        count += 1;
    }
    assert_eq!(count, 511);
    assert!(!seen[0]);
    assert_eq!(used.get_free_entry(), None);
}

#[test]
fn slot_tracker_marks_segment_spans() {
    let segments = vec![Segment {
        virtual_addr: 0x80_0000_0000,  // top-level entry 1
        file_offset: 0,
        file_size: 0x1000,
        mem_size: 0x1000,
        readable: true,
        writable: false,
        executable: true,
    }];
    let mut used = UsedLevel4Entries::new(&segments);
    // entries 0 and 1 are taken, so the first free one is 2
    assert_eq!(used.get_free_entry(), Some(2));
}

#[test]
fn free_address_is_canonical() {
    let segments = Vec::new();
    let mut used = UsedLevel4Entries::new(&segments);
    // first free entry is 1
    assert_eq!(used.get_free_address(), Some(0x80_0000_0000));
    // skip ahead to the high half: drain the low half
    for _ in 2..256 {
        assert!(used.get_free_entry().is_some());
    }
    let high = used.get_free_address().unwrap();
    assert_eq!(high, 0xFFFF_8000_0000_0000);
}
