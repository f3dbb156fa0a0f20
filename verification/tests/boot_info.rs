//! Memory-map translation and boot-info placement.

use ion_loader::memory::PhysMemory;
use ion_loader::pmm::{BootFrameAllocator, MemoryRegion, MemoryRegionType, UsedLevel4Entries};
use ion_loader::protocols::stivale2::{
    allocate_boot_info_tag, translate_memory_map, write_boot_info, BootError,
};
use ion_loader::setup_boot_paging;

fn usable(start: u64, end: u64) -> MemoryRegion {
    MemoryRegion { start, end, kind: MemoryRegionType::Usable }
}

fn reserved(start: u64, end: u64) -> MemoryRegion {
    MemoryRegion { start, end, kind: MemoryRegionType::UnknownUefi(7) }
}

#[test]
fn translation_splits_the_cursor_region() {
    let map = vec![usable(0x1000, 0x4000), usable(0x10000, 0x20000), reserved(0x20000, 0x30000)];
    let out = translate_memory_map(&map, 0x12000);
    assert_eq!(out.len(), 4);
    // the fully consumed region is handed over as consumed
    assert_eq!(out[0].start, 0x1000);
    assert_eq!(out[0].end, 0x4000);
    assert_eq!(out[0].kind, MemoryRegionType::UnknownUefi(2));
    // the region holding the cursor splits in two
    assert_eq!(out[1].start, 0x10000);
    assert_eq!(out[1].end, 0x12000);
    assert_eq!(out[1].kind, MemoryRegionType::UnknownUefi(2));
    assert_eq!(out[2].start, 0x12000);
    assert_eq!(out[2].end, 0x20000);
    assert_eq!(out[2].kind, MemoryRegionType::Usable);
    // everything else passes through
    assert_eq!(out[3], reserved(0x20000, 0x30000));
}

#[test]
fn translation_before_and_after_everything() {
    let map = vec![usable(0x10000, 0x20000)];
    let untouched = translate_memory_map(&map, 0x1000);
    assert_eq!(untouched.len(), 1);
    assert_eq!(untouched[0], usable(0x10000, 0x20000));
    let consumed = translate_memory_map(&map, 0x20000);
    assert_eq!(consumed.len(), 1);
    assert_eq!(consumed[0].kind, MemoryRegionType::UnknownUefi(2));
}

#[test]
fn boot_info_region_is_dual_mapped_and_written() {
    let map = vec![usable(0x100000, 0x140000)];
    let mut alloc = BootFrameAllocator::new(map.clone());
    let mut memory = PhysMemory::new();
    let mut tables = setup_boot_paging(&mut alloc, &mut memory).unwrap();
    let segments = Vec::new();
    let mut slots = UsedLevel4Entries::new(&segments);

    let addr = allocate_boot_info_tag(&mut tables, &mut alloc, &mut memory, &mut slots, 1)
        .unwrap();
    // the first free top-level slot is entry 1
    assert_eq!(addr, 0x80_0000_0000);

    let translated = translate_memory_map(alloc.memory_map(), alloc.next_frame_addr());
    assert_eq!(translated.len(), 2);
    write_boot_info(
        &tables,
        &mut memory,
        addr,
        b"Ion",
        b"test",
        0x9000,
        0,
        &translated,
    );

    let read = |va: u64| -> u8 {
        let pa = tables.kernel.translate(va).unwrap();
        memory.read_byte(pa)
    };
    assert_eq!(read(addr), b'I');
    assert_eq!(read(addr + 1), b'o');
    assert_eq!(read(addr + 2), b'n');
    assert_eq!(read(addr + 3), 0);
    assert_eq!(read(addr + 64), b't');
    assert_eq!(read(addr + 128), 0x00);
    assert_eq!(read(addr + 129), 0x90);
    // descriptor count and pointer
    assert_eq!(read(addr + 152), 2);
    let mut ptr = 0u64;
    for i in 0..8 {
        ptr |= (read(addr + 144 + i) as u64) << (8 * i);
    }
    assert_eq!(ptr, addr + 160);
    // first descriptor: the consumed split of the usable region
    let mut start = 0u64;
    let mut end = 0u64;
    for i in 0..8 {
        start |= (read(addr + 160 + i) as u64) << (8 * i);
        end |= (read(addr + 168 + i) as u64) << (8 * i);
    }
    assert_eq!(start, 0x100000);
    assert!(end > 0x100000 && end <= 0x140000);
    assert_eq!(read(addr + 176), 2);  // consumed type code
    // both spaces look at the very same frames
    for i in 0..208u64 {
        let k = tables.kernel.translate(addr + i).unwrap();
        let b = tables.bootloader.translate(addr + i).unwrap();
        assert_eq!(k, b);
    }
}

#[test]
fn boot_info_reports_exhausted_slots() {
    let map = vec![usable(0x100000, 0x140000)];
    let mut alloc = BootFrameAllocator::new(map);
    let mut memory = PhysMemory::new();
    let mut tables = setup_boot_paging(&mut alloc, &mut memory).unwrap();
    let segments = Vec::new();
    let mut slots = UsedLevel4Entries::new(&segments);
    while slots.get_free_entry().is_some() {}
    let r = allocate_boot_info_tag(&mut tables, &mut alloc, &mut memory, &mut slots, 1);
    assert_eq!(r.unwrap_err(), BootError::NoFreeSlots);
}
