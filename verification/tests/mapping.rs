//! Segment mapping behavior: fidelity of the file-backed bytes, the
//! zero fill, and non-interference between segments.

use ion_loader::elf::Segment;
use ion_loader::memory::PhysMemory;
use ion_loader::paging::PageTableSpace;
use ion_loader::pmm::{BootFrameAllocator, MemoryRegion, MemoryRegionType};
use ion_loader::protocols::stivale2::{handle_load_segment, BootError};

fn usable(start: u64, end: u64) -> MemoryRegion {
    MemoryRegion { start, end, kind: MemoryRegionType::Usable }
}

fn read_virt_byte(pt: &PageTableSpace, mem: &PhysMemory, va: u64) -> Option<u8> {
    match pt.translate(va) {
        Some(pa) => {
            if mem.contains_frame(pa / 4096 * 4096) {
                Some(mem.read_byte(pa))
            } else {
                None
            }
        },
        None => None,
    }
}

fn image_bytes(len: usize) -> Vec<u8> {
    let mut data = Vec::with_capacity(len);
    for i in 0..len {
        data.push((i % 251) as u8);
    }
    data
}

const KERNEL_OFFSET: u64 = 0x200000;

fn setup(image_len: usize) -> (PhysMemory, BootFrameAllocator, PageTableSpace, Vec<u8>) {
    let mut memory = PhysMemory::new();
    let data = image_bytes(image_len);
    memory.install_bytes(KERNEL_OFFSET, data.as_slice());
    let alloc = BootFrameAllocator::new(vec![usable(0x100000, 0x140000)]);
    (memory, alloc, PageTableSpace::new(), data)
}

#[test]
fn segment_fidelity_with_aligned_boundary() {
    let (mut memory, mut alloc, mut pt, data) = setup(0x3000);
    // file size lands exactly on a page boundary
    let seg = Segment {
        virtual_addr: 0x401000,
        file_offset: 0x1000,
        file_size: 0x2000,
        mem_size: 0x4000,
        readable: true,
        writable: true,
        executable: false,
    };
    handle_load_segment(&seg, KERNEL_OFFSET, &mut pt, &mut alloc, &mut memory).unwrap();
    for i in 0..0x2000u64 {
        assert_eq!(
            read_virt_byte(&pt, &memory, 0x401000 + i),
            Some(data[(0x1000 + i) as usize])
        );
    }
    for i in 0x2000..0x4000u64 {
        assert_eq!(read_virt_byte(&pt, &memory, 0x401000 + i), Some(0));
    }
}

#[test]
fn segment_fidelity_with_unaligned_boundary() {
    let (mut memory, mut alloc, mut pt, data) = setup(0x3000);
    // the zero boundary cuts a page: the shared page is replaced by a
    // fresh copy holding the data bytes and zeroes
    let seg = Segment {
        virtual_addr: 0x401000,
        file_offset: 0x1000,
        file_size: 0x1800,
        mem_size: 0x3000,
        readable: true,
        writable: true,
        executable: false,
    };
    handle_load_segment(&seg, KERNEL_OFFSET, &mut pt, &mut alloc, &mut memory).unwrap();
    for i in 0..0x1800u64 {
        assert_eq!(
            read_virt_byte(&pt, &memory, 0x401000 + i),
            Some(data[(0x1000 + i) as usize])
        );
    }
    for i in 0x1800..0x3000u64 {
        assert_eq!(read_virt_byte(&pt, &memory, 0x401000 + i), Some(0));
    }
    // the image frame the boundary fell into is untouched
    for i in 0..0x1000u64 {
        assert_eq!(memory.read_byte(KERNEL_OFFSET + 0x2000 + i), data[(0x2000 + i) as usize]);
    }
}

#[test]
fn mapping_second_segment_preserves_the_first() {
    let (mut memory, mut alloc, mut pt, data) = setup(0x5000);
    // two segments packed back to back in the image; the first one's
    // tail shares its last file page with the second one's head
    let seg_a = Segment {
        virtual_addr: 0x401000,
        file_offset: 0x1000,
        file_size: 0x1800,
        mem_size: 0x2000,
        readable: true,
        writable: false,
        executable: true,
    };
    let seg_b = Segment {
        virtual_addr: 0x403000,
        file_offset: 0x3000,
        file_size: 0x800,
        mem_size: 0x2000,
        readable: true,
        writable: true,
        executable: false,
    };
    handle_load_segment(&seg_a, KERNEL_OFFSET, &mut pt, &mut alloc, &mut memory).unwrap();
    let mut before: Vec<Option<u8>> = Vec::new();
    for i in 0..0x2000u64 {
        before.push(read_virt_byte(&pt, &memory, 0x401000 + i));
    }
    handle_load_segment(&seg_b, KERNEL_OFFSET, &mut pt, &mut alloc, &mut memory).unwrap();
    for i in 0..0x2000u64 {
        assert_eq!(read_virt_byte(&pt, &memory, 0x401000 + i), before[i as usize]);
    }
    // and the second segment is correct as well
    for i in 0..0x800u64 {
        assert_eq!(
            read_virt_byte(&pt, &memory, 0x403000 + i),
            Some(data[(0x3000 + i) as usize])
        );
    }
    for i in 0x800..0x2000u64 {
        assert_eq!(read_virt_byte(&pt, &memory, 0x403000 + i), Some(0));
    }
}

#[test]
fn overlapping_segment_is_rejected() {
    let (mut memory, mut alloc, mut pt, _data) = setup(0x3000);
    let seg = Segment {
        virtual_addr: 0x401000,
        file_offset: 0x1000,
        file_size: 0x1000,
        mem_size: 0x1000,
        readable: true,
        writable: false,
        executable: true,
    };
    handle_load_segment(&seg, KERNEL_OFFSET, &mut pt, &mut alloc, &mut memory).unwrap();
    let again =
        handle_load_segment(&seg, KERNEL_OFFSET, &mut pt, &mut alloc, &mut memory);
    assert_eq!(again, Err(BootError::PageAlreadyMapped));
}

#[test]
fn allocation_shortfall_is_fatal() {
    // a map with a single spare frame cannot back two zero-fill pages
    let mut memory = PhysMemory::new();
    let data = image_bytes(0x1000);
    memory.install_bytes(KERNEL_OFFSET, data.as_slice());
    let mut alloc = BootFrameAllocator::new(vec![usable(0x100000, 0x102000)]);
    let mut pt = PageTableSpace::new();
    let seg = Segment {
        virtual_addr: 0x401000,
        file_offset: 0x0,
        file_size: 0x1000,
        mem_size: 0x3000,
        readable: true,
        writable: true,
        executable: false,
    };
    let r = handle_load_segment(&seg, KERNEL_OFFSET, &mut pt, &mut alloc, &mut memory);
    assert_eq!(r, Err(BootError::FrameAllocationFailed));
}
