//! Protocol-header validation and the end-to-end boot scenario on a
//! synthetic two-segment kernel image.

use ion_loader::memory::PhysMemory;
use ion_loader::paging::PageTableSpace;
use ion_loader::pmm::{BootFrameAllocator, MemoryRegion, MemoryRegionType, UsedLevel4Entries};
use ion_loader::protocols::stivale2::{boot, validate_protocol_header, BootError};
use ion_loader::{setup_boot_paging, BootPageTables};

fn usable(start: u64, end: u64) -> MemoryRegion {
    MemoryRegion { start, end, kind: MemoryRegionType::Usable }
}

#[test]
fn header_section_size_must_match_exactly() {
    assert_eq!(
        validate_protocol_header(31, 0x1000, 0, false),
        Err(BootError::HeaderSectionTooSmall)
    );
    assert_eq!(
        validate_protocol_header(33, 0x1000, 0, false),
        Err(BootError::HeaderSectionTooLarge)
    );
    assert_eq!(validate_protocol_header(32, 0x1000, 0, false), Ok(()));
}

#[test]
fn stack_must_be_sixteen_byte_aligned() {
    assert_eq!(
        validate_protocol_header(32, 0x1008, 0, false),
        Err(BootError::StackMisaligned)
    );
    assert_eq!(
        validate_protocol_header(32, 15, 0, false),
        Err(BootError::StackMisaligned)
    );
    assert_eq!(validate_protocol_header(32, 0x1010, 0, false), Ok(()));
}

#[test]
fn thirty_two_bit_only_checks() {
    // the higher-half flag is rejected outright in 32-bit mode
    assert_eq!(
        validate_protocol_header(32, 0x1000, 2, true),
        Err(BootError::HigherHalfUnsupported)
    );
    // a 32-bit kernel may not ask for a null stack
    assert_eq!(validate_protocol_header(32, 0, 0, true), Err(BootError::StackNull));
    // neither check fires on the sole supported 64-bit path
    assert_eq!(validate_protocol_header(32, 0, 2, false), Ok(()));
}

fn put16(img: &mut Vec<u8>, off: usize, v: u16) {
    img[off..off + 2].copy_from_slice(&v.to_le_bytes());
}

fn put32(img: &mut Vec<u8>, off: usize, v: u32) {
    img[off..off + 4].copy_from_slice(&v.to_le_bytes());
}

fn put64(img: &mut Vec<u8>, off: usize, v: u64) {
    img[off..off + 8].copy_from_slice(&v.to_le_bytes());
}

const SEG1_VADDR: u64 = 0x401000;
const SEG2_VADDR: u64 = 0x403000;
const STACK_TOP: u64 = 0x405000;
const ENTRY: u64 = 0x401000;

/// A minimal ELF64 image with two loadable segments and a protocol
/// header section: segment 1 executable with file and memory size
/// 0x2000, segment 2 writable with file size 0x1800 and memory size
/// 0x3000 (an unaligned zero boundary).
fn synthetic_kernel() -> Vec<u8> {
    let mut img = vec![0u8; 0x4900];

    // ELF identification and file header
    img[0] = 0x7F;
    img[1] = b'E';
    img[2] = b'L';
    img[3] = b'F';
    img[4] = 2;  // 64-bit
    img[5] = 1;  // little endian
    img[6] = 1;  // version
    put16(&mut img, 16, 2);  // executable
    put16(&mut img, 18, 62);  // x86-64
    put32(&mut img, 20, 1);
    put64(&mut img, 24, ENTRY);
    put64(&mut img, 32, 64);  // program header table offset
    put64(&mut img, 40, 0x4840);  // section header table offset
    put16(&mut img, 52, 64);  // header size
    put16(&mut img, 54, 56);  // program header entry size
    put16(&mut img, 56, 2);  // program header count
    put16(&mut img, 58, 64);  // section header entry size
    put16(&mut img, 60, 3);  // section count
    put16(&mut img, 62, 2);  // section name table index

    // program header 1: executable, packed at file offset 0x1000
    let ph1 = 64;
    put32(&mut img, ph1, 1);  // loadable
    put32(&mut img, ph1 + 4, 5);  // read + execute
    put64(&mut img, ph1 + 8, 0x1000);
    put64(&mut img, ph1 + 16, SEG1_VADDR);
    put64(&mut img, ph1 + 24, SEG1_VADDR);
    put64(&mut img, ph1 + 32, 0x2000);  // file size
    put64(&mut img, ph1 + 40, 0x2000);  // memory size
    put64(&mut img, ph1 + 48, 0x1000);  // alignment

    // program header 2: writable, unaligned zero boundary
    let ph2 = 64 + 56;
    put32(&mut img, ph2, 1);
    put32(&mut img, ph2 + 4, 6);  // read + write
    put64(&mut img, ph2 + 8, 0x3000);
    put64(&mut img, ph2 + 16, SEG2_VADDR);
    put64(&mut img, ph2 + 24, SEG2_VADDR);
    put64(&mut img, ph2 + 32, 0x1800);
    put64(&mut img, ph2 + 40, 0x3000);
    put64(&mut img, ph2 + 48, 0x1000);

    // segment payloads
    for i in 0..0x2000usize {
        img[0x1000 + i] = (i % 199) as u8;
    }
    for i in 0..0x1800usize {
        img[0x3000 + i] = (i % 241) as u8;
    }

    // protocol header section content at 0x4800
    put64(&mut img, 0x4800, 0);  // entry point override unused
    put64(&mut img, 0x4808, STACK_TOP);
    put64(&mut img, 0x4810, 0);  // flags
    put64(&mut img, 0x4818, 0);  // tag list

    // section name string table at 0x4820
    let names = b"\0.stivale2hdr\0.shstrtab\0";
    img[0x4820..0x4820 + names.len()].copy_from_slice(names);

    // section headers at 0x4840: null, .stivale2hdr, .shstrtab
    let sh1 = 0x4840 + 64;
    put32(&mut img, sh1, 1);  // name offset
    put32(&mut img, sh1 + 4, 1);  // program data
    put64(&mut img, sh1 + 24, 0x4800);  // file offset
    put64(&mut img, sh1 + 32, 32);  // size
    let sh2 = 0x4840 + 128;
    put32(&mut img, sh2, 14);
    put32(&mut img, sh2 + 4, 3);  // string table
    put64(&mut img, sh2 + 24, 0x4820);
    put64(&mut img, sh2 + 32, names.len() as u64);

    img
}

const KERNEL_OFFSET: u64 = 0x200000;

fn read_virt_byte(pt: &PageTableSpace, mem: &PhysMemory, va: u64) -> Option<u8> {
    match pt.translate(va) {
        Some(pa) => {
            if mem.contains_frame(pa / 4096 * 4096) {
                Some(mem.read_byte(pa))
            } else {
                None
            }
        },
        None => None,
    }
}

fn boot_synthetic(
    img: &[u8],
) -> (Result<ion_loader::protocols::stivale2::SwitchContext, BootError>, BootPageTables, PhysMemory)
{
    let map = vec![usable(0x100000, 0x140000)];
    let mut alloc = BootFrameAllocator::new(map);
    let mut memory = PhysMemory::new();
    memory.install_bytes(KERNEL_OFFSET, img);
    let mut tables = setup_boot_paging(&mut alloc, &mut memory).unwrap();
    let r = boot(
        &mut tables,
        &mut alloc,
        &mut memory,
        img,
        KERNEL_OFFSET,
        0x7000,
        b"0.1.0",
    );
    (r, tables, memory)
}

#[test]
fn end_to_end_two_segment_boot() {
    let img = synthetic_kernel();
    let (r, tables, memory) = boot_synthetic(&img);
    let ctx = r.unwrap();
    assert_eq!(ctx.stack_top, STACK_TOP);
    assert_eq!(ctx.entry_point, ENTRY);
    assert_eq!(ctx.page_table, tables.kernel_level_4_frame);
    assert_eq!(ctx.stivale_struct % 4096, 0);

    // segment 1 reads back exactly as the source bytes
    for i in 0..0x2000u64 {
        assert_eq!(
            read_virt_byte(&tables.kernel, &memory, SEG1_VADDR + i),
            Some(img[(0x1000 + i) as usize])
        );
    }
    // segment 2: file bytes then zero fill across the unaligned boundary
    for i in 0..0x1800u64 {
        assert_eq!(
            read_virt_byte(&tables.kernel, &memory, SEG2_VADDR + i),
            Some(img[(0x3000 + i) as usize])
        );
    }
    for i in 0x1800..0x3000u64 {
        assert_eq!(read_virt_byte(&tables.kernel, &memory, SEG2_VADDR + i), Some(0));
    }

    // the switch code pages are identity-mapped in the kernel space
    assert_eq!(tables.kernel.translate(0x7000), Some(0x7000));

    // the boot info reads identically through both spaces: brand "Ion"
    let base = ctx.stivale_struct;
    let brand: Vec<Option<u8>> =
        (0..3).map(|i| read_virt_byte(&tables.kernel, &memory, base + i)).collect();
    assert_eq!(brand, vec![Some(b'I'), Some(b'o'), Some(b'n')]);
    for i in 3..64u64 {
        assert_eq!(read_virt_byte(&tables.kernel, &memory, base + i), Some(0));
    }
    // version string
    assert_eq!(read_virt_byte(&tables.kernel, &memory, base + 64), Some(b'0'));
    assert_eq!(read_virt_byte(&tables.kernel, &memory, base + 65), Some(b'.'));
    // stack pointer field, little endian
    let mut stack = 0u64;
    for i in 0..8u64 {
        let b = read_virt_byte(&tables.kernel, &memory, base + 128 + i).unwrap();
        stack |= (b as u64) << (8 * i);
    }
    assert_eq!(stack, STACK_TOP);
    // the loader's own mapping sees the same bytes
    for i in 0..160u64 {
        assert_eq!(
            read_virt_byte(&tables.bootloader, &memory, base + i),
            read_virt_byte(&tables.kernel, &memory, base + i)
        );
    }
}

#[test]
fn boot_rejects_missing_header_section() {
    let mut img = synthetic_kernel();
    // damage the section name so the lookup fails
    img[0x4821] = b'x';
    let (r, _, _) = boot_synthetic(&img);
    assert_eq!(r.unwrap_err(), BootError::HeaderSectionMissing);
}

#[test]
fn boot_rejects_wrong_header_section_size() {
    let mut img = synthetic_kernel();
    put64(&mut img, 0x4840 + 64 + 32, 31);
    let (r, _, _) = boot_synthetic(&img);
    assert_eq!(r.unwrap_err(), BootError::HeaderSectionTooSmall);
    let mut img = synthetic_kernel();
    put64(&mut img, 0x4840 + 64 + 32, 33);
    let (r, _, _) = boot_synthetic(&img);
    assert_eq!(r.unwrap_err(), BootError::HeaderSectionTooLarge);
}

#[test]
fn boot_rejects_misaligned_stack() {
    let mut img = synthetic_kernel();
    put64(&mut img, 0x4808, STACK_TOP + 8);
    let (r, _, _) = boot_synthetic(&img);
    assert_eq!(r.unwrap_err(), BootError::StackMisaligned);
}

#[test]
fn boot_rejects_foreign_architecture() {
    let mut img = synthetic_kernel();
    put16(&mut img, 18, 40);  // an ARM image
    let (r, _, _) = boot_synthetic(&img);
    assert_eq!(r.unwrap_err(), BootError::UnsupportedArchitecture);
}

#[test]
fn boot_rejects_misaligned_image() {
    let img = synthetic_kernel();
    let map = vec![usable(0x100000, 0x140000)];
    let mut alloc = BootFrameAllocator::new(map);
    let mut memory = PhysMemory::new();
    memory.install_bytes(KERNEL_OFFSET, img.as_slice());
    let mut tables = setup_boot_paging(&mut alloc, &mut memory).unwrap();
    let r = boot(
        &mut tables,
        &mut alloc,
        &mut memory,
        &img,
        KERNEL_OFFSET + 8,
        0x7000,
        b"0.1.0",
    );
    assert_eq!(r.unwrap_err(), BootError::ImageMisaligned);
}

#[test]
fn setup_boot_paging_needs_two_frames() {
    let mut alloc = BootFrameAllocator::new(vec![usable(0x100000, 0x102000)]);
    let mut memory = PhysMemory::new();
    // a two-frame region has capacity one
    let r = setup_boot_paging(&mut alloc, &mut memory);
    assert!(matches!(r, Err(BootError::FrameAllocationFailed)));

    let mut alloc = BootFrameAllocator::new(vec![usable(0x100000, 0x104000)]);
    let mut memory = PhysMemory::new();
    let tables = setup_boot_paging(&mut alloc, &mut memory).unwrap();
    assert_ne!(tables.kernel_level_4_frame, 0);
}

#[test]
fn protocol_header_size_matches_the_published_structure() {
    // the fixed size the validation checks against is the size of the
    // stivale2 header structure kernels actually embed
    assert_eq!(core::mem::size_of::<stivale_boot::v2::StivaleHeader>(), 32);
}

#[test]
fn little_endian_field_readers() {
    let bytes = [0x78u8, 0x56, 0x34, 0x12, 0xEF, 0xCD, 0xAB, 0x89];
    assert_eq!(ion_loader::elf::read_u16_le(&bytes, 0), 0x5678);
    assert_eq!(ion_loader::elf::read_u32_le(&bytes, 0), 0x12345678);
    assert_eq!(ion_loader::elf::read_u64_le(&bytes, 0), 0x89ABCDEF12345678);
}

#[test]
fn boot_rejects_unreadable_section_table() {
    let mut img = synthetic_kernel();
    // a section-name table index outside the section table
    put16(&mut img, 62, 99);
    let (r, _, _) = boot_synthetic(&img);
    assert_eq!(r.unwrap_err(), BootError::HeaderSectionOutOfBounds);
}

#[test]
fn slot_reservations_count_down_to_exhaustion() {
    let segments = Vec::new();
    let mut used = UsedLevel4Entries::new(&segments);
    // burn some slots first, then count the rest
    for _ in 0..100 {
        assert!(used.get_free_entry().is_some());
    }
    let mut remaining = 0;
    while used.get_free_entry().is_some() {
        remaining += 1;
    }
    assert_eq!(remaining, 512 - 1 - 100);
    assert_eq!(used.get_free_entry(), None);
}
