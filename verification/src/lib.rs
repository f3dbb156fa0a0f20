//! Verified core of a firmware-resident boot loader.
//!
//! The library turns a firmware memory map into a stream of unique physical
//! frames, builds two independent page-table address spaces, maps the
//! loadable segments of a kernel ELF image (including the partial-page
//! zero fill for uninitialized data), places a boot-information structure
//! visible in both address spaces, and validates the final handoff into the
//! kernel. Firmware I/O, the actual hardware register writes and the
//! irreversible control transfer live outside the library.

pub mod addr;
pub mod cpu;
pub mod elf;
pub mod logger;
pub mod memory;
pub mod paging;
pub mod pmm;
pub mod protocols;

use vstd::prelude::*;

use crate::memory::PhysMemory;
use crate::paging::PageTableSpace;
use crate::pmm::BootFrameAllocator;
use crate::protocols::stivale2::{BootError, alloc_preserved, fresh_frames_unmodeled, mem_grown};

verus! {

/// The two address spaces the loader builds, and the physical frame
/// holding the top-level table of the kernel space.
pub struct BootPageTables {
    /// The loader's own address space. The hardware step that derives it
    /// from the firmware's active table — copying top-level entry 0 and
    /// adopting the new table — happens outside the library; here it
    /// starts from the entries the loader itself adds.
    pub bootloader: PageTableSpace,
    /// The kernel address space, built fresh and not active while it is
    /// built.
    pub kernel: PageTableSpace,
    /// The physical frame where the top-level table of the kernel
    /// address space is stored.
    pub kernel_level_4_frame: u64,
}

impl BootPageTables {
    /// Both spaces well-formed.
    pub open spec fn wf(self) -> bool {
        self.bootloader.wf() && self.kernel.wf()
    }
}

/// Creates the loader's page tables and a fresh, empty table for the
/// kernel itself: one newly allocated frame for each top-level table,
/// both zero-initialized. Succeeds exactly when two frames remain.
pub fn setup_boot_paging(frame_allocator: &mut BootFrameAllocator, memory: &mut PhysMemory) -> (r:
    Result<BootPageTables, BootError>)
    requires
        old(frame_allocator).wf(),
        old(memory).wf(),
        fresh_frames_unmodeled(*old(frame_allocator), old(memory)@),
    ensures
        final(frame_allocator).wf(),
        final(memory).wf(),
        alloc_preserved(*old(frame_allocator), *final(frame_allocator), final(memory)@),
        mem_grown(old(memory)@, final(memory)@, *old(frame_allocator), *final(frame_allocator)),
        r is Ok <==> old(frame_allocator).remaining() >= 2,
        match r {
            Ok(bt) => {
                &&& bt.wf()
                &&& bt.bootloader@ == Map::<u64, crate::paging::PageMapping>::empty()
                &&& bt.kernel@ == Map::<u64, crate::paging::PageMapping>::empty()
                &&& crate::addr::is_page_aligned(bt.kernel_level_4_frame)
                &&& final(memory)@.contains_key(bt.kernel_level_4_frame)
                &&& final(frame_allocator).remaining() == old(frame_allocator).remaining() - 2
            },
            Err(e) => e == BootError::FrameAllocationFailed,
        },
{
    let boot_table_frame = match frame_allocator.allocate_frame() {
        Some(f) => f,
        None => {
            proof {
                crate::pmm::lemma_remaining_nonneg(*frame_allocator);
            }
            return Err(BootError::FrameAllocationFailed);
        },
    };
    memory.add_zero_frame(boot_table_frame);

    let kernel_level_4_frame = match frame_allocator.allocate_frame() {
        Some(f) => f,
        None => {
            proof {
                crate::pmm::lemma_remaining_nonneg(*frame_allocator);
            }
            return Err(BootError::FrameAllocationFailed);
        },
    };
    memory.add_zero_frame(kernel_level_4_frame);

    Ok(
        BootPageTables {
            bootloader: PageTableSpace::new(),
            kernel: PageTableSpace::new(),
            kernel_level_4_frame,
        },
    )
}

} // verus!
