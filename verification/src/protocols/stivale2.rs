//! The stivale2 boot path: ELF segment mapping with the partial-page zero
//! fill for uninitialized data, protocol-header validation, boot-info
//! placement and the validated handoff context.

use vstd::prelude::*;

use crate::addr::{
    is_page_aligned, page_base, page_base_of, align_up_page, align_up_page_of, canonical_base,
    lemma_page_base_props, lemma_page_base_range, lemma_align_up_page,
};
use crate::elf::{Segment, le_bytes};
use crate::memory::{PhysMemory, read_phys, read_virt};
use crate::paging::{PageMapping, PageTableFlags, PageTableSpace, translate_spec};
use crate::pmm::{BootFrameAllocator, MemoryRegion, MemoryRegionType, frame_in_usable, region_usable};

verus! {

/// Why the boot sequence cannot continue. Every variant is fatal: the
/// loader has no recovery path from a partially built address space.
#[derive(Debug, Clone, Copy, PartialEq, Eq, Structural)]
pub enum BootError {
    /// The kernel image is not a structurally valid ELF file.
    InvalidElf,
    /// The image is not a 64-bit x86 executable.
    UnsupportedArchitecture,
    /// The processor does not support the required 64-bit mode.
    LongModeUnsupported,
    /// The image failed the ELF header sanity checks.
    SanityCheckFailed,
    /// A program header failed its sanity checks or has impossible
    /// geometry.
    ProgramHeaderInvalid,
    /// The protocol header section is missing from the image.
    HeaderSectionMissing,
    /// The protocol header section is smaller than the fixed header
    /// structure.
    HeaderSectionTooSmall,
    /// The protocol header section is larger than the fixed header
    /// structure.
    HeaderSectionTooLarge,
    /// The protocol header section lies outside the image bytes.
    HeaderSectionOutOfBounds,
    /// The higher-half flag is not supported in 32-bit mode.
    HigherHalfUnsupported,
    /// The requested stack pointer is not 16-byte aligned.
    StackMisaligned,
    /// A 32-bit kernel requested a null stack pointer.
    StackNull,
    /// The kernel image buffer is not page-aligned in physical memory.
    ImageMisaligned,
    /// A virtual page needed by a segment already carries a mapping.
    PageAlreadyMapped,
    /// The frame allocator ran out of usable frames.
    FrameAllocationFailed,
    /// All top-level table entries are taken.
    NoFreeSlots,
}

/// The permission flags a loadable segment is mapped with: present
/// always, writable iff the segment is writable, no-execute unless the
/// segment is executable.
pub open spec fn segment_flags(seg: Segment) -> PageTableFlags {
    PageTableFlags { writable: seg.writable, no_execute: !seg.executable }
}

/// First virtual address past the file-backed bytes: where zero fill
/// begins.
pub open spec fn seg_zero_start(seg: Segment) -> int {
    seg.virtual_addr + seg.file_size
}

/// First virtual address past the segment in memory.
pub open spec fn seg_zero_end(seg: Segment) -> int {
    seg.virtual_addr + seg.mem_size
}

/// Physical address of the segment's first file byte inside the resident
/// image.
pub open spec fn seg_phys_start(seg: Segment, kernel_offset: u64) -> int {
    kernel_offset + seg.file_offset
}

/// Whether the zero-fill boundary cuts a page in two, forcing the
/// shared-page fix-up.
pub open spec fn fixup_needed(seg: Segment) -> bool {
    seg.mem_size > seg.file_size && seg_zero_start(seg) % 4096 != 0
}

/// The page that holds both the segment's tail data and the first zero
/// bytes.
pub open spec fn fixup_page(seg: Segment) -> u64 {
    page_base((seg.virtual_addr + seg.file_size) as u64)
}

/// The image frame originally backing the fix-up page.
pub open spec fn orig_frame(seg: Segment, kernel_offset: u64) -> u64 {
    page_base((kernel_offset + seg.file_offset + seg.file_size - 1) as u64)
}

/// The virtual pages a segment claims: every page from the one holding
/// its first byte up to its in-memory end.
pub open spec fn is_seg_page(seg: Segment, p: u64) -> bool {
    is_page_aligned(p) && page_base(seg.virtual_addr) <= p && p < seg.virtual_addr + seg.mem_size
}

/// How many fresh zero frames the whole-page part of the zero fill takes.
pub open spec fn bss_page_count(seg: Segment) -> int {
    let au = align_up_page((seg.virtual_addr + seg.file_size) as u64);
    let ze = seg_zero_end(seg);
    if au < ze {
        (ze - au + 4095) / 4096
    } else {
        0
    }
}

/// Total fresh frames that mapping the segment consumes.
pub open spec fn needed_frames(seg: Segment) -> int {
    if seg.mem_size > seg.file_size {
        (if fixup_needed(seg) {
            1int
        } else {
            0int
        }) + bss_page_count(seg)
    } else {
        0
    }
}

/// The geometry a loadable segment must have before it can be mapped:
/// sizes consistent, virtual and file positions congruent modulo the page
/// size, and sums that stay within the address width.
pub open spec fn segment_geometry_ok(seg: Segment, kernel_offset: u64) -> bool {
    &&& is_page_aligned(kernel_offset)
    &&& seg.file_size <= seg.mem_size
    &&& seg.virtual_addr % 4096 == seg.file_offset % 4096
    &&& (seg.file_size == 0 ==> is_page_aligned(seg.virtual_addr))
    &&& seg.virtual_addr + seg.mem_size + 4096 <= u64::MAX
    &&& kernel_offset + seg.file_offset + seg.file_size + 4096 <= u64::MAX
    &&& seg.virtual_addr >= 4096
}

/// The coupling invariant between allocator and memory model: every
/// modeled frame that lies in a usable region of the map sits below the
/// allocation cursor, so freshly allocated frames are never already
/// modeled.
pub open spec fn fresh_frames_unmodeled(a: BootFrameAllocator, mem: Map<u64, Seq<u8>>) -> bool {
    forall|b: u64|
        #[trigger] mem.contains_key(b) && frame_in_usable(a.regions(), b) ==> b < a.cursor()
}

/// The image frames backing `fs` file bytes at physical address `ps` are
/// all modeled.
pub open spec fn file_frames_present(mem: Map<u64, Seq<u8>>, ps: int, fs: int) -> bool {
    forall|b: u64|
        is_page_aligned(b) && page_base(ps as u64) <= b && fs > 0 && b < ps + fs
            ==> #[trigger] mem.contains_key(b)
}

/// The untouched state pieces every mapping step preserves: the memory
/// map, monotone cursor, the allocation history as a prefix, and the
/// freshness coupling.
pub open spec fn alloc_preserved(
    a0: BootFrameAllocator,
    a1: BootFrameAllocator,
    mem1: Map<u64, Seq<u8>>,
) -> bool {
    &&& a1.wf()
    &&& a1.regions() == a0.regions()
    &&& a0.cursor() <= a1.cursor()
    &&& a0.allocated().len() <= a1.allocated().len()
    &&& forall|i: int| 0 <= i < a0.allocated().len() ==> #[trigger] a1.allocated()[i] == a0.allocated()[i]
    &&& fresh_frames_unmodeled(a1, mem1)
}

/// Memory evolves monotonically: all old frames keep their bytes, and
/// every new frame came out of the allocator run between the two states.
pub open spec fn mem_grown(
    mem0: Map<u64, Seq<u8>>,
    mem1: Map<u64, Seq<u8>>,
    a0: BootFrameAllocator,
    a1: BootFrameAllocator,
) -> bool {
    &&& forall|b: u64| #[trigger] mem0.contains_key(b) ==> mem1.contains_key(b) && mem1[b] == mem0[b]
    &&& forall|b: u64|
        #[trigger] mem1.contains_key(b) ==> mem0.contains_key(b) || (frame_in_usable(
            a0.regions(),
            b,
        ) && a0.cursor() <= b < a1.cursor())
}

/// Two address spaces agree at page `p`: mapped in one exactly when
/// mapped in the other, and then with the same entry.
pub open spec fn table_agrees_at(
    pt_a: Map<u64, PageMapping>,
    pt_b: Map<u64, PageMapping>,
    p: u64,
) -> bool {
    pt_a.contains_key(p) == pt_b.contains_key(p) && (pt_b.contains_key(p) ==> pt_a[p] == pt_b[p])
}

/// Page `q` of the segment's file range carries its image-backed
/// mapping in `pt`: the matching file frame, the segment's flags.
pub open spec fn file_page_mapped(
    pt: Map<u64, PageMapping>,
    q: u64,
    seg: Segment,
    kernel_offset: u64,
) -> bool {
    pt.contains_key(q) && pt[q] == (PageMapping {
        page: q,
        frame: (page_base((kernel_offset + seg.file_offset) as u64) + (q - page_base(
            seg.virtual_addr,
        ))) as u64,
        flags: segment_flags(seg),
    })
}

/// Page `p` carries a mapping with the given flags in `pt`.
pub open spec fn page_mapped_as(
    pt: Map<u64, PageMapping>,
    p: u64,
    flags: PageTableFlags,
) -> bool {
    pt.contains_key(p) && pt[p].flags == flags && pt[p].page == p
}

/// Page bases never decrease.
proof fn lemma_page_base_mono(a: u64, b: u64)
    requires
        a <= b,
    ensures
        page_base(a) <= page_base(b),
{
    assert(a / 4096 * 4096 <= b / 4096 * 4096) by (nonlinear_arith)
        requires
            a <= b,
    ;
}

/// An aligned address at or past `x` is at or past the aligned round-up
/// of `x`.
proof fn lemma_aligned_past_align_up(p: u64, x: u64)
    requires
        is_page_aligned(p),
        x <= p,
    ensures
        align_up_page(x) <= p,
{
    assert((x + 4095) / 4096 * 4096 <= p) by (nonlinear_arith)
        requires
            p % 4096 == 0,
            x <= p,
    ;
}

/// With virtual and physical positions congruent modulo the page size,
/// walking page by page lands file bytes at the right physical offset.
proof fn lemma_offset_translate(vs: u64, ps: u64, va: u64)
    requires
        vs % 4096 == ps % 4096,
    ensures
        page_base(ps) + (page_base(va) - page_base(vs)) + va % 4096 == ps + (va - vs),
{
    lemma_page_base_props(vs);
    lemma_page_base_props(ps);
    lemma_page_base_props(va);
}

/// Replaces the shared last page of a segment's file data with a fresh
/// frame holding the data bytes before the zero boundary and zeroes
/// after it. This is the single unmap-then-remap exception to
/// append-only mapping.
fn fixup_shared_page(
    segment: &Segment,
    segment_flags_arg: PageTableFlags,
    kernel_offset: u64,
    page_table: &mut PageTableSpace,
    frame_allocator: &mut BootFrameAllocator,
    memory: &mut PhysMemory,
) -> (r: Result<(), BootError>)
    requires
        old(page_table).wf(),
        old(frame_allocator).wf(),
        old(memory).wf(),
        segment_geometry_ok(*segment, kernel_offset),
        fixup_needed(*segment),
        segment_flags_arg == segment_flags(*segment),
        fresh_frames_unmodeled(*old(frame_allocator), old(memory)@),
        old(page_table)@.contains_key(fixup_page(*segment)),
        old(page_table)@[fixup_page(*segment)] == (PageMapping {
            page: fixup_page(*segment),
            frame: orig_frame(*segment, kernel_offset),
            flags: segment_flags(*segment),
        }),
        old(memory)@.contains_key(orig_frame(*segment, kernel_offset)),
    ensures
        final(page_table).wf(),
        final(frame_allocator).wf(),
        final(memory).wf(),
        alloc_preserved(*old(frame_allocator), *final(frame_allocator), final(memory)@),
        mem_grown(old(memory)@, final(memory)@, *old(frame_allocator), *final(frame_allocator)),
        forall|p: u64|
            p != fixup_page(*segment) ==> #[trigger] table_agrees_at(
                final(page_table)@,
                old(page_table)@,
                p,
            ),
        r is Ok <==> old(frame_allocator).remaining() >= 1,
        r is Ok ==> {
            &&& final(frame_allocator).remaining() == old(frame_allocator).remaining() - 1
            &&& page_mapped_as(final(page_table)@, fixup_page(*segment), segment_flags(*segment))
            &&& forall|va: u64|
                fixup_page(*segment) <= va < seg_zero_start(*segment) ==> #[trigger] read_virt(
                    final(page_table)@,
                    final(memory)@,
                    va,
                ) == read_virt(old(page_table)@, old(memory)@, va)
            &&& forall|va: u64|
                seg_zero_start(*segment) <= va < fixup_page(*segment) + 4096
                    ==> #[trigger] read_virt(final(page_table)@, final(memory)@, va) == Some(0u8)
        },
        r matches Err(e) ==> e == BootError::FrameAllocationFailed && final(page_table)@ == old(
            page_table,
        )@ && final(memory)@ == old(memory)@,
{
    let zero_start = segment.virtual_addr + segment.file_size;
    let data_bytes_before_zero = zero_start % 4096;
    let last_page = page_base_of(zero_start);
    let orig = page_base_of(kernel_offset + segment.file_offset + segment.file_size - 1);
    let ghost pt0 = old(page_table)@;
    let ghost mem0 = old(memory)@;
    let ghost alloc0 = *old(frame_allocator);

    proof {
        old(memory).lemma_wf_view();
        // the fix-up page and the original frame sit at congruent page
        // offsets, so the data bytes line up frame-locally
        lemma_page_base_props(zero_start);
        assert((kernel_offset + segment.file_offset + segment.file_size) % 4096 == zero_start
            % 4096) by (nonlinear_arith)
            requires
                kernel_offset % 4096 == 0,
                segment.virtual_addr % 4096 == segment.file_offset % 4096,
                zero_start == segment.virtual_addr + segment.file_size,
                kernel_offset + segment.file_offset + segment.file_size + 4096 <= u64::MAX,
                segment.virtual_addr + segment.file_size <= u64::MAX,
        ;
        assert(page_base((kernel_offset + segment.file_offset + segment.file_size - 1) as u64)
            == page_base((kernel_offset + segment.file_offset + segment.file_size) as u64))
            by (nonlinear_arith)
            requires
                (kernel_offset + segment.file_offset + segment.file_size) % 4096 != 0,
                kernel_offset + segment.file_offset + segment.file_size >= 1,
                kernel_offset + segment.file_offset + segment.file_size <= u64::MAX,
        ;
        assert(orig == orig_frame(*segment, kernel_offset));
        lemma_page_base_props((kernel_offset + segment.file_offset + segment.file_size) as u64);
        assert((kernel_offset + segment.file_offset + segment.file_size) - orig
            == data_bytes_before_zero);
    }

    let new_frame = match frame_allocator.allocate_frame() {
        Some(f) => f,
        None => {
            proof {
                crate::pmm::lemma_remaining_nonneg(alloc0);
            }
            return Err(BootError::FrameAllocationFailed);
        },
    };
    proof {
        assert(!mem0.contains_key(new_frame));
    }

    // Zero the replacement frame, then copy the data bytes over from the
    // original image frame.
    memory.add_zero_frame(new_frame);
    let mut offset: u64 = 0;
    while offset < data_bytes_before_zero
        invariant
            memory.wf(),
            offset <= data_bytes_before_zero,
            data_bytes_before_zero < 4096,
            is_page_aligned(new_frame),
            is_page_aligned(orig),
            new_frame != orig,
            mem0.contains_key(orig),
            mem0[orig].len() == 4096,
            !mem0.contains_key(new_frame),
            memory@.contains_key(new_frame),
            memory@[new_frame].len() == 4096,
            orig + 4096 <= u64::MAX,
            new_frame + 4096 <= u64::MAX,
            forall|b: u64|
                #[trigger] mem0.contains_key(b) ==> memory@.contains_key(b) && memory@[b]
                    == mem0[b],
            forall|b: u64| #[trigger] memory@.contains_key(b) ==> mem0.contains_key(b) || b == new_frame,
            forall|j: int| 0 <= j < offset ==> #[trigger] memory@[new_frame][j] == mem0[orig][j],
            forall|j: int| offset <= j < 4096 ==> #[trigger] memory@[new_frame][j] == 0u8,
        decreases data_bytes_before_zero - offset,
    {
        proof {
            lemma_page_base_range((orig + offset) as u64, orig);
            lemma_page_base_range((new_frame + offset) as u64, new_frame);
        }
        let byte = memory.read_byte(orig + offset);
        memory.write_byte(new_frame + offset, byte);
        offset += 1;
    }

    // Remap the fix-up page from the original image frame to the fresh
    // copy, with the segment's own flags.
    match page_table.unmap(last_page) {
        Ok(_) => (),
        Err(_) => {
            proof {
                assert(false);
            }
            return Err(BootError::FrameAllocationFailed);
        },
    }
    match page_table.map_to(last_page, new_frame, segment_flags_arg) {
        Ok(()) => (),
        Err(_) => {
            proof {
                assert(false);
            }
            return Err(BootError::FrameAllocationFailed);
        },
    }

    proof {
        let seg = *segment;
        let zs = seg_zero_start(seg);
        let lp = fixup_page(seg);
        assert(page_table@ =~= pt0.insert(
            lp,
            PageMapping { page: lp, frame: new_frame, flags: segment_flags_arg },
        ));
        assert forall|va: u64| lp <= va < zs implies #[trigger] read_virt(
            page_table@,
            memory@,
            va,
        ) == read_virt(pt0, mem0, va) by {
            lemma_page_base_range(va, lp);
            assert(translate_spec(page_table@, va) == Some((new_frame + (va - lp)) as u64));
            assert(translate_spec(pt0, va) == Some((orig + (va - lp)) as u64));
            lemma_page_base_range((new_frame + (va - lp)) as u64, new_frame);
            lemma_page_base_range((orig + (va - lp)) as u64, orig);
            assert(memory@[new_frame][va - lp] == mem0[orig][va - lp]);
        }
        assert forall|va: u64| zs <= va < lp + 4096 implies #[trigger] read_virt(
            page_table@,
            memory@,
            va,
        ) == Some(0u8) by {
            lemma_page_base_range(va, lp);
            assert(translate_spec(page_table@, va) == Some((new_frame + (va - lp)) as u64));
            lemma_page_base_range((new_frame + (va - lp)) as u64, new_frame);
            assert(memory@[new_frame][va - lp] == 0u8);
        }
    }

    Ok(())
}

/// Composes the two table transformations of the zero fill: loop pages
/// against the post-fix-up table, and the fix-up page against the
/// original table.
#[verifier::rlimit(100)]
proof fn lemma_bss_agree(
    seg: Segment,
    pt0: Map<u64, PageMapping>,
    pt1: Map<u64, PageMapping>,
    pt2: Map<u64, PageMapping>,
    au: u64,
    page: u64,
    ze: int,
)
    requires
        seg.mem_size > seg.file_size,
        seg.virtual_addr + seg.mem_size <= u64::MAX,
        ze == seg_zero_end(seg),
        au == align_up_page((seg.virtual_addr + seg.file_size) as u64),
        fixup_page(seg) <= au,
        is_page_aligned(page),
        au <= page,
        page <= align_up_page(ze as u64),
        align_up_page(ze as u64) < ze + 4096,
        forall|p: u64|
            !(is_page_aligned(p) && au <= p < page) ==> #[trigger] table_agrees_at(pt2, pt1, p),
        forall|p: u64| p != fixup_page(seg) ==> #[trigger] table_agrees_at(pt1, pt0, p),
    ensures
        forall|p: u64|
            !(is_page_aligned(p) && fixup_page(seg) <= p < ze) ==> #[trigger] table_agrees_at(
                pt2,
                pt0,
                p,
            ),
{
    assert forall|p: u64|
        !(is_page_aligned(p) && fixup_page(seg) <= p < ze) implies #[trigger] table_agrees_at(
        pt2,
        pt0,
        p,
    ) by {
        if is_page_aligned(p) && au <= p < page {
            assert(fixup_page(seg) <= p);
            assert(p >= ze);
            assert(false) by (nonlinear_arith)
                requires
                    p % 4096 == 0,
                    page % 4096 == 0,
                    p < page,
                    p >= ze,
                    page <= align_up_page(ze as u64),
                    align_up_page(ze as u64) < ze + 4096,
            ;
        }
        assert(!(is_page_aligned(p) && au <= p < page));
        assert(table_agrees_at(pt2, pt1, p));
        if p == fixup_page(seg) {
            lemma_page_base_props((seg.virtual_addr + seg.file_size) as u64);
            assert(is_page_aligned(p) && fixup_page(seg) <= p < ze);
            assert(false);
        }
        assert(table_agrees_at(pt1, pt0, p));
    }
}

/// Maps the zero-fill portion of one segment: the partial-page fix-up if
/// the zero boundary cuts a page, then a fresh zero-filled frame for
/// every whole page up to the segment's in-memory end.
#[verifier::rlimit(100)]
#[verifier::spinoff_prover]
fn handle_bss_segment(
    segment: &Segment,
    segment_flags_arg: PageTableFlags,
    kernel_offset: u64,
    page_table: &mut PageTableSpace,
    frame_allocator: &mut BootFrameAllocator,
    memory: &mut PhysMemory,
) -> (r: Result<(), BootError>)
    requires
        old(page_table).wf(),
        old(frame_allocator).wf(),
        old(memory).wf(),
        segment_geometry_ok(*segment, kernel_offset),
        segment.mem_size > segment.file_size,
        segment_flags_arg == segment_flags(*segment),
        fresh_frames_unmodeled(*old(frame_allocator), old(memory)@),
        fixup_needed(*segment) ==> {
            &&& old(page_table)@.contains_key(fixup_page(*segment))
            &&& old(page_table)@[fixup_page(*segment)] == (PageMapping {
                page: fixup_page(*segment),
                frame: orig_frame(*segment, kernel_offset),
                flags: segment_flags(*segment),
            })
            &&& old(memory)@.contains_key(orig_frame(*segment, kernel_offset))
        },
    ensures
        final(page_table).wf(),
        final(frame_allocator).wf(),
        final(memory).wf(),
        alloc_preserved(*old(frame_allocator), *final(frame_allocator), final(memory)@),
        mem_grown(old(memory)@, final(memory)@, *old(frame_allocator), *final(frame_allocator)),
        forall|p: u64|
            !(is_page_aligned(p) && fixup_page(*segment) <= p < seg_zero_end(*segment))
                ==> #[trigger] table_agrees_at(final(page_table)@, old(page_table)@, p),
        r is Ok <==> ((forall|p: u64|
            is_page_aligned(p) && align_up_page((segment.virtual_addr + segment.file_size) as u64)
                <= p < seg_zero_end(*segment) ==> !(#[trigger] old(page_table)@.contains_key(p)))
            && needed_frames(*segment) <= old(frame_allocator).remaining()),
        r is Ok ==> {
            &&& final(frame_allocator).remaining() == old(frame_allocator).remaining()
                - needed_frames(*segment)
            &&& forall|p: u64|
                is_page_aligned(p) && align_up_page((segment.virtual_addr
                    + segment.file_size) as u64) <= p < seg_zero_end(*segment)
                    ==> #[trigger] page_mapped_as(final(page_table)@, p, segment_flags(*segment))
            &&& (fixup_needed(*segment) ==> page_mapped_as(
                final(page_table)@,
                fixup_page(*segment),
                segment_flags(*segment),
            ))
            &&& forall|va: u64|
                seg_zero_start(*segment) <= va < seg_zero_end(*segment) ==> #[trigger] read_virt(
                    final(page_table)@,
                    final(memory)@,
                    va,
                ) == Some(0u8)
            &&& forall|va: u64|
                fixup_needed(*segment) && fixup_page(*segment) <= va < seg_zero_start(*segment)
                    ==> #[trigger] read_virt(final(page_table)@, final(memory)@, va) == read_virt(
                    old(page_table)@,
                    old(memory)@,
                    va,
                )
        },
        r matches Err(e) ==> (e == BootError::PageAlreadyMapped || e
            == BootError::FrameAllocationFailed),
        r == Err::<(), BootError>(BootError::FrameAllocationFailed) ==> needed_frames(*segment)
            > old(frame_allocator).remaining(),
        r == Err::<(), BootError>(BootError::PageAlreadyMapped) ==> exists|p: u64|
            is_page_aligned(p) && align_up_page((segment.virtual_addr
                + segment.file_size) as u64) <= p < seg_zero_end(*segment) && #[trigger] old(
                page_table,
            )@.contains_key(p),
{
    let virt_start_addr = segment.virtual_addr;
    let zero_start = virt_start_addr + segment.file_size;
    let zero_end = virt_start_addr + segment.mem_size;

    let ghost pt0 = old(page_table)@;
    let ghost mem0 = old(memory)@;
    let ghost alloc0 = *old(frame_allocator);
    let ghost seg = *segment;

    // Partial page shared between tail data and zero fill: replace it by
    // a fresh copied frame before any whole zero page is mapped.
    let data_bytes_before_zero = zero_start % 4096;
    if data_bytes_before_zero != 0 {
        match fixup_shared_page(
            segment,
            segment_flags_arg,
            kernel_offset,
            page_table,
            frame_allocator,
            memory,
        ) {
            Ok(()) => (),
            Err(e) => {
                proof {
                    crate::pmm::lemma_remaining_nonneg(alloc0);
                    assert(needed_frames(seg) >= 1);
                }
                return Err(e);
            },
        }
    }

    let ghost pt1 = page_table@;
    let ghost mem1 = memory@;
    let ghost alloc1 = *frame_allocator;
    let ghost fix_used: int = if fixup_needed(seg) {
        1int
    } else {
        0int
    };

    let start_addr = align_up_page_of(zero_start);
    let ghost au = align_up_page(zero_start);
    let ghost ze = seg_zero_end(seg);
    let mut page: u64 = start_addr;
    let ghost mut used: int = 0;

    proof {
        old(memory).lemma_wf_view();
        lemma_align_up_page(zero_start);
        assert(alloc1.remaining() == alloc0.remaining() - fix_used);
        assert(fixup_needed(seg) ==> au == fixup_page(seg) + 4096) by {
            if fixup_needed(seg) {
                lemma_page_base_props(zero_start);
                crate::addr::lemma_page_base_range(zero_start, fixup_page(seg));
                assert(align_up_page(zero_start) == fixup_page(seg) + 4096) by (nonlinear_arith)
                    requires
                        zero_start % 4096 != 0,
                        fixup_page(seg) == zero_start / 4096 * 4096,
                        align_up_page(zero_start) == (zero_start + 4095) / 4096 * 4096,
                        zero_start + 4096 <= u64::MAX,
                ;
            }
        }
        assert(!fixup_needed(seg) ==> au == zero_start);
        assert(fixup_page(seg) <= au) by {
            if !fixup_needed(seg) {
                lemma_page_base_props(zero_start);
            }
        }
        assert forall|p: u64| p != fixup_page(seg) implies #[trigger] table_agrees_at(
            pt1,
            pt0,
            p,
        ) by {}
    }

    #[verifier::loop_isolation(false)]
    while page < zero_end
        invariant
            page_table.wf(),
            frame_allocator.wf(),
            memory.wf(),
            is_page_aligned(page),
            au <= page,
            page <= align_up_page(zero_end),
            used == (page - au) / 4096,
            used >= 0,
            alloc_preserved(alloc1, *frame_allocator, memory@),
            frame_allocator.remaining() == alloc1.remaining() - used,
            mem_grown(mem1, memory@, alloc1, *frame_allocator),
            forall|p: u64|
                !(is_page_aligned(p) && au <= p < page) ==> #[trigger] table_agrees_at(
                    page_table@,
                    pt1,
                    p,
                ),
            forall|q: u64|
                is_page_aligned(q) && au <= q < page ==> !(#[trigger] pt1.contains_key(q)),
            forall|q: u64|
                is_page_aligned(q) && au <= q < page ==> #[trigger] page_mapped_as(
                    page_table@,
                    q,
                    segment_flags_arg,
                ),
            fixup_needed(seg) ==> page_mapped_as(page_table@, fixup_page(seg), segment_flags_arg),
            forall|va: u64|
                zero_start <= va < page ==> #[trigger] read_virt(page_table@, memory@, va) == Some(
                    0u8,
                ),
            forall|va: u64|
                fixup_needed(seg) && fixup_page(seg) <= va < zero_start ==> #[trigger] read_virt(
                    page_table@,
                    memory@,
                    va,
                ) == read_virt(pt0, mem0, va) && read_virt(pt0, mem0, va) is Some,
        decreases zero_end + 4095 - page,
    {
        let ghost pt_top = page_table@;
        let ghost mem_top = memory@;
        let frame = match frame_allocator.allocate_frame() {
            Some(f) => f,
            None => {
                proof {
                    crate::pmm::lemma_remaining_nonneg(*frame_allocator);
                    assert(used + 1 <= bss_page_count(seg)) by (nonlinear_arith)
                        requires
                            used == (page - au) / 4096,
                            page % 4096 == 0,
                            au % 4096 == 0,
                            au <= page,
                            page < ze,
                            au < ze,
                            bss_page_count(seg) == (ze - au + 4095) / 4096,
                    ;
                    assert(needed_frames(seg) > alloc0.remaining());
                    lemma_bss_agree(seg, pt0, pt1, page_table@, start_addr, page, ze);
                }
                return Err(BootError::FrameAllocationFailed);
            },
        };
        proof {
            assert(!memory@.contains_key(frame));
        }
        memory.add_zero_frame(frame);
        match page_table.map_to(page, frame, segment_flags_arg) {
            Ok(()) => (),
            Err(_) => {
                proof {
                    assert(table_agrees_at(page_table@, pt1, page));
                    assert(pt1.contains_key(page));
                    assert(fixup_needed(seg) ==> page != fixup_page(seg));
                    assert(table_agrees_at(pt1, pt0, page));
                    assert(is_page_aligned(page) && au <= page < seg_zero_end(seg)
                        && pt0.contains_key(page));
                    lemma_bss_agree(seg, pt0, pt1, page_table@, start_addr, page, ze);
                }
                return Err(BootError::PageAlreadyMapped);
            },
        }
        proof {
            let pm = PageMapping { page, frame, flags: segment_flags_arg };
            assert(page_table@ == pt_top.insert(page, pm));
            assert(table_agrees_at(pt_top, pt1, page));
            assert(!pt1.contains_key(page));
            assert forall|p: u64|
                !(is_page_aligned(p) && au <= p < page + 4096) implies #[trigger] table_agrees_at(
                page_table@,
                pt1,
                p,
            ) by {
                assert(table_agrees_at(pt_top, pt1, p));
                assert(p != page);
            }
            assert(page_mapped_as(page_table@, page, segment_flags_arg));
            assert forall|q: u64|
                is_page_aligned(q) && au <= q < page + 4096 implies #[trigger] page_mapped_as(
                page_table@,
                q,
                segment_flags_arg,
            ) by {
                if q != page {
                    assert(page_mapped_as(pt_top, q, segment_flags_arg));
                }
            }
            if fixup_needed(seg) {
                assert(page_mapped_as(pt_top, fixup_page(seg), segment_flags_arg));
                assert(fixup_page(seg) != page);
                assert(page_mapped_as(page_table@, fixup_page(seg), segment_flags_arg));
            }
            assert(memory@ == mem_top.insert(page_base(frame), Seq::new(4096, |i: int| 0u8)));
            // reads established earlier sit on other pages and other
            // frames, so they survive this step
            assert forall|va: u64|
                page_base(va) != page && read_virt(pt_top, mem_top, va) is Some implies
                #[trigger] read_virt(page_table@, memory@, va) == read_virt(
                pt_top,
                mem_top,
                va,
            ) by {
                let pa = translate_spec(pt_top, va)->Some_0;
                assert(mem_top.contains_key(page_base(pa)));
                assert(page_base(pa) != frame);
            }
            assert forall|va: u64| zero_start <= va < page + 4096 implies #[trigger] read_virt(
                page_table@,
                memory@,
                va,
            ) == Some(0u8) by {
                if va < page {
                    lemma_page_base_props(va);
                    lemma_page_base_mono(va, (page - 1) as u64);
                    assert(page_base(va) != page);
                    assert(read_virt(pt_top, mem_top, va) == Some(0u8));
                } else {
                    lemma_page_base_range(va, page);
                    assert(translate_spec(page_table@, va) == Some((frame + (va - page)) as u64));
                    lemma_page_base_range((frame + (va - page)) as u64, frame);
                }
            }
            assert forall|va: u64|
                fixup_needed(seg) && fixup_page(seg) <= va < zero_start implies #[trigger] read_virt(
                page_table@,
                memory@,
                va,
            ) == read_virt(pt0, mem0, va) && read_virt(pt0, mem0, va) is Some by {
                lemma_page_base_props(va);
                lemma_page_base_mono(va, (zero_start - 1) as u64);
                lemma_page_base_props(zero_start);
                assert(page_base(va) <= fixup_page(seg) < au <= page);
                assert(read_virt(pt_top, mem_top, va) == read_virt(pt0, mem0, va));
            }
            assert(((page + 4096) - au) / 4096 == used + 1) by (nonlinear_arith)
                requires
                    used == (page - au) / 4096,
                    page % 4096 == 0,
                    au % 4096 == 0,
                    au <= page,
            ;
            assert(page + 4096 <= align_up_page(zero_end)) by (nonlinear_arith)
                requires
                    page % 4096 == 0,
                    page < zero_end,
                    align_up_page(zero_end) == (zero_end + 4095) / 4096 * 4096,
                    zero_end + 4096 <= u64::MAX,
            ;
            used = used + 1;
        }
        page = page + 4096;
    }

    proof {
        // the loop covered every whole zero-fill page exactly once
        lemma_align_up_page(zero_end as u64);
        assert(used == bss_page_count(seg)) by (nonlinear_arith)
            requires
                used == (page - au) / 4096,
                page % 4096 == 0,
                au % 4096 == 0,
                au <= page,
                zero_end <= page,
                page <= align_up_page(zero_end),
                align_up_page(zero_end) < zero_end + 4096,
                bss_page_count(seg) == (if au < ze {
                    (ze - au + 4095) / 4096
                } else {
                    0int
                }),
                ze == zero_end,
        ;
        // page-table agreement composes across fix-up and loop
        lemma_bss_agree(seg, pt0, pt1, page_table@, start_addr, page, ze);
        // success accounting
        crate::pmm::lemma_remaining_nonneg(*frame_allocator);
        assert(frame_allocator.remaining() == alloc0.remaining() - needed_frames(seg));
        // on success every whole zero page was free beforehand
        assert forall|p: u64|
            is_page_aligned(p) && au <= p < seg_zero_end(seg) implies !(
            #[trigger] pt0.contains_key(p)) by {
            assert(p < page);
            assert(!pt1.contains_key(p));
            assert(fixup_needed(seg) ==> p != fixup_page(seg));
            assert(table_agrees_at(pt1, pt0, p));
        }
    }

    Ok(())
}

/// Maps the file-backed pages of one segment: page `k` of the segment's
/// virtual range to frame `k` of its file content inside the resident
/// image. Fails exactly when one of those pages is already mapped.
fn map_file_pages(
    segment: &Segment,
    segment_flags_arg: PageTableFlags,
    kernel_offset: u64,
    page_table: &mut PageTableSpace,
) -> (r: Result<(), BootError>)
    requires
        old(page_table).wf(),
        segment_geometry_ok(*segment, kernel_offset),
        segment_flags_arg == segment_flags(*segment),
    ensures
        final(page_table).wf(),
        forall|p: u64|
            !(is_page_aligned(p) && page_base(segment.virtual_addr) <= p < seg_zero_start(
                *segment,
            )) ==> #[trigger] table_agrees_at(final(page_table)@, old(page_table)@, p),
        r is Ok <==> (forall|q: u64|
            is_page_aligned(q) && page_base(segment.virtual_addr) <= q < seg_zero_start(*segment)
                ==> !(#[trigger] old(page_table)@.contains_key(q))),
        r is Ok ==> forall|q: u64|
            is_page_aligned(q) && page_base(segment.virtual_addr) <= q < seg_zero_start(*segment)
                ==> #[trigger] file_page_mapped(final(page_table)@, q, *segment, kernel_offset),
        r matches Err(e) ==> e == BootError::PageAlreadyMapped && exists|q: u64|
            is_page_aligned(q) && page_base(segment.virtual_addr) <= q < seg_zero_start(*segment)
                && #[trigger] old(page_table)@.contains_key(q),
{
    let ghost seg = *segment;
    let ghost pt0 = old(page_table)@;

    let phys_start = kernel_offset + segment.file_offset;
    let virt_start = segment.virtual_addr;
    let file_end = virt_start + segment.file_size;

    let start_page = page_base_of(virt_start);
    let start_frame = page_base_of(phys_start);

    let mut vp: u64 = start_page;
    #[verifier::loop_isolation(false)]
    while vp < file_end
        invariant
            page_table.wf(),
            is_page_aligned(vp),
            start_page <= vp,
            vp <= align_up_page(file_end),
            forall|p: u64|
                !(is_page_aligned(p) && start_page <= p < vp) ==> #[trigger] table_agrees_at(
                    page_table@,
                    pt0,
                    p,
                ),
            forall|q: u64|
                is_page_aligned(q) && start_page <= q < vp ==> !(#[trigger] pt0.contains_key(q)),
            forall|q: u64|
                is_page_aligned(q) && start_page <= q < vp ==> #[trigger] file_page_mapped(
                    page_table@,
                    q,
                    seg,
                    kernel_offset,
                ),
        decreases file_end + 4095 - vp,
    {
        let ghost pt_top = page_table@;
        let frame = start_frame + (vp - start_page);
        proof {
            lemma_page_base_props(virt_start);
            lemma_page_base_props(phys_start);
            assert(is_page_aligned(frame)) by (nonlinear_arith)
                requires
                    start_frame % 4096 == 0,
                    vp % 4096 == 0,
                    start_page % 4096 == 0,
                    start_page <= vp,
                    frame == start_frame + (vp - start_page),
                    frame <= u64::MAX,
            ;
        }
        match page_table.map_to(vp, frame, segment_flags_arg) {
            Ok(()) => (),
            Err(_) => {
                proof {
                    assert(table_agrees_at(page_table@, pt0, vp));
                    assert(pt0.contains_key(vp));
                    assert(is_page_aligned(vp) && page_base(segment.virtual_addr) <= vp
                        && vp < seg_zero_start(seg));
                }
                return Err(BootError::PageAlreadyMapped);
            },
        }
        proof {
            assert(table_agrees_at(pt_top, pt0, vp));
            assert(!pt0.contains_key(vp));
            assert forall|p: u64|
                !(is_page_aligned(p) && start_page <= p < vp + 4096) implies
                #[trigger] table_agrees_at(page_table@, pt0, p) by {
                assert(table_agrees_at(pt_top, pt0, p));
                assert(p != vp);
            }
            assert forall|q: u64|
                is_page_aligned(q) && start_page <= q < vp + 4096 implies
                #[trigger] file_page_mapped(page_table@, q, seg, kernel_offset) by {
                if q != vp {
                    assert(file_page_mapped(pt_top, q, seg, kernel_offset));
                }
            }
            assert(vp + 4096 <= align_up_page(file_end)) by (nonlinear_arith)
                requires
                    vp % 4096 == 0,
                    vp < file_end,
                    align_up_page(file_end) == (file_end + 4095) / 4096 * 4096,
                    file_end + 4096 <= u64::MAX,
            ;
        }
        vp = vp + 4096;
    }

    proof {
        lemma_align_up_page(file_end);
        if segment.file_size > 0 {
            lemma_aligned_past_align_up(vp, file_end);
        }
        assert(vp == align_up_page(file_end) || vp == start_page);
        assert forall|q: u64|
            is_page_aligned(q) && start_page <= q < file_end implies q < vp by {
            assert(q < vp) by (nonlinear_arith)
                requires
                    q % 4096 == 0,
                    q < file_end,
                    vp >= align_up_page(file_end),
                    align_up_page(file_end) == (file_end + 4095) / 4096 * 4096,
                    file_end + 4096 <= u64::MAX,
            ;
        }
        assert forall|p: u64|
            is_page_aligned(p) && start_page <= p < vp implies p < seg_zero_start(seg) by {
            assert(p < file_end) by (nonlinear_arith)
                requires
                    p % 4096 == 0,
                    vp % 4096 == 0,
                    p < vp,
                    vp <= align_up_page(file_end),
                    align_up_page(file_end) == (file_end + 4095) / 4096 * 4096,
                    file_end + 4096 <= u64::MAX,
            ;
        }
        assert forall|q: u64|
            is_page_aligned(q) && start_page <= q < seg_zero_start(seg) implies
            #[trigger] file_page_mapped(page_table@, q, seg, kernel_offset) by {
            assert(q < vp);
            assert(file_page_mapped(page_table@, q, seg, kernel_offset));
        }
    }
    Ok(())
}

/// The frame that the file-page walk assigns to the page holding the
/// zero boundary is exactly the image frame the boundary falls into.
#[verifier::rlimit(100)]
proof fn lemma_fixup_frame_identity(seg: Segment, kernel_offset: u64)
    requires
        segment_geometry_ok(seg, kernel_offset),
        fixup_needed(seg),
    ensures
        seg.file_size > 0,
        is_page_aligned(fixup_page(seg)),
        page_base(seg.virtual_addr) <= fixup_page(seg),
        fixup_page(seg) < seg_zero_start(seg),
        page_base((kernel_offset + seg.file_offset) as u64) + (fixup_page(seg) - page_base(
            seg.virtual_addr,
        )) == orig_frame(seg, kernel_offset),
        is_page_aligned(orig_frame(seg, kernel_offset)),
        page_base((kernel_offset + seg.file_offset) as u64) <= orig_frame(seg, kernel_offset),
        orig_frame(seg, kernel_offset) < kernel_offset + seg.file_offset + seg.file_size,
{
    let vs = seg.virtual_addr;
    let ps = (kernel_offset + seg.file_offset) as u64;
    let zs = (vs + seg.file_size) as u64;
    let pe = (kernel_offset + seg.file_offset + seg.file_size) as u64;
    lemma_page_base_props(zs);
    lemma_page_base_props(vs);
    lemma_page_base_props(ps);
    lemma_page_base_props(pe);
    lemma_page_base_props((pe - 1) as u64);
    assert(ps % 4096 == vs % 4096);
    assert(pe % 4096 == zs % 4096) by (nonlinear_arith)
        requires
            vs % 4096 == ps % 4096,
            zs == vs + seg.file_size,
            pe == ps + seg.file_size,
            vs + seg.file_size <= u64::MAX,
            ps + seg.file_size <= u64::MAX,
    ;
    assert(page_base((pe - 1) as u64) == page_base(pe)) by (nonlinear_arith)
        requires
            pe % 4096 != 0,
            pe >= 1,
    ;
    assert(fixup_page(seg) < zs);
    assert(page_base(ps) + (page_base(zs) - page_base(vs)) == page_base(pe)) by {
        lemma_offset_translate(vs, ps, zs);
        assert(zs % 4096 == pe % 4096);
        assert(page_base(pe) + pe % 4096 == pe);
    }
    lemma_page_base_mono(vs, zs);
    lemma_page_base_mono(ps, (pe - 1) as u64);
}

/// Composing the file-page walk and the zero fill changes the page
/// table only on the segment's own pages.
#[verifier::rlimit(100)]
proof fn lemma_seg_agreement(
    seg: Segment,
    kernel_offset: u64,
    pt0: Map<u64, PageMapping>,
    pt_f: Map<u64, PageMapping>,
    pt2: Map<u64, PageMapping>,
)
    requires
        segment_geometry_ok(seg, kernel_offset),
        forall|p: u64|
            !(is_page_aligned(p) && page_base(seg.virtual_addr) <= p < seg_zero_start(seg))
                ==> #[trigger] table_agrees_at(pt_f, pt0, p),
        forall|p: u64|
            !(is_page_aligned(p) && fixup_page(seg) <= p < seg_zero_end(seg))
                ==> #[trigger] table_agrees_at(pt2, pt_f, p),
    ensures
        forall|p: u64| !is_seg_page(seg, p) ==> #[trigger] table_agrees_at(pt2, pt0, p),
{
    let vs = seg.virtual_addr;
    let zs = seg_zero_start(seg);
    let ze = seg_zero_end(seg);
    let sp = page_base(vs);
    lemma_page_base_props(vs);
    assert forall|p: u64| !is_seg_page(seg, p) implies #[trigger] table_agrees_at(
        pt2,
        pt0,
        p,
    ) by {
        assert(!(is_page_aligned(p) && sp <= p < zs)) by {
            if is_page_aligned(p) && sp <= p < zs {
                assert(p < vs + seg.mem_size);
                assert(is_seg_page(seg, p));
            }
        }
        assert(!(is_page_aligned(p) && fixup_page(seg) <= p < ze)) by {
            if is_page_aligned(p) && fixup_page(seg) <= p < ze {
                lemma_page_base_mono(vs, (vs + seg.file_size) as u64);
                assert(sp <= fixup_page(seg));
                assert(is_seg_page(seg, p));
            }
        }
        assert(table_agrees_at(pt_f, pt0, p));
        assert(table_agrees_at(pt2, pt_f, p));
    }
}

/// After the file pages and the zero fill are in place, the whole
/// segment range reads correctly and nothing outside it moved.
#[verifier::rlimit(100)]
proof fn lemma_load_compose(
    seg: Segment,
    kernel_offset: u64,
    pt0: Map<u64, PageMapping>,
    pt_f: Map<u64, PageMapping>,
    pt2: Map<u64, PageMapping>,
    mem0: Map<u64, Seq<u8>>,
    mem2: Map<u64, Seq<u8>>,
)
    requires
        segment_geometry_ok(seg, kernel_offset),
        file_frames_present(mem0, seg_phys_start(seg, kernel_offset), seg.file_size as int),
        forall|b: u64| #[trigger] mem0.contains_key(b) ==> is_page_aligned(b) && mem0[b].len() == 4096,
        forall|b: u64| #[trigger] mem0.contains_key(b) ==> mem2.contains_key(b) && mem2[b] == mem0[b],
        // what the file-page walk left behind
        forall|p: u64|
            !(is_page_aligned(p) && page_base(seg.virtual_addr) <= p < seg_zero_start(seg))
                ==> #[trigger] table_agrees_at(pt_f, pt0, p),
        forall|q: u64|
            is_page_aligned(q) && page_base(seg.virtual_addr) <= q < seg_zero_start(seg)
                ==> #[trigger] file_page_mapped(pt_f, q, seg, kernel_offset),
        // what the zero fill left behind
        seg.mem_size == seg.file_size ==> pt2 == pt_f && mem2 == mem0,
        seg.mem_size > seg.file_size ==> forall|p: u64|
            !(is_page_aligned(p) && fixup_page(seg) <= p < seg_zero_end(seg))
                ==> #[trigger] table_agrees_at(pt2, pt_f, p),
        seg.mem_size > seg.file_size ==> forall|va: u64|
            fixup_needed(seg) && fixup_page(seg) <= va < seg_zero_start(seg) ==> #[trigger] read_virt(
                pt2,
                mem2,
                va,
            ) == read_virt(pt_f, mem0, va),
    ensures
        forall|va: u64|
            seg.virtual_addr <= va < seg_zero_start(seg) ==> #[trigger] read_virt(pt2, mem2, va)
                == read_phys(
                mem0,
                (kernel_offset + seg.file_offset + (va - seg.virtual_addr)) as u64,
            ),
{
    let vs = seg.virtual_addr;
    let ps = (kernel_offset + seg.file_offset) as u64;
    let zs = seg_zero_start(seg);
    let ze = seg_zero_end(seg);
    let sp = page_base(vs);
    let sf = page_base(ps);
    lemma_page_base_props(vs);
    lemma_page_base_props(ps);
    lemma_page_base_props((vs + seg.file_size) as u64);

    assert forall|va: u64| vs <= va < zs implies #[trigger] read_virt(pt2, mem2, va) == read_phys(
        mem0,
        (kernel_offset + seg.file_offset + (va - vs)) as u64,
    ) by {
        lemma_page_base_props(va);
        lemma_page_base_mono(vs, va);
        let q = page_base(va);
        assert(is_page_aligned(q) && sp <= q < zs);
        assert(file_page_mapped(pt_f, q, seg, kernel_offset));
        assert(pt_f.contains_key(q) && pt_f[q].frame == (sf + (q - sp)) as u64);
        let fr = (sf + (q - sp)) as u64;
        lemma_offset_translate(vs, ps, va);
        assert(fr + va % 4096 == ps + (va - vs));
        let pa = (ps + (va - vs)) as u64;
        assert(translate_spec(pt_f, va) == Some(pa));
        assert(is_page_aligned(fr)) by (nonlinear_arith)
            requires
                sf % 4096 == 0,
                q % 4096 == 0,
                sp % 4096 == 0,
                sp <= q,
                fr == sf + (q - sp),
                fr <= u64::MAX,
        ;
        lemma_page_base_range(pa, fr);
        assert(mem0.contains_key(fr)) by {
            lemma_page_base_mono(ps, pa);
        }
        assert(read_virt(pt_f, mem0, va) == read_phys(mem0, pa));
        if seg.mem_size > seg.file_size {
            if fixup_needed(seg) && q == fixup_page(seg) {
                assert(fixup_page(seg) <= va < zs) by {
                    lemma_page_base_props((vs + seg.file_size) as u64);
                    lemma_page_base_mono(va, (zs - 1) as u64);
                    assert(page_base((zs - 1) as u64) == fixup_page(seg)) by (nonlinear_arith)
                        requires
                            zs % 4096 != 0,
                            zs >= 1,
                            zs <= u64::MAX,
                            fixup_page(seg) == page_base(zs as u64),
                            page_base(zs as u64) == zs / 4096 * 4096,
                            page_base((zs - 1) as u64) == (zs - 1) / 4096 * 4096,
                    ;
                }
                assert(read_virt(pt2, mem2, va) == read_virt(pt_f, mem0, va));
            } else {
                assert(!(is_page_aligned(q) && fixup_page(seg) <= q < ze)) by {
                    if fixup_needed(seg) {
                        if fixup_page(seg) <= q < ze {
                            assert(q != fixup_page(seg));
                            assert(is_page_aligned(fixup_page(seg))) by {
                                lemma_page_base_props((vs + seg.file_size) as u64);
                            }
                            assert(q >= fixup_page(seg) + 4096) by (nonlinear_arith)
                                requires
                                    q % 4096 == 0,
                                    fixup_page(seg) % 4096 == 0,
                                    q > fixup_page(seg),
                            ;
                            assert(zs < fixup_page(seg) + 4096) by {
                                lemma_page_base_props((vs + seg.file_size) as u64);
                            }
                            assert(false);
                        }
                    } else {
                        if fixup_page(seg) <= q < ze {
                            lemma_page_base_props((vs + seg.file_size) as u64);
                            assert(fixup_page(seg) == zs);
                            assert(false);
                        }
                    }
                }
                assert(table_agrees_at(pt2, pt_f, q));
                assert(translate_spec(pt2, va) == Some(pa));
                assert(mem2.contains_key(fr) && mem2[fr] == mem0[fr]);
            }
        }
    }
}

/// After the file-page walk and the zero fill, every page the segment
/// claims was free beforehand and now carries a mapping with the
/// segment's flags.
#[verifier::rlimit(100)]
proof fn lemma_load_pages(
    seg: Segment,
    kernel_offset: u64,
    pt0: Map<u64, PageMapping>,
    pt_f: Map<u64, PageMapping>,
    pt2: Map<u64, PageMapping>,
)
    requires
        segment_geometry_ok(seg, kernel_offset),
        // the file-page walk
        forall|q: u64|
            is_page_aligned(q) && page_base(seg.virtual_addr) <= q < seg_zero_start(seg) ==> !(
            #[trigger] pt0.contains_key(q)),
        forall|q: u64|
            is_page_aligned(q) && page_base(seg.virtual_addr) <= q < seg_zero_start(seg)
                ==> #[trigger] page_mapped_as(pt_f, q, segment_flags(seg)),
        forall|p: u64|
            !(is_page_aligned(p) && page_base(seg.virtual_addr) <= p < seg_zero_start(seg))
                ==> #[trigger] table_agrees_at(pt_f, pt0, p),
        // the zero fill
        seg.mem_size == seg.file_size ==> pt2 == pt_f,
        seg.mem_size > seg.file_size ==> forall|p: u64|
            is_page_aligned(p) && align_up_page((seg.virtual_addr + seg.file_size) as u64) <= p
                < seg_zero_end(seg) ==> !(#[trigger] pt_f.contains_key(p)),
        seg.mem_size > seg.file_size ==> forall|p: u64|
            is_page_aligned(p) && align_up_page((seg.virtual_addr + seg.file_size) as u64) <= p
                < seg_zero_end(seg) ==> #[trigger] page_mapped_as(pt2, p, segment_flags(seg)),
        fixup_needed(seg) ==> page_mapped_as(pt2, fixup_page(seg), segment_flags(seg)),
        seg.mem_size > seg.file_size ==> forall|p: u64|
            !(is_page_aligned(p) && fixup_page(seg) <= p < seg_zero_end(seg))
                ==> #[trigger] table_agrees_at(pt2, pt_f, p),
    ensures
        forall|p: u64| is_seg_page(seg, p) ==> !(#[trigger] pt0.contains_key(p)),
        forall|p: u64|
            is_seg_page(seg, p) ==> #[trigger] page_mapped_as(pt2, p, segment_flags(seg)),
{
    let zs = seg_zero_start(seg);
    let ze = seg_zero_end(seg);
    let au = align_up_page((seg.virtual_addr + seg.file_size) as u64);
    lemma_align_up_page((seg.virtual_addr + seg.file_size) as u64);
    lemma_page_base_props(seg.virtual_addr);
    lemma_page_base_props((seg.virtual_addr + seg.file_size) as u64);

    assert forall|p: u64| is_seg_page(seg, p) implies !(#[trigger] pt0.contains_key(p)) by {
        if p < zs {
        } else {
            assert(seg.mem_size > seg.file_size);
            lemma_aligned_past_align_up(p, (seg.virtual_addr + seg.file_size) as u64);
            assert(is_page_aligned(p) && au <= p < ze);
            assert(!pt_f.contains_key(p));
            assert(!(is_page_aligned(p) && page_base(seg.virtual_addr) <= p < zs));
            assert(table_agrees_at(pt_f, pt0, p));
        }
    }

    assert forall|p: u64| is_seg_page(seg, p) implies #[trigger] page_mapped_as(
        pt2,
        p,
        segment_flags(seg),
    ) by {
        if p < zs {
            assert(page_mapped_as(pt_f, p, segment_flags(seg)));
            if seg.mem_size > seg.file_size {
                if fixup_needed(seg) && p == fixup_page(seg) {
                } else {
                    assert(!(is_page_aligned(p) && fixup_page(seg) <= p < ze)) by {
                        if fixup_needed(seg) {
                            if fixup_page(seg) <= p < ze {
                                assert(p >= fixup_page(seg) + 4096) by (nonlinear_arith)
                                    requires
                                        p % 4096 == 0,
                                        fixup_page(seg) % 4096 == 0,
                                        p > fixup_page(seg),
                                ;
                            }
                        } else {
                            assert(fixup_page(seg) == zs);
                        }
                    }
                    assert(table_agrees_at(pt2, pt_f, p));
                }
            }
        } else {
            assert(seg.mem_size > seg.file_size);
            lemma_aligned_past_align_up(p, (seg.virtual_addr + seg.file_size) as u64);
            assert(is_page_aligned(p) && au <= p < ze);
        }
    }
}

/// Maps one loadable segment into the kernel address space: the
/// file-backed bytes page by page straight from the resident image, then
/// the zero fill for the uninitialized tail.
///
/// On success, reading the mapped range `[virtual_addr,
/// virtual_addr+file_size)` yields exactly the image bytes at
/// `file_offset`, reading `[virtual_addr+file_size,
/// virtual_addr+mem_size)` yields zero bytes, and nothing outside the
/// segment's own pages or the freshly allocated frames has changed.
/// Succeeds exactly when every page the segment claims is free and
/// enough frames remain.
#[verifier::rlimit(100)]
pub fn handle_load_segment(
    segment: &Segment,
    kernel_offset: u64,
    page_table: &mut PageTableSpace,
    frame_allocator: &mut BootFrameAllocator,
    memory: &mut PhysMemory,
) -> (r: Result<(), BootError>)
    requires
        old(page_table).wf(),
        old(frame_allocator).wf(),
        old(memory).wf(),
        segment_geometry_ok(*segment, kernel_offset),
        fresh_frames_unmodeled(*old(frame_allocator), old(memory)@),
        file_frames_present(
            old(memory)@,
            seg_phys_start(*segment, kernel_offset),
            segment.file_size as int,
        ),
    ensures
        final(page_table).wf(),
        final(frame_allocator).wf(),
        final(memory).wf(),
        alloc_preserved(*old(frame_allocator), *final(frame_allocator), final(memory)@),
        mem_grown(old(memory)@, final(memory)@, *old(frame_allocator), *final(frame_allocator)),
        forall|p: u64|
            !is_seg_page(*segment, p) ==> #[trigger] table_agrees_at(
                final(page_table)@,
                old(page_table)@,
                p,
            ),
        r is Ok <==> ((forall|p: u64|
            is_seg_page(*segment, p) ==> !(#[trigger] old(page_table)@.contains_key(p)))
            && needed_frames(*segment) <= old(frame_allocator).remaining()),
        r is Ok ==> {
            &&& final(frame_allocator).remaining() == old(frame_allocator).remaining()
                - needed_frames(*segment)
            &&& forall|p: u64|
                is_seg_page(*segment, p) ==> #[trigger] page_mapped_as(
                    final(page_table)@,
                    p,
                    segment_flags(*segment),
                )
            &&& forall|va: u64|
                segment.virtual_addr <= va < seg_zero_start(*segment) ==> #[trigger] read_virt(
                    final(page_table)@,
                    final(memory)@,
                    va,
                ) == read_phys(
                    old(memory)@,
                    (kernel_offset + segment.file_offset + (va - segment.virtual_addr)) as u64,
                )
            &&& forall|va: u64|
                seg_zero_start(*segment) <= va < seg_zero_end(*segment) ==> #[trigger] read_virt(
                    final(page_table)@,
                    final(memory)@,
                    va,
                ) == Some(0u8)
        },
        r matches Err(e) ==> (e == BootError::PageAlreadyMapped || e
            == BootError::FrameAllocationFailed),
        r == Err::<(), BootError>(BootError::FrameAllocationFailed) ==> needed_frames(*segment)
            > old(frame_allocator).remaining(),
        r == Err::<(), BootError>(BootError::PageAlreadyMapped) ==> exists|p: u64|
            is_seg_page(*segment, p) && #[trigger] old(page_table)@.contains_key(p),
{
    let ghost seg = *segment;
    let ghost pt0 = old(page_table)@;
    let ghost mem0 = old(memory)@;
    let ghost alloc0 = *old(frame_allocator);

    let mut flags = PageTableFlags { writable: false, no_execute: false };
    if !segment.executable {
        flags.no_execute = true;
    }
    if segment.writable {
        flags.writable = true;
    }
    proof {
        assert(flags == segment_flags(seg));
        old(memory).lemma_wf_view();
        lemma_page_base_props(segment.virtual_addr);
    }

    // Map all frames of the segment's file content at the desired
    // virtual addresses.
    match map_file_pages(segment, flags, kernel_offset, page_table) {
        Ok(()) => (),
        Err(e) => {
            proof {
                let q = choose|q: u64|
                    is_page_aligned(q) && page_base(seg.virtual_addr) <= q < seg_zero_start(seg)
                        && #[trigger] pt0.contains_key(q);
                assert(is_seg_page(seg, q) && pt0.contains_key(q));
            }
            return Err(e);
        },
    }

    let ghost pt_f = page_table@;

    if segment.mem_size > segment.file_size {
        proof {
            if fixup_needed(seg) {
                lemma_fixup_frame_identity(seg, kernel_offset);
                assert(file_page_mapped(pt_f, fixup_page(seg), seg, kernel_offset));
                assert(pt_f.contains_key(fixup_page(seg)));
                assert(pt_f[fixup_page(seg)] == (PageMapping {
                    page: fixup_page(seg),
                    frame: orig_frame(seg, kernel_offset),
                    flags: segment_flags(seg),
                }));
            }
        }
        match handle_bss_segment(
            segment,
            flags,
            kernel_offset,
            page_table,
            frame_allocator,
            memory,
        ) {
            Ok(()) => (),
            Err(e) => {
                proof {
                    let au = align_up_page((seg.virtual_addr + seg.file_size) as u64);
                    if e == BootError::PageAlreadyMapped {
                        let q = choose|q: u64|
                            is_page_aligned(q) && au <= q < seg_zero_end(seg)
                                && #[trigger] pt_f.contains_key(q);
                        assert(!(is_page_aligned(q) && page_base(seg.virtual_addr) <= q
                            < seg_zero_start(seg))) by {
                            lemma_align_up_page((seg.virtual_addr + seg.file_size) as u64);
                        }
                        assert(table_agrees_at(pt_f, pt0, q));
                        assert(pt0.contains_key(q));
                        assert(is_seg_page(seg, q)) by {
                            lemma_page_base_props(seg.virtual_addr);
                            lemma_page_base_mono(
                                seg.virtual_addr,
                                (seg.virtual_addr + seg.file_size) as u64,
                            );
                            lemma_align_up_page((seg.virtual_addr + seg.file_size) as u64);
                        }
                    }
                    lemma_seg_agreement(seg, kernel_offset, pt0, pt_f, page_table@);
                }
                return Err(e);
            },
        }
    }

    proof {
        crate::pmm::lemma_remaining_nonneg(alloc0);
        if seg.mem_size == seg.file_size {
            assert(page_table@ == pt_f);
        } else {
            assert forall|p: u64|
                !(is_page_aligned(p) && fixup_page(seg) <= p < seg_zero_end(seg)) implies
                #[trigger] table_agrees_at(page_table@, pt_f, p) by {}
        }
        lemma_seg_agreement(seg, kernel_offset, pt0, pt_f, page_table@);
        // assemble fidelity over the whole segment
        lemma_load_compose(seg, kernel_offset, pt0, pt_f, page_table@, mem0, memory@);

        // success is owed exactly when the pages were free and the
        // frames sufficed, and every claimed page now carries the
        // segment's flags
        assert forall|q: u64|
            is_page_aligned(q) && page_base(seg.virtual_addr) <= q < seg_zero_start(seg) implies
            #[trigger] page_mapped_as(pt_f, q, segment_flags(seg)) by {
            assert(file_page_mapped(pt_f, q, seg, kernel_offset));
        }
        lemma_load_pages(seg, kernel_offset, pt0, pt_f, page_table@);
    }

    Ok(())
}

/// Non-interference: mapping one segment never changes a byte that was
/// readable before the call outside that segment's own pages — including
/// across the shared-page fix-up. Follows from the mapping contract:
/// the page table changes only on the segment's pages, and modeled
/// frames never lose their bytes.
pub proof fn lemma_mapping_noninterference(
    seg: Segment,
    pt0: Map<u64, PageMapping>,
    pt2: Map<u64, PageMapping>,
    mem0: Map<u64, Seq<u8>>,
    mem2: Map<u64, Seq<u8>>,
)
    requires
        forall|p: u64| !is_seg_page(seg, p) ==> #[trigger] table_agrees_at(pt2, pt0, p),
        forall|b: u64| #[trigger] mem0.contains_key(b) ==> mem2.contains_key(b) && mem2[b] == mem0[b],
    ensures
        forall|va: u64|
            !is_seg_page(seg, page_base(va)) && read_virt(pt0, mem0, va) is Some
                ==> #[trigger] read_virt(pt2, mem2, va) == read_virt(pt0, mem0, va),
{
    assert forall|va: u64|
        !is_seg_page(seg, page_base(va)) && read_virt(pt0, mem0, va) is Some implies
        #[trigger] read_virt(pt2, mem2, va) == read_virt(pt0, mem0, va) by {
        assert(table_agrees_at(pt2, pt0, page_base(va)));
        let pa = translate_spec(pt0, va)->Some_0;
        assert(mem0.contains_key(page_base(pa)));
    }
}

/// Size in bytes of the fixed stivale2 protocol header structure that
/// the kernel embeds in its dedicated ELF section: entry point, stack
/// pointer, flags and tag list pointer, eight bytes each.
pub const STIVALE2_HEADER_BYTES: u64 = 32;

/// Validates the protocol preconditions of the final handoff, given the
/// size of the protocol header section and the values parsed from it.
/// Each check is fatal, in this order: section size exactly the fixed
/// structure size, the higher-half flag rejected in 32-bit mode, the
/// stack 16-byte aligned, and a non-null stack for 32-bit kernels.
pub fn validate_protocol_header(section_size: u64, stack: u64, flags: u64, is_32_bit: bool) -> (r:
    Result<(), BootError>)
    ensures
        r == Ok::<(), BootError>(()) <==> (section_size == 32 && !(is_32_bit && flags & 2 != 0)
            && stack % 16 == 0 && !(is_32_bit && stack == 0)),
        r == Err::<(), BootError>(BootError::HeaderSectionTooSmall) <==> section_size < 32,
        r == Err::<(), BootError>(BootError::HeaderSectionTooLarge) <==> section_size > 32,
        r == Err::<(), BootError>(BootError::HigherHalfUnsupported) <==> (section_size == 32
            && is_32_bit && flags & 2 != 0),
        r == Err::<(), BootError>(BootError::StackMisaligned) <==> (section_size == 32 && !(
        is_32_bit && flags & 2 != 0) && stack % 16 != 0),
        r == Err::<(), BootError>(BootError::StackNull) <==> (section_size == 32 && !(is_32_bit
            && flags & 2 != 0) && stack % 16 == 0 && is_32_bit && stack == 0),
{
    if section_size < STIVALE2_HEADER_BYTES {
        Err(BootError::HeaderSectionTooSmall)
    } else if section_size > STIVALE2_HEADER_BYTES {
        Err(BootError::HeaderSectionTooLarge)
    } else if is_32_bit && flags & 2 != 0 {
        Err(BootError::HigherHalfUnsupported)
    } else if stack % 16 != 0 {
        Err(BootError::StackMisaligned)
    } else if is_32_bit && stack == 0 {
        Err(BootError::StackNull)
    } else {
        Ok(())
    }
}

/// Platform type code for memory handed over as consumed by the loader.
pub const LOADER_CONSUMED_CODE: u32 = 2;

/// The translation of a single firmware region for the kernel: regions
/// fully below the allocation cursor are handed over as consumed, the
/// one region the cursor cuts is split into a consumed and a still
/// usable part, everything else passes through.
pub open spec fn translate_one(r: MemoryRegion, cursor: u64) -> Seq<MemoryRegion> {
    if !region_usable(r) || cursor <= r.start {
        seq![r]
    } else if cursor >= r.end {
        seq![
            MemoryRegion {
                start: r.start,
                end: r.end,
                kind: MemoryRegionType::UnknownUefi(LOADER_CONSUMED_CODE),
            },
        ]
    } else {
        seq![
            MemoryRegion {
                start: r.start,
                end: cursor,
                kind: MemoryRegionType::UnknownUefi(LOADER_CONSUMED_CODE),
            },
            MemoryRegion { start: cursor, end: r.end, kind: MemoryRegionType::Usable },
        ]
    }
}

/// The translated memory-region descriptor array handed to the kernel.
pub open spec fn translate_regions(s: Seq<MemoryRegion>, cursor: u64) -> Seq<MemoryRegion>
    decreases s.len(),
{
    if s.len() == 0 {
        Seq::empty()
    } else {
        translate_regions(s.drop_last(), cursor) + translate_one(s.last(), cursor)
    }
}

/// A map whose regions all end at or below the cursor translates
/// one-for-one.
proof fn lemma_translate_no_split(s: Seq<MemoryRegion>, cursor: u64)
    requires
        forall|i: int| 0 <= i < s.len() ==> (#[trigger] s[i]).end <= cursor,
    ensures
        translate_regions(s, cursor).len() == s.len(),
    decreases s.len(),
{
    if s.len() > 0 {
        assert(s[s.len() - 1].end <= cursor);
        assert(forall|i: int| 0 <= i < s.drop_last().len() ==> #[trigger] s.drop_last()[i] == s[i]);
        lemma_translate_no_split(s.drop_last(), cursor);
    }
}

/// A sorted map splits at most one region at the cursor, so the
/// translation holds at most one extra descriptor.
proof fn lemma_translate_count(s: Seq<MemoryRegion>, cursor: u64)
    requires
        crate::pmm::regions_wf(s),
    ensures
        translate_regions(s, cursor).len() <= s.len() + 1,
    decreases s.len(),
{
    if s.len() > 0 {
        assert(forall|i: int| 0 <= i < s.drop_last().len() ==> #[trigger] s.drop_last()[i] == s[i]);
        assert(crate::pmm::regions_wf(s.drop_last()));
        if translate_one(s.last(), cursor).len() == 2 {
            assert(s.last().start < cursor);
            assert(forall|i: int|
                0 <= i < s.drop_last().len() ==> (#[trigger] s.drop_last()[i]).end <= cursor) by {
                assert(forall|i: int|
                    0 <= i < s.len() - 1 ==> #[trigger] s[i].end <= s[s.len() - 1].start);
            }
            lemma_translate_no_split(s.drop_last(), cursor);
        } else {
            lemma_translate_count(s.drop_last(), cursor);
        }
    }
}

/// Translates the firmware memory map at the current allocation cursor
/// into the descriptor array the kernel receives.
pub fn translate_memory_map(regions: &Vec<MemoryRegion>, cursor: u64) -> (r: Vec<MemoryRegion>)
    ensures
        r@ == translate_regions(regions@, cursor),
{
    let mut out: Vec<MemoryRegion> = Vec::new();
    let mut i: usize = 0;
    while i < regions.len()
        invariant
            i <= regions@.len(),
            out@ == translate_regions(regions@.subrange(0, i as int), cursor),
        decreases regions@.len() - i,
    {
        let r = regions[i];
        let is_usable = r.kind == MemoryRegionType::Usable;
        if !is_usable || cursor <= r.start {
            out.push(r);
        } else if cursor >= r.end {
            out.push(
                MemoryRegion {
                    start: r.start,
                    end: r.end,
                    kind: MemoryRegionType::UnknownUefi(LOADER_CONSUMED_CODE),
                },
            );
        } else {
            out.push(
                MemoryRegion {
                    start: r.start,
                    end: cursor,
                    kind: MemoryRegionType::UnknownUefi(LOADER_CONSUMED_CODE),
                },
            );
            out.push(MemoryRegion { start: cursor, end: r.end, kind: MemoryRegionType::Usable });
        }
        proof {
            let pre = regions@.subrange(0, i as int);
            let cur = regions@.subrange(0, i + 1 as int);
            assert(cur.drop_last() =~= pre);
            assert(cur.last() == regions@[i as int]);
            assert(out@ =~= translate_regions(pre, cursor) + translate_one(
                regions@[i as int],
                cursor,
            ));
        }
        i += 1;
    }
    proof {
        assert(regions@.subrange(0, regions@.len() as int) =~= regions@);
    }
    out
}

/// Size in bytes of the boot-information header the loader writes for
/// the kernel: brand and version strings (64 bytes each), requested
/// stack pointer, flags, and the pointer/count pair for the translated
/// memory-region descriptor array.
pub const BOOT_INFO_HEADER_BYTES: u64 = 160;

/// Size in bytes of one memory-region descriptor: start, end, and a
/// 32-bit type code padded to eight bytes.
pub const REGION_DESCRIPTOR_BYTES: u64 = 24;

/// Total bytes of the boot-info region for a map of `count` regions:
/// the header plus one descriptor slot per region and one slack slot
/// for the entry split at the allocation cursor.
pub open spec fn boot_info_bytes(count: int) -> int {
    160 + (count + 1) * 24
}

/// Frames needed to back the boot-info region.
pub open spec fn boot_info_pages(count: int) -> int {
    (boot_info_bytes(count) + 4095) / 4096
}

/// The lowest unused index of the top-level slot tracker, or 512 when
/// all are taken.
pub open spec fn first_free_from(s: Seq<bool>, i: int) -> int
    decreases 512 - i,
{
    if i < 0 || i >= 512 {
        512
    } else if s[i] == false {
        i
    } else {
        first_free_from(s, i + 1)
    }
}

/// The tracker's reservation result is exactly the first free index.
proof fn lemma_first_free(s: Seq<bool>, idx: u16)
    requires
        s.len() == 512,
        idx < 512,
        s[idx as int] == false,
        forall|k: int| 0 <= k < idx ==> s[k] == true,
    ensures
        first_free_from(s, 0) == idx,
{
    lemma_first_free_step(s, 0, idx);
}

/// Below the first unset index, the scan walks forward.
proof fn lemma_first_free_step(s: Seq<bool>, i: int, idx: u16)
    requires
        s.len() == 512,
        idx < 512,
        s[idx as int] == false,
        forall|k: int| 0 <= k < idx ==> s[k] == true,
        0 <= i <= idx,
    ensures
        first_free_from(s, i) == idx,
    decreases 512 - i,
{
    if i < idx {
        lemma_first_free_step(s, i + 1, idx);
    }
}

/// A full tracker scans to the end.
proof fn lemma_first_free_full(s: Seq<bool>, i: int)
    requires
        s.len() == 512,
        forall|k: int| 0 <= k < 512 ==> s[k] == true,
        0 <= i,
    ensures
        first_free_from(s, i) == 512,
    decreases 512 - i,
{
    if i < 512 {
        lemma_first_free_full(s, i + 1);
    }
}

/// The canonical base of any top-level entry is page-aligned and leaves
/// ample room below the address-space end.
proof fn lemma_canonical_base_bounds(idx: u64)
    requires
        idx < 512,
    ensures
        is_page_aligned(canonical_base(idx)),
        canonical_base(idx) + 0x8000_0000 <= u64::MAX,
{
    if idx < 256 {
        assert(idx * 0x80_0000_0000 % 4096 == 0 && idx * 0x80_0000_0000 + 0x8000_0000
            <= u64::MAX) by (nonlinear_arith)
            requires
                idx < 256,
        ;
    } else {
        assert((idx * 0x80_0000_0000 + 0xFFFF_0000_0000_0000) % 4096 == 0 && idx * 0x80_0000_0000
            + 0xFFFF_0000_0000_0000 + 0x8000_0000 <= u64::MAX) by (nonlinear_arith)
            requires
                256 <= idx < 512,
        ;
    }
}


/// Maps freshly allocated zero frames for `total` bytes at `addr` into
/// both address spaces with identical backing, read-write.
#[verifier::rlimit(100)]
fn map_boot_info_window(
    page_tables: &mut crate::BootPageTables,
    frame_allocator: &mut BootFrameAllocator,
    memory: &mut PhysMemory,
    addr: u64,
    total: u64,
) -> (r: Result<(), BootError>)
    requires
        old(page_tables).wf(),
        old(frame_allocator).wf(),
        old(memory).wf(),
        fresh_frames_unmodeled(*old(frame_allocator), old(memory)@),
        is_page_aligned(addr),
        addr + total + 4096 <= u64::MAX,
    ensures
        final(page_tables).wf(),
        final(frame_allocator).wf(),
        final(memory).wf(),
        final(page_tables).kernel_level_4_frame == old(page_tables).kernel_level_4_frame,
        alloc_preserved(*old(frame_allocator), *final(frame_allocator), final(memory)@),
        mem_grown(old(memory)@, final(memory)@, *old(frame_allocator), *final(frame_allocator)),
        window_ready(*old(page_tables), *old(frame_allocator), addr, total as int) ==> r is Ok,
        r is Ok ==> window_mapped(*final(page_tables), final(memory)@, addr, total as int),
        r is Ok ==> forall|p: u64|
            is_page_aligned(p) && addr <= p < addr + total ==> !(#[trigger] old(
                page_tables,
            ).kernel@.contains_key(p)),
        r is Ok ==> forall|p: u64|
            is_page_aligned(p) && addr <= p < addr + total ==> !(#[trigger] old(
                page_tables,
            ).bootloader@.contains_key(p)),
        r == Err::<(), BootError>(BootError::FrameAllocationFailed) ==> (total as int + 4095)
            / 4096 > old(frame_allocator).remaining(),
        r == Err::<(), BootError>(BootError::PageAlreadyMapped) ==> exists|p: u64|
            is_page_aligned(p) && addr <= p < addr + total && (#[trigger] old(
                page_tables,
            ).kernel@.contains_key(p) || old(page_tables).bootloader@.contains_key(p)),
        r is Ok ==> forall|p: u64|
            !(is_page_aligned(p) && addr <= p < addr + total) ==> #[trigger] table_agrees_at(
                final(page_tables).kernel@,
                old(page_tables).kernel@,
                p,
            ),
        r is Ok ==> forall|p: u64|
            !(is_page_aligned(p) && addr <= p < addr + total) ==> #[trigger] table_agrees_at(
                final(page_tables).bootloader@,
                old(page_tables).bootloader@,
                p,
            ),
        r matches Err(e) ==> (e == BootError::FrameAllocationFailed || e
            == BootError::PageAlreadyMapped),
{
    let ghost pts0 = *old(page_tables);
    let ghost alloc0 = *old(frame_allocator);
    let ghost mem0 = old(memory)@;

    let flags = PageTableFlags { writable: true, no_execute: false };
    let window_end = addr + total;
    let mut page: u64 = addr;
    let ghost mut done: int = 0;

    #[verifier::loop_isolation(false)]
    while page < window_end
        invariant
            page_tables.wf(),
            page_tables.kernel_level_4_frame == pts0.kernel_level_4_frame,
            frame_allocator.wf(),
            memory.wf(),
            is_page_aligned(page),
            addr <= page,
            page <= align_up_page(window_end),
            done == (page - addr) / 4096,
            alloc_preserved(alloc0, *frame_allocator, memory@),
            frame_allocator.remaining() == alloc0.remaining() - done,
            mem_grown(mem0, memory@, alloc0, *frame_allocator),
            forall|p: u64|
                !(is_page_aligned(p) && addr <= p < page) ==> #[trigger] table_agrees_at(
                    page_tables.kernel@,
                    pts0.kernel@,
                    p,
                ),
            forall|p: u64|
                !(is_page_aligned(p) && addr <= p < page) ==> #[trigger] table_agrees_at(
                    page_tables.bootloader@,
                    pts0.bootloader@,
                    p,
                ),
            forall|q: u64|
                is_page_aligned(q) && addr <= q < page ==> !(#[trigger] pts0.kernel@.contains_key(
                    q,
                )),
            forall|q: u64|
                is_page_aligned(q) && addr <= q < page ==> !(
                #[trigger] pts0.bootloader@.contains_key(q)),
            forall|q: u64|
                is_page_aligned(q) && addr <= q < page ==> #[trigger] page_tables.kernel@.contains_key(
                    q,
                ) && page_tables.bootloader@.contains_key(q)
                    && page_tables.bootloader@[q].frame == page_tables.kernel@[q].frame
                    && page_tables.kernel@[q].flags == (PageTableFlags {
                    writable: true,
                    no_execute: false,
                }) && page_tables.bootloader@[q].flags == (PageTableFlags {
                    writable: true,
                    no_execute: false,
                }) && memory@.contains_key(page_tables.kernel@[q].frame)
                    && page_tables.kernel@[q].frame < frame_allocator.cursor(),
            forall|q1: u64, q2: u64|
                is_page_aligned(q1) && addr <= q1 < page && is_page_aligned(q2) && addr <= q2
                    < page && q1 != q2 ==> (#[trigger] page_tables.kernel@[q1]).frame != (
                #[trigger] page_tables.kernel@[q2]).frame,
        decreases window_end + 4095 - page,
    {
        let ghost cur_top = frame_allocator.cursor();
        let frame = match frame_allocator.allocate_frame() {
            Some(f) => f,
            None => {
                proof {
                    crate::pmm::lemma_remaining_nonneg(*frame_allocator);
                    assert(done + 1 <= (total + 4095) / 4096) by (nonlinear_arith)
                        requires
                            done == (page - addr) / 4096,
                            page % 4096 == 0,
                            addr % 4096 == 0,
                            addr <= page,
                            page < window_end,
                            window_end == addr + total,
                    ;
                    assert(!window_ready(pts0, alloc0, addr, total as int));
                }
                return Err(BootError::FrameAllocationFailed);
            },
        };
        proof {
            assert(!memory@.contains_key(frame));
        }
        memory.add_zero_frame(frame);
        let ghost k_top = page_tables.kernel@;
        let ghost b_top = page_tables.bootloader@;
        match page_tables.kernel.map_to(page, frame, flags) {
            Ok(()) => (),
            Err(_) => {
                proof {
                    assert(table_agrees_at(k_top, pts0.kernel@, page));
                    assert(pts0.kernel@.contains_key(page));
                    assert(is_page_aligned(page) && addr <= page < addr + total);
                    assert(!window_ready(pts0, alloc0, addr, total as int));
                }
                return Err(BootError::PageAlreadyMapped);
            },
        }
        match page_tables.bootloader.map_to(page, frame, flags) {
            Ok(()) => (),
            Err(_) => {
                proof {
                    assert(table_agrees_at(k_top, pts0.kernel@, page));
                    assert(table_agrees_at(b_top, pts0.bootloader@, page));
                    assert(pts0.bootloader@.contains_key(page));
                    assert(is_page_aligned(page) && addr <= page < addr + total);
                    assert(!window_ready(pts0, alloc0, addr, total as int));
                }
                return Err(BootError::PageAlreadyMapped);
            },
        }
        proof {
            assert(table_agrees_at(k_top, pts0.kernel@, page));
            assert(table_agrees_at(b_top, pts0.bootloader@, page));
            assert(!pts0.kernel@.contains_key(page) && !pts0.bootloader@.contains_key(page));
            assert forall|q: u64| is_page_aligned(q) && addr <= q < page implies
                #[trigger] page_tables.kernel@.contains_key(q) && k_top.contains_key(q)
                && b_top.contains_key(q) && page_tables.kernel@[q] == k_top[q]
                && page_tables.bootloader@.contains_key(q) && page_tables.bootloader@[q]
                == b_top[q] && memory@.contains_key(k_top[q].frame) && (k_top[q]).frame
                < cur_top by {
                assert(q != page);
                assert(k_top.contains_key(q));
            }
            assert(page_tables.kernel@[page].frame == frame);
            assert(page_tables.bootloader@[page].frame == frame);
            assert forall|q1: u64, q2: u64|
                is_page_aligned(q1) && addr <= q1 < page + 4096 && is_page_aligned(q2) && addr
                    <= q2 < page + 4096 && q1 != q2 implies (
            #[trigger] page_tables.kernel@[q1]).frame != (
            #[trigger] page_tables.kernel@[q2]).frame by {
                if q1 != page && q2 != page {
                    assert(q1 + 4096 <= page && q2 + 4096 <= page) by (nonlinear_arith)
                        requires
                            q1 % 4096 == 0,
                            q2 % 4096 == 0,
                            page % 4096 == 0,
                            q1 < page + 4096,
                            q2 < page + 4096,
                            q1 != page,
                            q2 != page,
                            addr <= q1,
                            addr <= q2,
                    ;
                    assert((k_top[q1]).frame != (k_top[q2]).frame);
                } else {
                    let qa = if q1 == page {
                        q2
                    } else {
                        q1
                    };
                    assert(qa != page);
                    assert(qa + 4096 <= page) by (nonlinear_arith)
                        requires
                            qa % 4096 == 0,
                            page % 4096 == 0,
                            qa < page + 4096,
                            qa != page,
                    ;
                    assert(k_top.contains_key(qa));
                    assert(page_tables.kernel@[qa] == k_top[qa]);
                    assert((k_top[qa]).frame < cur_top);
                    assert(frame >= cur_top);
                    assert(page_tables.kernel@[page].frame == frame);
                }
            }
            assert forall|p: u64|
                !(is_page_aligned(p) && addr <= p < page + 4096) implies #[trigger] table_agrees_at(
                page_tables.kernel@,
                pts0.kernel@,
                p,
            ) by {
                assert(table_agrees_at(k_top, pts0.kernel@, p));
                assert(p != page);
            }
            assert forall|p: u64|
                !(is_page_aligned(p) && addr <= p < page + 4096) implies #[trigger] table_agrees_at(
                page_tables.bootloader@,
                pts0.bootloader@,
                p,
            ) by {
                assert(table_agrees_at(b_top, pts0.bootloader@, p));
                assert(p != page);
            }
            assert(((page + 4096) - addr) / 4096 == done + 1) by (nonlinear_arith)
                requires
                    done == (page - addr) / 4096,
                    page % 4096 == 0,
                    addr % 4096 == 0,
                    addr <= page,
            ;
            assert(page + 4096 <= align_up_page(window_end)) by (nonlinear_arith)
                requires
                    page % 4096 == 0,
                    page < window_end,
                    align_up_page(window_end) == (window_end + 4095) / 4096 * 4096,
                    window_end + 4096 <= u64::MAX,
            ;
            done = done + 1;
        }
        page = page + 4096;
    }

    proof {
        assert forall|q: u64| is_page_aligned(q) && addr <= q < addr + total implies q < page by {
            assert(q < page) by (nonlinear_arith)
                requires
                    q % 4096 == 0,
                    q < window_end,
                    page >= window_end,
            ;
        }
        assert forall|p: u64|
            !(is_page_aligned(p) && addr <= p < addr + total) implies #[trigger] table_agrees_at(
            page_tables.kernel@,
            pts0.kernel@,
            p,
        ) && table_agrees_at(page_tables.bootloader@, pts0.bootloader@, p) by {
            if is_page_aligned(p) && addr <= p < page {
                assert(p + 4096 <= page) by (nonlinear_arith)
                    requires
                        p % 4096 == 0,
                        page % 4096 == 0,
                        p < page,
                ;
                assert(p < window_end) by (nonlinear_arith)
                    requires
                        p + 4096 <= page,
                        page <= align_up_page(window_end),
                        align_up_page(window_end) == (window_end + 4095) / 4096 * 4096,
                        window_end + 4096 <= u64::MAX,
                ;
                assert(false);
            } else {
                assert(table_agrees_at(page_tables.kernel@, pts0.kernel@, p));
                assert(table_agrees_at(page_tables.bootloader@, pts0.bootloader@, p));
            }
        }
    }
    Ok(())
}

/// Reserves a fresh top-level virtual region and maps freshly allocated,
/// zero-filled frames for the boot-information structure into both the
/// kernel and the loader address space at the same addresses, so the
/// loader can write it before the switch and the kernel can read it
/// after.
#[verifier::rlimit(100)]
pub fn allocate_boot_info_tag(
    page_tables: &mut crate::BootPageTables,
    frame_allocator: &mut BootFrameAllocator,
    memory: &mut PhysMemory,
    useable_entries: &mut crate::pmm::UsedLevel4Entries,
    region_count: usize,
) -> (r: Result<u64, BootError>)
    requires
        old(page_tables).wf(),
        old(frame_allocator).wf(),
        old(memory).wf(),
        old(useable_entries).wf(),
        fresh_frames_unmodeled(*old(frame_allocator), old(memory)@),
        region_count <= 0x10_0000,
    ensures
        final(page_tables).wf(),
        final(frame_allocator).wf(),
        final(memory).wf(),
        final(useable_entries).wf(),
        final(page_tables).kernel_level_4_frame == old(page_tables).kernel_level_4_frame,
        alloc_preserved(*old(frame_allocator), *final(frame_allocator), final(memory)@),
        mem_grown(old(memory)@, final(memory)@, *old(frame_allocator), *final(frame_allocator)),
        r == Err::<u64, BootError>(BootError::NoFreeSlots) <==> first_free_from(
            old(useable_entries)@,
            0,
        ) == 512,
        // success is owed when a slot is free, its window is clear in
        // both spaces, and enough frames remain
        ({
            let idx = first_free_from(old(useable_entries)@, 0);
            let base = canonical_base(idx as u64);
            idx < 512 && needed_boot_info_ok(
                *old(page_tables),
                *old(frame_allocator),
                base,
                region_count as int,
            )
        }) ==> r is Ok,
        match r {
            Ok(addr) => {
                let idx = first_free_from(old(useable_entries)@, 0);
                &&& idx < 512
                &&& addr == canonical_base(idx as u64)
                &&& is_page_aligned(addr)
                &&& addr + boot_info_bytes(region_count as int) + 4096 <= u64::MAX
                &&& final(useable_entries)@ == old(useable_entries)@.update(idx, true)
                &&& boot_info_window_mapped(
                    *final(page_tables),
                    final(memory)@,
                    addr,
                    region_count as int,
                )
                &&& forall|p: u64|
                    is_page_aligned(p) && addr <= p < addr + boot_info_bytes(region_count as int)
                        ==> !(#[trigger] old(page_tables).kernel@.contains_key(p))
                &&& forall|p: u64|
                    is_page_aligned(p) && addr <= p < addr + boot_info_bytes(region_count as int)
                        ==> !(#[trigger] old(page_tables).bootloader@.contains_key(p))
                &&& forall|p: u64|
                    !(is_page_aligned(p) && addr <= p < addr + boot_info_bytes(
                        region_count as int,
                    )) ==> #[trigger] table_agrees_at(
                        final(page_tables).kernel@,
                        old(page_tables).kernel@,
                        p,
                    )
                &&& forall|p: u64|
                    !(is_page_aligned(p) && addr <= p < addr + boot_info_bytes(
                        region_count as int,
                    )) ==> #[trigger] table_agrees_at(
                        final(page_tables).bootloader@,
                        old(page_tables).bootloader@,
                        p,
                    )
            },
            Err(e) => e == BootError::NoFreeSlots || e == BootError::FrameAllocationFailed || e
                == BootError::PageAlreadyMapped,
        },
        r == Err::<u64, BootError>(BootError::FrameAllocationFailed) ==> boot_info_pages(
            region_count as int,
        ) > old(frame_allocator).remaining(),
        r == Err::<u64, BootError>(BootError::PageAlreadyMapped) ==> exists|p: u64|
            is_page_aligned(p) && canonical_base(first_free_from(old(useable_entries)@, 0) as u64)
                <= p < canonical_base(first_free_from(old(useable_entries)@, 0) as u64)
                + boot_info_bytes(region_count as int) && (#[trigger] old(
                page_tables,
            ).kernel@.contains_key(p) || old(page_tables).bootloader@.contains_key(p)),
{
    let total: u64 = BOOT_INFO_HEADER_BYTES + (region_count as u64 + 1) * REGION_DESCRIPTOR_BYTES;
    let ghost used0 = old(useable_entries)@;
    let ghost pts0 = *old(page_tables);
    let ghost alloc0 = *old(frame_allocator);
    let ghost mem0 = old(memory)@;

    let addr = match useable_entries.get_free_address() {
        Some(a) => a,
        None => {
            proof {
                lemma_first_free_full(used0, 0);
            }
            return Err(BootError::NoFreeSlots);
        },
    };
    let ghost idx = choose|idx: u64|
        {
            &&& idx < 512
            &&& addr == canonical_base(idx)
            &&& used0[idx as int] == false
            &&& (forall|k: int| 0 <= k < idx ==> used0[k] == true)
            &&& useable_entries@ == used0.update(idx as int, true)
        };
    proof {
        lemma_first_free(used0, idx as u16);
        lemma_canonical_base_bounds(idx);
        assert(first_free_from(used0, 0) < 512);
        assert(total == boot_info_bytes(region_count as int));
        assert(addr + total + 4096 <= u64::MAX);
    }

    let flags_total = total;
    match map_boot_info_window(page_tables, frame_allocator, memory, addr, flags_total) {
        Ok(()) => (),
        Err(e) => {
            proof {
                assert(!needed_boot_info_ok(pts0, alloc0, addr, region_count as int));
            }
            return Err(e);
        },
    }
    Ok(addr)
}

/// The chosen window is clear in both spaces and enough frames remain
/// to back `total` bytes.
pub open spec fn window_ready(
    pts: crate::BootPageTables,
    alloc: BootFrameAllocator,
    base: u64,
    total: int,
) -> bool {
    &&& forall|p: u64|
        is_page_aligned(p) && base <= p < base + total ==> !(
        #[trigger] pts.kernel@.contains_key(p))
    &&& forall|p: u64|
        is_page_aligned(p) && base <= p < base + total ==> !(
        #[trigger] pts.bootloader@.contains_key(p))
    &&& (total + 4095) / 4096 <= alloc.remaining()
}

/// Every page of the window is mapped in both spaces to the same
/// modeled frame, with pairwise distinct frames.
pub open spec fn window_mapped(
    pts: crate::BootPageTables,
    mem: Map<u64, Seq<u8>>,
    base: u64,
    total: int,
) -> bool {
    &&& forall|q: u64|
        is_page_aligned(q) && base <= q < base + total ==> #[trigger] pts.kernel@.contains_key(q)
            && pts.bootloader@.contains_key(q) && pts.bootloader@[q].frame == pts.kernel@[q].frame
            && mem.contains_key(pts.kernel@[q].frame) && pts.kernel@[q].flags == (PageTableFlags {
            writable: true,
            no_execute: false,
        }) && pts.bootloader@[q].flags == (PageTableFlags { writable: true, no_execute: false })
    &&& forall|q1: u64, q2: u64|
        is_page_aligned(q1) && base <= q1 < base + total && is_page_aligned(q2) && base <= q2
            < base + total && q1 != q2 ==> (#[trigger] pts.kernel@[q1]).frame != (
        #[trigger] pts.kernel@[q2]).frame
}

/// A mapped window stays mapped over any prefix of itself.
proof fn lemma_window_shrink(
    pts: crate::BootPageTables,
    mem: Map<u64, Seq<u8>>,
    base: u64,
    big: int,
    small: int,
)
    requires
        0 <= small <= big,
        window_mapped(pts, mem, base, big),
    ensures
        window_mapped(pts, mem, base, small),
{
    assert forall|q: u64| is_page_aligned(q) && base <= q < base + small implies
        #[trigger] pts.kernel@.contains_key(q) && pts.bootloader@.contains_key(q)
        && pts.bootloader@[q].frame == pts.kernel@[q].frame && mem.contains_key(
        pts.kernel@[q].frame,
    ) && pts.kernel@[q].flags == (PageTableFlags { writable: true, no_execute: false })
        && pts.bootloader@[q].flags == (PageTableFlags { writable: true, no_execute: false }) by {
        assert(is_page_aligned(q) && base <= q < base + big);
        assert(pts.kernel@.contains_key(q));
    }
    assert forall|q1: u64, q2: u64|
        is_page_aligned(q1) && base <= q1 < base + small && is_page_aligned(q2) && base <= q2
            < base + small && q1 != q2 implies (#[trigger] pts.kernel@[q1]).frame != (
    #[trigger] pts.kernel@[q2]).frame by {
        assert(q1 < base + big && q2 < base + big);
    }
}

/// Success condition of the boot-info placement.
pub open spec fn needed_boot_info_ok(
    pts: crate::BootPageTables,
    alloc: BootFrameAllocator,
    base: u64,
    count: int,
) -> bool {
    window_ready(pts, alloc, base, boot_info_bytes(count))
}

/// What [`allocate_boot_info_tag`] establishes for the writer.
pub open spec fn boot_info_window_mapped(
    pts: crate::BootPageTables,
    mem: Map<u64, Seq<u8>>,
    base: u64,
    count: int,
) -> bool {
    window_mapped(pts, mem, base, boot_info_bytes(count))
}

/// Byte `k` of the little-endian encoding of `x`.
pub open spec fn u64_le_byte(x: u64, k: int) -> u8 {
    if k == 0 {
        (x % 256) as u8
    } else if k == 1 {
        ((x / 0x100) % 256) as u8
    } else if k == 2 {
        ((x / 0x1_0000) % 256) as u8
    } else if k == 3 {
        ((x / 0x100_0000) % 256) as u8
    } else if k == 4 {
        ((x / 0x1_0000_0000) % 256) as u8
    } else if k == 5 {
        ((x / 0x100_0000_0000) % 256) as u8
    } else if k == 6 {
        ((x / 0x1_0000_0000_0000) % 256) as u8
    } else if k == 7 {
        ((x / 0x100_0000_0000_0000) % 256) as u8
    } else {
        0
    }
}

/// The platform type code a region descriptor carries: zero for usable
/// memory, the firmware code otherwise.
pub open spec fn region_kind_code(k: MemoryRegionType) -> u32 {
    match k {
        MemoryRegionType::Usable => 0u32,
        MemoryRegionType::UnknownUefi(c) => c,
    }
}

/// Byte `i` of the boot-information structure at `addr`: the brand and
/// version strings zero-padded to 64 bytes each, the requested stack
/// pointer, the flags, the pointer and count of the descriptor array,
/// then one 24-byte descriptor per translated region.
pub open spec fn boot_info_payload_byte(
    addr: u64,
    brand: Seq<u8>,
    version: Seq<u8>,
    stack: u64,
    flags: u64,
    regs: Seq<MemoryRegion>,
    i: int,
) -> u8 {
    if i < 64 {
        if i < brand.len() {
            brand[i]
        } else {
            0
        }
    } else if i < 128 {
        if i - 64 < version.len() {
            version[i - 64]
        } else {
            0
        }
    } else if i < 136 {
        u64_le_byte(stack, i - 128)
    } else if i < 144 {
        u64_le_byte(flags, i - 136)
    } else if i < 152 {
        u64_le_byte((addr + 160) as u64, i - 144)
    } else if i < 160 {
        u64_le_byte(regs.len() as u64, i - 152)
    } else {
        let e = (i - 160) / 24;
        let o = (i - 160) % 24;
        if o < 8 {
            u64_le_byte(regs[e].start, o)
        } else if o < 16 {
            u64_le_byte(regs[e].end, o - 8)
        } else if o < 20 {
            u64_le_byte(region_kind_code(regs[e].kind) as u64, o - 16)
        } else {
            0
        }
    }
}

/// Executable counterpart of [`u64_le_byte`].
fn u64_le_byte_of(x: u64, k: u64) -> (r: u8)
    ensures
        r == u64_le_byte(x, k as int),
{
    if k == 0 {
        (x % 256) as u8
    } else if k == 1 {
        ((x / 0x100) % 256) as u8
    } else if k == 2 {
        ((x / 0x1_0000) % 256) as u8
    } else if k == 3 {
        ((x / 0x100_0000) % 256) as u8
    } else if k == 4 {
        ((x / 0x1_0000_0000) % 256) as u8
    } else if k == 5 {
        ((x / 0x100_0000_0000) % 256) as u8
    } else if k == 6 {
        ((x / 0x1_0000_0000_0000) % 256) as u8
    } else if k == 7 {
        ((x / 0x100_0000_0000_0000) % 256) as u8
    } else {
        0
    }
}

/// Executable counterpart of [`boot_info_payload_byte`].
fn boot_info_payload_byte_of(
    addr: u64,
    brand: &[u8],
    version: &[u8],
    stack: u64,
    flags: u64,
    regs: &Vec<MemoryRegion>,
    i: u64,
) -> (r: u8)
    requires
        brand@.len() <= 64,
        version@.len() <= 64,
        regs@.len() <= 0x10_0001,
        addr + 160 <= u64::MAX,
        i < 160 + regs@.len() * 24,
    ensures
        r == boot_info_payload_byte(addr, brand@, version@, stack, flags, regs@, i as int),
{
    if i < 64 {
        if (i as usize) < brand.len() {
            brand[i as usize]
        } else {
            0
        }
    } else if i < 128 {
        if (i as usize) - 64 < version.len() {
            version[(i as usize) - 64]
        } else {
            0
        }
    } else if i < 136 {
        u64_le_byte_of(stack, i - 128)
    } else if i < 144 {
        u64_le_byte_of(flags, i - 136)
    } else if i < 152 {
        u64_le_byte_of(addr + 160, i - 144)
    } else if i < 160 {
        u64_le_byte_of(regs.len() as u64, i - 152)
    } else {
        let e = (i - 160) / 24;
        let o = (i - 160) % 24;
        proof {
            assert((i - 160) / 24 < regs@.len()) by (nonlinear_arith)
                requires
                    160 <= i,
                    i < 160 + regs@.len() * 24,
            ;
        }
        let rg = regs[e as usize];
        let code: u32 = match rg.kind {
            MemoryRegionType::Usable => 0u32,
            MemoryRegionType::UnknownUefi(c) => c,
        };
        if o < 8 {
            u64_le_byte_of(rg.start, o)
        } else if o < 16 {
            u64_le_byte_of(rg.end, o - 8)
        } else if o < 20 {
            u64_le_byte_of(code as u64, o - 16)
        } else {
            0
        }
    }
}

/// Whether `b` is one of the frames backing the window.
pub open spec fn is_window_frame(
    pts: crate::BootPageTables,
    base: u64,
    total: int,
    b: u64,
) -> bool {
    exists|q: u64|
        is_page_aligned(q) && base <= q < base + total && (#[trigger] pts.kernel@[q]).frame == b
            && pts.kernel@.contains_key(q)
}

/// Writes the boot-information structure into its dual-mapped region
/// through the loader's own mapping: protocol header fields and the
/// translated memory-region descriptor array. Afterwards every byte of
/// the structure reads back identically through the loader and the
/// kernel address space, and no frame outside the window changed.
#[verifier::rlimit(100)]
pub fn write_boot_info(
    page_tables: &crate::BootPageTables,
    memory: &mut PhysMemory,
    addr: u64,
    brand: &[u8],
    version: &[u8],
    stack: u64,
    flags: u64,
    regions: &Vec<MemoryRegion>,
)
    requires
        page_tables.wf(),
        old(memory).wf(),
        brand@.len() <= 64,
        version@.len() <= 64,
        regions@.len() <= 0x10_0001,
        is_page_aligned(addr),
        addr + 160 + regions@.len() * 24 + 4096 <= u64::MAX,
        window_mapped(*page_tables, old(memory)@, addr, (160 + regions@.len() * 24) as int),
    ensures
        final(memory).wf(),
        forall|b: u64|
            #[trigger] final(memory)@.contains_key(b) == old(memory)@.contains_key(b),
        forall|b: u64|
            #[trigger] old(memory)@.contains_key(b) && !is_window_frame(
                *page_tables,
                addr,
                (160 + regions@.len() * 24) as int,
                b,
            ) ==> final(memory)@[b] == old(memory)@[b],
        forall|i: u64|
            i < 160 + regions@.len() * 24 ==> #[trigger] read_virt(
                page_tables.bootloader@,
                final(memory)@,
                (addr + i) as u64,
            ) == Some(
                boot_info_payload_byte(addr, brand@, version@, stack, flags, regions@, i as int),
            ),
        forall|i: u64|
            i < 160 + regions@.len() * 24 ==> #[trigger] read_virt(
                page_tables.kernel@,
                final(memory)@,
                (addr + i) as u64,
            ) == Some(
                boot_info_payload_byte(addr, brand@, version@, stack, flags, regions@, i as int),
            ),
{
    let ghost total: int = (160 + regions@.len() * 24) as int;
    let ghost mem0 = old(memory)@;
    let total_exec: u64 = 160 + (regions.len() as u64) * 24;
    let mut i: u64 = 0;

    #[verifier::loop_isolation(false)]
    while i < total_exec
        invariant
            memory.wf(),
            i <= total_exec,
            forall|b: u64| #[trigger] memory@.contains_key(b) == mem0.contains_key(b),
            forall|b: u64|
                #[trigger] mem0.contains_key(b) && !is_window_frame(*page_tables, addr, total, b)
                    ==> memory@[b] == mem0[b],
            forall|j: u64|
                j < i ==> #[trigger] read_virt(
                    page_tables.bootloader@,
                    memory@,
                    (addr + j) as u64,
                ) == Some(
                    boot_info_payload_byte(
                        addr,
                        brand@,
                        version@,
                        stack,
                        flags,
                        regions@,
                        j as int,
                    ),
                ),
        decreases total_exec - i,
    {
        let va = addr + i;
        let page = page_base_of(va);
        proof {
            crate::addr::lemma_page_base_props(va);
            lemma_page_base_mono(addr, va);
            lemma_page_base_range(addr, addr);
            assert(total == total_exec);
            assert(is_page_aligned(page) && addr <= page < addr + total);
            assert(page_tables.kernel@.contains_key(page));
            assert(page_tables.bootloader@.contains_key(page));
        }
        let m = match page_tables.bootloader.mapping_of(page) {
            Some(m) => m,
            None => {
                proof {
                    assert(false);
                }
                return ;
            },
        };
        proof {
            page_tables.bootloader.lemma_view_wf();
            memory.lemma_wf_view();
            assert(page_tables.kernel@.contains_key(page));
            assert(m.frame == page_tables.kernel@[page].frame);
            assert(mem0.contains_key(m.frame));
            assert(memory@.contains_key(m.frame));
            assert(m.frame + 4095 <= u64::MAX) by (nonlinear_arith)
                requires
                    m.frame % 4096 == 0,
                    m.frame <= u64::MAX,
            ;
        }
        let pa = m.frame + (va - page);
        let byte = boot_info_payload_byte_of(addr, brand, version, stack, flags, regions, i);
        let ghost mem_prev = memory@;
        proof {
            lemma_page_base_range(pa, m.frame);
        }
        memory.write_byte(pa, byte);
        proof {
            assert(is_window_frame(*page_tables, addr, total, m.frame)) by {
                assert(is_page_aligned(page) && addr <= page < addr + total
                    && page_tables.kernel@[page].frame == m.frame
                    && page_tables.kernel@.contains_key(page));
            }
            assert(read_virt(page_tables.bootloader@, memory@, va) == Some(byte)) by {
                assert(translate_spec(page_tables.bootloader@, va) == Some(pa));
            }
            assert forall|j: u64| j < i implies #[trigger] read_virt(
                page_tables.bootloader@,
                memory@,
                (addr + j) as u64,
            ) == Some(
                boot_info_payload_byte(addr, brand@, version@, stack, flags, regions@, j as int),
            ) by {
                let vj = (addr + j) as u64;
                crate::addr::lemma_page_base_props(vj);
                lemma_page_base_mono(addr, vj);
                lemma_page_base_range(addr, addr);
                let qj = page_base(vj);
                assert(is_page_aligned(qj) && addr <= qj < addr + total);
                assert(page_tables.kernel@.contains_key(qj));
                assert(page_tables.bootloader@.contains_key(qj));
                let fj = page_tables.bootloader@[qj].frame;
                assert(fj == page_tables.kernel@[qj].frame);
                assert(translate_spec(page_tables.bootloader@, vj) == Some(
                    (fj + (vj - qj)) as u64,
                ));
                let pj = (fj + (vj - qj)) as u64;
                assert(read_virt(page_tables.bootloader@, mem_prev, vj) == Some(
                    boot_info_payload_byte(
                        addr,
                        brand@,
                        version@,
                        stack,
                        flags,
                        regions@,
                        j as int,
                    ),
                ));
                lemma_page_base_range(pj, fj);
                if qj == page {
                    assert(fj == m.frame);
                    assert(vj != va);
                    assert(pj != pa);
                    assert(memory@[fj][pj - fj] == mem_prev[fj][pj - fj]);
                } else {
                    assert(fj != m.frame);
                    assert(memory@[fj] == mem_prev[fj]);
                }
            }
        }
        i += 1;
    }

    proof {
        // the kernel space sees the same frames, so the same bytes
        assert forall|j: u64| j < total implies #[trigger] read_virt(
            page_tables.kernel@,
            memory@,
            (addr + j) as u64,
        ) == Some(
            boot_info_payload_byte(addr, brand@, version@, stack, flags, regions@, j as int),
        ) by {
            let vj = (addr + j) as u64;
            crate::addr::lemma_page_base_props(vj);
            lemma_page_base_mono(addr, vj);
            let qj = page_base(vj);
            assert(is_page_aligned(qj) && addr <= qj < addr + total);
            assert(page_tables.kernel@.contains_key(qj) && page_tables.bootloader@.contains_key(
                qj,
            ));
            assert(page_tables.kernel@[qj].frame == page_tables.bootloader@[qj].frame);
            assert(read_virt(page_tables.bootloader@, memory@, vj) == Some(
                boot_info_payload_byte(addr, brand@, version@, stack, flags, regions@, j as int),
            ));
        }
    }
}

/// Byte `k` of the protocol header section's name, terminating NUL
/// included.
pub open spec fn protocol_section_name_byte(k: int) -> u8 {
    if k == 0 {
        46u8
    } else if k == 1 {
        115u8
    } else if k == 2 {
        116u8
    } else if k == 3 {
        105u8
    } else if k == 4 {
        118u8
    } else if k == 5 {
        97u8
    } else if k == 6 {
        108u8
    } else if k == 7 {
        101u8
    } else if k == 8 {
        50u8
    } else if k == 9 {
        104u8
    } else if k == 10 {
        100u8
    } else if k == 11 {
        114u8
    } else {
        0u8
    }
}

/// Executable counterpart of [`protocol_section_name_byte`].
fn protocol_section_name_byte_of(k: usize) -> (r: u8)
    ensures
        r == protocol_section_name_byte(k as int),
{
    if k == 0 {
        46
    } else if k == 1 {
        115
    } else if k == 2 {
        116
    } else if k == 3 {
        105
    } else if k == 4 {
        118
    } else if k == 5 {
        97
    } else if k == 6 {
        108
    } else if k == 7 {
        101
    } else if k == 8 {
        50
    } else if k == 9 {
        104
    } else if k == 10 {
        100
    } else if k == 11 {
        114
    } else {
        0
    }
}

/// The section table of a 64-bit image is readable: entries at least
/// the fixed size, the name-table index in range, the table inside the
/// image.
pub open spec fn section_table_ok(s: Seq<u8>) -> bool {
    &&& s.len() >= 64
    &&& le_bytes(s, 58, 2) >= 64
    &&& le_bytes(s, 62, 2) < le_bytes(s, 60, 2)
    &&& le_bytes(s, 40, 8) + le_bytes(s, 60, 2) * le_bytes(s, 58, 2) <= s.len()
}

/// Whether section `i` of the image carries the protocol header: its
/// name, read through the section-name string table, is the dedicated
/// section name.
pub open spec fn section_is_protocol_header(s: Seq<u8>, i: int) -> bool {
    let shoff = le_bytes(s, 40, 8);
    let es = le_bytes(s, 58, 2);
    let strtab = le_bytes(s, shoff + le_bytes(s, 62, 2) * es + 24, 8);
    let name_off = le_bytes(s, shoff + i * es, 4);
    &&& strtab + name_off + 13 <= s.len()
    &&& forall|k: int|
        0 <= k < 13 ==> s[strtab + name_off + k] == protocol_section_name_byte(k)
}

/// File offset of section `i`'s content.
pub open spec fn section_offset_of(s: Seq<u8>, i: int) -> int {
    le_bytes(s, le_bytes(s, 40, 8) + i * le_bytes(s, 58, 2) + 24, 8)
}

/// Size in bytes of section `i`'s content.
pub open spec fn section_size_of(s: Seq<u8>, i: int) -> int {
    le_bytes(s, le_bytes(s, 40, 8) + i * le_bytes(s, 58, 2) + 32, 8)
}

/// Walks the section table of a 64-bit image for the dedicated
/// protocol header section and returns its file offset and size. A
/// section whose name cannot be read inside the image does not match.
#[verifier::rlimit(100)]
pub fn locate_protocol_header(kernel: &[u8]) -> (r: Result<(u64, u64), BootError>)
    requires
        kernel@.len() >= 64,
    ensures
        r == Err::<(u64, u64), BootError>(BootError::HeaderSectionOutOfBounds)
            <==> !section_table_ok(kernel@),
        section_table_ok(kernel@) ==> (r == Err::<(u64, u64), BootError>(
            BootError::HeaderSectionMissing,
        ) <==> (forall|i: int|
            0 <= i < le_bytes(kernel@, 60, 2) ==> !section_is_protocol_header(kernel@, i))),
        r matches Ok(found) ==> exists|i: int|
            0 <= i < le_bytes(kernel@, 60, 2) && #[trigger] section_is_protocol_header(kernel@, i)
                && found.0 == section_offset_of(kernel@, i) && found.1 == section_size_of(
                kernel@,
                i,
            ),
        r matches Err(e) ==> (e == BootError::HeaderSectionOutOfBounds || e
            == BootError::HeaderSectionMissing),
{
    let len = kernel.len() as u64;
    let sh_off = crate::elf::read_u64_le(kernel, 40);
    let sh_entry_size = crate::elf::read_u16_le(kernel, 58) as u64;
    let sh_count = crate::elf::read_u16_le(kernel, 60) as u64;
    let sh_str_index = crate::elf::read_u16_le(kernel, 62) as u64;

    proof {
        assert(sh_count * sh_entry_size <= 0xFFFF * 0xFFFF) by (nonlinear_arith)
            requires
                sh_count <= 0xFFFF,
                sh_entry_size <= 0xFFFF,
        ;
    }
    if sh_entry_size < 64 || sh_str_index >= sh_count || sh_off > len || sh_count * sh_entry_size
        > len - sh_off {
        return Err(BootError::HeaderSectionOutOfBounds);
    }

    proof {
        assert(sh_off + sh_str_index * sh_entry_size + sh_entry_size <= len) by (nonlinear_arith)
            requires
                sh_str_index < sh_count,
                sh_off + sh_count * sh_entry_size <= len,
        ;
    }
    let strtab_base = sh_off + sh_str_index * sh_entry_size;
    let strtab_off = crate::elf::read_u64_le(kernel, (strtab_base + 24) as usize);

    let mut i: u64 = 0;
    #[verifier::loop_isolation(false)]
    while i < sh_count
        invariant
            i <= sh_count,
            forall|j: int| 0 <= j < i ==> !section_is_protocol_header(kernel@, j),
        decreases sh_count - i,
    {
        proof {
            assert(sh_off + i * sh_entry_size + sh_entry_size <= len) by (nonlinear_arith)
                requires
                    i < sh_count,
                    sh_off + sh_count * sh_entry_size <= len,
            ;
        }
        let sbase = sh_off + i * sh_entry_size;
        let name_off = crate::elf::read_u32_le(kernel, sbase as usize) as u64;

        let mut name_matches = false;
        if strtab_off <= len && name_off <= len - strtab_off && 13 <= len - strtab_off
            - name_off {
            let name_base = (strtab_off + name_off) as usize;
            name_matches = true;
            let mut k: usize = 0;
            #[verifier::loop_isolation(false)]
            while k < 13
                invariant
                    k <= 13,
                    name_base == strtab_off + name_off,
                    strtab_off + name_off + 13 <= kernel@.len(),
                    name_matches <==> (forall|j: int|
                        0 <= j < k ==> kernel@[name_base + j] == protocol_section_name_byte(j)),
                decreases 13 - k,
            {
                if kernel[name_base + k] != protocol_section_name_byte_of(k) {
                    name_matches = false;
                }
                k += 1;
            }
        }

        if name_matches {
            let off = crate::elf::read_u64_le(kernel, (sbase + 24) as usize);
            let size = crate::elf::read_u64_le(kernel, (sbase + 32) as usize);
            proof {
                assert(section_is_protocol_header(kernel@, i as int));
            }
            return Ok((off, size));
        }
        proof {
            assert(!section_is_protocol_header(kernel@, i as int));
        }
        i += 1;
    }
    Err(BootError::HeaderSectionMissing)
}

/// The terminal, non-owning handoff payload: constructed once by
/// [`boot`], consumed exactly once by the caller that performs the
/// irreversible register-level switch.
#[derive(Debug, Clone, Copy, PartialEq, Eq, Structural)]
pub struct SwitchContext {
    /// Physical frame of the kernel space's top-level table, to be
    /// loaded into the paging-base register.
    pub page_table: u64,
    /// The stack pointer the kernel requested, 16-byte aligned.
    pub stack_top: u64,
    /// The kernel's entry point virtual address.
    pub entry_point: u64,
    /// Virtual address of the boot-information structure, passed in the
    /// platform's first argument register.
    pub stivale_struct: u64,
}

/// The physical frame at `pa` is mapped read-write at virtual offset
/// `off + pa` in `pt`.
pub open spec fn physmap_entry(pt: Map<u64, PageMapping>, off: u64, pa: u64) -> bool {
    &&& pt.contains_key((off + pa) as u64)
    &&& pt[(off + pa) as u64] == (PageMapping {
        page: (off + pa) as u64,
        frame: pa,
        flags: PageTableFlags { writable: true, no_execute: false },
    })
}

/// The two pages holding the switch code at `addr` are identity-mapped
/// in `pt`, present only.
pub open spec fn trampoline_mapped(pt: Map<u64, PageMapping>, addr: u64) -> bool {
    &&& pt.contains_key(page_base(addr))
    &&& pt[page_base(addr)] == (PageMapping {
        page: page_base(addr),
        frame: page_base(addr),
        flags: PageTableFlags { writable: false, no_execute: false },
    })
    &&& pt.contains_key((page_base(addr) + 4096) as u64)
    &&& pt[(page_base(addr) + 4096) as u64] == (PageMapping {
        page: (page_base(addr) + 4096) as u64,
        frame: (page_base(addr) + 4096) as u64,
        flags: PageTableFlags { writable: false, no_execute: false },
    })
}

/// The brand string the loader writes into the boot information.
pub open spec fn loader_brand() -> Seq<u8> {
    seq![73u8, 111u8, 110u8]
}

/// All physical memory covered by the map is mapped read-write at
/// virtual offset `off`.
pub open spec fn physmap_window(
    pt: Map<u64, PageMapping>,
    off: u64,
    regions: Seq<MemoryRegion>,
) -> bool {
    forall|pa: u64|
        is_page_aligned(pa) && (exists|ri: int|
            0 <= ri < regions.len() && pa < (#[trigger] regions[ri]).end)
            ==> #[trigger] physmap_entry(pt, off, pa)
}

/// The boot-information payload reads back byte for byte at `base`
/// through the given space.
pub open spec fn boot_info_readable(
    pt: Map<u64, PageMapping>,
    mem: Map<u64, Seq<u8>>,
    base: u64,
    brand: Seq<u8>,
    version: Seq<u8>,
    stack: u64,
    fl: u64,
    regs: Seq<MemoryRegion>,
) -> bool {
    forall|j: u64|
        j < 160 + regs.len() * 24 ==> #[trigger] read_virt(pt, mem, (base + j) as u64) == Some(
            boot_info_payload_byte(base, brand, version, stack, fl, regs, j as int),
        )
}

/// Some translation of the firmware map, together with the protocol
/// fields, reads back as the boot-information payload at `base`.
pub open spec fn boot_info_present(
    pt: Map<u64, PageMapping>,
    mem: Map<u64, Seq<u8>>,
    base: u64,
    version: Seq<u8>,
    stack: u64,
    max_regs: int,
) -> bool {
    exists|regs: Seq<MemoryRegion>, fl: u64|
        regs.len() <= max_regs && #[trigger] boot_info_readable(
            pt,
            mem,
            base,
            loader_brand(),
            version,
            stack,
            fl,
            regs,
        )
}

/// The image frames backing the resident kernel bytes are all modeled.
pub open spec fn image_frames_present(mem: Map<u64, Seq<u8>>, ko: u64, len: int) -> bool {
    forall|b: u64|
        is_page_aligned(b) && ko <= b < ko + len ==> #[trigger] mem.contains_key(b)
}

/// Validates the stivale2 protocol preconditions of the kernel image,
/// loads its segments into the kernel address space, identity-maps the
/// switch code, maps all physical memory at a fresh top-level slot,
/// places and fills the boot-information structure, and hands back the
/// validated switch context. Every failure is fatal to the boot.
///
/// The irreversible control transfer itself — enabling the no-execute
/// and write-protect features, loading the paging base, switching the
/// stack and jumping — is hardware work the caller performs with the
/// returned context; it never returns.
#[verifier::rlimit(100)]
#[verifier::spinoff_prover]
pub fn boot(
    page_tables: &mut crate::BootPageTables,
    frame_allocator: &mut BootFrameAllocator,
    memory: &mut PhysMemory,
    kernel: &[u8],
    kernel_offset: u64,
    context_switch_addr: u64,
    version: &[u8],
) -> (r: Result<SwitchContext, BootError>)
    requires
        old(page_tables).wf(),
        old(frame_allocator).wf(),
        old(memory).wf(),
        fresh_frames_unmodeled(*old(frame_allocator), old(memory)@),
        image_frames_present(old(memory)@, kernel_offset, kernel@.len() as int),
        kernel_offset + kernel@.len() + 4096 <= u64::MAX,
        version@.len() <= 64,
        context_switch_addr + 8192 <= u64::MAX,
        old(frame_allocator).regions().len() > 0,
        old(frame_allocator).regions().len() <= 0x10_0000,
        forall|i: int|
            0 <= i < old(frame_allocator).regions().len() ==> (#[trigger] old(
                frame_allocator,
            ).regions()[i]).end <= 0x80_0000_0000,
    ensures
        final(page_tables).wf(),
        final(frame_allocator).wf(),
        final(memory).wf(),
        final(frame_allocator).regions() == old(frame_allocator).regions(),
        r == Err::<SwitchContext, BootError>(BootError::ImageMisaligned) <==> kernel_offset % 4096
            != 0,
        (kernel_offset % 4096 == 0 && kernel@.len() < 64) ==> r == Err::<
            SwitchContext,
            BootError,
        >(BootError::InvalidElf),
        r == Err::<SwitchContext, BootError>(BootError::UnsupportedArchitecture) ==> kernel@.len()
            >= 64 && !(kernel@[4] == 2 && le_bytes(kernel@, 18, 2) == 62),
        r == Err::<SwitchContext, BootError>(BootError::HeaderSectionOutOfBounds) ==> (
        kernel@.len() >= 64 && (!section_table_ok(kernel@) || exists|i: int|
            0 <= i < le_bytes(kernel@, 60, 2) && #[trigger] section_is_protocol_header(kernel@, i)
                && section_offset_of(kernel@, i) + 32 > kernel@.len())),
        r == Err::<SwitchContext, BootError>(BootError::HeaderSectionMissing) ==> (
        section_table_ok(kernel@) && forall|i: int|
            0 <= i < le_bytes(kernel@, 60, 2) ==> !section_is_protocol_header(kernel@, i)),
        r == Err::<SwitchContext, BootError>(BootError::HeaderSectionTooSmall) ==> exists|i: int|
            0 <= i < le_bytes(kernel@, 60, 2) && #[trigger] section_is_protocol_header(kernel@, i)
                && section_size_of(kernel@, i) < 32,
        r == Err::<SwitchContext, BootError>(BootError::HeaderSectionTooLarge) ==> exists|i: int|
            0 <= i < le_bytes(kernel@, 60, 2) && #[trigger] section_is_protocol_header(kernel@, i)
                && section_size_of(kernel@, i) > 32,
        r == Err::<SwitchContext, BootError>(BootError::StackMisaligned) ==> exists|i: int|
            0 <= i < le_bytes(kernel@, 60, 2) && #[trigger] section_is_protocol_header(kernel@, i)
                && le_bytes(kernel@, section_offset_of(kernel@, i) + 8, 8) % 16 != 0,
        r matches Ok(ctx) ==> ctx.stack_top % 16 == 0,
        r matches Ok(ctx) ==> ctx.page_table == final(page_tables).kernel_level_4_frame,
        r matches Ok(ctx) ==> is_page_aligned(ctx.stivale_struct),
        r matches Ok(ctx) ==> ctx.entry_point == le_bytes(kernel@, 24, 8),
        r matches Ok(ctx) ==> exists|i: int|
            0 <= i < le_bytes(kernel@, 60, 2) && #[trigger] section_is_protocol_header(kernel@, i)
                && section_size_of(kernel@, i) == 32 && ctx.stack_top == le_bytes(
                kernel@,
                section_offset_of(kernel@, i) + 8,
                8,
            ),
        r matches Ok(ctx) ==> trampoline_mapped(final(page_tables).kernel@, context_switch_addr),
        r matches Ok(ctx) ==> exists|off: u64|
            is_page_aligned(off) && #[trigger] physmap_window(
                final(page_tables).kernel@,
                off,
                old(frame_allocator).regions(),
            ),
        r matches Ok(ctx) ==> boot_info_present(
            final(page_tables).kernel@,
            final(memory)@,
            ctx.stivale_struct,
            version@,
            ctx.stack_top,
            (old(frame_allocator).regions().len() + 1) as int,
        ),
{
    // The loaded kernel image must sit page-aligned in physical memory.
    if kernel_offset % 4096 != 0 {
        return Err(BootError::ImageMisaligned);
    }
    if kernel.len() < 64 {
        return Err(BootError::InvalidElf);
    }

    if crate::elf::elf_parse_check(kernel).is_err() {
        return Err(BootError::InvalidElf);
    }

    // Only a 64-bit x86 image is a supported target: ELF class 2 and
    // machine type 62 in the identification fields.
    let class = kernel[4];
    let machine = crate::elf::read_u16_le(kernel, 18);
    if class != 2 || machine != 62 {
        return Err(BootError::UnsupportedArchitecture);
    }

    // The processor must actually support long mode.
    if !crate::cpu::long_mode_supported() {
        return Err(BootError::LongModeUnsupported);
    }

    // Table extents whose sums leave the address width can never fit
    // the image; reject them before the structural check assumes them.
    let ph_offset = crate::elf::read_u64_le(kernel, 32);
    let ph_entry_size = crate::elf::read_u16_le(kernel, 54);
    let ph_count = crate::elf::read_u16_le(kernel, 56);
    let sh_offset_field = crate::elf::read_u64_le(kernel, 40);
    let sh_entry_size_field = crate::elf::read_u16_le(kernel, 58);
    let sh_count_field = crate::elf::read_u16_le(kernel, 60);
    proof {
        assert(ph_count * ph_entry_size <= 0xFFFF * 0xFFFF && sh_count_field
            * sh_entry_size_field <= 0xFFFF * 0xFFFF) by (nonlinear_arith)
            requires
                ph_count <= 0xFFFF,
                ph_entry_size <= 0xFFFF,
                sh_count_field <= 0xFFFF,
                sh_entry_size_field <= 0xFFFF,
        ;
    }
    if ph_offset > u64::MAX - (ph_count as u64) * (ph_entry_size as u64) {
        return Err(BootError::SanityCheckFailed);
    }
    if sh_offset_field > u64::MAX - (sh_count_field as u64) * (sh_entry_size_field as u64) {
        return Err(BootError::SanityCheckFailed);
    }
    if crate::elf::elf_header_check(kernel).is_err() {
        return Err(BootError::SanityCheckFailed);
    }

    // Locate and validate the protocol header section.
    let located = match locate_protocol_header(kernel) {
        Ok(found) => found,
        Err(e) => {
            return Err(e);
        },
    };
    let section_offset = located.0;
    let section_size = located.1;
    let ghost sec_i = choose|i: int|
        0 <= i < le_bytes(kernel@, 60, 2) && #[trigger] section_is_protocol_header(kernel@, i)
            && located.0 == section_offset_of(kernel@, i) && located.1 == section_size_of(
            kernel@,
            i,
        );
    match validate_protocol_header(section_size, 0, 0, false) {
        Ok(()) => (),
        Err(e) => {
            proof {
                assert(section_is_protocol_header(kernel@, sec_i));
            }
            return Err(e);
        },
    }
    if section_offset > kernel.len() as u64 - 32 {
        proof {
            assert(section_is_protocol_header(kernel@, sec_i));
            assert(section_offset_of(kernel@, sec_i) + 32 > kernel@.len());
        }
        return Err(BootError::HeaderSectionOutOfBounds);
    }
    let stivale_stack = crate::elf::read_u64_le(kernel, section_offset as usize + 8);
    let stivale_flags = crate::elf::read_u64_le(kernel, section_offset as usize + 16);
    match validate_protocol_header(section_size, stivale_stack, stivale_flags, false) {
        Ok(()) => (),
        Err(e) => {
            proof {
                assert(section_is_protocol_header(kernel@, sec_i));
            }
            return Err(e);
        },
    }
    let entry_point = crate::elf::read_u64_le(kernel, 24);

    // Load every loadable segment of the image. The table position
    // must be 8-byte aligned in the file for the parser's typed reads.
    if (ph_entry_size as u64) < 56 || ph_offset % 8 != 0 || (ph_entry_size as u64) % 8 != 0 {
        return Err(BootError::ProgramHeaderInvalid);
    }
    if ph_offset > kernel.len() as u64 {
        return Err(BootError::ProgramHeaderInvalid);
    }
    proof {
        assert(ph_count * ph_entry_size <= 0xFFFF * 0xFFFF) by (nonlinear_arith)
            requires
                ph_count <= 0xFFFF,
                ph_entry_size <= 0xFFFF,
        ;
    }
    let ph_table_bytes = (ph_count as u64) * (ph_entry_size as u64);
    if ph_table_bytes > kernel.len() as u64 - ph_offset {
        return Err(BootError::ProgramHeaderInvalid);
    }
    proof {
        assert(crate::elf::header_sums_bounded(kernel@));
    }

    let mut segments: Vec<Segment> = Vec::new();
    let mut i: u16 = 0;
    #[verifier::loop_isolation(false)]
    while i < ph_count
        invariant
            page_tables.wf(),
            page_tables.kernel_level_4_frame == old(page_tables).kernel_level_4_frame,
            frame_allocator.wf(),
            memory.wf(),
            frame_allocator.regions() == old(frame_allocator).regions(),
            fresh_frames_unmodeled(*frame_allocator, memory@),
            image_frames_present(memory@, kernel_offset, kernel@.len() as int),
            forall|k: int|
                0 <= k < segments@.len() ==> (#[trigger] segments@[k]).virtual_addr
                    + segments@[k].mem_size <= u64::MAX,
        decreases ph_count - i,
    {
        proof {
            assert((i as u64) * (ph_entry_size as u64) + ph_entry_size <= (ph_count as u64) * (
            ph_entry_size as u64)) by (nonlinear_arith)
                requires
                    i < ph_count,
            ;
        }
        let ph_base = (ph_offset + (i as u64) * (ph_entry_size as u64)) as usize;
        proof {
            assert(ph_base + 56 <= kernel@.len());
        }
        let p_type = crate::elf::read_u32_le(kernel, ph_base);
        let p_flags = crate::elf::read_u32_le(kernel, ph_base + 4);
        let file_offset = crate::elf::read_u64_le(kernel, ph_base + 8);
        let virtual_addr = crate::elf::read_u64_le(kernel, ph_base + 16);
        let file_size = crate::elf::read_u64_le(kernel, ph_base + 32);
        let mem_size = crate::elf::read_u64_le(kernel, ph_base + 40);
        // a header whose offset and size sum past the address width can
        // never describe file content; reject it before the structural
        // check computes that sum
        if file_size > u64::MAX - file_offset {
            return Err(BootError::ProgramHeaderInvalid);
        }
        proof {
            let es = le_bytes(kernel@, 54, 2);
            let po = le_bytes(kernel@, 32, 8);
            assert((i as int + 1) * es == i as int * es + es) by (nonlinear_arith);
            assert(ph_base == po + i as int * es);
            assert(crate::elf::program_header_access_ok(kernel@, i as int));
        }
        if crate::elf::elf_program_header_check(kernel, i).is_err() {
            return Err(BootError::ProgramHeaderInvalid);
        }
        if p_type == 1 {
            let segment = Segment {
                virtual_addr,
                file_offset,
                file_size,
                mem_size,
                readable: p_flags & 4 != 0,
                writable: p_flags & 2 != 0,
                executable: p_flags & 1 != 0,
            };
            // reject geometry the mapper cannot honor
            if file_size > mem_size || virtual_addr % 4096 != file_offset % 4096 || (file_size
                == 0 && virtual_addr % 4096 != 0) || virtual_addr < 4096 {
                return Err(BootError::ProgramHeaderInvalid);
            }
            if virtual_addr > u64::MAX - 4096 || mem_size > u64::MAX - 4096 - virtual_addr {
                return Err(BootError::ProgramHeaderInvalid);
            }
            if file_offset > kernel.len() as u64 || file_size > kernel.len() as u64
                - file_offset {
                return Err(BootError::ProgramHeaderInvalid);
            }
            proof {
                assert(segment_geometry_ok(segment, kernel_offset));
                assert(file_frames_present(
                    memory@,
                    seg_phys_start(segment, kernel_offset),
                    segment.file_size as int,
                )) by {
                    assert forall|b: u64|
                        is_page_aligned(b) && page_base(
                            (kernel_offset + segment.file_offset) as u64,
                        ) <= b && segment.file_size > 0 && b < kernel_offset + segment.file_offset
                            + segment.file_size implies #[trigger] memory@.contains_key(b) by {
                        lemma_page_base_range(kernel_offset, kernel_offset);
                        lemma_page_base_mono(
                            kernel_offset,
                            (kernel_offset + segment.file_offset) as u64,
                        );
                        assert(kernel_offset <= b && b < kernel_offset + kernel@.len());
                    }
                }
            }
            let ghost mem_pre = memory@;
            match handle_load_segment(
                &segment,
                kernel_offset,
                &mut page_tables.kernel,
                frame_allocator,
                memory,
            ) {
                Ok(()) => (),
                Err(e) => {
                    return Err(e);
                },
            }
            proof {
                assert forall|b: u64|
                    is_page_aligned(b) && kernel_offset <= b < kernel_offset + kernel@.len()
                        implies #[trigger] memory@.contains_key(b) by {
                    assert(mem_pre.contains_key(b));
                }
            }
            segments.push(segment);
        }
        i += 1;
    }

    // Identity-map the switch code so the instructions after the
    // address-space switch keep executing.
    let cs_frame = page_base_of(context_switch_addr);
    let trampoline_flags = PageTableFlags { writable: false, no_execute: false };
    match page_tables.kernel.identity_map(cs_frame, trampoline_flags) {
        Ok(()) => (),
        Err(_) => {
            return Err(BootError::PageAlreadyMapped);
        },
    }
    match page_tables.kernel.identity_map(cs_frame + 4096, trampoline_flags) {
        Ok(()) => (),
        Err(_) => {
            return Err(BootError::PageAlreadyMapped);
        },
    }
    proof {
        assert(trampoline_mapped(page_tables.kernel@, context_switch_addr));
    }

    // Mark the top-level entries the image claims, then map all of
    // physical memory at a fresh slot so the kernel can reach it. The
    // window is built from 4096-byte pages; huge pages would cover the
    // same range with far fewer entries, at the price of a second entry
    // size in the address-space model.
    let mut useable_entries = crate::pmm::UsedLevel4Entries::new(&segments);
    let ghost used_before = useable_entries@;
    let physmap_base = match useable_entries.get_free_address() {
        Some(a) => a,
        None => {
            return Err(BootError::NoFreeSlots);
        },
    };
    let ghost physmap_idx = choose|idx: u64|
        {
            &&& idx < 512
            &&& physmap_base == canonical_base(idx)
            &&& useable_entries@ == used_before.update(idx as int, true)
        };
    let max_phys = frame_allocator.max_phys_addr();
    proof {
        lemma_canonical_base_bounds(physmap_idx);
        assert(max_phys <= 0x80_0000_0000);
        assert(canonical_base(physmap_idx) <= 0xFFFF_FF80_0000_0000) by (nonlinear_arith)
            requires
                physmap_idx < 512,
                canonical_base(physmap_idx) == (if physmap_idx < 256 {
                    (physmap_idx * 0x80_0000_0000) as u64 as int
                } else {
                    (physmap_idx * 0x80_0000_0000 + 0xFFFF_0000_0000_0000) as u64 as int
                }),
        ;
    }
    let physmap_flags = PageTableFlags { writable: true, no_execute: false };
    let mut pa: u64 = 0;
    #[verifier::loop_isolation(false)]
    while pa < max_phys
        invariant
            page_tables.wf(),
            page_tables.kernel_level_4_frame == old(page_tables).kernel_level_4_frame,
            frame_allocator.wf(),
            memory.wf(),
            frame_allocator.regions() == old(frame_allocator).regions(),
            fresh_frames_unmodeled(*frame_allocator, memory@),
            is_page_aligned(pa),
            pa <= 0x80_0000_0000,
            max_phys <= 0x80_0000_0000,
            physmap_base <= 0xFFFF_FF80_0000_0000,
            is_page_aligned(physmap_base),
            trampoline_mapped(page_tables.kernel@, context_switch_addr),
            forall|pa2: u64|
                is_page_aligned(pa2) && pa2 < pa ==> #[trigger] physmap_entry(
                    page_tables.kernel@,
                    physmap_base,
                    pa2,
                ),
        decreases max_phys + 4096 - pa,
    {
        let ghost k_snap = page_tables.kernel@;
        proof {
            crate::addr::lemma_page_base_range(physmap_base, physmap_base);
            assert(is_page_aligned((physmap_base + pa) as u64)) by (nonlinear_arith)
                requires
                    physmap_base % 4096 == 0,
                    pa % 4096 == 0,
                    physmap_base + pa <= u64::MAX,
            ;
        }
        match page_tables.kernel.map_to(physmap_base + pa, pa, physmap_flags) {
            Ok(()) => (),
            Err(_) => {
                return Err(BootError::PageAlreadyMapped);
            },
        }
        proof {
            assert(trampoline_mapped(k_snap, context_switch_addr));
            assert(physmap_entry(page_tables.kernel@, physmap_base, pa));
            assert forall|pa2: u64| is_page_aligned(pa2) && pa2 < pa + 4096 implies
                #[trigger] physmap_entry(page_tables.kernel@, physmap_base, pa2) by {
                if pa2 != pa {
                    assert(physmap_entry(k_snap, physmap_base, pa2));
                }
            }
        }
        pa = pa + 4096;
    }
    proof {
        assert forall|pa2: u64|
            is_page_aligned(pa2) && (exists|ri: int|
                0 <= ri < frame_allocator.regions().len() && pa2 < (
                #[trigger] frame_allocator.regions()[ri]).end) implies #[trigger] physmap_entry(
            page_tables.kernel@,
            physmap_base,
            pa2,
        ) by {
            let ri = choose|ri: int|
                0 <= ri < frame_allocator.regions().len() && pa2 < (
                #[trigger] frame_allocator.regions()[ri]).end;
            assert(frame_allocator.regions()[ri].end <= max_phys);
            assert(pa2 < pa);
        }
        assert(physmap_window(page_tables.kernel@, physmap_base, frame_allocator.regions()));
    }

    // Place the boot-information structure, visible in both spaces.
    let ghost k_pre_info = page_tables.kernel@;
    let region_count = frame_allocator.len();
    let boot_info_addr = match allocate_boot_info_tag(
        page_tables,
        frame_allocator,
        memory,
        &mut useable_entries,
        region_count,
    ) {
        Ok(a) => a,
        Err(e) => {
            return Err(e);
        },
    };

    proof {
        // the window pages were free beforehand, so everything already
        // mapped survives the dual mapping untouched
        let csa = context_switch_addr;
        assert(table_agrees_at(page_tables.kernel@, k_pre_info, page_base(csa)));
        assert(table_agrees_at(page_tables.kernel@, k_pre_info, (page_base(csa) + 4096) as u64));
        assert(trampoline_mapped(page_tables.kernel@, csa));
        assert forall|pa2: u64|
            is_page_aligned(pa2) && (exists|ri: int|
                0 <= ri < frame_allocator.regions().len() && pa2 < (
                #[trigger] frame_allocator.regions()[ri]).end) implies #[trigger] physmap_entry(
            page_tables.kernel@,
            physmap_base,
            pa2,
        ) by {
            assert(physmap_entry(k_pre_info, physmap_base, pa2));
            assert(k_pre_info.contains_key((physmap_base + pa2) as u64));
            assert(table_agrees_at(
                page_tables.kernel@,
                k_pre_info,
                (physmap_base + pa2) as u64,
            ));
        }
        assert(physmap_window(page_tables.kernel@, physmap_base, frame_allocator.regions()));
    }

    // Fill it: brand, version, stack, flags, and the translated map.
    let mut brand: Vec<u8> = Vec::new();
    brand.push(73);
    brand.push(111);
    brand.push(110);
    let translated = translate_memory_map(
        frame_allocator.memory_map(),
        frame_allocator.next_frame_addr(),
    );
    proof {
        frame_allocator.lemma_wf_regions();
        lemma_translate_count(frame_allocator.regions(), frame_allocator.cursor());
        assert(translated@.len() <= region_count + 1);
        assert(boot_info_window_mapped(*page_tables, memory@, boot_info_addr, region_count as int));
        assert(window_mapped(
            *page_tables,
            memory@,
            boot_info_addr,
            boot_info_bytes(region_count as int),
        ));
        lemma_window_shrink(
            *page_tables,
            memory@,
            boot_info_addr,
            boot_info_bytes(region_count as int),
            (160 + translated@.len() * 24) as int,
        );
    }
    write_boot_info(
        page_tables,
        memory,
        boot_info_addr,
        brand.as_slice(),
        version,
        stivale_stack,
        stivale_flags,
        &translated,
    );
    proof {
        assert(brand@ =~= loader_brand());
        assert(frame_allocator.regions() == old(frame_allocator).regions());
        assert(translated@.len() <= old(frame_allocator).regions().len() + 1);
        assert(section_is_protocol_header(kernel@, sec_i));
        assert(is_page_aligned(physmap_base));
        assert(physmap_window(page_tables.kernel@, physmap_base, frame_allocator.regions()));
        assert(boot_info_readable(
            page_tables.kernel@,
            memory@,
            boot_info_addr,
            loader_brand(),
            version@,
            stivale_stack,
            stivale_flags,
            translated@,
        )) by {
            assert forall|j: u64| j < 160 + translated@.len() * 24 implies #[trigger] read_virt(
                page_tables.kernel@,
                memory@,
                (boot_info_addr + j) as u64,
            ) == Some(
                boot_info_payload_byte(
                    boot_info_addr,
                    loader_brand(),
                    version@,
                    stivale_stack,
                    stivale_flags,
                    translated@,
                    j as int,
                ),
            ) by {}
        }
    }

    let switch_context = SwitchContext {
        page_table: page_tables.kernel_level_4_frame,
        stack_top: stivale_stack,
        entry_point,
        stivale_struct: boot_info_addr,
    };
    proof {
        assert(boot_info_present(
            page_tables.kernel@,
            memory@,
            switch_context.stivale_struct,
            version@,
            switch_context.stack_top,
            (old(frame_allocator).regions().len() + 1) as int,
        )) by {
            assert(boot_info_readable(
                page_tables.kernel@,
                memory@,
                switch_context.stivale_struct,
                loader_brand(),
                version@,
                switch_context.stack_top,
                stivale_flags,
                translated@,
            ));
        }
    }
    Ok(switch_context)
}

} // verus!
