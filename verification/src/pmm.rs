//! Physical memory management: the boot frame allocator and the tracker of
//! free top-level page-table entries.
//!
//! The allocator walks a firmware memory map (a sorted, page-granular,
//! non-overlapping sequence of regions) with a monotonically non-decreasing
//! cursor and hands out unique 4096-byte frames from `Usable` regions only.
//! Frame 0 is never handed out: the cursor starts at 0x1000 so the zero
//! page stays a null-address guard.

use vstd::prelude::*;

use crate::addr::{is_page_aligned, page_base, top_level_index_of, canonical_base_of, canonical_base, top_level_index};
use crate::elf::Segment;

verus! {

/// Classification of one firmware memory region.
#[derive(Debug, Copy, Clone, Eq, PartialEq, Structural)]
pub enum MemoryRegionType {
    /// Unused conventional memory, free for the allocator to hand out.
    Usable,
    /// Any other firmware-defined region class, with its platform type code.
    UnknownUefi(u32),
}

/// A physical memory region with exclusive end address.
#[derive(Debug, Copy, Clone, Eq, PartialEq, Structural)]
pub struct MemoryRegion {
    /// The physical start address of the region.
    pub start: u64,
    /// The physical end address (exclusive) of the region.
    pub end: u64,
    /// The memory type of the memory region.
    pub kind: MemoryRegionType,
}

/// Whether a region may be used for allocation.
pub open spec fn region_usable(r: MemoryRegion) -> bool {
    r.kind == MemoryRegionType::Usable
}

/// A single region as the firmware map delivers it: non-empty and
/// page-granular.
pub open spec fn region_wf(r: MemoryRegion) -> bool {
    &&& r.start < r.end
    &&& is_page_aligned(r.start)
    &&& is_page_aligned(r.end)
}

/// The firmware memory map contract the allocator relies on: every region
/// well-formed, regions sorted by address and non-overlapping.
pub open spec fn regions_wf(s: Seq<MemoryRegion>) -> bool {
    &&& forall|i: int| 0 <= i < s.len() ==> region_wf(#[trigger] s[i])
    &&& forall|i: int, j: int| 0 <= i < j < s.len() ==> #[trigger] s[i].end <= #[trigger] s[j].start
}

/// Whether the frame at base `b` lies entirely inside some usable region.
pub open spec fn frame_in_usable(s: Seq<MemoryRegion>, b: u64) -> bool {
    exists|i: int|
        0 <= i < s.len() && region_usable(#[trigger] s[i]) && s[i].start <= b && b + 4096
            <= s[i].end
}

/// The larger of two frame addresses.
pub open spec fn max_u64(a: u64, b: u64) -> u64 {
    if a < b {
        b
    } else {
        a
    }
}

/// The base of the last frame that starts inside the region: frames are
/// handed out strictly below this address.
pub open spec fn end_frame(r: MemoryRegion) -> u64 {
    page_base((r.end - 1) as u64)
}

/// How many frames the cursor `f` can still obtain from region `r`.
/// The walk hands out frames strictly below the region's end frame and
/// discards the region once the cursor reaches it, so a region of `n`
/// frames yields at most `n - 1`.
pub open spec fn region_cap(f: u64, r: MemoryRegion) -> int {
    let s = max_u64(f, r.start);
    if s < end_frame(r) {
        (end_frame(r) - s) / 4096
    } else {
        0
    }
}

/// Where the cursor stands once region `r` has been exhausted, starting
/// from cursor `f`.
pub open spec fn cursor_after(f: u64, r: MemoryRegion) -> u64 {
    max_u64(f, end_frame(r))
}

/// Total number of frames still obtainable from the regions at indices
/// `i..` of `regions`, entering with cursor `f`.
pub open spec fn capacity_from(regions: Seq<MemoryRegion>, i: int, f: u64) -> int
    decreases regions.len() - i,
{
    if i < 0 || i >= regions.len() {
        0
    } else if region_usable(regions[i]) {
        region_cap(f, regions[i]) + capacity_from(regions, i + 1, cursor_after(f, regions[i]))
    } else {
        capacity_from(regions, i + 1, f)
    }
}

/// For a well-formed region, the end frame is exactly one page below the
/// region end, and at or above the region start.
proof fn lemma_end_frame(r: MemoryRegion)
    requires
        region_wf(r),
    ensures
        end_frame(r) == r.end - 4096,
        r.start <= end_frame(r),
        is_page_aligned(end_frame(r)),
{
    assert((r.end - 1) as u64 / 4096 * 4096 == r.end - 4096) by (nonlinear_arith)
        requires
            r.end % 4096 == 0,
            r.end >= 1,
    ;
    assert(r.start <= r.end - 4096) by (nonlinear_arith)
        requires
            r.start % 4096 == 0,
            r.end % 4096 == 0,
            r.start < r.end,
    ;
    assert((r.end - 4096) as u64 % 4096 == 0) by (nonlinear_arith)
        requires
            r.end % 4096 == 0,
            r.end >= 4096,
    ;
}

/// Taking one frame out of a region with spare capacity: the frame fits in
/// the region, the capacity drops by one and the final cursor is unchanged.
proof fn lemma_cap_step(f: u64, r: MemoryRegion)
    requires
        region_wf(r),
        is_page_aligned(f),
        region_cap(f, r) > 0,
    ensures
        r.start <= max_u64(f, r.start),
        max_u64(f, r.start) + 4096 <= r.end,
        is_page_aligned((max_u64(f, r.start) + 4096) as u64),
        region_cap((max_u64(f, r.start) + 4096) as u64, r) == region_cap(f, r) - 1,
        cursor_after((max_u64(f, r.start) + 4096) as u64, r) == cursor_after(f, r),
        max_u64(f, r.start) < end_frame(r),
{
    lemma_end_frame(r);
    let b = max_u64(f, r.start);
    let ef = end_frame(r);
    assert(b < ef);
    assert(b % 4096 == 0);
    assert(b + 4096 <= ef) by (nonlinear_arith)
        requires
            b % 4096 == 0,
            ef % 4096 == 0,
            b < ef,
    ;
    assert((ef - (b + 4096)) / 4096 == (ef - b) / 4096 - 1) by (nonlinear_arith)
        requires
            b % 4096 == 0,
            ef % 4096 == 0,
            b + 4096 <= ef,
    ;
    assert(region_cap((b + 4096) as u64, r) == region_cap(f, r) - 1);
    assert(cursor_after((b + 4096) as u64, r) == ef);
    assert(cursor_after(f, r) == ef);
}

/// A region without spare capacity leaves the cursor where exhausting the
/// region would leave it.
proof fn lemma_cap_none(f: u64, r: MemoryRegion)
    requires
        region_wf(r),
        is_page_aligned(f),
        region_cap(f, r) == 0,
    ensures
        max_u64(f, r.start) == cursor_after(f, r),
{
    lemma_end_frame(r);
}

/// Capacity is never negative.
proof fn lemma_capacity_nonneg(regions: Seq<MemoryRegion>, i: int, f: u64)
    ensures
        capacity_from(regions, i, f) >= 0,
    decreases regions.len() - i,
{
    if 0 <= i < regions.len() {
        if region_usable(regions[i]) {
            lemma_capacity_nonneg(regions, i + 1, cursor_after(f, regions[i]));
        } else {
            lemma_capacity_nonneg(regions, i + 1, f);
        }
    }
}

/// Turns a firmware memory map into a stream of unique physical frames.
pub struct BootFrameAllocator {
    regions: Vec<MemoryRegion>,
    next_index: usize,
    current_descriptor: Option<MemoryRegion>,
    next_frame: u64,
    allocated: Ghost<Seq<u64>>,
}

impl BootFrameAllocator {
    /// The full memory map the allocator was built from.
    pub closed spec fn regions(self) -> Seq<MemoryRegion> {
        self.regions@
    }

    /// The monotonically non-decreasing cursor: every frame handed out so
    /// far lies below it, every future frame at or above it.
    pub closed spec fn cursor(self) -> u64 {
        self.next_frame
    }

    /// The history of frames handed out, oldest first.
    pub closed spec fn allocated(self) -> Seq<u64> {
        self.allocated@
    }

    /// Structural invariant of the allocator.
    pub closed spec fn wf(self) -> bool {
        &&& regions_wf(self.regions@)
        &&& self.next_index <= self.regions@.len()
        &&& is_page_aligned(self.next_frame)
        &&& self.next_frame >= 0x1000
        &&& match self.current_descriptor {
            Some(d) => {
                &&& self.next_index >= 1
                &&& d == self.regions@[self.next_index - 1]
                &&& region_usable(d)
                &&& region_wf(d)
                &&& d.start < self.next_frame
            },
            None => true,
        }
        &&& forall|k: int|
            0 <= k < self.allocated@.len() ==> frame_in_usable(
                self.regions@,
                #[trigger] self.allocated@[k],
            )
        &&& forall|k: int|
            0 <= k < self.allocated@.len() ==> is_page_aligned(#[trigger] self.allocated@[k])
                && self.allocated@[k] >= 0x1000 && self.allocated@[k] < self.next_frame
        &&& forall|k1: int, k2: int|
            0 <= k1 < k2 < self.allocated@.len() ==> #[trigger] self.allocated@[k1]
                < #[trigger] self.allocated@[k2]
    }

    /// Number of frames the allocator can still hand out.
    pub closed spec fn remaining(self) -> int {
        match self.current_descriptor {
            Some(d) => region_cap(self.next_frame, d) + capacity_from(
                self.regions@,
                self.next_index as int,
                cursor_after(self.next_frame, d),
            ),
            None => capacity_from(self.regions@, self.next_index as int, self.next_frame),
        }
    }

    /// Builds an allocator over the given firmware memory map.
    ///
    /// The map must obey the firmware collaborator contract stated by
    /// [`regions_wf`]: sorted, page-granular, non-overlapping regions.
    pub fn new(memory_map: Vec<MemoryRegion>) -> (r: Self)
        requires
            regions_wf(memory_map@),
        ensures
            r.wf(),
            r.regions() == memory_map@,
            r.allocated() == Seq::<u64>::empty(),
            r.cursor() == 0x1000,
            r.remaining() == capacity_from(memory_map@, 0, 0x1000),
    {
        BootFrameAllocator {
            regions: memory_map,
            next_index: 0,
            current_descriptor: None,
            next_frame: 0x1000,
            allocated: Ghost(Seq::empty()),
        }
    }

    /// The untouched firmware memory map the allocator walks.
    pub fn memory_map(&self) -> (r: &Vec<MemoryRegion>)
        ensures
            r@ == self.regions(),
    {
        &self.regions
    }

    /// The current allocation cursor address.
    pub fn next_frame_addr(&self) -> (r: u64)
        ensures
            r == self.cursor(),
    {
        self.next_frame
    }

    /// A well-formed allocator walks a well-formed map.
    pub proof fn lemma_wf_regions(self)
        requires
            self.wf(),
        ensures
            regions_wf(self.regions()),
    {
    }

    /// Returns the number of memory regions in the underlying memory map.
    ///
    /// The value never changes over the allocator's lifetime.
    pub fn len(&self) -> (r: usize)
        ensures
            r == self.regions().len(),
    {
        self.regions.len()
    }

    /// Returns the largest detected physical memory address: the maximum
    /// region end over the whole map. Useful for sizing a mapping that
    /// covers all physical memory.
    pub fn max_phys_addr(&self) -> (r: u64)
        requires
            self.regions().len() > 0,
        ensures
            forall|i: int| 0 <= i < self.regions().len() ==> #[trigger] self.regions()[i].end <= r,
            exists|i: int| 0 <= i < self.regions().len() && r == #[trigger] self.regions()[i].end,
    {
        let mut best: u64 = self.regions[0].end;
        let mut i: usize = 1;
        while i < self.regions.len()
            invariant
                1 <= i <= self.regions@.len(),
                forall|k: int| 0 <= k < i ==> #[trigger] self.regions@[k].end <= best,
                exists|k: int| 0 <= k < i && best == #[trigger] self.regions@[k].end,
            decreases self.regions@.len() - i,
        {
            if self.regions[i].end > best {
                best = self.regions[i].end;
            }
            i += 1;
        }
        best
    }

    /// One allocation attempt against a single region: bumps the cursor to
    /// the region start if it lags behind, then hands out the cursor frame
    /// if one still fits strictly below the region's end frame.
    pub fn allocate_frame_from_descriptor(&mut self, descriptor: MemoryRegion) -> (r: Option<u64>)
        requires
            old(self).wf(),
            region_wf(descriptor),
            region_usable(descriptor),
            exists|i: int|
                0 <= i < old(self).regions().len() && #[trigger] old(self).regions()[i]
                    == descriptor,
        ensures
            final(self).wf(),
            final(self).regions() == old(self).regions(),
            final(self).current_descriptor_spec() == old(self).current_descriptor_spec(),
            final(self).next_index_spec() == old(self).next_index_spec(),
            r is Some <==> region_cap(old(self).cursor(), descriptor) > 0,
            match r {
                Some(b) => {
                    &&& b == max_u64(old(self).cursor(), descriptor.start)
                    &&& is_page_aligned(b)
                    &&& b >= 0x1000
                    &&& old(self).cursor() <= b
                    &&& descriptor.start <= b
                    &&& b + 4096 <= descriptor.end
                    &&& final(self).cursor() == b + 4096
                    &&& final(self).allocated() == old(self).allocated().push(b)
                    &&& region_cap(final(self).cursor(), descriptor) == region_cap(
                        old(self).cursor(),
                        descriptor,
                    ) - 1
                    &&& cursor_after(final(self).cursor(), descriptor) == cursor_after(
                        old(self).cursor(),
                        descriptor,
                    )
                },
                None => {
                    &&& final(self).cursor() == max_u64(old(self).cursor(), descriptor.start)
                    &&& final(self).cursor() == cursor_after(old(self).cursor(), descriptor)
                    &&& final(self).allocated() == old(self).allocated()
                },
            },
    {
        let ghost f0 = self.next_frame;
        let start_frame = descriptor.start;
        let end_frame_addr = crate::addr::page_base_of(descriptor.end - 1);
        proof {
            lemma_end_frame(descriptor);
        }

        if self.next_frame < start_frame {
            self.next_frame = start_frame;
        }

        if self.next_frame < end_frame_addr {
            let frame = self.next_frame;
            proof {
                lemma_cap_step(f0, descriptor);
            }
            self.next_frame = frame + 4096;
            proof {
                self.allocated@ = self.allocated@.push(frame);
                assert(frame_in_usable(self.regions@, frame));
            }
            Some(frame)
        } else {
            proof {
                lemma_cap_none(f0, descriptor);
            }
            None
        }
    }

    /// The region an in-progress allocation run is currently drawing from.
    pub closed spec fn current_descriptor_spec(self) -> Option<MemoryRegion> {
        self.current_descriptor
    }

    /// The map position of the next region the allocator will examine.
    pub closed spec fn next_index_spec(self) -> int {
        self.next_index as int
    }

    /// Hands out one more frame, or reports exhaustion.
    ///
    /// Succeeds exactly when capacity remains; every returned frame is
    /// page-aligned, at least 0x1000, lies in a usable region of the map,
    /// and is strictly above every previously returned frame.
    pub fn allocate_frame(&mut self) -> (r: Option<u64>)
        requires
            old(self).wf(),
        ensures
            final(self).wf(),
            final(self).regions() == old(self).regions(),
            old(self).cursor() <= final(self).cursor(),
            r is Some <==> old(self).remaining() > 0,
            match r {
                Some(b) => {
                    &&& is_page_aligned(b)
                    &&& b >= 0x1000
                    &&& old(self).cursor() <= b
                    &&& final(self).cursor() == b + 4096
                    &&& frame_in_usable(old(self).regions(), b)
                    &&& final(self).allocated() == old(self).allocated().push(b)
                    &&& final(self).remaining() == old(self).remaining() - 1
                },
                None => {
                    &&& old(self).remaining() == 0
                    &&& final(self).remaining() == 0
                    &&& final(self).allocated() == old(self).allocated()
                },
            },
    {
        if let Some(current) = self.current_descriptor {
            proof {
                assert(self.regions@[self.next_index - 1] == current);
            }
            let r = self.allocate_frame_from_descriptor(current);
            match r {
                Some(frame) => {
                    proof {
                        lemma_capacity_nonneg(
                            self.regions@,
                            self.next_index as int,
                            cursor_after(old(self).cursor(), current),
                        );
                    }
                    return Some(frame);
                },
                None => {
                    self.current_descriptor = None;
                },
            }
        }

        while self.next_index < self.regions.len()
            invariant
                self.wf(),
                self.current_descriptor is None,
                self.regions() == old(self).regions(),
                self.allocated() == old(self).allocated(),
                old(self).cursor() <= self.cursor(),
                capacity_from(self.regions@, self.next_index as int, self.next_frame) == old(
                    self,
                ).remaining(),
            decreases self.regions@.len() - self.next_index,
        {
            let descriptor = self.regions[self.next_index];
            self.next_index += 1;

            if descriptor.kind != MemoryRegionType::Usable {
                continue ;
            }

            let ghost f_in = self.next_frame;
            let r = self.allocate_frame_from_descriptor(descriptor);
            if let Some(frame) = r {
                self.current_descriptor = Some(descriptor);
                proof {
                    lemma_capacity_nonneg(
                        self.regions@,
                        self.next_index as int,
                        cursor_after(f_in, descriptor),
                    );
                }
                return Some(frame);
            }
        }

        None
    }
}

/// An allocator never owes a negative number of frames.
pub proof fn lemma_remaining_nonneg(a: BootFrameAllocator)
    requires
        a.wf(),
    ensures
        a.remaining() >= 0,
{
    match a.current_descriptor_spec() {
        Some(d) => {
            lemma_capacity_nonneg(a.regions(), a.next_index_spec(), cursor_after(a.cursor(), d));
        },
        None => {
            lemma_capacity_nonneg(a.regions(), a.next_index_spec(), a.cursor());
        },
    }
}

/// Frame uniqueness: over any run of successful allocations, all returned
/// frame addresses are pairwise distinct, page-aligned and at least 0x1000.
pub proof fn lemma_frame_uniqueness(a: BootFrameAllocator)
    requires
        a.wf(),
    ensures
        forall|i: int, j: int|
            0 <= i < j < a.allocated().len() ==> #[trigger] a.allocated()[i] != #[trigger] a.allocated()[j],
        forall|i: int|
            0 <= i < a.allocated().len() ==> is_page_aligned(#[trigger] a.allocated()[i])
                && a.allocated()[i] >= 0x1000,
{
}

/// Frame containment: every allocated frame lies entirely within some
/// usable region of the supplied memory map.
pub proof fn lemma_frame_containment(a: BootFrameAllocator)
    requires
        a.wf(),
    ensures
        forall|i: int|
            0 <= i < a.allocated().len() ==> frame_in_usable(
                a.regions(),
                #[trigger] a.allocated()[i],
            ),
{
}

/// Whether the segment's virtual range spans top-level entry `idx`.
pub open spec fn spans_top_level(seg: Segment, idx: u64) -> bool {
    top_level_index(seg.virtual_addr) <= idx <= top_level_index(
        (seg.virtual_addr + seg.mem_size) as u64,
    )
}

/// Keeps track of used entries in the top-level page table of the kernel
/// address space. Useful for finding a free virtual memory block, e.g. for
/// mapping additional data.
pub struct UsedLevel4Entries {
    entry_state: Vec<bool>,
}

impl UsedLevel4Entries {
    /// Which top-level entries are currently marked used.
    pub closed spec fn view(self) -> Seq<bool> {
        self.entry_state@
    }

    /// The tracker always covers exactly the 512 top-level entries.
    pub open spec fn wf(self) -> bool {
        self.view().len() == 512
    }

    /// Initializes a new instance from the given kernel segments.
    ///
    /// Entry 0 is reserved unconditionally; every top-level index spanned
    /// by a segment's virtual range is marked used.
    pub fn new(segments: &Vec<Segment>) -> (r: Self)
        requires
            forall|s: int|
                0 <= s < segments@.len() ==> (#[trigger] segments@[s]).virtual_addr + segments@[s].mem_size
                    <= u64::MAX,
        ensures
            r.wf(),
            forall|idx: u64|
                idx < 512 ==> (r@[idx as int] == true <==> (idx == 0 || exists|k: int|
                    0 <= k < segments@.len() && spans_top_level(#[trigger] segments@[k], idx))),
    {
        let mut entry_state: Vec<bool> = Vec::new();
        let mut fill: usize = 0;
        while fill < 512
            invariant
                entry_state@.len() == fill,
                fill <= 512,
                forall|k: int| 0 <= k < fill ==> #[trigger] entry_state@[k] == false,
            decreases 512 - fill,
        {
            entry_state.push(false);
            fill += 1;
        }

        let mut used = UsedLevel4Entries { entry_state };
        used.entry_state[0] = true;

        let mut s: usize = 0;
        #[verifier::loop_isolation(false)]
        while s < segments.len()
            invariant
                used.entry_state@.len() == 512,
                s <= segments@.len(),
                forall|j: u64|
                    j < 512 ==> (#[trigger] used.entry_state@[j as int] == true <==> (j == 0
                        || exists|k: int|
                        0 <= k < s && spans_top_level(#[trigger] segments@[k], j))),
            decreases segments@.len() - s,
        {
            let segment = segments[s];
            let start_index = top_level_index_of(segment.virtual_addr);
            let end_index = top_level_index_of(segment.virtual_addr + segment.mem_size);

            let mut idx: u64 = start_index;
            #[verifier::loop_isolation(false)]
            while idx <= end_index
                invariant
                    used.entry_state@.len() == 512,
                    start_index <= idx <= 512,
                    idx <= end_index + 1 || idx == start_index,
                    forall|j: u64|
                        j < 512 ==> (#[trigger] used.entry_state@[j as int] == true <==> (j == 0
                            || (exists|k: int|
                            0 <= k < s && spans_top_level(#[trigger] segments@[k], j)) || (
                        start_index <= j && j < idx))),
                decreases end_index + 1 - idx,
            {
                used.entry_state[idx as usize] = true;
                idx += 1;
            }
            proof {
                assert forall|j: u64| j < 512 implies (#[trigger] used.entry_state@[j as int]
                    == true <==> (j == 0 || exists|k: int|
                    0 <= k < s + 1 && spans_top_level(#[trigger] segments@[k], j))) by {
                    if start_index <= j && j < idx {
                        assert(j <= end_index);
                        assert(spans_top_level(segments@[s as int], j));
                    }
                    if exists|k: int| 0 <= k < s + 1 && spans_top_level(
                        #[trigger] segments@[k],
                        j,
                    ) {
                        let k = choose|k: int|
                            0 <= k < s + 1 && spans_top_level(#[trigger] segments@[k], j);
                        if k == s {
                            assert(start_index <= j && j <= end_index);
                            assert(j < idx);
                        }
                    }
                }
            }
            s += 1;
        }

        used
    }

    /// Returns the lowest unused top-level entry and marks it as used, or
    /// reports that all 512 entries are taken.
    ///
    /// Since every returned index is marked used, repeated calls yield
    /// pairwise distinct indices until the table is full.
    pub fn get_free_entry(&mut self) -> (r: Option<u16>)
        requires
            old(self).wf(),
        ensures
            final(self).wf(),
            r is Some <==> exists|k: int| 0 <= k < 512 && old(self)@[k] == false,
            match r {
                Some(idx) => {
                    &&& idx < 512
                    &&& old(self)@[idx as int] == false
                    &&& forall|k: int| 0 <= k < idx ==> old(self)@[k] == true
                    &&& final(self)@ == old(self)@.update(idx as int, true)
                },
                None => final(self)@ == old(self)@,
            },
    {
        let mut idx: usize = 0;
        while idx < 512
            invariant
                old(self).wf(),
                *self == *old(self),
                idx <= 512,
                forall|k: int| 0 <= k < idx ==> old(self)@[k] == true,
            decreases 512 - idx,
        {
            if !self.entry_state[idx] {
                proof {
                    assert(exists|k: int| 0 <= k < 512 && old(self)@[k] == false) by {
                        assert(old(self)@[idx as int] == false);
                    }
                }
                self.entry_state[idx] = true;
                return Some(idx as u16);
            }
            idx += 1;
        }
        None
    }

    /// Returns the canonical virtual base address of an unused top-level
    /// entry and marks that entry as used.
    pub fn get_free_address(&mut self) -> (r: Option<u64>)
        requires
            old(self).wf(),
        ensures
            final(self).wf(),
            r is Some <==> exists|k: int| 0 <= k < 512 && old(self)@[k] == false,
            match r {
                Some(addr) => exists|idx: u64|
                    {
                        &&& idx < 512
                        &&& addr == canonical_base(idx)
                        &&& old(self)@[idx as int] == false
                        &&& forall|k: int| 0 <= k < idx ==> old(self)@[k] == true
                        &&& final(self)@ == old(self)@.update(idx as int, true)
                    },
                None => final(self)@ == old(self)@,
            },
    {
        match self.get_free_entry() {
            Some(idx) => {
                let addr = canonical_base_of(idx as u64);
                proof {
                    assert(idx < 512 && addr == canonical_base(idx as u64) && old(self)@[idx as int]
                        == false && final(self)@ == old(self)@.update(idx as int, true));
                }
                Some(addr)
            },
            None => None,
        }
    }
}

/// Number of unmarked entries in a tracker state.
pub open spec fn free_slot_count(s: Seq<bool>) -> int
    decreases s.len(),
{
    if s.len() == 0 {
        0
    } else {
        free_slot_count(s.drop_last()) + (if s.last() == false {
            1int
        } else {
            0int
        })
    }
}

/// Slot exhaustion count: one reservation takes the free count down by
/// exactly one, and a free slot exists exactly while the count is
/// positive. Together with the reservation contract this says that,
/// from a state with `k` entries pre-marked, exactly `512 - k`
/// reservations succeed — each returning a distinct index — and the
/// next one fails.
pub proof fn lemma_slot_count_decrement(s: Seq<bool>, idx: int)
    requires
        0 <= idx < s.len(),
        s[idx] == false,
    ensures
        free_slot_count(s.update(idx, true)) == free_slot_count(s) - 1,
    decreases s.len(),
{
    let u = s.update(idx, true);
    if idx == s.len() - 1 {
        assert(u.drop_last() =~= s.drop_last());
        assert(u.last() == true);
    } else {
        assert(u.drop_last() =~= s.drop_last().update(idx, true));
        assert(u.last() == s.last());
        lemma_slot_count_decrement(s.drop_last(), idx);
    }
}

/// A free slot exists exactly while the free count is positive.
pub proof fn lemma_slot_count_positive(s: Seq<bool>)
    ensures
        (exists|k: int| 0 <= k < s.len() && s[k] == false) <==> free_slot_count(s) > 0,
    decreases s.len(),
{
    if s.len() > 0 {
        lemma_slot_count_positive(s.drop_last());
        assert(free_slot_count(s.drop_last()) >= 0) by {
            lemma_slot_count_nonneg(s.drop_last());
        }
        if s.last() == false {
            assert(s[s.len() - 1] == false);
        } else {
            if exists|k: int| 0 <= k < s.len() && s[k] == false {
                let k = choose|k: int| 0 <= k < s.len() && s[k] == false;
                assert(s.drop_last()[k] == false);
            }
            if exists|k: int| 0 <= k < s.drop_last().len() && s.drop_last()[k] == false {
                let k = choose|k: int| 0 <= k < s.drop_last().len() && s.drop_last()[k] == false;
                assert(s[k] == false);
            }
        }
    }
}

/// The free count is never negative.
proof fn lemma_slot_count_nonneg(s: Seq<bool>)
    ensures
        free_slot_count(s) >= 0,
    decreases s.len(),
{
    if s.len() > 0 {
        lemma_slot_count_nonneg(s.drop_last());
    }
}

/// Slot uniqueness: two successive successful reservations of a free
/// top-level entry never return the same index, because the first one
/// marks its index used and the used set only grows.
pub proof fn lemma_slot_uniqueness(s0: Seq<bool>, idx1: u16, idx2: u16)
    requires
        0 <= idx1 < s0.len(),
        0 <= idx2 < s0.len(),
        s0[idx1 as int] == false,
        s0.update(idx1 as int, true)[idx2 as int] == false,
    ensures
        idx1 != idx2,
{
}

} // verus!
