//! Page- and frame-granular address arithmetic.
//!
//! Physical frames and virtual pages are both 4096 bytes wide and are
//! identified by their base address alone.

use vstd::prelude::*;

verus! {

/// Size in bytes of one physical frame / virtual page.
pub const PAGE_SIZE: u64 = 4096;

/// The base address of the page containing `a`.
pub open spec fn page_base(a: u64) -> u64 {
    ((a / 4096) * 4096) as u64
}

/// The offset of `a` inside its page.
pub open spec fn page_offset(a: u64) -> u64 {
    a % 4096
}

/// Whether `a` sits on a page boundary.
pub open spec fn is_page_aligned(a: u64) -> bool {
    a % 4096 == 0
}

/// `a` rounded up to the next page boundary, as an unbounded integer.
pub open spec fn align_up_page(a: u64) -> int {
    ((a + 4095) / 4096) * 4096
}

/// The top-level (coarsest) page-table index selecting the 512 GiB region
/// that virtual address `a` falls into.
pub open spec fn top_level_index(a: u64) -> u64 {
    ((a / 0x80_0000_0000) % 512) as u64
}

/// The canonical virtual base address of top-level entry `idx`: the low
/// half of the address space for entries below 256, the sign-extended high
/// half from entry 256 up.
pub open spec fn canonical_base(idx: u64) -> u64 {
    if idx < 256 {
        (idx * 0x80_0000_0000) as u64
    } else {
        (idx * 0x80_0000_0000 + 0xFFFF_0000_0000_0000) as u64
    }
}

/// The page base is aligned and within one page below its address.
pub proof fn lemma_page_base_props(a: u64)
    ensures
        page_base(a) <= a < page_base(a) + 4096,
        is_page_aligned(page_base(a)),
        page_offset(a) == a - page_base(a),
{
    assert(a / 4096 * 4096 <= a < a / 4096 * 4096 + 4096) by (nonlinear_arith);
    assert(a / 4096 * 4096 % 4096 == 0) by (nonlinear_arith);
    assert(a % 4096 == a - a / 4096 * 4096) by (nonlinear_arith);
}

/// Executable counterpart of [`page_base`].
pub fn page_base_of(a: u64) -> (r: u64)
    ensures
        r == page_base(a),
        is_page_aligned(r),
        r <= a < r + 4096,
{
    proof {
        assert(a / 4096 * 4096 <= a < a / 4096 * 4096 + 4096) by (nonlinear_arith);
        assert(a / 4096 * 4096 % 4096 == 0) by (nonlinear_arith);
    }
    a / 4096 * 4096
}

/// Executable counterpart of [`align_up_page`].
pub fn align_up_page_of(a: u64) -> (r: u64)
    requires
        a + 4095 <= u64::MAX,
    ensures
        r == align_up_page(a),
        is_page_aligned(r),
        a <= r < a + 4096,
        is_page_aligned(a) ==> r == a,
{
    proof {
        lemma_align_up_page(a);
    }
    (a + 4095) / 4096 * 4096
}

/// Basic facts about rounding up to a page boundary.
pub proof fn lemma_align_up_page(a: u64)
    ensures
        a <= align_up_page(a) < a + 4096,
        align_up_page(a) % 4096 == 0,
        is_page_aligned(a) ==> align_up_page(a) == a,
{
    assert((a + 4095) / 4096 * 4096 % 4096 == 0) by (nonlinear_arith);
    assert(a <= (a + 4095) / 4096 * 4096 < a + 4096) by (nonlinear_arith);
    if a % 4096 == 0 {
        assert((a + 4095) / 4096 * 4096 == a) by (nonlinear_arith)
            requires
                a % 4096 == 0,
        ;
    }
}

/// A page base stays fixed exactly on the addresses of its own page.
pub proof fn lemma_page_base_range(a: u64, b: u64)
    requires
        is_page_aligned(b),
        b <= a < b + 4096,
    ensures
        page_base(a) == b,
        page_offset(a) == a - b,
{
    assert(b <= a < b + 4096 && b % 4096 == 0 ==> a / 4096 * 4096 == b && a % 4096 == a - b)
        by (nonlinear_arith);
}

/// Executable counterpart of [`top_level_index`].
pub fn top_level_index_of(a: u64) -> (r: u64)
    ensures
        r == top_level_index(a),
        r < 512,
{
    proof {
        assert(a / 0x80_0000_0000 % 512 < 512) by (nonlinear_arith);
    }
    (a / 0x80_0000_0000) % 512
}

/// Executable counterpart of [`canonical_base`].
pub fn canonical_base_of(idx: u64) -> (r: u64)
    requires
        idx < 512,
    ensures
        r == canonical_base(idx),
{
    if idx < 256 {
        idx * 0x80_0000_0000
    } else {
        proof {
            assert(idx * 0x80_0000_0000 + 0xFFFF_0000_0000_0000 <= u64::MAX) by (nonlinear_arith)
                requires
                    idx < 512,
            ;
        }
        idx * 0x80_0000_0000 + 0xFFFF_0000_0000_0000
    }
}

} // verus!
