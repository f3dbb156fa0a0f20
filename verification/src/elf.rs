//! The parsed view of the kernel ELF image that the loader core consumes.
//!
//! The non-trivial structural work (magic and table validation, section
//! lookup by name) is delegated to the `xmas_elf` crate behind trusted
//! wrappers. The fixed-offset integer fields of the ELF64 file header and
//! of its program headers are read directly from the image bytes by
//! verified code, against byte-exact specifications.

use vstd::prelude::*;

verus! {

/// One loadable segment of the kernel image, as plain values.
#[derive(Debug, Clone, Copy, PartialEq, Eq, Structural)]
pub struct Segment {
    /// Virtual address the segment must appear at.
    pub virtual_addr: u64,
    /// Offset of the segment's file content inside the image.
    pub file_offset: u64,
    /// Number of bytes backed by file content.
    pub file_size: u64,
    /// Number of bytes the segment occupies in memory; the excess over
    /// `file_size` must read as zero.
    pub mem_size: u64,
    /// Whether the segment is readable.
    pub readable: bool,
    /// Whether the segment is writable.
    pub writable: bool,
    /// Whether the segment is executable.
    pub executable: bool,
}

/// The little-endian value of `n` bytes of `s` starting at `off`.
pub open spec fn le_bytes(s: Seq<u8>, off: int, n: nat) -> int
    decreases n,
{
    if n == 0 {
        0
    } else {
        s[off] + 256 * le_bytes(s, off + 1, (n - 1) as nat)
    }
}

/// Reads the little-endian `u16` at `off`.
pub fn read_u16_le(s: &[u8], off: usize) -> (r: u16)
    requires
        off + 2 <= s@.len(),
    ensures
        r == le_bytes(s@, off as int, 2),
{
    proof {
        reveal_with_fuel(le_bytes, 3);
    }
    let b0 = s[off] as u16;
    let b1 = s[off + 1] as u16;
    b0 + b1 * 256
}

/// Reads the little-endian `u32` at `off`.
pub fn read_u32_le(s: &[u8], off: usize) -> (r: u32)
    requires
        off + 4 <= s@.len(),
    ensures
        r == le_bytes(s@, off as int, 4),
{
    proof {
        reveal_with_fuel(le_bytes, 5);
    }
    let b0 = s[off] as u32;
    let b1 = s[off + 1] as u32;
    let b2 = s[off + 2] as u32;
    let b3 = s[off + 3] as u32;
    b0 + b1 * 0x100 + b2 * 0x1_0000 + b3 * 0x100_0000
}

/// Reads the little-endian `u64` at `off`.
pub fn read_u64_le(s: &[u8], off: usize) -> (r: u64)
    requires
        off + 8 <= s@.len(),
    ensures
        r == le_bytes(s@, off as int, 8),
{
    // anchors the slice length so the offset arithmetic stays in range
    let slice_len = s.len();
    let lo = read_u32_le(s, off) as u64;
    let hi = read_u32_le(s, off + 4) as u64;
    proof {
        lemma_le_bytes_split(s@, off as int);
    }
    lo + hi * 0x1_0000_0000
}

/// An 8-byte little-endian value is its low half plus 2^32 times its
/// high half, and fits in a `u64`.
proof fn lemma_le_bytes_split(s: Seq<u8>, off: int)
    requires
        0 <= off,
        off + 8 <= s.len(),
    ensures
        le_bytes(s, off, 8) == le_bytes(s, off, 4) + 0x1_0000_0000 * le_bytes(s, off + 4, 4),
        0 <= le_bytes(s, off, 8) <= u64::MAX,
{
    lemma_le_bytes_concat(s, off, 4, 4);
    lemma_le_bytes_bound(s, off, 4);
    lemma_le_bytes_bound(s, off + 4, 4);
    assert(pow256(0) == 1);
    assert(pow256(1) == 256);
    assert(pow256(2) == 0x1_0000);
    assert(pow256(3) == 0x100_0000);
    assert(pow256(4) == 0x1_0000_0000);
}

/// Concatenation: `n + m` little-endian bytes decompose into the low `n`
/// bytes plus 2^(8n) times the high `m` bytes.
proof fn lemma_le_bytes_concat(s: Seq<u8>, off: int, n: nat, m: nat)
    requires
        0 <= off,
        off + n + m <= s.len(),
    ensures
        le_bytes(s, off, (n + m) as nat) == le_bytes(s, off, n) + pow256(n) * le_bytes(
            s,
            off + n,
            m,
        ),
    decreases n,
{
    if n == 0 {
    } else {
        lemma_le_bytes_concat(s, off + 1, (n - 1) as nat, m);
        let a = le_bytes(s, off + 1, (n - 1) as nat);
        let b = le_bytes(s, off + n, m);
        let p = pow256((n - 1) as nat);
        assert(le_bytes(s, off, (n + m) as nat) == s[off] + 256 * (a + p * b));
        assert(256 * (a + p * b) == 256 * a + (256 * p) * b) by (nonlinear_arith);
    }
}

/// 256 to the power `n`.
spec fn pow256(n: nat) -> int
    decreases n,
{
    if n == 0 {
        1
    } else {
        256 * pow256((n - 1) as nat)
    }
}

/// A little-endian value of `n` bytes is below 2^(8n).
proof fn lemma_le_bytes_bound(s: Seq<u8>, off: int, n: nat)
    requires
        0 <= off,
        off + n <= s.len(),
    ensures
        0 <= le_bytes(s, off, n) < pow256(n),
    decreases n,
{
    if n > 0 {
        lemma_le_bytes_bound(s, off + 1, (n - 1) as nat);
        let a = le_bytes(s, off + 1, (n - 1) as nat);
        let p = pow256((n - 1) as nat);
        assert(a <= p - 1 && p >= 1 ==> 256 * a <= 256 * p - 256) by (nonlinear_arith);
    }
}

/// The image geometry that keeps `xmas_elf`'s file-header validation
/// free of arithmetic overflow: for a 64-bit image, the program- and
/// section-table extents computed from the header fields stay within
/// the address width.
pub open spec fn header_sums_bounded(s: Seq<u8>) -> bool {
    s.len() >= 64 && (s[4] == 2 ==> {
        &&& le_bytes(s, 32, 8) + le_bytes(s, 54, 2) * le_bytes(s, 56, 2) <= u64::MAX
        &&& le_bytes(s, 40, 8) + le_bytes(s, 58, 2) * le_bytes(s, 60, 2) <= u64::MAX
    })
}

/// The program-header geometry that keeps `xmas_elf`'s per-header
/// parsing and validation free of panics for table entry `index` of a
/// 64-bit image: the entry lies inside the image at an 8-byte-aligned
/// file position, is large enough for the fixed header structure, and
/// its offset/size sum stays within the address width.
pub open spec fn program_header_access_ok(s: Seq<u8>, index: int) -> bool {
    let po = le_bytes(s, 32, 8);
    let es = le_bytes(s, 54, 2);
    let base = po + index * es;
    &&& s.len() >= 64
    &&& s[4] == 2
    &&& po % 8 == 0
    &&& es % 8 == 0
    &&& es >= 56
    &&& po + (index + 1) * es <= s.len()
    &&& le_bytes(s, base + 8, 8) + le_bytes(s, base + 32, 8) <= u64::MAX
}

/// Relies on `xmas_elf::ElfFile::new`: parses and structurally
/// validates the ELF container over the given bytes. `xmas_elf` reads
/// the fixed header through 8-byte-aligned loads, so a buffer at an
/// unaligned address is rejected here instead of reaching that read.
#[verifier::external_body]
pub(crate) fn elf_parse_check(input: &[u8]) -> (r: Result<(), &'static str>) {
    if input.as_ptr() as usize % 8 != 0 {
        return Err("image buffer is not 8-byte aligned");
    }
    match xmas_elf::ElfFile::new(input) {
        Ok(_) => Ok(()),
        Err(e) => Err(e),
    }
}

/// Relies on `xmas_elf::header::sanity_check` (behind
/// `xmas_elf::ElfFile::new`): magic number, class consistency, version
/// and table bounds of the file header. The `requires` keeps the
/// table-extent sums it computes from overflowing; the alignment of
/// the buffer address lies outside the byte view and is guarded in the
/// body instead.
#[verifier::external_body]
pub(crate) fn elf_header_check(input: &[u8]) -> (r: Result<(), &'static str>)
    requires
        header_sums_bounded(input@),
{
    if input.as_ptr() as usize % 8 != 0 {
        return Err("image buffer is not 8-byte aligned");
    }
    let elf = xmas_elf::ElfFile::new(input)?;
    xmas_elf::header::sanity_check(&elf)
}

/// Relies on `xmas_elf::ElfFile::program_header` and
/// `xmas_elf::program::sanity_check` (behind `xmas_elf::ElfFile::new`):
/// size, range and type consistency of one program header. The three
/// calls share one wrapper because the intermediate values only tie
/// back to the byte view the `requires` constrains while they stay in
/// one body.
#[verifier::external_body]
pub(crate) fn elf_program_header_check(input: &[u8], index: u16) -> (r: Result<
    (),
    &'static str,
>)
    requires
        header_sums_bounded(input@),
        program_header_access_ok(input@, index as int),
{
    if input.as_ptr() as usize % 8 != 0 {
        return Err("image buffer is not 8-byte aligned");
    }
    let elf = xmas_elf::ElfFile::new(input)?;
    let ph = elf.program_header(index)?;
    xmas_elf::program::sanity_check(ph, &elf)
}

} // verus!
