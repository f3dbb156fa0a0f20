//! The owned model of physical memory the loader works through.
//!
//! Frame contents are held as whole 4096-byte pages keyed by frame base
//! address, with bounds-checked byte reads and writes. A frame enters the
//! store only from addresses already known valid — freshly allocated
//! frames, or the pages holding the kernel image — never from arbitrary
//! integers.

use vstd::prelude::*;

use std::collections::HashMap;

use crate::addr::{is_page_aligned, page_base, page_base_of, lemma_page_base_range};
use crate::paging::{PageMapping, translate_spec};

verus! {

broadcast use vstd::std_specs::hash::group_hash_axioms;

/// The byte of physical memory at `pa`, if its frame is modeled.
pub open spec fn read_phys(mem: Map<u64, Seq<u8>>, pa: u64) -> Option<u8> {
    if mem.contains_key(page_base(pa)) && mem[page_base(pa)].len() == 4096 {
        Some(mem[page_base(pa)][(pa % 4096) as int])
    } else {
        None
    }
}

/// The byte visible at virtual address `va` through address space `pt`
/// over physical memory `mem`.
pub open spec fn read_virt(pt: Map<u64, PageMapping>, mem: Map<u64, Seq<u8>>, va: u64) -> Option<
    u8,
> {
    match translate_spec(pt, va) {
        Some(pa) => read_phys(mem, pa),
        None => None,
    }
}

/// Bounds-checked byte store over the physical frames the loader owns.
pub struct PhysMemory {
    frames: HashMap<u64, Vec<u8>>,
}

impl PhysMemory {
    /// The abstract content: frame base to the frame's 4096 bytes.
    pub closed spec fn view(self) -> Map<u64, Seq<u8>> {
        Map::new(|b: u64| self.frames@.contains_key(b), |b: u64| self.frames@[b]@)
    }

    /// Every modeled frame base is aligned and holds exactly one page.
    pub closed spec fn wf(self) -> bool {
        forall|b: u64|
            #[trigger] self.frames@.contains_key(b) ==> is_page_aligned(b) && self.frames@[b]@.len()
                == 4096
    }

    /// Well-formedness seen through the view.
    pub proof fn lemma_wf_view(self)
        requires
            self.wf(),
        ensures
            forall|b: u64|
                #[trigger] self@.contains_key(b) ==> is_page_aligned(b) && self@[b].len() == 4096,
    {
    }

    /// An empty store: no physical memory modeled yet.
    pub fn new() -> (r: Self)
        ensures
            r.wf(),
            r@ == Map::<u64, Seq<u8>>::empty(),
    {
        let r = PhysMemory { frames: HashMap::new() };
        proof {
            assert(r@ =~= Map::<u64, Seq<u8>>::empty());
        }
        r
    }

    /// Whether the frame at `base` is modeled.
    pub fn contains_frame(&self, base: u64) -> (r: bool)
        ensures
            r == self@.contains_key(base),
    {
        self.frames.contains_key(&base)
    }

    /// Brings the frame at `base` into the store with the given page of
    /// bytes.
    pub fn add_frame(&mut self, base: u64, bytes: Vec<u8>)
        requires
            old(self).wf(),
            is_page_aligned(base),
            !old(self)@.contains_key(base),
            bytes@.len() == 4096,
        ensures
            final(self).wf(),
            final(self)@ == old(self)@.insert(base, bytes@),
    {
        let ghost b0 = bytes@;
        self.frames.insert(base, bytes);
        proof {
            assert(final(self)@ =~= old(self)@.insert(base, b0));
        }
    }

    /// Brings the frame at `base` into the store filled with zero bytes.
    pub fn add_zero_frame(&mut self, base: u64)
        requires
            old(self).wf(),
            is_page_aligned(base),
            !old(self)@.contains_key(base),
        ensures
            final(self).wf(),
            final(self)@ == old(self)@.insert(base, Seq::new(4096, |i: int| 0u8)),
    {
        let bytes: Vec<u8> = vec![0u8; 4096];
        proof {
            assert(bytes@ =~= Seq::new(4096, |i: int| 0u8));
        }
        self.add_frame(base, bytes);
    }

    /// Reads the byte at physical address `pa`.
    pub fn read_byte(&self, pa: u64) -> (r: u8)
        requires
            self.wf(),
            self@.contains_key(page_base(pa)),
        ensures
            read_phys(self@, pa) == Some(r),
    {
        let base = page_base_of(pa);
        let frame = self.frames.get(&base);
        match frame {
            Some(v) => v[(pa % 4096) as usize],
            None => {
                proof {
                    assert(false);
                }
                0
            },
        }
    }

    /// Writes the byte at physical address `pa`.
    pub fn write_byte(&mut self, pa: u64, value: u8)
        requires
            old(self).wf(),
            old(self)@.contains_key(page_base(pa)),
        ensures
            final(self).wf(),
            final(self)@ == old(self)@.insert(
                page_base(pa),
                old(self)@[page_base(pa)].update((pa % 4096) as int, value),
            ),
            read_phys(final(self)@, pa) == Some(value),
    {
        let base = page_base_of(pa);
        let taken = self.frames.remove(&base);
        match taken {
            Some(mut v) => {
                v[(pa % 4096) as usize] = value;
                let ghost v1 = v@;
                self.frames.insert(base, v);
                proof {
                    assert(final(self)@ =~= old(self)@.insert(
                        base,
                        old(self)@[base].update((pa % 4096) as int, value),
                    ));
                }
            },
            None => {
                proof {
                    assert(false);
                }
            },
        }
    }

    /// Installs a byte buffer at the page-aligned physical address `base`:
    /// fresh frames covering the buffer, zero-padded to the next page
    /// boundary. This is how the resident kernel image enters the model.
    pub fn install_bytes(&mut self, base: u64, data: &[u8])
        requires
            old(self).wf(),
            is_page_aligned(base),
            base + data@.len() + 4096 <= u64::MAX,
            forall|b: u64|
                base <= b < base + data@.len() ==> !(#[trigger] old(self)@.contains_key(b)),
        ensures
            final(self).wf(),
            forall|b: u64|
                #[trigger] old(self)@.contains_key(b) ==> final(self)@.contains_key(b)
                    && final(self)@[b] == old(self)@[b],
            forall|i: u64|
                i < data@.len() ==> #[trigger] read_phys(final(self)@, (base + i) as u64) == Some(
                    data@[i as int],
                ),
            forall|i: u64|
                data@.len() <= i && base + i < align_up_sum(base, data@.len() as u64)
                    ==> #[trigger] read_phys(final(self)@, (base + i) as u64) == Some(0u8),
            forall|b: u64|
                #[trigger] final(self)@.contains_key(b) ==> old(self)@.contains_key(b) || (base
                    <= b < align_up_sum(base, data@.len() as u64)),
    {
        let len = data.len();
        let ghost end = align_up_sum(base, len as u64);
        proof {
            crate::addr::lemma_align_up_page((base + len as u64) as u64);
            assert(end % 4096 == 0);
        }
        let mut p: u64 = 0;
        while base + p < base + len as u64
            invariant
                self.wf(),
                is_page_aligned(base),
                p % 4096 == 0,
                p <= len + 4096,
                len == data@.len(),
                base + len as u64 + 4096 <= u64::MAX,
                end == align_up_sum(base, len as u64),
                base + p <= end,
                forall|b: u64|
                    base + p <= b < base + len ==> !(#[trigger] self@.contains_key(b)),
                forall|b: u64|
                    #[trigger] old(self)@.contains_key(b) ==> self@.contains_key(b) && self@[b]
                        == old(self)@[b],
                forall|i: u64|
                    i < p && i < len ==> #[trigger] read_phys(self@, (base + i) as u64) == Some(
                        data@[i as int],
                    ),
                forall|i: u64|
                    len <= i && base + i < base + p ==> #[trigger] read_phys(
                        self@,
                        (base + i) as u64,
                    ) == Some(0u8),
                forall|b: u64|
                    #[trigger] self@.contains_key(b) ==> old(self)@.contains_key(b) || (base <= b
                        < base + p),
            decreases len + 4096 - p,
        {
            let mut buf: Vec<u8> = Vec::new();
            let mut j: usize = 0;
            while j < 4096
                invariant
                    j <= 4096,
                    buf@.len() == j,
                    len == data@.len(),
                    p % 4096 == 0,
                    p <= len,
                    base + len as u64 + 4096 <= u64::MAX,
                    forall|k: int|
                        0 <= k < j ==> #[trigger] buf@[k] == (if p + k < len {
                            data@[p + k]
                        } else {
                            0u8
                        }),
                decreases 4096 - j,
            {
                let byte: u8 = if p + (j as u64) < len as u64 {
                    data[(p as usize) + j]
                } else {
                    0u8
                };
                buf.push(byte);
                j += 1;
            }

            let frame_base = base + p;
            proof {
                assert(frame_base % 4096 == 0) by (nonlinear_arith)
                    requires
                        base % 4096 == 0,
                        p % 4096 == 0,
                        frame_base == base + p,
                ;
            }
            let ghost prev = self@;
            self.add_frame(frame_base, buf);
            proof {
                assert forall|x: u64| page_base(x) != frame_base implies #[trigger] read_phys(
                    self@,
                    x,
                ) == read_phys(prev, x) by {}
                assert forall|i: u64| i < p implies #[trigger] page_base((base + i) as u64)
                    != frame_base by {
                    crate::addr::lemma_page_base_props((base + i) as u64);
                }
                assert forall|i: u64| base + i >= frame_base && base + i < frame_base + 4096
                    implies read_phys(self@, (base + i) as u64) == Some(
                    if i < len {
                        data@[i as int]
                    } else {
                        0u8
                    },
                ) by {
                    lemma_page_base_range((base + i) as u64, frame_base);
                    assert(self@[frame_base][(base + i - frame_base) as int] == (if i < len {
                        data@[i as int]
                    } else {
                        0u8
                    }));
                }
            }
            proof {
                assert(base + p + 4096 <= end) by (nonlinear_arith)
                    requires
                        p % 4096 == 0,
                        base % 4096 == 0,
                        base + p < base + len,
                        end % 4096 == 0,
                        base + len <= end,
                ;
            }
            p = p + 4096;
        }
        proof {
            assert(base + p == end) by (nonlinear_arith)
                requires
                    p % 4096 == 0,
                    base % 4096 == 0,
                    base + p >= base + len,
                    base + p <= end,
                    end % 4096 == 0,
                    end < base + len + 4096,
            ;
        }
    }
}

/// `base + len` rounded up to the next page boundary.
pub open spec fn align_up_sum(base: u64, len: u64) -> int {
    crate::addr::align_up_page((base + len) as u64)
}

} // verus!
