//! The page-table address-space model.
//!
//! A `PageTableSpace` owns one address space: a mapping from 4096-byte
//! virtual pages to physical frames with permission flags, the abstract
//! content of a 4-level radix page-table tree. All mapping calls build the
//! space "cold" — it is not active while it is built, so no
//! translation-cache invalidation is modeled. Entries are append-only
//! except through the explicit [`PageTableSpace::unmap`] path.

use vstd::prelude::*;

use crate::addr::{is_page_aligned, page_base};

verus! {

/// Permission flags of one mapping. A mapping that exists is present;
/// everything else is explicit.
#[derive(Debug, Clone, Copy, PartialEq, Eq, Structural)]
pub struct PageTableFlags {
    /// Whether the page may be written.
    pub writable: bool,
    /// Whether instruction fetch from the page is forbidden.
    pub no_execute: bool,
}

/// One entry of an address space: virtual page, backing frame, flags.
#[derive(Debug, Clone, Copy, PartialEq, Eq, Structural)]
pub struct PageMapping {
    /// Base address of the virtual page.
    pub page: u64,
    /// Base address of the backing physical frame.
    pub frame: u64,
    /// Permission flags of the mapping.
    pub flags: PageTableFlags,
}

/// Why a mapping call failed.
#[derive(Debug, Clone, Copy, PartialEq, Eq, Structural)]
pub enum MapError {
    /// The target page already carries a mapping.
    PageAlreadyMapped,
    /// The target page carries no mapping to remove.
    PageNotMapped,
}

/// The abstract content of a sequence of entries: page base to entry.
pub open spec fn map_of(s: Seq<PageMapping>) -> Map<u64, PageMapping>
    decreases s.len(),
{
    if s.len() == 0 {
        Map::empty()
    } else {
        map_of(s.drop_last()).insert(s.last().page, s.last())
    }
}

/// No two entries claim the same page.
pub open spec fn pages_distinct(s: Seq<PageMapping>) -> bool {
    forall|i: int, j: int|
        0 <= i < j < s.len() ==> (#[trigger] s[i]).page != (#[trigger] s[j]).page
}

/// Every entry's page is a key of the abstract map.
proof fn lemma_map_of_covers(s: Seq<PageMapping>, i: int)
    requires
        0 <= i < s.len(),
    ensures
        map_of(s).contains_key(s[i].page),
    decreases s.len(),
{
    if i < s.len() - 1 {
        lemma_map_of_covers(s.drop_last(), i);
        assert(s.drop_last()[i] == s[i]);
    }
}

/// Every key of the abstract map comes from some entry, which is exactly
/// what the key looks up to.
proof fn lemma_map_of_key_has_index(s: Seq<PageMapping>, p: u64)
    requires
        map_of(s).contains_key(p),
    ensures
        exists|i: int|
            0 <= i < s.len() && (#[trigger] s[i]).page == p && s[i] == map_of(s)[p],
    decreases s.len(),
{
    if s.len() > 0 {
        if p == s.last().page {
            assert(s[s.len() - 1].page == p && s[s.len() - 1] == map_of(s)[p]);
        } else {
            lemma_map_of_key_has_index(s.drop_last(), p);
            let i = choose|i: int|
                0 <= i < s.drop_last().len() && (#[trigger] s.drop_last()[i]).page == p
                    && s.drop_last()[i] == map_of(s.drop_last())[p];
            assert(s[i].page == p && s[i] == map_of(s)[p]);
        }
    }
}

/// A page carried by no entry is no key of the abstract map.
proof fn lemma_map_of_not_contains(s: Seq<PageMapping>, p: u64)
    requires
        forall|i: int| 0 <= i < s.len() ==> (#[trigger] s[i]).page != p,
    ensures
        !map_of(s).contains_key(p),
    decreases s.len(),
{
    if s.len() > 0 {
        assert(s[s.len() - 1].page != p);
        assert(forall|i: int|
            0 <= i < s.drop_last().len() ==> (#[trigger] s.drop_last()[i]).page != p) by {
            assert(forall|i: int|
                0 <= i < s.drop_last().len() ==> #[trigger] s.drop_last()[i] == s[i]);
        }
        lemma_map_of_not_contains(s.drop_last(), p);
    }
}

/// Under distinct pages, each entry is what its page looks up to.
proof fn lemma_map_of_index(s: Seq<PageMapping>, i: int)
    requires
        pages_distinct(s),
        0 <= i < s.len(),
    ensures
        map_of(s).contains_key(s[i].page),
        map_of(s)[s[i].page] == s[i],
{
    lemma_map_of_covers(s, i);
    lemma_map_of_key_has_index(s, s[i].page);
    let j = choose|j: int|
        0 <= j < s.len() && (#[trigger] s[j]).page == s[i].page && s[j] == map_of(s)[s[i].page];
    assert(j == i);
}

/// Under distinct pages, removing the entry at `i` removes exactly its
/// page from the abstract map.
proof fn lemma_map_of_remove(s: Seq<PageMapping>, i: int)
    requires
        pages_distinct(s),
        0 <= i < s.len(),
    ensures
        map_of(s.remove(i)) == map_of(s).remove(s[i].page),
    decreases s.len(),
{
    let p = s[i].page;
    if i == s.len() - 1 {
        assert(s.remove(i) =~= s.drop_last());
        assert(forall|k: int|
            0 <= k < s.drop_last().len() ==> (#[trigger] s.drop_last()[k]).page != p) by {
            assert(forall|k: int|
                0 <= k < s.drop_last().len() ==> #[trigger] s.drop_last()[k] == s[k]);
        }
        lemma_map_of_not_contains(s.drop_last(), p);
        assert(map_of(s.remove(i)) =~= map_of(s).remove(p));
    } else {
        assert(forall|k: int|
            0 <= k < s.drop_last().len() ==> #[trigger] s.drop_last()[k] == s[k]);
        assert(pages_distinct(s.drop_last()));
        lemma_map_of_remove(s.drop_last(), i);
        assert(s.remove(i).drop_last() =~= s.drop_last().remove(i));
        assert(s.remove(i).last() == s.last());
        assert(map_of(s.remove(i)) == map_of(s.drop_last().remove(i)).insert(
            s.last().page,
            s.last(),
        ));
        assert(s[s.len() - 1].page != p);
        assert(map_of(s.drop_last()).remove(p).insert(s.last().page, s.last())
            =~= map_of(s.drop_last()).insert(s.last().page, s.last()).remove(p));
        assert(map_of(s.remove(i)) =~= map_of(s).remove(p));
    }
}

/// Where a virtual address translates to under an address space: the
/// backing frame of its page, plus the offset inside the page.
pub open spec fn translate_spec(m: Map<u64, PageMapping>, va: u64) -> Option<u64> {
    if m.contains_key(page_base(va)) {
        Some((m[page_base(va)].frame + va % 4096) as u64)
    } else {
        None
    }
}

/// One owned page-table address space.
pub struct PageTableSpace {
    entries: Vec<PageMapping>,
}

impl PageTableSpace {
    /// The abstract content: virtual page base to mapping entry.
    pub closed spec fn view(self) -> Map<u64, PageMapping> {
        map_of(self.entries@)
    }

    /// Structural invariant: pages distinct and page-aligned, frames
    /// frame-aligned.
    pub closed spec fn wf(self) -> bool {
        &&& pages_distinct(self.entries@)
        &&& forall|i: int|
            0 <= i < self.entries@.len() ==> is_page_aligned(#[trigger] self.entries@[i].page)
                && is_page_aligned(self.entries@[i].frame)
    }

    /// Every page key of a well-formed space is aligned, maps to an entry
    /// carrying that page, and its frame is aligned.
    pub proof fn lemma_view_wf(self)
        requires
            self.wf(),
        ensures
            forall|p: u64|
                #[trigger] self@.contains_key(p) ==> is_page_aligned(p) && self@[p].page == p
                    && is_page_aligned(self@[p].frame),
    {
        assert forall|p: u64| #[trigger] self@.contains_key(p) implies is_page_aligned(p)
            && self@[p].page == p && is_page_aligned(self@[p].frame) by {
            lemma_map_of_key_has_index(self.entries@, p);
            let i = choose|i: int|
                0 <= i < self.entries@.len() && (#[trigger] self.entries@[i]).page == p
                    && self.entries@[i] == self@[p];
        }
    }

    /// The entries of the space, one per mapped page, for a backend
    /// that materializes the radix tree in hardware form.
    pub fn entries_list(&self) -> (r: &Vec<PageMapping>)
        requires
            self.wf(),
        ensures
            map_of(r@) == self@,
            pages_distinct(r@),
            forall|i: int|
                0 <= i < r@.len() ==> self@.contains_key((#[trigger] r@[i]).page) && self@[r@[i].page]
                    == r@[i],
    {
        proof {
            assert forall|i: int| 0 <= i < self.entries@.len() implies self@.contains_key(
                (#[trigger] self.entries@[i]).page,
            ) && self@[self.entries@[i].page] == self.entries@[i] by {
                lemma_map_of_index(self.entries@, i);
            }
        }
        &self.entries
    }

    /// A fresh, empty address space.
    pub fn new() -> (r: Self)
        ensures
            r.wf(),
            r@ == Map::<u64, PageMapping>::empty(),
    {
        PageTableSpace { entries: Vec::new() }
    }

    /// The index of the entry mapping `page`, if any.
    fn find_index(&self, page: u64) -> (r: Option<usize>)
        ensures
            match r {
                Some(i) => i < self.entries@.len() && self.entries@[i as int].page == page,
                None => forall|i: int|
                    0 <= i < self.entries@.len() ==> (#[trigger] self.entries@[i]).page != page,
            },
    {
        let mut i: usize = 0;
        while i < self.entries.len()
            invariant
                i <= self.entries@.len(),
                forall|k: int| 0 <= k < i ==> (#[trigger] self.entries@[k]).page != page,
            decreases self.entries@.len() - i,
        {
            if self.entries[i].page == page {
                return Some(i);
            }
            i += 1;
        }
        None
    }

    /// Whether `page` currently carries a mapping.
    pub fn is_mapped(&self, page: u64) -> (r: bool)
        ensures
            r == self@.contains_key(page),
    {
        let r = self.find_index(page);
        proof {
            if r is Some {
                lemma_map_of_covers(self.entries@, r->Some_0 as int);
            } else {
                lemma_map_of_not_contains(self.entries@, page);
            }
        }
        r.is_some()
    }

    /// The mapping of `page`, if any.
    pub fn mapping_of(&self, page: u64) -> (r: Option<PageMapping>)
        requires
            self.wf(),
        ensures
            match r {
                Some(m) => self@.contains_key(page) && m == self@[page],
                None => !self@.contains_key(page),
            },
    {
        match self.find_index(page) {
            Some(i) => {
                proof {
                    lemma_map_of_index(self.entries@, i as int);
                }
                Some(self.entries[i])
            },
            None => {
                proof {
                    lemma_map_of_not_contains(self.entries@, page);
                }
                None
            },
        }
    }

    /// Installs a mapping from `page` to `frame`.
    ///
    /// Fails exactly when the page is already mapped; the space is then
    /// unchanged.
    pub fn map_to(&mut self, page: u64, frame: u64, flags: PageTableFlags) -> (r: Result<
        (),
        MapError,
    >)
        requires
            old(self).wf(),
            is_page_aligned(page),
            is_page_aligned(frame),
        ensures
            final(self).wf(),
            r is Ok <==> !old(self)@.contains_key(page),
            match r {
                Ok(()) => final(self)@ == old(self)@.insert(
                    page,
                    PageMapping { page, frame, flags },
                ),
                Err(e) => final(self)@ == old(self)@ && e == MapError::PageAlreadyMapped,
            },
    {
        match self.find_index(page) {
            Some(i) => {
                proof {
                    lemma_map_of_covers(self.entries@, i as int);
                }
                Err(MapError::PageAlreadyMapped)
            },
            None => {
                proof {
                    lemma_map_of_not_contains(self.entries@, page);
                }
                let entry = PageMapping { page, frame, flags };
                let ghost s0 = self.entries@;
                self.entries.push(entry);
                proof {
                    assert(self.entries@.drop_last() =~= s0);
                }
                Ok(())
            },
        }
    }

    /// Removes the mapping of `page`, handing back what was mapped there.
    ///
    /// Fails exactly when the page is not mapped; the space is then
    /// unchanged. This is the single controlled exception to append-only
    /// growth, used by the shared-page fix-up for uninitialized data.
    pub fn unmap(&mut self, page: u64) -> (r: Result<PageMapping, MapError>)
        requires
            old(self).wf(),
        ensures
            final(self).wf(),
            r is Ok <==> old(self)@.contains_key(page),
            match r {
                Ok(m) => m == old(self)@[page] && final(self)@ == old(self)@.remove(page),
                Err(e) => final(self)@ == old(self)@ && e == MapError::PageNotMapped,
            },
    {
        match self.find_index(page) {
            Some(i) => {
                let entry = self.entries[i];
                proof {
                    lemma_map_of_index(self.entries@, i as int);
                    lemma_map_of_remove(self.entries@, i as int);
                }
                self.entries.remove(i);
                Ok(entry)
            },
            None => {
                proof {
                    lemma_map_of_not_contains(self.entries@, page);
                }
                Err(MapError::PageNotMapped)
            },
        }
    }

    /// Maps the frame at its own address: virtual page equals frame base.
    pub fn identity_map(&mut self, frame: u64, flags: PageTableFlags) -> (r: Result<(), MapError>)
        requires
            old(self).wf(),
            is_page_aligned(frame),
        ensures
            final(self).wf(),
            r is Ok <==> !old(self)@.contains_key(frame),
            match r {
                Ok(()) => final(self)@ == old(self)@.insert(
                    frame,
                    PageMapping { page: frame, frame, flags },
                ),
                Err(e) => final(self)@ == old(self)@ && e == MapError::PageAlreadyMapped,
            },
    {
        self.map_to(frame, frame, flags)
    }

    /// Translates a virtual address to the physical address it is mapped
    /// to, if its page carries a mapping.
    pub fn translate(&self, va: u64) -> (r: Option<u64>)
        requires
            self.wf(),
        ensures
            r == translate_spec(self@, va),
    {
        proof {
            self.lemma_view_wf();
        }
        let page = crate::addr::page_base_of(va);
        match self.mapping_of(page) {
            Some(m) => {
                proof {
                    crate::addr::lemma_page_base_range(va, page);
                    assert(m.frame + va % 4096 <= u64::MAX) by (nonlinear_arith)
                        requires
                            m.frame % 4096 == 0,
                            va % 4096 < 4096,
                    ;
                }
                Some(m.frame + va % 4096)
            },
            None => None,
        }
    }
}

} // verus!
