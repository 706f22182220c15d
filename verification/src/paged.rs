//! Two-level page table over the 32-bit key space, pages allocated on
//! demand. Shared by the pool's sparse index, the id allocator's liveness
//! tracking and the per-peer delta cursors.

use vstd::prelude::*;
use vstd::std_specs::cmp::PartialEqSpec;

verus! {

/// Entries per page.
pub const PAGE_ENTRIES: usize = 4096;

/// The page that holds a key.
pub open spec fn page_of(idx: u32) -> int {
    idx as int / PAGE_ENTRIES as int
}

/// A total map from `u32` keys to values that reads as `fill` everywhere it
/// was never written.
pub struct PagedArray<T> {
    pages: Vec<Option<Vec<T>>>,
    fill: T,
}

impl<T> PagedArray<T> {
    /// Every allocated page has the full page length.
    pub closed spec fn wf(&self) -> bool {
        forall|p: int| 0 <= p < self.pages@.len() && (#[trigger] self.pages@[p]) is Some
            ==> self.pages@[p]->0@.len() == PAGE_ENTRIES
    }

    /// The value a read of `idx` yields.
    pub closed spec fn at(&self, idx: u32) -> T {
        let p = idx as int / PAGE_ENTRIES as int;
        if p < self.pages@.len() && self.pages@[p] is Some {
            self.pages@[p]->0@[idx as int % PAGE_ENTRIES as int]
        } else {
            self.fill
        }
    }

    /// The value unwritten keys read as.
    pub closed spec fn filler(&self) -> T {
        self.fill
    }

    /// Whether the page that holds `idx` is allocated.
    pub closed spec fn has_page(&self, idx: u32) -> bool {
        let p = idx as int / PAGE_ENTRIES as int;
        p < self.pages@.len() && self.pages@[p] is Some
    }

    /// How many page slots the table holds.
    pub closed spec fn page_slots(&self) -> nat {
        self.pages@.len()
    }
}

impl<T: Copy> PagedArray<T> {
    /// An array that reads `fill` at every key and owns no page.
    pub fn new(fill: T) -> (r: Self)
        ensures
            r.wf(),
            r.filler() == fill,
            r.page_slots() == 0,
            forall|i: u32| #[trigger] r.at(i) == fill,
            forall|i: u32| !(#[trigger] r.has_page(i)),
    {
        PagedArray { pages: Vec::new(), fill }
    }

    /// The value stored at `idx`, or the fill value.
    pub fn get(&self, idx: u32) -> (r: T)
        requires
            self.wf(),
        ensures
            r == self.at(idx),
    {
        let page: usize = idx as usize / PAGE_ENTRIES;
        if page < self.pages.len() {
            match &self.pages[page] {
                Some(entries) => entries[idx as usize % PAGE_ENTRIES],
                None => self.fill,
            }
        } else {
            self.fill
        }
    }

    /// Page slots in the table, allocated or not.
    pub fn page_count(&self) -> (r: usize)
        ensures
            r == self.page_slots(),
    {
        self.pages.len()
    }

    /// A page with every entry at the fill value.
    fn fresh_page(fill: T) -> (r: Vec<T>)
        ensures
            r@.len() == PAGE_ENTRIES,
            forall|i: int| 0 <= i < PAGE_ENTRIES ==> #[trigger] r@[i] == fill,
    {
        let mut page: Vec<T> = Vec::with_capacity(PAGE_ENTRIES);
        while page.len() < PAGE_ENTRIES
            invariant
                page@.len() <= PAGE_ENTRIES,
                forall|i: int| 0 <= i < page@.len() ==> #[trigger] page@[i] == fill,
            decreases PAGE_ENTRIES - page@.len(),
        {
            page.push(fill);
        }
        page
    }
}

impl<T: Copy + PartialEq> PagedArray<T> {
    /// Store `value` at `idx`. Writing a value equal to the fill value where
    /// no page exists allocates nothing.
    pub fn set(&mut self, idx: u32, value: T)
        requires
            old(self).wf(),
            T::obeys_eq_spec(),
        ensures
            final(self).wf(),
            final(self).filler() == old(self).filler(),
            final(self).at(idx) == if !old(self).has_page(idx) && value.eq_spec(
                &old(self).filler(),
            ) {
                old(self).filler()
            } else {
                value
            },
            forall|i: u32| i != idx ==> #[trigger] final(self).at(i) == old(self).at(i),
            forall|i: u32| #[trigger]
                final(self).has_page(i) == (old(self).has_page(i) || (!value.eq_spec(
                    &old(self).filler(),
                ) && page_of(i) == page_of(idx))),
            final(self).page_slots() == if old(self).has_page(idx) || value.eq_spec(
                &old(self).filler(),
            ) || page_of(idx) < old(self).page_slots() {
                old(self).page_slots()
            } else {
                (page_of(idx) + 1) as nat
            },
    {
        let page: usize = idx as usize / PAGE_ENTRIES;
        let absent: bool = page >= self.pages.len() || self.pages[page].is_none();
        if absent && value == self.fill {
            return;
        }
        while self.pages.len() <= page
            invariant
                self.wf(),
                self.fill == old(self).fill,
                self.pages@.len() >= old(self).pages@.len(),
                self.pages@.len() == old(self).pages@.len() || self.pages@.len() <= page + 1,
                forall|p: int|
                    0 <= p < old(self).pages@.len() ==> #[trigger] self.pages@[p] == old(self).pages@[p],
                forall|p: int|
                    old(self).pages@.len() <= p < self.pages@.len()
                        ==> #[trigger] self.pages@[p] is None,
            decreases page + 1 - self.pages@.len(),
        {
            self.pages.push(None);
        }
        let mut entries: Vec<T> = match self.pages[page].take() {
            Some(entries) => entries,
            None => Self::fresh_page(self.fill),
        };
        let at: usize = idx as usize % PAGE_ENTRIES;
        entries.set(at, value);
        self.pages.set(page, Some(entries));
        proof {
            assert forall|i: u32| i != idx implies #[trigger] self.at(i) == old(self).at(i) by {
                let p = i as int / PAGE_ENTRIES as int;
                let m = i as int % PAGE_ENTRIES as int;
                assert(i as int == p * PAGE_ENTRIES as int + m);
                assert(idx as int == page as int * PAGE_ENTRIES as int + at as int);
                if p == page as int {
                    assert(m != at as int);
                }
            }
        }
    }
}

} // verus!
