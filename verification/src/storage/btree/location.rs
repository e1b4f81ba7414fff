//! Locations inside index files and the store of fixed-size pages that an
//! index file is made of.

use crate::storage::btree::page::{Page, PageView};
use vstd::prelude::*;

verus! {

/// Size in bytes of one page of an index file.
pub const PAGE_SIZE: u64 = 4096;

/// Largest number of pages an index file may hold, so that every byte offset
/// of a page fits in a `u64`.
pub const MAX_PAGES: u64 = 0xF_FFFF_FFFF_FFFF;

/// Where a row lives in a heap file.
#[derive(Clone, Copy, Debug)]
pub struct RefValueLocation {
    pub start_offset: u64,
    pub size: usize,
}

/// Where a page starts in an index file.
#[derive(Clone, Copy, Debug)]
pub struct RefPageLocation {
    pub start_offset: u64,
}

/// What an index entry points at: a row (in leaves) or a child page (in
/// internal pages).
#[derive(Clone, Copy, Debug)]
pub enum Location {
    Value(RefValueLocation),
    Page(RefPageLocation),
}

/// The slot in the page list of the page that starts at byte `off`.
pub open spec fn page_index(off: u64) -> int {
    off as int / PAGE_SIZE as int
}

/// `off` is the start of one of the first `n` pages.
pub open spec fn valid_page_offset(off: u64, n: nat) -> bool {
    off % PAGE_SIZE == 0 && page_index(off) < n
}

/// `n` blank pages, as zero bytes read.
pub open spec fn blank_pages(n: nat) -> Seq<PageView> {
    Seq::new(n, |j: int| Page::blank_view())
}

/// File `s` after page `v` is stored as page `i`: a page past the end extends
/// the file, blank pages filling any gap before it.
pub open spec fn extended(s: Seq<PageView>, i: int, v: PageView) -> Seq<PageView> {
    if i < s.len() {
        s.update(i, v)
    } else if i == s.len() {
        s.push(v)
    } else {
        (s + blank_pages((i - s.len()) as nat)).push(v)
    }
}

/// An index file: a sequence of pages, page `i` starting at byte `i * PAGE_SIZE`.
#[derive(Clone)]
pub struct PageStore {
    pages: Vec<Page>,
}

impl View for PageStore {
    type V = Seq<PageView>;

    closed spec fn view(&self) -> Seq<PageView> {
        self.pages@.map_values(|p: Page| p@)
    }
}

impl PageStore {
    /// An empty file.
    pub fn new() -> (r: Self)
        ensures
            r@ == Seq::<PageView>::empty(),
    {
        let r = PageStore { pages: Vec::new() };
        assert(r@ =~= Seq::<PageView>::empty());
        r
    }

    /// A file of `n` blank pages, as a file of zero bytes reads: each page an
    /// internal page with no separators and no children.
    pub fn with_blank_pages(n: usize) -> (r: Self)
        requires
            n <= MAX_PAGES,
        ensures
            r@.len() == n,
            forall|i: int| 0 <= i < n ==> #[trigger] r@[i] == Page::blank_view(),
    {
        let mut pages: Vec<Page> = Vec::new();
        let mut i: usize = 0;
        while i < n
            invariant
                i <= n,
                pages@.len() == i,
                forall|j: int| 0 <= j < i ==> (#[trigger] pages@[j])@ == Page::blank_view(),
            decreases n - i,
        {
            pages.push(Page::blank());
            i = i + 1;
        }
        PageStore { pages }
    }

    /// Number of pages in the file.
    pub fn page_count(&self) -> (r: usize)
        ensures
            r == self@.len(),
    {
        self.pages.len()
    }

    /// Length of the file in bytes.
    pub fn len(&self) -> (r: u64)
        requires
            self@.len() <= MAX_PAGES,
        ensures
            r == self@.len() * PAGE_SIZE,
    {
        let n = self.pages.len() as u64;
        assert(n * 4096 <= 0xF_FFFF_FFFF_FFFF * 4096) by (nonlinear_arith)
            requires n <= 0xF_FFFF_FFFF_FFFFu64;
        n * 4096
    }

    /// A copy of page `i`.
    pub fn read(&self, i: usize) -> (r: Page)
        requires
            i < self@.len(),
        ensures
            r@ == self@[i as int],
    {
        self.pages[i].copy()
    }

    /// Stores `page` as page `i`; a page past the end extends the file,
    /// blank pages (zero bytes) filling any gap before it.
    pub fn write(&mut self, i: usize, page: Page)
        requires
            i < MAX_PAGES,
        ensures
            final(self)@ == extended(old(self)@, i as int, page@),
    {
        let ghost v = page@;
        if i < self.pages.len() {
            self.pages.set(i, page);
            assert(self@ =~= old(self)@.update(i as int, v));
        } else {
            let ghost s0 = self@;
            while self.pages.len() < i
                invariant
                    s0.len() <= self@.len() <= i,
                    self@ =~= s0 + blank_pages((self@.len() - s0.len()) as nat),
                decreases i - self.pages@.len(),
            {
                let ghost before = self@;
                self.pages.push(Page::blank());
                assert(self@ =~= before.push(Page::blank_view()));
                assert(blank_pages((self@.len() - s0.len()) as nat) =~= blank_pages((before.len() - s0.len()) as nat).push(
                    Page::blank_view(),
                ));
            }
            self.pages.push(page);
            proof {
                if i == s0.len() {
                    assert(blank_pages(0) =~= Seq::<PageView>::empty());
                    assert(self@ =~= s0.push(v));
                } else {
                    assert(self@ =~= (s0 + blank_pages((i - s0.len()) as nat)).push(v));
                }
            }
        }
    }

    /// A copy of the whole file.
    pub fn copy(&self) -> (r: Self)
        ensures
            r@ == self@,
    {
        let mut pages: Vec<Page> = Vec::new();
        let mut i: usize = 0;
        while i < self.pages.len()
            invariant
                i <= self.pages@.len(),
                pages@.len() == i,
                forall|j: int| 0 <= j < i ==> (#[trigger] pages@[j])@ == self.pages@[j]@,
            decreases self.pages@.len() - i,
        {
            pages.push(self.pages[i].copy());
            i = i + 1;
        }
        let r = PageStore { pages };
        assert(r@ =~= self@);
        r
    }
}

impl Location {
    /// The page this location points at.
    pub fn load_page(&self, storage: &PageStore) -> (r: Page)
        requires
            self is Page,
            valid_page_offset(self->Page_0.start_offset, storage@.len()),
        ensures
            r@ == storage@[page_index(self->Page_0.start_offset)],
    {
        match self {
            Location::Page(p) => p.load_page(storage),
            Location::Value(_) => {
                assert(false);
                Page::blank()
            },
        }
    }

    /// Stores `page` at the page this location points at.
    pub fn write_page(&self, page: &Page, storage: &mut PageStore)
        requires
            self is Page,
            self->Page_0.start_offset % PAGE_SIZE == 0,
            page_index(self->Page_0.start_offset) < MAX_PAGES,
            page_index(self->Page_0.start_offset) <= old(storage)@.len() || page_index(self->Page_0.start_offset)
                <= usize::MAX,
        ensures
            final(storage)@ == RefPageLocation::written(old(storage)@, self->Page_0.start_offset, page@),
    {
        match self {
            Location::Page(p) => p.write_page(page, storage),
            Location::Value(_) => {
                assert(false);
            },
        }
    }
}

impl RefPageLocation {
    /// The file after page `v` is written at byte `off`.
    pub open spec fn written(s: Seq<PageView>, off: u64, v: PageView) -> Seq<PageView> {
        extended(s, page_index(off), v)
    }

    /// The location just past the end of the file, where a new page goes.
    pub fn allocate(storage: &PageStore) -> (r: Self)
        requires
            storage@.len() < MAX_PAGES,
        ensures
            r.start_offset % PAGE_SIZE == 0,
            page_index(r.start_offset) == storage@.len(),
    {
        let n = storage.page_count() as u64;
        assert(n * 4096 < 0xF_FFFF_FFFF_FFFF * 4096) by (nonlinear_arith)
            requires n < 0xF_FFFF_FFFF_FFFFu64;
        let off = n * PAGE_SIZE;
        assert(off % 4096 == 0 && off / 4096 == n) by (nonlinear_arith)
            requires off == n * 4096;
        RefPageLocation { start_offset: off }
    }

    /// The page that starts here.
    pub fn load_page(&self, file: &PageStore) -> (r: Page)
        requires
            valid_page_offset(self.start_offset, file@.len()),
        ensures
            r@ == file@[page_index(self.start_offset)],
    {
        let n = file.page_count();
        let i = self.start_offset / PAGE_SIZE;
        assert(i < n);
        file.read(i as usize)
    }

    /// Stores `page` here; a location past the end of the file extends it,
    /// blank pages filling any gap.
    pub fn write_page(&self, page: &Page, storage: &mut PageStore)
        requires
            self.start_offset % PAGE_SIZE == 0,
            page_index(self.start_offset) < MAX_PAGES,
            page_index(self.start_offset) <= old(storage)@.len() || page_index(self.start_offset) <= usize::MAX,
        ensures
            final(storage)@ == Self::written(old(storage)@, self.start_offset, page@),
    {
        let i = self.start_offset / PAGE_SIZE;
        let n = storage.page_count();
        assert(i <= usize::MAX);
        storage.write(i as usize, page.copy());
    }
}

} // verus!
