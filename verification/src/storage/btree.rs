//! Paged B-tree indexes mapping keys to the locations of rows.

pub mod btree;
pub mod check;
pub mod internal_page;
pub mod leaf_page;
pub mod location;
pub mod order;
pub mod page;
pub mod removal;
pub mod shape;
pub mod tree;

use crate::common::key_order::{
    copy_bytes, copy_keys, find_first, first_match, key_lt, keys_view, lemma_prefix_le_len, lemma_prefix_lt_len,
    lower_bound, prefix_le_len, prefix_lt_len, upper_bound, bytes_eq,
};
use crate::storage::storage_error::StorageError;
use vstd::prelude::*;

verus! {

/// Size in bytes of one page of a first-generation index file.
pub const PAGE_SIZE: u64 = 4096;

/// A page holding this many keys is split.
pub const MAX_KEYS_PER_PAGE: usize = 10;

/// A page holding no more keys than this after a removal has underflowed.
pub const MIN_KEYS_PER_PAGE: usize = MAX_KEYS_PER_PAGE / 2 - 1;

/// Largest number of pages an index file may hold, so that every byte offset
/// of a page fits in a `u64`.
pub const MAX_PAGES: u64 = 0xF_FFFF_FFFF_FFFF;

/// A first-generation B-tree index kept in the file at `file_path`, rooted at
/// `root_page_location`.
pub struct PagingBtree {
    pub file_path: String,
    pub root_page_location: PageLocation,
}

/// Where a page (or, in a leaf, a row) starts and how long it is.
#[derive(Clone, Copy, Debug)]
pub struct PageLocation {
    pub start_offset: u64,
    pub size: usize,
}

/// What adding to a page reports to its parent.
pub enum PushResult {
    Inserted,
    Overflow(OverFlowElement),
}

/// What removing from a page reports to its parent.
#[derive(Clone, Copy, Debug, PartialEq, Eq, Structural)]
pub enum RemoveResult {
    Removed,
    NotFound,
    Underflow,
}

/// The upper part of a page that was split and the key that goes with it.
pub struct OverFlowElement {
    pub key: Vec<u8>,
    pub page: Page,
}

/// A page of a first-generation index.
pub enum Page {
    Internal(InternalNode),
    Leaf(LeafNode),
}

/// Separators and the child pages between them.
pub struct InternalNode {
    separators: Vec<Vec<u8>>,
    pages: Vec<PageLocation>,
}

/// Keys and the locations of their rows.
pub struct LeafNode {
    keys: Vec<Vec<u8>>,
    value_location: Vec<PageLocation>,
}

/// A page seen as plain values: its kind, its keys (separators) and its
/// locations (children or rows).
pub struct NodeView {
    pub is_leaf: bool,
    pub keys: Seq<Seq<u8>>,
    pub locs: Seq<PageLocation>,
}

impl View for InternalNode {
    type V = NodeView;

    closed spec fn view(&self) -> NodeView {
        NodeView { is_leaf: false, keys: keys_view(self.separators@), locs: self.pages@ }
    }
}

impl View for LeafNode {
    type V = NodeView;

    closed spec fn view(&self) -> NodeView {
        NodeView { is_leaf: true, keys: keys_view(self.keys@), locs: self.value_location@ }
    }
}

impl View for Page {
    type V = NodeView;

    open spec fn view(&self) -> NodeView {
        match self {
            Page::Internal(n) => n@,
            Page::Leaf(n) => n@,
        }
    }
}

/// A first-generation index file: page `i` starts at byte `i * PAGE_SIZE`.
pub struct PageStore {
    pages: Vec<Page>,
}

impl View for PageStore {
    type V = Seq<NodeView>;

    closed spec fn view(&self) -> Seq<NodeView> {
        self.pages@.map_values(|p: Page| p@)
    }
}

/// The slot in the file of the page that starts at byte `off`.
pub open spec fn page_slot(off: u64) -> int {
    off as int / PAGE_SIZE as int
}

/// `l` is the start of one of the first `n` pages.
pub open spec fn valid_location(l: PageLocation, n: nat) -> bool {
    l.start_offset % PAGE_SIZE == 0 && page_slot(l.start_offset) < n
}

/// The file after page `v` is written at `l`: a page just past the end
/// extends it.
pub open spec fn written_at(s: Seq<NodeView>, l: PageLocation, v: NodeView) -> Seq<NodeView> {
    if page_slot(l.start_offset) < s.len() {
        s.update(page_slot(l.start_offset), v)
    } else {
        s.push(v)
    }
}

/// The child page of internal page `v` that `key` is routed to.
pub open spec fn routed(v: NodeView, key: Seq<u8>) -> int {
    prefix_le_len(v.keys, key) as int
}

/// Descending from page `v` (at most `h` levels) towards `key` reaches a leaf
/// through children that are stored pages.
pub open spec fn reach_ok(s: Seq<NodeView>, v: NodeView, h: nat, key: Seq<u8>) -> bool
    decreases h,
{
    if v.is_leaf {
        v.keys.len() == v.locs.len()
    } else {
        let i = routed(v, key);
        &&& h > 0
        &&& i < v.locs.len()
        &&& valid_location(v.locs[i], s.len())
        &&& reach_ok(s, s[page_slot(v.locs[i].start_offset)], (h - 1) as nat, key)
    }
}

/// The location `key` finds below page `v`: the first equal key of the leaf
/// that the separators route it to.
pub open spec fn find(s: Seq<NodeView>, v: NodeView, h: nat, key: Seq<u8>) -> Option<PageLocation>
    decreases h,
{
    if v.is_leaf {
        let i = first_match(v.keys, key) as int;
        if i < v.keys.len() {
            Some(v.locs[i])
        } else {
            None
        }
    } else if h == 0 {
        None
    } else {
        let i = routed(v, key);
        if 0 <= i < v.locs.len() {
            find(s, s[page_slot(v.locs[i].start_offset)], (h - 1) as nat, key)
        } else {
            None
        }
    }
}

/// Adding `key` below page `v` splits it.
pub open spec fn splits(s: Seq<NodeView>, v: NodeView, h: nat, key: Seq<u8>) -> bool
    decreases h,
{
    if v.is_leaf {
        v.keys.len() + 1 >= MAX_KEYS_PER_PAGE
    } else if h == 0 {
        false
    } else {
        let i = routed(v, key);
        0 <= i < v.locs.len() && splits(s, s[page_slot(v.locs[i].start_offset)], (h - 1) as nat, key)
            && v.keys.len() + 1 >= MAX_KEYS_PER_PAGE
    }
}

/// Adding `key` below page `v` runs without fault: the descent is sound, and
/// a child that splits is not the last one of its parent (whose separator for
/// it goes one place after the child's own).
pub open spec fn add_ok(s: Seq<NodeView>, v: NodeView, h: nat, key: Seq<u8>) -> bool
    decreases h,
{
    if v.is_leaf {
        v.keys.len() == v.locs.len()
    } else {
        let i = routed(v, key);
        let c = s[page_slot(v.locs[i].start_offset)];
        &&& h > 0
        &&& v.locs.len() == v.keys.len() + 1
        &&& i < v.locs.len()
        &&& valid_location(v.locs[i], s.len())
        &&& add_ok(s, c, (h - 1) as nat, key)
        &&& splits(s, c, (h - 1) as nat, key) ==> i < v.keys.len()
    }
}

/// Removing `key` below page `v` finds it.
pub open spec fn found(s: Seq<NodeView>, v: NodeView, h: nat, key: Seq<u8>) -> bool
    decreases h,
{
    if v.is_leaf {
        let i = prefix_lt_len(v.keys, key) as int;
        i < v.keys.len() && v.keys[i] == key
    } else if h == 0 {
        false
    } else {
        let i = routed(v, key);
        0 <= i < v.locs.len() && found(s, s[page_slot(v.locs[i].start_offset)], (h - 1) as nat, key)
    }
}

/// Removing `key` below page `v` leaves `v` short: a leaf that loses a key and
/// is left with `MIN_KEYS_PER_PAGE` or fewer, or an internal page with that
/// few separators whose child was left short.
pub open spec fn falls_short(s: Seq<NodeView>, v: NodeView, h: nat, key: Seq<u8>) -> bool
    decreases h,
{
    if v.is_leaf {
        found(s, v, h, key) && v.keys.len() - 1 <= MIN_KEYS_PER_PAGE
    } else if h == 0 {
        false
    } else {
        let i = routed(v, key);
        0 <= i < v.locs.len() && falls_short(s, s[page_slot(v.locs[i].start_offset)], (h - 1) as nat, key)
            && v.keys.len() <= MIN_KEYS_PER_PAGE
    }
}

/// Removing `key` below page `v` runs without fault: the descent is sound, and
/// a child left short is the last child of a parent with more than one child,
/// whose left sibling has an entry to take out.
pub open spec fn remove_ok(s: Seq<NodeView>, v: NodeView, h: nat, key: Seq<u8>) -> bool
    decreases h,
{
    if v.is_leaf {
        v.keys.len() == v.locs.len()
    } else {
        let i = routed(v, key);
        let c = s[page_slot(v.locs[i].start_offset)];
        &&& h > 0
        &&& i < v.locs.len()
        &&& valid_location(v.locs[i], s.len())
        &&& remove_ok(s, c, (h - 1) as nat, key)
        &&& falls_short(s, c, (h - 1) as nat, key) ==> {
            &&& i == v.locs.len() - 1
            &&& i > 0
            &&& valid_location(v.locs[i - 1], s.len())
            &&& page_slot(v.locs[i - 1].start_offset) != leaf_below(
                s,
                page_slot(v.locs[i].start_offset),
                (h - 1) as nat,
                key,
            )
            &&& s[page_slot(v.locs[i - 1].start_offset)].keys.len() > 0
            &&& s[page_slot(v.locs[i - 1].start_offset)].locs.len() > 0
        }
    }
}

/// The slot of the leaf that removing `key` below the page in slot `slot`
/// reaches (at most `h` levels down), or `-1` when there is none.
pub open spec fn leaf_below(s: Seq<NodeView>, slot: int, h: nat, key: Seq<u8>) -> int
    decreases h,
{
    let v = s[slot];
    if v.is_leaf {
        slot
    } else if h == 0 {
        -1
    } else {
        let i = routed(v, key);
        leaf_below(s, page_slot(v.locs[i].start_offset), (h - 1) as nat, key)
    }
}

/// The slot of the leaf that removing `key` below internal page `v` changes,
/// or `-1` for a leaf `v`, which is changed in memory only.
pub open spec fn leaf_of(s: Seq<NodeView>, v: NodeView, h: nat, key: Seq<u8>) -> int {
    if v.is_leaf || h == 0 {
        -1
    } else {
        leaf_below(s, page_slot(v.locs[routed(v, key)].start_offset), (h - 1) as nat, key)
    }
}

/// Leaf `v` without the key equal to `key` at the position of its first key
/// not before `key`, if that key is `key`.
pub open spec fn without_key(v: NodeView, key: Seq<u8>) -> NodeView {
    let i = prefix_lt_len(v.keys, key) as int;
    if i < v.keys.len() && v.keys[i] == key {
        NodeView { is_leaf: true, keys: v.keys.remove(i), locs: v.locs.remove(i) }
    } else {
        v
    }
}

/// Removing `key` from a leaf whose keys strictly increase (`without_key`)
/// takes out exactly that key, when the leaf holds it, and nothing else:
/// afterwards the leaf holds no `key`, holds every other key it held, and is
/// one key shorter exactly when it held `key`.
pub proof fn lemma_without_key_drops_key(v: NodeView, key: Seq<u8>)
    requires
        forall|a: int, b: int| 0 <= a < b < v.keys.len() ==> key_lt(#[trigger] v.keys[a], #[trigger] v.keys[b]),
    ensures
        !without_key(v, key).keys.contains(key),
        forall|k: Seq<u8>| k != key ==> (#[trigger] without_key(v, key).keys.contains(k) <==> v.keys.contains(k)),
        without_key(v, key).keys.len() + (if v.keys.contains(key) { 1int } else { 0int }) == v.keys.len(),
{
    let ks = v.keys;
    let i = prefix_lt_len(ks, key) as int;
    lemma_prefix_lt_len(ks, key);
    crate::common::key_order::lemma_key_order_facts();
    assert forall|j: int| 0 <= j < ks.len() && ks[j] == key implies j == i by {
        if j < i {
            crate::common::key_order::lemma_key_lt_irreflexive(key);
        } else if j > i {
            crate::common::key_order::lemma_key_lt_total(ks[i], key);
            assert(key_lt(ks[i], ks[j]));
        }
    }
    if i < ks.len() && ks[i] == key {
        let n = ks.remove(i);
        assert forall|k: Seq<u8>| k != key implies (n.contains(k) <==> ks.contains(k)) by {
            if ks.contains(k) {
                let j = choose|j: int| 0 <= j < ks.len() && ks[j] == k;
                if j < i {
                    assert(n[j] == k);
                } else {
                    assert(j != i);
                    assert(n[j - 1] == k);
                }
            }
            if n.contains(k) {
                let j = choose|j: int| 0 <= j < n.len() && n[j] == k;
                if j < i {
                    assert(ks[j] == k);
                } else {
                    assert(ks[j + 1] == k);
                }
            }
        }
        assert(!n.contains(key)) by {
            if n.contains(key) {
                let j = choose|j: int| 0 <= j < n.len() && n[j] == key;
                if j < i {
                    assert(ks[j] == key);
                } else {
                    assert(ks[j + 1] == key);
                }
            }
        }
        assert(ks.contains(key)) by {
            assert(ks[i] == key);
        }
    } else {
        assert(!ks.contains(key));
    }
}

/// The page that `leaf_below` reaches is a leaf.
pub proof fn lemma_leaf_below_is_leaf(s: Seq<NodeView>, slot: int, h: nat, key: Seq<u8>)
    requires
        0 <= slot < s.len(),
        remove_ok(s, s[slot], h, key),
    ensures
        0 <= leaf_below(s, slot, h, key) < s.len(),
        s[leaf_below(s, slot, h, key)].is_leaf,
    decreases h,
{
    let v = s[slot];
    if !v.is_leaf {
        let i = routed(v, key);
        lemma_leaf_below_is_leaf(s, page_slot(v.locs[i].start_offset), (h - 1) as nat, key);
    }
}

/// What removing `key` below page `v` reports.
pub open spec fn removal(s: Seq<NodeView>, v: NodeView, h: nat, key: Seq<u8>) -> RemoveResult {
    if !found(s, v, h, key) {
        RemoveResult::NotFound
    } else if falls_short(s, v, h, key) {
        RemoveResult::Underflow
    } else {
        RemoveResult::Removed
    }
}

/// Internal page `v`, whose child `i` split, after taking in the key `okey`
/// of the split-off page one place after child `i`'s own separator and its
/// location `loc` just after child `i`: kept whole, reporting `Inserted`,
/// while it has fewer than `MAX_KEYS_PER_PAGE` separators; else split as
/// `InternalNode::split` does, its lower half kept as `fin`.
pub open spec fn took_child_split(v: NodeView, i: int, okey: Seq<u8>, loc: PageLocation, r: PushResult, fin: NodeView) -> bool {
    let w = NodeView { is_leaf: false, keys: v.keys.insert(i + 1, okey), locs: v.locs.insert(i + 1, loc) };
    if w.keys.len() >= MAX_KEYS_PER_PAGE {
        &&& r is Overflow
        &&& fin == (NodeView {
            is_leaf: false,
            keys: w.keys.take((w.keys.len() / 2) as int),
            locs: w.locs.take((w.locs.len() / 2) as int),
        })
    } else {
        &&& r is Inserted
        &&& fin == w
    }
}

/// A height for which looking up `key` from the root page at `root` is sound.
pub open spec fn get_height(s: Seq<NodeView>, root: PageLocation, key: Seq<u8>) -> nat {
    choose|h: nat| reach_ok(s, s[page_slot(root.start_offset)], h, key)
}

/// A height for which removing `key` from the tree rooted at `root` runs
/// without fault and leaves the root in place.
pub open spec fn remove_height(s: Seq<NodeView>, root: PageLocation, key: Seq<u8>) -> nat {
    choose|h: nat|
        remove_ok(s, s[page_slot(root.start_offset)], h, key) && !falls_short(
            s,
            s[page_slot(root.start_offset)],
            h,
            key,
        )
}

/// A height for which adding `key` to the tree rooted at `root` runs without
/// fault, with room in the file for the pages it adds.
pub open spec fn add_height(s: Seq<NodeView>, root: PageLocation, key: Seq<u8>) -> nat {
    choose|h: nat| add_ok(s, s[page_slot(root.start_offset)], h, key) && s.len() + h + 2 <= MAX_PAGES
}

impl PagingBtree {
    /// A tree kept in the file at `file_path`, rooted at its first page.
    pub fn new(file_path: String) -> (r: Self)
        ensures
            r.file_path@ == file_path@,
            r.root_page_location == (PageLocation { start_offset: 0, size: 4096 }),
    {
        Self { file_path: file_path.clone(), root_page_location: PageLocation { start_offset: 0, size: 4096 } }
    }

    /// The location that `key` finds (see `find`).
    pub fn get(&self, key: &[u8], storage: &PageStore) -> (r: Option<PageLocation>)
        requires
            valid_location(self.root_page_location, storage@.len()),
            exists|h: nat| reach_ok(storage@, storage@[page_slot(self.root_page_location.start_offset)], h, key@),
        ensures
            r == find(
                storage@,
                storage@[page_slot(self.root_page_location.start_offset)],
                get_height(storage@, self.root_page_location, key@),
                key@,
            ),
    {
        let ghost h = get_height(storage@, self.root_page_location, key@);
        let page = self.root_page_location.load_page(storage);
        page.get(key, storage, Ghost(h))
    }

    /// Removes `key` below the root page, which is changed in memory only.
    pub fn remove(&self, key: &[u8], storage: &mut PageStore) -> (r: Result<(), StorageError>)
        requires
            valid_location(self.root_page_location, old(storage)@.len()),
            exists|h: nat|
                remove_ok(old(storage)@, old(storage)@[page_slot(self.root_page_location.start_offset)], h, key@)
                    && !falls_short(
                    old(storage)@,
                    old(storage)@[page_slot(self.root_page_location.start_offset)],
                    h,
                    key@,
                ),
        ensures
            r is Ok,
            final(storage)@.len() == old(storage)@.len(),
            ({
                let s = old(storage)@;
                let h = remove_height(s, self.root_page_location, key@);
                let l = leaf_of(s, s[page_slot(self.root_page_location.start_offset)], h, key@);
                &&& forall|j: int| 0 <= j < s.len() && j != l ==> #[trigger] final(storage)@[j] == s[j]
                &&& !s[page_slot(self.root_page_location.start_offset)].is_leaf ==> final(storage)@[l] == without_key(
                    s[l],
                    key@,
                )
            }),
            !found(
                old(storage)@,
                old(storage)@[page_slot(self.root_page_location.start_offset)],
                remove_height(old(storage)@, self.root_page_location, key@),
                key@,
            ) ==> final(storage)@ == old(storage)@,
    {
        let ghost h = remove_height(storage@, self.root_page_location, key@);
        let mut root_page = self.root_page_location.load_page(storage);
        let result = root_page.remove(key, storage, Ghost(h));
        match result {
            RemoveResult::NotFound => Ok(()),
            RemoveResult::Removed => Ok(()),
            RemoveResult::Underflow => {
                proof {
                    assert(false);
                }
                Ok(())
            },
        }
    }

    /// Adds `key` with `value`; when the root splits, both parts move to new
    /// pages below a new root at the root's location.
    pub fn add(&mut self, key: &[u8], value: PageLocation, storage: &mut PageStore) -> (r: Result<(), StorageError>)
        requires
            valid_location(old(self).root_page_location, old(storage)@.len()),
            exists|h: nat|
                add_ok(old(storage)@, old(storage)@[page_slot(old(self).root_page_location.start_offset)], h, key@)
                    && old(storage)@.len() + h + 2 <= MAX_PAGES,
        ensures
            r is Ok,
            final(self).root_page_location == old(self).root_page_location,
            final(self).file_path == old(self).file_path,
            old(storage)@.len() <= final(storage)@.len(),
            ({
                let s = old(storage)@;
                let ri = page_slot(old(self).root_page_location.start_offset);
                let h = add_height(s, old(self).root_page_location, key@);
                &&& final(storage)@.len() <= s.len() + h + 2
                &&& splits(s, s[ri], h, key@) ==> {
                    &&& !final(storage)@[ri].is_leaf
                    &&& final(storage)@[ri].keys.len() == 1
                    &&& final(storage)@[ri].locs.len() == 2
                }
            }),
    {
        let ghost h = add_height(storage@, self.root_page_location, key@);
        let mut root_page = self.root_page_location.load_page(storage);
        let result = root_page.add(key, value, storage, Ghost(h));
        match result {
            PushResult::Overflow(overflow) => {
                let right_page_loc = PageLocation::allocate(storage);
                right_page_loc.write_page(&overflow.page, storage);
                let left_page_loc = PageLocation::allocate(storage);
                left_page_loc.write_page(&root_page, storage);
                let new_root_page = Page::Internal(
                    InternalNode { separators: vec![overflow.key], pages: vec![left_page_loc, right_page_loc] },
                );
                self.root_page_location.write_page(&new_root_page, storage);
                proof {
                    assert(new_root_page@.keys.len() == 1);
                }
                Ok(())
            },
            PushResult::Inserted => {
                self.root_page_location.write_page(&root_page, storage);
                Ok(())
            },
        }
    }
}

impl PageStore {
    /// A file of `n` blank pages, as a file of zero bytes reads: each page an
    /// internal page with no separators and no children.
    pub fn with_blank_pages(n: usize) -> (r: Self)
        requires
            n <= MAX_PAGES,
        ensures
            r@.len() == n,
            forall|i: int| 0 <= i < n ==> #[trigger] r@[i] == (NodeView { is_leaf: false, keys: Seq::empty(), locs: Seq::empty() }),
    {
        let mut pages: Vec<Page> = Vec::new();
        let mut i: usize = 0;
        while i < n
            invariant
                i <= n,
                pages@.len() == i,
                forall|j: int| 0 <= j < i ==> (#[trigger] pages@[j])@ == (NodeView { is_leaf: false, keys: Seq::empty(), locs: Seq::empty() }),
            decreases n - i,
        {
            let blank = InternalNode { separators: Vec::new(), pages: Vec::new() };
            assert(blank@.keys =~= Seq::<Seq<u8>>::empty());
            pages.push(Page::Internal(blank));
            i = i + 1;
        }
        PageStore { pages }
    }

    /// Number of pages in the file.
    pub fn page_count(&self) -> (r: usize)
        ensures
            r == self@.len(),
    {
        self.pages.len()
    }

    /// A copy of page `i`.
    pub fn read(&self, i: usize) -> (r: Page)
        requires
            i < self@.len(),
        ensures
            r@ == self@[i as int],
    {
        self.pages[i].copy()
    }

    /// Stores `page` as page `i`; `i` may be one past the last page, which
    /// extends the file by a page.
    pub fn write(&mut self, i: usize, page: Page)
        requires
            i <= old(self)@.len(),
        ensures
            i < old(self)@.len() ==> final(self)@ == old(self)@.update(i as int, page@),
            i == old(self)@.len() ==> final(self)@ == old(self)@.push(page@),
    {
        let ghost v = page@;
        if i < self.pages.len() {
            self.pages.set(i, page);
            assert(self@ =~= old(self)@.update(i as int, v));
        } else {
            self.pages.push(page);
            assert(self@ =~= old(self)@.push(v));
        }
    }
}

impl PageLocation {
    /// The location just past the end of the file, where a new page goes.
    pub fn allocate(storage: &PageStore) -> (r: Self)
        requires
            storage@.len() < MAX_PAGES,
        ensures
            r.start_offset % PAGE_SIZE == 0,
            page_slot(r.start_offset) == storage@.len(),
            r.size == PAGE_SIZE,
    {
        let n = storage.page_count() as u64;
        assert(n * 4096 < 0xF_FFFF_FFFF_FFFF * 4096) by (nonlinear_arith)
            requires
                n < 0xF_FFFF_FFFF_FFFFu64,
        ;
        let off = n * PAGE_SIZE;
        assert(off % 4096 == 0 && off / 4096 == n) by (nonlinear_arith)
            requires
                off == n * 4096,
        ;
        PageLocation { start_offset: off, size: 4096 }
    }

    /// The page that starts here.
    pub fn load_page(&self, file: &PageStore) -> (r: Page)
        requires
            valid_location(*self, file@.len()),
        ensures
            r@ == file@[page_slot(self.start_offset)],
    {
        let n = file.page_count();
        let i = self.start_offset / PAGE_SIZE;
        assert(i < n);
        file.read(i as usize)
    }

    /// Stores `page` here; a location just past the end of the file extends it.
    pub fn write_page(&self, page: &Page, storage: &mut PageStore)
        requires
            self.start_offset % PAGE_SIZE == 0,
            page_slot(self.start_offset) <= old(storage)@.len(),
        ensures
            final(storage)@ == written_at(old(storage)@, *self, page@),
    {
        let n = storage.page_count();
        let i = self.start_offset / PAGE_SIZE;
        assert(i <= n);
        storage.write(i as usize, page.copy());
    }
}

/// A copy of a list of page locations.
fn copy_page_locations(v: &Vec<PageLocation>) -> (r: Vec<PageLocation>)
    ensures
        r@ == v@,
{
    let mut r: Vec<PageLocation> = Vec::new();
    let mut i: usize = 0;
    while i < v.len()
        invariant
            i <= v.len(),
            r@ == v@.take(i as int),
        decreases v.len() - i,
    {
        r.push(v[i]);
        i = i + 1;
        assert(r@ =~= v@.take(i as int));
    }
    assert(v@.take(v@.len() as int) =~= v@);
    r
}

impl LeafNode {
    /// Takes out the first key and its location.
    pub fn pop_first(&mut self) -> (r: (Vec<u8>, PageLocation))
        requires
            old(self)@.keys.len() > 0,
            old(self)@.locs.len() > 0,
        ensures
            r.0@ == old(self)@.keys[0],
            r.1 == old(self)@.locs[0],
            final(self)@ == (NodeView { is_leaf: true, keys: old(self)@.keys.drop_first(), locs: old(self)@.locs.drop_first() }),
    {
        let separator = self.keys.remove(0);
        let page_loc = self.value_location.remove(0);
        assert(self@.keys =~= old(self)@.keys.drop_first());
        assert(self@.locs =~= old(self)@.locs.drop_first());
        (separator, page_loc)
    }

    /// Takes out the last key and its location.
    pub fn pop_last(&mut self) -> (r: (Vec<u8>, PageLocation))
        requires
            old(self)@.keys.len() > 0,
            old(self)@.locs.len() > 0,
        ensures
            r.0@ == old(self)@.keys.last(),
            r.1 == old(self)@.locs.last(),
            final(self)@ == (NodeView { is_leaf: true, keys: old(self)@.keys.drop_last(), locs: old(self)@.locs.drop_last() }),
    {
        let separator = self.keys.remove(self.keys.len() - 1);
        let page_loc = self.value_location.remove(self.value_location.len() - 1);
        assert(self@.keys =~= old(self)@.keys.drop_last());
        assert(self@.locs =~= old(self)@.locs.drop_last());
        (separator, page_loc)
    }

    /// Removes the key equal to `key` at the position of the first key not
    /// before it, and reports whether the leaf fell to `MIN_KEYS_PER_PAGE`
    /// keys or fewer.
    pub fn remove(&mut self, key: &[u8]) -> (r: RemoveResult)
        requires
            old(self)@.keys.len() == old(self)@.locs.len(),
        ensures
            ({
                let v = old(self)@;
                let i = prefix_lt_len(v.keys, key@) as int;
                if i < v.keys.len() && v.keys[i] == key@ {
                    &&& final(self)@ == (NodeView { is_leaf: true, keys: v.keys.remove(i), locs: v.locs.remove(i) })
                    &&& r == if v.keys.len() - 1 > MIN_KEYS_PER_PAGE {
                        RemoveResult::Removed
                    } else {
                        RemoveResult::Underflow
                    }
                } else {
                    &&& final(self)@ == v
                    &&& r == RemoveResult::NotFound
                }
            }),
    {
        let index = lower_bound(&self.keys, key);
        proof {
            lemma_prefix_lt_len(old(self)@.keys, key@);
        }
        if index < self.keys.len() && bytes_eq(self.keys[index].as_slice(), key) {
            self.keys.remove(index);
            self.value_location.remove(index);
            assert(self@.keys =~= old(self)@.keys.remove(index as int));
            if self.keys.len() > MIN_KEYS_PER_PAGE {
                RemoveResult::Removed
            } else {
                RemoveResult::Underflow
            }
        } else {
            RemoveResult::NotFound
        }
    }

    /// The location of the first key equal to `key`.
    pub fn get(&self, key: &[u8]) -> (r: Option<PageLocation>)
        requires
            self@.keys.len() == self@.locs.len(),
        ensures
            r == (if first_match(self@.keys, key@) < self@.keys.len() {
                Some(self@.locs[first_match(self@.keys, key@) as int])
            } else {
                None
            }),
    {
        let i = find_first(&self.keys, key);
        if i < self.keys.len() {
            Some(self.value_location[i])
        } else {
            None
        }
    }

    /// Inserts `key` after every key at or before it; a leaf that reaches
    /// `MAX_KEYS_PER_PAGE` keys is split and its upper part handed back.
    pub fn add(&mut self, key: &[u8], value: PageLocation) -> (r: PushResult)
        requires
            old(self)@.keys.len() == old(self)@.locs.len(),
        ensures
            ({
                let v = old(self)@;
                let i = prefix_le_len(v.keys, key@) as int;
                let n = NodeView { is_leaf: true, keys: v.keys.insert(i, key@), locs: v.locs.insert(i, value) };
                if n.keys.len() >= MAX_KEYS_PER_PAGE {
                    &&& r matches PushResult::Overflow(o) && o.key@ == n.keys[5] && o.page@ == (NodeView {
                        is_leaf: true,
                        keys: n.keys.skip(5),
                        locs: n.locs.skip(5),
                    })
                    &&& final(self)@ == (NodeView { is_leaf: true, keys: n.keys.take(5), locs: n.locs.take(5) })
                } else {
                    &&& r is Inserted
                    &&& final(self)@ == n
                }
            }),
    {
        let index = self.index_of(key);
        proof {
            lemma_prefix_le_len(old(self)@.keys, key@);
        }
        self.keys.insert(index, copy_bytes(key));
        self.value_location.insert(index, value);
        assert(self@.keys =~= old(self)@.keys.insert(index as int, key@));
        if self.keys.len() >= MAX_KEYS_PER_PAGE {
            let (page, key) = self.split();
            return PushResult::Overflow(OverFlowElement { key, page });
        }
        PushResult::Inserted
    }

    /// Keeps the first `MAX_KEYS_PER_PAGE / 2` keys and hands back a leaf of
    /// the rest together with its first key.
    fn split(&mut self) -> (r: (Page, Vec<u8>))
        requires
            old(self)@.keys.len() > MAX_KEYS_PER_PAGE / 2,
            old(self)@.locs.len() >= MAX_KEYS_PER_PAGE / 2,
        ensures
            final(self)@ == (NodeView { is_leaf: true, keys: old(self)@.keys.take(5), locs: old(self)@.locs.take(5) }),
            r.0@ == (NodeView { is_leaf: true, keys: old(self)@.keys.skip(5), locs: old(self)@.locs.skip(5) }),
            r.1@ == old(self)@.keys[5],
    {
        let r_keys = self.keys.split_off(MAX_KEYS_PER_PAGE / 2);
        let r_val_loc = self.value_location.split_off(MAX_KEYS_PER_PAGE / 2);
        let m_key = copy_bytes(r_keys[0].as_slice());
        let right = LeafNode { keys: r_keys, value_location: r_val_loc };
        assert(self@.keys =~= old(self)@.keys.take(5));
        assert(right@.keys =~= old(self)@.keys.skip(5));
        (Page::Leaf(right), m_key)
    }

    /// Position after every key at or before `key`.
    fn index_of(&self, key: &[u8]) -> (r: usize)
        ensures
            r == prefix_le_len(self@.keys, key@),
    {
        upper_bound(&self.keys, key)
    }
}

impl InternalNode {
    /// Takes out the first separator and the first child.
    pub fn pop_first(&mut self) -> (r: (Vec<u8>, PageLocation))
        requires
            old(self)@.keys.len() > 0,
            old(self)@.locs.len() > 0,
        ensures
            r.0@ == old(self)@.keys[0],
            r.1 == old(self)@.locs[0],
            final(self)@ == (NodeView { is_leaf: false, keys: old(self)@.keys.drop_first(), locs: old(self)@.locs.drop_first() }),
    {
        let separator = self.separators.remove(0);
        let page_loc = self.pages.remove(0);
        assert(self@.keys =~= old(self)@.keys.drop_first());
        assert(self@.locs =~= old(self)@.locs.drop_first());
        (separator, page_loc)
    }

    /// Takes out the last separator and the last child.
    pub fn pop_last(&mut self) -> (r: (Vec<u8>, PageLocation))
        requires
            old(self)@.keys.len() > 0,
            old(self)@.locs.len() > 0,
        ensures
            r.0@ == old(self)@.keys.last(),
            r.1 == old(self)@.locs.last(),
            final(self)@ == (NodeView { is_leaf: false, keys: old(self)@.keys.drop_last(), locs: old(self)@.locs.drop_last() }),
    {
        let separator = self.separators.remove(self.separators.len() - 1);
        let page_loc = self.pages.remove(self.pages.len() - 1);
        assert(self@.keys =~= old(self)@.keys.drop_last());
        assert(self@.locs =~= old(self)@.locs.drop_last());
        (separator, page_loc)
    }

    /// Removes `key` below this page (at most `h` levels deep) and stores the
    /// child it was routed to back. A child left short makes this page take
    /// out the last entry of a copy of the child's left sibling, which is not
    /// stored; this page reports `Underflow` when it holds
    /// `MIN_KEYS_PER_PAGE` separators or fewer.
    pub fn remove(&self, key: &[u8], storage: &mut PageStore, Ghost(h): Ghost<nat>) -> (r: RemoveResult)
        requires
            remove_ok(old(storage)@, self@, h, key@),
        ensures
            r == removal(old(storage)@, self@, h, key@),
            final(storage)@.len() == old(storage)@.len(),
            forall|j: int|
                0 <= j < old(storage)@.len() && j != leaf_of(old(storage)@, self@, h, key@) ==> #[trigger] final(storage)@[j] == old(storage)@[j],
            final(storage)@[leaf_of(old(storage)@, self@, h, key@)] == without_key(
                old(storage)@[leaf_of(old(storage)@, self@, h, key@)],
                key@,
            ),
            r == RemoveResult::NotFound ==> final(storage)@ == old(storage)@,
        decreases h, 0nat,
    {
        let ghost s0 = storage@;
        let index = self.index_of(key);
        assert(index < self.pages.len());
        let page_loc = self.pages[index];
        let mut page = page_loc.load_page(storage);
        let ghost c = page_slot(page_loc.start_offset);
        let result = page.remove(key, storage, Ghost((h - 1) as nat));
        page_loc.write_page(&page, storage);
        proof {
            if page@.is_leaf {
                assert(leaf_of(s0, self@, h, key@) == c);
                assert(storage@[c] == without_key(s0[c], key@));
            } else {
                assert(leaf_of(s0, self@, h, key@) == leaf_of(s0, s0[c], (h - 1) as nat, key@));
                let l = leaf_of(s0, self@, h, key@);
                lemma_leaf_below_is_leaf(s0, c, (h - 1) as nat, key@);
                assert(l != c);
                assert(storage@[l] == without_key(s0[l], key@));
            }
            assert(storage@[leaf_of(s0, self@, h, key@)] == without_key(s0[leaf_of(s0, self@, h, key@)], key@));
            if result == RemoveResult::NotFound {
                assert(storage@ =~= s0);
            }
        }
        match result {
            RemoveResult::NotFound => RemoveResult::NotFound,
            RemoveResult::Removed => RemoveResult::Removed,
            RemoveResult::Underflow => {
                let r_page_loc = if index + 1 < self.pages.len() {
                    Some(self.pages[index + 1])
                } else {
                    None
                };
                let l_page_loc = if index - 1 < self.pages.len() {
                    Some(self.pages[index - 1])
                } else {
                    None
                };
                let r_page = match r_page_loc {
                    None => None,
                    Some(loc) => Some(loc.load_page(storage)),
                };
                let l_page = match l_page_loc {
                    None => None,
                    Some(loc) => {
                        proof {
                            assert(storage@[page_slot(loc.start_offset)] == s0[page_slot(loc.start_offset)]);
                        }
                        Some(loc.load_page(storage))
                    },
                };
                match (l_page, r_page) {
                    (None, None) => {
                        proof {
                            assert(false);
                        }
                    },
                    (Some(mut l_page), None) => {
                        let (_key, _ref_page) = l_page.pop_last();
                    },
                    (None, Some(mut r_page)) => {
                        proof {
                            assert(false);
                        }
                    },
                    (Some(_l_page), Some(_r_page)) => {
                        proof {
                            assert(false);
                        }
                    },
                };
                if self.separators.len() > MIN_KEYS_PER_PAGE {
                    RemoveResult::Removed
                } else {
                    RemoveResult::Underflow
                }
            },
        }
    }

    /// The location that `key` finds below this page (see `find`).
    pub fn get(&self, key: &[u8], storage: &PageStore, Ghost(h): Ghost<nat>) -> (r: Option<PageLocation>)
        requires
            reach_ok(storage@, self@, h, key@),
        ensures
            r == find(storage@, self@, h, key@),
        decreases h, 0nat,
    {
        let index = self.index_of(key);
        self.pages[index].load_page(storage).get(key, storage, Ghost((h - 1) as nat))
    }

    /// Adds `key` with `value` below this page: the child it is routed to
    /// takes it and is stored back; a child that splits puts its key one place
    /// after its own separator and its upper part on a new page just after it,
    /// and this page splits in turn once it holds `MAX_KEYS_PER_PAGE`
    /// separators.
    pub fn add(&mut self, key: &[u8], value: PageLocation, storage: &mut PageStore, Ghost(h): Ghost<nat>) -> (r:
        PushResult)
        requires
            add_ok(old(storage)@, old(self)@, h, key@),
            old(storage)@.len() + h <= MAX_PAGES,
        ensures
            (r is Overflow) == splits(old(storage)@, old(self)@, h, key@),
            old(storage)@.len() <= final(storage)@.len() <= old(storage)@.len() + h,
            !splits(
                old(storage)@,
                old(storage)@[page_slot(old(self)@.locs[routed(old(self)@, key@)].start_offset)],
                (h - 1) as nat,
                key@,
            ) ==> final(self)@ == old(self)@,
            splits(
                old(storage)@,
                old(storage)@[page_slot(old(self)@.locs[routed(old(self)@, key@)].start_offset)],
                (h - 1) as nat,
                key@,
            ) ==> exists|okey: Seq<u8>, loc: PageLocation|
                loc.start_offset % PAGE_SIZE == 0 && page_slot(loc.start_offset) == final(storage)@.len() - 1
                    && #[trigger] took_child_split(old(self)@, routed(old(self)@, key@), okey, loc, r, final(self)@),
        decreases h, 0nat,
    {
        let ghost s0 = storage@;
        let ghost v0 = self@;
        let index = self.index_of(key);
        let page_loc = self.pages[index];
        let mut page = page_loc.load_page(storage);
        let result = page.add(key, value, storage, Ghost((h - 1) as nat));
        page_loc.write_page(&page, storage);
        match result {
            PushResult::Inserted => PushResult::Inserted,
            PushResult::Overflow(overflow) => {
                assert(index < self.separators.len());
                let ghost okey = overflow.key@;
                self.separators.insert(index + 1, overflow.key);
                let p_location = PageLocation::allocate(storage);
                p_location.write_page(&overflow.page, storage);
                self.pages.insert(index + 1, p_location);
                let ghost w = self@;
                proof {
                    assert(w.keys =~= v0.keys.insert(index + 1, okey));
                    assert(w.locs =~= v0.locs.insert(index + 1, p_location));
                }
                if self.separators.len() >= MAX_KEYS_PER_PAGE {
                    let (page, key) = self.split();
                    let r = PushResult::Overflow(OverFlowElement { key, page });
                    assert(took_child_split(v0, index as int, okey, p_location, r, self@));
                    r
                } else {
                    assert(took_child_split(v0, index as int, okey, p_location, PushResult::Inserted, self@));
                    PushResult::Inserted
                }
            },
        }
    }

    /// Keeps the first half of the separators and of the children and hands
    /// back a page of the rest, together with its first separator.
    pub fn split(&mut self) -> (r: (Page, Vec<u8>))
        requires
            old(self)@.keys.len() > 0,
        ensures
            ({
                let v = old(self)@;
                let m = (v.keys.len() / 2) as int;
                let k = (v.locs.len() / 2) as int;
                &&& final(self)@ == (NodeView { is_leaf: false, keys: v.keys.take(m), locs: v.locs.take(k) })
                &&& r.0@ == (NodeView { is_leaf: false, keys: v.keys.skip(m), locs: v.locs.skip(k) })
                &&& r.1@ == v.keys[m]
            }),
    {
        let r_separators = self.separators.split_off(self.separators.len() / 2);
        let r_pages = self.pages.split_off(self.pages.len() / 2);
        let key = copy_bytes(r_separators[0].as_slice());
        let right = InternalNode { separators: r_separators, pages: r_pages };
        proof {
            let v = old(self)@;
            assert(self@.keys =~= v.keys.take((v.keys.len() / 2) as int));
            assert(right@.keys =~= v.keys.skip((v.keys.len() / 2) as int));
        }
        (Page::Internal(right), key)
    }

    /// Index of the child that `key` is routed to: the position after every
    /// separator at or before `key`.
    fn index_of(&self, key: &[u8]) -> (r: usize)
        ensures
            r == prefix_le_len(self@.keys, key@),
    {
        upper_bound(&self.separators, key)
    }
}

impl Page {
    /// Adds `key` with `value` below this page (at most `h` levels deep) and
    /// reports a split to the caller, who stores this page back.
    pub fn add(&mut self, key: &[u8], value: PageLocation, storage: &mut PageStore, Ghost(h): Ghost<nat>) -> (r:
        PushResult)
        requires
            add_ok(old(storage)@, old(self)@, h, key@),
            old(storage)@.len() + h <= MAX_PAGES,
        ensures
            (r is Overflow) == splits(old(storage)@, old(self)@, h, key@),
            old(storage)@.len() <= final(storage)@.len() <= old(storage)@.len() + h,
        decreases h, 1nat,
    {
        let ghost v = self@;
        let ghost s0 = storage@;
        let r = match self {
            Page::Internal(node) => {
                let r = node.add(key, value, storage, Ghost(h));
                assert((r is Overflow) == splits(s0, v, h, key@));
                r
            },
            Page::Leaf(node) => {
                proof {
                    lemma_prefix_le_len(v.keys, key@);
                }
                node.add(key, value)
            },
        };
        r
    }

    /// Splits this page and hands back its upper part with the key that goes
    /// with it.
    pub fn split(&mut self) -> (r: (Page, Vec<u8>))
        requires
            old(self)@.keys.len() > MAX_KEYS_PER_PAGE / 2,
            old(self)@.is_leaf ==> old(self)@.locs.len() >= MAX_KEYS_PER_PAGE / 2,
        ensures
            ({
                let v = old(self)@;
                let m = if v.is_leaf { 5 } else { v.keys.len() / 2 };
                let k = if v.is_leaf { 5 } else { v.locs.len() / 2 };
                &&& final(self)@ == (NodeView { is_leaf: v.is_leaf, keys: v.keys.take(m as int), locs: v.locs.take(k as int) })
                &&& r.0@ == (NodeView { is_leaf: v.is_leaf, keys: v.keys.skip(m as int), locs: v.locs.skip(k as int) })
                &&& r.1@ == v.keys[m as int]
            }),
    {
        match self {
            Page::Internal(internal) => internal.split(),
            Page::Leaf(leaf) => leaf.split(),
        }
    }

    /// The location that `key` finds below this page (see `find`).
    pub fn get(&self, key: &[u8], storage: &PageStore, Ghost(h): Ghost<nat>) -> (r: Option<PageLocation>)
        requires
            reach_ok(storage@, self@, h, key@),
        ensures
            r == find(storage@, self@, h, key@),
        decreases h, 1nat,
    {
        match self {
            Page::Internal(internal) => internal.get(key, storage, Ghost(h)),
            Page::Leaf(leaf) => leaf.get(key),
        }
    }

    /// Removes `key` below this page (see `InternalNode::remove`); a leaf is
    /// changed in memory only.
    pub fn remove(&mut self, key: &[u8], storage: &mut PageStore, Ghost(h): Ghost<nat>) -> (r: RemoveResult)
        requires
            remove_ok(old(storage)@, old(self)@, h, key@),
        ensures
            r == removal(old(storage)@, old(self)@, h, key@),
            final(storage)@.len() == old(storage)@.len(),
            forall|j: int|
                0 <= j < old(storage)@.len() && j != leaf_of(old(storage)@, old(self)@, h, key@) ==> #[trigger] final(storage)@[j] == old(storage)@[j],
            r == RemoveResult::NotFound ==> final(storage)@ == old(storage)@,
            !old(self)@.is_leaf ==> final(self)@ == old(self)@,
            !old(self)@.is_leaf ==> final(storage)@[leaf_of(old(storage)@, old(self)@, h, key@)] == without_key(
                old(storage)@[leaf_of(old(storage)@, old(self)@, h, key@)],
                key@,
            ),
            old(self)@.is_leaf ==> {
                let v = old(self)@;
                let i = prefix_lt_len(v.keys, key@) as int;
                &&& final(storage)@ == old(storage)@
                &&& final(self)@ == if r == RemoveResult::NotFound {
                    v
                } else {
                    NodeView { is_leaf: true, keys: v.keys.remove(i), locs: v.locs.remove(i) }
                }
            },
        decreases h, 1nat,
    {
        match self {
            Page::Internal(internal) => internal.remove(key, storage, Ghost(h)),
            Page::Leaf(leaf) => leaf.remove(key),
        }
    }

    /// Takes out the first key and location.
    pub fn pop_first(&mut self) -> (r: (Vec<u8>, Option<PageLocation>))
        requires
            old(self)@.keys.len() > 0,
            old(self)@.locs.len() > 0,
        ensures
            r.0@ == old(self)@.keys[0],
            r.1 == Some(old(self)@.locs[0]),
            final(self)@ == (NodeView { is_leaf: old(self)@.is_leaf, keys: old(self)@.keys.drop_first(), locs: old(self)@.locs.drop_first() }),
    {
        let (k, l) = match self {
            Page::Internal(internal) => internal.pop_first(),
            Page::Leaf(leaf) => leaf.pop_first(),
        };
        (k, Some(l))
    }

    /// Takes out the last key and location.
    pub fn pop_last(&mut self) -> (r: (Vec<u8>, Option<PageLocation>))
        requires
            old(self)@.keys.len() > 0,
            old(self)@.locs.len() > 0,
        ensures
            r.0@ == old(self)@.keys.last(),
            r.1 == Some(old(self)@.locs.last()),
            final(self)@ == (NodeView { is_leaf: old(self)@.is_leaf, keys: old(self)@.keys.drop_last(), locs: old(self)@.locs.drop_last() }),
    {
        let (k, l) = match self {
            Page::Internal(internal) => internal.pop_last(),
            Page::Leaf(leaf) => leaf.pop_last(),
        };
        (k, Some(l))
    }

    /// A copy of this page.
    pub fn copy(&self) -> (r: Page)
        ensures
            r@ == self@,
    {
        match self {
            Page::Internal(n) => Page::Internal(
                InternalNode { separators: copy_keys(&n.separators), pages: copy_page_locations(&n.pages) },
            ),
            Page::Leaf(n) => Page::Leaf(
                LeafNode { keys: copy_keys(&n.keys), value_location: copy_page_locations(&n.value_location) },
            ),
        }
    }
}

} // verus!
