//! A B-tree whose pages hold key/value nodes, with children between them, and
//! that grows a new root when the old one splits.

use crate::common::key_order::{bytes_eq, bytes_le, bytes_lt, copy_bytes, key_le, key_lt};
use crate::storage::storage_error::StorageError;
use vstd::multiset::Multiset;
use vstd::prelude::*;

verus! {

/// Size in bytes of one page of the file.
pub const PAGE_SIZE: u64 = 4096;

/// A page holding more nodes than this is split.
pub const MAX_KEYS_PER_PAGE: usize = 10;

/// Largest number of pages the file may hold, so that every byte offset of a
/// page fits in a `u64`.
pub const MAX_PAGES: u64 = 0xF_FFFF_FFFF_FFFF;

/// A tree kept in the file at `file_path`, with its root at
/// `root_page_location`.
pub struct PaginBtree {
    pub file_path: String,
    pub root_page_location: PageLocation,
}

/// A page: its nodes in key order and, for an internal page, its children.
#[derive(Clone)]
pub struct Page {
    pub nodes: Vec<Node>,
    pub pages: Option<Vec<PageLocation>>,
}

/// A key and its value.
#[derive(Clone)]
pub struct Node {
    pub key: Vec<u8>,
    pub value: Vec<u8>,
}

/// Where a page starts in the file.
#[derive(Clone, Copy, Debug)]
pub struct PageLocation {
    pub start_offset: u64,
}

/// What pushing into a page reports to its parent.
pub enum PushResult {
    Inserted,
    Overflow(OverFlowElement),
}

/// A split page: the node that moves up and where its two halves went.
pub struct OverFlowElement {
    pub node: Node,
    pub l_split: Option<PageLocation>,
    pub r_split: Option<PageLocation>,
}

/// A page seen as plain values: its nodes as key/value pairs and its children.
pub struct PageView {
    pub nodes: Seq<(Seq<u8>, Seq<u8>)>,
    pub pages: Option<Seq<PageLocation>>,
}

impl View for Node {
    type V = (Seq<u8>, Seq<u8>);

    open spec fn view(&self) -> (Seq<u8>, Seq<u8>) {
        (self.key@, self.value@)
    }
}

impl View for Page {
    type V = PageView;

    open spec fn view(&self) -> PageView {
        PageView {
            nodes: self.nodes@.map_values(|n: Node| n@),
            pages: match self.pages {
                Some(p) => Some(p@),
                None => None,
            },
        }
    }
}

/// The keys of a page's nodes.
pub open spec fn node_keys(v: PageView) -> Seq<Seq<u8>> {
    v.nodes.map_values(|n: (Seq<u8>, Seq<u8>)| n.0)
}

/// The slot in the file of the page that starts at byte `off`.
pub open spec fn page_index(off: u64) -> int {
    off as int / PAGE_SIZE as int
}

/// `off` is the start of one of the first `n` pages.
pub open spec fn valid_page_offset(off: u64, n: nat) -> bool {
    off % PAGE_SIZE == 0 && page_index(off) < n
}

/// `n` blank pages, as zero bytes read.
pub open spec fn blank_pages(n: nat) -> Seq<PageView> {
    Seq::new(n, |j: int| Page::new_view())
}

/// The file after page `v` is written at byte `off`: a page past the end
/// extends it, blank pages filling any gap before it.
pub open spec fn written(s: Seq<PageView>, off: u64, v: PageView) -> Seq<PageView> {
    let i = page_index(off);
    if i < s.len() {
        s.update(i, v)
    } else if i == s.len() {
        s.push(v)
    } else {
        (s + blank_pages((i - s.len()) as nat)).push(v)
    }
}

/// The first `i` from `from` on with `ks[i - 1] < k <= ks[i]`, or the length
/// of `ks` if there is none.
pub open spec fn first_gap(ks: Seq<Seq<u8>>, k: Seq<u8>, from: int) -> int
    decreases ks.len() - from,
{
    if from >= ks.len() || from < 1 {
        ks.len() as int
    } else if key_lt(ks[from - 1], k) && key_le(k, ks[from]) {
        from
    } else {
        first_gap(ks, k, from + 1)
    }
}

/// Where `k` goes among the keys `ks`: before the first key if it sorts
/// before it or equals it, else at the first `i` with `ks[i - 1] < k <=
/// ks[i]`, else at the end.
pub open spec fn find_pos(ks: Seq<Seq<u8>>, k: Seq<u8>) -> int {
    if ks.len() == 0 || key_le(k, ks[0]) {
        0
    } else {
        first_gap(ks, k, 1)
    }
}

/// `first_gap` stays within the keys.
pub proof fn lemma_first_gap(ks: Seq<Seq<u8>>, k: Seq<u8>, from: int)
    requires
        1 <= from,
    ensures
        from <= first_gap(ks, k, from) <= ks.len() || first_gap(ks, k, from) == ks.len(),
        0 <= first_gap(ks, k, from) <= ks.len(),
    decreases ks.len() - from,
{
    if from < ks.len() && !(key_lt(ks[from - 1], k) && key_le(k, ks[from])) {
        lemma_first_gap(ks, k, from + 1);
    }
}

/// The pages that adding `k` below page `v` (stored at `loc`) passes through,
/// the page reached at the bottom first and `v` last, descending at most
/// `fuel` levels.
pub open spec fn descent(s: Seq<PageView>, v: PageView, loc: PageLocation, k: Seq<u8>, fuel: nat) -> Seq<
    (PageView, PageLocation),
>
    decreases fuel,
{
    if v.pages is None || fuel == 0 {
        seq![(v, loc)]
    } else {
        let c = v.pages.unwrap()[find_pos(node_keys(v), k)];
        descent(s, s[page_index(c.start_offset)], c, k, (fuel - 1) as nat).push((v, loc))
    }
}

/// Descending from page `v` towards `k` reaches a page without children
/// within `fuel` levels, through children that are stored pages; an internal
/// page on the way that a further node would split has children enough to
/// split.
pub open spec fn descent_ok(s: Seq<PageView>, v: PageView, k: Seq<u8>, fuel: nat) -> bool
    decreases fuel,
{
    match v.pages {
        None => true,
        Some(ps) => {
            let i = find_pos(node_keys(v), k);
            &&& fuel > 0
            &&& 0 <= i < ps.len()
            &&& valid_page_offset(ps[i].start_offset, s.len())
            &&& v.nodes.len() >= MAX_KEYS_PER_PAGE ==> ps.len() >= 5
            &&& descent_ok(s, s[page_index(ps[i].start_offset)], k, (fuel - 1) as nat)
        },
    }
}

/// Descending from page `v` towards `k` reaches a page without children
/// within `fuel` levels, through children that are stored pages.
pub open spec fn descends(s: Seq<PageView>, v: PageView, k: Seq<u8>, fuel: nat) -> bool
    decreases fuel,
{
    match v.pages {
        None => true,
        Some(ps) => {
            let i = find_pos(node_keys(v), k);
            &&& fuel > 0
            &&& 0 <= i < ps.len()
            &&& valid_page_offset(ps[i].start_offset, s.len())
            &&& descends(s, s[page_index(ps[i].start_offset)], k, (fuel - 1) as nat)
        },
    }
}

/// A descent sound for adding is sound for walking down.
pub proof fn lemma_descends(s: Seq<PageView>, v: PageView, k: Seq<u8>, fuel: nat)
    requires
        descent_ok(s, v, k, fuel),
    ensures
        descends(s, v, k, fuel),
    decreases fuel,
{
    if let Some(ps) = v.pages {
        let i = find_pos(node_keys(v), k);
        lemma_descends(s, s[page_index(ps[i].start_offset)], k, (fuel - 1) as nat);
    }
}

/// What the pages of a descent are: the first has no children, each later
/// one is an internal page whose child towards `k` is the page before it, and
/// the last is `v` itself.
pub proof fn lemma_descent(s: Seq<PageView>, v: PageView, loc: PageLocation, k: Seq<u8>, fuel: nat)
    requires
        descent_ok(s, v, k, fuel),
    ensures
        ({
            let d = descent(s, v, loc, k, fuel);
            &&& 1 <= d.len() <= fuel + 1
            &&& d.last() == (v, loc)
            &&& d[0].0.pages is None
            &&& forall|j: int|
                0 <= j < d.len() - 1 ==> #[trigger] d[j].0 == s[page_index(d[j].1.start_offset)]
            &&& forall|j: int|
                1 <= j < d.len() ==> {
                    let w = #[trigger] d[j].0;
                    let i = find_pos(node_keys(w), k);
                    &&& w.pages is Some
                    &&& 0 <= i < w.pages.unwrap().len()
                    &&& (w.nodes.len() >= MAX_KEYS_PER_PAGE ==> w.pages.unwrap().len() >= 5)
                    &&& d[j - 1].1 == w.pages.unwrap()[i]
                    &&& valid_page_offset(d[j - 1].1.start_offset, s.len())
                }
        }),
    decreases fuel,
{
    if v.pages is Some {
        let i = find_pos(node_keys(v), k);
        let c = v.pages.unwrap()[i];
        let cv = s[page_index(c.start_offset)];
        lemma_descent(s, cv, c, k, (fuel - 1) as nat);
        let d0 = descent(s, cv, c, k, (fuel - 1) as nat);
        let d = descent(s, v, loc, k, fuel);
        assert(d == d0.push((v, loc)));
        assert forall|j: int| 1 <= j < d.len() implies {
            let w = #[trigger] d[j].0;
            let i = find_pos(node_keys(w), k);
            &&& w.pages is Some
            &&& 0 <= i < w.pages.unwrap().len()
            &&& (w.nodes.len() >= MAX_KEYS_PER_PAGE ==> w.pages.unwrap().len() >= 5)
            &&& d[j - 1].1 == w.pages.unwrap()[i]
            &&& valid_page_offset(d[j - 1].1.start_offset, s.len())
        } by {
            if j < d.len() - 1 {
                assert(d[j] == d0[j]);
                assert(d[j - 1] == d0[j - 1]);
            } else {
                assert(d[j - 1] == d0.last());
            }
        }
        assert forall|j: int| 0 <= j < d.len() - 1 implies #[trigger] d[j].0 == s[page_index(d[j].1.start_offset)] by {
            assert(d[j] == d0[j]);
            if j < d0.len() - 1 {
            } else {
                assert(d0[j] == (cv, c));
            }
        }
    }
}

/// The pages of a descent lie at different places in the file.
pub open spec fn path_apart(d: Seq<(PageView, PageLocation)>) -> bool {
    forall|a: int, b: int|
        #![trigger d[a], d[b]]
        0 <= a < b < d.len() ==> page_index(d[a].1.start_offset) != page_index(d[b].1.start_offset)
}

/// Every node that the pages of file `s` hold, counted with repeats.
pub open spec fn file_nodes(s: Seq<PageView>) -> Multiset<(Seq<u8>, Seq<u8>)>
    decreases s.len(),
{
    if s.len() == 0 {
        Multiset::empty()
    } else {
        file_nodes(s.drop_last()).add(s.last().nodes.to_multiset())
    }
}

/// Replacing page `i` of a file replaces its nodes among the file's nodes.
pub proof fn lemma_file_nodes_update(s: Seq<PageView>, i: int, v: PageView)
    requires
        0 <= i < s.len(),
    ensures
        file_nodes(s.update(i, v)).add(s[i].nodes.to_multiset()) == file_nodes(s).add(v.nodes.to_multiset()),
    decreases s.len(),
{
    broadcast use vstd::multiset::group_multiset_axioms;

    let t = s.update(i, v);
    let a = s[i].nodes.to_multiset();
    let b = v.nodes.to_multiset();
    assert(file_nodes(t) == file_nodes(t.drop_last()).add(t.last().nodes.to_multiset()));
    assert(file_nodes(s) == file_nodes(s.drop_last()).add(s.last().nodes.to_multiset()));
    if i == s.len() - 1 {
        assert(t.drop_last() =~= s.drop_last());
        assert(t.last() == v);
        assert(file_nodes(t).add(a) =~= file_nodes(s).add(b));
    } else {
        assert(t.drop_last() =~= s.drop_last().update(i, v));
        lemma_file_nodes_update(s.drop_last(), i, v);
        assert(t.last() == s.last());
        assert(s.drop_last()[i] == s[i]);
        let f1 = file_nodes(s.drop_last().update(i, v));
        let f0 = file_nodes(s.drop_last());
        let c = s.last().nodes.to_multiset();
        assert(f1.add(a) == f0.add(b));
        assert forall|x: (Seq<u8>, Seq<u8>)| #[trigger] file_nodes(t).add(a).count(x) == file_nodes(s).add(b).count(x) by {
            assert(f1.add(a).count(x) == f0.add(b).count(x));
        }
        assert(file_nodes(t).add(a) =~= file_nodes(s).add(b));
    }
}

/// Storing a page that gained node `p` where it stood adds `p` to the file's
/// nodes; splitting it instead, its lower half stored there and its upper
/// half at the end of the file, adds `p` and takes away the node that moves up.
pub proof fn lemma_push_nodes(s: Seq<PageView>, li: int, v2: PageView, p: (Seq<u8>, Seq<u8>))
    requires
        0 <= li < s.len(),
        v2.nodes.to_multiset() == s[li].nodes.to_multiset().insert(p),
    ensures
        file_nodes(s.update(li, v2)) == file_nodes(s).insert(p),
        v2.nodes.len() > MAX_KEYS_PER_PAGE / 2 ==> file_nodes(s.update(li, split_left(v2)).push(split_right(v2))).insert(
            v2.nodes[(MAX_KEYS_PER_PAGE / 2) as int],
        ) == file_nodes(s).insert(p),
{
    broadcast use vstd::multiset::group_multiset_axioms;

    let old_ms = s[li].nodes.to_multiset();
    lemma_file_nodes_update(s, li, v2);
    assert(file_nodes(s.update(li, v2)).add(old_ms) == file_nodes(s).add(old_ms.insert(p)));
    assert forall|x: (Seq<u8>, Seq<u8>)| #[trigger] file_nodes(s.update(li, v2)).count(x) == file_nodes(s).insert(p).count(x) by {
        assert(file_nodes(s.update(li, v2)).add(old_ms).count(x) == file_nodes(s).add(old_ms.insert(p)).count(x));
    }
    assert(file_nodes(s.update(li, v2)) =~= file_nodes(s).insert(p));
    if v2.nodes.len() > MAX_KEYS_PER_PAGE / 2 {
        let h = (MAX_KEYS_PER_PAGE / 2) as int;
        let l = split_left(v2);
        let r = split_right(v2);
        let t = s.update(li, l).push(r);
        lemma_file_nodes_update(s, li, l);
        assert(t.drop_last() =~= s.update(li, l));
        assert(v2.nodes =~= l.nodes + seq![v2.nodes[h]] + r.nodes);
        vstd::seq_lib::lemma_multiset_commutative(l.nodes + seq![v2.nodes[h]], r.nodes);
        vstd::seq_lib::lemma_multiset_commutative(l.nodes, seq![v2.nodes[h]]);
        assert(seq![v2.nodes[h]].to_multiset() =~= Multiset::singleton(v2.nodes[h])) by {
            broadcast use vstd::seq_lib::group_to_multiset_ensures;

            assert(seq![v2.nodes[h]] =~= Seq::<(Seq<u8>, Seq<u8>)>::empty().push(v2.nodes[h]));
        }
        let fl = file_nodes(s.update(li, l));
        assert(file_nodes(t) == fl.add(r.nodes.to_multiset()));
        assert(fl.add(old_ms) == file_nodes(s).add(l.nodes.to_multiset()));
        assert(v2.nodes.to_multiset() == l.nodes.to_multiset().add(Multiset::singleton(v2.nodes[h])).add(
            r.nodes.to_multiset(),
        ));
        assert forall|x: (Seq<u8>, Seq<u8>)| #[trigger] file_nodes(t).insert(v2.nodes[h]).count(x) == file_nodes(s).insert(
            p,
        ).count(x) by {
            assert(fl.add(old_ms).count(x) == file_nodes(s).add(l.nodes.to_multiset()).count(x));
            assert(v2.nodes.to_multiset().count(x) == old_ms.insert(p).count(x));
        }
        assert(file_nodes(t).insert(v2.nodes[h]) =~= file_nodes(s).insert(p));
    }
}

/// An index file of pages, page `i` starting at byte `i * PAGE_SIZE`.
#[derive(Clone)]
pub struct PageStore {
    pages: Vec<Page>,
}

impl View for PageStore {
    type V = Seq<PageView>;

    closed spec fn view(&self) -> Seq<PageView> {
        self.pages@.map_values(|p: Page| p@)
    }
}

impl PageStore {
    /// A file of `n` blank pages, as a file of zero bytes reads: each page
    /// without nodes and without children.
    pub fn with_blank_pages(n: usize) -> (r: Self)
        requires
            n <= MAX_PAGES,
        ensures
            r@.len() == n,
            forall|i: int| 0 <= i < n ==> #[trigger] r@[i] == Page::new_view(),
    {
        let mut pages: Vec<Page> = Vec::new();
        let mut i: usize = 0;
        while i < n
            invariant
                i <= n,
                pages@.len() == i,
                forall|j: int| 0 <= j < i ==> (#[trigger] pages@[j])@ == Page::new_view(),
            decreases n - i,
        {
            pages.push(Page::new());
            i = i + 1;
        }
        PageStore { pages }
    }

    /// Number of pages in the file.
    pub fn page_count(&self) -> (r: usize)
        ensures
            r == self@.len(),
    {
        self.pages.len()
    }

    /// Length of the file in bytes.
    pub fn len(&self) -> (r: u64)
        requires
            self@.len() <= MAX_PAGES,
        ensures
            r == self@.len() * PAGE_SIZE,
    {
        let n = self.pages.len() as u64;
        assert(n * 4096 <= 0xF_FFFF_FFFF_FFFF * 4096) by (nonlinear_arith)
            requires
                n <= 0xF_FFFF_FFFF_FFFFu64,
        ;
        n * 4096
    }

    /// A copy of page `i`.
    pub fn read(&self, i: usize) -> (r: Page)
        requires
            i < self@.len(),
        ensures
            r@ == self@[i as int],
    {
        self.pages[i].copy()
    }

    /// Stores `page` as page `i`; a page past the end extends the file,
    /// blank pages (zero bytes) filling any gap before it.
    pub fn write(&mut self, i: usize, page: Page)
        ensures
            i < old(self)@.len() ==> final(self)@ == old(self)@.update(i as int, page@),
            i == old(self)@.len() ==> final(self)@ == old(self)@.push(page@),
            i > old(self)@.len() ==> final(self)@ == (old(self)@ + blank_pages((i - old(self)@.len()) as nat)).push(page@),
    {
        let ghost v = page@;
        if i < self.pages.len() {
            self.pages.set(i, page);
            assert(self@ =~= old(self)@.update(i as int, v));
        } else {
            let ghost s0 = self@;
            while self.pages.len() < i
                invariant
                    s0.len() <= self@.len() <= i,
                    self@ =~= s0 + blank_pages((self@.len() - s0.len()) as nat),
                decreases i - self.pages@.len(),
            {
                let ghost before = self@;
                self.pages.push(Page::new());
                assert(self@ =~= before.push(Page::new_view()));
                assert(blank_pages((self@.len() - s0.len()) as nat) =~= blank_pages((before.len() - s0.len()) as nat).push(
                    Page::new_view(),
                ));
            }
            self.pages.push(page);
            proof {
                if i == s0.len() {
                    assert(blank_pages(0) =~= Seq::<PageView>::empty());
                    assert(self@ =~= s0.push(v));
                } else {
                    assert(self@ =~= (s0 + blank_pages((i - s0.len()) as nat)).push(v));
                }
            }
        }
    }
}

impl PaginBtree {
    /// A tree kept in the file at `file_path`, rooted at its first page.
    pub fn new(file_path: String) -> (r: Self)
        ensures
            r.file_path@ == file_path@,
            r.root_page_location.start_offset == 0,
    {
        Self { file_path: file_path.clone(), root_page_location: PageLocation { start_offset: 0 } }
    }

    /// Adds `key` with `value`: the page at the bottom of the descent takes the
    /// node, and each page that splits hands its middle node up to its parent;
    /// a root that splits gets a new root above its two halves, at the end of
    /// the file. When the bottom page has room the file changes in that page
    /// alone.
    pub fn add_node(&mut self, storage: &mut PageStore, key: Vec<u8>, value: Vec<u8>) -> (r: Result<(), StorageError>)
        requires
            add_ok(old(storage)@, old(self).root_page_location, key@),
        ensures
            r is Ok,
            final(self).file_path == old(self).file_path,
            old(storage)@.len() <= final(storage)@.len(),
            ({
                let d = add_path(old(storage)@, old(self).root_page_location, key@);
                let v2 = leaf_pushed(d, key@, value@);
                let f = final(storage)@;
                let n = old(storage)@.len() as int;
                d[0].0.nodes.len() >= MAX_KEYS_PER_PAGE ==> {
                    &&& f.len() > n
                    &&& f[n] == split_right(v2)
                    &&& path_apart(d) ==> f[page_index(d[0].1.start_offset)] == split_left(v2)
                    &&& d.len() == 1 ==> f.last().nodes == seq![v2.nodes[(MAX_KEYS_PER_PAGE / 2) as int]]
                }
            }),
            ({
                let d = add_path(old(storage)@, old(self).root_page_location, key@);
                all_full(d) ==> {
                    &&& exists|pend: (Seq<u8>, Seq<u8>), halves: Option<(PageLocation, PageLocation)>|
                        #[trigger] root_split_by(
                            final(storage)@,
                            d.last().0,
                            page_index(old(self).root_page_location.start_offset),
                            key@,
                            pend,
                            halves,
                        )
                    &&& d.len() == 1 ==> final(storage)@.len() == old(storage)@.len() + 2
                }
            }),
            ({
                let d = add_path(old(storage)@, old(self).root_page_location, key@);
                if all_full(d) {
                    grown_root(final(storage)@, final(self).root_page_location, old(self).root_page_location)
                } else {
                    final(self).root_page_location == old(self).root_page_location
                }
            }),
            path_apart(add_path(old(storage)@, old(self).root_page_location, key@)) ==> file_nodes(final(storage)@)
                == file_nodes(old(storage)@).insert((key@, value@)),
            ({
                let d = add_path(old(storage)@, old(self).root_page_location, key@);
                let leaf = d[0].0;
                leaf.nodes.len() < MAX_KEYS_PER_PAGE ==> {
                    &&& final(self).root_page_location == old(self).root_page_location
                    &&& final(storage)@ == old(storage)@.update(
                        page_index(d[0].1.start_offset),
                        pushed(leaf, find_pos(node_keys(leaf), key@), (key@, value@), None),
                    )
                }
            }),
    {
        let ghost s0 = storage@;
        let ghost fuel = add_fuel(s0, self.root_page_location, key@);
        let root_page_location = self.root_page_location;
        let mut root_page = root_page_location.load_page(storage);
        proof {
            lemma_descends(s0, root_page@, key@, fuel);
        }
        let mut path = root_page.build_path(&key, storage, root_page_location, Ghost(fuel));
        let ghost d = add_path(s0, root_page_location, key@);
        proof {
            lemma_descent(s0, s0[page_index(root_page_location.start_offset)], root_page_location, key@, fuel);
            assert forall|j: int| 0 <= j < d.len() implies #[trigger] s0[page_index(d[j].1.start_offset)] == d[j].0 by {
                if j == d.len() - 1 {
                    assert(d[j] == d.last());
                }
            }
        }
        let ghost apart = path_apart(d);
        let ghost kv = (key@, value@);
        let ghost v2leaf = leaf_pushed(d, key@, value@);
        let ghost mut lastpend = kv;
        let ghost mut lasthalves: Option<(PageLocation, PageLocation)> = None;
        let mut overflow: Option<PushResult> = None;
        let n = path.len();
        let mut i: usize = 0;
        let mut done = false;
        while i < n && !done
            invariant
                n == d.len(),
                0 <= i <= n,
                1 <= d.len() <= fuel + 1,
                s0.len() + fuel + 2 <= MAX_PAGES,
                path@.map_values(|e: (Page, PageLocation)| (e.0@, e.1)) == d.skip(i as int),
                d == add_path(s0, root_page_location, key@),
                d.last().1 == root_page_location,
                valid_page_offset(root_page_location.start_offset, s0.len()),
                d[0].0.pages is None,
                forall|j: int|
                    1 <= j < d.len() ==> {
                        let w = #[trigger] d[j].0;
                        let x = find_pos(node_keys(w), key@);
                        &&& w.pages is Some
                        &&& 0 <= x < w.pages.unwrap().len()
                        &&& (w.nodes.len() >= MAX_KEYS_PER_PAGE ==> w.pages.unwrap().len() >= 5)
                        &&& d[j - 1].1 == w.pages.unwrap()[x]
                        &&& valid_page_offset(d[j - 1].1.start_offset, s0.len())
                    },
                done ==> overflow is None && i >= 1,
                !done && i == 0 ==> overflow is None && storage@ == s0,
                !done && i > 0 ==> (overflow matches Some(PushResult::Overflow(o)) && o.l_split == Some(d[i - 1].1)
                    && (o.r_split matches Some(rl) && rl.start_offset % PAGE_SIZE == 0 && page_index(rl.start_offset)
                    == storage@.len() - 1)),
                !done ==> forall|j: int| 0 <= j < i ==> #[trigger] d[j].0.nodes.len() >= MAX_KEYS_PER_PAGE,
                done ==> !all_full(d),
                v2leaf == leaf_pushed(d, key@, value@),
                !done && i > 0 ==> {
                    let lv = pushed(d[i - 1].0, find_pos(node_keys(d[i - 1].0), key@), lastpend, lasthalves);
                    &&& storage@.len() >= 1
                    &&& storage@.last() == split_right(lv)
                    &&& storage@[page_index(d[i - 1].1.start_offset)] == split_left(lv)
                    &&& overflow matches Some(PushResult::Overflow(o)) && o.node@ == lv.nodes[(MAX_KEYS_PER_PAGE / 2) as int]
                },
                i == 1 && !done ==> storage@.len() == s0.len() + 1,
                i >= 1 && d[0].0.nodes.len() >= MAX_KEYS_PER_PAGE ==> {
                    &&& storage@.len() > s0.len()
                    &&& storage@[s0.len() as int] == split_right(v2leaf)
                    &&& apart ==> storage@[page_index(d[0].1.start_offset)] == split_left(v2leaf)
                },
                i == 1 && !done ==> (overflow matches Some(PushResult::Overflow(o)) && o.node@ == v2leaf.nodes[(
                MAX_KEYS_PER_PAGE / 2) as int]),
                s0.len() <= storage@.len() <= s0.len() + i,
                i >= 1 && d[0].0.nodes.len() < MAX_KEYS_PER_PAGE ==> done && storage@ == s0.update(
                    page_index(d[0].1.start_offset),
                    pushed(d[0].0, find_pos(node_keys(d[0].0), key@), (key@, value@), None),
                ),
                self.root_page_location == root_page_location,
                kv == (key@, value@),
                apart == path_apart(d),
                apart ==> forall|j: int|
                    i <= j < d.len() ==> #[trigger] storage@[page_index(d[j].1.start_offset)] == d[j].0,
                apart && !done ==> file_nodes(storage@).insert(
                    match reported(overflow) {
                        Some(x) => x.0,
                        None => kv,
                    },
                ) == file_nodes(s0).insert(kv),
                apart && done ==> file_nodes(storage@) == file_nodes(s0).insert(kv),
            decreases n - i,
        {
            let ghost rest = path@.map_values(|e: (Page, PageLocation)| (e.0@, e.1));
            let ghost old_path = path@;
            assert(rest.len() == d.len() - i);
            assert(path@.len() == rest.len());
            let (mut page, page_location) = path.remove(0);
            proof {
                assert(rest[0] == d[i as int]);
                assert(page@ == d[i as int].0 && page_location == d[i as int].1);
                assert(path@ =~= old_path.drop_first());
                assert forall|j: int| 0 <= j < path@.len() implies (#[trigger] path@[j].0@, path@[j].1) == d.skip(
                    i + 1,
                )[j] by {
                    assert(path@[j] == old_path[j + 1]);
                    assert(rest[j + 1] == (old_path[j + 1].0@, old_path[j + 1].1));
                }
                assert(path@.map_values(|e: (Page, PageLocation)| (e.0@, e.1)) =~= d.skip(i + 1));
                if i + 1 < d.len() {
                    assert(valid_page_offset(d[i as int].1.start_offset, s0.len())) by {
                        let w = d[i + 1].0;
                        assert(w == d[i + 1].0);
                    }
                }
            }
            let ghost st = storage@;
            let ghost rep = reported(overflow);
            let ghost pend = match rep {
                Some(x) => x.0,
                None => kv,
            };
            let ghost halves = match rep {
                Some(x) => Some(x.1),
                None => None,
            };
            let result = page.push(
                copy_bytes(key.as_slice()),
                copy_bytes(value.as_slice()),
                overflow,
                &page_location,
                storage,
            );
            proof {
                lastpend = pend;
                lasthalves = halves;
            }
            proof {
                let w = d[i as int].0;
                lemma_first_gap(node_keys(w), key@, 1);
                assert(node_keys(w).len() == w.nodes.len());
                if apart {
                    let li = page_index(page_location.start_offset);
                    let idx = find_pos(node_keys(w), key@);
                    let v2 = match rep {
                        None => pushed(w, idx, kv, None),
                        Some(x) => pushed(w, idx, x.0, Some(x.1)),
                    };
                    assert(v2.nodes == w.nodes.insert(idx, pend));
                    assert(st[li] == w);
                    assert(w.nodes.insert(idx, pend).to_multiset() == w.nodes.to_multiset().insert(pend)) by {
                        broadcast use vstd::seq_lib::group_to_multiset_ensures;

                    }
                    lemma_push_nodes(st, li, v2, pend);
                    assert(li < s0.len());
                    assert forall|j: int| i + 1 <= j < d.len() implies #[trigger] storage@[page_index(
                        d[j].1.start_offset,
                    )] == d[j].0 by {
                        assert(page_index(d[i as int].1.start_offset) != page_index(d[j].1.start_offset));
                        if j < d.len() - 1 {
                            assert(valid_page_offset(d[j].1.start_offset, s0.len())) by {
                                let w2 = d[j + 1].0;
                            }
                        }
                        assert(st[page_index(d[j].1.start_offset)] == d[j].0);
                    }
                }
            }
            proof {
                let li = page_index(page_location.start_offset);
                assert(li < s0.len()) by {
                    if i + 1 < d.len() {
                        let w2 = d[i + 1].0;
                    } else {
                        assert(d[i as int] == d.last());
                    }
                }
                assert(page_index(d[0].1.start_offset) < s0.len()) by {
                    if d.len() > 1 {
                        let w1 = d[1].0;
                    } else {
                        assert(d[0] == d.last());
                    }
                }
                assert(st.len() >= s0.len());
                if d[0].0.nodes.len() >= MAX_KEYS_PER_PAGE {
                    if i == 0 {
                        assert(rep is None);
                        assert(storage@ == st.update(li, split_left(v2leaf)).push(split_right(v2leaf)));
                    } else {
                        assert(storage@[s0.len() as int] == st[s0.len() as int]);
                        if apart {
                            assert(li != page_index(d[0].1.start_offset));
                            assert(storage@[page_index(d[0].1.start_offset)] == st[page_index(d[0].1.start_offset)]);
                        }
                    }
                }
            }
            match result {
                PushResult::Inserted => {
                    overflow = None;
                    done = true;
                },
                PushResult::Overflow(_) => {
                    overflow = Some(result);
                },
            }
            i = i + 1;
        }
        let ghost st = storage@;
        let ghost pend = match reported(overflow) {
            Some(x) => x.0,
            None => kv,
        };
        if let Some(PushResult::Overflow(overflow)) = overflow {
            let new_root_location = PageLocation::allocate(storage);
            let new_root = Page {
                nodes: vec![overflow.node],
                pages: Some(vec![overflow.l_split.unwrap(), overflow.r_split.unwrap()]),
            };
            new_root_location.write_page(&new_root, storage);
            proof {
                assert(page_index(d[0].1.start_offset) < s0.len()) by {
                    if d.len() > 1 {
                        let w1 = d[1].0;
                    } else {
                        assert(d[0] == d.last());
                    }
                }
                assert(storage@ == st.push(new_root@));
                assert(storage@[s0.len() as int] == st[s0.len() as int]);
                if d[0].0.nodes.len() >= MAX_KEYS_PER_PAGE && apart {
                    assert(storage@[page_index(d[0].1.start_offset)] == st[page_index(d[0].1.start_offset)]);
                }
                if d.len() == 1 {
                    assert(new_root@.nodes =~= seq![v2leaf.nodes[(MAX_KEYS_PER_PAGE / 2) as int]]);
                }
                let ri = page_index(root_page_location.start_offset);
                assert(d[i - 1] == d.last());
                assert(ri < st.len()) by {
                    assert(d.last().1 == root_page_location);
                }
                assert(storage@[storage@.len() - 2] == st.last());
                assert(storage@[ri] == st[ri]);
                assert(new_root@.nodes =~= seq![pushed(d.last().0, find_pos(node_keys(d.last().0), key@), lastpend, lasthalves).nodes[(MAX_KEYS_PER_PAGE / 2) as int]]);
                assert(root_split_by(storage@, d.last().0, ri, key@, lastpend, lasthalves));
                if apart {
                    assert(storage@ == st.push(new_root@));
                    assert(storage@.drop_last() =~= st);
                    assert(new_root@.nodes =~= Seq::<(Seq<u8>, Seq<u8>)>::empty().push(pend));
                    broadcast use vstd::seq_lib::group_to_multiset_ensures;
                    broadcast use vstd::multiset::group_multiset_axioms;

                    assert(file_nodes(storage@) =~= file_nodes(st).insert(pend));
                }
            }
            self.root_page_location = new_root_location;
        }
        Ok(())
    }
}

/// The bottom page of descent `d` with the node `(k, v)` inserted where it
/// goes.
pub open spec fn leaf_pushed(d: Seq<(PageView, PageLocation)>, k: Seq<u8>, v: Seq<u8>) -> PageView {
    pushed(d[0].0, find_pos(node_keys(d[0].0), k), (k, v), None)
}

/// Every page of descent `d` is full, so that each splits in turn, the root
/// last.
pub open spec fn all_full(d: Seq<(PageView, PageLocation)>) -> bool {
    forall|j: int| 0 <= j < d.len() ==> #[trigger] d[j].0.nodes.len() >= MAX_KEYS_PER_PAGE
}

/// After the root at `old_root` split, the file `f` ends with the new root
/// `root`: one node, the one that moved up, over two children, the old root
/// (which kept the lower half) and the page before it (the upper half).
pub open spec fn grown_root(f: Seq<PageView>, root: PageLocation, old_root: PageLocation) -> bool {
    &&& root.start_offset % PAGE_SIZE == 0
    &&& f.len() >= 2
    &&& page_index(root.start_offset) == f.len() - 1
    &&& f.last().nodes.len() == 1
    &&& f.last().pages matches Some(ps) && ps.len() == 2 && ps[0] == old_root && ps[1].start_offset % PAGE_SIZE == 0
        && page_index(ps[1].start_offset) == f.len() - 2
}

/// The old root `rv`, at page `ri`, took in the node `pend` (and, when its
/// child split, the child's two halves `halves`) and split: file `f` keeps its
/// lower half at `ri`, holds its upper half just before the new root at the
/// end, and the new root holds its middle node alone.
pub open spec fn root_split_by(
    f: Seq<PageView>,
    rv: PageView,
    ri: int,
    key: Seq<u8>,
    pend: (Seq<u8>, Seq<u8>),
    halves: Option<(PageLocation, PageLocation)>,
) -> bool {
    let v2 = pushed(rv, find_pos(node_keys(rv), key), pend, halves);
    &&& f.len() >= 2
    &&& f[f.len() - 2] == split_right(v2)
    &&& f[ri] == split_left(v2)
    &&& f.last().nodes == seq![v2.nodes[(MAX_KEYS_PER_PAGE / 2) as int]]
}

impl PaginBtree {
    /// Whether adding `key` to this tree, stored in `storage`, runs without
    /// fault: the root is a stored page, the descent towards `key` reaches a
    /// page without children within as many levels as the file has pages, and
    /// the file has room for the pages that splits add.
    pub fn can_add(&self, storage: &PageStore, key: &Vec<u8>) -> (r: bool)
        ensures
            r == (valid_page_offset(self.root_page_location.start_offset, storage@.len()) && descent_ok(
                storage@,
                storage@[page_index(self.root_page_location.start_offset)],
                key@,
                storage@.len() as nat,
            ) && storage@.len() * 2 + 2 <= MAX_PAGES),
            r ==> add_ok(storage@, self.root_page_location, key@),
    {
        let ghost s = storage@;
        let n = storage.page_count();
        if n as u64 > (MAX_PAGES - 2) / 2 {
            return false;
        }
        assert(n * 2 + 2 <= MAX_PAGES);
        let root = self.root_page_location;
        if root.start_offset % PAGE_SIZE != 0 || root.start_offset / PAGE_SIZE >= n as u64 {
            return false;
        }
        let ghost rv = s[page_index(root.start_offset)];
        let mut page = root.load_page(storage);
        let mut fuel: usize = n;
        loop
            invariant
                s == storage@,
                n == s.len(),
                fuel <= n,
                n * 2 + 2 <= MAX_PAGES,
                root == self.root_page_location,
                valid_page_offset(root.start_offset, s.len()),
                rv == s[page_index(root.start_offset)],
                descent_ok(s, rv, key@, n as nat) == descent_ok(s, page@, key@, fuel as nat),
            decreases fuel,
        {
            match &page.pages {
                None => {
                    assert(page@.pages is None);
                    proof {
                        assert(descent_ok(s, rv, key@, n as nat) && s.len() + n + 2 <= MAX_PAGES);
                    }
                    return true;
                },
                Some(ps) => {
                    assert(page@.pages == Some(ps@));
                    if fuel == 0 {
                        return false;
                    }
                    let i = page.find_position(key);
                    if i >= ps.len() {
                        return false;
                    }
                    let c = ps[i];
                    if c.start_offset % PAGE_SIZE != 0 || c.start_offset / PAGE_SIZE >= n as u64 {
                        return false;
                    }
                    assert(page@.nodes.len() == page.nodes@.len());
                    if page.nodes.len() >= MAX_KEYS_PER_PAGE && ps.len() < 5 {
                        return false;
                    }
                    assert(valid_page_offset(c.start_offset, s.len()));
                    let next = c.load_page(storage);
                    page = next;
                    fuel = fuel - 1;
                },
            }
        }
    }
}

/// Fuel enough for adding `k` to the tree rooted at `root`, with room in the
/// file for every page that the adding may split.
pub open spec fn add_fuel(s: Seq<PageView>, root: PageLocation, k: Seq<u8>) -> nat {
    choose|f: nat| descent_ok(s, s[page_index(root.start_offset)], k, f) && s.len() + f + 2 <= MAX_PAGES
}

/// Adding `k` to the tree rooted at `root` in file `s` runs without fault: the
/// root is a stored page and the descent towards `k` is sound, with room in
/// the file for the pages that splits add.
pub open spec fn add_ok(s: Seq<PageView>, root: PageLocation, k: Seq<u8>) -> bool {
    &&& valid_page_offset(root.start_offset, s.len())
    &&& exists|f: nat| descent_ok(s, s[page_index(root.start_offset)], k, f) && s.len() + f + 2 <= MAX_PAGES
}

/// The pages that adding `k` to the tree rooted at `root` passes through, the
/// bottom page first.
pub open spec fn add_path(s: Seq<PageView>, root: PageLocation, k: Seq<u8>) -> Seq<(PageView, PageLocation)> {
    descent(s, s[page_index(root.start_offset)], root, k, add_fuel(s, root, k))
}

impl PageLocation {
    /// The location just past the end of the file, where a new page goes.
    pub fn allocate(storage: &PageStore) -> (r: Self)
        requires
            storage@.len() < MAX_PAGES,
        ensures
            r.start_offset % PAGE_SIZE == 0,
            page_index(r.start_offset) == storage@.len(),
    {
        let n = storage.page_count() as u64;
        assert(n * 4096 < 0xF_FFFF_FFFF_FFFF * 4096) by (nonlinear_arith)
            requires
                n < 0xF_FFFF_FFFF_FFFFu64,
        ;
        let off = n * PAGE_SIZE;
        assert(off % 4096 == 0 && off / 4096 == n) by (nonlinear_arith)
            requires
                off == n * 4096,
        ;
        PageLocation { start_offset: off }
    }

    /// The page that starts here.
    pub fn load_page(&self, file: &PageStore) -> (r: Page)
        requires
            valid_page_offset(self.start_offset, file@.len()),
        ensures
            r@ == file@[page_index(self.start_offset)],
    {
        let n = file.page_count();
        let i = self.start_offset / PAGE_SIZE;
        assert(i < n);
        file.read(i as usize)
    }

    /// Stores `page` here; a location past the end of the file extends it,
    /// blank pages filling any gap.
    pub fn write_page(&self, page: &Page, storage: &mut PageStore)
        requires
            self.start_offset % PAGE_SIZE == 0,
            page_index(self.start_offset) <= old(storage)@.len() || page_index(self.start_offset) <= usize::MAX,
        ensures
            final(storage)@ == written(old(storage)@, self.start_offset, page@),
    {
        let i = self.start_offset / PAGE_SIZE;
        let n = storage.page_count();
        assert(i <= n || i <= usize::MAX);
        storage.write(i as usize, page.copy());
    }
}

impl Node {
    /// A copy of this node.
    pub fn copy(&self) -> (r: Node)
        ensures
            r@ == self@,
    {
        Node { key: copy_bytes(self.key.as_slice()), value: copy_bytes(self.value.as_slice()) }
    }
}

/// A copy of a list of nodes.
fn copy_nodes(v: &Vec<Node>) -> (r: Vec<Node>)
    ensures
        r@.map_values(|n: Node| n@) == v@.map_values(|n: Node| n@),
{
    let mut r: Vec<Node> = Vec::new();
    let mut i: usize = 0;
    while i < v.len()
        invariant
            i <= v.len(),
            r@.len() == i,
            forall|j: int| 0 <= j < i ==> (#[trigger] r@[j])@ == v@[j]@,
        decreases v.len() - i,
    {
        r.push(v[i].copy());
        i = i + 1;
    }
    assert(r@.map_values(|n: Node| n@) =~= v@.map_values(|n: Node| n@));
    r
}

/// A copy of a list of page locations.
fn copy_page_locations(v: &Vec<PageLocation>) -> (r: Vec<PageLocation>)
    ensures
        r@ == v@,
{
    let mut r: Vec<PageLocation> = Vec::new();
    let mut i: usize = 0;
    while i < v.len()
        invariant
            i <= v.len(),
            r@ == v@.take(i as int),
        decreases v.len() - i,
    {
        r.push(v[i]);
        i = i + 1;
        assert(r@ =~= v@.take(i as int));
    }
    assert(v@.take(v@.len() as int) =~= v@);
    r
}

/// Nodes `lo..hi` of `v`.
fn node_range(v: &Vec<Node>, lo: usize, hi: usize) -> (r: Vec<Node>)
    requires
        lo <= hi <= v@.len(),
    ensures
        r@.map_values(|n: Node| n@) == v@.map_values(|n: Node| n@).subrange(lo as int, hi as int),
{
    let mut r: Vec<Node> = Vec::new();
    let mut i: usize = lo;
    while i < hi
        invariant
            lo <= i <= hi <= v@.len(),
            r@.len() == i - lo,
            forall|j: int| 0 <= j < i - lo ==> (#[trigger] r@[j])@ == v@[lo + j]@,
        decreases hi - i,
    {
        r.push(v[i].copy());
        i = i + 1;
    }
    assert(r@.map_values(|n: Node| n@) =~= v@.map_values(|n: Node| n@).subrange(lo as int, hi as int));
    r
}

/// Locations `lo..hi` of `v`.
fn location_range(v: &Vec<PageLocation>, lo: usize, hi: usize) -> (r: Vec<PageLocation>)
    requires
        lo <= hi <= v@.len(),
    ensures
        r@ == v@.subrange(lo as int, hi as int),
{
    let mut r: Vec<PageLocation> = Vec::new();
    let mut i: usize = lo;
    while i < hi
        invariant
            lo <= i <= hi <= v@.len(),
            r@ == v@.subrange(lo as int, i as int),
        decreases hi - i,
    {
        r.push(v[i]);
        i = i + 1;
        assert(r@ =~= v@.subrange(lo as int, i as int));
    }
    r
}

/// The lower part that splitting page `v` keeps: its first half of nodes and,
/// for an internal page, the children around them, one more than the nodes.
pub open spec fn split_left(v: PageView) -> PageView {
    PageView {
        nodes: v.nodes.take((MAX_KEYS_PER_PAGE / 2) as int),
        pages: match v.pages {
            Some(ps) => Some(ps.take((MAX_KEYS_PER_PAGE / 2 + 1) as int)),
            None => None,
        },
    }
}

/// The upper part that splitting page `v` moves to a new page: the nodes after
/// the one that moves up and the remaining children.
pub open spec fn split_right(v: PageView) -> PageView {
    PageView {
        nodes: v.nodes.skip((MAX_KEYS_PER_PAGE / 2 + 1) as int),
        pages: match v.pages {
            Some(ps) => Some(ps.skip((MAX_KEYS_PER_PAGE / 2 + 1) as int)),
            None => None,
        },
    }
}

/// Page `v` with `node` inserted at `i` and, when a child split, the child at
/// `i` replaced by its two halves `halves`.
pub open spec fn pushed(v: PageView, i: int, node: (Seq<u8>, Seq<u8>), halves: Option<(PageLocation, PageLocation)>) -> PageView {
    PageView {
        nodes: v.nodes.insert(i, node),
        pages: match halves {
            None => v.pages,
            Some(h) => Some(v.pages.unwrap().remove(i).insert(i, h.1).insert(i, h.0)),
        },
    }
}

/// Inserting into a page changes it in place: the new node takes position
/// `i`, the nodes before it keep their places and those after it move up one;
/// when a child split, child `i` is replaced, where it stood, by its lower
/// half and then its upper half, the children before it keeping their places
/// and those after it moving up one. The new node so lies between the two
/// halves of the child it came from.
pub proof fn lemma_pushed_in_place(
    v: PageView,
    i: int,
    node: (Seq<u8>, Seq<u8>),
    halves: Option<(PageLocation, PageLocation)>,
)
    requires
        0 <= i <= v.nodes.len(),
        halves is Some ==> (v.pages matches Some(ps) && i < ps.len()),
    ensures
        ({
            let w = pushed(v, i, node, halves);
            &&& w.nodes.len() == v.nodes.len() + 1
            &&& w.nodes[i] == node
            &&& forall|j: int| 0 <= j < i ==> #[trigger] w.nodes[j] == v.nodes[j]
            &&& forall|j: int| i < j < w.nodes.len() ==> #[trigger] w.nodes[j] == v.nodes[j - 1]
            &&& halves is None ==> w.pages == v.pages
            &&& halves matches Some(h) ==> {
                let ps = v.pages.unwrap();
                &&& w.pages matches Some(rp) && {
                    &&& rp.len() == ps.len() + 1
                    &&& rp[i] == h.0
                    &&& rp[i + 1] == h.1
                    &&& forall|j: int| 0 <= j < i ==> #[trigger] rp[j] == ps[j]
                    &&& forall|j: int| i + 1 < j < rp.len() ==> #[trigger] rp[j] == ps[j - 1]
                }
            }
        }),
{
}

/// Splitting a page loses and repeats nothing: its lower part's nodes, the
/// middle node and its upper part's nodes are its nodes in order, the lower
/// part holding `MAX_KEYS_PER_PAGE / 2`; an internal page's children are
/// those of its lower part, one more than its nodes, then those of its upper
/// part.
pub proof fn lemma_split_halves(v: PageView)
    requires
        v.nodes.len() > MAX_KEYS_PER_PAGE / 2,
        v.pages matches Some(ps) ==> ps.len() >= MAX_KEYS_PER_PAGE / 2 + 1,
    ensures
        split_left(v).nodes.len() == MAX_KEYS_PER_PAGE / 2,
        split_left(v).nodes + seq![v.nodes[(MAX_KEYS_PER_PAGE / 2) as int]] + split_right(v).nodes == v.nodes,
        split_left(v).pages is Some <==> v.pages is Some,
        split_right(v).pages is Some <==> v.pages is Some,
        v.pages matches Some(ps) ==> {
            &&& split_left(v).pages.unwrap().len() == split_left(v).nodes.len() + 1
            &&& split_left(v).pages.unwrap() + split_right(v).pages.unwrap() == ps
        },
{
    let h = (MAX_KEYS_PER_PAGE / 2) as int;
    assert(v.nodes.take(h) + seq![v.nodes[h]] + v.nodes.skip(h + 1) =~= v.nodes);
    if let Some(ps) = v.pages {
        assert(ps.take(h + 1) + ps.skip(h + 1) =~= ps);
    }
}

/// Keys in order: each at or before the ones after it.
pub open spec fn sorted_keys(ks: Seq<Seq<u8>>) -> bool {
    forall|a: int, b: int| 0 <= a < b < ks.len() ==> key_le(#[trigger] ks[a], #[trigger] ks[b])
}

/// From `from` on, `first_gap` stops at the first key not before `k`.
proof fn lemma_first_gap_sorted(ks: Seq<Seq<u8>>, k: Seq<u8>, from: int)
    requires
        sorted_keys(ks),
        1 <= from <= ks.len(),
        forall|j: int| 0 <= j < from ==> key_lt(#[trigger] ks[j], k),
    ensures
        ({
            let p = first_gap(ks, k, from);
            &&& from <= p <= ks.len()
            &&& forall|j: int| 0 <= j < p ==> key_lt(#[trigger] ks[j], k)
            &&& forall|j: int| p <= j < ks.len() ==> key_le(k, #[trigger] ks[j])
        }),
    decreases ks.len() - from,
{
    if from < ks.len() {
        assert(key_lt(ks[from - 1], k));
        if key_le(k, ks[from]) {
            assert forall|j: int| from <= j < ks.len() implies key_le(k, #[trigger] ks[j]) by {
                if j > from {
                    assert(key_le(ks[from], ks[j]));
                    crate::common::key_order::lemma_key_le_transitive(k, ks[from], ks[j]);
                }
            }
        } else {
            crate::common::key_order::lemma_key_lt_total(k, ks[from]);
            assert(key_lt(ks[from], k));
            lemma_first_gap_sorted(ks, k, from + 1);
        }
    }
}

/// Among keys in order, `find_pos` puts `k` after every key before it and
/// before every key not before it, so that inserting it there keeps the keys
/// in order.
pub proof fn lemma_find_pos_sorted(ks: Seq<Seq<u8>>, k: Seq<u8>)
    requires
        sorted_keys(ks),
    ensures
        0 <= find_pos(ks, k) <= ks.len(),
        forall|j: int| 0 <= j < find_pos(ks, k) ==> key_lt(#[trigger] ks[j], k),
        forall|j: int| find_pos(ks, k) <= j < ks.len() ==> key_le(k, #[trigger] ks[j]),
        sorted_keys(ks.insert(find_pos(ks, k), k)),
{
    let p = find_pos(ks, k);
    if ks.len() == 0 || key_le(k, ks[0]) {
        assert forall|j: int| 0 <= j < ks.len() implies key_le(k, #[trigger] ks[j]) by {
            if j > 0 {
                assert(key_le(ks[0], ks[j]));
                crate::common::key_order::lemma_key_le_transitive(k, ks[0], ks[j]);
            }
        }
    } else {
        crate::common::key_order::lemma_key_lt_total(k, ks[0]);
        lemma_first_gap_sorted(ks, k, 1);
    }
    let n = ks.insert(p, k);
    assert forall|a: int, b: int| 0 <= a < b < n.len() implies key_le(#[trigger] n[a], #[trigger] n[b]) by {
        if b < p {
            assert(n[a] == ks[a] && n[b] == ks[b]);
        } else if b == p {
            assert(n[a] == ks[a]);
        } else if a < p {
            assert(n[a] == ks[a] && n[b] == ks[b - 1]);
            crate::common::key_order::lemma_key_le_transitive(ks[a], k, ks[b - 1]);
        } else if a == p {
            assert(n[b] == ks[b - 1]);
        } else {
            assert(n[a] == ks[a - 1] && n[b] == ks[b - 1]);
        }
    }
}

/// A page whose keys are in order keeps them in order when a node with key
/// `k` is pushed where `find_pos` puts it.
pub proof fn lemma_push_keeps_keys_sorted(v: PageView, k: Seq<u8>, value: Seq<u8>, halves: Option<(PageLocation, PageLocation)>)
    requires
        sorted_keys(node_keys(v)),
        halves is Some ==> (v.pages matches Some(ps) && find_pos(node_keys(v), k) < ps.len()),
    ensures
        sorted_keys(node_keys(pushed(v, find_pos(node_keys(v), k), (k, value), halves))),
{
    let p = find_pos(node_keys(v), k);
    lemma_find_pos_sorted(node_keys(v), k);
    assert(node_keys(pushed(v, p, (k, value), halves)) =~= node_keys(v).insert(p, k));
}

/// After the root split (`grown_root`, `root_split_by`), the new root's
/// node lies between its children in key order: when the split page's keys
/// were in order, every key of its first child is at or before the root's key
/// and every key of its second child at or after it.
pub proof fn lemma_root_split_in_order(
    f: Seq<PageView>,
    root: PageLocation,
    old_root: PageLocation,
    rv: PageView,
    key: Seq<u8>,
    pend: (Seq<u8>, Seq<u8>),
    halves: Option<(PageLocation, PageLocation)>,
)
    requires
        grown_root(f, root, old_root),
        root_split_by(f, rv, page_index(old_root.start_offset), key, pend, halves),
        0 <= page_index(old_root.start_offset) < f.len() - 2,
        sorted_keys(node_keys(pushed(rv, find_pos(node_keys(rv), key), pend, halves))),
        pushed(rv, find_pos(node_keys(rv), key), pend, halves).nodes.len() > MAX_KEYS_PER_PAGE / 2,
    ensures
        ({
            let ps = f.last().pages.unwrap();
            let mk = f.last().nodes[0].0;
            let lower = f[page_index(ps[0].start_offset)];
            let upper = f[page_index(ps[1].start_offset)];
            &&& forall|j: int| 0 <= j < lower.nodes.len() ==> key_le(#[trigger] lower.nodes[j].0, mk)
            &&& forall|j: int| 0 <= j < upper.nodes.len() ==> key_le(mk, #[trigger] upper.nodes[j].0)
        }),
{
    let v2 = pushed(rv, find_pos(node_keys(rv), key), pend, halves);
    let h = (MAX_KEYS_PER_PAGE / 2) as int;
    let ks = node_keys(v2);
    let ps = f.last().pages.unwrap();
    let mk = f.last().nodes[0].0;
    assert(f.last().nodes == seq![v2.nodes[h]]);
    assert(mk == ks[h]);
    let lower = f[page_index(ps[0].start_offset)];
    let upper = f[page_index(ps[1].start_offset)];
    assert(lower == split_left(v2));
    assert(upper == split_right(v2));
    assert forall|j: int| 0 <= j < lower.nodes.len() implies key_le(#[trigger] lower.nodes[j].0, mk) by {
        assert(lower.nodes[j] == v2.nodes[j]);
        assert(ks[j] == v2.nodes[j].0);
    }
    assert forall|j: int| 0 <= j < upper.nodes.len() implies key_le(mk, #[trigger] upper.nodes[j].0) by {
        assert(upper.nodes[j] == v2.nodes[j + h + 1]);
        assert(ks[j + h + 1] == v2.nodes[j + h + 1].0);
    }
}

/// The node and the two halves that an earlier push reported, if it split.
pub open spec fn reported(prev: Option<PushResult>) -> Option<((Seq<u8>, Seq<u8>), (PageLocation, PageLocation))> {
    match prev {
        Some(PushResult::Overflow(o)) => Some((o.node@, (o.l_split.unwrap(), o.r_split.unwrap()))),
        _ => None,
    }
}

impl Page {
    /// The view of a page without nodes and without children.
    pub open spec fn new_view() -> PageView {
        PageView { nodes: Seq::empty(), pages: None }
    }

    /// A page without nodes and without children.
    pub fn new() -> (r: Self)
        ensures
            r@ == Self::new_view(),
    {
        let r = Self { nodes: Vec::new(), pages: None };
        assert(r@.nodes =~= Seq::<(Seq<u8>, Seq<u8>)>::empty());
        r
    }

    /// A copy of this page.
    pub fn copy(&self) -> (r: Page)
        ensures
            r@ == self@,
    {
        let nodes = copy_nodes(&self.nodes);
        let pages = match &self.pages {
            Some(p) => Some(copy_page_locations(p)),
            None => None,
        };
        Page { nodes, pages }
    }

    /// Splits this page: the first half of its nodes, with the children
    /// around them, stays at `page_location`, the node after them moves up,
    /// and the rest goes to a new page at the end of the file. This page keeps its nodes and loses
    /// its children.
    pub fn split(&mut self, page_location: &PageLocation, storage: &mut PageStore) -> (r: OverFlowElement)
        requires
            old(self)@.nodes.len() > MAX_KEYS_PER_PAGE / 2,
            old(self)@.pages matches Some(ps) ==> ps.len() >= MAX_KEYS_PER_PAGE / 2 + 1,
            valid_page_offset(page_location.start_offset, old(storage)@.len()),
            old(storage)@.len() < MAX_PAGES,
        ensures
            ({
                let v = old(self)@;
                let n = old(storage)@.len();
                &&& r.node@ == v.nodes[(MAX_KEYS_PER_PAGE / 2) as int]
                &&& r.l_split == Some(*page_location)
                &&& r.r_split matches Some(rl) && rl.start_offset % PAGE_SIZE == 0 && page_index(rl.start_offset) == n
                &&& final(self)@ == PageView { nodes: v.nodes, pages: None }
                &&& final(storage)@ == old(storage)@.update(page_index(page_location.start_offset), split_left(v)).push(
                    split_right(v),
                )
            }),
    {
        let ghost v = self@;
        let half = MAX_KEYS_PER_PAGE / 2;
        let l_node_split = node_range(&self.nodes, 0, half);
        let overflow_node = self.nodes[half].copy();
        let r_node_split = node_range(&self.nodes, half + 1, self.nodes.len());
        let (l_page_split, r_page_split) = match self.pages.take() {
            None => (None, None),
            Some(children) => (
                Some(location_range(&children, 0, half + 1)),
                Some(location_range(&children, half + 1, children.len())),
            ),
        };
        let l_location = *page_location;
        let l_page = Page { nodes: l_node_split, pages: l_page_split };
        let r_page = Page { nodes: r_node_split, pages: r_page_split };
        proof {
            assert(l_page@.nodes =~= split_left(v).nodes);
            assert(r_page@.nodes =~= split_right(v).nodes);
            assert(self@.nodes =~= v.nodes);
        }
        l_location.write_page(&l_page, storage);
        let r_location = PageLocation::allocate(storage);
        r_location.write_page(&r_page, storage);
        OverFlowElement { node: overflow_node, l_split: Some(l_location), r_split: Some(r_location) }
    }

    /// Inserts `key` with `value` where it goes among this page's nodes, or,
    /// after a child split (`prev_push`), the node that moved up, with the
    /// child replaced by its two halves. The page is then stored at
    /// `page_location`, or split when it holds more than `MAX_KEYS_PER_PAGE`
    /// nodes.
    pub fn push(
        &mut self,
        key: Vec<u8>,
        value: Vec<u8>,
        prev_push: Option<PushResult>,
        page_location: &PageLocation,
        storage: &mut PageStore,
    ) -> (r: PushResult)
        requires
            !(prev_push matches Some(PushResult::Inserted)),
            prev_push matches Some(PushResult::Overflow(o)) ==> {
                &&& o.l_split is Some
                &&& o.r_split is Some
                &&& old(self)@.pages matches Some(ps) && find_pos(node_keys(old(self)@), key@) < ps.len()
            },
            old(self)@.nodes.len() >= MAX_KEYS_PER_PAGE ==> (old(self)@.pages matches Some(ps) ==> ps.len() + (if prev_push
                is Some { 1int } else { 0 }) >= 6),
            valid_page_offset(page_location.start_offset, old(storage)@.len()),
            old(storage)@.len() < MAX_PAGES,
        ensures
            ({
                let v = old(self)@;
                let i = find_pos(node_keys(v), key@);
                let rep = reported(prev_push);
                let v2 = match rep {
                    None => pushed(v, i, (key@, value@), None),
                    Some(x) => pushed(v, i, x.0, Some(x.1)),
                };
                let li = page_index(page_location.start_offset);
                if v2.nodes.len() <= MAX_KEYS_PER_PAGE {
                    &&& r is Inserted
                    &&& final(self)@ == v2
                    &&& final(storage)@ == old(storage)@.update(li, v2)
                } else {
                    &&& r matches PushResult::Overflow(o) && {
                        &&& o.node@ == v2.nodes[(MAX_KEYS_PER_PAGE / 2) as int]
                        &&& o.l_split == Some(*page_location)
                        &&& o.r_split matches Some(rl) && rl.start_offset % PAGE_SIZE == 0 && page_index(
                            rl.start_offset,
                        ) == old(storage)@.len()
                    }
                    &&& final(self)@ == PageView { nodes: v2.nodes, pages: None }
                    &&& final(storage)@ == old(storage)@.update(li, split_left(v2)).push(split_right(v2))
                }
            }),
    {
        let ghost v = self@;
        let index = self.find_position(&key);
        let ghost rep = reported(prev_push);
        match prev_push {
            None => {
                let ghost kv = (key@, value@);
                self.nodes.insert(index, Node { key, value });
                proof {
                    assert(self@.nodes =~= v.nodes.insert(index as int, kv));
                }
            },
            Some(prev) => match prev {
                PushResult::Inserted => {
                    proof {
                        assert(false);
                    }
                },
                PushResult::Overflow(overflow_element) => {
                    let ghost nv = overflow_element.node@;
                    self.nodes.insert(index, overflow_element.node);
                    let l = overflow_element.l_split.unwrap();
                    let r = overflow_element.r_split.unwrap();
                    let mut pages = self.pages.take().unwrap();
                    let ghost ps = pages@;
                    pages.remove(index);
                    pages.insert(index, r);
                    pages.insert(index, l);
                    self.pages = Some(pages);
                    proof {
                        assert(self@.nodes =~= v.nodes.insert(index as int, nv));
                        assert(pages@ =~= ps.remove(index as int).insert(index as int, r).insert(index as int, l));
                    }
                },
            },
        }
        if self.nodes.len() <= MAX_KEYS_PER_PAGE {
            page_location.write_page(self, storage);
            return PushResult::Inserted;
        }
        let overflow = self.split(page_location, storage);
        PushResult::Overflow(overflow)
    }

    /// The pages that adding `key` below this page (stored at
    /// `page_location`) passes through, each with its location, the page
    /// reached at the bottom first and this page last.
    pub fn build_path(
        &mut self,
        key: &Vec<u8>,
        storage: &mut PageStore,
        page_location: PageLocation,
        Ghost(fuel): Ghost<nat>,
    ) -> (r: Vec<(Page, PageLocation)>)
        requires
            descends(old(storage)@, old(self)@, key@, fuel),
        ensures
            r@.map_values(|e: (Page, PageLocation)| (e.0@, e.1)) == descent(
                old(storage)@,
                old(self)@,
                page_location,
                key@,
                fuel,
            ),
            final(self)@ == old(self)@,
            final(storage)@ == old(storage)@,
        decreases fuel,
    {
        if self.pages.is_none() {
            let r = vec![(self.copy(), page_location)];
            assert(r@.map_values(|e: (Page, PageLocation)| (e.0@, e.1)) =~= seq![(self@, page_location)]);
            return r;
        }
        let index = self.find_position(key);
        let child_location = match &self.pages {
            Some(ps) => ps[index],
            None => page_location,
        };
        let mut page = child_location.load_page(storage);
        let mut build_path = page.build_path(key, storage, child_location, Ghost((fuel - 1) as nat));
        let ghost d0 = build_path@.map_values(|e: (Page, PageLocation)| (e.0@, e.1));
        build_path.push((self.copy(), page_location));
        assert(build_path@.map_values(|e: (Page, PageLocation)| (e.0@, e.1)) =~= d0.push((self@, page_location)));
        build_path
    }

    /// Where `key` goes among this page's keys (see `find_pos`).
    pub fn find_position(&self, key: &Vec<u8>) -> (r: usize)
        ensures
            r == find_pos(node_keys(self@), key@),
            r <= self@.nodes.len(),
    {
        let ghost ks = node_keys(self@);
        proof {
            lemma_first_gap(ks, key@, 1);
        }
        if self.nodes.len() == 0 {
            return 0;
        }
        assert(ks[0] == self.nodes@[0].key@);
        if bytes_le(key.as_slice(), self.nodes[0].key.as_slice()) {
            return 0;
        }
        let mut i: usize = 1;
        while i < self.nodes.len()
            invariant
                1 <= i <= self.nodes@.len(),
                ks == node_keys(self@),
                ks.len() == self.nodes@.len(),
                first_gap(ks, key@, 1) == first_gap(ks, key@, i as int),
                !key_le(key@, ks[0]),
            decreases self.nodes@.len() - i,
        {
            assert(ks[i as int] == self.nodes@[i as int].key@);
            assert(ks[i - 1] == self.nodes@[i - 1].key@);
            if bytes_lt(self.nodes[i - 1].key.as_slice(), key.as_slice()) && bytes_le(
                key.as_slice(),
                self.nodes[i].key.as_slice(),
            ) {
                return i;
            }
            i = i + 1;
        }
        self.nodes.len()
    }

    /// A node whose key equals `key`, found by halving the range of nodes as a
    /// binary search over keys in order does.
    pub fn contains_match(&self, key: &Vec<u8>) -> (r: Option<&Node>)
        ensures
            r matches Some(n) ==> n@.0 == key@ && self@.nodes.contains(n@),
            strictly_sorted(node_keys(self@)) ==> (r is None <==> !node_keys(self@).contains(key@)),
    {
        let ghost ks = node_keys(self@);
        let mut lo: usize = 0;
        let mut hi: usize = self.nodes.len();
        while lo < hi
            invariant
                lo <= hi <= self.nodes@.len(),
                ks == node_keys(self@),
                ks.len() == self.nodes@.len(),
                strictly_sorted(ks) ==> forall|x: int| 0 <= x < ks.len() && #[trigger] ks[x] == key@ ==> lo <= x < hi,
            decreases hi - lo,
        {
            let mid = lo + (hi - lo) / 2;
            assert(ks[mid as int] == self.nodes@[mid as int].key@);
            if bytes_eq(self.nodes[mid].key.as_slice(), key.as_slice()) {
                assert(self@.nodes[mid as int] == self.nodes@[mid as int]@);
                return Some(&self.nodes[mid]);
            }
            if bytes_lt(self.nodes[mid].key.as_slice(), key.as_slice()) {
                proof {
                    if strictly_sorted(ks) {
                        assert forall|x: int| 0 <= x < ks.len() && #[trigger] ks[x] == key@ implies mid + 1 <= x < hi by {
                            crate::common::key_order::lemma_key_lt_irreflexive(key@);
                            if x < mid {
                                crate::common::key_order::lemma_key_lt_transitive(ks[x], ks[mid as int], key@);
                            }
                        }
                    }
                }
                lo = mid + 1;
            } else {
                proof {
                    crate::common::key_order::lemma_key_lt_total(ks[mid as int], key@);
                    if strictly_sorted(ks) {
                        assert forall|x: int| 0 <= x < ks.len() && #[trigger] ks[x] == key@ implies lo <= x < mid by {
                            if x > mid {
                                assert(key_lt(ks[mid as int], ks[x]));
                                crate::common::key_order::lemma_key_lt_asymmetric(key@, ks[mid as int]);
                            }
                        }
                    }
                }
                hi = mid;
            }
        }
        proof {
            if strictly_sorted(ks) && ks.contains(key@) {
                let x = choose|x: int| 0 <= x < ks.len() && ks[x] == key@;
                assert(ks[x] == key@);
            }
        }
        None
    }
}

/// Every key sorts strictly before the keys after it.
pub open spec fn strictly_sorted(ks: Seq<Seq<u8>>) -> bool {
    forall|i: int, j: int| 0 <= i < j < ks.len() ==> key_lt(#[trigger] ks[i], #[trigger] ks[j])
}

} // verus!
