//! Internal pages: sorted separators between the child pages they route to.

use crate::common::key_order::{copy_bytes, copy_keys, keys_view, lemma_prefix_le_len, prefix_le_len, upper_bound};
use crate::storage::btree::leaf_page::{copy_locations, Leaf};
use crate::storage::btree::btree::{MAX_KEYS_PER_PAGE, MIN_KEYS_PER_PAGE};
use crate::storage::btree::location::{page_index, Location, PageStore, RefPageLocation, MAX_PAGES, PAGE_SIZE};
use crate::storage::btree::page::{add_splits, overflow_key, overflow_view, OverFlowElement, Page, PageView, PushResult, RemoveResult};
use crate::storage::btree::order::{
    add_order_post, add_order_pre, below, child_hi, child_lo, lemma_below_anc, lemma_child_added_order,
    lemma_child_pre, lemma_child_split_order, lemma_split_order, ordered,
};
use crate::storage::btree::removal::{
    fix_ok, fix_order_post, fixed_parent, fixed_store, lemma_borrow_left_order, lemma_borrow_right_order, lemma_child_removed_order,
    falls_short, lemma_fix_order_compose, lemma_merge_left_order, lemma_merge_right_sep_order, merge_ok, merge_sep_ok,
    merges, merges_right, rem_order_post,
};
use crate::storage::btree::shape::{
    add_post, borrowed_from_left, borrowed_from_right, child_of, emptied, fix_post, lemma_borrow_left,
    lemma_borrow_right, lemma_child_facts, lemma_fix_compose, lemma_fix_lift, lemma_fix_post,
    lemma_merge_left, lemma_merge_right, located, rem_post, route_ok,
    lemma_relax, lemma_split_internal, lemma_store_split_child, lookup, merge_sep, node_ok,
    page_loc_ok, shape_after_split, shape_with_child, tree_ok, tree_ok_relaxed,
    with_child, without_first, without_last, Shape,
};
use vstd::prelude::*;

verus! {

/// Page `p`, whose child that `key` is routed to is a leaf, after adding
/// `key` with `value` below it, as `r`, `fin` and file `f`: the leaf takes
/// the entry (see `Leaf::inserted`) and is stored back, `p` unchanged; or,
/// holding `MAX_KEYS_PER_PAGE` keys then, it keeps its lower half, its upper
/// half goes to a new page at the end of the file, and `p` takes in that
/// page with its first key (see `took_split`).
pub open spec fn leaf_child_added(
    s0: Seq<PageView>,
    p: PageView,
    key: Seq<u8>,
    value: Location,
    r: PushResult,
    fin: PageView,
    f: Seq<PageView>,
) -> bool {
    let i = prefix_le_len(p.keys, key) as int;
    let c = child_of(p, i);
    let n = Leaf::inserted(s0[c], key, value);
    s0[c].is_leaf ==> if n.keys.len() < MAX_KEYS_PER_PAGE {
        &&& r is Inserted
        &&& fin == p
        &&& f == s0.update(c, n)
    } else {
        &&& f == s0.update(c, Page::lower_half(n, 4)).push(Page::upper_half(n, 4, 4))
        &&& took_split(p, i, n.keys[4], Location::Page(RefPageLocation { start_offset: (s0.len() * PAGE_SIZE) as u64 }), r, fin)
    }
}

/// Page `p`, whose child `i` split, after taking in the key `okey` of the
/// split-off page and its location `loc` (see `with_child`): kept whole,
/// reporting `Inserted`, while it has fewer than `MAX_KEYS_PER_PAGE`
/// separators; else split as `Internal::split` does, its lower half kept as
/// `fin` and its upper half reported with the middle separator.
pub open spec fn took_split(p: PageView, i: int, okey: Seq<u8>, loc: Location, r: PushResult, fin: PageView) -> bool {
    let w = with_child(p, i, okey, loc);
    let m = (w.keys.len() / 2) as int;
    if w.keys.len() >= MAX_KEYS_PER_PAGE {
        &&& r is Overflow
        &&& fin == Page::lower_half(w, m)
        &&& overflow_view(r) == Some(Page::upper_half(w, m + 1, m + 1))
        &&& overflow_key(r) == w.keys[m]
    } else {
        &&& r is Inserted
        &&& fin == w
    }
}

/// An internal page: keys that sort before `separators[i]` are routed to
/// `pages[i]`, the others further right; `pages` has one more entry than
/// `separators`.
#[derive(Clone)]
pub struct Internal {
    pub separators: Vec<Vec<u8>>,
    pub pages: Vec<Location>,
}

impl View for Internal {
    type V = PageView;

    open spec fn view(&self) -> PageView {
        PageView { is_leaf: false, keys: keys_view(self.separators@), locs: self.pages@ }
    }
}

impl Internal {
    /// Number of separators.
    pub fn size(&self) -> (r: usize)
        ensures
            r == self@.keys.len(),
    {
        self.separators.len()
    }

    /// A copy of this page.
    pub fn copy(&self) -> (r: Internal)
        ensures
            r@ == self@,
    {
        let separators = copy_keys(&self.separators);
        let pages = copy_locations(&self.pages);
        Internal { separators, pages }
    }

    /// Takes out the first separator and the first child.
    pub fn pop_first(&mut self) -> (r: (Vec<u8>, Location))
        requires
            old(self).separators@.len() > 0,
            old(self).pages@.len() > 0,
        ensures
            r.0@ == old(self)@.keys[0],
            r.1 == old(self)@.locs[0],
            final(self)@.keys == old(self)@.keys.drop_first(),
            final(self)@.locs == old(self)@.locs.drop_first(),
    {
        let separator = self.separators.remove(0);
        let page_loc = self.pages.remove(0);
        assert(self@.keys =~= old(self)@.keys.drop_first());
        assert(self@.locs =~= old(self)@.locs.drop_first());
        (separator, page_loc)
    }

    /// Takes out the last separator and the last child.
    pub fn pop_last(&mut self) -> (r: (Vec<u8>, Location))
        requires
            old(self).separators@.len() > 0,
            old(self).pages@.len() > 0,
        ensures
            r.0@ == old(self)@.keys.last(),
            r.1 == old(self)@.locs.last(),
            final(self)@.keys == old(self)@.keys.drop_last(),
            final(self)@.locs == old(self)@.locs.drop_last(),
    {
        let separator = self.separators.remove(self.separators.len() - 1);
        let page_loc = self.pages.remove(self.pages.len() - 1);
        assert(self@.keys =~= old(self)@.keys.drop_last());
        assert(self@.locs =~= old(self)@.locs.drop_last());
        (separator, page_loc)
    }

    /// Inserts `key` and a child page starting at `value`, both after every
    /// separator at or before `key`; the page must have a child slot there.
    pub fn add_page(&mut self, key: &[u8], value: RefPageLocation) -> (r: PushResult)
        requires
            prefix_le_len(old(self)@.keys, key@) <= old(self).pages@.len(),
        ensures
            r is Inserted,
            ({
                let i = prefix_le_len(old(self)@.keys, key@) as int;
                &&& final(self)@.keys == old(self)@.keys.insert(i, key@)
                &&& final(self)@.locs == old(self)@.locs.insert(i, Location::Page(value))
            }),
    {
        let index = self.index_of(key);
        proof {
            lemma_prefix_le_len(old(self)@.keys, key@);
        }
        self.separators.insert(index, copy_bytes(key));
        self.pages.insert(index, Location::Page(value));
        assert(self@.keys =~= old(self)@.keys.insert(index as int, key@));
        PushResult::Inserted
    }

    /// Keeps the first half of the separators with the children between them
    /// and hands back a page of the rest, without its first separator, which
    /// is handed back beside it.
    pub fn split(&mut self) -> (r: (Page, Vec<u8>))
        requires
            old(self).separators@.len() > 0,
            old(self).pages@.len() > old(self).separators@.len() / 2,
        ensures
            ({
                let m = (old(self)@.keys.len() / 2) as int;
                &&& final(self)@ == Page::lower_half(old(self)@, m)
                &&& r.0@ == Page::upper_half(old(self)@, m + 1, m + 1)
                &&& r.1@ == old(self)@.keys[m]
                &&& r.0 is Internal
            }),
    {
        let ghost m = (self.separators@.len() / 2) as int;
        let mut r_separators = self.separators.split_off(self.separators.len() / 2);
        let r_pages = self.pages.split_off(self.separators.len() + 1);
        let key = r_separators.remove(0);
        let right = Internal { separators: r_separators, pages: r_pages };
        assert(self@.keys =~= old(self)@.keys.take(m));
        assert(self@.locs =~= old(self)@.locs.take(m + 1));
        assert(right@.keys =~= old(self)@.keys.skip(m + 1));
        assert(right@.locs =~= old(self)@.locs.skip(m + 1));
        (Page::Internal(right), key)
    }

    /// The location that `key` finds below this page (see `lookup`), looking
    /// at most `h` levels down.
    pub fn get(&self, key: &[u8], storage: &PageStore, Ghost(h): Ghost<nat>) -> (r: Option<Location>)
        requires
            route_ok(storage@, self@, h, key@),
        ensures
            r == lookup(storage@, self@, h, key@),
        decreases h, 0nat,
    {
        let index = self.index_of(key);
        let child = self.pages[index].load_page(storage);
        child.get(key, storage, Ghost((h - 1) as nat))
    }

    /// Adds `key` with row location `value` below this page, which is page
    /// `me` of shape `sh`: the child that `key` is routed to takes it, a split
    /// child's upper part becomes a new page after it, and this page splits in
    /// turn once it holds `MAX_KEYS_PER_PAGE` separators.
    pub fn add(
        &mut self,
        key: &[u8],
        value: Location,
        storage: &mut PageStore,
        Ghost(me): Ghost<int>,
        Ghost(sh): Ghost<Shape>,
        Ghost(lo): Ghost<Option<Seq<u8>>>,
        Ghost(hi): Ghost<Option<Seq<u8>>>,
    ) -> (r: PushResult)
        requires
            value is Value,
            tree_ok(old(storage)@, sh),
            sh.live.contains(me),
            old(storage)@[me] == old(self)@,
            old(storage)@.len() + (sh.height)(me) <= MAX_PAGES,
        ensures
            exists|sh2: Shape|
                add_post(
                    old(storage)@,
                    sh,
                    me,
                    final(storage)@,
                    final(self)@,
                    overflow_view(r),
                    sh2,
                ),
            add_order_pre(old(storage)@, me, (sh.height)(me), lo, hi, key@) ==> add_order_post(
                old(storage)@,
                me,
                (sh.height)(me),
                lo,
                hi,
                key@,
                value,
                final(storage)@,
                final(self)@,
                overflow_view(r),
                overflow_key(r),
            ),
            ({
                let i = prefix_le_len(old(self)@.keys, key@) as int;
                ||| (r is Inserted && final(self)@ == old(self)@)
                ||| exists|okey: Seq<u8>, loc: Location|
                    loc is Page && page_index(loc->Page_0.start_offset) >= old(storage)@.len() && page_index(
                        loc->Page_0.start_offset,
                    ) == final(storage)@.len() - 1 && #[trigger] took_split(old(self)@, i, okey, loc, r, final(self)@)
            }),
            leaf_child_added(old(storage)@, old(self)@, key@, value, r, final(self)@, final(storage)@),
            (r is Overflow) == add_splits(old(storage)@, old(self)@, (sh.height)(me), key@),
            ({
                let c = child_of(old(self)@, prefix_le_len(old(self)@.keys, key@) as int);
                !add_splits(old(storage)@, old(storage)@[c], ((sh.height)(me) - 1) as nat, key@) ==> r is Inserted
                    && final(self)@ == old(self)@
            }),
        decreases (sh.height)(me), 0nat,
    {
        let ghost s0 = storage@;
        let ghost hp = (sh.height)(me);
        proof {
            assert(node_ok(sh, s0[me], hp));
        }
        let index = self.index_of(key);
        proof {
            lemma_prefix_le_len(self@.keys, key@);
            assert(page_loc_ok(self@.locs[index as int]));
        }
        assert(index < self.pages.len());
        let ghost c = child_of(self@, index as int);
        let page_loc = self.pages[index];
        let mut page = page_loc.load_page(storage);
        let ghost pre = add_order_pre(s0, me, hp, lo, hi, key@);
        proof {
            if pre {
                lemma_child_pre(s0, me, hp, lo, hi, key@);
            }
        }
        let result = page.add(
            key,
            value,
            storage,
            Ghost(c),
            Ghost(sh),
            Ghost(child_lo(s0[me], index as int, lo)),
            Ghost(child_hi(s0[me], index as int, hi)),
        );
        let ghost s1 = storage@;
        let ghost sh2 = choose|sh2: Shape| add_post(s0, sh, c, s1, page@, overflow_view(result), sh2);
        page_loc.write_page(&page, storage);
        let ghost v = storage@;
        proof {
            assert(v == s1.update(c, page@));
            assert(s1[me] == s0[me]);
            assert(v[me] == self@);
        }
        match result {
            PushResult::Inserted => {
                proof {
                    assert(v.update(me, self@) =~= v);
                    assert(add_post(s0, sh, me, v, self@, None, sh2));
                    if pre {
                        assert(add_order_post(
                            s0,
                            c,
                            (sh.height)(c),
                            child_lo(s0[me], index as int, lo),
                            child_hi(s0[me], index as int, hi),
                            key@,
                            value,
                            s1,
                            page@,
                            None,
                            Seq::empty(),
                        ));
                        lemma_child_added_order(s0, sh, me, lo, hi, key@, value, s1, page@, Seq::empty());
                        assert(add_order_post(s0, me, hp, lo, hi, key@, value, v, self@, None, Seq::empty()));
                    }
                }
                PushResult::Inserted
            },
            PushResult::Overflow(overflow) => {
                let ghost o = overflow.page@;
                let ghost okey = overflow.key@;
                let ghost old_self = self@;
                assert(old_self == old(self)@);
                assert(index + 1 <= self.pages@.len());
                let next = index + 1;
                self.separators.insert(index, overflow.key);
                let p_location = RefPageLocation::allocate(storage);
                let p_location = Location::Page(p_location);
                p_location.write_page(&overflow.page, storage);
                self.pages.insert(next, p_location);
                let ghost n = v.len() as int;
                let ghost w = storage@;
                let ghost sh3 = shape_with_child(sh2, me, index as int, n, (hp - 1) as nat);
                proof {
                    if pre {
                        lemma_child_split_order(s0, sh, me, lo, hi, key@, value, s1, page@, o, okey, p_location);
                    }
                }
                proof {
                    assert(w == v.push(o));
                    assert(self@.keys =~= old_self.keys.insert(index as int, okey));
                    assert(self@ == with_child(v[me], index as int, okey, p_location));
                    lemma_store_split_child(v, sh2, me, index as int, okey, o, p_location);
                    assert(v.push(o).update(me, with_child(v[me], index as int, okey, p_location))
                        == w.update(me, self@));
                }
                if self.separators.len() >= MAX_KEYS_PER_PAGE {
                    let ghost wme = self@;
                    let ghost m = (wme.keys.len() / 2) as int;
                    let (page, sep) = self.split();
                    let ghost sh4 = shape_after_split(sh3, me, m);
                    proof {
                        assert(took_split(old_self, index as int, okey, p_location, PushResult::Overflow(OverFlowElement { key: sep, page }), self@));
                        lemma_split_internal(w.update(me, wme), sh3, me, m);
                        assert(w.update(me, wme).update(me, self@) =~= w.update(me, self@));
                        assert(add_post(s0, sh, me, w, self@, Some(page@), sh4));
                        if pre {
                            if below(s0, s0[me], hp, me) {
                                lemma_below_anc(s0, sh, me, me);
                            }
                            lemma_split_order(s0, me, hp, lo, hi, key@, value, w, wme, okey);
                        }
                    }
                    PushResult::Overflow(OverFlowElement { key: sep, page })
                } else {
                    proof {
                        assert(add_post(s0, sh, me, w, self@, None, sh3));
                        assert(took_split(old_self, index as int, okey, p_location, PushResult::Inserted, self@));
                    }
                    PushResult::Inserted
                }
            },
        }
    }

    /// Removes `key` below this page, which is page `me` of shape `sh`: the
    /// child that `key` is routed to removes it, and a child that falls short
    /// is fixed by `handle_underflow`. Reports `Underflow` when this page is
    /// left with `MIN_KEYS_PER_PAGE` separators or fewer; the caller stores
    /// this page back.
    pub fn remove(
        &mut self,
        key: &[u8],
        storage: &mut PageStore,
        Ghost(me): Ghost<int>,
        Ghost(sh): Ghost<Shape>,
        Ghost(lo): Ghost<Option<Seq<u8>>>,
        Ghost(hi): Ghost<Option<Seq<u8>>>,
    ) -> (r: RemoveResult)
        requires
            tree_ok(old(storage)@, sh),
            sh.live.contains(me),
            old(storage)@[me] == old(self)@,
            old(storage)@.len() <= MAX_PAGES,
        ensures
            exists|sh2: Shape| rem_post(old(storage)@, sh, me, final(storage)@, final(self)@, r, sh2),
            (r == RemoveResult::NotFound) == !located(old(storage)@, old(self)@, (sh.height)(me), key@),
            r == RemoveResult::NotFound ==> final(storage)@ == old(storage)@ && final(self)@ == old(self)@,
            ordered(old(storage)@, old(self)@, (sh.height)(me), lo, hi) && merge_ok(
                old(storage)@,
                old(self)@,
                (sh.height)(me),
                key@,
            ) ==> {
                &&& rem_order_post(old(storage)@, me, (sh.height)(me), lo, hi, key@, final(storage)@, final(self)@)
                &&& (r == RemoveResult::Underflow) == falls_short(old(storage)@, old(self)@, (sh.height)(me), key@)
            },
        decreases (sh.height)(me), 0nat,
    {
        let ghost s0 = storage@;
        let ghost p = self@;
        let ghost hm = (sh.height)(me);
        let ghost ord = ordered(s0, p, hm, lo, hi) && merge_ok(s0, p, hm, key@);
        proof {
            assert(node_ok(sh, s0[me], hm));
        }
        let index = self.index_of(key);
        let ghost i = index as int;
        let ghost c = child_of(p, i);
        proof {
            lemma_prefix_le_len(p.keys, key@);
            lemma_relax(s0, sh, c);
            lemma_child_facts(s0, sh, c, me, i);
        }
        let page_loc = self.pages[index];
        let mut page = page_loc.load_page(storage);
        let result = page.remove(
            key,
            storage,
            Ghost(c),
            Ghost(sh),
            Ghost(child_lo(p, i, lo)),
            Ghost(child_hi(p, i, hi)),
        );
        let ghost s1 = storage@;
        let ghost v1 = page@;
        let ghost sh2 = choose|sh2: Shape| rem_post(s0, sh, c, s1, v1, result, sh2);
        page_loc.write_page(&page, storage);
        let ghost t = storage@;
        proof {
            assert(t == s1.update(c, v1));
            assert(s1[me] == s0[me]);
            assert(t[me] == p);
            if ord {
                assert((sh.height)(c) + 1 == hm);
                assert(ordered(s0, s0[c], (sh.height)(c), child_lo(p, i, lo), child_hi(p, i, hi)));
                assert(merge_ok(s0, s0[c], (sh.height)(c), key@));
                lemma_child_removed_order(s0, sh, me, lo, hi, key@, s1, v1);
                assert(rem_order_post(s0, me, hm, lo, hi, key@, t, p));
                // The siblings of `c`, and the first child of the right one, are kept.
                assert forall|b: int| 0 <= b < p.locs.len() && b != i implies t[#[trigger] child_of(p, b)] == s0[child_of(p, b)] && (
                !s0[child_of(p, b)].is_leaf ==> t[child_of(s0[child_of(p, b)], 0)] == s0[child_of(s0[child_of(p, b)], 0)]) by {
                    let cb = child_of(p, b);
                    crate::storage::btree::order::lemma_children_apart(s0, sh, me, i, b, cb);
                    lemma_child_facts(s0, sh, c, me, b);
                    assert(node_ok(sh, s0[cb], (sh.height)(cb)));
                    if !s0[cb].is_leaf {
                        let g = child_of(s0[cb], 0);
                        assert(below(s0, s0[cb], (sh.height)(cb), g));
                        crate::storage::btree::order::lemma_children_apart(s0, sh, me, i, b, g);
                    }
                }
            }
        }
        match result {
            RemoveResult::NotFound => {
                proof {
                    assert(t =~= s0);
                    lemma_fix_lift(s0, sh, me, c, s1, v1, sh2);
                    assert(rem_post(s0, sh, me, t, self@, result, sh2));
                }
                RemoveResult::NotFound
            },
            RemoveResult::Removed => {
                proof {
                    lemma_fix_lift(s0, sh, me, c, s1, v1, sh2);
                    assert(rem_post(s0, sh, me, t, self@, result, sh2));
                }
                RemoveResult::Removed
            },
            RemoveResult::Underflow => {
                proof {
                    assert(sh2.live.contains(me));
                }
                proof {
                    if ord {
                        assert(t.update(me, p) =~= t);
                        assert(ordered(t, p, (sh2.height)(me), lo, hi));
                        assert(falls_short(s0, s0[c], (sh.height)(c), key@));
                        if i + 1 < p.locs.len() {
                            assert(t[child_of(p, i + 1)] == s0[child_of(p, i + 1)]);
                        }
                        if i > 0 {
                            assert(t[child_of(p, i - 1)] == s0[child_of(p, i - 1)]);
                        }
                        assert(merges(t, p, i) == merges(s0, p, i));
                        assert(merges_right(t, p, i) ==> merge_sep_ok(t, p, i));
                    }
                }
                self.fix_short_child(key, storage, Ghost(me), Ghost(sh2), Ghost(lo), Ghost(hi));
                let ghost sh3 = choose|sh3: Shape| fix_post(t, sh2, me, storage@, self@, sh3);
                proof {
                    lemma_fix_compose(s0, sh, me, c, s1, v1, sh2, storage@, self@, sh3);
                    if ord {
                        lemma_fix_order_compose(s0, me, hm, lo, hi, key@, t, storage@, self@);
                        assert(self@.keys.len() == p.keys.len() - (if merges(s0, p, i) {
                            1int
                        } else {
                            0int
                        }));
                    }
                }
                if self.separators.len() > MIN_KEYS_PER_PAGE {
                    proof {
                        lemma_relax(storage@.update(me, self@), sh3, me);
                        assert(rem_post(s0, sh, me, storage@, self@, RemoveResult::Removed, sh3));
                    }
                    RemoveResult::Removed
                } else {
                    proof {
                        assert(rem_post(s0, sh, me, storage@, self@, RemoveResult::Underflow, sh3));
                    }
                    RemoveResult::Underflow
                }
            },
        }
    }

    /// Child 0 (`page`) fell short: it borrows the first entry of its right
    /// sibling `r_page` when that one has more than `MIN_KEYS_PER_PAGE` keys,
    /// else takes in all of it, removing the separator and slot between them.
    fn underflow_single_right(
        &mut self,
        page: &mut Page,
        r_page: &mut Page,
        r_page_loc: &Location,
        storage: &mut PageStore,
    )
        requires
            old(self)@.keys.len() >= 1,
            old(self)@.locs.len() >= 2,
            old(page)@.is_leaf == old(r_page)@.is_leaf,
            old(r_page)@.keys.len() >= 1,
            old(r_page)@.locs.len() >= old(r_page)@.keys.len(),
            page_loc_ok(*r_page_loc),
            page_index(r_page_loc->Page_0.start_offset) < old(storage)@.len(),
            old(storage)@.len() <= MAX_PAGES,
            !old(r_page)@.is_leaf && old(r_page)@.keys.len() <= MIN_KEYS_PER_PAGE ==> {
                &&& page_loc_ok(old(r_page)@.locs[0])
                &&& 0 <= child_of(old(r_page)@, 0) < old(storage)@.len()
                &&& old(storage)@[child_of(old(r_page)@, 0)].keys.len() >= 1
            },
        ensures
            ({
                let x = old(page)@;
                let rv = old(r_page)@;
                let p = old(self)@;
                if rv.keys.len() > MIN_KEYS_PER_PAGE {
                    &&& final(page)@ == borrowed_from_right(x, rv, p.keys[0])
                    &&& final(r_page)@ == without_first(rv)
                    &&& final(self)@ == PageView {
                        is_leaf: false,
                        keys: p.keys.update(0, if x.is_leaf { rv.keys[1] } else { rv.keys[0] }),
                        locs: p.locs,
                    }
                    &&& final(storage)@ == old(storage)@.update(
                        page_index(r_page_loc->Page_0.start_offset),
                        without_first(rv),
                    )
                } else {
                    &&& final(page)@ == Page::merged(x, merge_sep(old(storage)@, rv), rv)
                    &&& final(r_page)@ == emptied(rv)
                    &&& final(self)@ == PageView { is_leaf: false, keys: p.keys.remove(0), locs: p.locs.remove(1) }
                    &&& final(storage)@ == old(storage)@
                }
            }),
    {
        let ghost x = page@;
        let ghost rv = r_page@;
        let ghost p = self@;
        if r_page.size() > MIN_KEYS_PER_PAGE {
            let (r_key, r_ref_page) = r_page.pop_first();
            r_page_loc.write_page(r_page, storage);
            match page {
                Page::Leaf(leaf) => {
                    let s = copy_bytes(r_page.peek_first());
                    leaf.keys.push(r_key);
                    leaf.values.push(r_ref_page);
                    self.separators.set(0, s);
                },
                Page::Internal(node) => {
                    let s = copy_bytes(self.separators[0].as_slice());
                    node.pages.push(r_ref_page);
                    node.separators.push(s);
                    self.separators.set(0, r_key);
                },
            };
            proof {
                assert(page@.keys =~= borrowed_from_right(x, rv, p.keys[0]).keys);
                assert(self@.keys =~= p.keys.update(0, if x.is_leaf { rv.keys[1] } else { rv.keys[0] }));
            }
        } else {
            let sep = match r_page {
                Page::Leaf(_) => copy_bytes(r_page.peek_first()),
                Page::Internal(_) => {
                    let first = r_page.peek_first_location().load_page(storage);
                    copy_bytes(first.peek_first())
                },
            };
            let _ = self.separators.remove(0);
            let _ = self.pages.remove(1);
            page.merge_right(sep, r_page);
            proof {
                assert(self@.keys =~= p.keys.remove(0));
                assert(r_page@.keys =~= Seq::<Seq<u8>>::empty());
                assert(r_page@.locs =~= Seq::<Location>::empty());
            }
        }
    }

    /// The last child (`page`) fell short: it borrows the last entry of its
    /// left sibling `l_page` when that one has more than `MIN_KEYS_PER_PAGE`
    /// keys, else the sibling takes it in together with the last separator.
    fn underflow_single_left(
        &mut self,
        page: &mut Page,
        l_page: &mut Page,
        l_page_loc: &Location,
        storage: &mut PageStore,
    )
        requires
            old(self)@.keys.len() >= 1,
            old(self)@.locs.len() >= 1,
            old(page)@.is_leaf == old(l_page)@.is_leaf,
            old(l_page)@.keys.len() >= 1,
            old(l_page)@.locs.len() >= old(l_page)@.keys.len(),
            page_loc_ok(*l_page_loc),
            page_index(l_page_loc->Page_0.start_offset) < old(storage)@.len(),
            old(storage)@.len() <= MAX_PAGES,
        ensures
            ({
                let x = old(page)@;
                let lv = old(l_page)@;
                let p = old(self)@;
                if lv.keys.len() > MIN_KEYS_PER_PAGE {
                    &&& final(page)@ == borrowed_from_left(x, lv, p.keys.last())
                    &&& final(l_page)@ == without_last(lv)
                    &&& final(self)@ == PageView {
                        is_leaf: false,
                        keys: p.keys.update(p.keys.len() - 1, lv.keys.last()),
                        locs: p.locs,
                    }
                    &&& final(storage)@ == old(storage)@.update(
                        page_index(l_page_loc->Page_0.start_offset),
                        without_last(lv),
                    )
                } else {
                    &&& final(l_page)@ == Page::merged(lv, p.keys.last(), x)
                    &&& final(page)@ == emptied(x)
                    &&& final(self)@ == without_last(p)
                    &&& final(storage)@ == old(storage)@
                }
            }),
    {
        let ghost x = page@;
        let ghost lv = l_page@;
        let ghost p = self@;
        if l_page.size() > MIN_KEYS_PER_PAGE {
            let (l_key, l_ref_page) = l_page.pop_last();
            l_page_loc.write_page(l_page, storage);
            match page {
                Page::Leaf(leaf) => {
                    leaf.keys.insert(0, copy_bytes(l_key.as_slice()));
                    leaf.values.insert(0, l_ref_page);
                    let sep_size = self.size();
                    self.separators.set(sep_size - 1, l_key);
                },
                Page::Internal(node) => {
                    let sep_size = self.size();
                    let s = copy_bytes(self.separators[sep_size - 1].as_slice());
                    node.pages.insert(0, l_ref_page);
                    node.separators.insert(0, s);
                    self.separators.set(sep_size - 1, l_key);
                },
            };
            proof {
                assert(page@.keys =~= borrowed_from_left(x, lv, p.keys.last()).keys);
                assert(page@.locs =~= borrowed_from_left(x, lv, p.keys.last()).locs);
                assert(self@.keys =~= p.keys.update(p.keys.len() - 1, lv.keys.last()));
            }
        } else {
            let sep = self.separators.pop().unwrap();
            let _ = self.pages.pop().unwrap();
            l_page.merge_right(sep, page);
            proof {
                assert(self@.keys =~= p.keys.drop_last());
                assert(self@.locs =~= p.locs.drop_last());
                assert(page@.keys =~= Seq::<Seq<u8>>::empty());
                assert(page@.locs =~= Seq::<Location>::empty());
            }
        }
    }

    /// Child `index` (`page`) fell short and its right sibling `r_page` has
    /// keys to spare: it borrows the sibling's first entry.
    fn underflow_both_right(
        &mut self,
        page: &mut Page,
        index: usize,
        r_page: &mut Page,
        r_page_loc: &Location,
        storage: &mut PageStore,
    )
        requires
            index < old(self)@.keys.len(),
            old(page)@.is_leaf == old(r_page)@.is_leaf,
            old(r_page)@.keys.len() > MIN_KEYS_PER_PAGE,
            old(r_page)@.locs.len() >= old(r_page)@.keys.len(),
            page_loc_ok(*r_page_loc),
            page_index(r_page_loc->Page_0.start_offset) < old(storage)@.len(),
            old(storage)@.len() <= MAX_PAGES,
        ensures
            ({
                let x = old(page)@;
                let rv = old(r_page)@;
                let p = old(self)@;
                &&& final(page)@ == borrowed_from_right(x, rv, p.keys[index as int])
                &&& final(r_page)@ == without_first(rv)
                &&& final(self)@ == PageView {
                    is_leaf: false,
                    keys: p.keys.update(index as int, if x.is_leaf { rv.keys[1] } else { rv.keys[0] }),
                    locs: p.locs,
                }
                &&& final(storage)@ == old(storage)@.update(
                    page_index(r_page_loc->Page_0.start_offset),
                    without_first(rv),
                )
            }),
    {
        let ghost x = page@;
        let ghost rv = r_page@;
        let ghost p = self@;
        let (r_key, r_ref_page) = r_page.pop_first();
        r_page_loc.write_page(r_page, storage);
        let old_parent_sep = copy_bytes(self.separators[index].as_slice());
        let new_sep = match r_page {
            Page::Leaf(_) => copy_bytes(r_page.peek_first()),
            Page::Internal(_) => copy_bytes(r_key.as_slice()),
        };
        self.separators.set(index, new_sep);
        match page {
            Page::Internal(_) => page.push_last(old_parent_sep, r_ref_page),
            Page::Leaf(_) => page.push_last(r_key, r_ref_page),
        };
        proof {
            assert(self@.keys =~= p.keys.update(index as int, if x.is_leaf { rv.keys[1] } else { rv.keys[0] }));
        }
    }

    /// Child `index` (`page`) fell short and its left sibling `l_page` has keys
    /// to spare: it borrows the sibling's last entry.
    fn underflow_both_left(
        &mut self,
        page: &mut Page,
        index: usize,
        l_page: &mut Page,
        l_page_loc: &Location,
        storage: &mut PageStore,
    )
        requires
            1 <= index <= old(self)@.keys.len(),
            old(page)@.is_leaf == old(l_page)@.is_leaf,
            old(l_page)@.keys.len() > MIN_KEYS_PER_PAGE,
            old(l_page)@.locs.len() >= old(l_page)@.keys.len(),
            page_loc_ok(*l_page_loc),
            page_index(l_page_loc->Page_0.start_offset) < old(storage)@.len(),
            old(storage)@.len() <= MAX_PAGES,
        ensures
            ({
                let x = old(page)@;
                let lv = old(l_page)@;
                let p = old(self)@;
                &&& final(page)@ == borrowed_from_left(x, lv, p.keys[index - 1])
                &&& final(l_page)@ == without_last(lv)
                &&& final(self)@ == PageView {
                    is_leaf: false,
                    keys: p.keys.update(index - 1, lv.keys.last()),
                    locs: p.locs,
                }
                &&& final(storage)@ == old(storage)@.update(
                    page_index(l_page_loc->Page_0.start_offset),
                    without_last(lv),
                )
            }),
    {
        let ghost x = page@;
        let ghost lv = l_page@;
        let ghost p = self@;
        let (l_key, l_ref_page) = l_page.pop_last();
        l_page_loc.write_page(l_page, storage);
        let old_parent_sep = copy_bytes(self.separators[index - 1].as_slice());
        self.separators.set(index - 1, copy_bytes(l_key.as_slice()));
        match page {
            Page::Internal(_) => page.push_first(old_parent_sep, l_ref_page),
            Page::Leaf(_) => page.push_first(l_key, l_ref_page),
        };
        proof {
            assert(self@.keys =~= p.keys.update(index - 1, lv.keys.last()));
        }
    }

    /// Child `index` (`page`) fell short and neither sibling has keys to
    /// spare: it takes in all of its right sibling `r_page`.
    fn underflow_both_right_merge(&mut self, page: &mut Page, index: usize, r_page: &mut Page, storage: &PageStore)
        requires
            index < old(self)@.keys.len(),
            index + 1 < old(self)@.locs.len(),
            old(page)@.is_leaf == old(r_page)@.is_leaf,
            old(r_page)@.keys.len() >= 1,
            !old(r_page)@.is_leaf ==> {
                &&& old(r_page)@.locs.len() >= 1
                &&& page_loc_ok(old(r_page)@.locs[0])
                &&& 0 <= child_of(old(r_page)@, 0) < storage@.len()
                &&& storage@[child_of(old(r_page)@, 0)].keys.len() >= 1
            },
        ensures
            ({
                let x = old(page)@;
                let rv = old(r_page)@;
                let p = old(self)@;
                &&& final(page)@ == Page::merged(x, merge_sep(storage@, rv), rv)
                &&& final(r_page)@ == emptied(rv)
                &&& final(self)@ == PageView {
                    is_leaf: false,
                    keys: p.keys.remove(index as int),
                    locs: p.locs.remove(index + 1),
                }
            }),
    {
        let ghost p = self@;
        let ghost rv = r_page@;
        let sep = match r_page {
            Page::Leaf(_) => copy_bytes(r_page.peek_first()),
            Page::Internal(_) => {
                let first = r_page.peek_first_location().load_page(storage);
                copy_bytes(first.peek_first())
            },
        };
        assert(index + 1 < self.pages.len());
        let _ = self.separators.remove(index);
        let _ = self.pages.remove(index + 1);
        page.merge_right(sep, r_page);
        proof {
            assert(self@.keys =~= p.keys.remove(index as int));
            assert(self@.locs =~= p.locs.remove(index + 1));
            assert(r_page@.keys =~= Seq::<Seq<u8>>::empty());
            assert(r_page@.locs =~= Seq::<Location>::empty());
        }
    }

    /// Child `index` (`page`) fell short and has siblings on both sides: it
    /// borrows from the right one if that has keys to spare, else from the left
    /// one if that has, else takes in all of the right one.
    fn underflow_both(
        &mut self,
        page: &mut Page,
        index: usize,
        l_page: &mut Page,
        l_page_loc: &Location,
        r_page: &mut Page,
        r_page_loc: &Location,
        storage: &mut PageStore,
    )
        requires
            1 <= index < old(self)@.keys.len(),
            index + 1 < old(self)@.locs.len(),
            old(page)@.is_leaf == old(r_page)@.is_leaf,
            old(page)@.is_leaf == old(l_page)@.is_leaf,
            old(r_page)@.keys.len() >= 1,
            old(r_page)@.locs.len() >= old(r_page)@.keys.len(),
            old(l_page)@.locs.len() >= old(l_page)@.keys.len(),
            page_loc_ok(*r_page_loc),
            page_index(r_page_loc->Page_0.start_offset) < old(storage)@.len(),
            old(storage)@.len() <= MAX_PAGES,
            page_loc_ok(*l_page_loc),
            page_index(l_page_loc->Page_0.start_offset) < old(storage)@.len(),
            !old(r_page)@.is_leaf ==> {
                &&& page_loc_ok(old(r_page)@.locs[0])
                &&& 0 <= child_of(old(r_page)@, 0) < old(storage)@.len()
                &&& old(storage)@[child_of(old(r_page)@, 0)].keys.len() >= 1
            },
        ensures
            ({
                let x = old(page)@;
                let lv = old(l_page)@;
                let rv = old(r_page)@;
                let p = old(self)@;
                let i = index as int;
                if rv.keys.len() > MIN_KEYS_PER_PAGE {
                    &&& final(page)@ == borrowed_from_right(x, rv, p.keys[i])
                    &&& final(r_page)@ == without_first(rv)
                    &&& final(l_page)@ == lv
                    &&& final(self)@ == PageView {
                        is_leaf: false,
                        keys: p.keys.update(i, if x.is_leaf { rv.keys[1] } else { rv.keys[0] }),
                        locs: p.locs,
                    }
                    &&& final(storage)@ == old(storage)@.update(
                        page_index(r_page_loc->Page_0.start_offset),
                        without_first(rv),
                    )
                } else if lv.keys.len() > MIN_KEYS_PER_PAGE {
                    &&& final(page)@ == borrowed_from_left(x, lv, p.keys[i - 1])
                    &&& final(l_page)@ == without_last(lv)
                    &&& final(r_page)@ == rv
                    &&& final(self)@ == PageView {
                        is_leaf: false,
                        keys: p.keys.update(i - 1, lv.keys.last()),
                        locs: p.locs,
                    }
                    &&& final(storage)@ == old(storage)@.update(
                        page_index(l_page_loc->Page_0.start_offset),
                        without_last(lv),
                    )
                } else {
                    &&& final(page)@ == Page::merged(x, merge_sep(old(storage)@, rv), rv)
                    &&& final(r_page)@ == emptied(rv)
                    &&& final(l_page)@ == lv
                    &&& final(self)@ == PageView {
                        is_leaf: false,
                        keys: p.keys.remove(i),
                        locs: p.locs.remove(i + 1),
                    }
                    &&& final(storage)@ == old(storage)@
                }
            }),
    {
        if r_page.size() > MIN_KEYS_PER_PAGE {
            self.underflow_both_right(page, index, r_page, r_page_loc, storage);
        } else if l_page.size() > MIN_KEYS_PER_PAGE {
            self.underflow_both_left(page, index, l_page, l_page_loc, storage);
        } else {
            self.underflow_both_right_merge(page, index, r_page, storage);
        }
    }

    /// The child that `key` is routed to fell one key short: it borrows the
    /// first entry of its right sibling when that one has keys to spare, else
    /// the last entry of its left sibling when that one has, else it takes in
    /// its right sibling, or, as the last child, is taken in by its left
    /// sibling (see `fixed_store`, `fixed_parent`). Every child page touched
    /// is stored back; this page is held by the caller, who stores it back.
    pub fn handle_underflow(&mut self, key: &[u8], storage: &mut PageStore)
        requires
            fix_ok(old(storage)@, old(self)@, prefix_le_len(old(self)@.keys, key@) as int),
        ensures
            final(storage)@ == fixed_store(old(storage)@, old(self)@, prefix_le_len(old(self)@.keys, key@) as int),
            final(self)@ == fixed_parent(old(storage)@, old(self)@, prefix_le_len(old(self)@.keys, key@) as int),
    {
        let ghost s0 = storage@;
        let ghost p = self@;
        let index = self.index_of(key);
        let ghost i = index as int;
        let ghost c = child_of(p, i);
        let ghost r = child_of(p, i + 1);
        let ghost l = child_of(p, i - 1);
        assert(index < self.pages.len());
        let page_loc = self.pages[index];
        let mut page = page_loc.load_page(storage);
        let r_page_loc: Option<Location> = if index + 1 < self.pages.len() {
            Some(self.pages[index + 1])
        } else {
            None
        };
        let l_page_loc: Option<Location> = if index > 0 {
            Some(self.pages[index - 1])
        } else {
            None
        };
        let r_page = match r_page_loc {
            None => None,
            Some(loc) => Some(loc.load_page(storage)),
        };
        let l_page = match l_page_loc {
            None => None,
            Some(loc) => Some(loc.load_page(storage)),
        };
        let ghost x = s0[c];
        match (l_page, r_page) {
            (None, None) => {
                proof {
                    assert(false);
                }
            },
            (None, Some(mut r_page)) => {
                if let Some(r_loc) = r_page_loc {
                    self.underflow_single_right(&mut page, &mut r_page, &r_loc, storage);
                    r_loc.write_page(&r_page, storage);
                }
            },
            (Some(mut l_page), None) => {
                if let Some(l_loc) = l_page_loc {
                    self.underflow_single_left(&mut page, &mut l_page, &l_loc, storage);
                    l_loc.write_page(&l_page, storage);
                }
            },
            (Some(mut l_page), Some(mut r_page)) => {
                if let (Some(l_loc), Some(r_loc)) = (l_page_loc, r_page_loc) {
                    self.underflow_both(&mut page, index, &mut l_page, &l_loc, &mut r_page, &r_loc, storage);
                    l_loc.write_page(&l_page, storage);
                    r_loc.write_page(&r_page, storage);
                }
            },
        };
        let ghost s_before = storage@;
        page_loc.write_page(&page, storage);
        proof {
            assert(storage@ == s_before.update(c, page@));
            assert(storage@ =~= fixed_store(s0, p, i));
            assert(self@ =~= fixed_parent(s0, p, i));
        }
    }

    /// `handle_underflow` on this page, which is page `me` of shape `sh`, as
    /// removing below it calls it: the shape is kept (see `fix_post`) and so
    /// is the key order where the merge takes a separator from the right
    /// level.
    #[verifier::rlimit(40)]
    #[verifier::spinoff_prover]
    fn fix_short_child(
        &mut self,
        key: &[u8],
        storage: &mut PageStore,
        Ghost(me): Ghost<int>,
        Ghost(sh): Ghost<Shape>,
        Ghost(lo): Ghost<Option<Seq<u8>>>,
        Ghost(hi): Ghost<Option<Seq<u8>>>,
    )
        requires
            sh.live.contains(me),
            old(storage)@[me] == old(self)@,
            !old(self)@.is_leaf,
            tree_ok_relaxed(
                old(storage)@,
                sh,
                child_of(old(self)@, prefix_le_len(old(self)@.keys, key@) as int),
            ),
            old(storage)@.len() <= MAX_PAGES,
        ensures
            exists|sh2: Shape| fix_post(old(storage)@, sh, me, final(storage)@, final(self)@, sh2),
            final(storage)@ == fixed_store(old(storage)@, old(self)@, prefix_le_len(old(self)@.keys, key@) as int),
            final(self)@ == fixed_parent(old(storage)@, old(self)@, prefix_le_len(old(self)@.keys, key@) as int),
            ({
                let i = prefix_le_len(old(self)@.keys, key@) as int;
                final(self)@.keys.len() == old(self)@.keys.len() - (if merges(old(storage)@, old(self)@, i) {
                    1int
                } else {
                    0int
                })
            }),
            ({
                let i = prefix_le_len(old(self)@.keys, key@) as int;
                ordered(old(storage)@, old(self)@, (sh.height)(me), lo, hi) && (merges_right(old(storage)@, old(self)@, i)
                    ==> merge_sep_ok(old(storage)@, old(self)@, i))
            }) ==> fix_order_post(old(storage)@, me, (sh.height)(me), lo, hi, final(storage)@, final(self)@),
    {
        proof {
            lemma_fixed_child(storage@, sh, me, key@, lo, hi);
        }
        self.handle_underflow(key, storage);
    }

    /// Index of the child that `key` is routed to: the position after every
    /// separator at or before `key`.
    pub fn index_of(&self, key: &[u8]) -> (r: usize)
        ensures
            r == prefix_le_len(self@.keys, key@),
    {
        upper_bound(&self.separators, key)
    }
}

/// Fixing the short child that `key` is routed to below page `me` of shape
/// `sh` (as `handle_underflow` does, see `fixed_store` and `fixed_parent`)
/// runs without fault and keeps the file well formed, with that page one key
/// short at most; where the page keeps the key order and a merge with the
/// right sibling takes a separator from the right level, it keeps the order
/// and every entry below the page, and adds none.
pub proof fn lemma_fixed_child(
    s0: Seq<PageView>,
    sh: Shape,
    me: int,
    key: Seq<u8>,
    lo: Option<Seq<u8>>,
    hi: Option<Seq<u8>>,
)
    requires
        sh.live.contains(me),
        !s0[me].is_leaf,
        tree_ok_relaxed(s0, sh, child_of(s0[me], prefix_le_len(s0[me].keys, key) as int)),
        s0.len() <= MAX_PAGES,
    ensures
        ({
            let p = s0[me];
            let i = prefix_le_len(p.keys, key) as int;
            let s1 = fixed_store(s0, p, i);
            let v1 = fixed_parent(s0, p, i);
            &&& fix_ok(s0, p, i)
            &&& exists|sh2: Shape| fix_post(s0, sh, me, s1, v1, sh2)
            &&& v1.keys.len() == p.keys.len() - (if merges(s0, p, i) {
                1int
            } else {
                0int
            })
            &&& ordered(s0, p, (sh.height)(me), lo, hi) && (merges_right(s0, p, i) ==> merge_sep_ok(s0, p, i))
                ==> fix_order_post(s0, me, (sh.height)(me), lo, hi, s1, v1)
        }),
{
    let p = s0[me];
    let hm = (sh.height)(me);
    let i = prefix_le_len(p.keys, key) as int;
    let ord = ordered(s0, p, hm, lo, hi) && (merges_right(s0, p, i) ==> merge_sep_ok(s0, p, i));
    let c = child_of(p, i);
    let r = child_of(p, i + 1);
    let l = child_of(p, i - 1);
    let s1 = fixed_store(s0, p, i);
    let v1 = fixed_parent(s0, p, i);
    let mut sh2 = sh;
    lemma_prefix_le_len(p.keys, key);
    assert(node_ok(sh, s0[me], hm));
    lemma_child_facts(s0, sh, c, me, i);
    assert(p.keys.len() >= 1);
    assert(node_ok(sh, s0[c], (sh.height)(c)));
    if i + 1 < p.locs.len() {
        lemma_child_facts(s0, sh, c, me, i + 1);
        assert(r != c) by {
            assert((sh.parent)(r) == (me, i + 1));
        }
        assert(node_ok(sh, s0[r], (sh.height)(r)));
        if !s0[r].is_leaf {
            lemma_child_facts(s0, sh, c, r, 0);
            let g = child_of(s0[r], 0);
            assert(g != c) by {
                assert((sh.parent)(g) == (r, 0int));
            }
            assert(sh.live.contains(g));
        }
    }
    if i > 0 {
        lemma_child_facts(s0, sh, c, me, i - 1);
        assert(l != c) by {
            assert((sh.parent)(l) == (me, i - 1));
        }
        assert(node_ok(sh, s0[l], (sh.height)(l)));
        if i + 1 < p.locs.len() {
            assert(l != r) by {
                assert((sh.parent)(l) == (me, i - 1));
            }
        }
    }
    assert(fix_ok(s0, p, i));
    let x = s0[c];
    if i + 1 < p.locs.len() && s0[r].keys.len() > MIN_KEYS_PER_PAGE {
        let rv = s0[r];
        lemma_borrow_right(s0, sh, me, i);
        sh2 = if x.is_leaf {
            sh
        } else {
            crate::storage::btree::shape::shape_borrow_right(sh, c, r, x.locs.len() as int, child_of(rv, 0))
        };
        assert(s1.update(me, v1) =~= s0.update(r, without_first(rv)).update(
            c,
            borrowed_from_right(x, rv, p.keys[i]),
        ).update(me, v1));
        lemma_relax(s1.update(me, v1), sh2, me);
        lemma_fix_post(s0, sh, me, s1, v1, sh2, c, r, c, r, if i == 0 { r } else { l });
        if ord {
            lemma_borrow_right_order(s0, sh, me, i, lo, hi);
        }
    } else if i > 0 && s0[l].keys.len() > MIN_KEYS_PER_PAGE {
        let lv = s0[l];
        lemma_borrow_left(s0, sh, me, i);
        sh2 = if x.is_leaf {
            sh
        } else {
            crate::storage::btree::shape::shape_borrow_left(sh, c, child_of(lv, lv.locs.len() - 1))
        };
        assert(s1.update(me, v1) =~= s0.update(l, without_last(lv)).update(
            c,
            borrowed_from_left(x, lv, p.keys[i - 1]),
        ).update(me, v1));
        lemma_relax(s1.update(me, v1), sh2, me);
        lemma_fix_post(s0, sh, me, s1, v1, sh2, c, l, c, l, if i + 1 < p.locs.len() { r } else { l });
        if ord {
            lemma_borrow_left_order(s0, sh, me, i, lo, hi);
        }
    } else if i + 1 < p.locs.len() {
        let rv = s0[r];
        lemma_merge_right(s0, sh, me, i, merge_sep(s0, rv));
        sh2 = crate::storage::btree::shape::shape_merge(sh, me, i + 1, c, r, x.locs.len() as int);
        assert(s1.update(me, v1) =~= s0.update(r, emptied(rv)).update(
            c,
            Page::merged(x, merge_sep(s0, rv), rv),
        ).update(me, v1));
        lemma_fix_post(s0, sh, me, s1, v1, sh2, r, me, c, r, if i == 0 { r } else { l });
        if ord {
            lemma_merge_right_sep_order(s0, sh, me, i, lo, hi);
        }
    } else {
        let lv = s0[l];
        assert(p.keys.last() == p.keys[i - 1]);
        lemma_merge_left(s0, sh, me);
        sh2 = crate::storage::btree::shape::shape_merge(sh, me, i, l, c, lv.locs.len() as int);
        assert(s1.update(me, v1) =~= s0.update(l, Page::merged(lv, p.keys.last(), x)).update(
            c,
            emptied(x),
        ).update(me, v1));
        lemma_fix_post(s0, sh, me, s1, v1, sh2, c, me, c, l, l);
        if ord {
            lemma_merge_left_order(s0, sh, me, lo, hi);
        }
    }
    assert(fix_post(s0, sh, me, s1, v1, sh2));
    if ord {
        assert(fix_order_post(s0, me, hm, lo, hi, s1, v1));
    }
    assert(v1.keys.len() == p.keys.len() - (if merges(s0, p, i) {
        1int
    } else {
        0int
    }));
}

} // verus!
