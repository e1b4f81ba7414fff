//! Index pages and what adding to or removing from one reports to its parent.

use crate::storage::btree::internal_page::Internal;
use crate::storage::btree::leaf_page::Leaf;
use crate::common::key_order::prefix_le_len;
use crate::storage::btree::btree::{MAX_KEYS_PER_PAGE, MIN_KEYS_PER_PAGE};
use crate::storage::btree::location::{Location, PageStore, MAX_PAGES};
use crate::storage::btree::order::{add_order_post, add_order_pre, lemma_leaf_add_order, ordered};
use crate::storage::btree::removal::{falls_short, lemma_leaf_remove_order, merge_ok, rem_order_post};
use crate::storage::btree::shape::{
    add_post, lemma_relax, lemma_replace_leaf, lemma_replace_leaf_relaxed, located, lookup, node_ok, route_ok,
    rem_post, shape_grows, tree_ok, Shape,
};
use vstd::prelude::*;

verus! {

/// What a page holds, seen as plain values: its kind, its keys (the
/// separators of an internal page) and its locations (the children of an
/// internal page, the rows of a leaf).
pub struct PageView {
    pub is_leaf: bool,
    pub keys: Seq<Seq<u8>>,
    pub locs: Seq<Location>,
}

/// An index page.
#[derive(Clone)]
pub enum Page {
    Internal(Internal),
    Leaf(Leaf),
}

impl View for Page {
    type V = PageView;

    open spec fn view(&self) -> PageView {
        match self {
            Page::Internal(n) => n@,
            Page::Leaf(n) => n@,
        }
    }
}

/// What adding to a page reports to its parent.
#[derive(Clone)]
pub enum PushResult {
    Inserted,
    Overflow(OverFlowElement),
}

/// The upper part of a page that was split, and the key that separates it
/// from the lower part.
#[derive(Clone)]
pub struct OverFlowElement {
    pub key: Vec<u8>,
    pub page: Page,
}

/// The page split off, if adding split the page.
pub open spec fn overflow_view(r: PushResult) -> Option<PageView> {
    match r {
        PushResult::Inserted => None,
        PushResult::Overflow(e) => Some(e.page@),
    }
}

/// The key that goes with the page split off, if adding split the page.
pub open spec fn overflow_key(r: PushResult) -> Seq<u8> {
    match r {
        PushResult::Inserted => Seq::empty(),
        PushResult::Overflow(e) => e.key@,
    }
}

/// Adding `key` below page `v` (at most `h` levels down) splits `v`: the
/// leaf it reaches then holds `MAX_KEYS_PER_PAGE` keys, and each internal
/// page on the way, taking in the separator of the child that split, holds
/// `MAX_KEYS_PER_PAGE` separators.
pub open spec fn add_splits(s: Seq<PageView>, v: PageView, h: nat, key: Seq<u8>) -> bool
    decreases h,
{
    if v.is_leaf {
        v.keys.len() + 1 >= MAX_KEYS_PER_PAGE
    } else if h == 0 {
        false
    } else {
        let i = crate::common::key_order::prefix_le_len(v.keys, key) as int;
        &&& v.keys.len() + 1 >= MAX_KEYS_PER_PAGE
        &&& add_splits(s, s[crate::storage::btree::shape::child_of(v, i)], (h - 1) as nat, key)
    }
}

/// Adding below page `v`, which is page `me` of shape `sh` in file `s`,
/// keeps to the shape: the file is well formed, `v` is stored as page `me`,
/// and the file has room for a page per level below `me`.
pub open spec fn add_shape_ok(s: Seq<PageView>, sh: Shape, me: int, v: PageView) -> bool {
    &&& tree_ok(s, sh)
    &&& sh.live.contains(me)
    &&& s[me] == v
    &&& s.len() + (sh.height)(me) <= MAX_PAGES
}

/// Splitting a page loses and repeats nothing: a leaf split after `nk` keys
/// is its lower half followed by its upper half; an internal page split
/// around separator `m` is its lower half's separators, separator `m`, then
/// its upper half's separators, and its lower half's children (one more than
/// its separators) then its upper half's.
pub proof fn lemma_halves(v: PageView, nk: int)
    requires
        0 <= nk < v.keys.len(),
        v.is_leaf ==> v.locs.len() == v.keys.len(),
        !v.is_leaf ==> v.locs.len() == v.keys.len() + 1,
    ensures
        v.is_leaf ==> {
            &&& Page::lower_half(v, nk).keys + Page::upper_half(v, nk, nk).keys == v.keys
            &&& Page::lower_half(v, nk).locs + Page::upper_half(v, nk, nk).locs == v.locs
            &&& Page::lower_half(v, nk).keys.len() == nk
        },
        !v.is_leaf ==> {
            &&& Page::lower_half(v, nk).keys + seq![v.keys[nk]] + Page::upper_half(v, nk + 1, nk + 1).keys == v.keys
            &&& Page::lower_half(v, nk).locs + Page::upper_half(v, nk + 1, nk + 1).locs == v.locs
            &&& Page::lower_half(v, nk).locs.len() == Page::lower_half(v, nk).keys.len() + 1
            &&& Page::upper_half(v, nk + 1, nk + 1).locs.len() == Page::upper_half(v, nk + 1, nk + 1).keys.len() + 1
        },
{
    if v.is_leaf {
        assert(v.keys.take(nk) + v.keys.skip(nk) =~= v.keys);
        assert(v.locs.take(nk) + v.locs.skip(nk) =~= v.locs);
    } else {
        assert(v.keys.take(nk) + seq![v.keys[nk]] + v.keys.skip(nk + 1) =~= v.keys);
        assert(v.locs.take(nk + 1) + v.locs.skip(nk + 1) =~= v.locs);
    }
}

/// What removing from a page reports to its parent.
#[derive(Clone, Copy, Debug, PartialEq, Eq, Structural)]
pub enum RemoveResult {
    Removed,
    NotFound,
    Underflow,
}

impl Page {
    /// The page a file of zero bytes reads as: an internal page with no
    /// separators and no children.
    pub open spec fn blank_view() -> PageView {
        PageView { is_leaf: false, keys: Seq::empty(), locs: Seq::empty() }
    }

    /// A blank page.
    pub fn blank() -> (r: Page)
        ensures
            r@ == Self::blank_view(),
            r is Internal,
    {
        let r = Page::Internal(Internal { separators: Vec::new(), pages: Vec::new() });
        assert(r@.keys =~= Seq::<Seq<u8>>::empty());
        r
    }

    /// The first `nk` keys of `v` with the locations that belong to them (one
    /// more location than keys in an internal page).
    pub open spec fn lower_half(v: PageView, nk: int) -> PageView {
        PageView {
            is_leaf: v.is_leaf,
            keys: v.keys.take(nk),
            locs: v.locs.take(if v.is_leaf { nk } else { nk + 1 }),
        }
    }

    /// `v` without its first `nk` keys and first `nl` locations.
    pub open spec fn upper_half(v: PageView, nk: int, nl: int) -> PageView {
        PageView { is_leaf: v.is_leaf, keys: v.keys.skip(nk), locs: v.locs.skip(nl) }
    }

    /// A copy of this page.
    pub fn copy(&self) -> (r: Page)
        ensures
            r@ == self@,
    {
        match self {
            Page::Internal(n) => Page::Internal(n.copy()),
            Page::Leaf(n) => Page::Leaf(n.copy()),
        }
    }

    /// Number of keys (separators of an internal page).
    pub fn size(&self) -> (r: usize)
        ensures
            r == self@.keys.len(),
    {
        match self {
            Page::Internal(n) => n.separators.len(),
            Page::Leaf(n) => n.keys.len(),
        }
    }

    /// The first location.
    pub fn peek_first_location(&self) -> (r: Location)
        requires
            self@.locs.len() > 0,
        ensures
            r == self@.locs[0],
    {
        match self {
            Page::Internal(n) => n.pages[0],
            Page::Leaf(n) => n.values[0],
        }
    }

    /// The first key.
    pub fn peek_first(&self) -> (r: &[u8])
        requires
            self@.keys.len() > 0,
        ensures
            r@ == self@.keys[0],
    {
        match self {
            Page::Internal(n) => n.separators[0].as_slice(),
            Page::Leaf(n) => n.keys[0].as_slice(),
        }
    }

    /// The last key.
    pub fn peek_last(&self) -> (r: &[u8])
        requires
            self@.keys.len() > 0,
        ensures
            r@ == self@.keys.last(),
    {
        match self {
            Page::Internal(n) => n.separators[n.separators.len() - 1].as_slice(),
            Page::Leaf(n) => n.keys[n.keys.len() - 1].as_slice(),
        }
    }

    /// Puts `key` and `val` in front.
    pub fn push_first(&mut self, key: Vec<u8>, val: Location)
        ensures
            final(self)@.is_leaf == old(self)@.is_leaf,
            final(self)@.keys == old(self)@.keys.insert(0, key@),
            final(self)@.locs == old(self)@.locs.insert(0, val),
            final(self)@.is_leaf <==> old(self)@.is_leaf,
    {
        let ghost k = key@;
        match self {
            Page::Internal(n) => {
                n.separators.insert(0, key);
                n.pages.insert(0, val);
            },
            Page::Leaf(n) => {
                n.keys.insert(0, key);
                n.values.insert(0, val);
            },
        }
        assert(self@.keys =~= old(self)@.keys.insert(0, k));
    }

    /// Puts `key` and `val` at the end.
    pub fn push_last(&mut self, key: Vec<u8>, val: Location)
        ensures
            final(self)@.is_leaf == old(self)@.is_leaf,
            final(self)@.keys == old(self)@.keys.push(key@),
            final(self)@.locs == old(self)@.locs.push(val),
            final(self)@.is_leaf <==> old(self)@.is_leaf,
    {
        let ghost k = key@;
        match self {
            Page::Internal(n) => {
                n.separators.push(key);
                n.pages.push(val);
            },
            Page::Leaf(n) => {
                n.keys.push(key);
                n.values.push(val);
            },
        }
        assert(self@.keys =~= old(self)@.keys.push(k));
    }

    /// The page that `merge_right` leaves: for internal pages `sep` goes
    /// between the two key lists; leaves ignore it.
    pub open spec fn merged(l: PageView, sep: Seq<u8>, r: PageView) -> PageView {
        if l.is_leaf {
            PageView { is_leaf: true, keys: l.keys + r.keys, locs: l.locs + r.locs }
        } else {
            PageView { is_leaf: false, keys: l.keys.push(sep) + r.keys, locs: l.locs + r.locs }
        }
    }

    /// Moves everything of `right`, a page of the same kind, to the end of this
    /// one, leaving `right` empty.
    pub fn merge_right(&mut self, sep: Vec<u8>, right: &mut Page)
        requires
            old(self)@.is_leaf <==> old(right)@.is_leaf,
        ensures
            final(self)@ == Self::merged(old(self)@, sep@, old(right)@),
            final(right)@.keys.len() == 0,
            final(right)@.locs.len() == 0,
            final(right)@.is_leaf == old(right)@.is_leaf,
            final(self)@.is_leaf <==> old(self)@.is_leaf,
            final(right)@.is_leaf <==> old(right)@.is_leaf,
    {
        let ghost s = sep@;
        match (self, right) {
            (Page::Internal(l), Page::Internal(r)) => {
                l.separators.push(sep);
                l.separators.append(&mut r.separators);
                l.pages.append(&mut r.pages);
                assert(l@.keys =~= old(self)@.keys.push(s) + old(right)@.keys);
                assert(r@.keys =~= Seq::<Seq<u8>>::empty());
            },
            (Page::Leaf(l), Page::Leaf(r)) => {
                l.keys.append(&mut r.keys);
                l.values.append(&mut r.values);
                assert(l@.keys =~= old(self)@.keys + old(right)@.keys);
                assert(r@.keys =~= Seq::<Seq<u8>>::empty());
            },
            _ => {
                assert(false);
            },
        }
    }

    /// Splits the page, keeping its lower part (see `Leaf::split` and
    /// `Internal::split`).
    pub fn split(&mut self) -> (r: (Page, Vec<u8>))
        requires
            old(self)@.is_leaf ==> old(self)@.keys.len() > 4 && old(self)@.locs.len() >= 4,
            !old(self)@.is_leaf ==> old(self)@.keys.len() > 0 && old(self)@.locs.len()
                > old(self)@.keys.len() / 2,
        ensures
            old(self)@.is_leaf ==> {
                &&& final(self)@ == Self::lower_half(old(self)@, 4)
                &&& r.0@ == Self::upper_half(old(self)@, 4, 4)
                &&& r.1@ == old(self)@.keys[4]
            },
            !old(self)@.is_leaf ==> {
                let m = (old(self)@.keys.len() / 2) as int;
                &&& final(self)@ == Self::lower_half(old(self)@, m)
                &&& r.0@ == Self::upper_half(old(self)@, m + 1, m + 1)
                &&& r.1@ == old(self)@.keys[m]
            },
            final(self)@.is_leaf <==> old(self)@.is_leaf,
            r.0 is Leaf <==> old(self)@.is_leaf,
    {
        match self {
            Page::Internal(internal) => internal.split(),
            Page::Leaf(leaf) => leaf.split(),
        }
    }

    /// The location that `key` finds below this page (see `lookup`), looking
    /// at most `h` levels down.
    pub fn get(&self, key: &[u8], storage: &PageStore, Ghost(h): Ghost<nat>) -> (r: Option<Location>)
        requires
            route_ok(storage@, self@, h, key@),
        ensures
            r == lookup(storage@, self@, h, key@),
        decreases h, 1nat,
    {
        match self {
            Page::Internal(internal) => internal.get(key, storage, Ghost(h)),
            Page::Leaf(leaf) => leaf.get(key),
        }
    }

    /// Adds `key` with `value` below this page, which is page `me` of shape
    /// `sh`, and reports a split to the caller, who stores this page back. A
    /// child page location is instead put directly into an internal page.
    /// Where the page keeps the key order within `[lo, hi)` and holds no `key`
    /// yet, the order is kept and the entries gain `key` with `value`.
    pub fn add(
        &mut self,
        key: &[u8],
        value: Location,
        storage: &mut PageStore,
        Ghost(me): Ghost<int>,
        Ghost(sh): Ghost<Shape>,
        Ghost(lo): Ghost<Option<Seq<u8>>>,
        Ghost(hi): Ghost<Option<Seq<u8>>>,
    ) -> (r: PushResult)
        requires
            value is Page ==> !old(self)@.is_leaf && prefix_le_len(old(self)@.keys, key@) <= old(self)@.locs.len(),
            value is Value && !old(self)@.is_leaf ==> add_shape_ok(old(storage)@, sh, me, old(self)@),
            value is Value && old(self)@.is_leaf ==> old(self)@.keys.len() == old(self)@.locs.len(),
        ensures
            value is Page ==> {
                let i = prefix_le_len(old(self)@.keys, key@) as int;
                &&& r is Inserted
                &&& final(storage)@ == old(storage)@
                &&& final(self)@.is_leaf == old(self)@.is_leaf
                &&& final(self)@.keys == old(self)@.keys.insert(i, key@)
                &&& final(self)@.locs == old(self)@.locs.insert(i, value)
            },
            value is Value && old(self)@.is_leaf ==> {
                let n = Leaf::inserted(old(self)@, key@, value);
                &&& final(storage)@ == old(storage)@
                &&& if n.keys.len() >= MAX_KEYS_PER_PAGE {
                    &&& r is Overflow
                    &&& final(self)@ == Page::lower_half(n, 4)
                    &&& overflow_key(r) == n.keys[4]
                    &&& overflow_view(r) == Some(Page::upper_half(n, 4, 4))
                } else {
                    &&& r is Inserted
                    &&& final(self)@ == n
                }
            },
            value is Value && (old(self)@.is_leaf || add_shape_ok(old(storage)@, sh, me, old(self)@)) ==> ((r is Overflow)
                == add_splits(old(storage)@, old(self)@, (sh.height)(me), key@)),
            value is Value && !old(self)@.is_leaf ==> crate::storage::btree::internal_page::leaf_child_added(
                old(storage)@,
                old(self)@,
                key@,
                value,
                r,
                final(self)@,
                final(storage)@,
            ),
            value is Value && add_shape_ok(old(storage)@, sh, me, old(self)@) ==> exists|sh2: Shape|
                add_post(
                    old(storage)@,
                    sh,
                    me,
                    final(storage)@,
                    final(self)@,
                    overflow_view(r),
                    sh2,
                ),
            value is Value && add_shape_ok(old(storage)@, sh, me, old(self)@) && add_order_pre(
                old(storage)@,
                me,
                (sh.height)(me),
                lo,
                hi,
                key@,
            ) ==> add_order_post(
                old(storage)@,
                me,
                (sh.height)(me),
                lo,
                hi,
                key@,
                value,
                final(storage)@,
                final(self)@,
                overflow_view(r),
                overflow_key(r),
            ),
        decreases (sh.height)(me), 1nat,
    {
        let ghost v0 = self@;
        match value {
            Location::Page(page_loc) => match self {
                Page::Internal(node) => node.add_page(key, page_loc),
                Page::Leaf(_) => {
                    assert(false);
                    PushResult::Inserted
                },
            },
            Location::Value(_) => {
                let ghost shaped = add_shape_ok(old(storage)@, sh, me, v0);
                proof {
                    if shaped {
                        assert(node_ok(sh, old(storage)@[me], (sh.height)(me)));
                        assert(me != sh.root ==> old(storage)@[me].keys.len() >= MIN_KEYS_PER_PAGE);
                    }
                    crate::common::key_order::lemma_prefix_le_len(v0.keys, key@);
                }
                let ghost mut fv = v0;
                let r = match self {
                    Page::Internal(node) => {
                        let r = node.add(key, value, storage, Ghost(me), Ghost(sh), Ghost(lo), Ghost(hi));
                        proof {
                            fv = node@;
                        }
                        r
                    },
                    Page::Leaf(node) => node.add(key, value),
                };
                proof {
                    if v0.is_leaf && shaped {
                        let s0 = old(storage)@;
                        lemma_replace_leaf(s0, sh, me, self@);
                        assert(shape_grows(sh, sh));
                        assert(add_post(s0, sh, me, storage@, self@, overflow_view(r), sh));
                        if add_order_pre(s0, me, (sh.height)(me), lo, hi, key@) {
                            lemma_leaf_add_order(
                                s0,
                                me,
                                (sh.height)(me),
                                lo,
                                hi,
                                key@,
                                value,
                                self@,
                                overflow_view(r),
                                overflow_key(r),
                            );
                        }
                    } else if !v0.is_leaf {
                        assert(fv == self@);
                        let sh2 = choose|sh2: Shape| add_post(old(storage)@, sh, me, storage@, fv, overflow_view(r), sh2);
                        assert(add_post(old(storage)@, sh, me, storage@, self@, overflow_view(r), sh2));
                    }
                }
                r
            },
        }
    }

    /// Removes `key` below this page, which is page `me` of shape `sh`, and
    /// reports to the caller, who stores this page back, whether it was found
    /// and whether this page fell short.
    pub fn remove(
        &mut self,
        key: &[u8],
        storage: &mut PageStore,
        Ghost(me): Ghost<int>,
        Ghost(sh): Ghost<Shape>,
        Ghost(lo): Ghost<Option<Seq<u8>>>,
        Ghost(hi): Ghost<Option<Seq<u8>>>,
    ) -> (r: RemoveResult)
        requires
            tree_ok(old(storage)@, sh),
            sh.live.contains(me),
            old(storage)@[me] == old(self)@,
            old(storage)@.len() <= MAX_PAGES,
        ensures
            exists|sh2: Shape| rem_post(old(storage)@, sh, me, final(storage)@, final(self)@, r, sh2),
            (r == RemoveResult::NotFound) == !located(old(storage)@, old(self)@, (sh.height)(me), key@),
            r == RemoveResult::NotFound ==> final(storage)@ == old(storage)@ && final(self)@ == old(self)@,
            ordered(old(storage)@, old(self)@, (sh.height)(me), lo, hi) && merge_ok(
                old(storage)@,
                old(self)@,
                (sh.height)(me),
                key@,
            ) ==> {
                &&& rem_order_post(old(storage)@, me, (sh.height)(me), lo, hi, key@, final(storage)@, final(self)@)
                &&& (r == RemoveResult::Underflow) == falls_short(old(storage)@, old(self)@, (sh.height)(me), key@)
            },
        decreases (sh.height)(me), 1nat,
    {
        let ghost s0 = storage@;
        let ghost v0 = self@;
        proof {
            assert(node_ok(sh, s0[me], (sh.height)(me)));
        }
        let ghost mut fv = v0;
        let r = match self {
            Page::Internal(internal) => {
                let r = internal.remove(key, storage, Ghost(me), Ghost(sh), Ghost(lo), Ghost(hi));
                proof {
                    fv = internal@;
                }
                r
            },
            Page::Leaf(leaf) => leaf.remove(key),
        };
        proof {
            if v0.is_leaf {
                let v1 = self@;
                if r != RemoveResult::NotFound {
                    lemma_replace_leaf_relaxed(s0, sh, me, v1);
                    lemma_relax(s0.update(me, v1), sh, me);
                } else {
                    assert(s0.update(me, v1) =~= s0);
                    lemma_relax(s0, sh, me);
                }
                assert(rem_post(s0, sh, me, storage@, v1, r, sh));
                if ordered(s0, v0, (sh.height)(me), lo, hi) {
                    lemma_leaf_remove_order(s0, me, (sh.height)(me), lo, hi, key@, v1);
                }
            } else {
                assert(fv == self@);
                let sh2 = choose|sh2: Shape| rem_post(s0, sh, me, storage@, fv, r, sh2);
                assert(rem_post(s0, sh, me, storage@, self@, r, sh2));
            }
        }
        r
    }

    /// Takes out the first key and the first location.
    pub fn pop_first(&mut self) -> (r: (Vec<u8>, Location))
        requires
            old(self)@.keys.len() > 0,
            old(self)@.locs.len() > 0,
        ensures
            r.0@ == old(self)@.keys[0],
            r.1 == old(self)@.locs[0],
            final(self)@.is_leaf == old(self)@.is_leaf,
            final(self)@.keys == old(self)@.keys.drop_first(),
            final(self)@.locs == old(self)@.locs.drop_first(),
            final(self)@.is_leaf <==> old(self)@.is_leaf,
    {
        match self {
            Page::Internal(internal) => internal.pop_first(),
            Page::Leaf(leaf) => leaf.pop_first(),
        }
    }

    /// Takes out the last key and the last location.
    pub fn pop_last(&mut self) -> (r: (Vec<u8>, Location))
        requires
            old(self)@.keys.len() > 0,
            old(self)@.locs.len() > 0,
        ensures
            r.0@ == old(self)@.keys.last(),
            r.1 == old(self)@.locs.last(),
            final(self)@.is_leaf == old(self)@.is_leaf,
            final(self)@.keys == old(self)@.keys.drop_last(),
            final(self)@.locs == old(self)@.locs.drop_last(),
            final(self)@.is_leaf <==> old(self)@.is_leaf,
    {
        match self {
            Page::Internal(internal) => internal.pop_last(),
            Page::Leaf(leaf) => leaf.pop_last(),
        }
    }
}

} // verus!
