//! What removing a key does to the key order and to the entries of an index:
//! unless a merge takes in a right sibling with a separator from the wrong
//! level (see `merge_ok`), the order is kept, and the entries are those of
//! before without the key.

use crate::common::key_order::{
    key_le, key_lt, lemma_key_le_transitive, lemma_key_lt_irreflexive, lemma_key_lt_transitive, lemma_prefix_le_len,
    lemma_prefix_lt_len, prefix_le_len, prefix_lt_len,
};
use crate::storage::btree::location::{Location, MAX_PAGES};
use crate::storage::btree::order::{
    agree_below, below, child_hi, child_lo, has_entry, in_range, keys_ok, lemma_below_anc, lemma_below_child,
    lemma_frame_below, lemma_frame_entry, lemma_frame_ordered, lemma_route, lemma_sibling_kept, ordered,
};
use crate::storage::btree::page::{Page, PageView};
use crate::storage::btree::btree::MIN_KEYS_PER_PAGE;
use crate::storage::btree::shape::{
    located, borrowed_from_left, borrowed_from_right, child_of, emptied, lemma_child_facts, lemma_relax, merge_sep, node_ok, page_loc_ok, tree_ok,
    tree_ok_relaxed, without_first, without_last, Shape,
};
use vstd::prelude::*;

verus! {

/// With `v1` stored in `s1` in place of page `me` (height `h` in `s0`, keeping
/// the order within `[lo, hi)`), the file keeps its length, every page outside
/// `me`'s subtree is kept, no page outside that subtree has come below `v1`,
/// and `v1` keeps the order within the same bounds.
pub open spec fn reorganized(
    s0: Seq<PageView>,
    me: int,
    h: nat,
    lo: Option<Seq<u8>>,
    hi: Option<Seq<u8>>,
    s1: Seq<PageView>,
    v1: PageView,
) -> bool {
    let p0 = s0[me];
    let t = s1.update(me, v1);
    &&& s1.len() == s0.len()
    &&& forall|j: int| 0 <= j < s0.len() && j != me && !below(s0, p0, h, j) ==> #[trigger] t[j] == s0[j]
    &&& forall|j: int| #[trigger] below(t, v1, h, j) ==> below(s0, p0, h, j)
    &&& ordered(t, v1, h, lo, hi)
}

/// What removing `key` below page `me` leaves (see `reorganized`): the
/// entries below `v1` are those below `me` before, without `key`.
pub open spec fn rem_order_post(
    s0: Seq<PageView>,
    me: int,
    h: nat,
    lo: Option<Seq<u8>>,
    hi: Option<Seq<u8>>,
    key: Seq<u8>,
    s1: Seq<PageView>,
    v1: PageView,
) -> bool {
    &&& reorganized(s0, me, h, lo, hi, s1, v1)
    &&& forall|k: Seq<u8>, l: Location|
        #![trigger has_entry(s1.update(me, v1), v1, h, k, l)]
        #![trigger has_entry(s0, s0[me], h, k, l)]
        has_entry(s1.update(me, v1), v1, h, k, l) <==> (has_entry(s0, s0[me], h, k, l) && k != key)
}

/// What fixing a short child below page `me` leaves (see `reorganized`): the
/// entries below `v1` are those below `me` before.
pub open spec fn fix_order_post(
    s0: Seq<PageView>,
    me: int,
    h: nat,
    lo: Option<Seq<u8>>,
    hi: Option<Seq<u8>>,
    s1: Seq<PageView>,
    v1: PageView,
) -> bool {
    &&& reorganized(s0, me, h, lo, hi, s1, v1)
    &&& forall|k: Seq<u8>, l: Location|
        #![trigger has_entry(s1.update(me, v1), v1, h, k, l)]
        #![trigger has_entry(s0, s0[me], h, k, l)]
        has_entry(s1.update(me, v1), v1, h, k, l) <==> has_entry(s0, s0[me], h, k, l)
}

/// Fixing the short child `i` of page `v` merges two children, so that `v`
/// loses a separator: a child with a right sibling merges with it when that
/// sibling has no key to spare and neither has a left one; the last child is
/// taken in by its left sibling when that one has no key to spare.
pub open spec fn merges(s: Seq<PageView>, v: PageView, i: int) -> bool {
    if i + 1 < v.locs.len() {
        s[child_of(v, i + 1)].keys.len() <= MIN_KEYS_PER_PAGE && (i == 0 || s[child_of(v, i - 1)].keys.len()
            <= MIN_KEYS_PER_PAGE)
    } else {
        s[child_of(v, i - 1)].keys.len() <= MIN_KEYS_PER_PAGE
    }
}

/// Child `j` of page `p` is a stored page, a sibling of the short child `c`
/// of the same kind, with a key and a location for each key.
pub open spec fn sibling_ok(s: Seq<PageView>, p: PageView, j: int, c: int) -> bool {
    let y = s[child_of(p, j)];
    &&& page_loc_ok(p.locs[j])
    &&& 0 <= child_of(p, j) < s.len()
    &&& child_of(p, j) != c
    &&& y.is_leaf == s[c].is_leaf
    &&& y.keys.len() >= 1
    &&& y.locs.len() >= y.keys.len()
}

/// The short child `i` of page `p` (held in memory, its children stored in
/// file `s`) can be fixed without fault: `p` is an internal page with a
/// child after each separator and at least one sibling for child `i`; child
/// `i` and its siblings are distinct stored pages of the same kind; and an
/// internal right sibling has a stored first child with a key.
pub open spec fn fix_ok(s: Seq<PageView>, p: PageView, i: int) -> bool {
    let c = child_of(p, i);
    let r = s[child_of(p, i + 1)];
    &&& !p.is_leaf
    &&& p.locs.len() == p.keys.len() + 1
    &&& p.locs.len() >= 2
    &&& 0 <= i < p.locs.len()
    &&& s.len() <= MAX_PAGES
    &&& page_loc_ok(p.locs[i])
    &&& 0 <= c < s.len()
    &&& i + 1 < p.locs.len() ==> {
        &&& sibling_ok(s, p, i + 1, c)
        &&& !r.is_leaf ==> {
            &&& r.locs.len() >= 1
            &&& page_loc_ok(r.locs[0])
            &&& 0 <= child_of(r, 0) < s.len()
            &&& s[child_of(r, 0)].keys.len() >= 1
        }
    }
    &&& i > 0 ==> sibling_ok(s, p, i - 1, c)
    &&& i > 0 && i + 1 < p.locs.len() ==> child_of(p, i - 1) != child_of(p, i + 1)
}

/// The file after the short child `i` of page `p` is fixed: it borrows the
/// first entry of its right sibling when that one has keys to spare, else the
/// last entry of its left sibling when that one has, else it takes in all of
/// its right sibling, or, being the last child, its left sibling takes it in.
pub open spec fn fixed_store(s: Seq<PageView>, p: PageView, i: int) -> Seq<PageView> {
    let c = child_of(p, i);
    let x = s[c];
    let r = child_of(p, i + 1);
    let l = child_of(p, i - 1);
    if i + 1 < p.locs.len() && s[r].keys.len() > MIN_KEYS_PER_PAGE {
        s.update(r, without_first(s[r])).update(c, borrowed_from_right(x, s[r], p.keys[i]))
    } else if i > 0 && s[l].keys.len() > MIN_KEYS_PER_PAGE {
        s.update(l, without_last(s[l])).update(c, borrowed_from_left(x, s[l], p.keys[i - 1]))
    } else if i + 1 < p.locs.len() {
        s.update(r, emptied(s[r])).update(c, Page::merged(x, merge_sep(s, s[r]), s[r]))
    } else {
        s.update(l, Page::merged(s[l], p.keys[i - 1], x)).update(c, emptied(x))
    }
}

/// Page `p` after its short child `i` is fixed (see `fixed_store`): a borrow
/// replaces the separator between the two children by the new first key of
/// the right one; a merge drops that separator and the emptied child's slot.
pub open spec fn fixed_parent(s: Seq<PageView>, p: PageView, i: int) -> PageView {
    let x = s[child_of(p, i)];
    let r = s[child_of(p, i + 1)];
    let l = s[child_of(p, i - 1)];
    if i + 1 < p.locs.len() && r.keys.len() > MIN_KEYS_PER_PAGE {
        PageView { is_leaf: false, keys: p.keys.update(i, if x.is_leaf { r.keys[1] } else { r.keys[0] }), locs: p.locs }
    } else if i > 0 && l.keys.len() > MIN_KEYS_PER_PAGE {
        PageView { is_leaf: false, keys: p.keys.update(i - 1, l.keys.last()), locs: p.locs }
    } else if i + 1 < p.locs.len() {
        PageView { is_leaf: false, keys: p.keys.remove(i), locs: p.locs.remove(i + 1) }
    } else {
        without_last(p)
    }
}

/// Fixing a short child moves keys between it and one sibling only: the
/// right sibling lends one key when it has more than `MIN_KEYS_PER_PAGE`,
/// else the left sibling does when it has, the parent keeping its number of
/// separators; else the child and its right sibling (or, for the last child,
/// its left sibling) become one page holding both their keys (and, between
/// internal pages, one separator more), the other left empty, and the parent
/// loses a separator. No other page changes.
pub proof fn lemma_fix_sizes(s: Seq<PageView>, p: PageView, i: int)
    requires
        fix_ok(s, p, i),
    ensures
        ({
            let f = fixed_store(s, p, i);
            let q = fixed_parent(s, p, i);
            let c = child_of(p, i);
            let r = child_of(p, i + 1);
            let l = child_of(p, i - 1);
            let x = s[c];
            let extra = if x.is_leaf { 0int } else { 1int };
            &&& f.len() == s.len()
            &&& forall|j: int|
                0 <= j < s.len() && j != c && (i + 1 < p.locs.len() ==> j != r) && (i > 0 ==> j != l) ==> #[trigger] f[j]
                    == s[j]
            &&& if i + 1 < p.locs.len() && s[r].keys.len() > MIN_KEYS_PER_PAGE {
                &&& f[r].keys.len() == s[r].keys.len() - 1
                &&& f[c].keys.len() == x.keys.len() + 1
                &&& q.keys.len() == p.keys.len()
                &&& i > 0 ==> f[l] == s[l]
            } else if i > 0 && s[l].keys.len() > MIN_KEYS_PER_PAGE {
                &&& f[l].keys.len() == s[l].keys.len() - 1
                &&& f[c].keys.len() == x.keys.len() + 1
                &&& q.keys.len() == p.keys.len()
                &&& i + 1 < p.locs.len() ==> f[r] == s[r]
            } else if i + 1 < p.locs.len() {
                &&& f[r].keys.len() == 0
                &&& f[c].keys.len() == x.keys.len() + s[r].keys.len() + extra
                &&& q.keys.len() == p.keys.len() - 1
                &&& i > 0 ==> f[l] == s[l]
            } else {
                &&& f[c].keys.len() == 0
                &&& f[l].keys.len() == s[l].keys.len() + x.keys.len() + extra
                &&& q.keys.len() == p.keys.len() - 1
            }
        }),
{
}

/// Fixing the short child `i` of page `v` takes in all of its right sibling.
pub open spec fn merges_right(s: Seq<PageView>, v: PageView, i: int) -> bool {
    i + 1 < v.locs.len() && merges(s, v, i)
}

/// Taking in the right sibling of child `i` of page `v` puts a separator
/// from the right level between them (see `merge_sep`): that sibling is a
/// leaf, or its first child is.
pub open spec fn merge_sep_ok(s: Seq<PageView>, v: PageView, i: int) -> bool {
    let r = s[child_of(v, i + 1)];
    r.is_leaf || s[child_of(r, 0)].is_leaf
}

/// Removing `key` below page `v` (of height `h`) leaves `v` short, so that it
/// reports `Underflow`: a leaf that loses the key and keeps
/// `MIN_KEYS_PER_PAGE` keys or fewer, or an internal page whose child fell
/// short and that keeps that few separators once the child is fixed.
pub open spec fn falls_short(s: Seq<PageView>, v: PageView, h: nat, key: Seq<u8>) -> bool
    decreases h,
{
    if v.is_leaf {
        located(s, v, h, key) && v.keys.len() - 1 <= MIN_KEYS_PER_PAGE
    } else if h == 0 {
        false
    } else {
        let i = prefix_le_len(v.keys, key) as int;
        falls_short(s, s[child_of(v, i)], (h - 1) as nat, key) && v.keys.len() - (if merges(s, v, i) {
            1int
        } else {
            0int
        }) <= MIN_KEYS_PER_PAGE
    }
}

/// Removing `key` below page `v` (of height `h`) takes in no right sibling
/// with a separator from the wrong level (see `merge_sep_ok`).
pub open spec fn merge_ok(s: Seq<PageView>, v: PageView, h: nat, key: Seq<u8>) -> bool
    decreases h,
{
    if v.is_leaf || h == 0 {
        true
    } else {
        let i = prefix_le_len(v.keys, key) as int;
        let c = child_of(v, i);
        &&& merge_ok(s, s[c], (h - 1) as nat, key)
        &&& falls_short(s, s[c], (h - 1) as nat, key) && merges_right(s, v, i) ==> merge_sep_ok(s, v, i)
    }
}

/// Looking further down than the height of a well-formed page changes
/// neither whether removing falls short nor whether its merges are sound.
pub proof fn lemma_short_height(s: Seq<PageView>, sh: Shape, v: PageView, h: nat, h2: nat, key: Seq<u8>)
    requires
        tree_ok(s, sh),
        node_ok(sh, v, h),
        h <= h2,
    ensures
        falls_short(s, v, h, key) == falls_short(s, v, h2, key),
        merge_ok(s, v, h, key) == merge_ok(s, v, h2, key),
    decreases h,
{
    if !v.is_leaf {
        let i = prefix_le_len(v.keys, key) as int;
        lemma_prefix_le_len(v.keys, key);
        assert(crate::storage::btree::shape::page_loc_ok(v.locs[i]));
        let c = child_of(v, i);
        assert(sh.live.contains(c));
        lemma_short_height(s, sh, s[c], (h - 1) as nat, (h2 - 1) as nat, key);
    } else {
        crate::storage::btree::shape::lemma_located_height(s, sh, v, h, h2, key);
    }
}

/// The pages below a page `c` in use (in a file well formed but for page
/// `x0`) are in use and lower than `c`.
pub proof fn lemma_below_lower(s: Seq<PageView>, sh: Shape, x0: int, c: int, j: int)
    requires
        tree_ok_relaxed(s, sh, x0),
        sh.live.contains(c),
        below(s, s[c], (sh.height)(c), j),
    ensures
        sh.live.contains(j),
        (sh.height)(j) < (sh.height)(c),
    decreases (sh.height)(c),
{
    let v = s[c];
    let h = (sh.height)(c);
    let k = choose|k: int|
        0 <= k < v.locs.len() && 0 <= child_of(v, k) < s.len() && (#[trigger] child_of(v, k) == j || below(
            s,
            s[child_of(v, k)],
            (h - 1) as nat,
            j,
        ));
    lemma_child_facts(s, sh, x0, c, k);
    let x = child_of(v, k);
    if x != j {
        lemma_below_lower(s, sh, x0, x, j);
    }
}

/// Files of one length that agree below `v` have the same pages below `v`.
pub proof fn lemma_frame_below_eq(s: Seq<PageView>, s2: Seq<PageView>, v: PageView, h: nat, j: int)
    requires
        agree_below(s, s2, v, h),
        s2.len() == s.len(),
    ensures
        below(s2, v, h, j) <==> below(s, v, h, j),
    decreases h,
{
    if !v.is_leaf && h > 0 {
        if below(s2, v, h, j) {
            let k = choose|k: int|
                0 <= k < v.locs.len() && 0 <= child_of(v, k) < s2.len() && (#[trigger] child_of(v, k) == j || below(
                    s2,
                    s2[child_of(v, k)],
                    (h - 1) as nat,
                    j,
                ));
            let c = child_of(v, k);
            crate::storage::btree::order::lemma_agree_child(s, s2, v, h, k);
            lemma_frame_below_eq(s, s2, s[c], (h - 1) as nat, j);
        }
        if below(s, v, h, j) {
            let k = choose|k: int|
                0 <= k < v.locs.len() && 0 <= child_of(v, k) < s.len() && (#[trigger] child_of(v, k) == j || below(
                    s,
                    s[child_of(v, k)],
                    (h - 1) as nat,
                    j,
                ));
            let c = child_of(v, k);
            crate::storage::btree::order::lemma_agree_child(s, s2, v, h, k);
            lemma_frame_below_eq(s, s2, s[c], (h - 1) as nat, j);
        }
    }
}

/// Files of one length that agree below `v` hold the same entries below `v`.
pub proof fn lemma_frame_entry_eq(s: Seq<PageView>, s2: Seq<PageView>, v: PageView, h: nat, k: Seq<u8>, l: Location)
    requires
        agree_below(s, s2, v, h),
        s2.len() == s.len(),
    ensures
        has_entry(s2, v, h, k, l) <==> has_entry(s, v, h, k, l),
    decreases h,
{
    if !v.is_leaf && h > 0 {
        if has_entry(s2, v, h, k, l) {
            let j = choose|j: int|
                0 <= j < v.locs.len() && 0 <= child_of(v, j) < s2.len() && has_entry(
                    s2,
                    s2[#[trigger] child_of(v, j)],
                    (h - 1) as nat,
                    k,
                    l,
                );
            let c = child_of(v, j);
            crate::storage::btree::order::lemma_agree_child(s, s2, v, h, j);
            lemma_frame_entry_eq(s, s2, s[c], (h - 1) as nat, k, l);
        }
        if has_entry(s, v, h, k, l) {
            let j = choose|j: int|
                0 <= j < v.locs.len() && 0 <= child_of(v, j) < s.len() && has_entry(
                    s,
                    s[#[trigger] child_of(v, j)],
                    (h - 1) as nat,
                    k,
                    l,
                );
            let c = child_of(v, j);
            crate::storage::btree::order::lemma_agree_child(s, s2, v, h, j);
            lemma_frame_entry_eq(s, s2, s[c], (h - 1) as nat, k, l);
        }
    }
}

/// A grandchild of page `me`, in a file `t` that differs from `s` only in
/// pages in use as high as `me`'s children or higher, is kept with all that
/// lies below it.
pub proof fn lemma_grandchild_kept(s: Seq<PageView>, sh: Shape, x0: int, me: int, k: int, kk: int, t: Seq<PageView>)
    requires
        tree_ok_relaxed(s, sh, x0),
        sh.live.contains(me),
        !s[me].is_leaf,
        0 <= k < s[me].locs.len(),
        !s[child_of(s[me], k)].is_leaf,
        0 <= kk < s[child_of(s[me], k)].locs.len(),
        t.len() == s.len(),
        forall|j: int|
            0 <= j < s.len() && !(sh.live.contains(j) && (sh.height)(j) + 1 >= (sh.height)(me)) ==> #[trigger] t[j]
                == s[j],
    ensures
        ({
            let g = child_of(s[child_of(s[me], k)], kk);
            let hg = (sh.height)(g);
            &&& 0 <= g < s.len()
            &&& hg + 2 == (sh.height)(me)
            &&& t[g] == s[g]
            &&& agree_below(s, t, s[g], hg)
            &&& forall|j: int| #[trigger] below(t, s[g], hg, j) <==> below(s, s[g], hg, j)
            &&& forall|k2: Seq<u8>, l2: Location| #[trigger] has_entry(t, s[g], hg, k2, l2) <==> has_entry(
                s,
                s[g],
                hg,
                k2,
                l2,
            )
        }),
{
    let ck = child_of(s[me], k);
    lemma_child_facts(s, sh, x0, me, k);
    lemma_child_facts(s, sh, x0, ck, kk);
    let g = child_of(s[ck], kk);
    let hg = (sh.height)(g);
    assert(t[g] == s[g]);
    assert forall|j: int| #[trigger] below(s, s[g], hg, j) implies 0 <= j < s.len() && t[j] == s[j] by {
        lemma_below_lower(s, sh, x0, g, j);
    }
    assert forall|j: int| #[trigger] below(t, s[g], hg, j) <==> below(s, s[g], hg, j) by {
        lemma_frame_below_eq(s, t, s[g], hg, j);
    }
    assert forall|k2: Seq<u8>, l2: Location| #[trigger] has_entry(t, s[g], hg, k2, l2) <==> has_entry(
        s,
        s[g],
        hg,
        k2,
        l2,
    ) by {
        lemma_frame_entry_eq(s, t, s[g], hg, k2, l2);
    }
}

/// Removing from a leaf that keeps the order the key equal to `key` at the
/// position of its first key not before `key`, if there is one, meets
/// `rem_order_post`.
pub proof fn lemma_leaf_remove_order(
    s0: Seq<PageView>,
    me: int,
    h: nat,
    lo: Option<Seq<u8>>,
    hi: Option<Seq<u8>>,
    key: Seq<u8>,
    v1: PageView,
)
    requires
        0 <= me < s0.len(),
        s0[me].is_leaf,
        ordered(s0, s0[me], h, lo, hi),
        ({
            let v = s0[me];
            let i = prefix_lt_len(v.keys, key) as int;
            if i < v.keys.len() && v.keys[i] == key {
                v1 == PageView { is_leaf: true, keys: v.keys.remove(i), locs: v.locs.remove(i) }
            } else {
                v1 == v
            }
        }),
    ensures
        rem_order_post(s0, me, h, lo, hi, key, s0, v1),
{
    let v = s0[me];
    let t = s0.update(me, v1);
    let i = prefix_lt_len(v.keys, key) as int;
    lemma_prefix_lt_len(v.keys, key);
    if i < v.keys.len() && v.keys[i] == key {
        assert forall|a: int, b: int| 0 <= a < b < v1.keys.len() implies key_lt(#[trigger] v1.keys[a], #[trigger] v1.keys[b]) by {
            let a0 = if a < i { a } else { a + 1 };
            let b0 = if b < i { b } else { b + 1 };
            assert(v1.keys[a] == v.keys[a0] && v1.keys[b] == v.keys[b0]);
        }
        assert forall|x: int| 0 <= x < v1.keys.len() implies in_range(#[trigger] v1.keys[x], lo, hi) by {
            let x0 = if x < i { x } else { x + 1 };
            assert(v1.keys[x] == v.keys[x0]);
        }
        assert forall|k: Seq<u8>, l: Location|
            #![trigger has_entry(t, v1, h, k, l)]
            #![trigger has_entry(s0, v, h, k, l)]
            has_entry(t, v1, h, k, l) <==> (has_entry(s0, v, h, k, l) && k != key) by {
            if has_entry(t, v1, h, k, l) {
                let x = choose|x: int| 0 <= x < v1.keys.len() && v1.keys[x] == k && v1.locs[x] == l;
                let x0 = if x < i { x } else { x + 1 };
                assert(v.keys[x0] == k && v.locs[x0] == l);
                if k == key {
                    if x0 < i {
                        assert(key_lt(v.keys[x0], v.keys[i]));
                    } else {
                        assert(key_lt(v.keys[i], v.keys[x0]));
                    }
                    lemma_key_lt_irreflexive(key);
                }
            }
            if has_entry(s0, v, h, k, l) && k != key {
                let x = choose|x: int| 0 <= x < v.keys.len() && v.keys[x] == k && v.locs[x] == l;
                assert(x != i);
                let x1 = if x < i { x } else { x - 1 };
                assert(v1.keys[x1] == k && v1.locs[x1] == l);
            }
        }
    } else {
        assert forall|k: Seq<u8>, l: Location|
            #![trigger has_entry(t, v1, h, k, l)]
            #![trigger has_entry(s0, v, h, k, l)]
            has_entry(t, v1, h, k, l) <==> (has_entry(s0, v, h, k, l) && k != key) by {
            if has_entry(s0, v, h, k, l) && k == key {
                let x = choose|x: int| 0 <= x < v.keys.len() && v.keys[x] == k && v.locs[x] == l;
                if x < i {
                    lemma_key_lt_irreflexive(key);
                } else {
                    assert(x != i);
                    assert(key_lt(v.keys[i], v.keys[x]));
                    crate::common::key_order::lemma_key_lt_total(v.keys[i], key);
                    lemma_key_lt_transitive(key, v.keys[i], v.keys[x]);
                    lemma_key_lt_irreflexive(key);
                }
            }
        }
    }
}

/// The child that `key` was routed to removed it and is stored back: the page
/// itself, unchanged, meets `rem_order_post`.
pub proof fn lemma_child_removed_order(
    s0: Seq<PageView>,
    sh: Shape,
    me: int,
    lo: Option<Seq<u8>>,
    hi: Option<Seq<u8>>,
    key: Seq<u8>,
    s1: Seq<PageView>,
    c1: PageView,
)
    requires
        tree_ok(s0, sh),
        sh.live.contains(me),
        !s0[me].is_leaf,
        ordered(s0, s0[me], (sh.height)(me), lo, hi),
        ({
            let p0 = s0[me];
            let i = prefix_le_len(p0.keys, key) as int;
            let c = child_of(p0, i);
            rem_order_post(s0, c, (sh.height)(c), child_lo(p0, i, lo), child_hi(p0, i, hi), key, s1, c1)
        }),
    ensures
        ({
            let p0 = s0[me];
            let c = child_of(p0, prefix_le_len(p0.keys, key) as int);
            &&& s1.update(c, c1)[me] == p0
            &&& rem_order_post(s0, me, (sh.height)(me), lo, hi, key, s1.update(c, c1), p0)
        }),
{
    let p0 = s0[me];
    let h = (sh.height)(me);
    let i = prefix_le_len(p0.keys, key) as int;
    lemma_prefix_le_len(p0.keys, key);
    lemma_route(p0.keys, key);
    lemma_relax(s0, sh, me);
    lemma_child_facts(s0, sh, me, me, i);
    let c = child_of(p0, i);
    let hc = (sh.height)(c);
    assert(hc == h - 1);
    let tc = s1.update(c, c1);
    assert(!below(s0, s0[c], hc, me)) by {
        if below(s0, s0[c], hc, me) {
            lemma_below_anc(s0, sh, c, me);
        }
    }
    assert(tc[me] == p0);
    let t = tc.update(me, p0);
    assert(t =~= tc);
    assert forall|j: int| 0 <= j < s0.len() && j != me && j != c && !below(s0, s0[c], hc, j) implies #[trigger] tc[j] == s0[j] by {
    }
    assert forall|j: int| 0 <= j < s0.len() && j != me && !below(s0, p0, h, j) implies #[trigger] t[j] == s0[j] by {
        lemma_below_child(s0, p0, h, i, c);
        if below(s0, s0[c], hc, j) {
            lemma_below_child(s0, p0, h, i, j);
        }
        assert(tc[j] == s0[j]);
    }
    assert forall|b: int| 0 <= b < p0.locs.len() && b != i implies {
        &&& t[#[trigger] child_of(p0, b)] == s0[child_of(p0, b)]
        &&& agree_below(s0, t, s0[child_of(p0, b)], hc)
    } by {
        lemma_sibling_kept(s0, sh, me, i, b, t);
        lemma_child_facts(s0, sh, me, me, b);
    }
    assert forall|j: int| #[trigger] below(t, p0, h, j) implies below(s0, p0, h, j) by {
        let k = choose|k: int|
            0 <= k < p0.locs.len() && 0 <= child_of(p0, k) < t.len() && (#[trigger] child_of(p0, k) == j || below(
                t,
                t[child_of(p0, k)],
                (h - 1) as nat,
                j,
            ));
        let ck = child_of(p0, k);
        if ck == j {
            lemma_below_child(s0, p0, h, k, j);
        } else if k == i {
            lemma_below_child(s0, p0, h, i, j);
        } else {
            lemma_child_facts(s0, sh, me, me, k);
            assert(ordered(s0, s0[ck], hc, child_lo(p0, k, lo), child_hi(p0, k, hi)));
            lemma_frame_below(s0, t, s0[ck], hc, child_lo(p0, k, lo), child_hi(p0, k, hi), j);
            lemma_below_child(s0, p0, h, k, j);
        }
    }
    assert forall|k: Seq<u8>, l: Location|
        #![trigger has_entry(t, p0, h, k, l)]
        #![trigger has_entry(s0, p0, h, k, l)]
        has_entry(t, p0, h, k, l) <==> (has_entry(s0, p0, h, k, l) && k != key) by {
        if has_entry(t, p0, h, k, l) {
            let j = choose|j: int|
                0 <= j < p0.locs.len() && 0 <= child_of(p0, j) < t.len() && has_entry(
                    t,
                    t[#[trigger] child_of(p0, j)],
                    (h - 1) as nat,
                    k,
                    l,
                );
            let cj = child_of(p0, j);
            if j == i {
                assert(has_entry(tc, c1, hc, k, l));
                assert(has_entry(s0, s0[c], hc, k, l));
            } else {
                lemma_child_facts(s0, sh, me, me, j);
                assert(ordered(s0, s0[cj], hc, child_lo(p0, j, lo), child_hi(p0, j, hi)));
                lemma_frame_entry(s0, t, s0[cj], hc, child_lo(p0, j, lo), child_hi(p0, j, hi), k, l);
                assert(has_entry(s0, s0[cj], hc, k, l));
                crate::storage::btree::order::lemma_entry_in_range(
                    s0,
                    s0[cj],
                    hc,
                    child_lo(p0, j, lo),
                    child_hi(p0, j, hi),
                    k,
                    l,
                );
                if k == key {
                    if j < i {
                        assert(key_le(p0.keys[j], key));
                        crate::common::key_order::lemma_key_lt_asymmetric(key, p0.keys[j]);
                        lemma_key_lt_irreflexive(key);
                    } else {
                        assert(key_lt(key, p0.keys[j - 1]));
                        crate::common::key_order::lemma_key_lt_asymmetric(key, p0.keys[j - 1]);
                        lemma_key_lt_irreflexive(key);
                    }
                }
            }
        }
        if has_entry(s0, p0, h, k, l) && k != key {
            let j = choose|j: int|
                0 <= j < p0.locs.len() && 0 <= child_of(p0, j) < s0.len() && has_entry(
                    s0,
                    s0[#[trigger] child_of(p0, j)],
                    (h - 1) as nat,
                    k,
                    l,
                );
            let cj = child_of(p0, j);
            if j == i {
                assert(has_entry(tc, c1, hc, k, l));
                assert(has_entry(t, t[c], hc, k, l));
            } else {
                lemma_child_facts(s0, sh, me, me, j);
                assert(ordered(s0, s0[cj], hc, child_lo(p0, j, lo), child_hi(p0, j, hi)));
                lemma_frame_entry(s0, t, s0[cj], hc, child_lo(p0, j, lo), child_hi(p0, j, hi), k, l);
                assert(has_entry(t, t[cj], hc, k, l));
            }
        }
    }
    assert forall|k: int| 0 <= k < p0.locs.len() implies {
        &&& 0 <= #[trigger] child_of(p0, k) < t.len()
        &&& ordered(t, t[child_of(p0, k)], (h - 1) as nat, child_lo(p0, k, lo), child_hi(p0, k, hi))
    } by {
        let ck = child_of(p0, k);
        lemma_child_facts(s0, sh, me, me, k);
        if k != i {
            assert(ordered(s0, s0[ck], hc, child_lo(p0, k, lo), child_hi(p0, k, hi)));
            lemma_frame_ordered(s0, t, s0[ck], hc, child_lo(p0, k, lo), child_hi(p0, k, hi));
        }
    }
    assert(ordered(t, p0, h, lo, hi));
}

/// Fixing a short child below page `me` after a child removed `key` keeps
/// what the removal left: `rem_order_post` for the fixed page.
pub proof fn lemma_fix_order_compose(
    s0: Seq<PageView>,
    me: int,
    h: nat,
    lo: Option<Seq<u8>>,
    hi: Option<Seq<u8>>,
    key: Seq<u8>,
    u: Seq<PageView>,
    s2: Seq<PageView>,
    v2: PageView,
)
    requires
        0 <= me < s0.len(),
        u[me] == s0[me],
        rem_order_post(s0, me, h, lo, hi, key, u, s0[me]),
        fix_order_post(u, me, h, lo, hi, s2, v2),
    ensures
        rem_order_post(s0, me, h, lo, hi, key, s2, v2),
{
    let p0 = s0[me];
    assert(u.update(me, p0) =~= u);
    let t = s2.update(me, v2);
    assert forall|j: int| 0 <= j < s0.len() && j != me && !below(s0, p0, h, j) implies #[trigger] t[j] == s0[j] by {
        assert(!below(u, p0, h, j));
        assert(u.update(me, p0)[j] == s0[j]);
    }
    assert forall|k: Seq<u8>, l: Location|
        #![trigger has_entry(t, v2, h, k, l)]
        #![trigger has_entry(s0, p0, h, k, l)]
        has_entry(t, v2, h, k, l) <==> (has_entry(s0, p0, h, k, l) && k != key) by {
        assert(has_entry(t, v2, h, k, l) <==> has_entry(u, u[me], h, k, l));
        assert(has_entry(u.update(me, p0), p0, h, k, l) <==> (has_entry(s0, p0, h, k, l) && k != key));
    }
}

/// The separator `nk` that borrowing from the right sibling puts between a
/// short child `i` and that sibling lies strictly between the separator
/// before it and the bound after the sibling, and the parent's keys stay in
/// order with it.
pub proof fn lemma_borrow_right_keys(
    s: Seq<PageView>,
    sh: Shape,
    me: int,
    i: int,
    lo: Option<Seq<u8>>,
    hi: Option<Seq<u8>>,
)
    requires
        sh.live.contains(me),
        !s[me].is_leaf,
        0 <= i,
        i + 1 < s[me].locs.len(),
        tree_ok_relaxed(s, sh, child_of(s[me], i)),
        s[child_of(s[me], i + 1)].keys.len() > MIN_KEYS_PER_PAGE,
        1 <= (sh.height)(me),
        ordered(s, s[me], (sh.height)(me), lo, hi),
    ensures
        ({
            let p = s[me];
            let r = child_of(p, i + 1);
            let rv = s[r];
            let nk = if rv.is_leaf { rv.keys[1] } else { rv.keys[0] };
            &&& key_lt(p.keys[i], nk)
            &&& in_range(nk, Some(p.keys[i]), child_hi(p, i + 1, hi))
            &&& keys_ok(p.keys.update(i, nk), lo, hi)
        }),
{
    let p = s[me];
    let hm = (sh.height)(me);
    let c = child_of(p, i);
    let r = child_of(p, i + 1);
    lemma_child_facts(s, sh, c, me, i + 1);
    let rv = s[r];
    assert(node_ok(sh, rv, (hm - 1) as nat));
    let sep = p.keys[i];
    let hi_r = child_hi(p, i + 1, hi);
    assert(child_lo(p, i + 1, lo) == Some(sep));
    assert(ordered(s, rv, (hm - 1) as nat, Some(sep), hi_r));
    let nk = if rv.is_leaf { rv.keys[1] } else { rv.keys[0] };
    if rv.is_leaf {
        assert(in_range(rv.keys[0], Some(sep), hi_r));
        assert(key_lt(rv.keys[0], rv.keys[1]));
        lemma_key_le_transitive(sep, rv.keys[0], rv.keys[1]);
        assert(in_range(rv.keys[1], Some(sep), hi_r));
    } else {
        lemma_child_facts(s, sh, c, r, 0);
        let g = child_of(rv, 0);
        assert(s[g].keys.len() >= MIN_KEYS_PER_PAGE);
        assert(ordered(s, s[g], (hm - 2) as nat, child_lo(rv, 0, Some(sep)), child_hi(rv, 0, hi_r)));
        assert(in_range(s[g].keys[0], Some(sep), Some(rv.keys[0])));
        lemma_key_le_transitive(sep, s[g].keys[0], rv.keys[0]);
        assert(in_range(rv.keys[0], Some(sep), hi_r));
    }
    let ks = p.keys.update(i, nk);
    assert forall|a: int, b: int| 0 <= a < b < ks.len() implies key_lt(#[trigger] ks[a], #[trigger] ks[b]) by {
        if a == i {
            assert(i + 1 < p.keys.len());
            assert(hi_r == Some(p.keys[i + 1]));
            if b > i + 1 {
                assert(key_lt(p.keys[i + 1], p.keys[b]));
                lemma_key_lt_transitive(nk, p.keys[i + 1], p.keys[b]);
            }
        } else if b == i {
            assert(key_lt(p.keys[a], sep));
            lemma_key_lt_transitive(p.keys[a], sep, nk);
        }
    }
    assert forall|x: int| 0 <= x < ks.len() implies in_range(#[trigger] ks[x], lo, hi) by {
        if x == i {
            assert(in_range(sep, lo, hi));
            if lo is Some {
                lemma_key_le_transitive(lo->0, sep, nk);
            }
            if hi is Some {
                if i + 1 < p.keys.len() {
                    assert(in_range(p.keys[i + 1], lo, hi));
                    lemma_key_lt_transitive(nk, p.keys[i + 1], hi->0);
                }
            }
        }
    }
}

/// A short child `i` of page `me` that borrows the first
/// entry of its right sibling leaves the page meeting `fix_order_post`.
#[verifier::rlimit(60)]
#[verifier::spinoff_prover]
pub proof fn lemma_borrow_right_order(
    s: Seq<PageView>,
    sh: Shape,
    me: int,
    i: int,
    lo: Option<Seq<u8>>,
    hi: Option<Seq<u8>>,
)
    requires
        sh.live.contains(me),
        !s[me].is_leaf,
        0 <= i,
        i + 1 < s[me].locs.len(),
        tree_ok_relaxed(s, sh, child_of(s[me], i)),
        s[child_of(s[me], i + 1)].keys.len() > MIN_KEYS_PER_PAGE,
        1 <= (sh.height)(me),
        ordered(s, s[me], (sh.height)(me), lo, hi),
    ensures
        ({
            let p = s[me];
            let c = child_of(p, i);
            let r = child_of(p, i + 1);
            let x = s[c];
            let rv = s[r];
            let p2 = PageView {
                is_leaf: false,
                keys: p.keys.update(i, if x.is_leaf { rv.keys[1] } else { rv.keys[0] }),
                locs: p.locs,
            };
            fix_order_post(
                s,
                me,
                (sh.height)(me),
                lo,
                hi,
                s.update(r, without_first(rv)).update(c, borrowed_from_right(x, rv, p.keys[i])),
                p2,
            )
        }),
{
    let p = s[me];
    let hm = (sh.height)(me);
    let h1 = (hm - 1) as nat;
    let c = child_of(p, i);
    let r = child_of(p, i + 1);
    lemma_child_facts(s, sh, c, me, i);
    lemma_child_facts(s, sh, c, me, i + 1);
    lemma_borrow_right_keys(s, sh, me, i, lo, hi);
    let x = s[c];
    let rv = s[r];
    assert(node_ok(sh, x, h1));
    assert(node_ok(sh, rv, h1));
    let sep = p.keys[i];
    let lo_i = child_lo(p, i, lo);
    let hi_r = child_hi(p, i + 1, hi);
    assert(child_hi(p, i, hi) == Some(sep));
    assert(ordered(s, x, h1, lo_i, Some(sep)));
    assert(ordered(s, rv, h1, Some(sep), hi_r));
    let nk = if x.is_leaf { rv.keys[1] } else { rv.keys[0] };
    let x2 = borrowed_from_right(x, rv, sep);
    let r2 = without_first(rv);
    let p2 = PageView { is_leaf: false, keys: p.keys.update(i, nk), locs: p.locs };
    let s1 = s.update(r, r2).update(c, x2);
    let t = s1.update(me, p2);
    assert(t[c] == x2 && t[r] == r2 && t[me] == p2);
    if !x.is_leaf {
        lemma_child_facts(s, sh, c, r, 0);
    }
    // The grandchildren of `me`, and all below them, are kept.
    assert forall|j: int| 0 <= j < s.len() && !(sh.live.contains(j) && (sh.height)(j) + 1 >= hm) implies #[trigger] t[j]
        == s[j] by {}
    assert forall|k: int, kk: int|
        0 <= k < p.locs.len() && !s[child_of(p, k)].is_leaf && 0 <= kk < s[child_of(p, k)].locs.len() implies {
        let g = #[trigger] child_of(s[child_of(p, k)], kk);
        &&& 0 <= g < s.len()
        &&& (sh.height)(g) == (h1 - 1) as nat
        &&& t[g] == s[g]
        &&& agree_below(s, t, s[g], (h1 - 1) as nat)
        &&& forall|j: int| #[trigger] below(t, s[g], (h1 - 1) as nat, j) <==> below(s, s[g], (h1 - 1) as nat, j)
        &&& forall|k2: Seq<u8>, l2: Location| #[trigger] has_entry(t, s[g], (h1 - 1) as nat, k2, l2) <==> has_entry(
            s,
            s[g],
            (h1 - 1) as nat,
            k2,
            l2,
        )
    } by {
        lemma_child_facts(s, sh, c, me, k);
        lemma_grandchild_kept(s, sh, c, me, k, kk, t);
    }
    // The order of the two changed children.
    assert(lo_i is Some ==> key_le(lo_i->0, sep)) by {
        if i > 0 {
            assert(key_lt(p.keys[i - 1], sep));
        } else {
            assert(in_range(sep, lo, hi));
        }
    }
    assert(ordered(t, x2, h1, lo_i, Some(nk))) by {
        if x.is_leaf {
            assert(in_range(rv.keys[0], Some(sep), hi_r));
            assert forall|a: int, b: int| 0 <= a < b < x2.keys.len() implies key_lt(#[trigger] x2.keys[a], #[trigger] x2.keys[b]) by {
                if b == x.keys.len() {
                    assert(in_range(x.keys[a], lo_i, Some(sep)));
                    lemma_key_le_transitive(x.keys[a], sep, rv.keys[0]);
                } else {
                    assert(x2.keys[a] == x.keys[a] && x2.keys[b] == x.keys[b]);
                }
            }
            assert forall|a: int| 0 <= a < x2.keys.len() implies in_range(#[trigger] x2.keys[a], lo_i, Some(nk)) by {
                if a == x.keys.len() {
                    assert(key_lt(rv.keys[0], rv.keys[1]));
                    if lo_i is Some {
                        lemma_key_le_transitive(lo_i->0, sep, rv.keys[0]);
                    }
                } else {
                    assert(x2.keys[a] == x.keys[a]);
                    assert(in_range(x.keys[a], lo_i, Some(sep)));
                    lemma_key_lt_transitive(x.keys[a], sep, nk);
                }
            }
        } else {
            assert forall|a: int, b: int| 0 <= a < b < x2.keys.len() implies key_lt(#[trigger] x2.keys[a], #[trigger] x2.keys[b]) by {
                if b == x.keys.len() {
                    assert(in_range(x.keys[a], lo_i, Some(sep)));
                } else {
                    assert(x2.keys[a] == x.keys[a] && x2.keys[b] == x.keys[b]);
                }
            }
            assert forall|a: int| 0 <= a < x2.keys.len() implies in_range(#[trigger] x2.keys[a], lo_i, Some(nk)) by {
                if a < x.keys.len() {
                    assert(x2.keys[a] == x.keys[a]);
                    assert(in_range(x.keys[a], lo_i, Some(sep)));
                    lemma_key_lt_transitive(x.keys[a], sep, nk);
                }
            }
            assert forall|k: int| 0 <= k < x2.locs.len() implies {
                &&& 0 <= #[trigger] child_of(x2, k) < t.len()
                &&& ordered(t, t[child_of(x2, k)], (h1 - 1) as nat, child_lo(x2, k, lo_i), child_hi(x2, k, Some(nk)))
            } by {
                if k < x.locs.len() {
                    assert(x2.locs[k] == x.locs[k]);
                    assert(child_lo(x2, k, lo_i) == child_lo(x, k, lo_i));
                    assert(child_hi(x2, k, Some(nk)) == child_hi(x, k, Some(sep)));
                    let g = child_of(x, k);
                    assert(g == child_of(s[child_of(p, i)], k));
                    assert(ordered(s, s[g], (h1 - 1) as nat, child_lo(x, k, lo_i), child_hi(x, k, Some(sep))));
                    lemma_frame_ordered(s, t, s[g], (h1 - 1) as nat, child_lo(x, k, lo_i), child_hi(x, k, Some(sep)));
                } else {
                    assert(x2.locs[k] == rv.locs[0]);
                    let g = child_of(rv, 0);
                    assert(g == child_of(s[child_of(p, i + 1)], 0));
                    assert(ordered(s, s[g], (h1 - 1) as nat, child_lo(rv, 0, Some(sep)), child_hi(rv, 0, hi_r)));
                    lemma_frame_ordered(s, t, s[g], (h1 - 1) as nat, child_lo(rv, 0, Some(sep)), child_hi(rv, 0, hi_r));
                }
            }
        }
    }
    assert(ordered(t, r2, h1, Some(nk), hi_r)) by {
        assert forall|a: int, b: int| 0 <= a < b < r2.keys.len() implies key_lt(#[trigger] r2.keys[a], #[trigger] r2.keys[b]) by {
            assert(r2.keys[a] == rv.keys[a + 1] && r2.keys[b] == rv.keys[b + 1]);
        }
        assert forall|a: int| 0 <= a < r2.keys.len() implies in_range(#[trigger] r2.keys[a], Some(nk), hi_r) by {
            assert(r2.keys[a] == rv.keys[a + 1]);
            assert(in_range(rv.keys[a + 1], Some(sep), hi_r));
            if x.is_leaf {
                if a > 0 {
                    assert(key_lt(rv.keys[1], rv.keys[a + 1]));
                }
            } else {
                assert(key_lt(rv.keys[0], rv.keys[a + 1]));
            }
        }
        if !x.is_leaf {
            assert forall|k: int| 0 <= k < r2.locs.len() implies {
                &&& 0 <= #[trigger] child_of(r2, k) < t.len()
                &&& ordered(t, t[child_of(r2, k)], (h1 - 1) as nat, child_lo(r2, k, Some(nk)), child_hi(r2, k, hi_r))
            } by {
                assert(r2.locs[k] == rv.locs[k + 1]);
                assert(child_lo(r2, k, Some(nk)) == child_lo(rv, k + 1, Some(sep)));
                assert(child_hi(r2, k, hi_r) == child_hi(rv, k + 1, hi_r));
                let g = child_of(rv, k + 1);
                assert(g == child_of(s[child_of(p, i + 1)], k + 1));
                assert(ordered(s, s[g], (h1 - 1) as nat, child_lo(rv, k + 1, Some(sep)), child_hi(rv, k + 1, hi_r)));
                lemma_frame_ordered(s, t, s[g], (h1 - 1) as nat, child_lo(rv, k + 1, Some(sep)), child_hi(rv, k + 1, hi_r));
            }
        }
    }
    // The order of the page.
    assert forall|k: int| 0 <= k < p2.locs.len() implies {
        &&& 0 <= #[trigger] child_of(p2, k) < t.len()
        &&& ordered(t, t[child_of(p2, k)], h1, child_lo(p2, k, lo), child_hi(p2, k, hi))
    } by {
        assert(child_of(p2, k) == child_of(p, k));
        lemma_child_facts(s, sh, c, me, k);
        if k == i {
            assert(child_lo(p2, k, lo) == lo_i);
        } else if k == i + 1 {
        } else {
            let ck = child_of(p, k);
            assert(ck != c && ck != r && ck != me);
            assert(t[ck] == s[ck]);
            assert(child_lo(p2, k, lo) == child_lo(p, k, lo));
            assert(child_hi(p2, k, hi) == child_hi(p, k, hi));
            assert(ordered(s, s[ck], h1, child_lo(p, k, lo), child_hi(p, k, hi)));
            if !s[ck].is_leaf {
                assert forall|kk: int| 0 <= kk < s[ck].locs.len() implies {
                    &&& 0 <= #[trigger] child_of(s[ck], kk) < t.len()
                    &&& ordered(
                        t,
                        t[child_of(s[ck], kk)],
                        (h1 - 1) as nat,
                        child_lo(s[ck], kk, child_lo(p, k, lo)),
                        child_hi(s[ck], kk, child_hi(p, k, hi)),
                    )
                } by {
                    let g = child_of(s[ck], kk);
                    assert(g == child_of(s[child_of(p, k)], kk));
                    assert(ordered(
                        s,
                        s[g],
                        (h1 - 1) as nat,
                        child_lo(s[ck], kk, child_lo(p, k, lo)),
                        child_hi(s[ck], kk, child_hi(p, k, hi)),
                    ));
                    lemma_frame_ordered(s, t, s[g], (h1 - 1) as nat, child_lo(s[ck], kk, child_lo(p, k, lo)), child_hi(s[ck], kk, child_hi(p, k, hi)));
                }
            }
        }
    }
    assert(ordered(t, p2, hm, lo, hi));
    // Pages outside the subtree of `me` are kept.
    lemma_below_child(s, p, hm, i, c);
    lemma_below_child(s, p, hm, i + 1, r);
    assert forall|j: int| 0 <= j < s.len() && j != me && !below(s, p, hm, j) implies #[trigger] t[j] == s[j] by {}
    // No page has come below the page.
    assert forall|j: int| #[trigger] below(t, p2, hm, j) implies below(s, p, hm, j) by {
        let k = choose|k: int|
            0 <= k < p2.locs.len() && 0 <= child_of(p2, k) < t.len() && (#[trigger] child_of(p2, k) == j || below(
                t,
                t[child_of(p2, k)],
                h1,
                j,
            ));
        assert(child_of(p2, k) == child_of(p, k));
        lemma_child_facts(s, sh, c, me, k);
        let ck = child_of(p, k);
        if ck == j {
            lemma_below_child(s, p, hm, k, j);
        } else {
            let v = t[ck];
            assert(!v.is_leaf);
            let kk = choose|kk: int|
                0 <= kk < v.locs.len() && 0 <= child_of(v, kk) < t.len() && (#[trigger] child_of(v, kk) == j || below(
                    t,
                    t[child_of(v, kk)],
                    (h1 - 1) as nat,
                    j,
                ));
            if k == i {
                if kk < x.locs.len() {
                    assert(v.locs[kk] == x.locs[kk]);
                    assert(child_of(x, kk) == child_of(v, kk));
                    assert(below(s, x, h1, j));
                    lemma_below_child(s, p, hm, i, j);
                } else {
                    assert(v.locs[kk] == rv.locs[0]);
                    assert(child_of(rv, 0) == child_of(v, kk));
                    assert(below(s, rv, h1, j));
                    lemma_below_child(s, p, hm, i + 1, j);
                }
            } else if k == i + 1 {
                assert(v.locs[kk] == rv.locs[kk + 1]);
                assert(child_of(rv, kk + 1) == child_of(v, kk));
                assert(below(s, rv, h1, j));
                lemma_below_child(s, p, hm, i + 1, j);
            } else {
                assert(v == s[ck]);
                assert(below(s, s[ck], h1, j));
                lemma_below_child(s, p, hm, k, j);
            }
        }
    }
    // The entries are kept.
    assert forall|k: Seq<u8>, l: Location|
        #![trigger has_entry(t, p2, hm, k, l)]
        #![trigger has_entry(s, p, hm, k, l)]
        has_entry(t, p2, hm, k, l) <==> has_entry(s, p, hm, k, l) by {
        lemma_borrow_right_entries(s, sh, me, i, k, l);
    }
}

/// Borrowing from the right sibling keeps the entries below the page.
#[verifier::rlimit(60)]
#[verifier::spinoff_prover]
pub proof fn lemma_borrow_right_entries(s: Seq<PageView>, sh: Shape, me: int, i: int, k: Seq<u8>, l: Location)
    requires
        sh.live.contains(me),
        !s[me].is_leaf,
        0 <= i,
        i + 1 < s[me].locs.len(),
        tree_ok_relaxed(s, sh, child_of(s[me], i)),
        s[child_of(s[me], i + 1)].keys.len() > MIN_KEYS_PER_PAGE,
        1 <= (sh.height)(me),
    ensures
        ({
            let p = s[me];
            let c = child_of(p, i);
            let r = child_of(p, i + 1);
            let x = s[c];
            let rv = s[r];
            let p2 = PageView {
                is_leaf: false,
                keys: p.keys.update(i, if x.is_leaf { rv.keys[1] } else { rv.keys[0] }),
                locs: p.locs,
            };
            let t = s.update(r, without_first(rv)).update(c, borrowed_from_right(x, rv, p.keys[i])).update(me, p2);
            has_entry(t, p2, (sh.height)(me), k, l) <==> has_entry(s, p, (sh.height)(me), k, l)
        }),
{
    let p = s[me];
    let hm = (sh.height)(me);
    let h1 = (hm - 1) as nat;
    let c = child_of(p, i);
    let r = child_of(p, i + 1);
    lemma_child_facts(s, sh, c, me, i);
    lemma_child_facts(s, sh, c, me, i + 1);
    let x = s[c];
    let rv = s[r];
    assert(node_ok(sh, x, h1));
    assert(node_ok(sh, rv, h1));
    let nk = if x.is_leaf { rv.keys[1] } else { rv.keys[0] };
    let x2 = borrowed_from_right(x, rv, p.keys[i]);
    let r2 = without_first(rv);
    let p2 = PageView { is_leaf: false, keys: p.keys.update(i, nk), locs: p.locs };
    let t = s.update(r, r2).update(c, x2).update(me, p2);
    assert(t[c] == x2 && t[r] == r2);
    // The grandchildren of `me`, and all below them, are kept.
    assert forall|j: int| 0 <= j < s.len() && !(sh.live.contains(j) && (sh.height)(j) + 1 >= hm) implies #[trigger] t[j]
        == s[j] by {}
    assert forall|kx: int, kk: int|
        0 <= kx < p.locs.len() && !s[child_of(p, kx)].is_leaf && 0 <= kk < s[child_of(p, kx)].locs.len() implies {
        let g = #[trigger] child_of(s[child_of(p, kx)], kk);
        &&& 0 <= g < s.len()
        &&& (sh.height)(g) == (h1 - 1) as nat
        &&& t[g] == s[g]
        &&& agree_below(s, t, s[g], (h1 - 1) as nat)
        &&& forall|j: int| #[trigger] below(t, s[g], (h1 - 1) as nat, j) <==> below(s, s[g], (h1 - 1) as nat, j)
        &&& forall|k2: Seq<u8>, l2: Location| #[trigger] has_entry(t, s[g], (h1 - 1) as nat, k2, l2) <==> has_entry(
            s,
            s[g],
            (h1 - 1) as nat,
            k2,
            l2,
        )
    } by {
        lemma_child_facts(s, sh, c, me, kx);
        lemma_grandchild_kept(s, sh, c, me, kx, kk, t);
    }
    // What the two changed children hold together.
    let pair_t = has_entry(t, x2, h1, k, l) || has_entry(t, r2, h1, k, l);
    let pair_s = has_entry(s, x, h1, k, l) || has_entry(s, rv, h1, k, l);
    assert(pair_t <==> pair_s) by {
        if x.is_leaf {
            if has_entry(t, x2, h1, k, l) {
                let a = choose|a: int| 0 <= a < x2.keys.len() && x2.keys[a] == k && x2.locs[a] == l;
                if a < x.keys.len() {
                    assert(x.keys[a] == k && x.locs[a] == l);
                } else {
                    assert(rv.keys[0] == k && rv.locs[0] == l);
                }
            }
            if has_entry(t, r2, h1, k, l) {
                let a = choose|a: int| 0 <= a < r2.keys.len() && r2.keys[a] == k && r2.locs[a] == l;
                assert(rv.keys[a + 1] == k && rv.locs[a + 1] == l);
            }
            if has_entry(s, x, h1, k, l) {
                let a = choose|a: int| 0 <= a < x.keys.len() && x.keys[a] == k && x.locs[a] == l;
                assert(x2.keys[a] == k && x2.locs[a] == l);
            }
            if has_entry(s, rv, h1, k, l) {
                let a = choose|a: int| 0 <= a < rv.keys.len() && rv.keys[a] == k && rv.locs[a] == l;
                if a == 0 {
                    assert(x2.keys[x.keys.len() as int] == k && x2.locs[x.keys.len() as int] == l);
                } else {
                    assert(r2.keys[a - 1] == k && r2.locs[a - 1] == l);
                }
            }
        } else {
            if has_entry(t, x2, h1, k, l) {
                let a = choose|a: int|
                    0 <= a < x2.locs.len() && 0 <= child_of(x2, a) < t.len() && has_entry(
                        t,
                        t[#[trigger] child_of(x2, a)],
                        (h1 - 1) as nat,
                        k,
                        l,
                    );
                if a < x.locs.len() {
                    assert(x2.locs[a] == x.locs[a]);
                    let g = child_of(x, a);
                    assert(g == child_of(s[child_of(p, i)], a));
                    assert(has_entry(s, s[child_of(x, a)], (h1 - 1) as nat, k, l));
                } else {
                    assert(x2.locs[a] == rv.locs[0]);
                    let g = child_of(rv, 0);
                    assert(g == child_of(s[child_of(p, i + 1)], 0));
                    assert(has_entry(s, s[child_of(rv, 0)], (h1 - 1) as nat, k, l));
                }
            }
            if has_entry(t, r2, h1, k, l) {
                let a = choose|a: int|
                    0 <= a < r2.locs.len() && 0 <= child_of(r2, a) < t.len() && has_entry(
                        t,
                        t[#[trigger] child_of(r2, a)],
                        (h1 - 1) as nat,
                        k,
                        l,
                    );
                assert(r2.locs[a] == rv.locs[a + 1]);
                let g = child_of(rv, a + 1);
                assert(g == child_of(s[child_of(p, i + 1)], a + 1));
                assert(has_entry(s, s[child_of(rv, a + 1)], (h1 - 1) as nat, k, l));
            }
            if has_entry(s, x, h1, k, l) {
                let a = choose|a: int|
                    0 <= a < x.locs.len() && 0 <= child_of(x, a) < s.len() && has_entry(
                        s,
                        s[#[trigger] child_of(x, a)],
                        (h1 - 1) as nat,
                        k,
                        l,
                    );
                assert(x2.locs[a] == x.locs[a]);
                let g = child_of(x, a);
                assert(g == child_of(s[child_of(p, i)], a));
                assert(has_entry(t, t[child_of(x2, a)], (h1 - 1) as nat, k, l));
            }
            if has_entry(s, rv, h1, k, l) {
                let a = choose|a: int|
                    0 <= a < rv.locs.len() && 0 <= child_of(rv, a) < s.len() && has_entry(
                        s,
                        s[#[trigger] child_of(rv, a)],
                        (h1 - 1) as nat,
                        k,
                        l,
                    );
                let g = child_of(rv, a);
                assert(g == child_of(s[child_of(p, i + 1)], a));
                if a == 0 {
                    let xl = x.locs.len() as int;
                    assert(x2.locs[xl] == rv.locs[0]);
                    assert(has_entry(t, t[child_of(x2, xl)], (h1 - 1) as nat, k, l));
                } else {
                    assert(r2.locs[a - 1] == rv.locs[a]);
                    assert(has_entry(t, t[child_of(r2, a - 1)], (h1 - 1) as nat, k, l));
                }
            }
        }
    }
    // Every other child holds the same entries in `t` as in `s`.
    assert forall|j: int| 0 <= j < p.locs.len() && j != i && j != i + 1 implies #[trigger] has_entry(
        t,
        t[child_of(p, j)],
        h1,
        k,
        l,
    ) == has_entry(s, s[child_of(p, j)], h1, k, l) by {
        lemma_child_facts(s, sh, c, me, j);
        let cj = child_of(p, j);
        assert(t[cj] == s[cj]);
        if !s[cj].is_leaf {
            if has_entry(t, t[cj], h1, k, l) {
                let a = choose|a: int|
                    0 <= a < s[cj].locs.len() && 0 <= child_of(s[cj], a) < t.len() && has_entry(
                        t,
                        t[#[trigger] child_of(s[cj], a)],
                        (h1 - 1) as nat,
                        k,
                        l,
                    );
                let g = child_of(s[cj], a);
                assert(g == child_of(s[child_of(p, j)], a));
                assert(has_entry(s, s[child_of(s[cj], a)], (h1 - 1) as nat, k, l));
            }
            if has_entry(s, s[cj], h1, k, l) {
                let a = choose|a: int|
                    0 <= a < s[cj].locs.len() && 0 <= child_of(s[cj], a) < s.len() && has_entry(
                        s,
                        s[#[trigger] child_of(s[cj], a)],
                        (h1 - 1) as nat,
                        k,
                        l,
                    );
                let g = child_of(s[cj], a);
                assert(g == child_of(s[child_of(p, j)], a));
                assert(has_entry(t, t[child_of(s[cj], a)], (h1 - 1) as nat, k, l));
            }
        }
    }
    if has_entry(t, p2, hm, k, l) {
        let j = choose|j: int|
            0 <= j < p2.locs.len() && 0 <= child_of(p2, j) < t.len() && has_entry(
                t,
                t[#[trigger] child_of(p2, j)],
                h1,
                k,
                l,
            );
        assert(child_of(p2, j) == child_of(p, j));
        if j == i {
            assert(pair_t);
            if has_entry(s, x, h1, k, l) {
                assert(has_entry(s, s[child_of(p, i)], h1, k, l));
            } else {
                assert(has_entry(s, s[child_of(p, i + 1)], h1, k, l));
            }
        } else if j == i + 1 {
            assert(pair_t);
            if has_entry(s, x, h1, k, l) {
                assert(has_entry(s, s[child_of(p, i)], h1, k, l));
            } else {
                assert(has_entry(s, s[child_of(p, i + 1)], h1, k, l));
            }
        } else {
            assert(has_entry(s, s[child_of(p, j)], h1, k, l));
        }
    }
    if has_entry(s, p, hm, k, l) {
        let j = choose|j: int|
            0 <= j < p.locs.len() && 0 <= child_of(p, j) < s.len() && has_entry(
                s,
                s[#[trigger] child_of(p, j)],
                h1,
                k,
                l,
            );
        if j == i || j == i + 1 {
            assert(pair_s);
            if has_entry(t, x2, h1, k, l) {
                assert(child_of(p2, i) == c);
                assert(has_entry(t, t[child_of(p2, i)], h1, k, l));
            } else {
                assert(child_of(p2, i + 1) == r);
                assert(has_entry(t, t[child_of(p2, i + 1)], h1, k, l));
            }
        } else {
            assert(child_of(p2, j) == child_of(p, j));
            assert(has_entry(t, t[child_of(p2, j)], h1, k, l));
        }
    }
}

/// The separator that borrowing from the left sibling puts between that
/// sibling and a short child `i`, the sibling's last key, lies strictly
/// between the bound before the sibling and the old separator, and the
/// parent's keys stay in order with it.
pub proof fn lemma_borrow_left_keys(
    s: Seq<PageView>,
    sh: Shape,
    me: int,
    i: int,
    lo: Option<Seq<u8>>,
    hi: Option<Seq<u8>>,
)
    requires
        sh.live.contains(me),
        !s[me].is_leaf,
        0 < i < s[me].locs.len(),
        tree_ok_relaxed(s, sh, child_of(s[me], i)),
        s[child_of(s[me], i - 1)].keys.len() > MIN_KEYS_PER_PAGE,
        1 <= (sh.height)(me),
        ordered(s, s[me], (sh.height)(me), lo, hi),
    ensures
        ({
            let p = s[me];
            let lv = s[child_of(p, i - 1)];
            let nk = lv.keys.last();
            &&& key_lt(nk, p.keys[i - 1])
            &&& (child_lo(p, i - 1, lo) matches Some(b) ==> key_lt(b, nk))
            &&& keys_ok(p.keys.update(i - 1, nk), lo, hi)
        }),
{
    let p = s[me];
    let hm = (sh.height)(me);
    let c = child_of(p, i);
    let lc = child_of(p, i - 1);
    lemma_child_facts(s, sh, c, me, i - 1);
    let lv = s[lc];
    assert(node_ok(sh, lv, (hm - 1) as nat));
    let sep = p.keys[i - 1];
    let lo_l = child_lo(p, i - 1, lo);
    assert(child_hi(p, i - 1, hi) == Some(sep));
    assert(ordered(s, lv, (hm - 1) as nat, lo_l, Some(sep)));
    let n = lv.keys.len() as int;
    let nk = lv.keys[n - 1];
    assert(in_range(nk, lo_l, Some(sep)));
    assert(in_range(lv.keys[0], lo_l, Some(sep)));
    assert(key_lt(lv.keys[0], nk));
    if lo_l is Some {
        lemma_key_le_transitive(lo_l->0, lv.keys[0], nk);
    }
    let ks = p.keys.update(i - 1, nk);
    assert forall|a: int, b: int| 0 <= a < b < ks.len() implies key_lt(#[trigger] ks[a], #[trigger] ks[b]) by {
        if b == i - 1 {
            assert(lo_l == Some(p.keys[i - 2]));
            if a < i - 2 {
                assert(key_lt(p.keys[a], p.keys[i - 2]));
                lemma_key_lt_transitive(p.keys[a], p.keys[i - 2], nk);
            }
        } else if a == i - 1 {
            assert(key_lt(sep, p.keys[b]));
            lemma_key_lt_transitive(nk, sep, p.keys[b]);
        }
    }
    assert forall|x: int| 0 <= x < ks.len() implies in_range(#[trigger] ks[x], lo, hi) by {
        if x == i - 1 {
            assert(in_range(sep, lo, hi));
            if hi is Some {
                lemma_key_lt_transitive(nk, sep, hi->0);
            }
            if lo is Some {
                if i - 1 > 0 {
                    assert(in_range(p.keys[i - 2], lo, hi));
                    lemma_key_le_transitive(lo->0, p.keys[i - 2], nk);
                }
            }
        }
    }
}

/// A short child `i > 0` of page `me` that borrows the
/// last entry of its left sibling leaves the page meeting `fix_order_post`.
#[verifier::rlimit(60)]
#[verifier::spinoff_prover]
pub proof fn lemma_borrow_left_order(
    s: Seq<PageView>,
    sh: Shape,
    me: int,
    i: int,
    lo: Option<Seq<u8>>,
    hi: Option<Seq<u8>>,
)
    requires
        sh.live.contains(me),
        !s[me].is_leaf,
        0 < i < s[me].locs.len(),
        tree_ok_relaxed(s, sh, child_of(s[me], i)),
        s[child_of(s[me], i - 1)].keys.len() > MIN_KEYS_PER_PAGE,
        1 <= (sh.height)(me),
        ordered(s, s[me], (sh.height)(me), lo, hi),
    ensures
        ({
            let p = s[me];
            let c = child_of(p, i);
            let lc = child_of(p, i - 1);
            let x = s[c];
            let lv = s[lc];
            let p2 = PageView { is_leaf: false, keys: p.keys.update(i - 1, lv.keys.last()), locs: p.locs };
            fix_order_post(
                s,
                me,
                (sh.height)(me),
                lo,
                hi,
                s.update(lc, without_last(lv)).update(c, borrowed_from_left(x, lv, p.keys[i - 1])),
                p2,
            )
        }),
{
    let p = s[me];
    let hm = (sh.height)(me);
    let h1 = (hm - 1) as nat;
    let c = child_of(p, i);
    let lc = child_of(p, i - 1);
    lemma_child_facts(s, sh, c, me, i);
    lemma_child_facts(s, sh, c, me, i - 1);
    lemma_borrow_left_keys(s, sh, me, i, lo, hi);
    let x = s[c];
    let lv = s[lc];
    assert(node_ok(sh, x, h1));
    assert(node_ok(sh, lv, h1));
    let sep = p.keys[i - 1];
    let lo_l = child_lo(p, i - 1, lo);
    let hi_i = child_hi(p, i, hi);
    assert(child_hi(p, i - 1, hi) == Some(sep));
    assert(child_lo(p, i, lo) == Some(sep));
    assert(ordered(s, x, h1, Some(sep), hi_i));
    assert(ordered(s, lv, h1, lo_l, Some(sep)));
    let n = lv.keys.len() as int;
    let nk = lv.keys[n - 1];
    let x2 = borrowed_from_left(x, lv, sep);
    let l2 = without_last(lv);
    let p2 = PageView { is_leaf: false, keys: p.keys.update(i - 1, nk), locs: p.locs };
    let s1 = s.update(lc, l2).update(c, x2);
    let t = s1.update(me, p2);
    assert(t[c] == x2 && t[lc] == l2 && t[me] == p2);
    let nl = lv.locs.len() as int;
    if !x.is_leaf {
        lemma_child_facts(s, sh, c, lc, nl - 1);
    }
    assert forall|j: int| 0 <= j < s.len() && !(sh.live.contains(j) && (sh.height)(j) + 1 >= hm) implies #[trigger] t[j]
        == s[j] by {}
    assert forall|k: int, kk: int|
        0 <= k < p.locs.len() && !s[child_of(p, k)].is_leaf && 0 <= kk < s[child_of(p, k)].locs.len() implies {
        let g = #[trigger] child_of(s[child_of(p, k)], kk);
        &&& 0 <= g < s.len()
        &&& (sh.height)(g) == (h1 - 1) as nat
        &&& t[g] == s[g]
        &&& agree_below(s, t, s[g], (h1 - 1) as nat)
        &&& forall|j: int| #[trigger] below(t, s[g], (h1 - 1) as nat, j) <==> below(s, s[g], (h1 - 1) as nat, j)
        &&& forall|k2: Seq<u8>, l2: Location| #[trigger] has_entry(t, s[g], (h1 - 1) as nat, k2, l2) <==> has_entry(
            s,
            s[g],
            (h1 - 1) as nat,
            k2,
            l2,
        )
    } by {
        lemma_child_facts(s, sh, c, me, k);
        lemma_grandchild_kept(s, sh, c, me, k, kk, t);
    }
    assert(ordered(t, x2, h1, Some(nk), hi_i)) by {
        if x.is_leaf {
            assert forall|a: int, b: int| 0 <= a < b < x2.keys.len() implies key_lt(#[trigger] x2.keys[a], #[trigger] x2.keys[b]) by {
                if a == 0 {
                    assert(x2.keys[b] == x.keys[b - 1]);
                    assert(in_range(x.keys[b - 1], Some(sep), hi_i));
                    lemma_key_le_transitive(nk, sep, x.keys[b - 1]);
                } else {
                    assert(x2.keys[a] == x.keys[a - 1] && x2.keys[b] == x.keys[b - 1]);
                }
            }
            assert forall|a: int| 0 <= a < x2.keys.len() implies in_range(#[trigger] x2.keys[a], Some(nk), hi_i) by {
                if a == 0 {
                    if hi_i is Some {
                        assert(in_range(sep, lo, hi));
                        if i < p.keys.len() {
                            assert(key_lt(sep, p.keys[i]));
                        }
                        lemma_key_lt_transitive(nk, sep, hi_i->0);
                    }
                } else {
                    assert(x2.keys[a] == x.keys[a - 1]);
                    assert(in_range(x.keys[a - 1], Some(sep), hi_i));
                    lemma_key_le_transitive(nk, sep, x.keys[a - 1]);
                }
            }
        } else {
            assert forall|a: int, b: int| 0 <= a < b < x2.keys.len() implies key_lt(#[trigger] x2.keys[a], #[trigger] x2.keys[b]) by {
                if a == 0 {
                    assert(x2.keys[b] == x.keys[b - 1]);
                    assert(in_range(x.keys[b - 1], Some(sep), hi_i));
                    lemma_key_le_transitive(sep, sep, x.keys[b - 1]);
                    if key_lt(sep, x.keys[b - 1]) {
                    } else {
                        assert(x.keys[b - 1] == sep);
                        // A key equal to the lower bound would leave the child before it empty.
                        lemma_child_facts(s, sh, c, c, b - 1);
                        let g = child_of(x, b - 1);
                        assert(s[g].keys.len() >= MIN_KEYS_PER_PAGE);
                        assert(ordered(s, s[g], (h1 - 1) as nat, child_lo(x, b - 1, Some(sep)), child_hi(x, b - 1, hi_i)));
                        lemma_frame_ordered(s, t, s[g], (h1 - 1) as nat, child_lo(x, b - 1, Some(sep)), child_hi(x, b - 1, hi_i));
                        let lo_g = child_lo(x, b - 1, Some(sep));
                        assert(lo_g is Some && key_le(sep, lo_g->0)) by {
                            if b - 1 > 0 {
                                assert(in_range(x.keys[b - 2], Some(sep), hi_i));
                            }
                        }
                        assert(child_hi(x, b - 1, hi_i) == Some(sep));
                        assert(in_range(s[g].keys[0], lo_g, Some(sep)));
                        lemma_key_le_transitive(sep, lo_g->0, s[g].keys[0]);
                        lemma_key_le_transitive(sep, s[g].keys[0], sep);
                        lemma_key_lt_irreflexive(sep);
                    }
                } else {
                    assert(x2.keys[a] == x.keys[a - 1] && x2.keys[b] == x.keys[b - 1]);
                }
            }
            assert forall|a: int| 0 <= a < x2.keys.len() implies in_range(#[trigger] x2.keys[a], Some(nk), hi_i) by {
                if a == 0 {
                    if hi_i is Some {
                        if i < p.keys.len() {
                            assert(key_lt(sep, p.keys[i]));
                        }
                    }
                } else {
                    assert(x2.keys[a] == x.keys[a - 1]);
                    assert(in_range(x.keys[a - 1], Some(sep), hi_i));
                    lemma_key_le_transitive(nk, sep, x.keys[a - 1]);
                }
            }
            assert forall|k: int| 0 <= k < x2.locs.len() implies {
                &&& 0 <= #[trigger] child_of(x2, k) < t.len()
                &&& ordered(t, t[child_of(x2, k)], (h1 - 1) as nat, child_lo(x2, k, Some(nk)), child_hi(x2, k, hi_i))
            } by {
                if k == 0 {
                    assert(x2.locs[0] == lv.locs[nl - 1]);
                    assert(child_lo(x2, 0, Some(nk)) == child_lo(lv, nl - 1, lo_l));
                    assert(child_hi(x2, 0, hi_i) == child_hi(lv, nl - 1, Some(sep)));
                    let g = child_of(lv, nl - 1);
                    assert(g == child_of(s[child_of(p, i - 1)], nl - 1));
                    assert(ordered(s, s[g], (h1 - 1) as nat, child_lo(lv, nl - 1, lo_l), child_hi(lv, nl - 1, Some(sep))));
                    lemma_frame_ordered(s, t, s[g], (h1 - 1) as nat, child_lo(lv, nl - 1, lo_l), child_hi(lv, nl - 1, Some(sep)));
                } else {
                    assert(x2.locs[k] == x.locs[k - 1]);
                    assert(child_lo(x2, k, Some(nk)) == child_lo(x, k - 1, Some(sep)));
                    assert(child_hi(x2, k, hi_i) == child_hi(x, k - 1, hi_i));
                    let g = child_of(x, k - 1);
                    assert(g == child_of(s[child_of(p, i)], k - 1));
                    assert(ordered(s, s[g], (h1 - 1) as nat, child_lo(x, k - 1, Some(sep)), child_hi(x, k - 1, hi_i)));
                    lemma_frame_ordered(s, t, s[g], (h1 - 1) as nat, child_lo(x, k - 1, Some(sep)), child_hi(x, k - 1, hi_i));
                }
            }
        }
    }
    assert(ordered(t, l2, h1, lo_l, Some(nk))) by {
        assert forall|a: int, b: int| 0 <= a < b < l2.keys.len() implies key_lt(#[trigger] l2.keys[a], #[trigger] l2.keys[b]) by {
            assert(l2.keys[a] == lv.keys[a] && l2.keys[b] == lv.keys[b]);
        }
        assert forall|a: int| 0 <= a < l2.keys.len() implies in_range(#[trigger] l2.keys[a], lo_l, Some(nk)) by {
            assert(l2.keys[a] == lv.keys[a]);
            assert(in_range(lv.keys[a], lo_l, Some(sep)));
            assert(key_lt(lv.keys[a], nk));
        }
        if !x.is_leaf {
            assert forall|k: int| 0 <= k < l2.locs.len() implies {
                &&& 0 <= #[trigger] child_of(l2, k) < t.len()
                &&& ordered(t, t[child_of(l2, k)], (h1 - 1) as nat, child_lo(l2, k, lo_l), child_hi(l2, k, Some(nk)))
            } by {
                assert(l2.locs[k] == lv.locs[k]);
                assert(child_lo(l2, k, lo_l) == child_lo(lv, k, lo_l));
                assert(child_hi(l2, k, Some(nk)) == child_hi(lv, k, Some(sep)));
                let g = child_of(lv, k);
                assert(g == child_of(s[child_of(p, i - 1)], k));
                assert(ordered(s, s[g], (h1 - 1) as nat, child_lo(lv, k, lo_l), child_hi(lv, k, Some(sep))));
                lemma_frame_ordered(s, t, s[g], (h1 - 1) as nat, child_lo(lv, k, lo_l), child_hi(lv, k, Some(sep)));
            }
        }
    }
    assert forall|k: int| 0 <= k < p2.locs.len() implies {
        &&& 0 <= #[trigger] child_of(p2, k) < t.len()
        &&& ordered(t, t[child_of(p2, k)], h1, child_lo(p2, k, lo), child_hi(p2, k, hi))
    } by {
        assert(child_of(p2, k) == child_of(p, k));
        lemma_child_facts(s, sh, c, me, k);
        if k == i {
            assert(child_hi(p2, k, hi) == hi_i);
        } else if k == i - 1 {
            assert(child_lo(p2, k, lo) == lo_l);
        } else {
            let ck = child_of(p, k);
            assert(ck != c && ck != lc && ck != me);
            assert(t[ck] == s[ck]);
            assert(child_lo(p2, k, lo) == child_lo(p, k, lo));
            assert(child_hi(p2, k, hi) == child_hi(p, k, hi));
            assert(ordered(s, s[ck], h1, child_lo(p, k, lo), child_hi(p, k, hi)));
            if !s[ck].is_leaf {
                assert forall|kk: int| 0 <= kk < s[ck].locs.len() implies {
                    &&& 0 <= #[trigger] child_of(s[ck], kk) < t.len()
                    &&& ordered(
                        t,
                        t[child_of(s[ck], kk)],
                        (h1 - 1) as nat,
                        child_lo(s[ck], kk, child_lo(p, k, lo)),
                        child_hi(s[ck], kk, child_hi(p, k, hi)),
                    )
                } by {
                    let g = child_of(s[ck], kk);
                    assert(g == child_of(s[child_of(p, k)], kk));
                    assert(ordered(
                        s,
                        s[g],
                        (h1 - 1) as nat,
                        child_lo(s[ck], kk, child_lo(p, k, lo)),
                        child_hi(s[ck], kk, child_hi(p, k, hi)),
                    ));
                    lemma_frame_ordered(s, t, s[g], (h1 - 1) as nat, child_lo(s[ck], kk, child_lo(p, k, lo)), child_hi(s[ck], kk, child_hi(p, k, hi)));
                }
            }
        }
    }
    assert(ordered(t, p2, hm, lo, hi));
    lemma_below_child(s, p, hm, i, c);
    lemma_below_child(s, p, hm, i - 1, lc);
    assert forall|j: int| 0 <= j < s.len() && j != me && !below(s, p, hm, j) implies #[trigger] t[j] == s[j] by {}
    assert forall|j: int| #[trigger] below(t, p2, hm, j) implies below(s, p, hm, j) by {
        let k = choose|k: int|
            0 <= k < p2.locs.len() && 0 <= child_of(p2, k) < t.len() && (#[trigger] child_of(p2, k) == j || below(
                t,
                t[child_of(p2, k)],
                h1,
                j,
            ));
        assert(child_of(p2, k) == child_of(p, k));
        lemma_child_facts(s, sh, c, me, k);
        let ck = child_of(p, k);
        if ck == j {
            lemma_below_child(s, p, hm, k, j);
        } else {
            let v = t[ck];
            assert(!v.is_leaf);
            let kk = choose|kk: int|
                0 <= kk < v.locs.len() && 0 <= child_of(v, kk) < t.len() && (#[trigger] child_of(v, kk) == j || below(
                    t,
                    t[child_of(v, kk)],
                    (h1 - 1) as nat,
                    j,
                ));
            if k == i {
                if kk == 0 {
                    assert(v.locs[kk] == lv.locs[nl - 1]);
                    assert(child_of(lv, nl - 1) == child_of(v, kk));
                    assert(below(s, lv, h1, j));
                    lemma_below_child(s, p, hm, i - 1, j);
                } else {
                    assert(v.locs[kk] == x.locs[kk - 1]);
                    assert(child_of(x, kk - 1) == child_of(v, kk));
                    assert(below(s, x, h1, j));
                    lemma_below_child(s, p, hm, i, j);
                }
            } else if k == i - 1 {
                assert(v.locs[kk] == lv.locs[kk]);
                assert(child_of(lv, kk) == child_of(v, kk));
                assert(below(s, lv, h1, j));
                lemma_below_child(s, p, hm, i - 1, j);
            } else {
                assert(v == s[ck]);
                assert(below(s, s[ck], h1, j));
                lemma_below_child(s, p, hm, k, j);
            }
        }
    }
    assert forall|k: Seq<u8>, l: Location|
        #![trigger has_entry(t, p2, hm, k, l)]
        #![trigger has_entry(s, p, hm, k, l)]
        has_entry(t, p2, hm, k, l) <==> has_entry(s, p, hm, k, l) by {
        lemma_borrow_left_entries(s, sh, me, i, k, l);
    }
}

/// Borrowing from the left sibling keeps the entries below the page.
#[verifier::rlimit(60)]
#[verifier::spinoff_prover]
pub proof fn lemma_borrow_left_entries(s: Seq<PageView>, sh: Shape, me: int, i: int, k: Seq<u8>, l: Location)
    requires
        sh.live.contains(me),
        !s[me].is_leaf,
        0 < i < s[me].locs.len(),
        tree_ok_relaxed(s, sh, child_of(s[me], i)),
        s[child_of(s[me], i - 1)].keys.len() > MIN_KEYS_PER_PAGE,
        1 <= (sh.height)(me),
    ensures
        ({
            let p = s[me];
            let c = child_of(p, i);
            let lc = child_of(p, i - 1);
            let x = s[c];
            let lv = s[lc];
            let p2 = PageView { is_leaf: false, keys: p.keys.update(i - 1, lv.keys.last()), locs: p.locs };
            let t = s.update(lc, without_last(lv)).update(c, borrowed_from_left(x, lv, p.keys[i - 1])).update(me, p2);
            has_entry(t, p2, (sh.height)(me), k, l) <==> has_entry(s, p, (sh.height)(me), k, l)
        }),
{
    let p = s[me];
    let hm = (sh.height)(me);
    let h1 = (hm - 1) as nat;
    let c = child_of(p, i);
    let lc = child_of(p, i - 1);
    lemma_child_facts(s, sh, c, me, i);
    lemma_child_facts(s, sh, c, me, i - 1);
    let x = s[c];
    let lv = s[lc];
    assert(node_ok(sh, x, h1));
    assert(node_ok(sh, lv, h1));
    let n = lv.keys.len() as int;
    let nl = lv.locs.len() as int;
    let x2 = borrowed_from_left(x, lv, p.keys[i - 1]);
    let l2 = without_last(lv);
    let p2 = PageView { is_leaf: false, keys: p.keys.update(i - 1, lv.keys.last()), locs: p.locs };
    let t = s.update(lc, l2).update(c, x2).update(me, p2);
    assert(t[c] == x2 && t[lc] == l2);
    assert forall|j: int| 0 <= j < s.len() && !(sh.live.contains(j) && (sh.height)(j) + 1 >= hm) implies #[trigger] t[j]
        == s[j] by {}
    assert forall|kx: int, kk: int|
        0 <= kx < p.locs.len() && !s[child_of(p, kx)].is_leaf && 0 <= kk < s[child_of(p, kx)].locs.len() implies {
        let g = #[trigger] child_of(s[child_of(p, kx)], kk);
        &&& 0 <= g < s.len()
        &&& (sh.height)(g) == (h1 - 1) as nat
        &&& t[g] == s[g]
        &&& agree_below(s, t, s[g], (h1 - 1) as nat)
        &&& forall|j: int| #[trigger] below(t, s[g], (h1 - 1) as nat, j) <==> below(s, s[g], (h1 - 1) as nat, j)
        &&& forall|k2: Seq<u8>, l2: Location| #[trigger] has_entry(t, s[g], (h1 - 1) as nat, k2, l2) <==> has_entry(
            s,
            s[g],
            (h1 - 1) as nat,
            k2,
            l2,
        )
    } by {
        lemma_child_facts(s, sh, c, me, kx);
        lemma_grandchild_kept(s, sh, c, me, kx, kk, t);
    }
    let pair_t = has_entry(t, x2, h1, k, l) || has_entry(t, l2, h1, k, l);
    let pair_s = has_entry(s, x, h1, k, l) || has_entry(s, lv, h1, k, l);
    assert(pair_t <==> pair_s) by {
        if x.is_leaf {
            if has_entry(t, x2, h1, k, l) {
                let a = choose|a: int| 0 <= a < x2.keys.len() && x2.keys[a] == k && x2.locs[a] == l;
                if a == 0 {
                    assert(lv.keys[n - 1] == k && lv.locs[n - 1] == l);
                } else {
                    assert(x.keys[a - 1] == k && x.locs[a - 1] == l);
                }
            }
            if has_entry(t, l2, h1, k, l) {
                let a = choose|a: int| 0 <= a < l2.keys.len() && l2.keys[a] == k && l2.locs[a] == l;
                assert(lv.keys[a] == k && lv.locs[a] == l);
            }
            if has_entry(s, x, h1, k, l) {
                let a = choose|a: int| 0 <= a < x.keys.len() && x.keys[a] == k && x.locs[a] == l;
                assert(x2.keys[a + 1] == k && x2.locs[a + 1] == l);
            }
            if has_entry(s, lv, h1, k, l) {
                let a = choose|a: int| 0 <= a < lv.keys.len() && lv.keys[a] == k && lv.locs[a] == l;
                if a == n - 1 {
                    assert(x2.keys[0] == k && x2.locs[0] == l);
                } else {
                    assert(l2.keys[a] == k && l2.locs[a] == l);
                }
            }
        } else {
            if has_entry(t, x2, h1, k, l) {
                let a = choose|a: int|
                    0 <= a < x2.locs.len() && 0 <= child_of(x2, a) < t.len() && has_entry(
                        t,
                        t[#[trigger] child_of(x2, a)],
                        (h1 - 1) as nat,
                        k,
                        l,
                    );
                if a == 0 {
                    assert(x2.locs[0] == lv.locs[nl - 1]);
                    let g = child_of(lv, nl - 1);
                    assert(g == child_of(s[child_of(p, i - 1)], nl - 1));
                    assert(has_entry(s, s[child_of(lv, nl - 1)], (h1 - 1) as nat, k, l));
                } else {
                    assert(x2.locs[a] == x.locs[a - 1]);
                    let g = child_of(x, a - 1);
                    assert(g == child_of(s[child_of(p, i)], a - 1));
                    assert(has_entry(s, s[child_of(x, a - 1)], (h1 - 1) as nat, k, l));
                }
            }
            if has_entry(t, l2, h1, k, l) {
                let a = choose|a: int|
                    0 <= a < l2.locs.len() && 0 <= child_of(l2, a) < t.len() && has_entry(
                        t,
                        t[#[trigger] child_of(l2, a)],
                        (h1 - 1) as nat,
                        k,
                        l,
                    );
                assert(l2.locs[a] == lv.locs[a]);
                let g = child_of(lv, a);
                assert(g == child_of(s[child_of(p, i - 1)], a));
                assert(has_entry(s, s[child_of(lv, a)], (h1 - 1) as nat, k, l));
            }
            if has_entry(s, x, h1, k, l) {
                let a = choose|a: int|
                    0 <= a < x.locs.len() && 0 <= child_of(x, a) < s.len() && has_entry(
                        s,
                        s[#[trigger] child_of(x, a)],
                        (h1 - 1) as nat,
                        k,
                        l,
                    );
                assert(x2.locs[a + 1] == x.locs[a]);
                let g = child_of(x, a);
                assert(g == child_of(s[child_of(p, i)], a));
                assert(has_entry(t, t[child_of(x2, a + 1)], (h1 - 1) as nat, k, l));
            }
            if has_entry(s, lv, h1, k, l) {
                let a = choose|a: int|
                    0 <= a < lv.locs.len() && 0 <= child_of(lv, a) < s.len() && has_entry(
                        s,
                        s[#[trigger] child_of(lv, a)],
                        (h1 - 1) as nat,
                        k,
                        l,
                    );
                let g = child_of(lv, a);
                assert(g == child_of(s[child_of(p, i - 1)], a));
                if a == nl - 1 {
                    assert(x2.locs[0] == lv.locs[nl - 1]);
                    assert(has_entry(t, t[child_of(x2, 0)], (h1 - 1) as nat, k, l));
                } else {
                    assert(l2.locs[a] == lv.locs[a]);
                    assert(has_entry(t, t[child_of(l2, a)], (h1 - 1) as nat, k, l));
                }
            }
        }
    }
    assert forall|j: int| 0 <= j < p.locs.len() && j != i && j != i - 1 implies #[trigger] has_entry(
        t,
        t[child_of(p, j)],
        h1,
        k,
        l,
    ) == has_entry(s, s[child_of(p, j)], h1, k, l) by {
        lemma_child_facts(s, sh, c, me, j);
        let cj = child_of(p, j);
        assert(t[cj] == s[cj]);
        if !s[cj].is_leaf {
            if has_entry(t, t[cj], h1, k, l) {
                let a = choose|a: int|
                    0 <= a < s[cj].locs.len() && 0 <= child_of(s[cj], a) < t.len() && has_entry(
                        t,
                        t[#[trigger] child_of(s[cj], a)],
                        (h1 - 1) as nat,
                        k,
                        l,
                    );
                let g = child_of(s[cj], a);
                assert(g == child_of(s[child_of(p, j)], a));
                assert(has_entry(s, s[child_of(s[cj], a)], (h1 - 1) as nat, k, l));
            }
            if has_entry(s, s[cj], h1, k, l) {
                let a = choose|a: int|
                    0 <= a < s[cj].locs.len() && 0 <= child_of(s[cj], a) < s.len() && has_entry(
                        s,
                        s[#[trigger] child_of(s[cj], a)],
                        (h1 - 1) as nat,
                        k,
                        l,
                    );
                let g = child_of(s[cj], a);
                assert(g == child_of(s[child_of(p, j)], a));
                assert(has_entry(t, t[child_of(s[cj], a)], (h1 - 1) as nat, k, l));
            }
        }
    }
    if has_entry(t, p2, hm, k, l) {
        let j = choose|j: int|
            0 <= j < p2.locs.len() && 0 <= child_of(p2, j) < t.len() && has_entry(
                t,
                t[#[trigger] child_of(p2, j)],
                h1,
                k,
                l,
            );
        assert(child_of(p2, j) == child_of(p, j));
        if j == i || j == i - 1 {
            assert(pair_t);
            if has_entry(s, x, h1, k, l) {
                assert(has_entry(s, s[child_of(p, i)], h1, k, l));
            } else {
                assert(has_entry(s, s[child_of(p, i - 1)], h1, k, l));
            }
        } else {
            assert(has_entry(s, s[child_of(p, j)], h1, k, l));
        }
    }
    if has_entry(s, p, hm, k, l) {
        let j = choose|j: int|
            0 <= j < p.locs.len() && 0 <= child_of(p, j) < s.len() && has_entry(
                s,
                s[#[trigger] child_of(p, j)],
                h1,
                k,
                l,
            );
        if j == i || j == i - 1 {
            assert(pair_s);
            if has_entry(t, x2, h1, k, l) {
                assert(child_of(p2, i) == c);
                assert(has_entry(t, t[child_of(p2, i)], h1, k, l));
            } else {
                assert(child_of(p2, i - 1) == lc);
                assert(has_entry(t, t[child_of(p2, i - 1)], h1, k, l));
            }
        } else {
            assert(child_of(p2, j) == child_of(p, j));
            assert(has_entry(t, t[child_of(p2, j)], h1, k, l));
        }
    }
}

/// A short child `i` of page `me` (at height 1 or 2) that takes in all of its
/// right sibling, with `merge_sep` between their keys, leaves the page meeting
/// `fix_order_post`. At height 2 the sibling's first child is a leaf, so the
/// first key of that child is a separator that keeps the order.
#[verifier::rlimit(80)]
#[verifier::spinoff_prover]
pub proof fn lemma_merge_right_order(
    s: Seq<PageView>,
    sh: Shape,
    me: int,
    i: int,
    lo: Option<Seq<u8>>,
    hi: Option<Seq<u8>>,
)
    requires
        sh.live.contains(me),
        !s[me].is_leaf,
        0 <= i,
        i + 1 < s[me].locs.len(),
        tree_ok_relaxed(s, sh, child_of(s[me], i)),
        1 <= (sh.height)(me) <= 2,
        ordered(s, s[me], (sh.height)(me), lo, hi),
    ensures
        ({
            let p = s[me];
            let c = child_of(p, i);
            let r = child_of(p, i + 1);
            let x = s[c];
            let rv = s[r];
            let p2 = PageView { is_leaf: false, keys: p.keys.remove(i), locs: p.locs.remove(i + 1) };
            fix_order_post(
                s,
                me,
                (sh.height)(me),
                lo,
                hi,
                s.update(r, emptied(rv)).update(c, Page::merged(x, merge_sep(s, rv), rv)),
                p2,
            )
        }),
{
    let p = s[me];
    let hm = (sh.height)(me);
    let h1 = (hm - 1) as nat;
    let c = child_of(p, i);
    let r = child_of(p, i + 1);
    lemma_child_facts(s, sh, c, me, i);
    lemma_child_facts(s, sh, c, me, i + 1);
    let x = s[c];
    let rv = s[r];
    assert(node_ok(sh, x, h1));
    assert(node_ok(sh, rv, h1));
    assert(rv.keys.len() >= MIN_KEYS_PER_PAGE);
    let sep = p.keys[i];
    let lo_i = child_lo(p, i, lo);
    let hi_r = child_hi(p, i + 1, hi);
    assert(child_hi(p, i, hi) == Some(sep));
    assert(child_lo(p, i + 1, lo) == Some(sep));
    assert(ordered(s, x, h1, lo_i, Some(sep)));
    assert(ordered(s, rv, h1, Some(sep), hi_r));
    let ms = merge_sep(s, rv);
    let m = Page::merged(x, ms, rv);
    let p2 = PageView { is_leaf: false, keys: p.keys.remove(i), locs: p.locs.remove(i + 1) };
    let s1 = s.update(r, emptied(rv)).update(c, m);
    let t = s1.update(me, p2);
    assert(t[c] == m && t[me] == p2);
    let xk = x.keys.len() as int;
    let xl = x.locs.len() as int;
    assert forall|k: int, kk: int|
        0 <= k < p.locs.len() && !s[child_of(p, k)].is_leaf && 0 <= kk < s[child_of(p, k)].locs.len() implies {
        let g = #[trigger] child_of(s[child_of(p, k)], kk);
        &&& 0 <= g < s.len()
        &&& s[g].is_leaf
        &&& t[g] == s[g]
    } by {
        lemma_child_facts(s, sh, c, me, k);
        lemma_child_facts(s, sh, c, child_of(p, k), kk);
    }
    // The bounds around the separators.
    assert(lo_i is Some ==> key_le(lo_i->0, sep)) by {
        if i > 0 {
            assert(key_lt(p.keys[i - 1], sep));
        } else {
            assert(in_range(sep, lo, hi));
        }
    }
    assert(hi_r is Some ==> key_lt(sep, hi_r->0)) by {
        if i + 1 < p.keys.len() {
            assert(key_lt(sep, p.keys[i + 1]));
        } else {
            assert(in_range(sep, lo, hi));
        }
    }
    assert forall|a: int| 0 <= a < xk implies key_lt(#[trigger] x.keys[a], sep) && in_range(x.keys[a], lo_i, hi_r) by {
        assert(in_range(x.keys[a], lo_i, Some(sep)));
        if hi_r is Some {
            lemma_key_lt_transitive(x.keys[a], sep, hi_r->0);
        }
    }
    assert forall|a: int| 0 <= a < rv.keys.len() implies key_le(sep, #[trigger] rv.keys[a]) && in_range(
        rv.keys[a],
        lo_i,
        hi_r,
    ) by {
        assert(in_range(rv.keys[a], Some(sep), hi_r));
        if lo_i is Some {
            lemma_key_le_transitive(lo_i->0, sep, rv.keys[a]);
        }
    }
    assert(ordered(t, m, h1, lo_i, hi_r)) by {
        if x.is_leaf {
            assert forall|a: int, b: int| 0 <= a < b < m.keys.len() implies key_lt(#[trigger] m.keys[a], #[trigger] m.keys[b]) by {
                if b < xk {
                    assert(m.keys[a] == x.keys[a] && m.keys[b] == x.keys[b]);
                } else if a < xk {
                    assert(m.keys[a] == x.keys[a] && m.keys[b] == rv.keys[b - xk]);
                    lemma_key_le_transitive(x.keys[a], sep, rv.keys[b - xk]);
                } else {
                    assert(m.keys[a] == rv.keys[a - xk] && m.keys[b] == rv.keys[b - xk]);
                }
            }
            assert forall|a: int| 0 <= a < m.keys.len() implies in_range(#[trigger] m.keys[a], lo_i, hi_r) by {
                if a < xk {
                    assert(m.keys[a] == x.keys[a]);
                } else {
                    assert(m.keys[a] == rv.keys[a - xk]);
                }
            }
        } else {
            assert(h1 == 1);
            lemma_child_facts(s, sh, c, r, 0);
            let g0 = child_of(rv, 0);
            assert(g0 == child_of(s[child_of(p, i + 1)], 0));
            assert(s[g0].is_leaf);
            assert(s[g0].keys.len() >= MIN_KEYS_PER_PAGE);
            assert(ordered(s, s[g0], 0, child_lo(rv, 0, Some(sep)), child_hi(rv, 0, hi_r)));
            assert(ms == s[g0].keys[0]);
            assert(in_range(ms, Some(sep), Some(rv.keys[0])));
            assert(in_range(ms, lo_i, hi_r)) by {
                if lo_i is Some {
                    lemma_key_le_transitive(lo_i->0, sep, ms);
                }
                assert(in_range(rv.keys[0], Some(sep), hi_r));
                if hi_r is Some {
                    lemma_key_lt_transitive(ms, rv.keys[0], hi_r->0);
                }
            }
            assert forall|a: int, b: int| 0 <= a < b < m.keys.len() implies key_lt(#[trigger] m.keys[a], #[trigger] m.keys[b]) by {
                if b < xk {
                    assert(m.keys[a] == x.keys[a] && m.keys[b] == x.keys[b]);
                } else if b == xk {
                    assert(m.keys[a] == x.keys[a] && m.keys[b] == ms);
                    lemma_key_le_transitive(x.keys[a], sep, ms);
                } else if a < xk {
                    assert(m.keys[a] == x.keys[a] && m.keys[b] == rv.keys[b - xk - 1]);
                    lemma_key_le_transitive(x.keys[a], sep, rv.keys[b - xk - 1]);
                } else if a == xk {
                    assert(m.keys[a] == ms && m.keys[b] == rv.keys[b - xk - 1]);
                    if b - xk - 1 > 0 {
                        assert(key_lt(rv.keys[0], rv.keys[b - xk - 1]));
                        lemma_key_lt_transitive(ms, rv.keys[0], rv.keys[b - xk - 1]);
                    }
                } else {
                    assert(m.keys[a] == rv.keys[a - xk - 1] && m.keys[b] == rv.keys[b - xk - 1]);
                }
            }
            assert forall|a: int| 0 <= a < m.keys.len() implies in_range(#[trigger] m.keys[a], lo_i, hi_r) by {
                if a < xk {
                    assert(m.keys[a] == x.keys[a]);
                } else if a > xk {
                    assert(m.keys[a] == rv.keys[a - xk - 1]);
                }
            }
            assert forall|k: int| 0 <= k < m.locs.len() implies {
                &&& 0 <= #[trigger] child_of(m, k) < t.len()
                &&& ordered(t, t[child_of(m, k)], 0, child_lo(m, k, lo_i), child_hi(m, k, hi_r))
            } by {
                if k < xl {
                    assert(m.locs[k] == x.locs[k]);
                    let g = child_of(x, k);
                    assert(g == child_of(s[child_of(p, i)], k));
                    assert(child_lo(m, k, lo_i) == child_lo(x, k, lo_i));
                    assert(ordered(s, s[g], 0, child_lo(x, k, lo_i), child_hi(x, k, Some(sep))));
                    if k < xk {
                        assert(child_hi(m, k, hi_r) == child_hi(x, k, Some(sep)));
                    } else {
                        assert(child_hi(m, k, hi_r) == Some(ms));
                        assert(child_hi(x, k, Some(sep)) == Some(sep));
                        assert forall|a: int| 0 <= a < s[g].keys.len() implies in_range(
                            #[trigger] s[g].keys[a],
                            child_lo(m, k, lo_i),
                            Some(ms),
                        ) by {
                            assert(in_range(s[g].keys[a], child_lo(x, k, lo_i), Some(sep)));
                            lemma_key_le_transitive(s[g].keys[a], sep, ms);
                        }
                    }
                } else {
                    let b = k - xl;
                    assert(m.locs[k] == rv.locs[b]);
                    let g = child_of(rv, b);
                    assert(g == child_of(s[child_of(p, i + 1)], b));
                    assert(ordered(s, s[g], 0, child_lo(rv, b, Some(sep)), child_hi(rv, b, hi_r)));
                    assert(child_hi(m, k, hi_r) == child_hi(rv, b, hi_r));
                    if b > 0 {
                        assert(child_lo(m, k, lo_i) == child_lo(rv, b, Some(sep)));
                    } else {
                        assert(g == g0);
                        assert(child_lo(m, k, lo_i) == Some(ms));
                        assert forall|a: int| 0 <= a < s[g].keys.len() implies in_range(
                            #[trigger] s[g].keys[a],
                            Some(ms),
                            child_hi(rv, b, hi_r),
                        ) by {
                            assert(in_range(s[g].keys[a], Some(sep), child_hi(rv, b, hi_r)));
                            if a > 0 {
                                assert(key_lt(s[g].keys[0], s[g].keys[a]));
                            }
                        }
                    }
                }
            }
        }
    }
    assert forall|k: int| 0 <= k < p2.locs.len() implies {
        &&& 0 <= #[trigger] child_of(p2, k) < t.len()
        &&& ordered(t, t[child_of(p2, k)], h1, child_lo(p2, k, lo), child_hi(p2, k, hi))
    } by {
        let k0 = if k <= i { k } else { k + 1 };
        assert(p2.locs[k] == p.locs[k0]);
        assert(child_of(p2, k) == child_of(p, k0));
        lemma_child_facts(s, sh, c, me, k0);
        if k == i {
            assert(child_lo(p2, k, lo) == lo_i);
            assert(child_hi(p2, k, hi) == hi_r);
        } else {
            let ck = child_of(p, k0);
            assert(ck != c && ck != r && ck != me);
            assert(t[ck] == s[ck]);
            assert(child_lo(p2, k, lo) == child_lo(p, k0, lo));
            assert(child_hi(p2, k, hi) == child_hi(p, k0, hi));
            assert(ordered(s, s[ck], h1, child_lo(p, k0, lo), child_hi(p, k0, hi)));
            if !s[ck].is_leaf {
                assert forall|kk: int| 0 <= kk < s[ck].locs.len() implies {
                    &&& 0 <= #[trigger] child_of(s[ck], kk) < t.len()
                    &&& ordered(
                        t,
                        t[child_of(s[ck], kk)],
                        (h1 - 1) as nat,
                        child_lo(s[ck], kk, child_lo(p, k0, lo)),
                        child_hi(s[ck], kk, child_hi(p, k0, hi)),
                    )
                } by {
                    let g = child_of(s[ck], kk);
                    assert(g == child_of(s[child_of(p, k0)], kk));
                    assert(ordered(
                        s,
                        s[g],
                        (h1 - 1) as nat,
                        child_lo(s[ck], kk, child_lo(p, k0, lo)),
                        child_hi(s[ck], kk, child_hi(p, k0, hi)),
                    ));
                }
            }
        }
    }
    assert forall|a: int, b: int| 0 <= a < b < p2.keys.len() implies key_lt(#[trigger] p2.keys[a], #[trigger] p2.keys[b]) by {
        let a0 = if a < i { a } else { a + 1 };
        let b0 = if b < i { b } else { b + 1 };
        assert(p2.keys[a] == p.keys[a0] && p2.keys[b] == p.keys[b0]);
    }
    assert forall|a: int| 0 <= a < p2.keys.len() implies in_range(#[trigger] p2.keys[a], lo, hi) by {
        let a0 = if a < i { a } else { a + 1 };
        assert(p2.keys[a] == p.keys[a0]);
    }
    assert(ordered(t, p2, hm, lo, hi));
    lemma_below_child(s, p, hm, i, c);
    lemma_below_child(s, p, hm, i + 1, r);
    assert forall|j: int| 0 <= j < s.len() && j != me && !below(s, p, hm, j) implies #[trigger] t[j] == s[j] by {}
    assert forall|j: int| #[trigger] below(t, p2, hm, j) implies below(s, p, hm, j) by {
        let k = choose|k: int|
            0 <= k < p2.locs.len() && 0 <= child_of(p2, k) < t.len() && (#[trigger] child_of(p2, k) == j || below(
                t,
                t[child_of(p2, k)],
                h1,
                j,
            ));
        let k0 = if k <= i { k } else { k + 1 };
        assert(p2.locs[k] == p.locs[k0]);
        assert(child_of(p2, k) == child_of(p, k0));
        lemma_child_facts(s, sh, c, me, k0);
        let ck = child_of(p, k0);
        if ck == j {
            lemma_below_child(s, p, hm, k0, j);
        } else {
            let v = t[ck];
            assert(!v.is_leaf && h1 == 1);
            let kk = choose|kk: int|
                0 <= kk < v.locs.len() && 0 <= child_of(v, kk) < t.len() && (#[trigger] child_of(v, kk) == j || below(
                    t,
                    t[child_of(v, kk)],
                    0,
                    j,
                ));
            assert(child_of(v, kk) == j);
            if k == i {
                if kk < xl {
                    assert(v.locs[kk] == x.locs[kk]);
                    assert(child_of(x, kk) == j);
                    assert(below(s, x, h1, j));
                    lemma_below_child(s, p, hm, i, j);
                } else {
                    assert(v.locs[kk] == rv.locs[kk - xl]);
                    assert(child_of(rv, kk - xl) == j);
                    assert(below(s, rv, h1, j));
                    lemma_below_child(s, p, hm, i + 1, j);
                }
            } else {
                assert(v == s[ck]);
                assert(below(s, s[ck], h1, j));
                lemma_below_child(s, p, hm, k0, j);
            }
        }
    }
    assert forall|k: Seq<u8>, l: Location|
        #![trigger has_entry(t, p2, hm, k, l)]
        #![trigger has_entry(s, p, hm, k, l)]
        has_entry(t, p2, hm, k, l) <==> has_entry(s, p, hm, k, l) by {
        lemma_merge_right_entries(s, sh, me, i, k, l);
    }
}

/// Merging a child with its right sibling keeps the entries below the page.
#[verifier::rlimit(60)]
#[verifier::spinoff_prover]
pub proof fn lemma_merge_right_entries(s: Seq<PageView>, sh: Shape, me: int, i: int, k: Seq<u8>, l: Location)
    requires
        sh.live.contains(me),
        !s[me].is_leaf,
        0 <= i,
        i + 1 < s[me].locs.len(),
        tree_ok_relaxed(s, sh, child_of(s[me], i)),
        1 <= (sh.height)(me) <= 2,
    ensures
        ({
            let p = s[me];
            let c = child_of(p, i);
            let r = child_of(p, i + 1);
            let x = s[c];
            let rv = s[r];
            let p2 = PageView { is_leaf: false, keys: p.keys.remove(i), locs: p.locs.remove(i + 1) };
            let t = s.update(r, emptied(rv)).update(c, Page::merged(x, merge_sep(s, rv), rv)).update(me, p2);
            has_entry(t, p2, (sh.height)(me), k, l) <==> has_entry(s, p, (sh.height)(me), k, l)
        }),
{
    let p = s[me];
    let hm = (sh.height)(me);
    let h1 = (hm - 1) as nat;
    let c = child_of(p, i);
    let r = child_of(p, i + 1);
    lemma_child_facts(s, sh, c, me, i);
    lemma_child_facts(s, sh, c, me, i + 1);
    let x = s[c];
    let rv = s[r];
    assert(node_ok(sh, x, h1));
    assert(node_ok(sh, rv, h1));
    let m = Page::merged(x, merge_sep(s, rv), rv);
    let p2 = PageView { is_leaf: false, keys: p.keys.remove(i), locs: p.locs.remove(i + 1) };
    let t = s.update(r, emptied(rv)).update(c, m).update(me, p2);
    assert(t[c] == m);
    let xk = x.keys.len() as int;
    let xl = x.locs.len() as int;
    assert forall|kx: int, kk: int|
        0 <= kx < p.locs.len() && !s[child_of(p, kx)].is_leaf && 0 <= kk < s[child_of(p, kx)].locs.len() implies {
        let g = #[trigger] child_of(s[child_of(p, kx)], kk);
        &&& 0 <= g < s.len()
        &&& s[g].is_leaf
        &&& t[g] == s[g]
    } by {
        lemma_child_facts(s, sh, c, me, kx);
        lemma_child_facts(s, sh, c, child_of(p, kx), kk);
    }
    let pair_s = has_entry(s, x, h1, k, l) || has_entry(s, rv, h1, k, l);
    assert(has_entry(t, m, h1, k, l) <==> pair_s) by {
        if x.is_leaf {
            if has_entry(t, m, h1, k, l) {
                let a = choose|a: int| 0 <= a < m.keys.len() && m.keys[a] == k && m.locs[a] == l;
                if a < xk {
                    assert(x.keys[a] == k && x.locs[a] == l);
                } else {
                    assert(rv.keys[a - xk] == k && rv.locs[a - xk] == l);
                }
            }
            if has_entry(s, x, h1, k, l) {
                let a = choose|a: int| 0 <= a < x.keys.len() && x.keys[a] == k && x.locs[a] == l;
                assert(m.keys[a] == k && m.locs[a] == l);
            }
            if has_entry(s, rv, h1, k, l) {
                let a = choose|a: int| 0 <= a < rv.keys.len() && rv.keys[a] == k && rv.locs[a] == l;
                assert(m.keys[a + xk] == k && m.locs[a + xk] == l);
            }
        } else {
            assert(h1 == 1);
            if has_entry(t, m, h1, k, l) {
                let a = choose|a: int|
                    0 <= a < m.locs.len() && 0 <= child_of(m, a) < t.len() && has_entry(
                        t,
                        t[#[trigger] child_of(m, a)],
                        0,
                        k,
                        l,
                    );
                if a < xl {
                    assert(m.locs[a] == x.locs[a]);
                    let g = child_of(x, a);
                    assert(g == child_of(s[child_of(p, i)], a));
                    assert(has_entry(s, s[child_of(x, a)], 0, k, l));
                } else {
                    assert(m.locs[a] == rv.locs[a - xl]);
                    let g = child_of(rv, a - xl);
                    assert(g == child_of(s[child_of(p, i + 1)], a - xl));
                    assert(has_entry(s, s[child_of(rv, a - xl)], 0, k, l));
                }
            }
            if has_entry(s, x, h1, k, l) {
                let a = choose|a: int|
                    0 <= a < x.locs.len() && 0 <= child_of(x, a) < s.len() && has_entry(
                        s,
                        s[#[trigger] child_of(x, a)],
                        0,
                        k,
                        l,
                    );
                assert(m.locs[a] == x.locs[a]);
                let g = child_of(x, a);
                assert(g == child_of(s[child_of(p, i)], a));
                assert(has_entry(t, t[child_of(m, a)], 0, k, l));
            }
            if has_entry(s, rv, h1, k, l) {
                let a = choose|a: int|
                    0 <= a < rv.locs.len() && 0 <= child_of(rv, a) < s.len() && has_entry(
                        s,
                        s[#[trigger] child_of(rv, a)],
                        0,
                        k,
                        l,
                    );
                assert(m.locs[a + xl] == rv.locs[a]);
                let g = child_of(rv, a);
                assert(g == child_of(s[child_of(p, i + 1)], a));
                assert(has_entry(t, t[child_of(m, a + xl)], 0, k, l));
            }
        }
    }
    assert forall|j: int| 0 <= j < p.locs.len() && j != i && j != i + 1 implies #[trigger] has_entry(
        t,
        t[child_of(p, j)],
        h1,
        k,
        l,
    ) == has_entry(s, s[child_of(p, j)], h1, k, l) by {
        lemma_child_facts(s, sh, c, me, j);
        let cj = child_of(p, j);
        assert(t[cj] == s[cj]);
        if !s[cj].is_leaf {
            assert(h1 == 1);
            if has_entry(t, t[cj], h1, k, l) {
                let a = choose|a: int|
                    0 <= a < s[cj].locs.len() && 0 <= child_of(s[cj], a) < t.len() && has_entry(
                        t,
                        t[#[trigger] child_of(s[cj], a)],
                        0,
                        k,
                        l,
                    );
                let g = child_of(s[cj], a);
                assert(g == child_of(s[child_of(p, j)], a));
                assert(has_entry(s, s[child_of(s[cj], a)], (h1 - 1) as nat, k, l));
            }
            if has_entry(s, s[cj], h1, k, l) {
                let a = choose|a: int|
                    0 <= a < s[cj].locs.len() && 0 <= child_of(s[cj], a) < s.len() && has_entry(
                        s,
                        s[#[trigger] child_of(s[cj], a)],
                        0,
                        k,
                        l,
                    );
                let g = child_of(s[cj], a);
                assert(g == child_of(s[child_of(p, j)], a));
                assert(has_entry(t, t[child_of(s[cj], a)], (h1 - 1) as nat, k, l));
            }
        }
    }
    if has_entry(t, p2, hm, k, l) {
        let j = choose|j: int|
            0 <= j < p2.locs.len() && 0 <= child_of(p2, j) < t.len() && has_entry(
                t,
                t[#[trigger] child_of(p2, j)],
                h1,
                k,
                l,
            );
        let j0 = if j <= i { j } else { j + 1 };
        assert(p2.locs[j] == p.locs[j0]);
        assert(child_of(p2, j) == child_of(p, j0));
        if j == i {
            assert(pair_s);
            if has_entry(s, x, h1, k, l) {
                assert(has_entry(s, s[child_of(p, i)], h1, k, l));
            } else {
                assert(has_entry(s, s[child_of(p, i + 1)], h1, k, l));
            }
        } else {
            assert(has_entry(s, s[child_of(p, j0)], h1, k, l));
        }
    }
    if has_entry(s, p, hm, k, l) {
        let j = choose|j: int|
            0 <= j < p.locs.len() && 0 <= child_of(p, j) < s.len() && has_entry(
                s,
                s[#[trigger] child_of(p, j)],
                h1,
                k,
                l,
            );
        if j == i || j == i + 1 {
            assert(pair_s);
            assert(p2.locs[i] == p.locs[i]);
            assert(child_of(p2, i) == c);
            assert(has_entry(t, t[child_of(p2, i)], h1, k, l));
        } else {
            let j2 = if j < i { j } else { j - 1 };
            assert(p2.locs[j2] == p.locs[j]);
            assert(child_of(p2, j2) == child_of(p, j));
            assert(has_entry(t, t[child_of(p2, j2)], h1, k, l));
        }
    }
}

/// A short last child of page `me` that its left sibling
/// takes in, with the last separator between their keys, leaves the page
/// meeting `fix_order_post`.
#[verifier::rlimit(80)]
#[verifier::spinoff_prover]
pub proof fn lemma_merge_left_order(
    s: Seq<PageView>,
    sh: Shape,
    me: int,
    lo: Option<Seq<u8>>,
    hi: Option<Seq<u8>>,
)
    requires
        sh.live.contains(me),
        !s[me].is_leaf,
        s[me].locs.len() >= 2,
        tree_ok_relaxed(s, sh, child_of(s[me], s[me].locs.len() - 1)),
        1 <= (sh.height)(me),
        ordered(s, s[me], (sh.height)(me), lo, hi),
    ensures
        ({
            let p = s[me];
            let i = p.locs.len() - 1;
            let c = child_of(p, i);
            let lc = child_of(p, i - 1);
            let x = s[c];
            let lv = s[lc];
            fix_order_post(
                s,
                me,
                (sh.height)(me),
                lo,
                hi,
                s.update(lc, Page::merged(lv, p.keys.last(), x)).update(c, emptied(x)),
                without_last(p),
            )
        }),
{
    let p = s[me];
    let hm = (sh.height)(me);
    let h1 = (hm - 1) as nat;
    let i = p.locs.len() - 1;
    let c = child_of(p, i);
    let lc = child_of(p, i - 1);
    lemma_child_facts(s, sh, c, me, i);
    lemma_child_facts(s, sh, c, me, i - 1);
    let x = s[c];
    let lv = s[lc];
    assert(node_ok(sh, x, h1));
    assert(node_ok(sh, lv, h1));
    let sep = p.keys[i - 1];
    assert(p.keys.last() == sep);
    let lo_l = child_lo(p, i - 1, lo);
    assert(child_hi(p, i - 1, hi) == Some(sep));
    assert(child_lo(p, i, lo) == Some(sep));
    assert(child_hi(p, i, hi) == hi);
    assert(ordered(s, x, h1, Some(sep), hi));
    assert(ordered(s, lv, h1, lo_l, Some(sep)));
    let m = Page::merged(lv, sep, x);
    let p2 = without_last(p);
    let s1 = s.update(lc, m).update(c, emptied(x));
    let t = s1.update(me, p2);
    assert(t[lc] == m && t[me] == p2);
    let lk = lv.keys.len() as int;
    let ll = lv.locs.len() as int;
    assert forall|j: int| 0 <= j < s.len() && !(sh.live.contains(j) && (sh.height)(j) + 1 >= hm) implies #[trigger] t[j]
        == s[j] by {}
    assert forall|k: int, kk: int|
        0 <= k < p.locs.len() && !s[child_of(p, k)].is_leaf && 0 <= kk < s[child_of(p, k)].locs.len() implies {
        let g = #[trigger] child_of(s[child_of(p, k)], kk);
        &&& 0 <= g < s.len()
        &&& (sh.height)(g) == (h1 - 1) as nat
        &&& t[g] == s[g]
        &&& agree_below(s, t, s[g], (h1 - 1) as nat)
        &&& forall|j: int| #[trigger] below(t, s[g], (h1 - 1) as nat, j) <==> below(s, s[g], (h1 - 1) as nat, j)
        &&& forall|k2: Seq<u8>, l2: Location| #[trigger] has_entry(t, s[g], (h1 - 1) as nat, k2, l2) <==> has_entry(
            s,
            s[g],
            (h1 - 1) as nat,
            k2,
            l2,
        )
    } by {
        lemma_child_facts(s, sh, c, me, k);
        lemma_grandchild_kept(s, sh, c, me, k, kk, t);
    }
    assert(lo_l is Some ==> key_le(lo_l->0, sep)) by {
        if i - 1 > 0 {
            assert(key_lt(p.keys[i - 2], sep));
        } else {
            assert(in_range(sep, lo, hi));
        }
    }
    assert forall|a: int| 0 <= a < lk implies key_lt(#[trigger] lv.keys[a], sep) && in_range(lv.keys[a], lo_l, hi) by {
        assert(in_range(lv.keys[a], lo_l, Some(sep)));
        if hi is Some {
            assert(in_range(sep, lo, hi));
            lemma_key_lt_transitive(lv.keys[a], sep, hi->0);
        }
    }
    assert forall|a: int| 0 <= a < x.keys.len() implies key_le(sep, #[trigger] x.keys[a]) && in_range(
        x.keys[a],
        lo_l,
        hi,
    ) by {
        assert(in_range(x.keys[a], Some(sep), hi));
        if lo_l is Some {
            lemma_key_le_transitive(lo_l->0, sep, x.keys[a]);
        }
    }
    assert(in_range(sep, lo_l, hi)) by {
        assert(in_range(sep, lo, hi));
    }
    assert(ordered(t, m, h1, lo_l, hi)) by {
        if x.is_leaf {
            assert forall|a: int, b: int| 0 <= a < b < m.keys.len() implies key_lt(#[trigger] m.keys[a], #[trigger] m.keys[b]) by {
                if b < lk {
                    assert(m.keys[a] == lv.keys[a] && m.keys[b] == lv.keys[b]);
                } else if a < lk {
                    assert(m.keys[a] == lv.keys[a] && m.keys[b] == x.keys[b - lk]);
                    lemma_key_le_transitive(lv.keys[a], sep, x.keys[b - lk]);
                } else {
                    assert(m.keys[a] == x.keys[a - lk] && m.keys[b] == x.keys[b - lk]);
                }
            }
            assert forall|a: int| 0 <= a < m.keys.len() implies in_range(#[trigger] m.keys[a], lo_l, hi) by {
                if a < lk {
                    assert(m.keys[a] == lv.keys[a]);
                } else {
                    assert(m.keys[a] == x.keys[a - lk]);
                }
            }
        } else {
            // The short child's first key lies strictly above the separator, as its first child is not empty.
            assert(x.keys.len() > 0 ==> key_lt(sep, x.keys[0])) by {
                if x.keys.len() > 0 {
                    lemma_child_facts(s, sh, c, c, 0);
                    let g = child_of(x, 0);
                    assert(s[g].keys.len() >= MIN_KEYS_PER_PAGE);
                    assert(ordered(s, s[g], (h1 - 1) as nat, child_lo(x, 0, Some(sep)), child_hi(x, 0, hi)));
                    assert(in_range(s[g].keys[0], Some(sep), Some(x.keys[0])));
                    lemma_key_le_transitive(sep, s[g].keys[0], x.keys[0]);
                }
            }
            assert forall|a: int, b: int| 0 <= a < b < m.keys.len() implies key_lt(#[trigger] m.keys[a], #[trigger] m.keys[b]) by {
                if b < lk {
                    assert(m.keys[a] == lv.keys[a] && m.keys[b] == lv.keys[b]);
                } else if b == lk {
                    assert(m.keys[a] == lv.keys[a] && m.keys[b] == sep);
                } else if a < lk {
                    assert(m.keys[a] == lv.keys[a] && m.keys[b] == x.keys[b - lk - 1]);
                    lemma_key_le_transitive(lv.keys[a], sep, x.keys[b - lk - 1]);
                } else if a == lk {
                    assert(m.keys[a] == sep && m.keys[b] == x.keys[b - lk - 1]);
                    if b - lk - 1 > 0 {
                        assert(key_lt(x.keys[0], x.keys[b - lk - 1]));
                        lemma_key_lt_transitive(sep, x.keys[0], x.keys[b - lk - 1]);
                    }
                } else {
                    assert(m.keys[a] == x.keys[a - lk - 1] && m.keys[b] == x.keys[b - lk - 1]);
                }
            }
            assert forall|a: int| 0 <= a < m.keys.len() implies in_range(#[trigger] m.keys[a], lo_l, hi) by {
                if a < lk {
                    assert(m.keys[a] == lv.keys[a]);
                } else if a > lk {
                    assert(m.keys[a] == x.keys[a - lk - 1]);
                }
            }
            assert forall|k: int| 0 <= k < m.locs.len() implies {
                &&& 0 <= #[trigger] child_of(m, k) < t.len()
                &&& ordered(t, t[child_of(m, k)], (h1 - 1) as nat, child_lo(m, k, lo_l), child_hi(m, k, hi))
            } by {
                if k < ll {
                    assert(m.locs[k] == lv.locs[k]);
                    let g = child_of(lv, k);
                    assert(g == child_of(s[child_of(p, i - 1)], k));
                    assert(child_lo(m, k, lo_l) == child_lo(lv, k, lo_l));
                    assert(child_hi(m, k, hi) == child_hi(lv, k, Some(sep)));
                    assert(ordered(s, s[g], (h1 - 1) as nat, child_lo(lv, k, lo_l), child_hi(lv, k, Some(sep))));
                    lemma_frame_ordered(s, t, s[g], (h1 - 1) as nat, child_lo(lv, k, lo_l), child_hi(lv, k, Some(sep)));
                } else {
                    let b = k - ll;
                    assert(m.locs[k] == x.locs[b]);
                    let g = child_of(x, b);
                    assert(g == child_of(s[child_of(p, i)], b));
                    assert(child_lo(m, k, lo_l) == child_lo(x, b, Some(sep)));
                    assert(child_hi(m, k, hi) == child_hi(x, b, hi));
                    assert(ordered(s, s[g], (h1 - 1) as nat, child_lo(x, b, Some(sep)), child_hi(x, b, hi)));
                    lemma_frame_ordered(s, t, s[g], (h1 - 1) as nat, child_lo(x, b, Some(sep)), child_hi(x, b, hi));
                }
            }
        }
    }
    assert forall|k: int| 0 <= k < p2.locs.len() implies {
        &&& 0 <= #[trigger] child_of(p2, k) < t.len()
        &&& ordered(t, t[child_of(p2, k)], h1, child_lo(p2, k, lo), child_hi(p2, k, hi))
    } by {
        assert(p2.locs[k] == p.locs[k]);
        assert(child_of(p2, k) == child_of(p, k));
        lemma_child_facts(s, sh, c, me, k);
        if k == i - 1 {
            assert(child_lo(p2, k, lo) == lo_l);
            assert(child_hi(p2, k, hi) == hi);
        } else {
            let ck = child_of(p, k);
            assert(ck != c && ck != lc && ck != me);
            assert(t[ck] == s[ck]);
            assert(child_lo(p2, k, lo) == child_lo(p, k, lo));
            assert(child_hi(p2, k, hi) == child_hi(p, k, hi));
            assert(ordered(s, s[ck], h1, child_lo(p, k, lo), child_hi(p, k, hi)));
            if !s[ck].is_leaf {
                assert forall|kk: int| 0 <= kk < s[ck].locs.len() implies {
                    &&& 0 <= #[trigger] child_of(s[ck], kk) < t.len()
                    &&& ordered(
                        t,
                        t[child_of(s[ck], kk)],
                        (h1 - 1) as nat,
                        child_lo(s[ck], kk, child_lo(p, k, lo)),
                        child_hi(s[ck], kk, child_hi(p, k, hi)),
                    )
                } by {
                    let g = child_of(s[ck], kk);
                    assert(g == child_of(s[child_of(p, k)], kk));
                    assert(ordered(
                        s,
                        s[g],
                        (h1 - 1) as nat,
                        child_lo(s[ck], kk, child_lo(p, k, lo)),
                        child_hi(s[ck], kk, child_hi(p, k, hi)),
                    ));
                    lemma_frame_ordered(s, t, s[g], (h1 - 1) as nat, child_lo(s[ck], kk, child_lo(p, k, lo)), child_hi(s[ck], kk, child_hi(p, k, hi)));
                }
            }
        }
    }
    assert forall|a: int, b: int| 0 <= a < b < p2.keys.len() implies key_lt(#[trigger] p2.keys[a], #[trigger] p2.keys[b]) by {
        assert(p2.keys[a] == p.keys[a] && p2.keys[b] == p.keys[b]);
    }
    assert forall|a: int| 0 <= a < p2.keys.len() implies in_range(#[trigger] p2.keys[a], lo, hi) by {
        assert(p2.keys[a] == p.keys[a]);
    }
    assert(ordered(t, p2, hm, lo, hi));
    lemma_below_child(s, p, hm, i, c);
    lemma_below_child(s, p, hm, i - 1, lc);
    assert forall|j: int| 0 <= j < s.len() && j != me && !below(s, p, hm, j) implies #[trigger] t[j] == s[j] by {}
    assert forall|j: int| #[trigger] below(t, p2, hm, j) implies below(s, p, hm, j) by {
        let k = choose|k: int|
            0 <= k < p2.locs.len() && 0 <= child_of(p2, k) < t.len() && (#[trigger] child_of(p2, k) == j || below(
                t,
                t[child_of(p2, k)],
                h1,
                j,
            ));
        assert(p2.locs[k] == p.locs[k]);
        assert(child_of(p2, k) == child_of(p, k));
        lemma_child_facts(s, sh, c, me, k);
        let ck = child_of(p, k);
        if ck == j {
            lemma_below_child(s, p, hm, k, j);
        } else {
            let v = t[ck];
            assert(!v.is_leaf);
            let kk = choose|kk: int|
                0 <= kk < v.locs.len() && 0 <= child_of(v, kk) < t.len() && (#[trigger] child_of(v, kk) == j || below(
                    t,
                    t[child_of(v, kk)],
                    (h1 - 1) as nat,
                    j,
                ));
            if k == i - 1 {
                if kk < ll {
                    assert(v.locs[kk] == lv.locs[kk]);
                    assert(child_of(lv, kk) == child_of(v, kk));
                    assert(below(s, lv, h1, j));
                    lemma_below_child(s, p, hm, i - 1, j);
                } else {
                    assert(v.locs[kk] == x.locs[kk - ll]);
                    assert(child_of(x, kk - ll) == child_of(v, kk));
                    assert(below(s, x, h1, j));
                    lemma_below_child(s, p, hm, i, j);
                }
            } else {
                assert(v == s[ck]);
                assert(below(s, s[ck], h1, j));
                lemma_below_child(s, p, hm, k, j);
            }
        }
    }
    assert forall|k: Seq<u8>, l: Location|
        #![trigger has_entry(t, p2, hm, k, l)]
        #![trigger has_entry(s, p, hm, k, l)]
        has_entry(t, p2, hm, k, l) <==> has_entry(s, p, hm, k, l) by {
        lemma_merge_left_entries(s, sh, me, k, l);
    }
}

/// Merging the last child into its left sibling keeps the entries below the
/// page.
#[verifier::rlimit(60)]
#[verifier::spinoff_prover]
pub proof fn lemma_merge_left_entries(s: Seq<PageView>, sh: Shape, me: int, k: Seq<u8>, l: Location)
    requires
        sh.live.contains(me),
        !s[me].is_leaf,
        s[me].locs.len() >= 2,
        tree_ok_relaxed(s, sh, child_of(s[me], s[me].locs.len() - 1)),
        1 <= (sh.height)(me),
    ensures
        ({
            let p = s[me];
            let i = p.locs.len() - 1;
            let c = child_of(p, i);
            let lc = child_of(p, i - 1);
            let x = s[c];
            let lv = s[lc];
            let t = s.update(lc, Page::merged(lv, p.keys.last(), x)).update(c, emptied(x)).update(me, without_last(p));
            has_entry(t, without_last(p), (sh.height)(me), k, l) <==> has_entry(s, p, (sh.height)(me), k, l)
        }),
{
    let p = s[me];
    let hm = (sh.height)(me);
    let h1 = (hm - 1) as nat;
    let i = p.locs.len() - 1;
    let c = child_of(p, i);
    let lc = child_of(p, i - 1);
    lemma_child_facts(s, sh, c, me, i);
    lemma_child_facts(s, sh, c, me, i - 1);
    let x = s[c];
    let lv = s[lc];
    assert(node_ok(sh, x, h1));
    assert(node_ok(sh, lv, h1));
    let m = Page::merged(lv, p.keys.last(), x);
    let p2 = without_last(p);
    let t = s.update(lc, m).update(c, emptied(x)).update(me, p2);
    assert(t[lc] == m);
    let lk = lv.keys.len() as int;
    let ll = lv.locs.len() as int;
    assert forall|j: int| 0 <= j < s.len() && !(sh.live.contains(j) && (sh.height)(j) + 1 >= hm) implies #[trigger] t[j]
        == s[j] by {}
    assert forall|kx: int, kk: int|
        0 <= kx < p.locs.len() && !s[child_of(p, kx)].is_leaf && 0 <= kk < s[child_of(p, kx)].locs.len() implies {
        let g = #[trigger] child_of(s[child_of(p, kx)], kk);
        &&& 0 <= g < s.len()
        &&& (sh.height)(g) == (h1 - 1) as nat
        &&& t[g] == s[g]
        &&& agree_below(s, t, s[g], (h1 - 1) as nat)
        &&& forall|j: int| #[trigger] below(t, s[g], (h1 - 1) as nat, j) <==> below(s, s[g], (h1 - 1) as nat, j)
        &&& forall|k2: Seq<u8>, l2: Location| #[trigger] has_entry(t, s[g], (h1 - 1) as nat, k2, l2) <==> has_entry(
            s,
            s[g],
            (h1 - 1) as nat,
            k2,
            l2,
        )
    } by {
        lemma_child_facts(s, sh, c, me, kx);
        lemma_grandchild_kept(s, sh, c, me, kx, kk, t);
    }
    let pair_s = has_entry(s, lv, h1, k, l) || has_entry(s, x, h1, k, l);
    assert(has_entry(t, m, h1, k, l) <==> pair_s) by {
        if x.is_leaf {
            if has_entry(t, m, h1, k, l) {
                let a = choose|a: int| 0 <= a < m.keys.len() && m.keys[a] == k && m.locs[a] == l;
                if a < lk {
                    assert(lv.keys[a] == k && lv.locs[a] == l);
                } else {
                    assert(x.keys[a - lk] == k && x.locs[a - lk] == l);
                }
            }
            if has_entry(s, lv, h1, k, l) {
                let a = choose|a: int| 0 <= a < lv.keys.len() && lv.keys[a] == k && lv.locs[a] == l;
                assert(m.keys[a] == k && m.locs[a] == l);
            }
            if has_entry(s, x, h1, k, l) {
                let a = choose|a: int| 0 <= a < x.keys.len() && x.keys[a] == k && x.locs[a] == l;
                assert(m.keys[a + lk] == k && m.locs[a + lk] == l);
            }
        } else {
            if has_entry(t, m, h1, k, l) {
                let a = choose|a: int|
                    0 <= a < m.locs.len() && 0 <= child_of(m, a) < t.len() && has_entry(
                        t,
                        t[#[trigger] child_of(m, a)],
                        (h1 - 1) as nat,
                        k,
                        l,
                    );
                if a < ll {
                    assert(m.locs[a] == lv.locs[a]);
                    let g = child_of(lv, a);
                    assert(g == child_of(s[child_of(p, i - 1)], a));
                    assert(has_entry(s, s[child_of(lv, a)], (h1 - 1) as nat, k, l));
                } else {
                    assert(m.locs[a] == x.locs[a - ll]);
                    let g = child_of(x, a - ll);
                    assert(g == child_of(s[child_of(p, i)], a - ll));
                    assert(has_entry(s, s[child_of(x, a - ll)], (h1 - 1) as nat, k, l));
                }
            }
            if has_entry(s, lv, h1, k, l) {
                let a = choose|a: int|
                    0 <= a < lv.locs.len() && 0 <= child_of(lv, a) < s.len() && has_entry(
                        s,
                        s[#[trigger] child_of(lv, a)],
                        (h1 - 1) as nat,
                        k,
                        l,
                    );
                assert(m.locs[a] == lv.locs[a]);
                let g = child_of(lv, a);
                assert(g == child_of(s[child_of(p, i - 1)], a));
                assert(has_entry(t, t[child_of(m, a)], (h1 - 1) as nat, k, l));
            }
            if has_entry(s, x, h1, k, l) {
                let a = choose|a: int|
                    0 <= a < x.locs.len() && 0 <= child_of(x, a) < s.len() && has_entry(
                        s,
                        s[#[trigger] child_of(x, a)],
                        (h1 - 1) as nat,
                        k,
                        l,
                    );
                assert(m.locs[a + ll] == x.locs[a]);
                let g = child_of(x, a);
                assert(g == child_of(s[child_of(p, i)], a));
                assert(has_entry(t, t[child_of(m, a + ll)], (h1 - 1) as nat, k, l));
            }
        }
    }
    assert forall|j: int| 0 <= j < p.locs.len() && j != i && j != i - 1 implies #[trigger] has_entry(
        t,
        t[child_of(p, j)],
        h1,
        k,
        l,
    ) == has_entry(s, s[child_of(p, j)], h1, k, l) by {
        lemma_child_facts(s, sh, c, me, j);
        let cj = child_of(p, j);
        assert(t[cj] == s[cj]);
        if !s[cj].is_leaf {
            if has_entry(t, t[cj], h1, k, l) {
                let a = choose|a: int|
                    0 <= a < s[cj].locs.len() && 0 <= child_of(s[cj], a) < t.len() && has_entry(
                        t,
                        t[#[trigger] child_of(s[cj], a)],
                        (h1 - 1) as nat,
                        k,
                        l,
                    );
                let g = child_of(s[cj], a);
                assert(g == child_of(s[child_of(p, j)], a));
                assert(has_entry(s, s[child_of(s[cj], a)], (h1 - 1) as nat, k, l));
            }
            if has_entry(s, s[cj], h1, k, l) {
                let a = choose|a: int|
                    0 <= a < s[cj].locs.len() && 0 <= child_of(s[cj], a) < s.len() && has_entry(
                        s,
                        s[#[trigger] child_of(s[cj], a)],
                        (h1 - 1) as nat,
                        k,
                        l,
                    );
                let g = child_of(s[cj], a);
                assert(g == child_of(s[child_of(p, j)], a));
                assert(has_entry(t, t[child_of(s[cj], a)], (h1 - 1) as nat, k, l));
            }
        }
    }
    if has_entry(t, p2, hm, k, l) {
        let j = choose|j: int|
            0 <= j < p2.locs.len() && 0 <= child_of(p2, j) < t.len() && has_entry(
                t,
                t[#[trigger] child_of(p2, j)],
                h1,
                k,
                l,
            );
        assert(p2.locs[j] == p.locs[j]);
        assert(child_of(p2, j) == child_of(p, j));
        if j == i - 1 {
            assert(pair_s);
            if has_entry(s, lv, h1, k, l) {
                assert(has_entry(s, s[child_of(p, i - 1)], h1, k, l));
            } else {
                assert(has_entry(s, s[child_of(p, i)], h1, k, l));
            }
        } else {
            assert(has_entry(s, s[child_of(p, j)], h1, k, l));
        }
    }
    if has_entry(s, p, hm, k, l) {
        let j = choose|j: int|
            0 <= j < p.locs.len() && 0 <= child_of(p, j) < s.len() && has_entry(
                s,
                s[#[trigger] child_of(p, j)],
                h1,
                k,
                l,
            );
        if j == i || j == i - 1 {
            assert(pair_s);
            assert(p2.locs[i - 1] == p.locs[i - 1]);
            assert(child_of(p2, i - 1) == lc);
            assert(has_entry(t, t[child_of(p2, i - 1)], h1, k, l));
        } else {
            assert(p2.locs[j] == p.locs[j]);
            assert(child_of(p2, j) == child_of(p, j));
            assert(has_entry(t, t[child_of(p2, j)], h1, k, l));
        }
    }
}

/// `lemma_merge_right_order` for a page of any height whose merge puts a
/// separator from the right level.
pub proof fn lemma_merge_right_sep_order(
    s: Seq<PageView>,
    sh: Shape,
    me: int,
    i: int,
    lo: Option<Seq<u8>>,
    hi: Option<Seq<u8>>,
)
    requires
        sh.live.contains(me),
        !s[me].is_leaf,
        0 <= i,
        i + 1 < s[me].locs.len(),
        tree_ok_relaxed(s, sh, child_of(s[me], i)),
        merge_sep_ok(s, s[me], i),
        ordered(s, s[me], (sh.height)(me), lo, hi),
    ensures
        ({
            let p = s[me];
            let c = child_of(p, i);
            let r = child_of(p, i + 1);
            let x = s[c];
            let rv = s[r];
            let p2 = PageView { is_leaf: false, keys: p.keys.remove(i), locs: p.locs.remove(i + 1) };
            fix_order_post(
                s,
                me,
                (sh.height)(me),
                lo,
                hi,
                s.update(r, emptied(rv)).update(c, Page::merged(x, merge_sep(s, rv), rv)),
                p2,
            )
        }),
{
    let p = s[me];
    let c = child_of(p, i);
    let r = child_of(p, i + 1);
    lemma_child_facts(s, sh, c, me, i + 1);
    let rv = s[r];
    assert(node_ok(sh, rv, (sh.height)(r)));
    if !rv.is_leaf {
        lemma_child_facts(s, sh, c, r, 0);
    }
    lemma_merge_right_order(s, sh, me, i, lo, hi);
}

} // verus!
