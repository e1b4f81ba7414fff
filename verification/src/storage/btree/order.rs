//! The key order an index keeps: keys sorted strictly within each page, every
//! key of a child between the separators around it, and what that order
//! makes of a lookup.

use crate::common::key_order::{
    first_match, key_le, key_lt, lemma_first_match, lemma_key_le_transitive, lemma_key_lt_asymmetric,
    lemma_key_lt_irreflexive, lemma_key_lt_transitive, lemma_prefix_le_len, prefix_le_len,
};
use crate::storage::btree::leaf_page::Leaf;
use crate::storage::btree::location::Location;
use crate::storage::btree::page::PageView;
use crate::storage::btree::shape::{child_of, lemma_child_facts, lemma_relax, lookup, tree_ok, with_child, Shape};
use vstd::prelude::*;

verus! {

/// `k` lies in `[lo, hi)`, a missing bound standing for no bound.
pub open spec fn in_range(k: Seq<u8>, lo: Option<Seq<u8>>, hi: Option<Seq<u8>>) -> bool {
    &&& (lo matches Some(l) ==> key_le(l, k))
    &&& (hi matches Some(h) ==> key_lt(k, h))
}

/// The keys `ks` are strictly increasing and lie in `[lo, hi)`.
pub open spec fn keys_ok(ks: Seq<Seq<u8>>, lo: Option<Seq<u8>>, hi: Option<Seq<u8>>) -> bool {
    &&& forall|i: int, j: int| 0 <= i < j < ks.len() ==> key_lt(#[trigger] ks[i], #[trigger] ks[j])
    &&& forall|i: int| 0 <= i < ks.len() ==> in_range(#[trigger] ks[i], lo, hi)
}

/// Lower bound of child `k` of internal page `v`, whose own lower bound is
/// `lo`: the separator before it.
pub open spec fn child_lo(v: PageView, k: int, lo: Option<Seq<u8>>) -> Option<Seq<u8>> {
    if k == 0 {
        lo
    } else {
        Some(v.keys[k - 1])
    }
}

/// Upper bound of child `k` of internal page `v`, whose own upper bound is
/// `hi`: the separator after it.
pub open spec fn child_hi(v: PageView, k: int, hi: Option<Seq<u8>>) -> Option<Seq<u8>> {
    if k == v.keys.len() {
        hi
    } else {
        Some(v.keys[k])
    }
}

/// Page `v` of height `h` and the pages below it keep the key order within
/// `[lo, hi)`: keys strictly increasing in every page, each between the
/// bounds that its parent's separators set.
pub open spec fn ordered(s: Seq<PageView>, v: PageView, h: nat, lo: Option<Seq<u8>>, hi: Option<Seq<u8>>) -> bool
    decreases h,
{
    &&& keys_ok(v.keys, lo, hi)
    &&& if v.is_leaf {
        v.keys.len() == v.locs.len()
    } else {
        &&& h > 0
        &&& v.locs.len() == v.keys.len() + 1
        &&& forall|k: int|
            0 <= k < v.locs.len() ==> {
                &&& 0 <= #[trigger] child_of(v, k) < s.len()
                &&& ordered(s, s[child_of(v, k)], (h - 1) as nat, child_lo(v, k, lo), child_hi(v, k, hi))
            }
    }
}

/// Some leaf at or below page `v` (of height `h`) holds key `k` with location
/// `l`.
pub open spec fn has_entry(s: Seq<PageView>, v: PageView, h: nat, k: Seq<u8>, l: Location) -> bool
    decreases h,
{
    if v.is_leaf {
        exists|i: int| 0 <= i < v.keys.len() && v.keys[i] == k && v.locs[i] == l
    } else if h == 0 {
        false
    } else {
        exists|j: int|
            0 <= j < v.locs.len() && 0 <= child_of(v, j) < s.len() && has_entry(
                s,
                s[#[trigger] child_of(v, j)],
                (h - 1) as nat,
                k,
                l,
            )
    }
}

/// Some leaf at or below page `v` holds key `k`.
pub open spec fn has_key(s: Seq<PageView>, v: PageView, h: nat, k: Seq<u8>) -> bool {
    exists|l: Location| has_entry(s, v, h, k, l)
}

/// Every key held below a page that keeps the order lies within its bounds.
pub proof fn lemma_entry_in_range(
    s: Seq<PageView>,
    v: PageView,
    h: nat,
    lo: Option<Seq<u8>>,
    hi: Option<Seq<u8>>,
    k: Seq<u8>,
    l: Location,
)
    requires
        ordered(s, v, h, lo, hi),
        has_entry(s, v, h, k, l),
    ensures
        in_range(k, lo, hi),
    decreases h,
{
    if v.is_leaf {
        let i = choose|i: int| 0 <= i < v.keys.len() && v.keys[i] == k && v.locs[i] == l;
        assert(in_range(v.keys[i], lo, hi));
    } else {
        let j = choose|j: int|
            0 <= j < v.locs.len() && 0 <= child_of(v, j) < s.len() && has_entry(
                s,
                s[#[trigger] child_of(v, j)],
                (h - 1) as nat,
                k,
                l,
            );
        let clo = child_lo(v, j, lo);
        let chi = child_hi(v, j, hi);
        assert(ordered(s, s[child_of(v, j)], (h - 1) as nat, clo, chi));
        lemma_entry_in_range(s, s[child_of(v, j)], (h - 1) as nat, clo, chi, k, l);
        if j > 0 {
            assert(in_range(v.keys[j - 1], lo, hi));
            if lo is Some {
                lemma_key_le_transitive(lo->0, v.keys[j - 1], k);
            }
        }
        if j < v.keys.len() {
            assert(in_range(v.keys[j], lo, hi));
            if hi is Some {
                lemma_key_le_transitive(k, v.keys[j], hi->0);
            }
        }
    }
}

/// In strictly increasing keys, the keys at or before `k` come first: a key
/// before the position `prefix_le_len` is at or before `k` and a key after it
/// is after `k`.
pub proof fn lemma_route(ks: Seq<Seq<u8>>, k: Seq<u8>)
    requires
        forall|i: int, j: int| 0 <= i < j < ks.len() ==> key_lt(#[trigger] ks[i], #[trigger] ks[j]),
    ensures
        forall|i: int| 0 <= i < prefix_le_len(ks, k) ==> key_le(#[trigger] ks[i], k),
        forall|i: int| prefix_le_len(ks, k) <= i < ks.len() ==> key_lt(k, #[trigger] ks[i]),
{
    lemma_prefix_le_len(ks, k);
    let p = prefix_le_len(ks, k) as int;
    assert forall|i: int| p <= i < ks.len() implies key_lt(k, #[trigger] ks[i]) by {
        crate::common::key_order::lemma_key_lt_total(ks[p], k);
        if i > p {
            assert(key_lt(ks[p], ks[i]));
            lemma_key_le_transitive(k, ks[p], ks[i]);
        }
    }
}

/// On a page that keeps the key order, a lookup finds exactly what the leaves
/// hold: the location held with `k`, or nothing when no leaf holds `k`.
pub proof fn lemma_lookup_ordered(
    s: Seq<PageView>,
    v: PageView,
    h: nat,
    lo: Option<Seq<u8>>,
    hi: Option<Seq<u8>>,
    k: Seq<u8>,
)
    requires
        ordered(s, v, h, lo, hi),
    ensures
        forall|l: Location| #[trigger] has_entry(s, v, h, k, l) <==> lookup(s, v, h, k) == Some(l),
    decreases h,
{
    if v.is_leaf {
        lemma_first_match(v.keys, k);
        let f = first_match(v.keys, k) as int;
        assert forall|l: Location| #[trigger] has_entry(s, v, h, k, l) <==> lookup(s, v, h, k) == Some(l) by {
            if has_entry(s, v, h, k, l) {
                let i = choose|i: int| 0 <= i < v.keys.len() && v.keys[i] == k && v.locs[i] == l;
                assert(v.keys.contains(k));
                if f < i {
                    assert(key_lt(v.keys[f], v.keys[i]));
                    lemma_key_lt_irreflexive(k);
                }
                assert(f == i);
            }
            if lookup(s, v, h, k) == Some(l) {
                assert(v.keys[f] == k && v.locs[f] == l);
            }
        }
    } else {
        let j = prefix_le_len(v.keys, k) as int;
        lemma_route(v.keys, k);
        lemma_prefix_le_len(v.keys, k);
        let c = child_of(v, j);
        assert(ordered(s, s[c], (h - 1) as nat, child_lo(v, j, lo), child_hi(v, j, hi)));
        lemma_lookup_ordered(s, s[c], (h - 1) as nat, child_lo(v, j, lo), child_hi(v, j, hi), k);
        assert forall|l: Location| #[trigger] has_entry(s, v, h, k, l) <==> lookup(s, v, h, k) == Some(l) by {
            if has_entry(s, v, h, k, l) {
                let j2 = choose|j2: int|
                    0 <= j2 < v.locs.len() && 0 <= child_of(v, j2) < s.len() && has_entry(
                        s,
                        s[#[trigger] child_of(v, j2)],
                        (h - 1) as nat,
                        k,
                        l,
                    );
                let c2 = child_of(v, j2);
                assert(ordered(s, s[c2], (h - 1) as nat, child_lo(v, j2, lo), child_hi(v, j2, hi)));
                lemma_entry_in_range(s, s[c2], (h - 1) as nat, child_lo(v, j2, lo), child_hi(v, j2, hi), k, l);
                if j2 < j {
                    assert(key_le(v.keys[j2], k));
                    lemma_key_lt_asymmetric(k, v.keys[j2]);
                    lemma_key_lt_irreflexive(k);
                }
                if j2 > j {
                    assert(key_lt(k, v.keys[j2 - 1]));
                    lemma_key_lt_asymmetric(k, v.keys[j2 - 1]);
                    lemma_key_lt_irreflexive(k);
                }
                assert(j2 == j);
            }
            if lookup(s, v, h, k) == Some(l) {
                assert(has_entry(s, s[c], (h - 1) as nat, k, l));
                assert(has_entry(s, v, h, k, l));
            }
        }
    }
}

/// Page `j` is a child of page `v` (of height `h`) or lies below one.
pub open spec fn below(s: Seq<PageView>, v: PageView, h: nat, j: int) -> bool
    decreases h,
{
    if v.is_leaf || h == 0 {
        false
    } else {
        exists|k: int|
            0 <= k < v.locs.len() && 0 <= child_of(v, k) < s.len() && (#[trigger] child_of(v, k) == j || below(
                s,
                s[child_of(v, k)],
                (h - 1) as nat,
                j,
            ))
    }
}

/// The pages below a child of `v` lie below `v`.
pub proof fn lemma_below_child(s: Seq<PageView>, v: PageView, h: nat, k: int, j: int)
    requires
        !v.is_leaf,
        h > 0,
        0 <= k < v.locs.len(),
        0 <= child_of(v, k) < s.len(),
        j == child_of(v, k) || below(s, s[child_of(v, k)], (h - 1) as nat, j),
    ensures
        below(s, v, h, j),
{
}

/// `s` and `s2` agree on every page below `v`, which `s2` also holds.
pub open spec fn agree_below(s: Seq<PageView>, s2: Seq<PageView>, v: PageView, h: nat) -> bool {
    &&& s.len() <= s2.len()
    &&& forall|j: int| #[trigger] below(s, v, h, j) ==> 0 <= j < s.len() && s2[j] == s[j]
}

/// Agreeing below `v` carries over to the children of `v`.
pub proof fn lemma_agree_child(s: Seq<PageView>, s2: Seq<PageView>, v: PageView, h: nat, k: int)
    requires
        agree_below(s, s2, v, h),
        !v.is_leaf,
        h > 0,
        0 <= k < v.locs.len(),
        0 <= child_of(v, k) < s.len(),
    ensures
        s2[child_of(v, k)] == s[child_of(v, k)],
        agree_below(s, s2, s[child_of(v, k)], (h - 1) as nat),
{
    let c = child_of(v, k);
    lemma_below_child(s, v, h, k, c);
    assert forall|j: int| #[trigger] below(s, s[c], (h - 1) as nat, j) implies 0 <= j < s.len() && s2[j] == s[j] by {
        lemma_below_child(s, v, h, k, j);
    }
}

/// Pages that agree below `v` have the same pages below `v`.
pub proof fn lemma_frame_below(
    s: Seq<PageView>,
    s2: Seq<PageView>,
    v: PageView,
    h: nat,
    lo: Option<Seq<u8>>,
    hi: Option<Seq<u8>>,
    j: int,
)
    requires
        agree_below(s, s2, v, h),
        ordered(s, v, h, lo, hi),
    ensures
        below(s2, v, h, j) <==> below(s, v, h, j),
    decreases h,
{
    if !v.is_leaf && h > 0 {
        if below(s2, v, h, j) {
            let k = choose|k: int|
                0 <= k < v.locs.len() && 0 <= child_of(v, k) < s2.len() && (#[trigger] child_of(v, k) == j || below(
                    s2,
                    s2[child_of(v, k)],
                    (h - 1) as nat,
                    j,
                ));
            let c = child_of(v, k);
            lemma_agree_child(s, s2, v, h, k);
            lemma_frame_below(s, s2, s[c], (h - 1) as nat, child_lo(v, k, lo), child_hi(v, k, hi), j);
        }
        if below(s, v, h, j) {
            let k = choose|k: int|
                0 <= k < v.locs.len() && 0 <= child_of(v, k) < s.len() && (#[trigger] child_of(v, k) == j || below(
                    s,
                    s[child_of(v, k)],
                    (h - 1) as nat,
                    j,
                ));
            let c = child_of(v, k);
            lemma_agree_child(s, s2, v, h, k);
            lemma_frame_below(s, s2, s[c], (h - 1) as nat, child_lo(v, k, lo), child_hi(v, k, hi), j);
        }
    }
}

/// Pages that agree below `v` keep the order below `v` alike.
pub proof fn lemma_frame_ordered(
    s: Seq<PageView>,
    s2: Seq<PageView>,
    v: PageView,
    h: nat,
    lo: Option<Seq<u8>>,
    hi: Option<Seq<u8>>,
)
    requires
        agree_below(s, s2, v, h),
        ordered(s, v, h, lo, hi),
    ensures
        ordered(s2, v, h, lo, hi),
    decreases h,
{
    if !v.is_leaf {
        assert forall|k: int| 0 <= k < v.locs.len() implies {
            &&& 0 <= #[trigger] child_of(v, k) < s2.len()
            &&& ordered(s2, s2[child_of(v, k)], (h - 1) as nat, child_lo(v, k, lo), child_hi(v, k, hi))
        } by {
            let c = child_of(v, k);
            lemma_agree_child(s, s2, v, h, k);
            lemma_frame_ordered(s, s2, s[c], (h - 1) as nat, child_lo(v, k, lo), child_hi(v, k, hi));
        }
    }
}

/// Pages that agree below `v` hold the same entries below `v`.
pub proof fn lemma_frame_entry(
    s: Seq<PageView>,
    s2: Seq<PageView>,
    v: PageView,
    h: nat,
    lo: Option<Seq<u8>>,
    hi: Option<Seq<u8>>,
    k: Seq<u8>,
    l: Location,
)
    requires
        agree_below(s, s2, v, h),
        ordered(s, v, h, lo, hi),
    ensures
        has_entry(s2, v, h, k, l) <==> has_entry(s, v, h, k, l),
    decreases h,
{
    if !v.is_leaf && h > 0 {
        if has_entry(s2, v, h, k, l) {
            let j = choose|j: int|
                0 <= j < v.locs.len() && 0 <= child_of(v, j) < s2.len() && has_entry(
                    s2,
                    s2[#[trigger] child_of(v, j)],
                    (h - 1) as nat,
                    k,
                    l,
                );
            let c = child_of(v, j);
            lemma_agree_child(s, s2, v, h, j);
            lemma_frame_entry(s, s2, s[c], (h - 1) as nat, child_lo(v, j, lo), child_hi(v, j, hi), k, l);
        }
        if has_entry(s, v, h, k, l) {
            let j = choose|j: int|
                0 <= j < v.locs.len() && 0 <= child_of(v, j) < s.len() && has_entry(
                    s,
                    s[#[trigger] child_of(v, j)],
                    (h - 1) as nat,
                    k,
                    l,
                );
            let c = child_of(v, j);
            lemma_agree_child(s, s2, v, h, j);
            lemma_frame_entry(s, s2, s[c], (h - 1) as nat, child_lo(v, j, lo), child_hi(v, j, hi), k, l);
        }
    }
}

/// The page reached from page `j` by going up `n` parents of shape `sh`.
pub open spec fn anc(sh: Shape, j: int, n: nat) -> int
    decreases n,
{
    if n == 0 {
        j
    } else {
        anc(sh, (sh.parent)(j).0, (n - 1) as nat)
    }
}

/// Going up one more parent.
pub proof fn lemma_anc_step(sh: Shape, j: int, n: nat)
    ensures
        anc(sh, j, n + 1) == (sh.parent)(anc(sh, j, n)).0,
    decreases n,
{
    reveal_with_fuel(anc, 2);
    if n > 0 {
        lemma_anc_step(sh, (sh.parent)(j).0, (n - 1) as nat);
    }
}

/// A page below a page `c` in use is in use, lower than `c`, and has `c` as
/// its ancestor.
pub proof fn lemma_below_anc(s: Seq<PageView>, sh: Shape, c: int, j: int)
    requires
        tree_ok(s, sh),
        sh.live.contains(c),
        below(s, s[c], (sh.height)(c), j),
    ensures
        sh.live.contains(j),
        (sh.height)(j) < (sh.height)(c),
        anc(sh, j, ((sh.height)(c) - (sh.height)(j)) as nat) == c,
    decreases (sh.height)(c),
{
    let v = s[c];
    let h = (sh.height)(c);
    let k = choose|k: int|
        0 <= k < v.locs.len() && 0 <= child_of(v, k) < s.len() && (#[trigger] child_of(v, k) == j || below(
            s,
            s[child_of(v, k)],
            (h - 1) as nat,
            j,
        ));
    lemma_relax(s, sh, c);
    lemma_child_facts(s, sh, c, c, k);
    let x = child_of(v, k);
    if x == j {
        reveal_with_fuel(anc, 2);
        assert(anc(sh, j, 1) == (sh.parent)(j).0);
    } else {
        lemma_below_anc(s, sh, x, j);
        let d = ((sh.height)(x) - (sh.height)(j)) as nat;
        lemma_anc_step(sh, j, d);
        assert(((sh.height)(c) - (sh.height)(j)) as nat == d + 1);
    }
}

/// The pages below two different children of a page in use (the children
/// included) are apart.
pub proof fn lemma_children_apart(s: Seq<PageView>, sh: Shape, p: int, a: int, b: int, j: int)
    requires
        tree_ok(s, sh),
        sh.live.contains(p),
        !s[p].is_leaf,
        0 <= a < s[p].locs.len(),
        0 <= b < s[p].locs.len(),
        a != b,
        j == child_of(s[p], b) || below(s, s[child_of(s[p], b)], (sh.height)(child_of(s[p], b)), j),
    ensures
        j != child_of(s[p], a),
        !below(s, s[child_of(s[p], a)], (sh.height)(child_of(s[p], a)), j),
{
    lemma_relax(s, sh, p);
    lemma_child_facts(s, sh, p, p, a);
    lemma_child_facts(s, sh, p, p, b);
    let ca = child_of(s[p], a);
    let cb = child_of(s[p], b);
    assert(ca != cb);
    if j == ca {
        if j != cb {
            lemma_below_anc(s, sh, cb, j);
        }
    }
    if below(s, s[ca], (sh.height)(ca), j) {
        lemma_below_anc(s, sh, ca, j);
        if j != cb {
            lemma_below_anc(s, sh, cb, j);
        }
    }
}

/// Adding `key` below page `me` (height `h`) of a file that keeps the key
/// order within `[lo, hi)` and holds no `key` yet.
pub open spec fn add_order_pre(s0: Seq<PageView>, me: int, h: nat, lo: Option<Seq<u8>>, hi: Option<Seq<u8>>, key: Seq<u8>) -> bool {
    &&& 0 <= me < s0.len()
    &&& ordered(s0, s0[me], h, lo, hi)
    &&& !has_key(s0, s0[me], h, key)
    &&& in_range(key, lo, hi)
}

/// What adding `key` with `value` below page `me` leaves of the key order (`s1`,
/// `v1`, `over` as in `add_post`, and `okey` the key that goes with a page
/// split off): with `v1` stored, only pages below `me` or new ones have
/// changed, no page of the file outside `me`'s old subtree has come below
/// `v1` or the split-off page, the entries are those of before and the new
/// one, and the order holds, around `okey` when `me` split.
pub open spec fn add_order_post(
    s0: Seq<PageView>,
    me: int,
    h: nat,
    lo: Option<Seq<u8>>,
    hi: Option<Seq<u8>>,
    key: Seq<u8>,
    value: Location,
    s1: Seq<PageView>,
    v1: PageView,
    over: Option<PageView>,
    okey: Seq<u8>,
) -> bool {
    let p0 = s0[me];
    let t = s1.update(me, v1);
    &&& s0.len() <= s1.len()
    &&& forall|j: int| 0 <= j < s0.len() && j != me && !below(s0, p0, h, j) ==> #[trigger] t[j] == s0[j]
    &&& forall|j: int| #[trigger] below(t, v1, h, j) ==> (below(s0, p0, h, j) || s0.len() <= j)
    &&& (over matches Some(o) ==> forall|j: int| #[trigger] below(t, o, h, j) ==> (below(s0, p0, h, j) || s0.len() <= j))
    &&& forall|k: Seq<u8>, l: Location|
        #![trigger has_entry(t, v1, h, k, l)]
        #![trigger has_entry(s0, p0, h, k, l)]
        (has_entry(t, v1, h, k, l) || (over matches Some(o) && has_entry(t, o, h, k, l))) <==> (has_entry(
            s0,
            p0,
            h,
            k,
            l,
        ) || (k == key && l == value))
    &&& match over {
        None => ordered(t, v1, h, lo, hi),
        Some(o) => {
            &&& ordered(t, v1, h, lo, Some(okey))
            &&& ordered(t, o, h, Some(okey), hi)
            &&& in_range(okey, lo, hi)
            &&& (lo matches Some(l) ==> key_lt(l, okey))
        },
    }
}

/// Keys inserted into strictly increasing keys at the position after every key
/// before it, when not there already, stay strictly increasing and in range.
pub proof fn lemma_insert_sorted(ks: Seq<Seq<u8>>, k: Seq<u8>, lo: Option<Seq<u8>>, hi: Option<Seq<u8>>)
    requires
        keys_ok(ks, lo, hi),
        !ks.contains(k),
        in_range(k, lo, hi),
    ensures
        keys_ok(ks.insert(prefix_le_len(ks, k) as int, k), lo, hi),
{
    let i = prefix_le_len(ks, k) as int;
    lemma_route(ks, k);
    lemma_prefix_le_len(ks, k);
    let n = ks.insert(i, k);
    assert forall|x: int| 0 <= x < i implies key_lt(#[trigger] ks[x], k) by {
        assert(ks[x] != k);
    }
    assert forall|a: int, b: int| 0 <= a < b < n.len() implies key_lt(#[trigger] n[a], #[trigger] n[b]) by {
        if b < i {
            assert(n[a] == ks[a] && n[b] == ks[b]);
        } else if b == i {
            assert(n[a] == ks[a]);
        } else if a < i {
            assert(n[a] == ks[a] && n[b] == ks[b - 1]);
            lemma_key_lt_transitive(ks[a], k, ks[b - 1]);
        } else if a == i {
            assert(n[b] == ks[b - 1]);
        } else {
            assert(n[a] == ks[a - 1] && n[b] == ks[b - 1]);
        }
    }
    assert forall|x: int| 0 <= x < n.len() implies in_range(#[trigger] n[x], lo, hi) by {
        if x < i {
            assert(n[x] == ks[x]);
        } else if x > i {
            assert(n[x] == ks[x - 1]);
        }
    }
}

/// Adding to a leaf that keeps the key order, and holds no `key` yet, meets
/// `add_order_post`.
#[verifier::rlimit(30)]
#[verifier::spinoff_prover]
pub proof fn lemma_leaf_add_order(
    s0: Seq<PageView>,
    me: int,
    h: nat,
    lo: Option<Seq<u8>>,
    hi: Option<Seq<u8>>,
    key: Seq<u8>,
    value: Location,
    v1: PageView,
    over: Option<PageView>,
    okey: Seq<u8>,
)
    requires
        add_order_pre(s0, me, h, lo, hi, key),
        s0[me].is_leaf,
        ({
            let n = Leaf::inserted(s0[me], key, value);
            if n.keys.len() >= crate::storage::btree::btree::MAX_KEYS_PER_PAGE {
                &&& v1 == crate::storage::btree::page::Page::lower_half(n, 4)
                &&& over == Some(crate::storage::btree::page::Page::upper_half(n, 4, 4))
                &&& okey == n.keys[4]
            } else {
                &&& v1 == n
                &&& over is None
            }
        }),
    ensures
        add_order_post(s0, me, h, lo, hi, key, value, s0, v1, over, okey),
{
    let v = s0[me];
    let n = Leaf::inserted(v, key, value);
    let i = prefix_le_len(v.keys, key) as int;
    lemma_prefix_le_len(v.keys, key);
    assert(!v.keys.contains(key)) by {
        if v.keys.contains(key) {
            let x = choose|x: int| 0 <= x < v.keys.len() && v.keys[x] == key;
            assert(has_entry(s0, v, h, key, v.locs[x]));
        }
    }
    lemma_insert_sorted(v.keys, key, lo, hi);
    assert(keys_ok(n.keys, lo, hi));
    let t = s0.update(me, v1);
    assert forall|k: Seq<u8>, l: Location| (exists|x: int| 0 <= x < n.keys.len() && n.keys[x] == k && n.locs[x] == l)
        <==> (has_entry(s0, v, h, k, l) || (k == key && l == value)) by {
        if exists|x: int| 0 <= x < n.keys.len() && n.keys[x] == k && n.locs[x] == l {
            let x = choose|x: int| 0 <= x < n.keys.len() && n.keys[x] == k && n.locs[x] == l;
            if x < i {
                assert(n.keys[x] == v.keys[x] && n.locs[x] == v.locs[x]);
            } else if x > i {
                assert(n.keys[x] == v.keys[x - 1] && n.locs[x] == v.locs[x - 1]);
            }
        }
        if has_entry(s0, v, h, k, l) {
            let x = choose|x: int| 0 <= x < v.keys.len() && v.keys[x] == k && v.locs[x] == l;
            if x < i {
                assert(n.keys[x] == v.keys[x] && n.locs[x] == v.locs[x]);
            } else {
                assert(n.keys[x + 1] == v.keys[x] && n.locs[x + 1] == v.locs[x]);
            }
        }
        if k == key && l == value {
            assert(n.keys[i] == k && n.locs[i] == l);
        }
    }
    if n.keys.len() >= crate::storage::btree::btree::MAX_KEYS_PER_PAGE {
        let o = crate::storage::btree::page::Page::upper_half(n, 4, 4);
        assert(key_lt(n.keys[0], n.keys[4]));
        assert(in_range(n.keys[0], lo, hi));
        assert(in_range(n.keys[4], lo, hi));
        if lo is Some {
            lemma_key_le_transitive(lo->0, n.keys[0], n.keys[4]);
        }
        assert forall|x: int| 0 <= x < v1.keys.len() implies in_range(#[trigger] v1.keys[x], lo, Some(okey)) by {
            assert(v1.keys[x] == n.keys[x]);
            assert(in_range(n.keys[x], lo, hi));
            if x < 4 {
                assert(key_lt(n.keys[x], n.keys[4]));
            }
        }
        assert forall|x: int| 0 <= x < o.keys.len() implies in_range(#[trigger] o.keys[x], Some(okey), hi) by {
            assert(o.keys[x] == n.keys[x + 4]);
            assert(in_range(n.keys[x + 4], lo, hi));
            if x > 0 {
                assert(key_lt(n.keys[4], n.keys[x + 4]));
            }
        }
        assert forall|a: int, b: int| 0 <= a < b < v1.keys.len() implies key_lt(#[trigger] v1.keys[a], #[trigger] v1.keys[b]) by {
            assert(v1.keys[a] == n.keys[a] && v1.keys[b] == n.keys[b]);
        }
        assert forall|a: int, b: int| 0 <= a < b < o.keys.len() implies key_lt(#[trigger] o.keys[a], #[trigger] o.keys[b]) by {
            assert(o.keys[a] == n.keys[a + 4] && o.keys[b] == n.keys[b + 4]);
        }
        assert forall|k: Seq<u8>, l: Location|
            #![trigger has_entry(t, v1, h, k, l)]
            #![trigger has_entry(s0, v, h, k, l)]
            (has_entry(t, v1, h, k, l) || has_entry(t, o, h, k, l)) <==> (has_entry(s0, v, h, k, l) || (k == key
                && l == value)) by {
            if has_entry(t, v1, h, k, l) {
                let x = choose|x: int| 0 <= x < v1.keys.len() && v1.keys[x] == k && v1.locs[x] == l;
                assert(n.keys[x] == k && n.locs[x] == l);
            }
            if has_entry(t, o, h, k, l) {
                let x = choose|x: int| 0 <= x < o.keys.len() && o.keys[x] == k && o.locs[x] == l;
                assert(n.keys[x + 4] == k && n.locs[x + 4] == l);
            }
            if has_entry(s0, v, h, k, l) || (k == key && l == value) {
                let x = choose|x: int| 0 <= x < n.keys.len() && n.keys[x] == k && n.locs[x] == l;
                if x < 4 {
                    assert(v1.keys[x] == k && v1.locs[x] == l);
                } else {
                    assert(o.keys[x - 4] == k && o.locs[x - 4] == l);
                }
            }
        }
    }
}

/// A child of a page that keeps the key order gets its share of the
/// conditions for adding `key`, when `key` is routed to it.
pub proof fn lemma_child_pre(s0: Seq<PageView>, me: int, h: nat, lo: Option<Seq<u8>>, hi: Option<Seq<u8>>, key: Seq<u8>)
    requires
        add_order_pre(s0, me, h, lo, hi, key),
        !s0[me].is_leaf,
    ensures
        ({
            let p0 = s0[me];
            let i = prefix_le_len(p0.keys, key) as int;
            &&& 0 <= i < p0.locs.len()
            &&& add_order_pre(s0, child_of(p0, i), (h - 1) as nat, child_lo(p0, i, lo), child_hi(p0, i, hi), key)
        }),
{
    let p0 = s0[me];
    let i = prefix_le_len(p0.keys, key) as int;
    lemma_route(p0.keys, key);
    lemma_prefix_le_len(p0.keys, key);
    let c = child_of(p0, i);
    assert(ordered(s0, s0[c], (h - 1) as nat, child_lo(p0, i, lo), child_hi(p0, i, hi)));
    assert(!has_key(s0, s0[c], (h - 1) as nat, key)) by {
        if has_key(s0, s0[c], (h - 1) as nat, key) {
            let l = choose|l: Location| #[trigger] has_entry(s0, s0[c], (h - 1) as nat, key, l);
            assert(has_entry(s0, p0, h, key, l));
        }
    }
    if i > 0 {
        assert(key_le(p0.keys[i - 1], key));
    }
}

/// Pages below a sibling of the child that added stay as they were.
pub proof fn lemma_sibling_kept(
    s0: Seq<PageView>,
    sh: Shape,
    me: int,
    i: int,
    b: int,
    t: Seq<PageView>,
)
    requires
        tree_ok(s0, sh),
        sh.live.contains(me),
        !s0[me].is_leaf,
        0 <= i < s0[me].locs.len(),
        0 <= b < s0[me].locs.len(),
        i != b,
        s0.len() <= t.len(),
        forall|j: int|
            0 <= j < s0.len() && j != me && j != child_of(s0[me], i) && !below(
                s0,
                s0[child_of(s0[me], i)],
                (sh.height)(child_of(s0[me], i)),
                j,
            ) ==> #[trigger] t[j] == s0[j],
    ensures
        t[child_of(s0[me], b)] == s0[child_of(s0[me], b)],
        agree_below(s0, t, s0[child_of(s0[me], b)], (sh.height)(child_of(s0[me], b))),
{
    let p0 = s0[me];
    let cb = child_of(p0, b);
    lemma_relax(s0, sh, me);
    lemma_child_facts(s0, sh, me, me, b);
    lemma_children_apart(s0, sh, me, i, b, cb);
    assert forall|j: int| #[trigger] below(s0, s0[cb], (sh.height)(cb), j) implies 0 <= j < s0.len() && t[j] == s0[j] by {
        lemma_below_anc(s0, sh, cb, j);
        lemma_children_apart(s0, sh, me, i, b, j);
        assert(sh.live.contains(j));
    }
}

/// The child that `key` was routed to added it without splitting and is
/// stored back: the page itself, unchanged, meets `add_order_post`.
pub proof fn lemma_child_added_order(
    s0: Seq<PageView>,
    sh: Shape,
    me: int,
    lo: Option<Seq<u8>>,
    hi: Option<Seq<u8>>,
    key: Seq<u8>,
    value: Location,
    s1: Seq<PageView>,
    c1: PageView,
    okey: Seq<u8>,
)
    requires
        tree_ok(s0, sh),
        sh.live.contains(me),
        !s0[me].is_leaf,
        add_order_pre(s0, me, (sh.height)(me), lo, hi, key),
        ({
            let p0 = s0[me];
            let i = prefix_le_len(p0.keys, key) as int;
            let c = child_of(p0, i);
            add_order_post(s0, c, (sh.height)(c), child_lo(p0, i, lo), child_hi(p0, i, hi), key, value, s1, c1, None, okey)
        }),
    ensures
        ({
            let p0 = s0[me];
            let c = child_of(p0, prefix_le_len(p0.keys, key) as int);
            &&& s1.update(c, c1)[me] == p0
            &&& add_order_post(s0, me, (sh.height)(me), lo, hi, key, value, s1.update(c, c1), p0, None, okey)
        }),
{
    let p0 = s0[me];
    let h = (sh.height)(me);
    let i = prefix_le_len(p0.keys, key) as int;
    lemma_child_pre(s0, me, h, lo, hi, key);
    lemma_relax(s0, sh, me);
    lemma_child_facts(s0, sh, me, me, i);
    let c = child_of(p0, i);
    let hc = (sh.height)(c);
    assert(hc == h - 1);
    let tc = s1.update(c, c1);
    assert(!below(s0, s0[c], hc, me)) by {
        if below(s0, s0[c], hc, me) {
            lemma_below_anc(s0, sh, c, me);
        }
    }
    assert(tc[me] == p0);
    let t = tc.update(me, p0);
    assert(t =~= tc);
    assert forall|j: int| 0 <= j < s0.len() && j != me && j != c && !below(s0, s0[c], hc, j) implies #[trigger] tc[j] == s0[j] by {
    }
    assert forall|j: int| 0 <= j < s0.len() && j != me && !below(s0, p0, h, j) implies #[trigger] t[j] == s0[j] by {
        lemma_below_child(s0, p0, h, i, c);
        if below(s0, s0[c], hc, j) {
            lemma_below_child(s0, p0, h, i, j);
        }
        assert(tc[j] == s0[j]);
    }
    assert forall|b: int| 0 <= b < p0.locs.len() && b != i implies {
        &&& t[#[trigger] child_of(p0, b)] == s0[child_of(p0, b)]
        &&& agree_below(s0, t, s0[child_of(p0, b)], hc)
    } by {
        lemma_sibling_kept(s0, sh, me, i, b, t);
        lemma_child_facts(s0, sh, me, me, b);
    }
    assert forall|j: int| #[trigger] below(t, p0, h, j) implies (below(s0, p0, h, j) || s0.len() <= j) by {
        let k = choose|k: int|
            0 <= k < p0.locs.len() && 0 <= child_of(p0, k) < t.len() && (#[trigger] child_of(p0, k) == j || below(
                t,
                t[child_of(p0, k)],
                (h - 1) as nat,
                j,
            ));
        let ck = child_of(p0, k);
        if ck == j {
            lemma_below_child(s0, p0, h, k, j);
        } else if k == i {
            if below(s0, s0[c], hc, j) {
                lemma_below_child(s0, p0, h, i, j);
            }
        } else {
            lemma_child_facts(s0, sh, me, me, k);
            assert(ordered(s0, s0[ck], hc, child_lo(p0, k, lo), child_hi(p0, k, hi)));
            lemma_frame_below(s0, t, s0[ck], hc, child_lo(p0, k, lo), child_hi(p0, k, hi), j);
            lemma_below_child(s0, p0, h, k, j);
        }
    }
    assert forall|k: Seq<u8>, l: Location|
        #![trigger has_entry(t, p0, h, k, l)]
        #![trigger has_entry(s0, p0, h, k, l)]
        has_entry(t, p0, h, k, l) <==> (has_entry(s0, p0, h, k, l) || (k == key && l == value)) by {
        if has_entry(t, p0, h, k, l) {
            let j = choose|j: int|
                0 <= j < p0.locs.len() && 0 <= child_of(p0, j) < t.len() && has_entry(
                    t,
                    t[#[trigger] child_of(p0, j)],
                    (h - 1) as nat,
                    k,
                    l,
                );
            let cj = child_of(p0, j);
            if j == i {
                assert(has_entry(tc, c1, hc, k, l));
            } else {
                lemma_child_facts(s0, sh, me, me, j);
                assert(ordered(s0, s0[cj], hc, child_lo(p0, j, lo), child_hi(p0, j, hi)));
                lemma_frame_entry(s0, t, s0[cj], hc, child_lo(p0, j, lo), child_hi(p0, j, hi), k, l);
                assert(has_entry(s0, s0[cj], hc, k, l));
            }
        }
        if has_entry(s0, p0, h, k, l) {
            let j = choose|j: int|
                0 <= j < p0.locs.len() && 0 <= child_of(p0, j) < s0.len() && has_entry(
                    s0,
                    s0[#[trigger] child_of(p0, j)],
                    (h - 1) as nat,
                    k,
                    l,
                );
            let cj = child_of(p0, j);
            if j == i {
                assert(has_entry(tc, c1, hc, k, l));
                assert(has_entry(t, t[c], hc, k, l));
            } else {
                lemma_child_facts(s0, sh, me, me, j);
                assert(ordered(s0, s0[cj], hc, child_lo(p0, j, lo), child_hi(p0, j, hi)));
                lemma_frame_entry(s0, t, s0[cj], hc, child_lo(p0, j, lo), child_hi(p0, j, hi), k, l);
                assert(has_entry(t, t[cj], hc, k, l));
            }
        }
        if k == key && l == value {
            assert(has_entry(tc, c1, hc, k, l));
            assert(has_entry(t, t[c], hc, k, l));
        }
    }
    assert forall|k: int| 0 <= k < p0.locs.len() implies {
        &&& 0 <= #[trigger] child_of(p0, k) < t.len()
        &&& ordered(t, t[child_of(p0, k)], (h - 1) as nat, child_lo(p0, k, lo), child_hi(p0, k, hi))
    } by {
        let ck = child_of(p0, k);
        if k != i {
            lemma_child_facts(s0, sh, me, me, k);
            assert(ordered(s0, s0[ck], hc, child_lo(p0, k, lo), child_hi(p0, k, hi)));
            lemma_frame_ordered(s0, t, s0[ck], hc, child_lo(p0, k, lo), child_hi(p0, k, hi));
        }
    }
    assert(ordered(t, p0, h, lo, hi));
}

/// Pages that keep the order below `v` in `s` and that `s2` holds alike,
/// outside of slot `me`, which is not below `v`.
pub proof fn lemma_agree_except(
    s: Seq<PageView>,
    s2: Seq<PageView>,
    v: PageView,
    h: nat,
    lo: Option<Seq<u8>>,
    hi: Option<Seq<u8>>,
    me: int,
)
    requires
        ordered(s, v, h, lo, hi),
        s.len() <= s2.len(),
        !below(s, v, h, me),
        forall|j: int| 0 <= j < s.len() && j != me ==> #[trigger] s2[j] == s[j],
    ensures
        agree_below(s, s2, v, h),
        ordered(s2, v, h, lo, hi),
        forall|j: int| #[trigger] below(s2, v, h, j) <==> below(s, v, h, j),
        forall|k: Seq<u8>, l: Location| #[trigger] has_entry(s2, v, h, k, l) <==> has_entry(s, v, h, k, l),
{
    assert forall|j: int| #[trigger] below(s, v, h, j) implies 0 <= j < s.len() && s2[j] == s[j] by {
        lemma_below_in_range(s, v, h, lo, hi, j);
    }
    lemma_frame_ordered(s, s2, v, h, lo, hi);
    assert forall|j: int| #[trigger] below(s2, v, h, j) <==> below(s, v, h, j) by {
        lemma_frame_below(s, s2, v, h, lo, hi, j);
    }
    assert forall|k: Seq<u8>, l: Location| #[trigger] has_entry(s2, v, h, k, l) <==> has_entry(s, v, h, k, l) by {
        lemma_frame_entry(s, s2, v, h, lo, hi, k, l);
    }
}

/// Pages below a page are stored pages.
pub proof fn lemma_below_in_range(
    s: Seq<PageView>,
    v: PageView,
    h: nat,
    lo: Option<Seq<u8>>,
    hi: Option<Seq<u8>>,
    j: int,
)
    requires
        below(s, v, h, j),
    ensures
        0 <= j < s.len(),
    decreases h,
{
    let k = choose|k: int|
        0 <= k < v.locs.len() && 0 <= child_of(v, k) < s.len() && (#[trigger] child_of(v, k) == j || below(
            s,
            s[child_of(v, k)],
            (h - 1) as nat,
            j,
        ));
    if child_of(v, k) != j {
        lemma_below_in_range(s, s[child_of(v, k)], (h - 1) as nat, None, None, j);
    }
}

/// The child that `key` was routed to split while adding it; stored back,
/// with its upper part as a new page `n` just after it and `okey` between
/// them, it leaves the page meeting `add_order_post`.
#[verifier::rlimit(100)]
#[verifier::spinoff_prover]
pub proof fn lemma_child_split_order(
    s0: Seq<PageView>,
    sh: Shape,
    me: int,
    lo: Option<Seq<u8>>,
    hi: Option<Seq<u8>>,
    key: Seq<u8>,
    value: Location,
    s1: Seq<PageView>,
    c1: PageView,
    o: PageView,
    okey: Seq<u8>,
    nloc: Location,
)
    requires
        tree_ok(s0, sh),
        sh.live.contains(me),
        !s0[me].is_leaf,
        add_order_pre(s0, me, (sh.height)(me), lo, hi, key),
        ({
            let p0 = s0[me];
            let i = prefix_le_len(p0.keys, key) as int;
            let c = child_of(p0, i);
            add_order_post(s0, c, (sh.height)(c), child_lo(p0, i, lo), child_hi(p0, i, hi), key, value, s1, c1, Some(o), okey)
        }),
        nloc is Page,
        nloc->Page_0.start_offset % crate::storage::btree::location::PAGE_SIZE == 0,
        crate::storage::btree::location::page_index(nloc->Page_0.start_offset) == s1.len(),
    ensures
        ({
            let p0 = s0[me];
            let i = prefix_le_len(p0.keys, key) as int;
            let c = child_of(p0, i);
            let w = s1.update(c, c1).push(o);
            add_order_post(s0, me, (sh.height)(me), lo, hi, key, value, w, with_child(p0, i, okey, nloc), None, okey)
        }),
{
    let p0 = s0[me];
    let h = (sh.height)(me);
    let i = prefix_le_len(p0.keys, key) as int;
    lemma_child_pre(s0, me, h, lo, hi, key);
    lemma_route(p0.keys, key);
    lemma_relax(s0, sh, me);
    lemma_child_facts(s0, sh, me, me, i);
    let c = child_of(p0, i);
    let hc = (sh.height)(c);
    let lo_c = child_lo(p0, i, lo);
    let hi_c = child_hi(p0, i, hi);
    let tc = s1.update(c, c1);
    let n = s1.len() as int;
    let w = tc.push(o);
    let p1 = with_child(p0, i, okey, nloc);
    let t = w.update(me, p1);
    assert(!below(s0, s0[c], hc, me)) by {
        if below(s0, s0[c], hc, me) {
            lemma_below_anc(s0, sh, c, me);
        }
    }
    assert(tc[me] == p0);
    assert(me < n);
    // Slots of the new page.
    assert forall|x: int| 0 <= x < p1.locs.len() implies #[trigger] child_of(p1, x) == if x <= i {
        child_of(p0, x)
    } else if x == i + 1 {
        n
    } else {
        child_of(p0, x - 1)
    } by {
        if x <= i {
            assert(p1.locs[x] == p0.locs[x]);
        } else if x == i + 1 {
            assert(p1.locs[x] == nloc);
        } else {
            assert(p1.locs[x] == p0.locs[x - 1]);
        }
    }
    // The changed child and the new page keep their order where `t` holds them.
    assert(!below(tc, c1, hc, me)) by {
        if below(tc, c1, hc, me) {
            assert(below(s0, s0[c], hc, me) || s0.len() <= me);
        }
    }
    assert(!below(tc, o, hc, me)) by {
        if below(tc, o, hc, me) {
            assert(below(s0, s0[c], hc, me) || s0.len() <= me);
        }
    }
    assert forall|j: int| 0 <= j < tc.len() && j != me implies #[trigger] t[j] == tc[j] by {}
    lemma_agree_except(tc, t, c1, hc, lo_c, Some(okey), me);
    lemma_agree_except(tc, t, o, hc, Some(okey), hi_c, me);
    assert(t[c] == c1);
    assert(t[n] == o);
    // Pages outside the old subtree.
    assert forall|j: int| 0 <= j < s0.len() && j != me && !below(s0, p0, h, j) implies #[trigger] t[j] == s0[j] by {
        lemma_below_child(s0, p0, h, i, c);
        if below(s0, s0[c], hc, j) {
            lemma_below_child(s0, p0, h, i, j);
        }
        assert(tc[j] == s0[j]);
    }
    assert forall|b: int| 0 <= b < p0.locs.len() && b != i implies {
        &&& t[#[trigger] child_of(p0, b)] == s0[child_of(p0, b)]
        &&& agree_below(s0, t, s0[child_of(p0, b)], hc)
        &&& ordered(s0, s0[child_of(p0, b)], hc, child_lo(p0, b, lo), child_hi(p0, b, hi))
        &&& child_of(p0, b) != c
    } by {
        lemma_sibling_kept(s0, sh, me, i, b, t);
        lemma_child_facts(s0, sh, me, me, b);
        lemma_children_apart(s0, sh, me, i, b, child_of(p0, b));
    }
    // What lies below the new page.
    assert forall|j: int| #[trigger] below(t, p1, h, j) implies (below(s0, p0, h, j) || s0.len() <= j) by {
        let k = choose|k: int|
            0 <= k < p1.locs.len() && 0 <= child_of(p1, k) < t.len() && (#[trigger] child_of(p1, k) == j || below(
                t,
                t[child_of(p1, k)],
                (h - 1) as nat,
                j,
            ));
        if k == i {
            if child_of(p1, k) == j {
                lemma_below_child(s0, p0, h, i, j);
            } else if below(s0, s0[c], hc, j) {
                lemma_below_child(s0, p0, h, i, j);
            }
        } else if k == i + 1 {
            if child_of(p1, k) != j && below(s0, s0[c], hc, j) {
                lemma_below_child(s0, p0, h, i, j);
            }
        } else {
            let b = if k < i { k } else { k - 1 };
            let cb = child_of(p0, b);
            assert(child_of(p1, k) == cb);
            if cb == j {
                lemma_below_child(s0, p0, h, b, j);
            } else {
                lemma_frame_below(s0, t, s0[cb], hc, child_lo(p0, b, lo), child_hi(p0, b, hi), j);
                lemma_below_child(s0, p0, h, b, j);
            }
        }
    }
    // What the new page holds.
    assert forall|k: Seq<u8>, l: Location|
        #![trigger has_entry(t, p1, h, k, l)]
        #![trigger has_entry(s0, p0, h, k, l)]
        has_entry(t, p1, h, k, l) <==> (has_entry(s0, p0, h, k, l) || (k == key && l == value)) by {
        if has_entry(t, p1, h, k, l) {
            let x = choose|x: int|
                0 <= x < p1.locs.len() && 0 <= child_of(p1, x) < t.len() && has_entry(
                    t,
                    t[#[trigger] child_of(p1, x)],
                    (h - 1) as nat,
                    k,
                    l,
                );
            if x == i {
                assert(has_entry(tc, c1, hc, k, l));
            } else if x == i + 1 {
                assert(has_entry(tc, o, hc, k, l));
            } else {
                let b = if x < i { x } else { x - 1 };
                let cb = child_of(p0, b);
                lemma_frame_entry(s0, t, s0[cb], hc, child_lo(p0, b, lo), child_hi(p0, b, hi), k, l);
                assert(has_entry(s0, s0[cb], hc, k, l));
            }
        }
        if has_entry(s0, p0, h, k, l) || (k == key && l == value) {
            if k == key && l == value {
                assert(has_entry(tc, c1, hc, k, l) || has_entry(tc, o, hc, k, l));
                if has_entry(tc, c1, hc, k, l) {
                    assert(has_entry(t, t[child_of(p1, i)], hc, k, l));
                } else {
                    assert(has_entry(t, t[child_of(p1, i + 1)], hc, k, l));
                }
            } else {
                let b = choose|b: int|
                    0 <= b < p0.locs.len() && 0 <= child_of(p0, b) < s0.len() && has_entry(
                        s0,
                        s0[#[trigger] child_of(p0, b)],
                        (h - 1) as nat,
                        k,
                        l,
                    );
                if b == i {
                    assert(has_entry(tc, c1, hc, k, l) || has_entry(tc, o, hc, k, l));
                    if has_entry(tc, c1, hc, k, l) {
                        assert(has_entry(t, t[child_of(p1, i)], hc, k, l));
                    } else {
                        assert(has_entry(t, t[child_of(p1, i + 1)], hc, k, l));
                    }
                } else {
                    let x = if b < i { b } else { b + 1 };
                    let cb = child_of(p0, b);
                    assert(child_of(p1, x) == cb);
                    lemma_frame_entry(s0, t, s0[cb], hc, child_lo(p0, b, lo), child_hi(p0, b, hi), k, l);
                    assert(has_entry(t, t[child_of(p1, x)], hc, k, l));
                }
            }
        }
    }
    // The order of the new page.
    let ks = p0.keys;
    let nk = ks.insert(i, okey);
    assert(p1.keys == nk);
    if i > 0 {
        assert(lo_c == Some(ks[i - 1]));
    }
    if i < ks.len() {
        assert(hi_c == Some(ks[i]));
    }
    assert(in_range(okey, lo, hi)) by {
        if i > 0 {
            assert(in_range(ks[i - 1], lo, hi));
            if lo is Some {
                lemma_key_le_transitive(lo->0, ks[i - 1], okey);
            }
        }
        if i < ks.len() {
            assert(in_range(ks[i], lo, hi));
            if hi is Some {
                lemma_key_le_transitive(okey, ks[i], hi->0);
            }
        }
    }
    assert forall|a: int, b: int| 0 <= a < b < nk.len() implies key_lt(#[trigger] nk[a], #[trigger] nk[b]) by {
        if b < i {
            assert(nk[a] == ks[a] && nk[b] == ks[b]);
        } else if b == i {
            assert(nk[a] == ks[a]);
            if a < i - 1 {
                lemma_key_lt_transitive(ks[a], ks[i - 1], okey);
            }
        } else if a < i {
            assert(nk[a] == ks[a] && nk[b] == ks[b - 1]);
            if a < i - 1 {
                lemma_key_lt_transitive(ks[a], ks[i - 1], okey);
            }
            lemma_key_lt_transitive(ks[a], okey, ks[i]);
            if b - 1 > i {
                lemma_key_lt_transitive(ks[a], ks[i], ks[b - 1]);
            }
        } else if a == i {
            assert(nk[b] == ks[b - 1]);
            if b - 1 > i {
                lemma_key_lt_transitive(okey, ks[i], ks[b - 1]);
            }
        } else {
            assert(nk[a] == ks[a - 1] && nk[b] == ks[b - 1]);
        }
    }
    assert forall|x: int| 0 <= x < nk.len() implies in_range(#[trigger] nk[x], lo, hi) by {
        if x < i {
            assert(nk[x] == ks[x]);
        } else if x > i {
            assert(nk[x] == ks[x - 1]);
        }
    }
    assert forall|x: int| 0 <= x < p1.locs.len() implies {
        &&& 0 <= #[trigger] child_of(p1, x) < t.len()
        &&& ordered(t, t[child_of(p1, x)], (h - 1) as nat, child_lo(p1, x, lo), child_hi(p1, x, hi))
    } by {
        if x == i {
            assert(child_lo(p1, x, lo) == lo_c);
            assert(child_hi(p1, x, hi) == Some(okey));
        } else if x == i + 1 {
            assert(child_lo(p1, x, lo) == Some(okey));
            assert(child_hi(p1, x, hi) == hi_c);
        } else {
            let b = if x < i { x } else { x - 1 };
            let cb = child_of(p0, b);
            assert(child_lo(p1, x, lo) == child_lo(p0, b, lo));
            assert(child_hi(p1, x, hi) == child_hi(p0, b, hi));
            lemma_frame_ordered(s0, t, s0[cb], hc, child_lo(p0, b, lo), child_hi(p0, b, hi));
        }
    }
    assert(ordered(t, p1, h, lo, hi));
}

/// A page that meets `add_order_post` and then splits in two around its
/// middle separator meets it with the two halves.
#[verifier::rlimit(60)]
#[verifier::spinoff_prover]
pub proof fn lemma_split_order(
    s0: Seq<PageView>,
    me: int,
    h: nat,
    lo: Option<Seq<u8>>,
    hi: Option<Seq<u8>>,
    key: Seq<u8>,
    value: Location,
    w: Seq<PageView>,
    p1: PageView,
    d: Seq<u8>,
)
    requires
        0 <= me < s0.len(),
        !below(s0, s0[me], h, me),
        add_order_post(s0, me, h, lo, hi, key, value, w, p1, None, d),
        !p1.is_leaf,
        p1.keys.len() >= 2,
    ensures
        ({
            let m = (p1.keys.len() / 2) as int;
            add_order_post(
                s0,
                me,
                h,
                lo,
                hi,
                key,
                value,
                w,
                crate::storage::btree::page::Page::lower_half(p1, m),
                Some(crate::storage::btree::page::Page::upper_half(p1, m + 1, m + 1)),
                p1.keys[m],
            )
        }),
{
    let m = (p1.keys.len() / 2) as int;
    let lv = crate::storage::btree::page::Page::lower_half(p1, m);
    let uv = crate::storage::btree::page::Page::upper_half(p1, m + 1, m + 1);
    let up = p1.keys[m];
    let t = w.update(me, p1);
    let t2 = w.update(me, lv);
    let p0 = s0[me];
    assert(!below(t, p1, h, me));
    assert(p1.locs.len() == p1.keys.len() + 1);
    assert forall|x: int| 0 <= x < lv.locs.len() implies #[trigger] child_of(lv, x) == child_of(p1, x) by {
        assert(lv.locs[x] == p1.locs[x]);
    }
    assert forall|x: int| 0 <= x < uv.locs.len() implies #[trigger] child_of(uv, x) == child_of(p1, x + m + 1) by {
        assert(uv.locs[x] == p1.locs[x + m + 1]);
    }
    // Every child of `p1` keeps its order where `t2` holds it.
    assert forall|x: int| 0 <= x < p1.locs.len() implies {
        &&& 0 <= #[trigger] child_of(p1, x) < t2.len()
        &&& child_of(p1, x) != me
        &&& t2[child_of(p1, x)] == t[child_of(p1, x)]
        &&& ordered(t2, t[child_of(p1, x)], (h - 1) as nat, child_lo(p1, x, lo), child_hi(p1, x, hi))
        &&& forall|j: int| #[trigger] below(t2, t[child_of(p1, x)], (h - 1) as nat, j) <==> below(
            t,
            t[child_of(p1, x)],
            (h - 1) as nat,
            j,
        )
        &&& forall|k: Seq<u8>, l: Location| #[trigger] has_entry(t2, t[child_of(p1, x)], (h - 1) as nat, k, l) <==> has_entry(
            t,
            t[child_of(p1, x)],
            (h - 1) as nat,
            k,
            l,
        )
    } by {
        let cx = child_of(p1, x);
        lemma_below_child(t, p1, h, x, cx);
        assert(ordered(t, t[cx], (h - 1) as nat, child_lo(p1, x, lo), child_hi(p1, x, hi)));
        assert(!below(t, t[cx], (h - 1) as nat, me)) by {
            if below(t, t[cx], (h - 1) as nat, me) {
                lemma_below_child(t, p1, h, x, me);
            }
        }
        assert forall|j: int| 0 <= j < t.len() && j != me implies #[trigger] t2[j] == t[j] by {}
        lemma_agree_except(t, t2, t[cx], (h - 1) as nat, child_lo(p1, x, lo), child_hi(p1, x, hi), me);
    }
    // Frame and what lies below the halves.
    assert forall|j: int| 0 <= j < s0.len() && j != me && !below(s0, p0, h, j) implies #[trigger] t2[j] == s0[j] by {
        assert(t[j] == s0[j]);
    }
    assert forall|j: int| #[trigger] below(t2, lv, h, j) implies (below(s0, p0, h, j) || s0.len() <= j) by {
        let k = choose|k: int|
            0 <= k < lv.locs.len() && 0 <= child_of(lv, k) < t2.len() && (#[trigger] child_of(lv, k) == j || below(
                t2,
                t2[child_of(lv, k)],
                (h - 1) as nat,
                j,
            ));
        lemma_below_child(t, p1, h, k, j);
    }
    assert forall|j: int| #[trigger] below(t2, uv, h, j) implies (below(s0, p0, h, j) || s0.len() <= j) by {
        let k = choose|k: int|
            0 <= k < uv.locs.len() && 0 <= child_of(uv, k) < t2.len() && (#[trigger] child_of(uv, k) == j || below(
                t2,
                t2[child_of(uv, k)],
                (h - 1) as nat,
                j,
            ));
        lemma_below_child(t, p1, h, k + m + 1, j);
    }
    // What the halves hold.
    assert forall|k: Seq<u8>, l: Location|
        #![trigger has_entry(t2, lv, h, k, l)]
        #![trigger has_entry(s0, p0, h, k, l)]
        (has_entry(t2, lv, h, k, l) || has_entry(t2, uv, h, k, l)) <==> (has_entry(s0, p0, h, k, l) || (k == key
            && l == value)) by {
        assert(has_entry(t, p1, h, k, l) <==> (has_entry(s0, p0, h, k, l) || (k == key && l == value)));
        if has_entry(t2, lv, h, k, l) {
            let x = choose|x: int|
                0 <= x < lv.locs.len() && 0 <= child_of(lv, x) < t2.len() && has_entry(
                    t2,
                    t2[#[trigger] child_of(lv, x)],
                    (h - 1) as nat,
                    k,
                    l,
                );
            assert(has_entry(t, t[child_of(p1, x)], (h - 1) as nat, k, l));
        }
        if has_entry(t2, uv, h, k, l) {
            let x = choose|x: int|
                0 <= x < uv.locs.len() && 0 <= child_of(uv, x) < t2.len() && has_entry(
                    t2,
                    t2[#[trigger] child_of(uv, x)],
                    (h - 1) as nat,
                    k,
                    l,
                );
            assert(has_entry(t, t[child_of(p1, x + m + 1)], (h - 1) as nat, k, l));
        }
        if has_entry(t, p1, h, k, l) {
            let x = choose|x: int|
                0 <= x < p1.locs.len() && 0 <= child_of(p1, x) < t.len() && has_entry(
                    t,
                    t[#[trigger] child_of(p1, x)],
                    (h - 1) as nat,
                    k,
                    l,
                );
            if x <= m {
                assert(has_entry(t2, t2[child_of(lv, x)], (h - 1) as nat, k, l));
            } else {
                assert(has_entry(t2, t2[child_of(uv, x - m - 1)], (h - 1) as nat, k, l));
            }
        }
    }
    // The order of the halves.
    let ks = p1.keys;
    assert(key_lt(ks[0], up));
    assert(in_range(ks[0], lo, hi) && in_range(up, lo, hi));
    if lo is Some {
        lemma_key_le_transitive(lo->0, ks[0], up);
    }
    assert forall|x: int| 0 <= x < lv.keys.len() implies in_range(#[trigger] lv.keys[x], lo, Some(up)) by {
        assert(lv.keys[x] == ks[x]);
        assert(in_range(ks[x], lo, hi));
        assert(key_lt(ks[x], ks[m]));
    }
    assert forall|x: int| 0 <= x < uv.keys.len() implies in_range(#[trigger] uv.keys[x], Some(up), hi) by {
        assert(uv.keys[x] == ks[x + m + 1]);
        assert(in_range(ks[x + m + 1], lo, hi));
        assert(key_lt(ks[m], ks[x + m + 1]));
    }
    assert forall|a: int, b: int| 0 <= a < b < lv.keys.len() implies key_lt(#[trigger] lv.keys[a], #[trigger] lv.keys[b]) by {
        assert(lv.keys[a] == ks[a] && lv.keys[b] == ks[b]);
    }
    assert forall|a: int, b: int| 0 <= a < b < uv.keys.len() implies key_lt(#[trigger] uv.keys[a], #[trigger] uv.keys[b]) by {
        assert(uv.keys[a] == ks[a + m + 1] && uv.keys[b] == ks[b + m + 1]);
    }
    assert forall|x: int| 0 <= x < lv.locs.len() implies {
        &&& 0 <= #[trigger] child_of(lv, x) < t2.len()
        &&& ordered(t2, t2[child_of(lv, x)], (h - 1) as nat, child_lo(lv, x, lo), child_hi(lv, x, Some(up)))
    } by {
        assert(child_lo(lv, x, lo) == child_lo(p1, x, lo));
        assert(child_hi(lv, x, Some(up)) == child_hi(p1, x, hi));
    }
    assert forall|x: int| 0 <= x < uv.locs.len() implies {
        &&& 0 <= #[trigger] child_of(uv, x) < t2.len()
        &&& ordered(t2, t2[child_of(uv, x)], (h - 1) as nat, child_lo(uv, x, Some(up)), child_hi(uv, x, hi))
    } by {
        assert(child_lo(uv, x, Some(up)) == child_lo(p1, x + m + 1, lo));
        assert(child_hi(uv, x, hi) == child_hi(p1, x + m + 1, hi));
    }
    assert(ordered(t2, lv, h, lo, Some(up)));
    assert(ordered(t2, uv, h, Some(up), hi));
}

/// When the root splits, its lower part moving to new page `l` and the part
/// split off to new page `n`, both below a new root that holds the separator
/// `okey`, the root keeps the key order one level higher and holds the entries
/// of before and the new one.
pub proof fn lemma_root_grow_order(
    s0: Seq<PageView>,
    ri: int,
    h: nat,
    key: Seq<u8>,
    value: Location,
    s1: Seq<PageView>,
    v1: PageView,
    o: PageView,
    okey: Seq<u8>,
    n_loc: Location,
    l_loc: Location,
)
    requires
        0 <= ri < s0.len(),
        !below(s0, s0[ri], h, ri),
        add_order_post(s0, ri, h, None, None, key, value, s1, v1, Some(o), okey),
        n_loc is Page,
        l_loc is Page,
        crate::storage::btree::location::page_index(n_loc->Page_0.start_offset) == s1.len(),
        crate::storage::btree::location::page_index(l_loc->Page_0.start_offset) == s1.len() + 1,
    ensures
        ({
            let x = s1.push(o).push(v1).update(ri, crate::storage::btree::shape::new_root_view(okey, l_loc, n_loc));
            &&& ordered(x, x[ri], h + 1, None, None)
            &&& forall|k: Seq<u8>, l: Location|
                #[trigger] has_entry(x, x[ri], h + 1, k, l) <==> (has_entry(s0, s0[ri], h, k, l) || (k == key && l
                    == value))
        }),
{
    let p0 = s0[ri];
    let t = s1.update(ri, v1);
    let r = crate::storage::btree::shape::new_root_view(okey, l_loc, n_loc);
    let x = s1.push(o).push(v1).update(ri, r);
    let n = s1.len() as int;
    let l = n + 1;
    assert(x[n] == o);
    assert(x[l] == v1);
    assert(x[ri] == r);
    assert(child_of(r, 0) == l);
    assert(child_of(r, 1) == n);
    assert(!below(t, v1, h, ri));
    assert(!below(t, o, h, ri));
    assert forall|j: int| 0 <= j < t.len() && j != ri implies #[trigger] x[j] == t[j] by {}
    lemma_agree_except(t, x, v1, h, None, Some(okey), ri);
    lemma_agree_except(t, x, o, h, Some(okey), None, ri);
    assert(r.keys[0] == okey);
    assert(ordered(x, r, h + 1, None, None));
    assert forall|k: Seq<u8>, lc: Location|
        #[trigger] has_entry(x, x[ri], h + 1, k, lc) <==> (has_entry(s0, p0, h, k, lc) || (k == key && lc == value)) by {
        assert(has_entry(t, v1, h, k, lc) || has_entry(t, o, h, k, lc) <==> (has_entry(s0, p0, h, k, lc) || (k == key
            && lc == value)));
        if has_entry(x, r, h + 1, k, lc) {
            let j = choose|j: int|
                0 <= j < r.locs.len() && 0 <= child_of(r, j) < x.len() && has_entry(
                    x,
                    x[#[trigger] child_of(r, j)],
                    h,
                    k,
                    lc,
                );
            if j == 0 {
                assert(has_entry(x, v1, h, k, lc));
            } else {
                assert(has_entry(x, o, h, k, lc));
            }
        }
        if has_entry(x, v1, h, k, lc) {
            assert(has_entry(x, x[child_of(r, 0)], h, k, lc));
        }
        if has_entry(x, o, h, k, lc) {
            assert(has_entry(x, x[child_of(r, 1)], h, k, lc));
        }
    }
}

} // verus!
