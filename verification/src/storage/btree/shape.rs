//! The shape an index file keeps: which pages are in use, how high each one
//! stands above the leaves, and which page refers to each child.

use crate::common::key_order::{first_match, prefix_le_len, prefix_lt_len};
use crate::storage::btree::btree::MIN_KEYS_PER_PAGE;
use crate::storage::btree::leaf_page::Leaf;
use crate::storage::btree::location::{page_index, valid_page_offset, Location, PAGE_SIZE};
use crate::storage::btree::page::PageView;
use vstd::prelude::*;

verus! {

/// Ghost bookkeeping about an index file: the root page, the pages in use,
/// the height of each (leaves are at 0) and, for each child page, the page and
/// slot that refer to it. The root's parent is `(-2, 0)`; a page split off and
/// not yet stored has children whose parent is `(-1, slot)`.
pub struct Shape {
    pub root: int,
    pub live: Set<int>,
    pub height: spec_fn(int) -> nat,
    pub parent: spec_fn(int) -> (int, int),
}

/// Page number of the `k`-th location of `v`.
pub open spec fn child_of(v: PageView, k: int) -> int {
    page_index(v.locs[k]->Page_0.start_offset)
}

/// The `k`-th location of `v` is a page-aligned page location.
pub open spec fn page_loc_ok(l: Location) -> bool {
    l is Page && l->Page_0.start_offset % PAGE_SIZE == 0
}

/// `v` is a well-formed page at height `h` whose children are in use one
/// level lower.
pub open spec fn node_ok(sh: Shape, v: PageView, h: nat) -> bool {
    if v.is_leaf {
        &&& h == 0
        &&& v.keys.len() == v.locs.len()
    } else {
        &&& h > 0
        &&& v.locs.len() == v.keys.len() + 1
        &&& forall|k: int|
            0 <= k < v.locs.len() ==> {
                &&& page_loc_ok(#[trigger] v.locs[k])
                &&& sh.live.contains(child_of(v, k))
                &&& (sh.height)(child_of(v, k)) == h - 1
            }
    }
}

/// The index file `s` has shape `sh`: every page in use is well formed and
/// stored, each child is referred to by exactly one slot, the root by none,
/// pages other than the root hold at least `MIN_KEYS_PER_PAGE` keys and an
/// internal root at least one separator.
pub open spec fn tree_ok(s: Seq<PageView>, sh: Shape) -> bool {
    &&& sh.live.contains(sh.root)
    &&& forall|i: int|
        #[trigger] sh.live.contains(i) ==> {
            &&& 0 <= i < s.len()
            &&& node_ok(sh, s[i], (sh.height)(i))
            &&& i != sh.root ==> s[i].keys.len() >= MIN_KEYS_PER_PAGE
        }
    &&& forall|i: int, k: int|
        #![trigger sh.live.contains(i), s[i].locs[k]]
        sh.live.contains(i) && !s[i].is_leaf && 0 <= k < s[i].locs.len() ==> (sh.parent)(
            child_of(s[i], k),
        ) == (i, k)
    &&& (sh.parent)(sh.root) == (-2int, 0int)
    &&& (sh.height)(sh.root) < s.len()
    &&& !s[sh.root].is_leaf ==> s[sh.root].keys.len() >= 1
}

/// `sh2` keeps every page that `sh` has in use, at the same height.
pub open spec fn shape_grows(sh: Shape, sh2: Shape) -> bool {
    forall|j: int|
        #[trigger] sh.live.contains(j) ==> sh2.live.contains(j) && (sh2.height)(j) == (sh.height)(
            j,
        )
}

/// A page that is well formed in one shape stays so in a shape that grows it.
pub proof fn lemma_node_ok_grows(sh: Shape, sh2: Shape, v: PageView, h: nat)
    requires
        node_ok(sh, v, h),
        shape_grows(sh, sh2),
    ensures
        node_ok(sh2, v, h),
{
    if !v.is_leaf {
        assert forall|k: int| 0 <= k < v.locs.len() implies {
            &&& page_loc_ok(#[trigger] v.locs[k])
            &&& sh2.live.contains(child_of(v, k))
            &&& (sh2.height)(child_of(v, k)) == h - 1
        } by {
            assert(page_loc_ok(v.locs[k]));
            assert(sh.live.contains(child_of(v, k)));
        }
    }
}

/// The location that `key` finds below page `v` of height `h`: the first equal
/// key of the leaf reached by following, at each internal page, the child
/// after every separator at or before `key`.
pub open spec fn lookup(s: Seq<PageView>, v: PageView, h: nat, key: Seq<u8>) -> Option<Location>
    decreases h,
{
    if v.is_leaf {
        Leaf::lookup(v, key)
    } else if h == 0 {
        None
    } else {
        let i = prefix_le_len(v.keys, key) as int;
        if i < v.locs.len() && 0 <= child_of(v, i) < s.len() {
            lookup(s, s[child_of(v, i)], (h - 1) as nat, key)
        } else {
            None
        }
    }
}

/// Removing `key` below page `v` of height `h` finds it: the leaf reached as
/// `lookup` goes holds `key` at the position of its first key not before
/// `key`.
pub open spec fn located(s: Seq<PageView>, v: PageView, h: nat, key: Seq<u8>) -> bool
    decreases h,
{
    if v.is_leaf {
        let i = prefix_lt_len(v.keys, key) as int;
        i < v.keys.len() && v.keys[i] == key
    } else if h == 0 {
        false
    } else {
        let i = prefix_le_len(v.keys, key) as int;
        i < v.locs.len() && 0 <= child_of(v, i) < s.len() && located(s, s[child_of(v, i)], (h - 1) as nat, key)
    }
}

/// Looking up `key` below page `v`, looking at most `h` levels down, runs
/// without fault: each internal page on the way holds a child for `key`, a
/// stored page, and the leaf reached holds a location for its first key equal
/// to `key`.
pub open spec fn route_ok(s: Seq<PageView>, v: PageView, h: nat, key: Seq<u8>) -> bool
    decreases h,
{
    if v.is_leaf {
        let i = first_match(v.keys, key);
        i < v.keys.len() ==> i < v.locs.len()
    } else {
        let i = prefix_le_len(v.keys, key) as int;
        &&& h > 0
        &&& i < v.locs.len()
        &&& v.locs[i] is Page
        &&& valid_page_offset(v.locs[i]->Page_0.start_offset, s.len())
        &&& route_ok(s, s[child_of(v, i)], (h - 1) as nat, key)
    }
}

/// Every lookup below a well-formed page runs without fault.
pub proof fn lemma_route_ok(s: Seq<PageView>, sh: Shape, v: PageView, h: nat, key: Seq<u8>)
    requires
        tree_ok(s, sh),
        node_ok(sh, v, h),
    ensures
        route_ok(s, v, h, key),
    decreases h,
{
    if !v.is_leaf {
        let i = prefix_le_len(v.keys, key) as int;
        crate::common::key_order::lemma_prefix_le_len(v.keys, key);
        assert(page_loc_ok(v.locs[i]));
        let c = child_of(v, i);
        assert(sh.live.contains(c));
        lemma_route_ok(s, sh, s[c], (h - 1) as nat, key);
    } else {
        crate::common::key_order::lemma_first_match(v.keys, key);
    }
}

/// Looking further down than the height of a well-formed page changes nothing.
pub proof fn lemma_lookup_height(s: Seq<PageView>, sh: Shape, v: PageView, h: nat, h2: nat, key: Seq<u8>)
    requires
        tree_ok(s, sh),
        node_ok(sh, v, h),
        h <= h2,
    ensures
        lookup(s, v, h, key) == lookup(s, v, h2, key),
    decreases h,
{
    if !v.is_leaf {
        let i = prefix_le_len(v.keys, key) as int;
        crate::common::key_order::lemma_prefix_le_len(v.keys, key);
        assert(page_loc_ok(v.locs[i]));
        let c = child_of(v, i);
        assert(sh.live.contains(c));
        lemma_lookup_height(s, sh, s[c], (h - 1) as nat, (h2 - 1) as nat, key);
    }
}

/// Looking further down than the height of a well-formed page does not change
/// whether removing finds a key.
pub proof fn lemma_located_height(s: Seq<PageView>, sh: Shape, v: PageView, h: nat, h2: nat, key: Seq<u8>)
    requires
        tree_ok(s, sh),
        node_ok(sh, v, h),
        h <= h2,
    ensures
        located(s, v, h, key) == located(s, v, h2, key),
    decreases h,
{
    if !v.is_leaf {
        let i = prefix_le_len(v.keys, key) as int;
        crate::common::key_order::lemma_prefix_le_len(v.keys, key);
        assert(page_loc_ok(v.locs[i]));
        let c = child_of(v, i);
        assert(sh.live.contains(c));
        lemma_located_height(s, sh, s[c], (h - 1) as nat, (h2 - 1) as nat, key);
    }
}

/// What adding below page `me` (height `h` in shape `sh`) leaves: `s1` is the
/// file afterwards and `v1` the page itself, which the caller stores back;
/// `over` is the page split off from it, not yet stored. With `v1` stored the
/// file has a shape `sh2` that keeps the root and every page in use, the pages
/// above `me` and the slots that refer to their children are unchanged, and
/// a split-off page is well formed with children waiting for a parent.
pub open spec fn add_post(
    s0: Seq<PageView>,
    sh: Shape,
    me: int,
    s1: Seq<PageView>,
    v1: PageView,
    over: Option<PageView>,
    sh2: Shape,
) -> bool {
    let h = (sh.height)(me);
    &&& s0.len() <= s1.len() <= s0.len() + h
    &&& tree_ok(s1.update(me, v1), sh2)
    &&& sh2.root == sh.root
    &&& shape_grows(sh, sh2)
    &&& forall|j: int|
        #[trigger] sh.live.contains(j) && (sh.height)(j) > h ==> s1[j] == s0[j]
    &&& forall|c: int|
        #[trigger] sh.live.contains(c) && (sh.parent)(c).0 >= 0 && sh.live.contains((sh.parent)(c).0)
            && (sh.height)((sh.parent)(c).0) > h ==> (sh2.parent)(c) == (sh.parent)(c)
    &&& v1.is_leaf == s0[me].is_leaf
    &&& match over {
        None => true,
        Some(o) => {
            &&& o.is_leaf == v1.is_leaf
            &&& node_ok(sh2, o, h)
            &&& o.keys.len() >= MIN_KEYS_PER_PAGE
            &&& v1.keys.len() >= MIN_KEYS_PER_PAGE
            &&& forall|k: int|
                0 <= k < o.locs.len() && !o.is_leaf ==> (sh2.parent)(#[trigger] child_of(o, k)) == (
                    -1int,
                    k,
                )
        },
    }
}

/// The page `v` with `key` inserted at `idx` and a child `loc` just after the
/// child at `idx`.
pub open spec fn with_child(v: PageView, idx: int, key: Seq<u8>, loc: Location) -> PageView {
    PageView { is_leaf: false, keys: v.keys.insert(idx, key), locs: v.locs.insert(idx + 1, loc) }
}

/// The shape after page `n`, at height `hc`, is stored as the child of `me`
/// just after slot `idx`, taking the children that wait for a parent.
pub open spec fn shape_with_child(sh: Shape, me: int, idx: int, n: int, hc: nat) -> Shape {
    Shape {
        root: sh.root,
        live: sh.live.insert(n),
        height: |x: int|
            if x == n {
                hc
            } else {
                (sh.height)(x)
            },
        parent: |x: int|
            if x == n {
                (me, idx + 1)
            } else if (sh.parent)(x).0 == me && (sh.parent)(x).1 > idx {
                (me, (sh.parent)(x).1 + 1)
            } else if (sh.parent)(x).0 == -1 {
                (n, (sh.parent)(x).1)
            } else {
                (sh.parent)(x)
            },
    }
}

/// Storing a split-off child `o` as new page `n` next to its sibling keeps the
/// file well formed.
pub proof fn lemma_store_split_child(
    v: Seq<PageView>,
    sh: Shape,
    me: int,
    idx: int,
    key: Seq<u8>,
    o: PageView,
    loc: Location,
)
    requires
        tree_ok(v, sh),
        sh.live.contains(me),
        !v[me].is_leaf,
        0 <= idx < v[me].locs.len(),
        (sh.height)(me) >= 1,
        node_ok(sh, o, ((sh.height)(me) - 1) as nat),
        o.keys.len() >= MIN_KEYS_PER_PAGE,
        forall|k: int|
            0 <= k < o.locs.len() && !o.is_leaf ==> (sh.parent)(#[trigger] child_of(o, k)) == (-1int, k),
        page_loc_ok(loc),
        page_index(loc->Page_0.start_offset) == v.len(),
    ensures
        ({
            let n = v.len() as int;
            let sh3 = shape_with_child(sh, me, idx, n, ((sh.height)(me) - 1) as nat);
            let w = v.push(o).update(me, with_child(v[me], idx, key, loc));
            &&& tree_ok(w, sh3)
            &&& shape_grows(sh, sh3)
            &&& forall|c: int|
                #[trigger] sh.live.contains(c) && (sh.parent)(c).0 != me && (sh.parent)(c).0 >= 0 ==> (
                sh3.parent)(c) == (sh.parent)(c)
        }),
{
    let n = v.len() as int;
    let hc = ((sh.height)(me) - 1) as nat;
    let sh3 = shape_with_child(sh, me, idx, n, hc);
    let old_v = v[me];
    let nv = with_child(old_v, idx, key, loc);
    let w = v.push(o).update(me, nv);
    assert(!sh.live.contains(n));
    assert(shape_grows(sh, sh3));
    assert forall|i: int| #[trigger] sh3.live.contains(i) implies {
        &&& 0 <= i < w.len()
        &&& node_ok(sh3, w[i], (sh3.height)(i))
        &&& i != sh3.root ==> w[i].keys.len() >= MIN_KEYS_PER_PAGE
    } by {
        if i == n {
            lemma_node_ok_grows(sh, sh3, o, hc);
        } else if i == me {
            assert(node_ok(sh, old_v, (sh.height)(me)));
            assert forall|k: int| 0 <= k < nv.locs.len() implies {
                &&& page_loc_ok(#[trigger] nv.locs[k])
                &&& sh3.live.contains(child_of(nv, k))
                &&& (sh3.height)(child_of(nv, k)) == (sh3.height)(me) - 1
            } by {
                if k < idx + 1 {
                    assert(nv.locs[k] == old_v.locs[k]);
                    assert(page_loc_ok(old_v.locs[k]));
                } else if k > idx + 1 {
                    assert(nv.locs[k] == old_v.locs[k - 1]);
                    assert(page_loc_ok(old_v.locs[k - 1]));
                }
            }
        } else {
            lemma_node_ok_grows(sh, sh3, v[i], (sh.height)(i));
        }
    }
    assert forall|i: int, k: int|
        #![trigger sh3.live.contains(i), w[i].locs[k]]
        sh3.live.contains(i) && !w[i].is_leaf && 0 <= k < w[i].locs.len() implies (sh3.parent)(
            child_of(w[i], k),
        ) == (i, k) by {
        if i == n {
            let x = child_of(o, k);
            assert((sh.parent)(x) == (-1int, k));
            assert(node_ok(sh, o, hc));
            assert(page_loc_ok(o.locs[k]));
            assert(sh.live.contains(x));
        } else if i == me {
            assert(node_ok(sh, old_v, (sh.height)(me)));
            if k < idx + 1 {
                assert(nv.locs[k] == old_v.locs[k]);
                assert(page_loc_ok(old_v.locs[k]));
                assert(sh.live.contains(child_of(old_v, k)));
                assert((sh.parent)(child_of(old_v, k)) == (me, k));
            } else if k > idx + 1 {
                assert(nv.locs[k] == old_v.locs[k - 1]);
                assert(page_loc_ok(old_v.locs[k - 1]));
                assert(sh.live.contains(child_of(old_v, k - 1)));
                assert((sh.parent)(child_of(old_v, k - 1)) == (me, k - 1));
            }
        } else {
            let x = child_of(v[i], k);
            assert((sh.parent)(x) == (i, k));
            assert(node_ok(sh, v[i], (sh.height)(i)));
            assert(page_loc_ok(v[i].locs[k]));
            assert(sh.live.contains(x));
        }
    }
    assert(tree_ok(w, sh3));
}

/// The shape after page `me` keeps its first `m + 1` children and the others
/// move to a page not yet stored.
pub open spec fn shape_after_split(sh: Shape, me: int, m: int) -> Shape {
    Shape {
        root: sh.root,
        live: sh.live,
        height: sh.height,
        parent: |x: int|
            if (sh.parent)(x).0 == me && (sh.parent)(x).1 > m {
                (-1int, (sh.parent)(x).1 - (m + 1))
            } else {
                (sh.parent)(x)
            },
    }
}

/// Splitting internal page `me` keeps the file well formed, the upper part's
/// children waiting for a parent.
pub proof fn lemma_split_internal(w: Seq<PageView>, sh: Shape, me: int, m: int)
    requires
        tree_ok(w, sh),
        sh.live.contains(me),
        !w[me].is_leaf,
        MIN_KEYS_PER_PAGE <= m,
        m + 1 + MIN_KEYS_PER_PAGE <= w[me].keys.len(),
    ensures
        ({
            let sh4 = shape_after_split(sh, me, m);
            let lower = PageView {
                is_leaf: false,
                keys: w[me].keys.take(m),
                locs: w[me].locs.take(m + 1),
            };
            let upper = PageView {
                is_leaf: false,
                keys: w[me].keys.skip(m + 1),
                locs: w[me].locs.skip(m + 1),
            };
            &&& tree_ok(w.update(me, lower), sh4)
            &&& node_ok(sh4, upper, (sh.height)(me))
            &&& forall|k: int|
                0 <= k < upper.locs.len() ==> (sh4.parent)(#[trigger] child_of(upper, k)) == (-1int, k)
            &&& forall|c: int| #[trigger] (sh.parent)(c).0 != me ==> (sh4.parent)(c) == (sh.parent)(c)
        }),
{
    let sh4 = shape_after_split(sh, me, m);
    let v = w[me];
    let lower = PageView { is_leaf: false, keys: v.keys.take(m), locs: v.locs.take(m + 1) };
    let upper = PageView { is_leaf: false, keys: v.keys.skip(m + 1), locs: v.locs.skip(m + 1) };
    let w2 = w.update(me, lower);
    assert(node_ok(sh, v, (sh.height)(me)));
    assert forall|i: int| #[trigger] sh4.live.contains(i) implies {
        &&& 0 <= i < w2.len()
        &&& node_ok(sh4, w2[i], (sh4.height)(i))
        &&& i != sh4.root ==> w2[i].keys.len() >= MIN_KEYS_PER_PAGE
    } by {
        if i == me {
            assert forall|k: int| 0 <= k < lower.locs.len() implies {
                &&& page_loc_ok(#[trigger] lower.locs[k])
                &&& sh4.live.contains(child_of(lower, k))
                &&& (sh4.height)(child_of(lower, k)) == (sh4.height)(me) - 1
            } by {
                assert(lower.locs[k] == v.locs[k]);
                assert(page_loc_ok(v.locs[k]));
            }
        } else {
            assert(node_ok(sh, w[i], (sh.height)(i)));
            if !w[i].is_leaf {
                assert forall|k: int| 0 <= k < w[i].locs.len() implies {
                    &&& page_loc_ok(#[trigger] w[i].locs[k])
                    &&& sh4.live.contains(child_of(w[i], k))
                    &&& (sh4.height)(child_of(w[i], k)) == (sh4.height)(i) - 1
                } by {
                    assert(page_loc_ok(w[i].locs[k]));
                }
            }
        }
    }
    assert forall|i: int, k: int|
        #![trigger sh4.live.contains(i), w2[i].locs[k]]
        sh4.live.contains(i) && !w2[i].is_leaf && 0 <= k < w2[i].locs.len() implies (sh4.parent)(
            child_of(w2[i], k),
        ) == (i, k) by {
        if i == me {
            assert(lower.locs[k] == v.locs[k]);
            assert((sh.parent)(child_of(v, k)) == (me, k));
        } else {
            assert((sh.parent)(child_of(w[i], k)) == (i, k));
        }
    }
    assert forall|k: int| 0 <= k < upper.locs.len() implies {
        &&& page_loc_ok(#[trigger] upper.locs[k])
        &&& sh4.live.contains(child_of(upper, k))
        &&& (sh4.height)(child_of(upper, k)) == (sh.height)(me) - 1
    } by {
        assert(upper.locs[k] == v.locs[k + m + 1]);
        assert(page_loc_ok(v.locs[k + m + 1]));
    }
    assert forall|k: int| 0 <= k < upper.locs.len() implies (sh4.parent)(#[trigger] child_of(upper, k))
        == (-1int, k) by {
        assert(upper.locs[k] == v.locs[k + m + 1]);
        assert((sh.parent)(child_of(v, k + m + 1)) == (me, k + m + 1));
    }
    assert(tree_ok(w2, sh4));
}

/// Restructuring below page `me` that changed only the pages `c1`, `c2` and
/// `c3` (below `me`), left the file well formed but for `me` and kept the
/// slots of every page but `a` and `b` (neither above `me`) meets `fix_post`.
pub proof fn lemma_fix_post(
    s0: Seq<PageView>,
    sh: Shape,
    me: int,
    s1: Seq<PageView>,
    v1: PageView,
    sh2: Shape,
    a: int,
    b: int,
    c1: int,
    c2: int,
    c3: int,
)
    requires
        sh.live.contains(me),
        0 <= me < s1.len(),
        tree_ok_relaxed(s1.update(me, v1), sh2, me),
        shape_kept(sh, sh2, a, b),
        s1.len() == s0.len(),
        forall|j: int| 0 <= j < s0.len() && j != c1 && j != c2 && j != c3 ==> #[trigger] s1[j] == s0[j],
        (sh.height)(c1) < (sh.height)(me),
        (sh.height)(c2) < (sh.height)(me),
        (sh.height)(c3) < (sh.height)(me),
        (sh.height)(a) <= (sh.height)(me),
        (sh.height)(b) <= (sh.height)(me),
        forall|j: int| #[trigger] sh.live.contains(j) && !sh2.live.contains(j) ==> (sh.height)(j) < (sh.height)(me),
        v1.is_leaf == s0[me].is_leaf,
    ensures
        fix_post(s0, sh, me, s1, v1, sh2),
{
    let h = (sh.height)(me);
    assert forall|j: int| #[trigger] sh.live.contains(j) && (sh.height)(j) >= h implies sh2.live.contains(j) by {}
    assert forall|j: int| #[trigger] sh.live.contains(j) && (sh.height)(j) > h implies s1[j] == s0[j] by {
        assert(sh2.live.contains(j));
        assert(0 <= j < s1.update(me, v1).len());
        assert(j != c1 && j != c2 && j != c3);
    }
    assert forall|x: int|
        #[trigger] sh.live.contains((sh.parent)(x).0) && (sh.height)((sh.parent)(x).0) > h implies (
        sh2.parent)(x) == (sh.parent)(x) by {
        assert((sh.parent)(x).0 != a && (sh.parent)(x).0 != b);
    }
}

/// A child `c` of page `me` that was restructured and is stored back whole
/// leaves `me` restructured in the same way.
pub proof fn lemma_fix_lift(s0: Seq<PageView>, sh: Shape, me: int, c: int, s1: Seq<PageView>, v1: PageView, sh2: Shape)
    requires
        sh.live.contains(me),
        sh.live.contains(c),
        (sh.height)(c) + 1 == (sh.height)(me),
        0 <= me < s0.len(),
        0 <= c < s0.len(),
        fix_post(s0, sh, c, s1, v1, sh2),
        tree_ok(s1.update(c, v1), sh2),
    ensures
        s1.update(c, v1)[me] == s0[me],
        fix_post(s0, sh, me, s1.update(c, v1), s0[me], sh2),
        tree_ok(s1.update(c, v1).update(me, s0[me]), sh2),
{
    let t = s1.update(c, v1);
    assert(s1[me] == s0[me]);
    assert(t.update(me, s0[me]) =~= t);
    lemma_relax(t, sh2, me);
    let hm = (sh.height)(me);
    assert forall|j: int| #[trigger] sh.live.contains(j) && (sh.height)(j) > hm implies t[j] == s0[j] by {
        assert(s1[j] == s0[j]);
    }
}

/// Restructuring child `c` of page `me` and then `me` itself composes.
pub proof fn lemma_fix_compose(
    s0: Seq<PageView>,
    sh: Shape,
    me: int,
    c: int,
    s1: Seq<PageView>,
    v1: PageView,
    sh2: Shape,
    s2: Seq<PageView>,
    v2: PageView,
    sh3: Shape,
)
    requires
        sh.live.contains(me),
        sh.live.contains(c),
        (sh.height)(c) + 1 == (sh.height)(me),
        0 <= me < s0.len(),
        0 <= c < s0.len(),
        fix_post(s0, sh, c, s1, v1, sh2),
        fix_post(s1.update(c, v1), sh2, me, s2, v2, sh3),
    ensures
        fix_post(s0, sh, me, s2, v2, sh3),
{
    let t = s1.update(c, v1);
    let hm = (sh.height)(me);
    assert(s1[me] == s0[me]);
    assert forall|j: int| #[trigger] sh.live.contains(j) && (sh.height)(j) >= hm implies sh3.live.contains(j) by {
        assert(sh2.live.contains(j));
    }
    assert forall|j: int| #[trigger] sh.live.contains(j) && (sh.height)(j) > hm implies s2[j] == s0[j] by {
        assert(sh2.live.contains(j));
        assert(s1[j] == s0[j]);
    }
    assert forall|x: int|
        #[trigger] sh.live.contains((sh.parent)(x).0) && (sh.height)((sh.parent)(x).0) > hm implies (
        sh3.parent)(x) == (sh.parent)(x) by {
        assert(sh2.live.contains((sh.parent)(x).0));
    }
}

/// Replacing a leaf by another leaf of matching keys and locations, large
/// enough unless it is the root, keeps the file well formed.
pub proof fn lemma_replace_leaf(s: Seq<PageView>, sh: Shape, me: int, v1: PageView)
    requires
        tree_ok(s, sh),
        sh.live.contains(me),
        s[me].is_leaf,
        v1.is_leaf,
        v1.keys.len() == v1.locs.len(),
        me != sh.root ==> v1.keys.len() >= MIN_KEYS_PER_PAGE,
    ensures
        tree_ok(s.update(me, v1), sh),
{
    let s2 = s.update(me, v1);
    assert forall|i: int| #[trigger] sh.live.contains(i) implies {
        &&& 0 <= i < s2.len()
        &&& node_ok(sh, s2[i], (sh.height)(i))
        &&& i != sh.root ==> s2[i].keys.len() >= MIN_KEYS_PER_PAGE
    } by {
        if i == me {
            assert(node_ok(sh, s[me], (sh.height)(me)));
        }
    }
    assert forall|i: int, k: int|
        #![trigger sh.live.contains(i), s2[i].locs[k]]
        sh.live.contains(i) && !s2[i].is_leaf && 0 <= k < s2[i].locs.len() implies (sh.parent)(
            child_of(s2[i], k),
        ) == (i, k) by {
        assert(i != me);
        assert(s2[i] == s[i]);
        assert((sh.parent)(child_of(s[i], k)) == (i, k));
    }
}

/// The shape after the root's lower part moves to new page `l` and the part
/// split off it is stored as new page `n`, both below a new root.
pub open spec fn shape_with_new_root(sh: Shape, n: int, l: int) -> Shape {
    Shape {
        root: sh.root,
        live: sh.live.insert(n).insert(l),
        height: |x: int|
            if x == sh.root {
                (sh.height)(sh.root) + 1
            } else if x == n || x == l {
                (sh.height)(sh.root)
            } else {
                (sh.height)(x)
            },
        parent: |x: int|
            if x == l {
                (sh.root, 0int)
            } else if x == n {
                (sh.root, 1int)
            } else if (sh.parent)(x).0 == sh.root {
                (l, (sh.parent)(x).1)
            } else if (sh.parent)(x).0 == -1 {
                (n, (sh.parent)(x).1)
            } else {
                (sh.parent)(x)
            },
    }
}

/// A root with one separator between its lower part, moved to new page `l`,
/// and the part split off it, stored as new page `n`.
pub open spec fn new_root_view(key: Seq<u8>, l_loc: Location, n_loc: Location) -> PageView {
    PageView { is_leaf: false, keys: seq![key], locs: seq![l_loc, n_loc] }
}

/// When the root splits, storing both parts as new pages below a new root
/// keeps the file well formed.
pub proof fn lemma_grow_root(
    s1: Seq<PageView>,
    sh: Shape,
    v1: PageView,
    o: PageView,
    key: Seq<u8>,
    n_loc: Location,
    l_loc: Location,
)
    requires
        0 <= sh.root < s1.len(),
        tree_ok(s1.update(sh.root, v1), sh),
        node_ok(sh, o, (sh.height)(sh.root)),
        o.is_leaf == v1.is_leaf,
        o.keys.len() >= MIN_KEYS_PER_PAGE,
        v1.keys.len() >= MIN_KEYS_PER_PAGE,
        forall|k: int|
            0 <= k < o.locs.len() && !o.is_leaf ==> (sh.parent)(#[trigger] child_of(o, k)) == (-1int, k),
        page_loc_ok(n_loc),
        page_loc_ok(l_loc),
        page_index(n_loc->Page_0.start_offset) == s1.len(),
        page_index(l_loc->Page_0.start_offset) == s1.len() + 1,
    ensures
        ({
            let n = s1.len() as int;
            let l = n + 1;
            let x = s1.push(o).push(v1).update(sh.root, new_root_view(key, l_loc, n_loc));
            tree_ok(x, shape_with_new_root(sh, n, l))
        }),
{
    let v = s1.update(sh.root, v1);
    let root = sh.root;
    let h = (sh.height)(root);
    let n = s1.len() as int;
    let l = n + 1;
    let nr = new_root_view(key, l_loc, n_loc);
    let x = s1.push(o).push(v1).update(root, nr);
    let sh5 = shape_with_new_root(sh, n, l);
    assert(sh.live.contains(root));
    assert(0 <= root < v.len());
    if sh.live.contains(n) {
        assert(n < v.len());
    }
    if sh.live.contains(l) {
        assert(l < v.len());
    }
    assert(v[root] == v1);
    assert(node_ok(sh, v1, h));
    assert forall|i: int| #[trigger] sh5.live.contains(i) implies {
        &&& 0 <= i < x.len()
        &&& node_ok(sh5, x[i], (sh5.height)(i))
        &&& i != sh5.root ==> x[i].keys.len() >= MIN_KEYS_PER_PAGE
    } by {
        if i == root {
            assert forall|k: int| 0 <= k < nr.locs.len() implies {
                &&& page_loc_ok(#[trigger] nr.locs[k])
                &&& sh5.live.contains(child_of(nr, k))
                &&& (sh5.height)(child_of(nr, k)) == (sh5.height)(root) - 1
            } by {
                if k == 0 {
                    assert(nr.locs[k] == l_loc);
                } else {
                    assert(nr.locs[k] == n_loc);
                }
            }
        } else if i == l || i == n {
            let pv = if i == l { v1 } else { o };
            assert(x[i] == pv);
            if !pv.is_leaf {
                assert forall|k: int| 0 <= k < pv.locs.len() implies {
                    &&& page_loc_ok(#[trigger] pv.locs[k])
                    &&& sh5.live.contains(child_of(pv, k))
                    &&& (sh5.height)(child_of(pv, k)) == (sh5.height)(i) - 1
                } by {
                    assert(page_loc_ok(pv.locs[k]));
                    let c = child_of(pv, k);
                    assert(sh.live.contains(c));
                    if i == l {
                        assert((sh.parent)(c) == (root, k));
                    } else {
                        assert((sh.parent)(c) == (-1int, k));
                    }
                    assert(c != root);
                }
            }
        } else {
            assert(x[i] == v[i]);
            assert(node_ok(sh, v[i], (sh.height)(i)));
            if !v[i].is_leaf {
                assert forall|k: int| 0 <= k < v[i].locs.len() implies {
                    &&& page_loc_ok(#[trigger] v[i].locs[k])
                    &&& sh5.live.contains(child_of(v[i], k))
                    &&& (sh5.height)(child_of(v[i], k)) == (sh5.height)(i) - 1
                } by {
                    assert(page_loc_ok(v[i].locs[k]));
                    let c = child_of(v[i], k);
                    assert((sh.parent)(c) == (i, k));
                    assert(c != root);
                }
            }
        }
    }
    assert forall|i: int, k: int|
        #![trigger sh5.live.contains(i), x[i].locs[k]]
        sh5.live.contains(i) && !x[i].is_leaf && 0 <= k < x[i].locs.len() implies (sh5.parent)(
            child_of(x[i], k),
        ) == (i, k) by {
        if i == root {
            if k == 0 {
                assert(nr.locs[k] == l_loc);
            } else {
                assert(nr.locs[k] == n_loc);
            }
        } else if i == l {
            let c = child_of(v1, k);
            assert((sh.parent)(c) == (root, k));
            assert(page_loc_ok(v1.locs[k]));
            assert(sh.live.contains(c));
        } else if i == n {
            let c = child_of(o, k);
            assert((sh.parent)(c) == (-1int, k));
            assert(page_loc_ok(o.locs[k]));
            assert(sh.live.contains(c));
        } else {
            assert(x[i] == v[i]);
            let c = child_of(v[i], k);
            assert((sh.parent)(c) == (i, k));
            assert(page_loc_ok(v[i].locs[k]));
            assert(sh.live.contains(c));
        }
    }
    assert(tree_ok(x, sh5));
}

/// `tree_ok`, except that page `x` may hold one key fewer than
/// `MIN_KEYS_PER_PAGE` and, when `x` is the root, may be an internal page
/// without separators.
pub open spec fn tree_ok_relaxed(s: Seq<PageView>, sh: Shape, x: int) -> bool {
    &&& sh.live.contains(sh.root)
    &&& forall|i: int|
        #[trigger] sh.live.contains(i) ==> {
            &&& 0 <= i < s.len()
            &&& node_ok(sh, s[i], (sh.height)(i))
            &&& i != sh.root ==> if i == x {
                s[i].keys.len() + 1 >= MIN_KEYS_PER_PAGE
            } else {
                s[i].keys.len() >= MIN_KEYS_PER_PAGE
            }
        }
    &&& forall|i: int, k: int|
        #![trigger sh.live.contains(i), s[i].locs[k]]
        sh.live.contains(i) && !s[i].is_leaf && 0 <= k < s[i].locs.len() ==> (sh.parent)(
            child_of(s[i], k),
        ) == (i, k)
    &&& (sh.parent)(sh.root) == (-2int, 0int)
    &&& (sh.height)(sh.root) < s.len()
    &&& x != sh.root ==> (!s[sh.root].is_leaf ==> s[sh.root].keys.len() >= 1)
}

/// The full invariant implies the relaxed one, and the relaxed one implies
/// the full one once page `x` is large enough again.
pub proof fn lemma_relax(s: Seq<PageView>, sh: Shape, x: int)
    ensures
        tree_ok(s, sh) ==> tree_ok_relaxed(s, sh, x),
        tree_ok_relaxed(s, sh, x) && (sh.live.contains(x) && x != sh.root ==> s[x].keys.len()
            >= MIN_KEYS_PER_PAGE) && (x == sh.root ==> (!s[sh.root].is_leaf ==> s[sh.root].keys.len()
            >= 1)) ==> tree_ok(s, sh),
{
    if tree_ok(s, sh) {
        assert forall|i: int| #[trigger] sh.live.contains(i) implies {
            &&& 0 <= i < s.len()
            &&& node_ok(sh, s[i], (sh.height)(i))
            &&& i != sh.root ==> if i == x {
                s[i].keys.len() + 1 >= MIN_KEYS_PER_PAGE
            } else {
                s[i].keys.len() >= MIN_KEYS_PER_PAGE
            }
        } by {}
    }
    if tree_ok_relaxed(s, sh, x) && (sh.live.contains(x) && x != sh.root ==> s[x].keys.len()
        >= MIN_KEYS_PER_PAGE) && (x == sh.root ==> (!s[sh.root].is_leaf ==> s[sh.root].keys.len()
        >= 1)) {
        assert forall|i: int| #[trigger] sh.live.contains(i) implies {
            &&& 0 <= i < s.len()
            &&& node_ok(sh, s[i], (sh.height)(i))
            &&& i != sh.root ==> s[i].keys.len() >= MIN_KEYS_PER_PAGE
        } by {}
    }
}

/// Children of a page in use are in use, below it, referred to by its slot,
/// and are neither the page itself nor the root.
pub proof fn lemma_child_facts(s: Seq<PageView>, sh: Shape, x: int, p: int, k: int)
    requires
        tree_ok_relaxed(s, sh, x),
        sh.live.contains(p),
        !s[p].is_leaf,
        0 <= k < s[p].locs.len(),
    ensures
        page_loc_ok(s[p].locs[k]),
        sh.live.contains(child_of(s[p], k)),
        (sh.height)(child_of(s[p], k)) + 1 == (sh.height)(p),
        (sh.parent)(child_of(s[p], k)) == (p, k),
        child_of(s[p], k) != p,
        child_of(s[p], k) != sh.root,
        0 <= child_of(s[p], k) < s.len(),
        s[child_of(s[p], k)].is_leaf <==> (sh.height)(p) == 1,
{
    assert(node_ok(sh, s[p], (sh.height)(p)));
    assert(page_loc_ok(s[p].locs[k]));
    let c = child_of(s[p], k);
    assert(sh.live.contains(c));
    assert(node_ok(sh, s[c], (sh.height)(c)));
}

/// The page that borrowing from its right sibling `r` leaves of child `x`:
/// a leaf takes `r`'s first key and location; an internal page takes the
/// parent's separator `psep` and `r`'s first child.
pub open spec fn borrowed_from_right(x: PageView, r: PageView, psep: Seq<u8>) -> PageView {
    if x.is_leaf {
        PageView { is_leaf: true, keys: x.keys.push(r.keys[0]), locs: x.locs.push(r.locs[0]) }
    } else {
        PageView { is_leaf: false, keys: x.keys.push(psep), locs: x.locs.push(r.locs[0]) }
    }
}

/// The page that borrowing from its left sibling `l` leaves of child `x`.
pub open spec fn borrowed_from_left(x: PageView, l: PageView, psep: Seq<u8>) -> PageView {
    if x.is_leaf {
        PageView {
            is_leaf: true,
            keys: x.keys.insert(0, l.keys.last()),
            locs: x.locs.insert(0, l.locs.last()),
        }
    } else {
        PageView {
            is_leaf: false,
            keys: x.keys.insert(0, psep),
            locs: x.locs.insert(0, l.locs.last()),
        }
    }
}

/// `v` without its first key and location.
pub open spec fn without_first(v: PageView) -> PageView {
    PageView { is_leaf: v.is_leaf, keys: v.keys.drop_first(), locs: v.locs.drop_first() }
}

/// `v` without its last key and location.
pub open spec fn without_last(v: PageView) -> PageView {
    PageView { is_leaf: v.is_leaf, keys: v.keys.drop_last(), locs: v.locs.drop_last() }
}

/// `v` with nothing in it.
pub open spec fn emptied(v: PageView) -> PageView {
    PageView { is_leaf: v.is_leaf, keys: Seq::empty(), locs: Seq::empty() }
}

/// The shape after internal child `c` takes the first child of its right
/// sibling `r` as its slot `xlen`.
pub open spec fn shape_borrow_right(sh: Shape, c: int, r: int, xlen: int, moved: int) -> Shape {
    Shape {
        root: sh.root,
        live: sh.live,
        height: sh.height,
        parent: |x: int|
            if x == moved {
                (c, xlen)
            } else if (sh.parent)(x).0 == r {
                (r, (sh.parent)(x).1 - 1)
            } else {
                (sh.parent)(x)
            },
    }
}

/// The shape after internal child `c` takes the last child of its left
/// sibling as its first slot.
pub open spec fn shape_borrow_left(sh: Shape, c: int, moved: int) -> Shape {
    Shape {
        root: sh.root,
        live: sh.live,
        height: sh.height,
        parent: |x: int|
            if x == moved {
                (c, 0int)
            } else if (sh.parent)(x).0 == c {
                (c, (sh.parent)(x).1 + 1)
            } else {
                (sh.parent)(x)
            },
    }
}

/// The shape after child `gone` of page `me` is merged into its left
/// neighbour `into` (whose locations before the merge number `xlen`) and the
/// slot `slot` of `me` that referred to it is removed.
pub open spec fn shape_merge(sh: Shape, me: int, slot: int, into: int, gone: int, xlen: int) -> Shape {
    Shape {
        root: sh.root,
        live: sh.live.remove(gone),
        height: sh.height,
        parent: |x: int|
            if (sh.parent)(x).0 == gone {
                (into, xlen + (sh.parent)(x).1)
            } else if (sh.parent)(x).0 == me && (sh.parent)(x).1 > slot {
                (me, (sh.parent)(x).1 - 1)
            } else {
                (sh.parent)(x)
            },
    }
}

/// Shape facts that restructuring below page `me` keeps: the root, the heights,
/// and the slot of every child whose parent is not one of `a`, `b` or `me`.
pub open spec fn shape_kept(sh: Shape, sh2: Shape, a: int, b: int) -> bool {
    &&& sh2.root == sh.root
    &&& sh2.height == sh.height
    &&& sh2.live.subset_of(sh.live)
    &&& forall|x: int|
        #![trigger (sh2.parent)(x)]
        (sh.parent)(x).0 != a && (sh.parent)(x).0 != b ==> (sh2.parent)(x) == (sh.parent)(x)
}

/// Child `c` (slot `i` of page `me`) that fell one key short borrows the first
/// entry of its right sibling `r`; the parent's separator between them becomes
/// `r`'s new first key (leaves) or the borrowed key (internal pages).
pub proof fn lemma_borrow_right(s: Seq<PageView>, sh: Shape, me: int, i: int)
    requires
        sh.live.contains(me),
        !s[me].is_leaf,
        0 <= i,
        i + 1 < s[me].locs.len(),
        tree_ok_relaxed(s, sh, child_of(s[me], i)),
        s[child_of(s[me], i + 1)].keys.len() > MIN_KEYS_PER_PAGE,
    ensures
        ({
            let p = s[me];
            let c = child_of(p, i);
            let r = child_of(p, i + 1);
            let x = s[c];
            let rv = s[r];
            let p2 = PageView {
                is_leaf: false,
                keys: p.keys.update(i, if x.is_leaf { rv.keys[1] } else { rv.keys[0] }),
                locs: p.locs,
            };
            let sh2 = if x.is_leaf {
                sh
            } else {
                shape_borrow_right(sh, c, r, x.locs.len() as int, child_of(rv, 0))
            };
            &&& tree_ok(
                s.update(r, without_first(rv)).update(c, borrowed_from_right(x, rv, p.keys[i])).update(
                    me,
                    p2,
                ),
                sh2,
            )
            &&& shape_kept(sh, sh2, c, r)
            &&& sh2.live == sh.live
            &&& x.is_leaf == rv.is_leaf
            &&& c != r && c != me && r != me
        }),
{
    let p = s[me];
    let c = child_of(p, i);
    let r = child_of(p, i + 1);
    lemma_child_facts(s, sh, c, me, i);
    lemma_child_facts(s, sh, c, me, i + 1);
    let x = s[c];
    let rv = s[r];
    assert(node_ok(sh, x, (sh.height)(c)));
    assert(node_ok(sh, rv, (sh.height)(r)));
    let p2 = PageView {
        is_leaf: false,
        keys: p.keys.update(i, if x.is_leaf { rv.keys[1] } else { rv.keys[0] }),
        locs: p.locs,
    };
    let x2 = borrowed_from_right(x, rv, p.keys[i]);
    let r2 = without_first(rv);
    let moved = child_of(rv, 0);
    let sh2 = if x.is_leaf { sh } else { shape_borrow_right(sh, c, r, x.locs.len() as int, moved) };
    let t = s.update(r, r2).update(c, x2).update(me, p2);
    assert(rv.keys.len() >= 1);
    if !x.is_leaf {
        lemma_child_facts(s, sh, c, r, 0);
    }
    assert forall|j: int| #[trigger] sh2.live.contains(j) implies {
        &&& 0 <= j < t.len()
        &&& node_ok(sh2, t[j], (sh2.height)(j))
        &&& j != sh2.root ==> t[j].keys.len() >= MIN_KEYS_PER_PAGE
    } by {
        assert(sh.live.contains(j));
        assert(node_ok(sh, s[j], (sh.height)(j)));
        if !t[j].is_leaf {
            assert forall|k: int| 0 <= k < t[j].locs.len() implies {
                &&& page_loc_ok(#[trigger] t[j].locs[k])
                &&& sh2.live.contains(child_of(t[j], k))
                &&& (sh2.height)(child_of(t[j], k)) == (sh2.height)(j) - 1
            } by {
                if j == me {
                    assert(t[j].locs[k] == p.locs[k]);
                    lemma_child_facts(s, sh, c, me, k);
                } else if j == c {
                    if k < x.locs.len() {
                        assert(t[j].locs[k] == x.locs[k]);
                        lemma_child_facts(s, sh, c, c, k);
                    } else {
                        assert(t[j].locs[k] == rv.locs[0]);
                    }
                } else if j == r {
                    assert(t[j].locs[k] == rv.locs[k + 1]);
                    lemma_child_facts(s, sh, c, r, k + 1);
                } else {
                    assert(t[j] == s[j]);
                    lemma_child_facts(s, sh, c, j, k);
                }
            }
        }
    }
    assert forall|j: int, k: int|
        #![trigger sh2.live.contains(j), t[j].locs[k]]
        sh2.live.contains(j) && !t[j].is_leaf && 0 <= k < t[j].locs.len() implies (sh2.parent)(
            child_of(t[j], k),
        ) == (j, k) by {
        if j == me {
            assert(t[j].locs[k] == p.locs[k]);
            lemma_child_facts(s, sh, c, me, k);
        } else if j == c {
            if k < x.locs.len() {
                assert(t[j].locs[k] == x.locs[k]);
                lemma_child_facts(s, sh, c, c, k);
            } else {
                assert(t[j].locs[k] == rv.locs[0]);
            }
        } else if j == r {
            assert(t[j].locs[k] == rv.locs[k + 1]);
            lemma_child_facts(s, sh, c, r, k + 1);
        } else {
            assert(t[j] == s[j]);
            lemma_child_facts(s, sh, c, j, k);
        }
    }
    assert(tree_ok(t, sh2));
}

/// Child `c` (slot `i > 0` of page `me`) that fell one key short borrows the
/// last entry of its left sibling `l`; the parent's separator between them
/// becomes the borrowed key.
pub proof fn lemma_borrow_left(s: Seq<PageView>, sh: Shape, me: int, i: int)
    requires
        sh.live.contains(me),
        !s[me].is_leaf,
        0 < i < s[me].locs.len(),
        tree_ok_relaxed(s, sh, child_of(s[me], i)),
        s[child_of(s[me], i - 1)].keys.len() > MIN_KEYS_PER_PAGE,
    ensures
        ({
            let p = s[me];
            let c = child_of(p, i);
            let l = child_of(p, i - 1);
            let x = s[c];
            let lv = s[l];
            let p2 = PageView { is_leaf: false, keys: p.keys.update(i - 1, lv.keys.last()), locs: p.locs };
            let sh2 = if x.is_leaf { sh } else { shape_borrow_left(sh, c, child_of(lv, lv.locs.len() - 1)) };
            &&& tree_ok(
                s.update(l, without_last(lv)).update(c, borrowed_from_left(x, lv, p.keys[i - 1])).update(
                    me,
                    p2,
                ),
                sh2,
            )
            &&& shape_kept(sh, sh2, c, l)
            &&& sh2.live == sh.live
            &&& x.is_leaf == lv.is_leaf
            &&& c != l && c != me && l != me
        }),
{
    let p = s[me];
    let c = child_of(p, i);
    let l = child_of(p, i - 1);
    lemma_child_facts(s, sh, c, me, i);
    lemma_child_facts(s, sh, c, me, i - 1);
    let x = s[c];
    let lv = s[l];
    assert(node_ok(sh, x, (sh.height)(c)));
    assert(node_ok(sh, lv, (sh.height)(l)));
    let p2 = PageView { is_leaf: false, keys: p.keys.update(i - 1, lv.keys.last()), locs: p.locs };
    let x2 = borrowed_from_left(x, lv, p.keys[i - 1]);
    let l2 = without_last(lv);
    let ll = lv.locs.len() - 1;
    let moved = child_of(lv, ll);
    let sh2 = if x.is_leaf { sh } else { shape_borrow_left(sh, c, moved) };
    let t = s.update(l, l2).update(c, x2).update(me, p2);
    assert(lv.keys.len() >= 1);
    if !x.is_leaf {
        lemma_child_facts(s, sh, c, l, ll);
    }
    assert forall|j: int| #[trigger] sh2.live.contains(j) implies {
        &&& 0 <= j < t.len()
        &&& node_ok(sh2, t[j], (sh2.height)(j))
        &&& j != sh2.root ==> t[j].keys.len() >= MIN_KEYS_PER_PAGE
    } by {
        assert(sh.live.contains(j));
        assert(node_ok(sh, s[j], (sh.height)(j)));
        if !t[j].is_leaf {
            assert forall|k: int| 0 <= k < t[j].locs.len() implies {
                &&& page_loc_ok(#[trigger] t[j].locs[k])
                &&& sh2.live.contains(child_of(t[j], k))
                &&& (sh2.height)(child_of(t[j], k)) == (sh2.height)(j) - 1
            } by {
                if j == me {
                    assert(t[j].locs[k] == p.locs[k]);
                    lemma_child_facts(s, sh, c, me, k);
                } else if j == c {
                    if k == 0 {
                        assert(t[j].locs[k] == lv.locs[ll]);
                    } else {
                        assert(t[j].locs[k] == x.locs[k - 1]);
                        lemma_child_facts(s, sh, c, c, k - 1);
                    }
                } else if j == l {
                    assert(t[j].locs[k] == lv.locs[k]);
                    lemma_child_facts(s, sh, c, l, k);
                } else {
                    assert(t[j] == s[j]);
                    lemma_child_facts(s, sh, c, j, k);
                }
            }
        }
    }
    assert forall|j: int, k: int|
        #![trigger sh2.live.contains(j), t[j].locs[k]]
        sh2.live.contains(j) && !t[j].is_leaf && 0 <= k < t[j].locs.len() implies (sh2.parent)(
            child_of(t[j], k),
        ) == (j, k) by {
        if j == me {
            assert(t[j].locs[k] == p.locs[k]);
            lemma_child_facts(s, sh, c, me, k);
        } else if j == c {
            if k == 0 {
                assert(t[j].locs[k] == lv.locs[ll]);
            } else {
                assert(t[j].locs[k] == x.locs[k - 1]);
                lemma_child_facts(s, sh, c, c, k - 1);
            }
        } else if j == l {
            assert(t[j].locs[k] == lv.locs[k]);
            lemma_child_facts(s, sh, c, l, k);
        } else {
            assert(t[j] == s[j]);
            lemma_child_facts(s, sh, c, j, k);
        }
    }
    assert(tree_ok(t, sh2));
}

/// Child `c` (slot `i` of page `me`) that fell one key short takes in all of
/// its right sibling `r`, which is left empty and out of use; the parent loses
/// the separator and the slot between them.
pub proof fn lemma_merge_right(s: Seq<PageView>, sh: Shape, me: int, i: int, sep: Seq<u8>)
    requires
        sh.live.contains(me),
        !s[me].is_leaf,
        0 <= i,
        i + 1 < s[me].locs.len(),
        tree_ok_relaxed(s, sh, child_of(s[me], i)),
    ensures
        ({
            let p = s[me];
            let c = child_of(p, i);
            let r = child_of(p, i + 1);
            let x = s[c];
            let rv = s[r];
            let p2 = PageView { is_leaf: false, keys: p.keys.remove(i), locs: p.locs.remove(i + 1) };
            let sh2 = shape_merge(sh, me, i + 1, c, r, x.locs.len() as int);
            &&& tree_ok_relaxed(
                s.update(r, emptied(rv)).update(c, crate::storage::btree::page::Page::merged(x, sep, rv)).update(
                    me,
                    p2,
                ),
                sh2,
                me,
            )
            &&& shape_kept(sh, sh2, r, me)
            &&& sh2.live == sh.live.remove(r)
            &&& x.is_leaf == rv.is_leaf
            &&& c != r && c != me && r != me
            &&& (sh.height)(r) + 1 == (sh.height)(me)
        }),
{
    let p = s[me];
    let c = child_of(p, i);
    let r = child_of(p, i + 1);
    lemma_child_facts(s, sh, c, me, i);
    lemma_child_facts(s, sh, c, me, i + 1);
    let x = s[c];
    let rv = s[r];
    assert(node_ok(sh, x, (sh.height)(c)));
    assert(node_ok(sh, rv, (sh.height)(r)));
    let p2 = PageView { is_leaf: false, keys: p.keys.remove(i), locs: p.locs.remove(i + 1) };
    let x2 = crate::storage::btree::page::Page::merged(x, sep, rv);
    let xl = x.locs.len() as int;
    let sh2 = shape_merge(sh, me, i + 1, c, r, xl);
    let t = s.update(r, emptied(rv)).update(c, x2).update(me, p2);
    assert forall|j: int| #[trigger] sh2.live.contains(j) implies {
        &&& 0 <= j < t.len()
        &&& node_ok(sh2, t[j], (sh2.height)(j))
        &&& j != sh2.root ==> if j == me {
            t[j].keys.len() + 1 >= MIN_KEYS_PER_PAGE
        } else {
            t[j].keys.len() >= MIN_KEYS_PER_PAGE
        }
    } by {
        assert(sh.live.contains(j));
        assert(j != r);
        assert(node_ok(sh, s[j], (sh.height)(j)));
        if !t[j].is_leaf {
            assert forall|k: int| 0 <= k < t[j].locs.len() implies {
                &&& page_loc_ok(#[trigger] t[j].locs[k])
                &&& sh2.live.contains(child_of(t[j], k))
                &&& (sh2.height)(child_of(t[j], k)) == (sh2.height)(j) - 1
            } by {
                if j == me {
                    if k <= i {
                        assert(t[j].locs[k] == p.locs[k]);
                        lemma_child_facts(s, sh, c, me, k);
                    } else {
                        assert(t[j].locs[k] == p.locs[k + 1]);
                        lemma_child_facts(s, sh, c, me, k + 1);
                    }
                } else if j == c {
                    if k < xl {
                        assert(t[j].locs[k] == x.locs[k]);
                        lemma_child_facts(s, sh, c, c, k);
                    } else {
                        assert(t[j].locs[k] == rv.locs[k - xl]);
                        lemma_child_facts(s, sh, c, r, k - xl);
                    }
                } else {
                    assert(t[j] == s[j]);
                    lemma_child_facts(s, sh, c, j, k);
                }
            }
        }
    }
    assert forall|j: int, k: int|
        #![trigger sh2.live.contains(j), t[j].locs[k]]
        sh2.live.contains(j) && !t[j].is_leaf && 0 <= k < t[j].locs.len() implies (sh2.parent)(
            child_of(t[j], k),
        ) == (j, k) by {
        assert(j != r);
        if j == me {
            if k <= i {
                assert(t[j].locs[k] == p.locs[k]);
                lemma_child_facts(s, sh, c, me, k);
            } else {
                assert(t[j].locs[k] == p.locs[k + 1]);
                lemma_child_facts(s, sh, c, me, k + 1);
            }
        } else if j == c {
            if k < xl {
                assert(t[j].locs[k] == x.locs[k]);
                lemma_child_facts(s, sh, c, c, k);
            } else {
                assert(t[j].locs[k] == rv.locs[k - xl]);
                lemma_child_facts(s, sh, c, r, k - xl);
            }
        } else {
            assert(t[j] == s[j]);
            lemma_child_facts(s, sh, c, j, k);
        }
    }
    assert(tree_ok_relaxed(t, sh2, me));
}

/// The last child `c` of page `me` that fell one key short is taken in by its
/// left sibling `l` together with the parent's last separator; `c` is left
/// empty and out of use and the parent loses its last separator and slot.
pub proof fn lemma_merge_left(s: Seq<PageView>, sh: Shape, me: int)
    requires
        sh.live.contains(me),
        !s[me].is_leaf,
        s[me].locs.len() >= 2,
        tree_ok_relaxed(s, sh, child_of(s[me], s[me].locs.len() - 1)),
    ensures
        ({
            let p = s[me];
            let i = p.locs.len() - 1;
            let c = child_of(p, i);
            let l = child_of(p, i - 1);
            let x = s[c];
            let lv = s[l];
            let sh2 = shape_merge(sh, me, i, l, c, lv.locs.len() as int);
            &&& tree_ok_relaxed(
                s.update(l, crate::storage::btree::page::Page::merged(lv, p.keys.last(), x)).update(
                    c,
                    emptied(x),
                ).update(me, without_last(p)),
                sh2,
                me,
            )
            &&& shape_kept(sh, sh2, c, me)
            &&& sh2.live == sh.live.remove(c)
            &&& x.is_leaf == lv.is_leaf
            &&& c != l && c != me && l != me
            &&& (sh.height)(c) + 1 == (sh.height)(me)
        }),
{
    let p = s[me];
    let i = p.locs.len() - 1;
    let c = child_of(p, i);
    let l = child_of(p, i - 1);
    lemma_child_facts(s, sh, c, me, i);
    lemma_child_facts(s, sh, c, me, i - 1);
    let x = s[c];
    let lv = s[l];
    assert(node_ok(sh, x, (sh.height)(c)));
    assert(node_ok(sh, lv, (sh.height)(l)));
    let ll = lv.locs.len() as int;
    let l2 = crate::storage::btree::page::Page::merged(lv, p.keys.last(), x);
    let p2 = without_last(p);
    let sh2 = shape_merge(sh, me, i, l, c, ll);
    let t = s.update(l, l2).update(c, emptied(x)).update(me, p2);
    assert forall|j: int| #[trigger] sh2.live.contains(j) implies {
        &&& 0 <= j < t.len()
        &&& node_ok(sh2, t[j], (sh2.height)(j))
        &&& j != sh2.root ==> if j == me {
            t[j].keys.len() + 1 >= MIN_KEYS_PER_PAGE
        } else {
            t[j].keys.len() >= MIN_KEYS_PER_PAGE
        }
    } by {
        assert(sh.live.contains(j));
        assert(j != c);
        assert(node_ok(sh, s[j], (sh.height)(j)));
        if !t[j].is_leaf {
            assert forall|k: int| 0 <= k < t[j].locs.len() implies {
                &&& page_loc_ok(#[trigger] t[j].locs[k])
                &&& sh2.live.contains(child_of(t[j], k))
                &&& (sh2.height)(child_of(t[j], k)) == (sh2.height)(j) - 1
            } by {
                if j == me {
                    assert(t[j].locs[k] == p.locs[k]);
                    lemma_child_facts(s, sh, c, me, k);
                } else if j == l {
                    if k < ll {
                        assert(t[j].locs[k] == lv.locs[k]);
                        lemma_child_facts(s, sh, c, l, k);
                    } else {
                        assert(t[j].locs[k] == x.locs[k - ll]);
                        lemma_child_facts(s, sh, c, c, k - ll);
                    }
                } else {
                    assert(t[j] == s[j]);
                    lemma_child_facts(s, sh, c, j, k);
                }
            }
        }
    }
    assert forall|j: int, k: int|
        #![trigger sh2.live.contains(j), t[j].locs[k]]
        sh2.live.contains(j) && !t[j].is_leaf && 0 <= k < t[j].locs.len() implies (sh2.parent)(
            child_of(t[j], k),
        ) == (j, k) by {
        assert(j != c);
        if j == me {
            assert(t[j].locs[k] == p.locs[k]);
            lemma_child_facts(s, sh, c, me, k);
        } else if j == l {
            if k < ll {
                assert(t[j].locs[k] == lv.locs[k]);
                lemma_child_facts(s, sh, c, l, k);
            } else {
                assert(t[j].locs[k] == x.locs[k - ll]);
                lemma_child_facts(s, sh, c, c, k - ll);
            }
        } else {
            assert(t[j] == s[j]);
            lemma_child_facts(s, sh, c, j, k);
        }
    }
    assert(tree_ok_relaxed(t, sh2, me));
}

/// The separator that merging a child with its right sibling `r` puts between
/// them: `r`'s first key, or for an internal `r` the first key of `r`'s first
/// child.
pub open spec fn merge_sep(s: Seq<PageView>, r: PageView) -> Seq<u8> {
    if r.is_leaf {
        r.keys[0]
    } else {
        s[child_of(r, 0)].keys[0]
    }
}

/// What restructuring below page `me` (height `h` in shape `sh`) leaves: `s1`
/// is the file afterwards and `v1` the page itself, which the caller stores
/// back. With `v1` stored the file is well formed except that `v1` may have
/// fallen one key short; the root, the heights, the pages above `me` and the
/// slots of pages above `me` are kept, and only pages below `me` may have left
/// use.
pub open spec fn fix_post(s0: Seq<PageView>, sh: Shape, me: int, s1: Seq<PageView>, v1: PageView, sh2: Shape) -> bool {
    let h = (sh.height)(me);
    let t = s1.update(me, v1);
    &&& s1.len() == s0.len()
    &&& tree_ok_relaxed(t, sh2, me)
    &&& sh2.root == sh.root
    &&& sh2.height == sh.height
    &&& sh2.live.subset_of(sh.live)
    &&& forall|j: int| #[trigger] sh.live.contains(j) && (sh.height)(j) >= h ==> sh2.live.contains(j)
    &&& forall|j: int| #[trigger] sh.live.contains(j) && (sh.height)(j) > h ==> s1[j] == s0[j]
    &&& forall|x: int|
        #[trigger] sh.live.contains((sh.parent)(x).0) && (sh.height)((sh.parent)(x).0) > h ==> (
        sh2.parent)(x) == (sh.parent)(x)
    &&& v1.is_leaf == s0[me].is_leaf
}

/// What removing below page `me` leaves (see `fix_post`): the page falls one
/// key short only when the result is `Underflow`, and then holds at most
/// `MIN_KEYS_PER_PAGE` keys.
pub open spec fn rem_post(
    s0: Seq<PageView>,
    sh: Shape,
    me: int,
    s1: Seq<PageView>,
    v1: PageView,
    r: crate::storage::btree::page::RemoveResult,
    sh2: Shape,
) -> bool {
    &&& fix_post(s0, sh, me, s1, v1, sh2)
    &&& r != crate::storage::btree::page::RemoveResult::Underflow ==> tree_ok(s1.update(me, v1), sh2)
    &&& r == crate::storage::btree::page::RemoveResult::Underflow ==> v1.keys.len() <= MIN_KEYS_PER_PAGE
}

/// Replacing a leaf by another leaf of matching keys and locations keeps the
/// file well formed except for that leaf's size, which may be one short.
pub proof fn lemma_replace_leaf_relaxed(s: Seq<PageView>, sh: Shape, me: int, v1: PageView)
    requires
        tree_ok(s, sh),
        sh.live.contains(me),
        s[me].is_leaf,
        v1.is_leaf,
        v1.keys.len() == v1.locs.len(),
        me != sh.root ==> v1.keys.len() + 1 >= MIN_KEYS_PER_PAGE,
    ensures
        tree_ok_relaxed(s.update(me, v1), sh, me),
{
    let s2 = s.update(me, v1);
    assert forall|i: int| #[trigger] sh.live.contains(i) implies {
        &&& 0 <= i < s2.len()
        &&& node_ok(sh, s2[i], (sh.height)(i))
        &&& i != sh.root ==> if i == me {
            s2[i].keys.len() + 1 >= MIN_KEYS_PER_PAGE
        } else {
            s2[i].keys.len() >= MIN_KEYS_PER_PAGE
        }
    } by {
        if i == me {
            assert(node_ok(sh, s[me], (sh.height)(me)));
        }
    }
    assert forall|i: int, k: int|
        #![trigger sh.live.contains(i), s2[i].locs[k]]
        sh.live.contains(i) && !s2[i].is_leaf && 0 <= k < s2[i].locs.len() implies (sh.parent)(
            child_of(s2[i], k),
        ) == (i, k) by {
        assert(i != me);
        assert(s2[i] == s[i]);
        assert((sh.parent)(child_of(s[i], k)) == (i, k));
    }
}

/// The shape after the root, left with one child `c`, takes over `c`'s
/// contents.
pub open spec fn shape_collapse_root(sh: Shape, c: int) -> Shape {
    Shape {
        root: sh.root,
        live: sh.live.remove(c),
        height: |x: int|
            if x == sh.root {
                (sh.height)(c)
            } else {
                (sh.height)(x)
            },
        parent: |x: int|
            if (sh.parent)(x).0 == c {
                (sh.root, (sh.parent)(x).1)
            } else {
                (sh.parent)(x)
            },
    }
}

/// A root left without separators takes over the contents of its only child;
/// the file is then well formed again.
pub proof fn lemma_collapse_root(s: Seq<PageView>, sh: Shape)
    requires
        tree_ok_relaxed(s, sh, sh.root),
        !s[sh.root].is_leaf,
        s[sh.root].locs.len() == 1,
    ensures
        ({
            let c = child_of(s[sh.root], 0);
            tree_ok(s.update(sh.root, s[c]), shape_collapse_root(sh, c))
        }),
{
    let root = sh.root;
    lemma_child_facts(s, sh, root, root, 0);
    let c = child_of(s[root], 0);
    let cv = s[c];
    let sh3 = shape_collapse_root(sh, c);
    let t = s.update(root, cv);
    assert(node_ok(sh, cv, (sh.height)(c)));
    assert forall|j: int| #[trigger] sh3.live.contains(j) implies {
        &&& 0 <= j < t.len()
        &&& node_ok(sh3, t[j], (sh3.height)(j))
        &&& j != sh3.root ==> t[j].keys.len() >= MIN_KEYS_PER_PAGE
    } by {
        assert(sh.live.contains(j));
        assert(j != c);
        assert(node_ok(sh, s[j], (sh.height)(j)));
        let v = if j == root { cv } else { s[j] };
        let owner = if j == root { c } else { j };
        assert(t[j] == v);
        if !v.is_leaf {
            assert forall|k: int| 0 <= k < v.locs.len() implies {
                &&& page_loc_ok(#[trigger] v.locs[k])
                &&& sh3.live.contains(child_of(v, k))
                &&& (sh3.height)(child_of(v, k)) == (sh3.height)(j) - 1
            } by {
                lemma_child_facts(s, sh, root, owner, k);
                if j != root {
                    assert(child_of(v, k) != c) by {
                        assert((sh.parent)(c) == (root, 0int));
                    }
                }
            }
        }
    }
    assert forall|j: int, k: int|
        #![trigger sh3.live.contains(j), t[j].locs[k]]
        sh3.live.contains(j) && !t[j].is_leaf && 0 <= k < t[j].locs.len() implies (sh3.parent)(
            child_of(t[j], k),
        ) == (j, k) by {
        if j == root {
            lemma_child_facts(s, sh, root, c, k);
        } else {
            assert(t[j] == s[j]);
            lemma_child_facts(s, sh, root, j, k);
        }
    }
    assert(tree_ok(t, sh3));
}

} // verus!
