//! An index whose pages live in a page store handed to each operation.

use crate::storage::btree::internal_page::Internal;
use crate::storage::btree::location::{
    page_index, Location, PageStore, RefPageLocation, MAX_PAGES, PAGE_SIZE,
};
use crate::common::key_order::prefix_le_len;
use crate::storage::btree::leaf_page::Leaf;
use crate::storage::btree::page::{add_splits, overflow_view, Page, PageView, PushResult, RemoveResult};
use crate::storage::btree::shape::{
    add_post, child_of, lemma_child_facts, page_loc_ok, with_child, lemma_collapse_root, lemma_grow_root, lemma_located_height,
    lemma_lookup_height, lemma_relax, located, lookup, new_root_view, node_ok, rem_post,
    shape_collapse_root, shape_with_new_root, tree_ok, Shape,
};
use crate::storage::btree::order::{
    add_order_pre, below, child_hi, child_lo, has_entry, has_key, lemma_agree_except, lemma_below_anc, lemma_below_child,
    lemma_lookup_ordered, lemma_root_grow_order, ordered,
};
use crate::storage::btree::removal::{merge_ok, rem_order_post};
use crate::storage::storage_error::StorageError;
use vstd::prelude::*;

verus! {

/// A page holding this many keys is split.
pub const MAX_KEYS_PER_PAGE: usize = 9;

/// A page other than the root that holds no more keys than this after a
/// removal has underflowed.
pub const MIN_KEYS_PER_PAGE: usize = MAX_KEYS_PER_PAGE / 2;

/// A B-tree index stored in a page store; the root page always stays at
/// `root_page_location`.
pub struct PagingBtree {
    pub file_path: String,
    pub root_page_location: RefPageLocation,
}

/// The file `s` holds a well-formed index rooted at page `root` with shape `sh`.
pub open spec fn rooted_at(s: Seq<PageView>, root: RefPageLocation, sh: Shape) -> bool {
    &&& root.start_offset % PAGE_SIZE == 0
    &&& sh.root == page_index(root.start_offset)
    &&& tree_ok(s, sh)
}

/// The file `s` holds a well-formed index rooted at page `root`.
pub open spec fn index_ok(s: Seq<PageView>, root: RefPageLocation) -> bool {
    exists|sh: Shape| #[trigger] rooted_at(s, root, sh)
}

/// The file `s` holds a well-formed index rooted at page `root` that keeps the
/// key order: keys strictly increasing in every page, each between the
/// separators around it.
pub open spec fn index_ordered(s: Seq<PageView>, root: RefPageLocation) -> bool {
    exists|sh: Shape| #[trigger] rooted_at(s, root, sh) && ordered(s, s[sh.root], (sh.height)(sh.root), None, None)
}

/// Removing `key` from the index rooted at `root` takes in no right sibling
/// with a separator from the wrong level (see `merge_ok`).
pub open spec fn index_merge_ok(s: Seq<PageView>, root: RefPageLocation, key: Seq<u8>) -> bool {
    merge_ok(s, s[page_index(root.start_offset)], s.len() as nat, key)
}

/// The location that `key` finds in the index rooted at `root`.
pub open spec fn index_lookup(s: Seq<PageView>, root: RefPageLocation, key: Seq<u8>) -> Option<Location> {
    lookup(s, s[page_index(root.start_offset)], s.len() as nat, key)
}

/// Number of levels below page `i` of file `s`, counted down the first
/// children until a leaf, looking at most `fuel` levels down.
pub open spec fn first_depth(s: Seq<PageView>, i: int, fuel: nat) -> nat
    decreases fuel,
{
    if fuel == 0 || s[i].is_leaf {
        0
    } else {
        1 + first_depth(s, child_of(s[i], 0), (fuel - 1) as nat)
    }
}

/// Number of levels of internal pages above the leaves of the index rooted
/// at `root`.
pub open spec fn index_depth(s: Seq<PageView>, root: RefPageLocation) -> nat {
    first_depth(s, page_index(root.start_offset), s.len() as nat)
}

/// In a well-formed file, the first-child depth of a page in use is its
/// height.
proof fn lemma_first_depth(s: Seq<PageView>, sh: Shape, i: int, fuel: nat)
    requires
        tree_ok(s, sh),
        sh.live.contains(i),
        (sh.height)(i) < fuel,
    ensures
        first_depth(s, i, fuel) == (sh.height)(i),
    decreases fuel,
{
    assert(node_ok(sh, s[i], (sh.height)(i)));
    if !s[i].is_leaf {
        assert(page_loc_ok(s[i].locs[0]));
        lemma_first_depth(s, sh, child_of(s[i], 0), (fuel - 1) as nat);
    }
}

/// The depth of an index is the height of its root in any shape it has, and
/// is less than the number of pages of the file.
pub proof fn lemma_index_depth(s: Seq<PageView>, root: RefPageLocation, sh: Shape)
    requires
        rooted_at(s, root, sh),
    ensures
        index_depth(s, root) == (sh.height)(sh.root),
        index_depth(s, root) < s.len(),
{
    lemma_first_depth(s, sh, sh.root, s.len() as nat);
}

/// The root, page `ri` of file `f`, split and grew a level: it is an internal
/// page with one separator over the two pages at the end of the file, the
/// lower half last and the upper half before it.
pub open spec fn root_grown(f: Seq<PageView>, ri: int) -> bool {
    &&& !f[ri].is_leaf
    &&& f[ri].keys.len() == 1
    &&& f[ri].locs.len() == 2
    &&& f[ri].locs[0] matches Location::Page(a) && a.start_offset % PAGE_SIZE == 0 && page_index(a.start_offset)
        == f.len() - 1
    &&& f[ri].locs[1] matches Location::Page(b) && b.start_offset % PAGE_SIZE == 0 && page_index(b.start_offset)
        == f.len() - 2
}

/// File `f` is file `s` after `key` with `value` was added to the index whose
/// root, page `ri`, is a leaf: the leaf takes the entry after every key at or
/// before `key` and, once it holds `MAX_KEYS_PER_PAGE` keys, splits: its
/// upper half goes to a new page at the end of the file, its lower half to
/// the page after that, and the root becomes an internal page over the two
/// with the first key of the upper half as its separator.
pub open spec fn root_leaf_added(s: Seq<PageView>, ri: int, key: Seq<u8>, value: Location, f: Seq<PageView>) -> bool {
    let n = Leaf::inserted(s[ri], key, value);
    let len = s.len() as int;
    if n.keys.len() >= MAX_KEYS_PER_PAGE {
        &&& f.len() == len + 2
        &&& f[len] == Page::upper_half(n, 4, 4)
        &&& f[len + 1] == Page::lower_half(n, 4)
        &&& forall|j: int| 0 <= j < len && j != ri ==> #[trigger] f[j] == s[j]
        &&& !f[ri].is_leaf
        &&& f[ri].keys == seq![n.keys[4]]
        &&& f[ri].locs.len() == 2
        &&& f[ri].locs[0] matches Location::Page(a) && a.start_offset % PAGE_SIZE == 0 && page_index(a.start_offset)
            == len + 1
        &&& f[ri].locs[1] matches Location::Page(b) && b.start_offset % PAGE_SIZE == 0 && page_index(b.start_offset)
            == len
    } else {
        f == s.update(ri, n)
    }
}

/// File `f` is file `s` after `key` with `value` was added to the index whose
/// root, page `ri`, is an internal page and routes `key` to a leaf: the leaf
/// takes the entry and is stored back; or, holding `MAX_KEYS_PER_PAGE` keys
/// then, it keeps its lower half, its upper half goes to a new page at the
/// end of the file, and the root takes in that page after the leaf, with its
/// first key as separator, as long as the root then holds fewer than
/// `MAX_KEYS_PER_PAGE` separators.
pub open spec fn root_child_leaf_added(s: Seq<PageView>, ri: int, key: Seq<u8>, value: Location, f: Seq<PageView>) -> bool {
    let p = s[ri];
    let i = prefix_le_len(p.keys, key) as int;
    let c = child_of(p, i);
    let n = Leaf::inserted(s[c], key, value);
    let w = with_child(p, i, n.keys[4], Location::Page(RefPageLocation { start_offset: (s.len() * PAGE_SIZE) as u64 }));
    if n.keys.len() < MAX_KEYS_PER_PAGE {
        f == s.update(c, n)
    } else {
        w.keys.len() < MAX_KEYS_PER_PAGE ==> f == s.update(c, Page::lower_half(n, 4)).push(Page::upper_half(n, 4, 4)).update(
            ri,
            w,
        )
    }
}

/// A file whose first page is an empty leaf holds, rooted there, an index
/// that keeps the key order and finds nothing.
pub proof fn lemma_empty_index(s: Seq<PageView>)
    requires
        s.len() >= 1,
        s[0] == (PageView { is_leaf: true, keys: Seq::empty(), locs: Seq::empty() }),
    ensures
        index_ordered(s, RefPageLocation { start_offset: 0 }),
        forall|k: Seq<u8>| #[trigger] index_lookup(s, RefPageLocation { start_offset: 0 }, k) is None,
{
    let root = RefPageLocation { start_offset: 0 };
    let sh = Shape { root: 0, live: set![0int], height: |x: int| 0nat, parent: |x: int| (-2int, 0int) };
    assert(node_ok(sh, s[0], 0));
    assert(tree_ok(s, sh));
    assert(rooted_at(s, root, sh));
    assert(ordered(s, s[0], 0, None, None));
    assert forall|k: Seq<u8>| #[trigger] index_lookup(s, root, k) is None by {
        crate::common::key_order::lemma_first_match(s[0].keys, k);
    }
}

/// Two roots, in use in their files, that keep the key order and whose
/// entries differ only by `key` with `value`, which the first lacks, differ
/// in lookups only by `key` finding `value`.
proof fn lemma_lookup_after_add(
    s0: Seq<PageView>,
    sh0: Shape,
    s2: Seq<PageView>,
    sh2: Shape,
    key: Seq<u8>,
    value: Location,
)
    requires
        tree_ok(s0, sh0),
        tree_ok(s2, sh2),
        sh0.root == sh2.root,
        ordered(s0, s0[sh0.root], (sh0.height)(sh0.root), None, None),
        ordered(s2, s2[sh2.root], (sh2.height)(sh2.root), None, None),
        forall|k: Seq<u8>, l: Location|
            #[trigger] has_entry(s2, s2[sh2.root], (sh2.height)(sh2.root), k, l) <==> (has_entry(
                s0,
                s0[sh0.root],
                (sh0.height)(sh0.root),
                k,
                l,
            ) || (k == key && l == value)),
        lookup(s0, s0[sh0.root], s0.len() as nat, key) is None,
    ensures
        lookup(s2, s2[sh2.root], s2.len() as nat, key) == Some(value),
        forall|k: Seq<u8>|
            k != key ==> #[trigger] lookup(s2, s2[sh2.root], s2.len() as nat, k) == lookup(
                s0,
                s0[sh0.root],
                s0.len() as nat,
                k,
            ),
{
    let r = sh0.root;
    let h0 = (sh0.height)(r);
    let h2 = (sh2.height)(r);
    assert(sh0.live.contains(r) && sh2.live.contains(r));
    lemma_lookup_height(s2, sh2, s2[r], h2, s2.len() as nat, key);
    lemma_lookup_ordered(s2, s2[r], h2, None, None, key);
    assert(has_entry(s2, s2[r], h2, key, value));
    assert forall|k: Seq<u8>| k != key implies #[trigger] lookup(s2, s2[r], s2.len() as nat, k) == lookup(
        s0,
        s0[r],
        s0.len() as nat,
        k,
    ) by {
        lemma_lookup_height(s0, sh0, s0[r], h0, s0.len() as nat, k);
        lemma_lookup_height(s2, sh2, s2[r], h2, s2.len() as nat, k);
        lemma_lookup_ordered(s0, s0[r], h0, None, None, k);
        lemma_lookup_ordered(s2, s2[r], h2, None, None, k);
        let a = lookup(s2, s2[r], h2, k);
        let b = lookup(s0, s0[r], h0, k);
        if a is Some {
            assert(has_entry(s2, s2[r], h2, k, a->0));
            assert(has_entry(s0, s0[r], h0, k, a->0));
        }
        if b is Some {
            assert(has_entry(s0, s0[r], h0, k, b->0));
            assert(has_entry(s2, s2[r], h2, k, b->0));
        }
    }
}

/// Two roots, in use in their files, that keep the key order and whose
/// entries differ only in that the second lacks `key` differ in lookups only
/// by `key` finding nothing.
proof fn lemma_lookup_after_remove(s0: Seq<PageView>, sh0: Shape, s2: Seq<PageView>, sh2: Shape, key: Seq<u8>)
    requires
        tree_ok(s0, sh0),
        tree_ok(s2, sh2),
        sh0.root == sh2.root,
        ordered(s0, s0[sh0.root], (sh0.height)(sh0.root), None, None),
        ordered(s2, s2[sh2.root], (sh2.height)(sh2.root), None, None),
        forall|k: Seq<u8>, l: Location|
            #[trigger] has_entry(s2, s2[sh2.root], (sh2.height)(sh2.root), k, l) <==> (has_entry(
                s0,
                s0[sh0.root],
                (sh0.height)(sh0.root),
                k,
                l,
            ) && k != key),
    ensures
        lookup(s2, s2[sh2.root], s2.len() as nat, key) is None,
        forall|k: Seq<u8>|
            k != key ==> #[trigger] lookup(s2, s2[sh2.root], s2.len() as nat, k) == lookup(
                s0,
                s0[sh0.root],
                s0.len() as nat,
                k,
            ),
{
    let r = sh0.root;
    let h0 = (sh0.height)(r);
    let h2 = (sh2.height)(r);
    assert(sh0.live.contains(r) && sh2.live.contains(r));
    lemma_lookup_height(s2, sh2, s2[r], h2, s2.len() as nat, key);
    lemma_lookup_ordered(s2, s2[r], h2, None, None, key);
    let a = lookup(s2, s2[r], h2, key);
    if a is Some {
        assert(has_entry(s2, s2[r], h2, key, a->0));
    }
    assert forall|k: Seq<u8>| k != key implies #[trigger] lookup(s2, s2[r], s2.len() as nat, k) == lookup(
        s0,
        s0[r],
        s0.len() as nat,
        k,
    ) by {
        lemma_lookup_height(s0, sh0, s0[r], h0, s0.len() as nat, k);
        lemma_lookup_height(s2, sh2, s2[r], h2, s2.len() as nat, k);
        lemma_lookup_ordered(s0, s0[r], h0, None, None, k);
        lemma_lookup_ordered(s2, s2[r], h2, None, None, k);
        let a = lookup(s2, s2[r], h2, k);
        let b = lookup(s0, s0[r], h0, k);
        if a is Some {
            assert(has_entry(s2, s2[r], h2, k, a->0));
            assert(has_entry(s0, s0[r], h0, k, a->0));
        }
        if b is Some {
            assert(has_entry(s0, s0[r], h0, k, b->0));
            assert(has_entry(s2, s2[r], h2, k, b->0));
        }
    }
}

/// A root left without separators that takes over the contents of its only
/// child keeps the key order one level lower and the same entries.
proof fn lemma_collapse_order(t: Seq<PageView>, ri: int, h: nat)
    requires
        0 <= ri < t.len(),
        !t[ri].is_leaf,
        t[ri].keys.len() == 0,
        h > 0,
        ordered(t, t[ri], h, None, None),
        !below(t, t[ri], h, ri),
    ensures
        ({
            let f = t.update(ri, t[child_of(t[ri], 0)]);
            &&& ordered(f, f[ri], (h - 1) as nat, None, None)
            &&& forall|k: Seq<u8>, l: Location|
                #[trigger] has_entry(f, f[ri], (h - 1) as nat, k, l) <==> has_entry(t, t[ri], h, k, l)
        }),
{
    let v = t[ri];
    let c0 = child_of(v, 0);
    let f = t.update(ri, t[c0]);
    assert(child_lo(v, 0, None) == None::<Seq<u8>>);
    assert(child_hi(v, 0, None) == None::<Seq<u8>>);
    assert(ordered(t, t[c0], (h - 1) as nat, None, None));
    assert(!below(t, t[c0], (h - 1) as nat, ri)) by {
        if below(t, t[c0], (h - 1) as nat, ri) {
            lemma_below_child(t, v, h, 0, ri);
        }
    }
    assert(c0 != ri) by {
        if c0 == ri {
            lemma_below_child(t, v, h, 0, ri);
        }
    }
    assert forall|j: int| 0 <= j < t.len() && j != ri implies #[trigger] f[j] == t[j] by {}
    lemma_agree_except(t, f, t[c0], (h - 1) as nat, None, None, ri);
    assert forall|k: Seq<u8>, l: Location|
        #[trigger] has_entry(f, f[ri], (h - 1) as nat, k, l) <==> has_entry(t, t[ri], h, k, l) by {
        if has_entry(t, v, h, k, l) {
            let j = choose|j: int|
                0 <= j < v.locs.len() && 0 <= child_of(v, j) < t.len() && has_entry(
                    t,
                    t[#[trigger] child_of(v, j)],
                    (h - 1) as nat,
                    k,
                    l,
                );
            assert(j == 0);
        }
        if has_entry(t, t[c0], (h - 1) as nat, k, l) {
            assert(has_entry(t, v, h, k, l));
        }
    }
}

/// Removing `key` from the index rooted at `root` finds it (see `located`).
pub open spec fn index_located(s: Seq<PageView>, root: RefPageLocation, key: Seq<u8>) -> bool {
    located(s, s[page_index(root.start_offset)], s.len() as nat, key)
}

/// The location that `key` finds in the index rooted at `root`.
pub fn get_in_store(root: RefPageLocation, key: &[u8], storage: &PageStore) -> (r: Option<Location>)
    requires
        index_ok(storage@, root),
    ensures
        r == index_lookup(storage@, root, key@),
{
    let ghost sh = choose|sh: Shape| rooted_at(storage@, root, sh);
    proof {
        assert(sh.live.contains(sh.root));
        lemma_lookup_height(storage@, sh, storage@[sh.root], (sh.height)(sh.root), storage@.len() as nat, key@);
        crate::storage::btree::shape::lemma_route_ok(storage@, sh, storage@[sh.root], (sh.height)(sh.root), key@);
    }
    let page = root.load_page(storage);
    page.get(key, storage, Ghost((sh.height)(sh.root)))
}

/// Adds `key` with `value` to the index rooted at `root`; when the root
/// splits, both parts move to new pages below a new root at `root`. A child
/// page location is put directly into an internal root instead.
pub fn add_to_store(root: RefPageLocation, key: &[u8], value: Location, storage: &mut PageStore) -> (r: Result<(), StorageError>)
    requires
        index_ok(old(storage)@, root),
        old(storage)@.len() * 2 + 2 <= MAX_PAGES,
        value is Page ==> !old(storage)@[page_index(root.start_offset)].is_leaf,
    ensures
        r is Ok,
        old(storage)@.len() <= final(storage)@.len() <= old(storage)@.len() + index_depth(old(storage)@, root) + 2,
        index_depth(old(storage)@, root) < old(storage)@.len(),
        value is Value ==> index_ok(final(storage)@, root),
        value is Value ==> index_depth(final(storage)@, root) <= index_depth(old(storage)@, root) + 1,
        value is Value && old(storage)@[page_index(root.start_offset)].is_leaf ==> root_leaf_added(
            old(storage)@,
            page_index(root.start_offset),
            key@,
            value,
            final(storage)@,
        ),
        ({
            let ri = page_index(root.start_offset);
            let p = old(storage)@[ri];
            value is Value && !p.is_leaf && old(storage)@[child_of(p, prefix_le_len(p.keys, key@) as int)].is_leaf
                ==> root_child_leaf_added(old(storage)@, ri, key@, value, final(storage)@)
        }),
        value is Value && add_splits(
            old(storage)@,
            old(storage)@[page_index(root.start_offset)],
            index_depth(old(storage)@, root),
            key@,
        ) ==> root_grown(final(storage)@, page_index(root.start_offset)),
        value is Value && index_ordered(old(storage)@, root) && index_lookup(old(storage)@, root, key@) is None ==> {
            &&& index_ordered(final(storage)@, root)
            &&& index_lookup(final(storage)@, root, key@) == Some(value)
            &&& forall|k: Seq<u8>|
                k != key@ ==> #[trigger] index_lookup(final(storage)@, root, k) == index_lookup(old(storage)@, root, k)
        },
        value is Page ==> {
            let v = old(storage)@[page_index(root.start_offset)];
            let i = crate::common::key_order::prefix_le_len(v.keys, key@) as int;
            final(storage)@ == old(storage)@.update(
                page_index(root.start_offset),
                PageView { is_leaf: false, keys: v.keys.insert(i, key@), locs: v.locs.insert(i, value) },
            )
        },
{
    let ghost s0 = storage@;
    let ghost ord = index_ordered(s0, root);
    proof {
        if ord {
            let w = choose|sh: Shape| #[trigger] rooted_at(s0, root, sh) && ordered(s0, s0[sh.root], (sh.height)(sh.root), None, None);
            assert(rooted_at(s0, root, w) && (ord ==> ordered(s0, s0[w.root], (w.height)(w.root), None, None)));
        } else {
            let w = choose|sh: Shape| #[trigger] rooted_at(s0, root, sh);
            assert(rooted_at(s0, root, w) && (ord ==> ordered(s0, s0[w.root], (w.height)(w.root), None, None)));
        }
    }
    let ghost sh = choose|sh: Shape|
        rooted_at(s0, root, sh) && (ord ==> ordered(s0, s0[sh.root], (sh.height)(sh.root), None, None));
    let ghost ri = sh.root;
    let ghost hr = (sh.height)(ri);
    let ghost fresh = value is Value && ord && index_lookup(s0, root, key@) is None;
    proof {
        lemma_index_depth(s0, root, sh);
        crate::common::key_order::lemma_prefix_le_len(s0[ri].keys, key@);
        assert(sh.live.contains(ri));
        assert(node_ok(sh, s0[ri], hr));
        if fresh {
            lemma_lookup_height(s0, sh, s0[ri], hr, s0.len() as nat, key@);
            lemma_lookup_ordered(s0, s0[ri], hr, None, None, key@);
            assert(!has_key(s0, s0[ri], hr, key@));
            assert(add_order_pre(s0, ri, hr, None, None, key@));
            if below(s0, s0[ri], hr, ri) {
                lemma_below_anc(s0, sh, ri, ri);
            }
        }
    }
    let mut root_page = root.load_page(storage);
    let result = root_page.add(key, value, storage, Ghost(ri), Ghost(sh), Ghost(None), Ghost(None));
    let ghost s1 = storage@;
    match result {
        PushResult::Overflow(overflow) => {
            let ghost sh2 = choose|sh2: Shape| add_post(s0, sh, ri, s1, root_page@, overflow_view(PushResult::Overflow(overflow)), sh2);
            let ghost o = overflow.page@;
            let right_page_loc = Location::Page(RefPageLocation::allocate(storage));
            right_page_loc.write_page(&overflow.page, storage);
            let left_page_loc = Location::Page(RefPageLocation::allocate(storage));
            left_page_loc.write_page(&root_page, storage);
            let ghost okey = overflow.key@;
            let new_root_page = Page::Internal(Internal {
                separators: vec![overflow.key],
                pages: vec![left_page_loc, right_page_loc],
            });
            proof {
                assert(new_root_page@.keys =~= seq![okey]);
                assert(new_root_page@.locs =~= seq![left_page_loc, right_page_loc]);
                assert(new_root_page@ == new_root_view(okey, left_page_loc, right_page_loc));
                lemma_grow_root(s1, sh2, root_page@, o, okey, right_page_loc, left_page_loc);
            }
            root.write_page(&new_root_page, storage);
            proof {
                let sh5 = shape_with_new_root(sh2, s1.len() as int, (s1.len() + 1) as int);
                assert(rooted_at(storage@, root, sh5));
                assert((sh5.height)(ri) == hr + 1);
                lemma_index_depth(storage@, root, sh5);
                assert(root_grown(storage@, ri));
                if value is Value && s0[ri].is_leaf {
                    assert(s1 == s0);
                    assert(storage@ == s0.push(o).push(root_page@).update(ri, new_root_page@));
                    assert(root_leaf_added(s0, ri, key@, value, storage@));
                }
                if value is Value && !s0[ri].is_leaf {
                    let p = s0[ri];
                    let i = prefix_le_len(p.keys, key@) as int;
                    let c = child_of(p, i);
                    if s0[c].is_leaf {
                        let n = Leaf::inserted(s0[c], key@, value);
                        assert(result is Overflow);
                        assert(n.keys.len() >= MAX_KEYS_PER_PAGE);
                        let w = with_child(p, i, n.keys[4], Location::Page(RefPageLocation { start_offset: (s0.len() * PAGE_SIZE) as u64 }));
                        assert(w.keys.len() >= MAX_KEYS_PER_PAGE);
                        assert(root_child_leaf_added(s0, ri, key@, value, storage@));
                    }
                }
                if fresh {
                    lemma_root_grow_order(s0, ri, hr, key@, value, s1, root_page@, o, okey, right_page_loc, left_page_loc);
                    assert(storage@ == s1.push(o).push(root_page@).update(ri, new_root_page@));
                    assert((sh5.height)(ri) == hr + 1);
                    assert(index_ordered(storage@, root));
                    lemma_lookup_after_add(s0, sh, storage@, sh5, key@, value);
                }
            }
            Ok(())
        },
        PushResult::Inserted => {
            proof {
                if value is Value {
                    let sh2 = choose|sh2: Shape| add_post(s0, sh, ri, s1, root_page@, overflow_view(PushResult::Inserted), sh2);
                    assert(rooted_at(s1.update(ri, root_page@), root, sh2));
                    assert((sh2.height)(ri) == hr);
                    lemma_index_depth(s1.update(ri, root_page@), root, sh2);
                    if fresh {
                        let t = s1.update(ri, root_page@);
                        assert(sh.live.contains(ri));
                        assert((sh2.height)(ri) == hr);
                        assert(t[ri] == root_page@);
                        assert(index_ordered(t, root));
                        lemma_lookup_after_add(s0, sh, t, sh2, key@, value);
                    }
                }
            }
            root.write_page(&root_page, storage);
            proof {
                if value is Value && s0[ri].is_leaf {
                    assert(s1 == s0);
                    assert(root_leaf_added(s0, ri, key@, value, storage@));
                }
                if value is Value && !s0[ri].is_leaf {
                    let p = s0[ri];
                    let i = prefix_le_len(p.keys, key@) as int;
                    let c = child_of(p, i);
                    if s0[c].is_leaf {
                        assert(c != ri) by {
                            assert(page_loc_ok(p.locs[i]));
                            assert((sh.parent)(c) == (ri, i));
                        }
                        let n = Leaf::inserted(s0[c], key@, value);
                        if n.keys.len() < MAX_KEYS_PER_PAGE {
                            assert(storage@ =~= s0.update(c, n));
                        }
                        assert(root_child_leaf_added(s0, ri, key@, value, storage@));
                    }
                }
            }
            Ok(())
        },
    }
}

/// Removes `key` from the index rooted at `root`. A root left with a single
/// child takes over that child's contents.
pub fn remove_from_store(root: RefPageLocation, key: &[u8], storage: &mut PageStore) -> (r: Result<(), StorageError>)
    requires
        index_ok(old(storage)@, root),
        old(storage)@.len() <= MAX_PAGES,
    ensures
        r is Ok,
        index_ok(final(storage)@, root),
        final(storage)@.len() == old(storage)@.len(),
        index_depth(final(storage)@, root) <= index_depth(old(storage)@, root),
        !index_located(old(storage)@, root, key@) ==> final(storage)@ == old(storage)@,
        index_ordered(old(storage)@, root) && index_merge_ok(old(storage)@, root, key@) ==> {
            &&& index_ordered(final(storage)@, root)
            &&& index_lookup(final(storage)@, root, key@) is None
            &&& forall|k: Seq<u8>|
                k != key@ ==> #[trigger] index_lookup(final(storage)@, root, k) == index_lookup(old(storage)@, root, k)
        },
{
    let ghost s0 = storage@;
    let ghost keeps_order = index_ordered(s0, root) && index_merge_ok(s0, root, key@);
    proof {
        if keeps_order {
            let w = choose|sh: Shape|
                #[trigger] rooted_at(s0, root, sh) && ordered(s0, s0[sh.root], (sh.height)(sh.root), None, None);
            assert(rooted_at(s0, root, w) && (keeps_order ==> ordered(s0, s0[w.root], (w.height)(w.root), None, None)));
        } else {
            let w = choose|sh: Shape| #[trigger] rooted_at(s0, root, sh);
            assert(rooted_at(s0, root, w) && (keeps_order ==> ordered(s0, s0[w.root], (w.height)(w.root), None, None)));
        }
    }
    let ghost sh = choose|sh: Shape|
        rooted_at(s0, root, sh) && (keeps_order ==> ordered(s0, s0[sh.root], (sh.height)(sh.root), None, None));
    let ghost ri = sh.root;
    proof {
        assert(sh.live.contains(ri));
        assert(node_ok(sh, s0[ri], (sh.height)(ri)));
        lemma_located_height(s0, sh, s0[ri], (sh.height)(ri), s0.len() as nat, key@);
        crate::storage::btree::removal::lemma_short_height(s0, sh, s0[ri], (sh.height)(ri), s0.len() as nat, key@);
    }
    let mut root_page = root.load_page(storage);
    let result = root_page.remove(key, storage, Ghost(ri), Ghost(sh), Ghost(None), Ghost(None));
    let ghost s1 = storage@;
    let ghost v1 = root_page@;
    let ghost sh2 = choose|sh2: Shape| rem_post(s0, sh, ri, s1, v1, result, sh2);
    let ghost t = s1.update(ri, v1);
    let ghost mut sh3 = sh2;
    proof {
        assert(sh2.live.contains(ri));
    }
    match result {
        RemoveResult::NotFound => {},
        RemoveResult::Underflow => {
            let mut child: Option<Page> = None;
            match &root_page {
                Page::Leaf(_) => {},
                Page::Internal(internal) => {
                    if internal.pages.len() == 1 {
                        proof {
                            lemma_child_facts(t, sh2, ri, ri, 0);
                            assert(s1[child_of(v1, 0)] == t[child_of(v1, 0)]);
                        }
                        child = Some(internal.pages[0].load_page(storage));
                    }
                },
            }
            proof {
                if v1.is_leaf {
                    lemma_relax(t, sh2, ri);
                } else if child is None {
                    assert(node_ok(sh2, t[ri], (sh2.height)(ri)));
                    lemma_relax(t, sh2, ri);
                } else {
                    lemma_collapse_root(t, sh2);
                    sh3 = shape_collapse_root(sh2, child_of(v1, 0));
                }
            }
            if let Some(page) = child {
                root_page = page;
            }
        },
        RemoveResult::Removed => {
            let mut child: Option<Page> = None;
            match &root_page {
                Page::Leaf(_) => {},
                Page::Internal(internal) => {
                    if internal.pages.len() == 1 {
                        proof {
                            assert(node_ok(sh2, t[ri], (sh2.height)(ri)));
                        }
                        child = Some(internal.pages[0].load_page(storage));
                    }
                },
            }
            if let Some(page) = child {
                root_page = page;
            }
        },
    }
    root.write_page(&root_page, storage);
    proof {
        if result == RemoveResult::NotFound {
            assert(storage@ =~= s0);
        }
        assert(storage@ == s1.update(ri, root_page@));
        assert(rooted_at(storage@, root, sh3));
        lemma_index_depth(s0, root, sh);
        lemma_index_depth(storage@, root, sh3);
        assert((sh3.height)(ri) <= (sh.height)(ri));
        if keeps_order {
            let hr = (sh.height)(ri);
            let f = storage@;
            assert(rem_order_post(s0, ri, hr, None, None, key@, s1, v1));
            assert(!below(t, v1, hr, ri)) by {
                if below(t, v1, hr, ri) {
                    assert(below(s0, s0[ri], hr, ri));
                    lemma_below_anc(s0, sh, ri, ri);
                }
            }
            assert(t[ri] == v1);
            if root_page@ == v1 {
                assert(f == t);
                assert((sh3.height)(ri) == hr);
                assert(index_ordered(f, root));
                lemma_lookup_after_remove(s0, sh, f, sh3, key@);
            } else {
                let c0 = child_of(v1, 0);
                assert(root_page@ == t[c0]);
                assert(f == t.update(ri, t[c0]));
                lemma_collapse_order(t, ri, hr);
                assert((sh3.height)(ri) == hr - 1);
                assert(index_ordered(f, root));
                lemma_lookup_after_remove(s0, sh, f, sh3, key@);
            }
        }
    }
    Ok(())
}

impl PagingBtree {
    /// An index kept in the file at `file_path`, rooted at its first page.
    pub fn new(file_path: String) -> (r: Self)
        ensures
            r.file_path@ == file_path@,
            r.root_page_location.start_offset == 0,
    {
        Self { file_path: file_path.clone(), root_page_location: RefPageLocation { start_offset: 0 } }
    }

    /// The location that `key` finds: the first equal key in the leaf that
    /// the separators route `key` to.
    pub fn get(&self, key: &[u8], storage: &PageStore) -> (r: Option<Location>)
        requires
            index_ok(storage@, self.root_page_location),
        ensures
            r == index_lookup(storage@, self.root_page_location, key@),
    {
        get_in_store(self.root_page_location, key, storage)
    }

    /// Removes `key`; a root left with a single child takes over that child's
    /// contents.
    pub fn remove(&self, key: &[u8], storage: &mut PageStore) -> (r: Result<(), StorageError>)
        requires
            index_ok(old(storage)@, self.root_page_location),
            old(storage)@.len() <= MAX_PAGES,
        ensures
            r is Ok,
            index_ok(final(storage)@, self.root_page_location),
            final(storage)@.len() == old(storage)@.len(),
            index_depth(final(storage)@, self.root_page_location) <= index_depth(old(storage)@, self.root_page_location),
            !index_located(old(storage)@, self.root_page_location, key@) ==> final(storage)@ == old(storage)@,
            index_ordered(old(storage)@, self.root_page_location) && index_merge_ok(
                old(storage)@,
                self.root_page_location,
                key@,
            ) ==> {
                let root = self.root_page_location;
                &&& index_ordered(final(storage)@, root)
                &&& index_lookup(final(storage)@, root, key@) is None
                &&& forall|k: Seq<u8>|
                    k != key@ ==> #[trigger] index_lookup(final(storage)@, root, k) == index_lookup(old(storage)@, root, k)
            },
    {
        remove_from_store(self.root_page_location, key, storage)
    }

    /// Adds `key` with row location `value`.
    pub fn add(&mut self, key: &[u8], value: Location, storage: &mut PageStore) -> (r: Result<(), StorageError>)
        requires
            index_ok(old(storage)@, old(self).root_page_location),
            old(storage)@.len() * 2 + 2 <= MAX_PAGES,
            value is Page ==> !old(storage)@[page_index(old(self).root_page_location.start_offset)].is_leaf,
        ensures
            r is Ok,
            final(self).root_page_location == old(self).root_page_location,
            final(self).file_path == old(self).file_path,
            old(storage)@.len() <= final(storage)@.len() <= old(storage)@.len() + index_depth(
                old(storage)@,
                old(self).root_page_location,
            ) + 2,
            index_depth(old(storage)@, old(self).root_page_location) < old(storage)@.len(),
            value is Value ==> index_ok(final(storage)@, final(self).root_page_location),
            value is Value ==> index_depth(final(storage)@, final(self).root_page_location) <= index_depth(
                old(storage)@,
                old(self).root_page_location,
            ) + 1,
            value is Value && old(storage)@[page_index(old(self).root_page_location.start_offset)].is_leaf
                ==> root_leaf_added(
                old(storage)@,
                page_index(old(self).root_page_location.start_offset),
                key@,
                value,
                final(storage)@,
            ),
            ({
                let ri = page_index(old(self).root_page_location.start_offset);
                let p = old(storage)@[ri];
                value is Value && !p.is_leaf && old(storage)@[child_of(p, prefix_le_len(p.keys, key@) as int)].is_leaf
                    ==> root_child_leaf_added(old(storage)@, ri, key@, value, final(storage)@)
            }),
            value is Value && add_splits(
                old(storage)@,
                old(storage)@[page_index(old(self).root_page_location.start_offset)],
                index_depth(old(storage)@, old(self).root_page_location),
                key@,
            ) ==> root_grown(final(storage)@, page_index(old(self).root_page_location.start_offset)),
            value is Value && index_ordered(old(storage)@, old(self).root_page_location) && index_lookup(
                old(storage)@,
                old(self).root_page_location,
                key@,
            ) is None ==> {
                let root = old(self).root_page_location;
                &&& index_ordered(final(storage)@, root)
                &&& index_lookup(final(storage)@, root, key@) == Some(value)
                &&& forall|k: Seq<u8>|
                    k != key@ ==> #[trigger] index_lookup(final(storage)@, root, k) == index_lookup(old(storage)@, root, k)
            },
            value is Page ==> {
                let ri = page_index(old(self).root_page_location.start_offset);
                let v = old(storage)@[ri];
                let i = crate::common::key_order::prefix_le_len(v.keys, key@) as int;
                final(storage)@ == old(storage)@.update(
                    ri,
                    PageView { is_leaf: false, keys: v.keys.insert(i, key@), locs: v.locs.insert(i, value) },
                )
            },
    {
        add_to_store(self.root_page_location, key, value, storage)
    }
}

} // verus!
