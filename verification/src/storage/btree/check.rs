//! Checking that a page store holds a well-formed index, as one read back
//! from a file must be before it is used.

use crate::storage::btree::btree::{index_ok, rooted_at, MIN_KEYS_PER_PAGE};
use crate::storage::btree::location::{page_index, Location, PageStore, RefPageLocation, PAGE_SIZE};
use crate::storage::btree::page::{Page, PageView};
use crate::storage::btree::shape::{child_of, node_ok, page_loc_ok, tree_ok, Shape};
use vstd::prelude::*;

verus! {

/// What the check has seen so far: the pages reached, those whose whole
/// subtree is checked, the height given to each page reached, and the page
/// and slot that refer to each page reached other than the root.
pub type Marks = (Set<int>, Set<int>, Map<int, nat>, Map<int, (int, int)>);

/// Page `j` of file `s` is checked under marks `g`: stored, well formed at
/// its height, holding `MIN_KEYS_PER_PAGE` keys unless it is the root, each
/// child a page one level lower reached from this slot.
pub open spec fn checked(s: Seq<PageView>, g: Marks, root: int, j: int) -> bool {
    let v = s[j];
    let hm = g.2;
    let pm = g.3;
    &&& 0 <= j < s.len()
    &&& hm.contains_key(j)
    &&& (j != root ==> v.keys.len() >= MIN_KEYS_PER_PAGE)
    &&& if v.is_leaf {
        &&& hm[j] == 0
        &&& v.keys.len() == v.locs.len()
    } else {
        &&& hm[j] > 0
        &&& v.locs.len() == v.keys.len() + 1
        &&& forall|k: int|
            0 <= k < v.locs.len() ==> {
                &&& page_loc_ok(#[trigger] v.locs[k])
                &&& g.0.contains(child_of(v, k))
                &&& hm.contains_key(child_of(v, k))
                &&& hm[child_of(v, k)] == hm[j] - 1
                &&& pm.contains_key(child_of(v, k))
                &&& pm[child_of(v, k)] == (j, k)
            }
    }
}

/// Marks `g2` keep all that marks `g` hold.
pub open spec fn extends(g: Marks, g2: Marks) -> bool {
    &&& g.0.subset_of(g2.0)
    &&& g.1.subset_of(g2.1)
    &&& forall|j: int| #[trigger] g.2.contains_key(j) ==> g2.2.contains_key(j) && g2.2[j] == g.2[j]
    &&& forall|j: int| #[trigger] g.3.contains_key(j) ==> g2.3.contains_key(j) && g2.3[j] == g.3[j]
}

/// Marks `g` agree with the flags `seen` over file `s`: the pages reached are
/// the flagged ones, each has a height, the root has no referring slot, and
/// every page whose subtree is done is checked.
pub open spec fn marks_ok(s: Seq<PageView>, root: int, seen: Seq<bool>, g: Marks) -> bool {
    &&& seen.len() == s.len()
    &&& forall|j: int| 0 <= j < s.len() ==> (#[trigger] seen[j] <==> g.0.contains(j))
    &&& forall|j: int| #[trigger] g.0.contains(j) ==> 0 <= j < s.len() && g.2.contains_key(j)
    &&& forall|j: int| #[trigger] g.2.contains_key(j) ==> g.0.contains(j)
    &&& g.1.subset_of(g.0)
    &&& !g.3.contains_key(root)
    &&& forall|j: int| #[trigger] g.3.contains_key(j) ==> g.0.contains(j)
    &&& forall|j: int| #[trigger] g.1.contains(j) ==> checked(s, g, root, j)
}

/// Checking stays true as marks grow.
proof fn lemma_checked_extends(s: Seq<PageView>, g: Marks, g2: Marks, root: int, j: int)
    requires
        checked(s, g, root, j),
        extends(g, g2),
    ensures
        checked(s, g2, root, j),
{
    let v = s[j];
    if !v.is_leaf {
        assert forall|k: int| 0 <= k < v.locs.len() implies {
            &&& page_loc_ok(#[trigger] v.locs[k])
            &&& g2.0.contains(child_of(v, k))
            &&& g2.2.contains_key(child_of(v, k))
            &&& g2.2[child_of(v, k)] == g2.2[j] - 1
            &&& g2.3.contains_key(child_of(v, k))
            &&& g2.3[child_of(v, k)] == (j, k)
        } by {
            assert(g.2.contains_key(child_of(v, k)));
            assert(g.3.contains_key(child_of(v, k)));
        }
    }
}

/// The shape that finished marks give.
pub open spec fn marks_shape(g: Marks, root: int) -> Shape {
    Shape {
        root,
        live: g.0,
        height: |x: int| g.2[x],
        parent: |x: int|
            if x == root {
                (-2int, 0int)
            } else {
                g.3[x]
            },
    }
}

/// Finished marks, every page reached checked, give a well-formed file.
proof fn lemma_marks_tree_ok(s: Seq<PageView>, g: Marks, root: int, seen: Seq<bool>)
    requires
        marks_ok(s, root, seen, g),
        g.1 == g.0,
        g.0.contains(root),
        g.2[root] < s.len(),
        !s[root].is_leaf ==> s[root].keys.len() >= 1,
    ensures
        tree_ok(s, marks_shape(g, root)),
{
    let sh = marks_shape(g, root);
    assert forall|i: int| #[trigger] sh.live.contains(i) implies {
        &&& 0 <= i < s.len()
        &&& node_ok(sh, s[i], (sh.height)(i))
        &&& i != sh.root ==> s[i].keys.len() >= MIN_KEYS_PER_PAGE
    } by {
        assert(g.1.contains(i));
        assert(checked(s, g, root, i));
        let v = s[i];
        if !v.is_leaf {
            assert forall|k: int| 0 <= k < v.locs.len() implies {
                &&& page_loc_ok(#[trigger] v.locs[k])
                &&& sh.live.contains(child_of(v, k))
                &&& (sh.height)(child_of(v, k)) == (sh.height)(i) - 1
            } by {}
        }
    }
    assert forall|i: int, k: int|
        #![trigger sh.live.contains(i), s[i].locs[k]]
        sh.live.contains(i) && !s[i].is_leaf && 0 <= k < s[i].locs.len() implies (sh.parent)(child_of(s[i], k)) == (
            i,
            k,
        ) by {
        assert(g.1.contains(i));
        assert(checked(s, g, root, i));
        assert(g.3.contains_key(child_of(s[i], k)));
        assert(child_of(s[i], k) != root);
    }
}

/// Checks the page `i` and all below it, `h` levels high, none reached yet.
fn check_below(
    storage: &PageStore,
    i: usize,
    h: usize,
    root: usize,
    seen: &mut Vec<bool>,
    Ghost(g): Ghost<Marks>,
) -> (r: (bool, Ghost<Marks>))
    requires
        i < storage@.len(),
        marks_ok(storage@, root as int, old(seen)@, g),
        !old(seen)@[i as int],
        i != root ==> !g.3.contains_key(i as int),
        i == root || g.0.contains(root as int),
    ensures
        r.0 ==> {
            let g2 = r.1@;
            &&& marks_ok(storage@, root as int, final(seen)@, g2)
            &&& extends(g, g2)
            &&& g2.0.contains(i as int)
            &&& g2.1.contains(i as int)
            &&& g2.2[i as int] == h
            &&& g2.1 == g.1 + (g2.0 - g.0)
            &&& !g2.3.contains_key(i as int)
            &&& forall|j: int| #[trigger] g2.3.contains_key(j) ==> g.3.contains_key(j) || !g.0.contains(j)
        },
        i == root && h == 0 && storage@[i as int].is_leaf && storage@[i as int].keys.len() == storage@[i as int].locs.len()
            ==> r.0,
    decreases h,
{
    let ghost s = storage@;
    let page = storage.read(i);
    let ghost v = page@;
    let size = match &page {
        Page::Internal(n) => n.separators.len(),
        Page::Leaf(n) => n.keys.len(),
    };
    assert(size == v.keys.len());
    if i != root && size < MIN_KEYS_PER_PAGE {
        return (false, Ghost(g));
    }
    seen.set(i, true);
    let ghost g1: Marks = (g.0.insert(i as int), g.1, g.2.insert(i as int, h as nat), g.3);
    proof {
        assert forall|j: int| #[trigger] g.1.contains(j) implies checked(s, g1, root as int, j) by {
            lemma_checked_extends(s, g, g1, root as int, j);
        }
    }
    match &page {
        Page::Leaf(n) => {
            if h != 0 || n.keys.len() != n.values.len() {
                return (false, Ghost(g));
            }
            let ghost g2: Marks = (g1.0, g1.1.insert(i as int), g1.2, g1.3);
            proof {
                assert(checked(s, g2, root as int, i as int));
                assert forall|j: int| #[trigger] g2.1.contains(j) implies checked(s, g2, root as int, j) by {
                    if j != i {
                        assert(checked(s, g1, root as int, j));
                    }
                }
                assert(g2.1 =~= g.1 + (g2.0 - g.0));
            }
            (true, Ghost(g2))
        },
        Page::Internal(n) => {
            if h == 0 || n.pages.len() == 0 || n.pages.len() - 1 != n.separators.len() {
                return (false, Ghost(g));
            }
            let ghost mut cur = g1;
            assert(v.locs == n.pages@);
            let mut k: usize = 0;
            while k < n.pages.len()
                invariant
                    s == storage@,
                    v == page@,
                    !v.is_leaf,
                    v.locs == n.pages@,
                    v.locs.len() == v.keys.len() + 1,
                    h > 0,
                    i < s.len(),
                    k <= n.pages@.len(),
                    i != root ==> v.keys.len() >= MIN_KEYS_PER_PAGE,
                    marks_ok(s, root as int, seen@, cur),
                    extends(g1, cur),
                    cur.0.contains(i as int),
                    !cur.1.contains(i as int),
                    cur.2[i as int] == h,
                    !cur.3.contains_key(i as int),
                    cur.1 == g.1 + (cur.0 - g.0 - set![i as int]),
                    cur.0.contains(root as int),
                    forall|j: int| g.0.contains(j) ==> cur.0.contains(j),
                    forall|j: int| #[trigger] cur.3.contains_key(j) ==> g.3.contains_key(j) || !g.0.contains(j),
                    !g.0.contains(i as int),
                    forall|q: int|
                        0 <= q < k ==> {
                            &&& page_loc_ok(#[trigger] v.locs[q])
                            &&& cur.1.contains(child_of(v, q))
                            &&& cur.2[child_of(v, q)] == h - 1
                            &&& cur.3.contains_key(child_of(v, q))
                            &&& cur.3[child_of(v, q)] == (i as int, q)
                        },
                decreases n.pages@.len() - k,
            {
                let loc = n.pages[k];
                let c: usize = match loc {
                    Location::Page(p) => {
                        if p.start_offset % PAGE_SIZE != 0 || p.start_offset / PAGE_SIZE >= storage.page_count() as u64 {
                            return (false, Ghost(g));
                        }
                        (p.start_offset / PAGE_SIZE) as usize
                    },
                    Location::Value(_) => {
                        return (false, Ghost(g));
                    },
                };
                assert(page_loc_ok(v.locs[k as int]));
                assert(c as int == child_of(v, k as int));
                if seen[c] {
                    return (false, Ghost(g));
                }
                proof {
                    assert(!cur.3.contains_key(c as int));
                    assert(c != i);
                    assert(c != root) by {
                        assert(seen@[root as int] || !g.0.contains(root as int));
                    }
                }
                let (ok, Ghost(gc)) = check_below(storage, c, h - 1, root, seen, Ghost(cur));
                if !ok {
                    return (false, Ghost(g));
                }
                let ghost g3: Marks = (gc.0, gc.1, gc.2, gc.3.insert(c as int, (i as int, k as int)));
                proof {
                    assert(extends(gc, g3));
                    assert forall|j: int| #[trigger] g3.1.contains(j) implies checked(s, g3, root as int, j) by {
                        lemma_checked_extends(s, gc, g3, root as int, j);
                    }
                    assert forall|q: int| 0 <= q <= k implies {
                        &&& page_loc_ok(#[trigger] v.locs[q])
                        &&& g3.1.contains(child_of(v, q))
                        &&& g3.2[child_of(v, q)] == h - 1
                        &&& g3.3.contains_key(child_of(v, q))
                        &&& g3.3[child_of(v, q)] == (i as int, q)
                    } by {
                        if q < k {
                            assert(cur.3.contains_key(child_of(v, q)));
                            assert(child_of(v, q) != c);
                        }
                    }
                    assert(g3.1 =~= g.1 + (g3.0 - g.0 - set![i as int]));
                }
                proof {
                    cur = g3;
                }
                k = k + 1;
            }
            let ghost g2: Marks = (cur.0, cur.1.insert(i as int), cur.2, cur.3);
            proof {
                assert(extends(g, g1));
                assert(checked(s, g2, root as int, i as int));
                assert forall|j: int| #[trigger] g2.1.contains(j) implies checked(s, g2, root as int, j) by {
                    if j != i {
                        assert(checked(s, cur, root as int, j));
                        lemma_checked_extends(s, cur, g2, root as int, j);
                    }
                }
                assert(g2.1 =~= g.1 + (g2.0 - g.0));
            }
            (true, Ghost(g2))
        },
    }
}

/// Whether `storage` holds a well-formed index rooted at `root`: every page
/// reached from the root is stored once, well formed at its height, and,
/// but for the root, holds at least `MIN_KEYS_PER_PAGE` keys. A file that
/// passes meets what the index operations ask (`index_ok`).
pub fn check_index(storage: &PageStore, root: RefPageLocation) -> (r: bool)
    ensures
        r ==> index_ok(storage@, root),
        ({
            let s = storage@;
            let ri = page_index(root.start_offset);
            root.start_offset % PAGE_SIZE == 0 && ri < s.len() && s[ri].is_leaf && s[ri].keys.len() == s[ri].locs.len()
        }) ==> r,
{
    let ghost s = storage@;
    let n = storage.page_count();
    if root.start_offset % PAGE_SIZE != 0 || root.start_offset / PAGE_SIZE >= n as u64 {
        return false;
    }
    let ri = (root.start_offset / PAGE_SIZE) as usize;
    let mut depth: usize = 0;
    let mut cur = storage.read(ri);
    loop
        invariant
            depth < n,
            n == storage@.len(),
            ri < n,
            ri as int == page_index(root.start_offset),
            depth == 0 ==> cur@ == storage@[ri as int],
            storage@[ri as int].is_leaf ==> depth == 0,
        decreases n - depth,
    {
        match &cur {
            Page::Leaf(_) => {
                break;
            },
            Page::Internal(node) => {
                if depth + 1 >= n || node.pages.len() == 0 {
                    return false;
                }
                let next = match node.pages[0] {
                    Location::Page(p) => {
                        if p.start_offset % PAGE_SIZE != 0 || p.start_offset / PAGE_SIZE >= n as u64 {
                            return false;
                        }
                        (p.start_offset / PAGE_SIZE) as usize
                    },
                    Location::Value(_) => {
                        return false;
                    },
                };
                cur = storage.read(next);
                depth = depth + 1;
            },
        }
    }
    let root_page = storage.read(ri);
    match &root_page {
        Page::Internal(node) => {
            assert(root_page@.keys.len() == node.separators@.len());
            if node.separators.len() == 0 {
                return false;
            }
        },
        Page::Leaf(_) => {},
    }
    let mut seen: Vec<bool> = Vec::new();
    let mut j: usize = 0;
    while j < n
        invariant
            j <= n,
            seen@.len() == j,
            forall|q: int| 0 <= q < j ==> !#[trigger] seen@[q],
        decreases n - j,
    {
        seen.push(false);
        j = j + 1;
    }
    let ghost g0: Marks = (Set::empty(), Set::empty(), Map::empty(), Map::empty());
    proof {
        assert(marks_ok(s, ri as int, seen@, g0));
    }
    let (ok, Ghost(g)) = check_below(storage, ri, depth, ri, &mut seen, Ghost(g0));
    if !ok {
        return false;
    }
    proof {
        assert(g.1 =~= g.0);
        assert(depth < s.len());
        lemma_marks_tree_ok(s, g, ri as int, seen@);
        assert(rooted_at(s, root, marks_shape(g, ri as int)));
    }
    true
}

} // verus!
