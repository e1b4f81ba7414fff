//! Leaf pages: sorted keys, each with the location of its row.

use crate::common::key_order::{copy_bytes, copy_keys, find_first, first_match, keys_view, lemma_prefix_le_len, lemma_prefix_lt_len, lower_bound, prefix_le_len, prefix_lt_len, upper_bound, bytes_eq};
use crate::storage::btree::btree::{MAX_KEYS_PER_PAGE, MIN_KEYS_PER_PAGE};
use crate::storage::btree::location::Location;
use crate::storage::btree::page::{OverFlowElement, Page, PageView, PushResult, RemoveResult};
use vstd::prelude::*;

verus! {

/// A leaf page: `values[i]` is where the row of `keys[i]` lives.
#[derive(Clone)]
pub struct Leaf {
    pub keys: Vec<Vec<u8>>,
    pub values: Vec<Location>,
}

impl View for Leaf {
    type V = PageView;

    open spec fn view(&self) -> PageView {
        PageView { is_leaf: true, keys: keys_view(self.keys@), locs: self.values@ }
    }
}

impl Leaf {
    /// Number of keys.
    pub fn size(&self) -> (r: usize)
        ensures
            r == self@.keys.len(),
    {
        self.keys.len()
    }

    /// A copy of this leaf.
    pub fn copy(&self) -> (r: Leaf)
        ensures
            r@ == self@,
    {
        let keys = copy_keys(&self.keys);
        let values = copy_locations(&self.values);
        Leaf { keys, values }
    }

    /// Takes out the first key and its location.
    pub fn pop_first(&mut self) -> (r: (Vec<u8>, Location))
        requires
            old(self).keys@.len() > 0,
            old(self).values@.len() > 0,
        ensures
            r.0@ == old(self)@.keys[0],
            r.1 == old(self)@.locs[0],
            final(self)@.keys == old(self)@.keys.drop_first(),
            final(self)@.locs == old(self)@.locs.drop_first(),
    {
        let separator = self.keys.remove(0);
        let page_loc = self.values.remove(0);
        assert(self@.keys =~= old(self)@.keys.drop_first());
        assert(self@.locs =~= old(self)@.locs.drop_first());
        (separator, page_loc)
    }

    /// Takes out the last key and its location.
    pub fn pop_last(&mut self) -> (r: (Vec<u8>, Location))
        requires
            old(self).keys@.len() > 0,
            old(self).values@.len() > 0,
        ensures
            r.0@ == old(self)@.keys.last(),
            r.1 == old(self)@.locs.last(),
            final(self)@.keys == old(self)@.keys.drop_last(),
            final(self)@.locs == old(self)@.locs.drop_last(),
    {
        let separator = self.keys.remove(self.keys.len() - 1);
        let page_loc = self.values.remove(self.values.len() - 1);
        assert(self@.keys =~= old(self)@.keys.drop_last());
        assert(self@.locs =~= old(self)@.locs.drop_last());
        (separator, page_loc)
    }

    /// Removes the first key equal to `key` (found by the position of the first
    /// key not before it) and reports whether the leaf fell to
    /// `MIN_KEYS_PER_PAGE` keys or fewer.
    pub fn remove(&mut self, key: &[u8]) -> (r: RemoveResult)
        requires
            old(self).keys@.len() == old(self).values@.len(),
        ensures
            final(self).keys@.len() == final(self).values@.len(),
            ({
                let v = old(self)@;
                let i = prefix_lt_len(v.keys, key@) as int;
                if i < v.keys.len() && v.keys[i] == key@ {
                    &&& final(self)@.keys == v.keys.remove(i)
                    &&& final(self)@.locs == v.locs.remove(i)
                    &&& final(self)@.is_leaf
                    &&& r == if v.keys.len() - 1 > MIN_KEYS_PER_PAGE {
                        RemoveResult::Removed
                    } else {
                        RemoveResult::Underflow
                    }
                } else {
                    &&& final(self)@ == v
                    &&& r == RemoveResult::NotFound
                }
            }),
    {
        let index = lower_bound(&self.keys, key);
        proof {
            lemma_prefix_lt_len(old(self)@.keys, key@);
        }
        if index < self.keys.len() && bytes_eq(self.keys[index].as_slice(), key) {
            self.keys.remove(index);
            self.values.remove(index);
            assert(self@.keys =~= old(self)@.keys.remove(index as int));
            if self.keys.len() > MIN_KEYS_PER_PAGE {
                RemoveResult::Removed
            } else {
                RemoveResult::Underflow
            }
        } else {
            RemoveResult::NotFound
        }
    }

    /// The location of the first key equal to `key`; the page must hold a
    /// location at that key's place.
    pub fn get(&self, key: &[u8]) -> (r: Option<Location>)
        requires
            first_match(self@.keys, key@) < self@.keys.len() ==> first_match(self@.keys, key@) < self.values@.len(),
        ensures
            r == Self::lookup(self@, key@),
    {
        let i = find_first(&self.keys, key);
        if i < self.keys.len() {
            Some(self.values[i])
        } else {
            None
        }
    }

    /// The location of the first key of `v` equal to `k`.
    pub open spec fn lookup(v: PageView, k: Seq<u8>) -> Option<Location> {
        let i = first_match(v.keys, k) as int;
        if i < v.keys.len() {
            Some(v.locs[i])
        } else {
            None
        }
    }

    /// The keys and locations of `v` with `(k, loc)` inserted after every key
    /// at or before `k`.
    pub open spec fn inserted(v: PageView, k: Seq<u8>, loc: Location) -> PageView {
        let i = prefix_le_len(v.keys, k) as int;
        PageView { is_leaf: v.is_leaf, keys: v.keys.insert(i, k), locs: v.locs.insert(i, loc) }
    }

    /// Inserts `key` after every key at or before it; a leaf that reaches
    /// `MAX_KEYS_PER_PAGE` keys is split and its upper part handed back.
    pub fn add(&mut self, key: &[u8], value: Location) -> (r: PushResult)
        requires
            old(self).keys@.len() == old(self).values@.len(),
        ensures
            final(self).keys@.len() == final(self).values@.len(),
            ({
                let n = Self::inserted(old(self)@, key@, value);
                if n.keys.len() >= MAX_KEYS_PER_PAGE {
                    &&& r is Overflow
                    &&& final(self)@ == Page::lower_half(n, 4)
                    &&& r->Overflow_0.key@ == n.keys[4]
                    &&& r->Overflow_0.page@ == Page::upper_half(n, 4, 4)
                } else {
                    &&& r is Inserted
                    &&& final(self)@ == n
                }
            }),
    {
        let index = upper_bound(&self.keys, key);
        proof {
            lemma_prefix_le_len(old(self)@.keys, key@);
        }
        self.keys.insert(index, copy_bytes(key));
        self.values.insert(index, value);
        assert(self@.keys =~= Self::inserted(old(self)@, key@, value).keys);
        if self.keys.len() >= MAX_KEYS_PER_PAGE {
            let (page, key) = self.split();
            return PushResult::Overflow(OverFlowElement { key, page });
        }
        PushResult::Inserted
    }

    /// Keeps the first `MAX_KEYS_PER_PAGE / 2` keys and hands back a leaf of the
    /// rest together with its first key.
    pub fn split(&mut self) -> (r: (Page, Vec<u8>))
        requires
            old(self).keys@.len() > MAX_KEYS_PER_PAGE / 2,
            old(self).values@.len() >= MAX_KEYS_PER_PAGE / 2,
        ensures
            final(self)@ == Page::lower_half(old(self)@, 4),
            r.0@ == Page::upper_half(old(self)@, 4, 4),
            r.1@ == old(self)@.keys[4],
            r.0 is Leaf,
            final(self).keys@.len() == 4,
            final(self).values@.len() == 4,
    {
        let r_keys = self.keys.split_off(MAX_KEYS_PER_PAGE / 2);
        let r_val_loc = self.values.split_off(MAX_KEYS_PER_PAGE / 2);
        let m_key = copy_bytes(r_keys[0].as_slice());
        let right = Leaf { keys: r_keys, values: r_val_loc };
        assert(self@.keys =~= old(self)@.keys.take(4));
        assert(right@.keys =~= old(self)@.keys.skip(4));
        (Page::Leaf(right), m_key)
    }

    /// Position after every key at or before `key`.
    pub fn index_of(&self, key: &[u8]) -> (r: usize)
        ensures
            r == prefix_le_len(self@.keys, key@),
    {
        upper_bound(&self.keys, key)
    }
}

/// A copy of a list of locations.
pub fn copy_locations(v: &Vec<Location>) -> (r: Vec<Location>)
    ensures
        r@ == v@,
{
    let mut r: Vec<Location> = Vec::new();
    let mut i: usize = 0;
    while i < v.len()
        invariant
            i <= v.len(),
            r@ == v@.take(i as int),
        decreases v.len() - i,
    {
        r.push(v[i]);
        i = i + 1;
        assert(r@ =~= v@.take(i as int));
    }
    assert(v@.take(v@.len() as int) =~= v@);
    r
}

} // verus!
