//! An index that owns the page store it lives in.

use crate::storage::btree::btree::{
    add_to_store, get_in_store, index_depth, root_child_leaf_added, root_grown, root_leaf_added, index_located, index_lookup, index_merge_ok, index_ok, index_ordered,
    remove_from_store,
};
use crate::storage::btree::location::{page_index, Location, PageStore, RefPageLocation, MAX_PAGES};
use crate::storage::btree::page::{add_splits, PageView};
use crate::storage::btree::shape::child_of;
use crate::common::key_order::prefix_le_len;
use crate::storage::storage_error::StorageError;
use vstd::prelude::*;

verus! {

/// A page holding this many keys is split.
pub const MAX_KEYS_PER_PAGE: usize = 9;

/// A page other than the root that holds no more keys than this after a
/// removal has underflowed.
pub const MIN_KEYS_PER_PAGE: usize = MAX_KEYS_PER_PAGE / 2;

/// A B-tree index together with the page store that holds it; the root page
/// always stays at `root_page_location`.
pub struct PagingBtree {
    pub storage: PageStore,
    pub root_page_location: RefPageLocation,
}

impl PagingBtree {
    /// An index over `storage`, rooted at its first page.
    pub fn with_storage(storage: PageStore) -> (r: Self)
        ensures
            r.storage@ == storage@,
            r.root_page_location.start_offset == 0,
    {
        Self { storage, root_page_location: RefPageLocation { start_offset: 0 } }
    }

    /// The location that `key` finds: the first equal key in the leaf that
    /// the separators route `key` to.
    pub fn get(&mut self, key: &[u8]) -> (r: Option<Location>)
        requires
            index_ok(old(self).storage@, old(self).root_page_location),
        ensures
            r == index_lookup(old(self).storage@, old(self).root_page_location, key@),
            final(self).storage@ == old(self).storage@,
            final(self).root_page_location == old(self).root_page_location,
    {
        get_in_store(self.root_page_location, key, &self.storage)
    }

    /// Removes `key`; a root left with a single child takes over that child's
    /// contents.
    pub fn remove(&mut self, key: &[u8]) -> (r: Result<(), StorageError>)
        requires
            index_ok(old(self).storage@, old(self).root_page_location),
            old(self).storage@.len() <= MAX_PAGES,
        ensures
            r is Ok,
            final(self).root_page_location == old(self).root_page_location,
            index_ok(final(self).storage@, final(self).root_page_location),
            final(self).storage@.len() == old(self).storage@.len(),
            index_depth(final(self).storage@, final(self).root_page_location) <= index_depth(
                old(self).storage@,
                old(self).root_page_location,
            ),
            !index_located(old(self).storage@, old(self).root_page_location, key@) ==> final(self).storage@
                == old(self).storage@,
            index_ordered(old(self).storage@, old(self).root_page_location) && index_merge_ok(
                old(self).storage@,
                old(self).root_page_location,
                key@,
            ) ==> {
                let root = old(self).root_page_location;
                &&& index_ordered(final(self).storage@, root)
                &&& index_lookup(final(self).storage@, root, key@) is None
                &&& forall|k: Seq<u8>|
                    k != key@ ==> #[trigger] index_lookup(final(self).storage@, root, k) == index_lookup(
                        old(self).storage@,
                        root,
                        k,
                    )
            },
    {
        remove_from_store(self.root_page_location, key, &mut self.storage)
    }

    /// Adds `key` with `value`; when the root splits, both parts move to new
    /// pages below a new root. A child page location is put directly into an
    /// internal root instead.
    pub fn insert(&mut self, key: &[u8], value: Location) -> (r: Result<(), StorageError>)
        requires
            index_ok(old(self).storage@, old(self).root_page_location),
            old(self).storage@.len() * 2 + 2 <= MAX_PAGES,
            value is Page ==> !old(self).storage@[page_index(old(self).root_page_location.start_offset)].is_leaf,
        ensures
            r is Ok,
            final(self).root_page_location == old(self).root_page_location,
            old(self).storage@.len() <= final(self).storage@.len() <= old(self).storage@.len() + index_depth(
                old(self).storage@,
                old(self).root_page_location,
            ) + 2,
            index_depth(old(self).storage@, old(self).root_page_location) < old(self).storage@.len(),
            value is Value ==> index_ok(final(self).storage@, final(self).root_page_location),
            value is Value ==> index_depth(final(self).storage@, final(self).root_page_location) <= index_depth(
                old(self).storage@,
                old(self).root_page_location,
            ) + 1,
            value is Value && old(self).storage@[page_index(old(self).root_page_location.start_offset)].is_leaf
                ==> root_leaf_added(
                old(self).storage@,
                page_index(old(self).root_page_location.start_offset),
                key@,
                value,
                final(self).storage@,
            ),
            ({
                let ri = page_index(old(self).root_page_location.start_offset);
                let p = old(self).storage@[ri];
                value is Value && !p.is_leaf && old(self).storage@[child_of(p, prefix_le_len(p.keys, key@) as int)].is_leaf
                    ==> root_child_leaf_added(old(self).storage@, ri, key@, value, final(self).storage@)
            }),
            value is Value && add_splits(
                old(self).storage@,
                old(self).storage@[page_index(old(self).root_page_location.start_offset)],
                index_depth(old(self).storage@, old(self).root_page_location),
                key@,
            ) ==> root_grown(final(self).storage@, page_index(old(self).root_page_location.start_offset)),
            value is Value && index_ordered(old(self).storage@, old(self).root_page_location) && index_lookup(
                old(self).storage@,
                old(self).root_page_location,
                key@,
            ) is None ==> {
                let root = old(self).root_page_location;
                &&& index_ordered(final(self).storage@, root)
                &&& index_lookup(final(self).storage@, root, key@) == Some(value)
                &&& forall|k: Seq<u8>|
                    k != key@ ==> #[trigger] index_lookup(final(self).storage@, root, k) == index_lookup(
                        old(self).storage@,
                        root,
                        k,
                    )
            },
            value is Page ==> {
                let ri = page_index(old(self).root_page_location.start_offset);
                let v = old(self).storage@[ri];
                let i = crate::common::key_order::prefix_le_len(v.keys, key@) as int;
                final(self).storage@ == old(self).storage@.update(
                    ri,
                    PageView { is_leaf: false, keys: v.keys.insert(i, key@), locs: v.locs.insert(i, value) },
                )
            },
    {
        add_to_store(self.root_page_location, key, value, &mut self.storage)
    }
}

/// A tree rebuilt over the page store of another and rooted where it is (as
/// `with_storage` over a tree rooted at the first page, which `insert` and
/// `remove` never move) finds for every key what the other finds.
pub proof fn lemma_rebuilt_tree_agrees(a: PagingBtree, b: PagingBtree, k: Seq<u8>)
    requires
        a.storage@ == b.storage@,
        a.root_page_location == b.root_page_location,
    ensures
        index_lookup(a.storage@, a.root_page_location, k) == index_lookup(b.storage@, b.root_page_location, k),
{
}

} // verus!
