//! The indexes of a table: named B-trees from keys to the places of rows in
//! the table's heap file. Reading and writing the heap file itself is left to
//! the caller.

use crate::storage::btree::btree::{get_in_store, index_depth, index_lookup, index_ok, index_ordered};
use crate::storage::btree::location::{Location, RefValueLocation, MAX_PAGES};
use crate::storage::btree::tree::PagingBtree;
use crate::storage::manifest::{first_equal, lemma_first_equal};
use crate::storage::storage_error::StorageError;
use vstd::prelude::*;

verus! {

/// A table's indexes, each under its name.
pub struct TableIndexes {
    pub indexes: Vec<(String, PagingBtree)>,
}

/// The names of the indexes `v`, in order.
pub open spec fn index_names(v: Seq<(String, PagingBtree)>) -> Seq<Seq<char>> {
    v.map_values(|e: (String, PagingBtree)| e.0@)
}

/// Position of the first index of `v` named `name`, or the number of indexes
/// when none is.
pub open spec fn named(v: Seq<(String, PagingBtree)>, name: Seq<char>) -> int {
    first_equal(index_names(v), name)
}

/// The index `t` may take a new entry: it is well formed and its file has
/// room for the pages that adding may add.
pub open spec fn insertable(t: PagingBtree) -> bool {
    &&& index_ok(t.storage@, t.root_page_location)
    &&& t.storage@.len() * 2 + 2 <= MAX_PAGES
}

/// `t2` is the index `t1` after `key` was added with the row location `value`
/// (see `PagingBtree::insert`): the root stays, the index stays well formed,
/// grows by at most its depth plus two pages and one level, and, where `t1`
/// kept the key order and lacked `key`, the order is kept, `key` finds
/// `value` and every other key finds what it found.
pub open spec fn inserted_into(t1: PagingBtree, t2: PagingBtree, key: Seq<u8>, value: Location) -> bool {
    let root = t1.root_page_location;
    let s1 = t1.storage@;
    let s2 = t2.storage@;
    &&& t2.root_page_location == root
    &&& index_ok(s2, root)
    &&& s1.len() <= s2.len() <= s1.len() + index_depth(s1, root) + 2
    &&& index_depth(s2, root) <= index_depth(s1, root) + 1
    &&& index_ordered(s1, root) && index_lookup(s1, root, key) is None ==> {
        &&& index_ordered(s2, root)
        &&& index_lookup(s2, root, key) == Some(value)
        &&& forall|k: Seq<u8>| k != key ==> #[trigger] index_lookup(s2, root, k) == index_lookup(s1, root, k)
    }
}

/// A row's place recorded under a key that an index keeping the key order
/// lacked is what looking that key up in the index finds afterwards: after
/// `insert_location`, `locate` gives `Ok(Location::Value(loc))`.
pub proof fn lemma_recorded_row_is_located(t1: PagingBtree, t2: PagingBtree, key: Seq<u8>, loc: RefValueLocation)
    requires
        inserted_into(t1, t2, key, Location::Value(loc)),
        index_ordered(t1.storage@, t1.root_page_location),
        index_lookup(t1.storage@, t1.root_page_location, key) is None,
    ensures
        index_lookup(t2.storage@, t2.root_page_location, key) == Some(Location::Value(loc)),
        forall|k: Seq<u8>|
            k != key ==> #[trigger] index_lookup(t2.storage@, t2.root_page_location, k) == index_lookup(
                t1.storage@,
                t1.root_page_location,
                k,
            ),
{
}

impl TableIndexes {
    /// A table without indexes.
    pub fn new() -> (r: Self)
        ensures
            r.indexes@.len() == 0,
    {
        TableIndexes { indexes: Vec::new() }
    }

    /// Position of the first index named `name`, or the number of indexes.
    pub fn find(&self, name: &str) -> (r: usize)
        ensures
            r == named(self.indexes@, name@),
            r <= self.indexes@.len(),
            r < self.indexes@.len() ==> self.indexes@[r as int].0@ == name@,
            forall|j: int| 0 <= j < r ==> #[trigger] self.indexes@[j].0@ != name@,
    {
        let ghost ns = index_names(self.indexes@);
        proof {
            lemma_first_equal(ns, name@);
        }
        let owned = name.to_owned();
        let mut i: usize = 0;
        while i < self.indexes.len()
            invariant
                i <= self.indexes@.len(),
                ns == index_names(self.indexes@),
                owned@ == name@,
                forall|j: int| 0 <= j < i ==> #[trigger] ns[j] != name@,
                0 <= first_equal(ns, name@) <= ns.len(),
                forall|j: int| 0 <= j < first_equal(ns, name@) ==> #[trigger] ns[j] != name@,
                first_equal(ns, name@) < ns.len() ==> ns[first_equal(ns, name@)] == name@,
            ensures
                i <= self.indexes@.len(),
                forall|j: int| 0 <= j < i ==> #[trigger] ns[j] != name@,
                i < self.indexes@.len() ==> ns[i as int] == name@,
            decreases self.indexes@.len() - i,
        {
            assert(ns[i as int] == self.indexes@[i as int].0@);
            if self.indexes[i].0 == owned {
                break;
            }
            i = i + 1;
        }
        proof {
            assert forall|j: int| 0 <= j < i implies #[trigger] self.indexes@[j].0@ != name@ by {
                assert(ns[j] == self.indexes@[j].0@);
            }
            if i < self.indexes@.len() {
                assert(ns[i as int] == self.indexes@[i as int].0@);
            }
            assert(i as int == first_equal(ns, name@));
        }
        i
    }

    /// Adds the index `tree` under `name`, after the others; a name already
    /// in use gives `IndexAlreadyExists` with that name, and nothing changes.
    pub fn create_index(&mut self, name: &str, tree: PagingBtree) -> (r: Result<(), StorageError>)
        ensures
            named(old(self).indexes@, name@) < old(self).indexes@.len() ==> {
                &&& r matches Err(StorageError::IndexAlreadyExists(n)) && n@ == name@
                &&& final(self).indexes@ == old(self).indexes@
            },
            named(old(self).indexes@, name@) == old(self).indexes@.len() ==> {
                &&& r is Ok
                &&& final(self).indexes@.len() == old(self).indexes@.len() + 1
                &&& final(self).indexes@.drop_last() == old(self).indexes@
                &&& final(self).indexes@.last().0@ == name@
                &&& final(self).indexes@.last().1 == tree
            },
    {
        let i = self.find(name);
        if i < self.indexes.len() {
            return Err(StorageError::IndexAlreadyExists(name.to_owned()));
        }
        self.indexes.push((name.to_owned(), tree));
        assert(self.indexes@.drop_last() =~= old(self).indexes@);
        Ok(())
    }

    /// Drops the first index named `name`, the others keeping their order;
    /// a name not in use gives `IndexNotFound` with that name, and nothing
    /// changes.
    pub fn drop_index(&mut self, name: &str) -> (r: Result<(), StorageError>)
        ensures
            named(old(self).indexes@, name@) == old(self).indexes@.len() ==> {
                &&& r matches Err(StorageError::IndexNotFound(n)) && n@ == name@
                &&& final(self).indexes@ == old(self).indexes@
            },
            named(old(self).indexes@, name@) < old(self).indexes@.len() ==> {
                &&& r is Ok
                &&& final(self).indexes@ == old(self).indexes@.remove(named(old(self).indexes@, name@))
            },
    {
        let i = self.find(name);
        if i == self.indexes.len() {
            return Err(StorageError::IndexNotFound(name.to_owned()));
        }
        let _ = self.indexes.remove(i);
        Ok(())
    }

    /// Records under `key`, in the index named `index_name`, the place `loc`
    /// of a row (see `PagingBtree::insert`). A name not in use gives
    /// `IndexNotFound` with that name, and nothing changes; the other indexes
    /// never change.
    pub fn insert_location(&mut self, index_name: &str, key: &[u8], loc: RefValueLocation) -> (r: Result<
        (),
        StorageError,
    >)
        requires
            named(old(self).indexes@, index_name@) < old(self).indexes@.len() ==> insertable(
                old(self).indexes@[named(old(self).indexes@, index_name@)].1,
            ),
        ensures
            ({
                let v0 = old(self).indexes@;
                let v1 = final(self).indexes@;
                let i = named(v0, index_name@);
                if i == v0.len() {
                    &&& r matches Err(StorageError::IndexNotFound(n)) && n@ == index_name@
                    &&& v1 == v0
                } else {
                    &&& r is Ok
                    &&& v1.len() == v0.len()
                    &&& forall|j: int| 0 <= j < v0.len() && j != i ==> #[trigger] v1[j] == v0[j]
                    &&& v1[i].0 == v0[i].0
                    &&& inserted_into(v0[i].1, v1[i].1, key@, Location::Value(loc))
                }
            }),
    {
        let i = self.find(index_name);
        if i == self.indexes.len() {
            return Err(StorageError::IndexNotFound(index_name.to_owned()));
        }
        let ghost v0 = self.indexes@;
        let mut entry = self.indexes.remove(i);
        let _ = entry.1.insert(key, Location::Value(loc));
        self.indexes.insert(i, entry);
        proof {
            assert forall|j: int| 0 <= j < v0.len() && j != i implies #[trigger] self.indexes@[j] == v0[j] by {
                if j < i {
                    assert(self.indexes@[j] == v0[j]);
                } else {
                    assert(self.indexes@[j] == v0[j]);
                }
            }
        }
        Ok(())
    }

    /// The location that `key` finds in the index named `index_name`: a
    /// name not in use gives `IndexNotFound` with that name, and a key that
    /// finds nothing `IndexKeyNotFound`.
    pub fn locate(&self, index_name: &str, key: &[u8]) -> (r: Result<Location, StorageError>)
        requires
            named(self.indexes@, index_name@) < self.indexes@.len() ==> {
                let t = self.indexes@[named(self.indexes@, index_name@)].1;
                index_ok(t.storage@, t.root_page_location)
            },
        ensures
            ({
                let i = named(self.indexes@, index_name@);
                if i == self.indexes@.len() {
                    r matches Err(StorageError::IndexNotFound(n)) && n@ == index_name@
                } else {
                    let t = self.indexes@[i].1;
                    match index_lookup(t.storage@, t.root_page_location, key@) {
                        None => r matches Err(StorageError::IndexKeyNotFound()),
                        Some(l) => r == Ok::<Location, StorageError>(l),
                    }
                }
            }),
    {
        let i = self.find(index_name);
        if i == self.indexes.len() {
            return Err(StorageError::IndexNotFound(index_name.to_owned()));
        }
        let t = &self.indexes[i].1;
        match get_in_store(t.root_page_location, key, &t.storage) {
            None => Err(StorageError::IndexKeyNotFound()),
            Some(l) => Ok(l),
        }
    }
}

} // verus!
