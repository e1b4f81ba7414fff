//! The storage manifest: the tables and, for each, the names of its indexes.

use crate::common::paths::{join_path, with_extension};
use crate::storage::config::DirectoriesConfig;
use std::path::PathBuf;
use vstd::prelude::*;

verus! {

/// The manifest kept in the directory `file_path`.
#[derive(Debug)]
pub struct Manifest {
    pub version: u8,
    pub file_path: String,
    pub tables: Vec<TableManifest>,
}

/// A table and the names of its indexes, oldest first.
#[derive(Debug)]
pub struct TableManifest {
    pub table_name: String,
    pub indexes: Vec<String>,
}

/// A table entry seen as plain values: its name and its index names.
pub open spec fn table_view(t: TableManifest) -> (Seq<char>, Seq<Seq<char>>) {
    (t.table_name@, t.indexes@.map_values(|s: String| s@))
}

/// The tables of a manifest seen as plain values.
pub open spec fn tables_view(ts: Seq<TableManifest>) -> Seq<(Seq<char>, Seq<Seq<char>>)> {
    ts.map_values(|t: TableManifest| table_view(t))
}

/// Index of the first table named `name`, or the number of tables when none
/// is.
pub open spec fn first_named(ts: Seq<(Seq<char>, Seq<Seq<char>>)>, name: Seq<char>) -> int
    decreases ts.len(),
{
    if ts.len() == 0 {
        0
    } else if ts[0].0 == name {
        0
    } else {
        1 + first_named(ts.drop_first(), name)
    }
}

/// What `first_named` is, table by table.
pub proof fn lemma_first_named(ts: Seq<(Seq<char>, Seq<Seq<char>>)>, name: Seq<char>)
    ensures
        0 <= first_named(ts, name) <= ts.len(),
        forall|j: int| 0 <= j < first_named(ts, name) ==> #[trigger] ts[j].0 != name,
        first_named(ts, name) < ts.len() ==> ts[first_named(ts, name)].0 == name,
    decreases ts.len(),
{
    if ts.len() > 0 && ts[0].0 != name {
        lemma_first_named(ts.drop_first(), name);
        assert forall|j: int| 0 <= j < first_named(ts, name) implies #[trigger] ts[j].0 != name by {
            if j > 0 {
                assert(ts[j] == ts.drop_first()[j - 1]);
            }
        }
        if first_named(ts, name) < ts.len() {
            assert(ts[first_named(ts, name)] == ts.drop_first()[first_named(ts, name) - 1]);
        }
    }
}

/// Index of the first name equal to `name`, or the number of names when
/// none is.
pub open spec fn first_equal(names: Seq<Seq<char>>, name: Seq<char>) -> int
    decreases names.len(),
{
    if names.len() == 0 {
        0
    } else if names[0] == name {
        0
    } else {
        1 + first_equal(names.drop_first(), name)
    }
}

/// `names` without its first entry equal to `name`; `names` itself when no
/// entry is.
pub open spec fn without_name(names: Seq<Seq<char>>, name: Seq<char>) -> Seq<Seq<char>> {
    let k = first_equal(names, name);
    if k < names.len() {
        names.remove(k)
    } else {
        names
    }
}

/// What `first_equal` is, name by name.
pub proof fn lemma_first_equal(names: Seq<Seq<char>>, name: Seq<char>)
    ensures
        0 <= first_equal(names, name) <= names.len(),
        forall|j: int| 0 <= j < first_equal(names, name) ==> #[trigger] names[j] != name,
        first_equal(names, name) < names.len() ==> names[first_equal(names, name)] == name,
    decreases names.len(),
{
    if names.len() > 0 && names[0] != name {
        lemma_first_equal(names.drop_first(), name);
        assert forall|j: int| 0 <= j < first_equal(names, name) implies #[trigger] names[j] != name by {
            if j > 0 {
                assert(names[j] == names.drop_first()[j - 1]);
            }
        }
        if first_equal(names, name) < names.len() {
            assert(names[first_equal(names, name)] == names.drop_first()[first_equal(names, name) - 1]);
        }
    }
}

impl Manifest {
    /// Index of the first table named `table_name`, or the number of tables.
    fn find_table(&self, table_name: &str) -> (r: usize)
        ensures
            r == first_named(tables_view(self.tables@), table_name@),
    {
        let ghost ts = tables_view(self.tables@);
        proof {
            lemma_first_named(ts, table_name@);
        }
        let name = table_name.to_owned();
        let mut i: usize = 0;
        while i < self.tables.len()
            invariant
                i <= self.tables@.len(),
                ts == tables_view(self.tables@),
                name@ == table_name@,
                forall|j: int| 0 <= j < i ==> #[trigger] ts[j].0 != table_name@,
                0 <= first_named(ts, table_name@) <= ts.len(),
                forall|j: int| 0 <= j < first_named(ts, table_name@) ==> #[trigger] ts[j].0 != table_name@,
                first_named(ts, table_name@) < ts.len() ==> ts[first_named(ts, table_name@)].0 == table_name@,
            decreases self.tables@.len() - i,
        {
            assert(ts[i as int].0 == self.tables@[i as int].table_name@);
            if self.tables[i].table_name == name {
                return i;
            }
            i = i + 1;
        }
        i
    }

    /// Adds a table named `table_name` with no indexes, after the others.
    pub fn add_table(&mut self, table_name: &str)
        ensures
            final(self).version == old(self).version,
            final(self).file_path == old(self).file_path,
            tables_view(final(self).tables@) == tables_view(old(self).tables@).push(
                (table_name@, Seq::<Seq<char>>::empty()),
            ),
    {
        let t = TableManifest { table_name: table_name.to_owned(), indexes: Vec::new() };
        assert(table_view(t).1 =~= Seq::<Seq<char>>::empty());
        self.tables.push(t);
        assert(tables_view(self.tables@) =~= tables_view(old(self).tables@).push(
            (table_name@, Seq::<Seq<char>>::empty()),
        ));
    }

    /// Adds the index `index_name` to the first table named `table_name`,
    /// after its other indexes.
    pub fn add_index(&mut self, table_name: &str, index_name: &str)
        requires
            first_named(tables_view(old(self).tables@), table_name@) < old(self).tables@.len(),
        ensures
            final(self).version == old(self).version,
            final(self).file_path == old(self).file_path,
            ({
                let ts = tables_view(old(self).tables@);
                let i = first_named(ts, table_name@);
                tables_view(final(self).tables@) == ts.update(i, (ts[i].0, ts[i].1.push(index_name@)))
            }),
    {
        let i = self.find_table(table_name);
        let ghost ts = tables_view(self.tables@);
        let mut t = self.tables.remove(i);
        t.indexes.push(index_name.to_owned());
        let ghost tv = table_view(t);
        self.tables.insert(i, t);
        assert(tv.1 =~= ts[i as int].1.push(index_name@));
        assert(tables_view(self.tables@) =~= ts.update(i as int, (ts[i as int].0, ts[i as int].1.push(index_name@))));
    }

    /// Takes the index `index_name` out of the first table named
    /// `table_name`: its first entry of that name goes, the others keep their
    /// order. A table without such an index is left as it was.
    pub fn remove_index(&mut self, table_name: &str, index_name: &str)
        requires
            first_named(tables_view(old(self).tables@), table_name@) < old(self).tables@.len(),
        ensures
            final(self).version == old(self).version,
            final(self).file_path == old(self).file_path,
            ({
                let ts = tables_view(old(self).tables@);
                let i = first_named(ts, table_name@);
                tables_view(final(self).tables@) == ts.update(i, (ts[i].0, without_name(ts[i].1, index_name@)))
            }),
    {
        let i = self.find_table(table_name);
        let ghost ts = tables_view(self.tables@);
        let mut t = self.tables.remove(i);
        assert(table_view(t) == ts[i as int]);
        let ghost names = table_view(t).1;
        proof {
            lemma_first_equal(names, index_name@);
        }
        let name = index_name.to_owned();
        let mut k: usize = 0;
        while k < t.indexes.len()
            invariant
                k <= t.indexes@.len(),
                names == t.indexes@.map_values(|s: String| s@),
                name@ == index_name@,
                forall|j: int| 0 <= j < k ==> #[trigger] names[j] != index_name@,
                0 <= first_equal(names, index_name@) <= names.len(),
                forall|j: int| 0 <= j < first_equal(names, index_name@) ==> #[trigger] names[j] != index_name@,
                first_equal(names, index_name@) < names.len() ==> names[first_equal(names, index_name@)] == index_name@,
            ensures
                k <= t.indexes@.len(),
                forall|j: int| 0 <= j < k ==> #[trigger] names[j] != index_name@,
                k < t.indexes@.len() ==> names[k as int] == index_name@,
            decreases t.indexes@.len() - k,
        {
            assert(names[k as int] == t.indexes@[k as int]@);
            if t.indexes[k] == name {
                break;
            }
            k = k + 1;
        }
        assert(k as int == first_equal(names, index_name@));
        if k < t.indexes.len() {
            let _ = t.indexes.remove(k);
            assert(table_view(t).1 =~= names.remove(k as int));
        } else {
            assert(table_view(t).1 =~= names);
        }
        let ghost tv = table_view(t);
        self.tables.insert(i, t);
        assert(tv.1 == without_name(ts[i as int].1, index_name@));
        assert(tables_view(self.tables@) =~= ts.update(i as int, (ts[i as int].0, without_name(ts[i as int].1, index_name@))));
    }

    /// The path of the manifest file: `manifest` in the manifest directory,
    /// with the extension `json`.
    pub fn manifest_path(config: &DirectoriesConfig) -> (r: PathBuf)
        ensures
            r == crate::common::paths::path_with_extension(crate::common::paths::path_join(config.manifest@, "manifest"@), "json"@),
    {
        proof {
            reveal_strlit("json");
        }
        with_extension(join_path(config.manifest.as_str(), "manifest"), "json")
    }

    /// A manifest at version 1 kept in the directory `file_path`, with no
    /// tables.
    pub fn new(file_path: &str) -> (r: Self)
        ensures
            r.version == 1,
            r.file_path@ == file_path@,
            r.tables@.len() == 0,
    {
        Manifest { version: 1, file_path: file_path.to_owned(), tables: Vec::new() }
    }
}

} // verus!
