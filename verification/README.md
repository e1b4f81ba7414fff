# homelab_db

The storage layer of a small database engine, written in Verus: paged B-tree
indexes, table and write-ahead-log manifests, and the framing and signing of
write-ahead-log records. Every function in `src/` carries a contract that
Verus proves; `app/` holds the parts that talk to files, the network or
serde, and calls into the library.

## Layout

- `src/common` — key order on byte strings, keys and values, errors, path
  and randomness helpers.
- `src/storage/btree` — the paged B-tree index: pages, leaves, internal
  pages, page locations, the index itself (`btree.rs`, `tree.rs`), the shape
  a well-formed index file keeps (`shape.rs`) and the key order it keeps
  under adding (`order.rs`) and removing (`removal.rs`).
- `src/storage/btree.rs` — an earlier B-tree with the same page layout.
- `src/storage/paging_btree.rs` — a B-tree whose pages hold key/value nodes.
- `src/storage/btree/check.rs` — checking that a page store read back from a
  file holds a well-formed index before it is used.
- `src/storage/table.rs` — a table's named indexes: recording a row's place
  under a key and finding it again, with the errors for an unknown index or
  key.
- `src/storage/manifest.rs`, `src/wal`, `src/database_engine` — manifests,
  WAL record framing, and records signed with HMAC-SHA256 and checked on
  reading.
- `tests/` — tests that run the library with its outside crates linked.
- `app/` — configuration loading, manifest persistence, page and WAL file
  I/O, and a demo entry point.

## What is proved

Besides each function's contract:

- On an index that keeps the key order, adding a key it lacks keeps the
  order, makes the key find its location, and leaves every other lookup as
  it was. Adding grows the file by at most the index's depth plus two pages
  and its depth by at most one; removing grows neither, so calls chain.
- Removing a key from such an index keeps the order, makes the key find
  nothing and leaves every other lookup as it was, unless the removal takes
  in a right sibling whose children are internal pages (see `merge_ok`).
  A child that falls short borrows from or merges with a sibling in a fixed
  order (see `fixed_store`), whether or not its parent is stored.
- Adding to an index whose root is a leaf, or whose root routes the key to a
  leaf, leaves exactly the pages that `root_leaf_added` and
  `root_child_leaf_added` describe; an internal page that takes in a split
  child splits in turn once it holds `MAX_KEYS_PER_PAGE` separators.
- Adding to the node B-tree adds exactly the new node to the nodes the file
  holds, when the pages on the way down are distinct; when every page on the
  way is full the root moves to a new last page holding the old root's middle
  node, over the old root (which keeps its lower half) and the page just
  before the new root (which holds its upper half).
- Reading back framed WAL records gives the payloads that were framed; a log
  record passes its check exactly when its checksum is the HMAC-SHA256 of its
  data under the key, and a signed engine record passes its own check.
