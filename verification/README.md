# CultCache

A cache of typed documents over stores that persist them, with its behaviour stated in contracts and
proved by [Verus](https://github.com/verus-lang/verus).

- `CultCache` is where documents are read and changed. An entry's identity is the pair of its type's
  name and its key, so documents of different types can share a key.
- Every change is handed to the stores on the type's route first; the cache changes only where they
  took it. A store that serves a type by name is preferred to one that serves all types.
- `SingleFileMessagePackBackingStore` keeps all rows in one MessagePack file;
  `RedbMessagePackBackingStore` and `OwnedRedbMessagePackBackingStore` keep each row on its own in a
  table of `redb`. All of them offer the same conditional changes, which happen as a whole or not at
  all.

## Layout

- `src/` is the verified library. It decides: which rows a change leads to, which changes are
  refused and why, what stands in a file, which files beside a store are leftovers. What it takes on
  trust from other crates is in `messagepack.rs` (`rmp_serde`), `table.rs` (`redb`), `staging.rs`
  (`uuid`) and `clock.rs` (`chrono`), and from `std` in `text.rs` and `single_file.rs`; each such
  item says what it claims. `row_laws.rs`, `cache_laws.rs`, `keyed_laws.rs` and `store_laws.rs`
  state what holds across operations.
- `app/` is ordinary Rust around it: files and locks, transactions, serde codecs, and the expansion
  of document declarations.
- `tests/` run the library, with files and databases in memory.
