# changeset_cache

An in-memory cache for trie changesets, verified with Verus.

A trie changeset holds the values that trie nodes had before a block or a range of blocks. The
cache answers requests for the reverts of a range: from an entry for the range, by merging the
entries of its blocks, by waiting for computations that have been announced, or by having the
whole range computed at once. Entries stay until they are evicted.

- `src/` is the library. Every function carries a contract, and the modules whose name ends in
  `_laws` state what holds of several operations together: above all, that the answers restore
  the state before the range (`restore_laws.rs`).
- `app/` runs the library for several threads: a lock around the cache, cells that readers wait
  on, database access behind a trait, logs and metrics.
- `tests/` runs the library on concrete values.
