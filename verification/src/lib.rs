//! Trie changeset caching.
//!
//! A trie changeset holds the values that trie nodes had before a block, or before a range
//! of blocks. Applied to the state after the blocks it restores the state before them. The
//! cache keeps changesets in memory, so that blocks can be reverted quickly, until they are
//! evicted.
//!
//! - [`cache`]: the cache, its eviction, and computations that readers can wait for.
//! - [`registrations`]: the announcements of one block's computations.
//! - [`range`]: a request for the reverts of a range, step by step.
//! - [`block_request`]: a request for the trie updates of a block, phase by phase.
//! - [`block_updates`]: the trie updates of a block, collected from its changesets.
//! - [`updates`], [`nibbles`], [`key`]: what is cached, and under which key.
//! - [`trie_state`]: what trie updates do to the tries.
//! - [`cache_laws`], [`range_laws`], [`updates_laws`], [`block_laws`], [`restore_laws`]: what
//!   holds of all of this together.
//! - [`call_laws`]: what calls give, in terms of what goes in and what comes out.
//! - [`foreign`]: what is taken from other crates.
//!
//! Nothing in here blocks or reads a database. Locks, waiting and database access are up to
//! the caller, who performs what a step asks for and hands back what came of it.
pub mod block_laws;
pub mod block_request;
pub mod block_updates;
pub mod cache;
pub mod cache_laws;
pub mod call_laws;
pub mod foreign;
pub mod key;
mod key_map;
pub mod nibbles;
pub mod range;
pub mod range_laws;
pub mod registrations;
pub mod restore_laws;
pub mod trie_state;
pub mod updates;
pub mod updates_laws;
