//! What calls give, in terms of what goes in and what comes out.
//!
//! Each law takes the arguments of one or more calls and what these calls gave.
use crate::block_laws::{
    law_collection_holds_every_listed_node, next, opened_last, run, shows_trie,
};
use crate::block_request::{
    compute_block_trie_updates, BlockUpdatesStep, ChangesetsNeeded, FrontierNeeded, RevertsNeeded,
};
use crate::block_updates::{
    collect_block_trie_updates, AccountNodeNeeded, CollectStep, CollectStepView, StorageNodeNeeded,
    StorageTrieNeeded,
};
use crate::cache::{BlockLookup, ChangesetCacheInner, PendingChangesetGuard};
use crate::key::{block_key, ChangesetRangeKey};
use crate::nibbles::{Nibbles, PathOrder};
use crate::range::{
    get_or_compute, get_or_compute_range, reverts_after, AggregateNeeded, AwaitNeeded,
    BlockEntryNeeded, BlockHashNeeded, EndHashNeeded, RangeEntryNeeded, RangeError, RangeStep,
    StoreNeeded,
};
use crate::range_laws::{deletes_a_trie, law_wipes_are_deleted_tries, World};
use crate::registrations::PendingEntry;
use crate::trie_state::{node_at, TrieState};
use crate::updates::{
    merged, views, StorageTrieUpdatesSorted, TrieUpdatesSorted, TrieUpdatesView,
};
use crate::updates_laws::{is_lower, law_path_order_is_lexicographic};
use alloy_primitives::map::B256Map;
use alloy_primitives::B256;
use alloy_trie::BranchNodeCompact;
use std::sync::Arc;
use vstd::prelude::*;

verus! {

/// Looking up a key tells whether the key is cached, or else announced, or neither, whatever
/// else the cache holds.
pub proof fn law_look_up<W: Clone>(
    cache: ChangesetCacheInner<W>,
    key: ChangesetRangeKey,
    found: BlockLookup<W>,
)
    requires
        call_ensures(ChangesetCacheInner::<W>::look_up, (&cache, &key), found),
    ensures
        match found {
            BlockLookup::Cached(changesets) => {
                &&& cache@.entries.contains_key(key)
                &&& changesets == cache@.entries[key]
            },
            BlockLookup::InFlight(waiter) => {
                &&& !cache@.entries.contains_key(key)
                &&& cache@.pending.contains_key(key)
                &&& cloned::<W>(cache@.pending[key].waiter, waiter)
            },
            BlockLookup::Absent => {
                &&& !cache@.entries.contains_key(key)
                &&& !cache@.pending.contains_key(key)
            },
        },
{
}

/// Looking up a key and getting it agree: what is got is what is found, and where nothing is
/// got nothing is found in the cache.
pub proof fn law_look_up_agrees_with_get<W: Clone>(
    cache: ChangesetCacheInner<W>,
    key: ChangesetRangeKey,
    found: BlockLookup<W>,
    got: Option<Arc<TrieUpdatesSorted>>,
)
    requires
        call_ensures(ChangesetCacheInner::<W>::look_up, (&cache, &key), found),
        call_ensures(ChangesetCacheInner::<W>::get, (&cache, &key), got),
    ensures
        match got {
            Some(changesets) => found == BlockLookup::<W>::Cached(changesets)
                && cache@.entries.contains_key(key) && changesets == cache@.entries[key],
            None => !(found is Cached) && !cache@.entries.contains_key(key),
        },
{
}

/// A new cache has nothing under any key.
pub proof fn law_new_then_look_up<W: Clone>(
    cache: ChangesetCacheInner<W>,
    key: ChangesetRangeKey,
    found: BlockLookup<W>,
    len: usize,
)
    requires
        call_ensures(ChangesetCacheInner::<W>::new, (), cache),
        call_ensures(ChangesetCacheInner::<W>::look_up, (&cache, &key), found),
        call_ensures(ChangesetCacheInner::<W>::len, (&cache,), len),
    ensures
        found is Absent,
        len == 0,
{
}

/// After changesets are inserted under a key, that key gives them, and every other key gives
/// what it gave before.
pub proof fn law_insert_then_get<W>(
    cache: &mut ChangesetCacheInner<W>,
    after: ChangesetCacheInner<W>,
    key: ChangesetRangeKey,
    changesets: Arc<TrieUpdatesSorted>,
    other: ChangesetRangeKey,
    former: Option<Arc<TrieUpdatesSorted>>,
    got: Option<Arc<TrieUpdatesSorted>>,
)
    requires
        call_ensures(ChangesetCacheInner::<W>::get, (&*old(cache), &other), former),
        call_ensures(ChangesetCacheInner::<W>::insert, (cache, key, changesets), ()),
        *final(cache) == after,
        call_ensures(ChangesetCacheInner::<W>::get, (&after, &other), got),
    ensures
        got == (if other == key {
            Some(changesets)
        } else {
            former
        }),
        after@.pending == old(cache)@.pending,
        after@.superseded == old(cache)@.superseded,
        after@.registrations == old(cache)@.registrations,
{
}

/// After an eviction, a key gives nothing if it starts below the given block, and else what it
/// gave before. The number of entries goes down by what is returned.
pub proof fn law_evict_then_get<W>(
    cache: &mut ChangesetCacheInner<W>,
    after: ChangesetCacheInner<W>,
    up_to_block: u64,
    evicted: usize,
    key: ChangesetRangeKey,
    former: Option<Arc<TrieUpdatesSorted>>,
    got: Option<Arc<TrieUpdatesSorted>>,
    former_len: usize,
    len: usize,
)
    requires
        call_ensures(ChangesetCacheInner::<W>::get, (&*old(cache), &key), former),
        call_ensures(ChangesetCacheInner::<W>::len, (&*old(cache),), former_len),
        call_ensures(ChangesetCacheInner::<W>::evict, (cache, up_to_block), evicted),
        *final(cache) == after,
        call_ensures(ChangesetCacheInner::<W>::get, (&after, &key), got),
        call_ensures(ChangesetCacheInner::<W>::len, (&after,), len),
    ensures
        got == (if key.start_block < up_to_block {
            None
        } else {
            former
        }),
        len + evicted == former_len,
        after@.pending == old(cache)@.pending,
        after@.superseded == old(cache)@.superseded,
        after@.registrations == old(cache)@.registrations,
{
}

/// After a computation is announced for a block, a look-up of that block gives what is cached,
/// or else what the announcement was made with. What is cached does not change, nor what is
/// announced under other keys.
pub proof fn law_register_then_look_up<W: Clone>(
    cache: &mut ChangesetCacheInner<W>,
    after: ChangesetCacheInner<W>,
    block_number: u64,
    block_hash: B256,
    waiter: W,
    guard: PendingChangesetGuard,
    key: ChangesetRangeKey,
    former: Option<Arc<TrieUpdatesSorted>>,
    found: BlockLookup<W>,
)
    requires
        call_ensures(ChangesetCacheInner::<W>::get, (&*old(cache), &key), former),
        call_ensures(
            ChangesetCacheInner::<W>::register_pending,
            (cache, block_number, block_hash, waiter),
            guard,
        ),
        *final(cache) == after,
        call_ensures(ChangesetCacheInner::<W>::look_up, (&after, &key), found),
    ensures
        ({
            let announced = ChangesetRangeKey {
                start_block: block_number,
                end_block: block_number,
                end_block_hash: block_hash,
            };
            match former {
                Some(changesets) => found == BlockLookup::<W>::Cached(changesets),
                None => if key == announced {
                    found matches BlockLookup::InFlight(handle) && cloned::<W>(waiter, handle)
                } else if old(cache)@.pending.contains_key(key) {
                    found matches BlockLookup::InFlight(handle) && cloned::<W>(
                        old(cache)@.pending[key].waiter,
                        handle,
                    )
                } else {
                    found is Absent
                },
            }
        }),
        after@.entries == old(cache)@.entries,
        after@.registrations == old(cache)@.registrations + 1,
{
}

/// After a guard resolves its block, the block gives the changesets and is announced no more,
/// and every other key gives what it gave before. Whatever was announced last for the block is
/// among what is woken.
pub proof fn law_resolve_then_get<W>(
    cache: &mut ChangesetCacheInner<W>,
    after: ChangesetCacheInner<W>,
    guard: PendingChangesetGuard,
    changesets: Arc<TrieUpdatesSorted>,
    woken: Vec<W>,
    key: ChangesetRangeKey,
    former: Option<Arc<TrieUpdatesSorted>>,
    got: Option<Arc<TrieUpdatesSorted>>,
)
    requires
        call_ensures(ChangesetCacheInner::<W>::get, (&*old(cache), &key), former),
        call_ensures(PendingChangesetGuard::resolve::<W>, (guard, cache, changesets), woken),
        *final(cache) == after,
        call_ensures(ChangesetCacheInner::<W>::get, (&after, &key), got),
    ensures
        got == (if key == guard.key() {
            Some(changesets)
        } else {
            former
        }),
        after@.pending.contains_key(key) <==> key != guard.key()
            && old(cache)@.pending.contains_key(key),
        after@.pending.contains_key(key) ==> after@.pending[key] == old(cache)@.pending[key],
        old(cache)@.pending.contains_key(guard.key()) ==> woken@.contains(
            old(cache)@.pending[guard.key()].waiter,
        ),
        forall|registration: u64|
            #![trigger old(cache)@.superseded.contains_key((guard.key(), registration))]
            old(cache)@.superseded.contains_key((guard.key(), registration)) ==> {
                &&& !after@.superseded.contains_key((guard.key(), registration))
                &&& old(cache)@.is_open(guard.key(), registration) || woken@.contains(
                    old(cache)@.superseded[(guard.key(), registration)],
                )
            },
{
    let own = guard.key();
    if old(cache)@.pending.contains_key(own) {
        let latest = old(cache)@.pending[own].registration;
        assert(old(cache)@.waiter(own, latest) == Some(old(cache)@.pending[own].waiter));
    }
    assert forall|registration: u64|
        #![trigger old(cache)@.superseded.contains_key((own, registration))]
        old(cache)@.superseded.contains_key((own, registration)) && !old(cache)@.is_open(
            own,
            registration,
        ) implies woken@.contains(old(cache)@.superseded[(own, registration)]) by {
        assert(old(cache)@.waiter(own, registration) == Some(
            old(cache)@.superseded[(own, registration)],
        ));
    }
}

/// Another computation can be announced as long as its number fits.
pub proof fn law_can_register<W>(cache: ChangesetCacheInner<W>, can: bool)
    requires
        call_ensures(ChangesetCacheInner::<W>::can_register, (&cache,), can),
    ensures
        can <==> cache@.registrations < u64::MAX,
{
}

/// A guard that is given up right after its block was announced hands back what the
/// announcement was made with. Nothing is announced last for the block then, and nothing else
/// changes but for what the announcement took the place of.
pub proof fn law_register_then_abandon<W>(
    cache: &mut ChangesetCacheInner<W>,
    middle: &mut ChangesetCacheInner<W>,
    block_number: u64,
    block_hash: B256,
    waiter: W,
    guard: PendingChangesetGuard,
    released: Option<W>,
)
    requires
        call_ensures(
            ChangesetCacheInner::<W>::register_pending,
            (cache, block_number, block_hash, waiter),
            guard,
        ),
        *final(cache) == *old(middle),
        call_ensures(PendingChangesetGuard::abandon::<W>, (guard, middle), released),
    ensures
        released == Some(waiter),
        final(middle)@.entries == old(cache)@.entries,
        ({
            let announced = ChangesetRangeKey {
                start_block: block_number,
                end_block: block_number,
                end_block_hash: block_hash,
            };
            final(middle)@.pending == old(cache)@.pending.remove(announced)
        }),
{
    let key = block_key(block_number, block_hash);
    assert(old(cache)@.pending.insert(
        key,
        PendingEntry { registration: old(cache)@.registrations, waiter },
    ).remove(key) =~= old(cache)@.pending.remove(key));
}

/// Giving up a guard changes nothing that is cached. What it hands back is what its own
/// registration was made with, if that is not finished.
pub proof fn law_abandon_hands_back_its_own<W>(
    cache: &mut ChangesetCacheInner<W>,
    guard: PendingChangesetGuard,
    released: Option<W>,
    other: ChangesetRangeKey,
)
    requires
        call_ensures(PendingChangesetGuard::abandon::<W>, (guard, cache), released),
    ensures
        ({
            let key = guard.key();
            let number = guard.registration();
            released == (if old(cache)@.pending.contains_key(key) && old(
                cache,
            )@.pending[key].registration == number {
                Some(old(cache)@.pending[key].waiter)
            } else if old(cache)@.superseded.contains_key((key, number)) {
                Some(old(cache)@.superseded[(key, number)])
            } else {
                None
            })
        }),
        final(cache)@.entries == old(cache)@.entries,
        other != guard.key() ==> (final(cache)@.pending.contains_key(other) <==> old(
            cache,
        )@.pending.contains_key(other)),
        final(cache)@.pending.contains_key(other) ==> final(cache)@.pending[other] == old(
            cache,
        )@.pending[other],
{
}

/// Reverts that were computed for a whole range and are stored then are returned, and are what
/// the range gives. Every other key gives what it gave before.
pub proof fn law_computed_then_stored<W>(
    needed: AggregateNeeded,
    key: ChangesetRangeKey,
    reverts: Arc<TrieUpdatesSorted>,
    store: StoreNeeded,
    cache: &mut ChangesetCacheInner<W>,
    after: ChangesetCacheInner<W>,
    returned: Arc<TrieUpdatesSorted>,
    other: ChangesetRangeKey,
    former: Option<Arc<TrieUpdatesSorted>>,
    got: Option<Arc<TrieUpdatesSorted>>,
)
    requires
        call_ensures(AggregateNeeded::key, (&needed,), key),
        call_ensures(
            AggregateNeeded::computed::<W>,
            (needed, reverts),
            RangeStep::<W>::Store(store),
        ),
        call_ensures(ChangesetCacheInner::<W>::get, (&*old(cache), &other), former),
        call_ensures(StoreNeeded::store::<W>, (store, cache), returned),
        *final(cache) == after,
        call_ensures(ChangesetCacheInner::<W>::get, (&after, &other), got),
    ensures
        returned == reverts,
        got == (if other == key {
            Some(reverts)
        } else {
            former
        }),
        after@.pending == old(cache)@.pending,
        after@.superseded == old(cache)@.superseded,
        after@.registrations == old(cache)@.registrations,
{
}

/// Two paths are compared nibble by nibble.
pub proof fn law_order(left: Nibbles, right: Nibbles, order: PathOrder, back: PathOrder)
    requires
        call_ensures(Nibbles::order, (&left, &right), order),
        call_ensures(Nibbles::order, (&right, &left), back),
    ensures
        order is Same <==> left@ == right@,
        order is Before <==> is_lower(left@, right@),
        order is After <==> is_lower(right@, left@),
        order is Before <==> back is After,
        order is Same <==> back is Same,
{
    law_path_order_is_lexicographic(left@, right@);
    law_path_order_is_lexicographic(right@, left@);
}

/// A path has the nibbles that it was made from.
pub proof fn law_path_keeps_its_nibbles(nibbles: Vec<u8>, path: Nibbles, slice: &[u8])
    requires
        call_ensures(Nibbles::from_nibbles, (nibbles,), path),
        call_ensures(Nibbles::as_slice, (&path,), slice),
    ensures
        slice@ == nibbles@,
        path@ == nibbles@,
{
}

/// Updates of a storage trie give back what they were made from.
pub proof fn law_storage_updates_keep_their_parts(
    is_deleted: bool,
    listed: Vec<(Nibbles, Option<BranchNodeCompact>)>,
    updates: StorageTrieUpdatesSorted,
    deleted: bool,
    nodes: &Vec<(Nibbles, Option<BranchNodeCompact>)>,
)
    requires
        call_ensures(StorageTrieUpdatesSorted::new, (is_deleted, listed), updates),
        call_ensures(StorageTrieUpdatesSorted::is_deleted, (&updates,), deleted),
        call_ensures(StorageTrieUpdatesSorted::storage_nodes_ref, (&updates,), nodes),
    ensures
        deleted == is_deleted,
        nodes@ == listed@,
{
}

/// Updates give back what they were made from, and they wipe storage exactly if one of the
/// storage tries says that it is deleted.
pub proof fn law_updates_keep_their_parts(
    listed: Vec<(Nibbles, Option<BranchNodeCompact>)>,
    storage_tries: B256Map<StorageTrieUpdatesSorted>,
    updates: TrieUpdatesSorted,
    nodes: &Vec<(Nibbles, Option<BranchNodeCompact>)>,
    tries: &B256Map<StorageTrieUpdatesSorted>,
    wipes: bool,
)
    requires
        call_ensures(TrieUpdatesSorted::new, (listed, storage_tries), updates),
        call_ensures(TrieUpdatesSorted::account_nodes_ref, (&updates,), nodes),
        call_ensures(TrieUpdatesSorted::storage_tries_ref, (&updates,), tries),
        call_ensures(TrieUpdatesSorted::wipes_storage, (&updates,), wipes),
    ensures
        nodes@ == listed@,
        tries@ == storage_tries@,
        wipes <==> exists|address: B256|
            storage_tries@.contains_key(address) && (#[trigger] storage_tries@[address]).deleted(),
{
}

/// Keys have the parts that they were made from.
pub proof fn law_keys_keep_their_parts(
    start_block: u64,
    end_block: u64,
    hash: B256,
    key: ChangesetRangeKey,
    single: ChangesetRangeKey,
)
    requires
        call_ensures(ChangesetRangeKey::new, (start_block, end_block, hash), key),
        call_ensures(ChangesetRangeKey::single, (start_block, hash), single),
    ensures
        key == (ChangesetRangeKey { start_block, end_block, end_block_hash: hash }),
        single == (ChangesetRangeKey {
            start_block,
            end_block: start_block,
            end_block_hash: hash,
        }),
{
}

/// How a request for a range begins: refused if the range ends beyond the last block, ended
/// with updates that say nothing if it is empty, and else with the hash of its last block.
pub proof fn law_request_begins<W>(
    start_block: u64,
    end_block: u64,
    finish_number: u64,
    step: RangeStep<W>,
)
    requires
        call_ensures(
            get_or_compute_range::<W>,
            (start_block, end_block, finish_number),
            step,
        ),
    ensures
        match step {
            RangeStep::Failed(error) => end_block > finish_number && error
                == (RangeError::InsufficientChangesets {
                requested: end_block,
                available: finish_number,
            }),
            RangeStep::Done(updates) => {
                &&& start_block > end_block
                &&& end_block <= finish_number
                &&& forall|path: Seq<u8>| !(#[trigger] updates@.account_nodes.contains_key(path))
                &&& forall|address: B256|
                    !(#[trigger] updates@.storage_tries.contains_key(address))
            },
            RangeStep::EndHash(needed) => {
                &&& start_block <= end_block <= finish_number
                &&& needed.range() == (start_block, end_block)
            },
            _ => false,
        },
{
}

/// A request for one block is one for the range of that block, and a request for what leads
/// back to the state after a block is one for every later block.
pub proof fn law_requests_are_for_ranges<W>(
    block_number: u64,
    finish_number: u64,
    one: RangeStep<W>,
    one_range: RangeStep<W>,
    later: RangeStep<W>,
    later_range: RangeStep<W>,
)
    requires
        block_number < u64::MAX,
        call_ensures(get_or_compute::<W>, (block_number, finish_number), one),
        call_ensures(
            get_or_compute_range::<W>,
            (block_number, block_number, finish_number),
            one_range,
        ),
        call_ensures(reverts_after::<W>, (block_number, finish_number), later),
        call_ensures(
            get_or_compute_range::<W>,
            ((block_number + 1) as u64, finish_number, finish_number),
            later_range,
        ),
    ensures
        one@ == one_range@,
        later@ == later_range@,
{
}

/// A request for a range that is not refused asks for the hash of the last block. With the
/// hash it asks for the cache entry of the whole range, and without one it fails. If the range
/// is not cached it asks for the cache entry of the last block, and if it is, it ends with what
/// is cached.
pub proof fn law_request_asks_for_range_then_block<W>(
    start_block: u64,
    end_block: u64,
    finish_number: u64,
    first: EndHashNeeded,
    block: u64,
    hash: B256,
    unknown: RangeStep<W>,
    second: RangeEntryNeeded,
    range: ChangesetRangeKey,
    cached: Arc<TrieUpdatesSorted>,
    known: RangeStep<W>,
    third: BlockEntryNeeded,
    last: ChangesetRangeKey,
)
    requires
        call_ensures(
            get_or_compute_range::<W>,
            (start_block, end_block, finish_number),
            RangeStep::<W>::EndHash(first),
        ),
        call_ensures(EndHashNeeded::block_number, (&first,), block),
        call_ensures(EndHashNeeded::fetched::<W>, (first, None), unknown),
        call_ensures(
            EndHashNeeded::fetched::<W>,
            (first, Some(hash)),
            RangeStep::<W>::RangeEntry(second),
        ),
        call_ensures(RangeEntryNeeded::key, (&second,), range),
        call_ensures(RangeEntryNeeded::looked_up::<W>, (second, Some(cached)), known),
        call_ensures(
            RangeEntryNeeded::looked_up::<W>,
            (second, None),
            RangeStep::<W>::BlockEntry(third),
        ),
        call_ensures(BlockEntryNeeded::key, (&third,), last),
    ensures
        block == end_block,
        unknown == RangeStep::<W>::Failed(RangeError::BlockHashNotFound { block_number: end_block }),
        range == (ChangesetRangeKey { start_block, end_block, end_block_hash: hash }),
        known == RangeStep::<W>::Done(cached),
        last == (ChangesetRangeKey {
            start_block: end_block,
            end_block,
            end_block_hash: hash,
        }),
{
}

/// A request goes on with the hash of a block, and fails without one. A range that is cached
/// ends it, and one that is not leads to its last block.
pub proof fn law_request_goes_on_with_a_hash<W>(
    needed: EndHashNeeded,
    hash: Option<B256>,
    step: RangeStep<W>,
    entry: RangeEntryNeeded,
    cached: Option<Arc<TrieUpdatesSorted>>,
    entry_step: RangeStep<W>,
    walking: BlockHashNeeded,
    number: u64,
    walk_step: RangeStep<W>,
)
    requires
        call_ensures(EndHashNeeded::fetched::<W>, (needed, hash), step),
        call_ensures(RangeEntryNeeded::looked_up::<W>, (entry, cached), entry_step),
        call_ensures(BlockHashNeeded::block_number, (&walking,), number),
        call_ensures(BlockHashNeeded::fetched::<W>, (walking, hash), walk_step),
    ensures
        match hash {
            Some(_) => step is RangeEntry && walk_step is BlockEntry,
            None => step is Failed && walk_step == RangeStep::<W>::Failed(
                RangeError::BlockHashNotFound { block_number: number },
            ),
        },
        match cached {
            Some(reverts) => entry_step == RangeStep::<W>::Done(reverts),
            None => entry_step is BlockEntry,
        },
{
}

/// A block whose reverts are known, from the cache or by waiting, leads to the block before it,
/// down to the first of the range, with one more item found. From the first block it leads to
/// the merged reverts, or, where several blocks were found and one of them deletes a storage
/// trie, to a computation of the whole range. A block whose reverts are not known leads to that
/// computation at once.
pub proof fn law_known_block_leads_down<W>(
    entry: BlockEntryNeeded,
    waiting: AwaitNeeded,
    reverts: Arc<TrieUpdatesSorted>,
    cached: RangeStep<W>,
    resolved: RangeStep<W>,
    absent: RangeStep<W>,
    cancelled: RangeStep<W>,
)
    requires
        call_ensures(
            BlockEntryNeeded::looked_up::<W>,
            (entry, BlockLookup::Cached(reverts)),
            cached,
        ),
        call_ensures(BlockEntryNeeded::looked_up::<W>, (entry, BlockLookup::Absent), absent),
        waiting.walk() == entry.walk(),
        call_ensures(AwaitNeeded::awaited::<W>, (waiting, Some(reverts)), resolved),
        call_ensures(AwaitNeeded::awaited::<W>, (waiting, None), cancelled),
    ensures
        ({
            let walk = entry.walk();
            let newer = walk.newer.push(reverts);
            let range = ChangesetRangeKey {
                start_block: walk.start_block,
                end_block: walk.end_block,
                end_block_hash: walk.end_block_hash,
            };
            &&& cached@ == resolved@
            &&& absent matches RangeStep::Aggregate(needed) && needed.spec_key() == range
            &&& cancelled matches RangeStep::Aggregate(needed) && needed.spec_key() == range
            &&& match cached {
                RangeStep::BlockHash(needed) => {
                    &&& walk.block > walk.start_block
                    &&& needed.walk().block == walk.block - 1
                    &&& needed.walk().newer == newer
                    &&& needed.walk().start_block == walk.start_block
                    &&& needed.walk().end_block == walk.end_block
                    &&& needed.walk().end_block_hash == walk.end_block_hash
                },
                RangeStep::Aggregate(needed) => {
                    &&& walk.block <= walk.start_block
                    &&& walk.start_block != walk.end_block
                    &&& exists|i: int| 0 <= i < newer.len() && deletes_a_trie(*#[trigger] newer[i])
                    &&& needed.spec_key() == range
                },
                RangeStep::Store(needed) => {
                    &&& walk.block <= walk.start_block
                    &&& walk.start_block == walk.end_block || forall|i: int|
                        0 <= i < newer.len() ==> !deletes_a_trie(*#[trigger] newer[i])
                    &&& needed.spec_key() == range
                    &&& needed.spec_reverts()@ == merged(views(newer.reverse()))
                },
                _ => false,
            }
        }),
{
    law_wipes_are_deleted_tries(entry.walk().newer.push(reverts));
}

/// A request that waits does so on what the look-up gave, for the block that was looked up.
pub proof fn law_request_waits_for_the_block<W>(
    entry: BlockEntryNeeded,
    key: ChangesetRangeKey,
    waiter: W,
    step: RangeStep<W>,
    needed: AwaitNeeded,
    handle: W,
    number: u64,
)
    requires
        call_ensures(BlockEntryNeeded::key, (&entry,), key),
        call_ensures(BlockEntryNeeded::looked_up::<W>, (entry, BlockLookup::InFlight(waiter)), step),
        step == RangeStep::Await(needed, handle) ==> call_ensures(
            AwaitNeeded::block_number,
            (&needed,),
            number,
        ),
    ensures
        step is Await,
        step == RangeStep::Await(needed, handle) ==> handle == waiter && number == key.start_block,
{
}

/// A block that is found leads to the hash of the block before it, and that hash leads to the
/// cache entry of that block.
pub proof fn law_found_block_leads_to_the_one_before<W>(
    entry: BlockEntryNeeded,
    key: ChangesetRangeKey,
    reverts: Arc<TrieUpdatesSorted>,
    needed: BlockHashNeeded,
    number: u64,
    hash: B256,
    before: BlockEntryNeeded,
    before_key: ChangesetRangeKey,
)
    requires
        call_ensures(BlockEntryNeeded::key, (&entry,), key),
        call_ensures(
            BlockEntryNeeded::looked_up::<W>,
            (entry, BlockLookup::Cached(reverts)),
            RangeStep::<W>::BlockHash(needed),
        ),
        call_ensures(BlockHashNeeded::block_number, (&needed,), number),
        call_ensures(
            BlockHashNeeded::fetched::<W>,
            (needed, Some(hash)),
            RangeStep::<W>::BlockEntry(before),
        ),
        call_ensures(BlockEntryNeeded::key, (&before,), before_key),
    ensures
        number == key.start_block - 1,
        before_key == (ChangesetRangeKey {
            start_block: number,
            end_block: number,
            end_block_hash: hash,
        }),
{
}

/// What the hash of the last block, as it stands in some surroundings, leads to.
pub proof fn law_end_hash_leads_on<W>(
    world: World<W>,
    needed: EndHashNeeded,
    block: u64,
    step: RangeStep<W>,
)
    requires
        call_ensures(EndHashNeeded::block_number, (&needed,), block),
        call_ensures(EndHashNeeded::fetched::<W>, (needed, world.block_hash(block)), step),
    ensures
        step@ == world.next(RangeStep::<W>::EndHash(needed)@),
        block == needed.range().1,
{
}

/// What the cache entry of the range, as it stands in some surroundings, leads to.
pub proof fn law_range_entry_leads_on<W>(
    world: World<W>,
    needed: RangeEntryNeeded,
    key: ChangesetRangeKey,
    step: RangeStep<W>,
)
    requires
        call_ensures(RangeEntryNeeded::key, (&needed,), key),
        call_ensures(RangeEntryNeeded::looked_up::<W>, (needed, world.cached(key)), step),
    ensures
        step@ == world.next(RangeStep::<W>::RangeEntry(needed)@),
        world.cached(key) matches Some(reverts) ==> step == RangeStep::<W>::Done(reverts),
{
}

/// What the hash of a block, as it stands in some surroundings, leads to.
pub proof fn law_block_hash_leads_on<W>(
    world: World<W>,
    needed: BlockHashNeeded,
    block: u64,
    step: RangeStep<W>,
)
    requires
        call_ensures(BlockHashNeeded::block_number, (&needed,), block),
        call_ensures(BlockHashNeeded::fetched::<W>, (needed, world.block_hash(block)), step),
    ensures
        step@ == world.next(RangeStep::<W>::BlockHash(needed)@),
{
}

/// What the cache entry of a block, as it stands in some surroundings, leads to.
pub proof fn law_block_entry_leads_on<W>(
    world: World<W>,
    needed: BlockEntryNeeded,
    key: ChangesetRangeKey,
    step: RangeStep<W>,
)
    requires
        call_ensures(BlockEntryNeeded::key, (&needed,), key),
        call_ensures(BlockEntryNeeded::looked_up::<W>, (needed, world.look_up(key)), step),
    ensures
        step@ == world.next(RangeStep::<W>::BlockEntry(needed)@),
        world.look_up(key) matches BlockLookup::InFlight(waiter) ==> step matches RangeStep::Await(
            _,
            handle,
        ) && handle == waiter,
{
}

/// What a computation that was waited for, as it ends in some surroundings, leads to.
pub proof fn law_await_leads_on<W>(
    world: World<W>,
    needed: AwaitNeeded,
    waiter: W,
    step: RangeStep<W>,
)
    requires
        call_ensures(AwaitNeeded::awaited::<W>, (needed, (world.resolved)(waiter)), step),
    ensures
        step@ == world.next(RangeStep::<W>::Await(needed, waiter)@),
{
}

/// What the reverts of a whole range, as they are computed in some surroundings, lead to.
pub proof fn law_aggregate_leads_on<W>(
    world: World<W>,
    needed: AggregateNeeded,
    key: ChangesetRangeKey,
    reverts: Arc<TrieUpdatesSorted>,
    step: RangeStep<W>,
)
    requires
        call_ensures(AggregateNeeded::key, (&needed,), key),
        reverts@ == (world.aggregate)(key),
        call_ensures(AggregateNeeded::computed::<W>, (needed, reverts), step),
    ensures
        step@ == world.next(RangeStep::<W>::Aggregate(needed)@),
        step matches RangeStep::Store(store) && store.spec_key() == key && store.spec_reverts()
            == reverts,
{
}

/// What an account trie node, looked up where the step says, leads to.
pub proof fn law_account_node_leads_on(
    state: TrieState,
    open: Option<B256>,
    needed: AccountNodeNeeded,
    path: &Nibbles,
    step: CollectStep,
)
    requires
        call_ensures(AccountNodeNeeded::path, (&needed,), path),
        call_ensures(AccountNodeNeeded::found, (needed, node_at(state.accounts, path@)), step),
    ensures
        step@ == next(state, open, CollectStepView::AccountNode(needed@)),
{
}

/// What opening the storage trie that the step says leads to. It is the one that has been
/// opened last then.
pub proof fn law_opened_trie_leads_on(
    state: TrieState,
    open: Option<B256>,
    needed: StorageTrieNeeded,
    address: B256,
    step: CollectStep,
)
    requires
        call_ensures(StorageTrieNeeded::address, (&needed,), address),
        call_ensures(StorageTrieNeeded::opened, (needed,), step),
    ensures
        step@ == next(state, open, CollectStepView::StorageTrie(needed@)),
        opened_last(open, CollectStepView::StorageTrie(needed@)) == Some(address),
{
}

/// What a storage trie node, looked up where the step says in the trie that has been opened
/// last, leads to.
pub proof fn law_storage_node_leads_on(
    state: TrieState,
    open: B256,
    needed: StorageNodeNeeded,
    path: &Nibbles,
    step: CollectStep,
)
    requires
        call_ensures(StorageNodeNeeded::path, (&needed,), path),
        call_ensures(
            StorageNodeNeeded::found,
            (needed, node_at((state.storages)(open), path@)),
            step,
        ),
    ensures
        step@ == next(state, Some(open), CollectStepView::StorageNode(needed@)),
{
}

/// A node that is found opens no storage trie: only an answered request to open one does, and
/// it opens one.
pub proof fn law_tries_are_opened_one_by_one(
    needed: StorageNodeNeeded,
    node: Option<BranchNodeCompact>,
    found: CollectStep,
    opening: StorageTrieNeeded,
    opened: CollectStep,
)
    requires
        call_ensures(StorageNodeNeeded::found, (needed, node), found),
        call_ensures(StorageTrieNeeded::opened, (opening,), opened),
    ensures
        found@ matches CollectStepView::StorageNode(view) ==> view.storages.len()
            == needed@.storages.len(),
        found@ matches CollectStepView::StorageTrie(view) ==> view.storages.len()
            == needed@.storages.len(),
        opened@ matches CollectStepView::StorageNode(view) ==> view.storages.len()
            == opening@.storages.len() + 1,
        opened@ matches CollectStepView::StorageTrie(view) ==> view.storages.len()
            == opening@.storages.len() + 1,
        !(found@ is AccountNode),
        !(opened@ is AccountNode),
{
}

/// A request for the trie updates of a block asks for the changesets of that block first, up
/// to the last block that was fetched.
pub proof fn law_block_request_begins<W>(
    block_number: u64,
    finish_number: u64,
    frontier: FrontierNeeded,
    needed: ChangesetsNeeded,
    request: RangeStep<W>,
    expected: RangeStep<W>,
)
    requires
        call_ensures(compute_block_trie_updates, (block_number,), frontier),
        call_ensures(FrontierNeeded::fetched, (frontier, finish_number), needed),
        call_ensures(ChangesetsNeeded::request::<W>, (&needed,), request),
        call_ensures(
            get_or_compute_range::<W>,
            (block_number, block_number, finish_number),
            expected,
        ),
    ensures
        request@ == expected@,
{
}

/// With the changesets of the block, it asks for the reverts of every later block. An error
/// ends it.
pub proof fn law_block_request_goes_on<W>(
    needed: ChangesetsNeeded,
    answer: Result<Arc<TrieUpdatesSorted>, RangeError>,
    step: BlockUpdatesStep,
    reverts: RevertsNeeded,
    request: RangeStep<W>,
    expected: RangeStep<W>,
)
    requires
        needed.block() < u64::MAX,
        call_ensures(ChangesetsNeeded::answered, (needed, answer), step),
        step == BlockUpdatesStep::Reverts(reverts),
        call_ensures(RevertsNeeded::request::<W>, (&reverts,), request),
        call_ensures(
            get_or_compute_range::<W>,
            ((needed.block() + 1) as u64, needed.finish(), needed.finish()),
            expected,
        ),
    ensures
        answer matches Ok(changesets) && reverts.changesets() == changesets,
        request@ == expected@,
{
}

/// An error of either request for a range, and nothing else, ends the request for updates.
pub proof fn law_block_request_fails_with_its_ranges(
    needed: ChangesetsNeeded,
    first: Result<Arc<TrieUpdatesSorted>, RangeError>,
    first_step: BlockUpdatesStep,
    reverts: RevertsNeeded,
    second: Result<Arc<TrieUpdatesSorted>, RangeError>,
    second_step: BlockUpdatesStep,
)
    requires
        call_ensures(ChangesetsNeeded::answered, (needed, first), first_step),
        call_ensures(RevertsNeeded::answered, (reverts, second), second_step),
    ensures
        match first {
            Ok(_) => first_step is Reverts,
            Err(error) => first_step == BlockUpdatesStep::Failed(error),
        },
        match second {
            Ok(later) => second_step matches BlockUpdatesStep::Collect { reverts: handed, step: _ }
                && handed == later,
            Err(error) => second_step == BlockUpdatesStep::Failed(error),
        },
{
}

/// Whether updates list what the changesets list, with what stands there in the given tries:
/// every node of the account trie, every storage trie, and every node of each.
pub open spec fn shows_listed_nodes(
    changesets: TrieUpdatesSorted,
    state: TrieState,
    updates: TrieUpdatesView,
) -> bool {
    &&& shows_trie(updates.account_nodes, changesets.nodes(), state.accounts)
    &&& forall|address: B256| #[trigger]
        updates.storage_tries.contains_key(address) <==> changesets.tries().contains_key(address)
    &&& forall|address: B256| #[trigger]
        updates.storage_tries.contains_key(address) ==> {
            &&& updates.storage_tries[address].is_deleted == changesets.tries()[address].deleted()
            &&& shows_trie(
                updates.storage_tries[address].nodes,
                changesets.tries()[address].nodes(),
                (state.storages)(address),
            )
        }
}

/// The collection that follows an answer ends in what the block's changesets list, each node
/// as it is where it is looked up.
pub proof fn law_answered_request_shows_listed_nodes(
    reverts: RevertsNeeded,
    changesets: TrieUpdatesSorted,
    later: Arc<TrieUpdatesSorted>,
    step: BlockUpdatesStep,
    open: Option<B256>,
    state: TrieState,
)
    requires
        *reverts.changesets() == changesets,
        changesets.all_sorted(),
        call_ensures(RevertsNeeded::answered, (reverts, Ok(later)), step),
    ensures
        step matches BlockUpdatesStep::Collect { reverts: handed, step: collection } && {
            &&& handed == later
            &&& run(state, open, collection@) matches CollectStepView::Done(updates)
            &&& shows_listed_nodes(changesets, state, updates)
        },
{
    if let BlockUpdatesStep::Collect { reverts: _, step: collection } = step {
        law_collection_holds_every_listed_node(changesets, collection, open, state);
    }
}

/// So does the collection that is started on its own.
pub proof fn law_collection_shows_listed_nodes(
    shared: Arc<TrieUpdatesSorted>,
    changesets: TrieUpdatesSorted,
    collection: CollectStep,
    open: Option<B256>,
    state: TrieState,
)
    requires
        *shared == changesets,
        changesets.all_sorted(),
        call_ensures(collect_block_trie_updates, (shared,), collection),
    ensures
        run(state, open, collection@) matches CollectStepView::Done(updates)
            && shows_listed_nodes(changesets, state, updates),
{
    law_collection_holds_every_listed_node(changesets, collection, open, state);
}

} // verus!
