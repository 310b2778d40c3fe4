//! How the operations of the cache work together.
use crate::cache::{lemma_everyone_is_there, BlockLookup, CacheView};
use crate::key::{block_key, range_key, ChangesetRangeKey};
use crate::updates::TrieUpdatesSorted;
use alloy_primitives::B256;
use std::sync::Arc;
use vstd::prelude::*;
use vstd::std_specs::cmp::PartialEqSpec;

verus! {

/// What is inserted under a key is found under it, until another value is inserted or the
/// key is evicted.
pub proof fn law_inserted_is_found<W: Clone>(
    cache: CacheView<W>,
    key: ChangesetRangeKey,
    changesets: Arc<TrieUpdatesSorted>,
    found: BlockLookup<W>,
)
    requires
        found.answers(cache.insert(key, changesets), key),
    ensures
        found == BlockLookup::<W>::Cached(changesets),
{
}

/// An insertion drops nothing: there is no automatic eviction.
pub proof fn law_insert_drops_nothing<W>(
    cache: CacheView<W>,
    key: ChangesetRangeKey,
    changesets: Arc<TrieUpdatesSorted>,
    other: ChangesetRangeKey,
)
    requires
        other != key,
    ensures
        cache.insert(key, changesets).entries.contains_key(other) <==> cache.entries.contains_key(
            other,
        ),
        cache.insert(key, changesets).entries[other] == cache.entries[other],
        cache.insert(key, changesets).pending == cache.pending,
        cache.insert(key, changesets).superseded == cache.superseded,
{
}

/// Ranges with the same numbers that end in different hashes do not share an entry.
pub proof fn law_chains_are_apart<W>(
    cache: CacheView<W>,
    start_block: u64,
    end_block: u64,
    hash: B256,
    changesets: Arc<TrieUpdatesSorted>,
    other_hash: B256,
    other_changesets: Arc<TrieUpdatesSorted>,
)
    requires
        hash != other_hash,
    ensures
        ({
            let key = range_key(start_block, end_block, hash);
            let other = range_key(start_block, end_block, other_hash);
            let both = cache.insert(key, changesets).insert(other, other_changesets);
            both.entries[key] == changesets && both.entries[other] == other_changesets
        }),
{
    let key = range_key(start_block, end_block, hash);
    let other = range_key(start_block, end_block, other_hash);
    assert(key.end_block_hash != other.end_block_hash);
}

/// An eviction drops the ranges that start below the given block, whatever chain they are
/// on, and nothing else. Announced computations stay.
pub proof fn law_evict_drops_what_starts_below<W>(
    cache: CacheView<W>,
    up_to_block: u64,
    key: ChangesetRangeKey,
)
    ensures
        cache.evict(up_to_block).entries.contains_key(key) <==> cache.entries.contains_key(key)
            && key.start_block >= up_to_block,
        cache.evict(up_to_block).entries.contains_key(key) ==> cache.evict(up_to_block).entries[key]
            == cache.entries[key],
        cache.evict(up_to_block).pending == cache.pending,
        cache.evict(up_to_block).superseded == cache.superseded,
{
}

/// Of two evictions only the higher one counts.
pub proof fn law_evict_twice<W>(cache: CacheView<W>, first: u64, second: u64)
    ensures
        cache.evict(first).evict(second) == cache.evict(if first <= second {
            second
        } else {
            first
        }),
{
    let highest = if first <= second {
        second
    } else {
        first
    };
    assert(cache.evict(first).evict(second) =~= cache.evict(highest));
}

/// It makes no difference whether an entry comes before an eviction or after it, if it is
/// retained. If it is not, the eviction undoes the insertion of a new entry.
pub proof fn law_insert_and_evict<W>(
    cache: CacheView<W>,
    key: ChangesetRangeKey,
    changesets: Arc<TrieUpdatesSorted>,
    up_to_block: u64,
)
    ensures
        cache.insert(key, changesets).evict(up_to_block) == (if key.start_block >= up_to_block {
            cache.evict(up_to_block).insert(key, changesets)
        } else {
            cache.evict(up_to_block)
        }),
{
    if key.start_block >= up_to_block {
        assert(cache.insert(key, changesets).evict(up_to_block) =~= cache.evict(up_to_block).insert(
            key,
            changesets,
        ));
    } else {
        assert(cache.insert(key, changesets).evict(up_to_block) =~= cache.evict(up_to_block));
    }
}

/// A reader of changesets that are not cached but announced waits on the latest
/// announcement.
pub proof fn law_announced_is_waited_for<W: Clone>(
    cache: CacheView<W>,
    block_number: u64,
    block_hash: B256,
    waiter: W,
    found: BlockLookup<W>,
)
    requires
        !cache.entries.contains_key(block_key(block_number, block_hash)),
        found.answers(
            cache.register(block_key(block_number, block_hash), waiter),
            block_key(block_number, block_hash),
        ),
    ensures
        found matches BlockLookup::InFlight(handle) && cloned::<W>(waiter, handle),
{
}

/// A computation that is resolved is cached, and no registration of its key is unfinished
/// any more.
pub proof fn law_resolved_is_cached<W: Clone>(
    cache: CacheView<W>,
    key: ChangesetRangeKey,
    changesets: Arc<TrieUpdatesSorted>,
    found: BlockLookup<W>,
    registration: u64,
)
    requires
        found.answers(cache.insert_resolved(key, changesets), key),
    ensures
        found == BlockLookup::<W>::Cached(changesets),
        cache.insert_resolved(key, changesets).waiter(key, registration) is None,
{
}

/// A new registration is unfinished, beside those of the same key that were before.
pub proof fn law_registered_is_unfinished<W>(
    cache: CacheView<W>,
    key: ChangesetRangeKey,
    waiter: W,
)
    requires
        cache.is_numbered(),
    ensures
        cache.register(key, waiter).waiter(key, cache.registrations) == Some(waiter),
        forall|registration: u64|
            registration != cache.registrations ==> #[trigger] cache.register(key, waiter).waiter(
                key,
                registration,
            ) == cache.waiter(key, registration),
{
}

/// A registration stays unfinished through everything but the end of its own guard and a
/// resolution of its key. So its readers are handed back by one of these.
pub proof fn law_unfinished_until_finished<W>(
    cache: CacheView<W>,
    key: ChangesetRangeKey,
    registration: u64,
    other: ChangesetRangeKey,
    changesets: Arc<TrieUpdatesSorted>,
    waiter: W,
    other_registration: u64,
    up_to_block: u64,
)
    requires
        cache.is_numbered(),
        cache.waiter(key, registration) is Some,
    ensures
        cache.insert(other, changesets).waiter(key, registration) == cache.waiter(
            key,
            registration,
        ),
        cache.evict(up_to_block).waiter(key, registration) == cache.waiter(key, registration),
        cache.register(other, waiter).waiter(key, registration) == cache.waiter(key, registration),
        other != key ==> cache.insert_resolved(other, changesets).waiter(key, registration)
            == cache.waiter(key, registration),
        other != key || other_registration != registration ==> cache.abandon(
            other,
            other_registration,
        ).waiter(key, registration) == cache.waiter(key, registration),
{
}

/// Resolving a computation wakes all readers: those of every unfinished registration of the
/// key, be it the one that is resolved, an earlier or a later one.
pub proof fn law_resolve_wakes_every_reader<W>(
    cache: CacheView<W>,
    key: ChangesetRangeKey,
    registration: u64,
    woken: Seq<W>,
)
    requires
        cache.is_everyone(key, woken),
        cache.waiter(key, registration) is Some,
    ensures
        woken.contains(cache.waiter(key, registration)->0),
{
    lemma_everyone_is_there(cache, key, woken);
}

/// Whom a resolution wakes waits for an unfinished registration of the key.
pub proof fn law_resolve_wakes_readers_of_the_key_only<W>(
    cache: CacheView<W>,
    key: ChangesetRangeKey,
    woken: Seq<W>,
    waiter: W,
)
    requires
        cache.is_everyone(key, woken),
        woken.contains(waiter),
    ensures
        exists|registration: u64| #[trigger] cache.waiter(key, registration) == Some(waiter),
{
    let registrations = choose|registrations: Seq<u64>| #[trigger]
        cache.are_waiters(key, registrations, woken);
    let i = choose|i: int| 0 <= i < woken.len() && woken[i] == waiter;
    assert(cache.waiter(key, registrations[i]) == Some(woken[i]));
}

/// Strictly increasing numbers are determined by the set of them.
proof fn lemma_increasing_determined(left: Seq<u64>, right: Seq<u64>)
    requires
        forall|i: int, j: int|
            0 <= i < j < left.len() ==> #[trigger] left[i] < #[trigger] left[j],
        forall|i: int, j: int|
            0 <= i < j < right.len() ==> #[trigger] right[i] < #[trigger] right[j],
        forall|n: u64| left.contains(n) <==> right.contains(n),
    ensures
        left == right,
    decreases left.len(),
{
    if left.len() == 0 {
        if right.len() > 0 {
            assert(right.contains(right[0]));
        }
        assert(left =~= right);
    } else {
        let a = left.len() - 1;
        let b = right.len() - 1;
        assert(left.contains(left[a]));
        let j = choose|j: int| 0 <= j < right.len() && right[j] == left[a];
        assert(right.contains(right[b]));
        let i = choose|i: int| 0 <= i < left.len() && left[i] == right[b];
        if j < b {
            assert(right[j] < right[b]);
        }
        if i < a {
            assert(left[i] < left[a]);
        }
        assert(left[a] == right[b]);
        let shorter = left.drop_last();
        let other = right.drop_last();
        assert forall|n: u64| shorter.contains(n) <==> other.contains(n) by {
            if shorter.contains(n) {
                let k = choose|k: int| 0 <= k < shorter.len() && shorter[k] == n;
                assert(left[k] < left[a]);
                assert(left.contains(n));
                let l = choose|l: int| 0 <= l < right.len() && right[l] == n;
                assert(other[l] == n);
            }
            if other.contains(n) {
                let k = choose|k: int| 0 <= k < other.len() && other[k] == n;
                assert(right[k] < right[b]);
                assert(right.contains(n));
                let l = choose|l: int| 0 <= l < left.len() && left[l] == n;
                assert(shorter[l] == n);
            }
        }
        lemma_increasing_determined(shorter, other);
        assert(left =~= shorter.push(left[a]));
        assert(right =~= other.push(right[b]));
    }
}

/// What a resolution hands back is determined: once for each unfinished registration of the
/// key, the oldest first.
pub proof fn law_everyone_is_determined<W>(
    cache: CacheView<W>,
    key: ChangesetRangeKey,
    woken: Seq<W>,
    other: Seq<W>,
)
    requires
        cache.is_everyone(key, woken),
        cache.is_everyone(key, other),
    ensures
        woken == other,
{
    let left = choose|registrations: Seq<u64>| #[trigger]
        cache.are_waiters(key, registrations, woken);
    let right = choose|registrations: Seq<u64>| #[trigger]
        cache.are_waiters(key, registrations, other);
    assert forall|n: u64| left.contains(n) <==> right.contains(n) by {
        assert(left.to_set().contains(n) == right.to_set().contains(n));
    }
    lemma_increasing_determined(left, right);
    assert forall|i: int| 0 <= i < woken.len() implies woken[i] == other[i] by {
        assert(cache.waiter(key, left[i]) == Some(woken[i]));
        assert(cache.waiter(key, right[i]) == Some(other[i]));
    }
    assert(woken =~= other);
}

/// A withdrawal finishes its registration: its readers are handed back no second time.
pub proof fn law_withdrawn_is_finished<W>(
    cache: CacheView<W>,
    key: ChangesetRangeKey,
    registration: u64,
)
    requires
        cache.is_numbered(),
    ensures
        cache.abandon(key, registration).waiter(key, registration) is None,
{
}

/// A computation that is withdrawn is no longer announced: readers to come do not wait, and
/// what else is unfinished is as before the registration.
pub proof fn law_withdrawn_is_forgotten<W: Clone>(
    cache: CacheView<W>,
    key: ChangesetRangeKey,
    waiter: W,
    found: BlockLookup<W>,
    registration: u64,
)
    requires
        cache.is_numbered(),
        !cache.entries.contains_key(key),
        found.answers(cache.register(key, waiter).abandon(key, cache.registrations), key),
    ensures
        found is Absent,
        cache.register(key, waiter).abandon(key, cache.registrations).entries == cache.entries,
        cache.register(key, waiter).abandon(key, cache.registrations).waiter(key, registration)
            == cache.waiter(key, registration),
{
}

/// After a computation is resolved, no guard of its key can withdraw anything.
pub proof fn law_resolved_stays<W>(
    cache: CacheView<W>,
    key: ChangesetRangeKey,
    changesets: Arc<TrieUpdatesSorted>,
    registration: u64,
)
    ensures
        cache.insert_resolved(key, changesets).abandon(key, registration) == cache.insert_resolved(
            key,
            changesets,
        ),
{
    let resolved = cache.insert_resolved(key, changesets);
    assert(resolved.abandon(key, registration) =~= resolved);
}

/// A guard whose key has been registered again since does not withdraw the later
/// registration, and readers still wait on that one.
pub proof fn law_later_registration_stays<W>(
    cache: CacheView<W>,
    key: ChangesetRangeKey,
    earlier: u64,
    waiter: W,
)
    requires
        earlier < cache.registrations,
    ensures
        cache.register(key, waiter).abandon(key, earlier).pending == cache.register(
            key,
            waiter,
        ).pending,
        cache.register(key, waiter).abandon(key, earlier).entries == cache.entries,
{
}

/// The number of registrations grows with each one and never shrinks, and registrations stay
/// numbered. So no two guards share a number.
pub proof fn law_registrations_are_counted<W>(
    cache: CacheView<W>,
    key: ChangesetRangeKey,
    changesets: Arc<TrieUpdatesSorted>,
    waiter: W,
    up_to_block: u64,
    registration: u64,
)
    requires
        cache.is_numbered(),
        cache.registrations < u64::MAX,
    ensures
        cache.register(key, waiter).registrations == cache.registrations + 1,
        cache.register(key, waiter).is_numbered(),
        cache.insert(key, changesets).registrations == cache.registrations,
        cache.insert(key, changesets).is_numbered(),
        cache.evict(up_to_block).registrations == cache.registrations,
        cache.evict(up_to_block).is_numbered(),
        cache.insert_resolved(key, changesets).registrations == cache.registrations,
        cache.insert_resolved(key, changesets).is_numbered(),
        cache.abandon(key, registration).registrations == cache.registrations,
        cache.abandon(key, registration).is_numbered(),
{
}

/// Registrations, resolutions and withdrawals of one key leave every other key alone.
pub proof fn law_keys_are_apart<W>(
    cache: CacheView<W>,
    key: ChangesetRangeKey,
    changesets: Arc<TrieUpdatesSorted>,
    waiter: W,
    registration: u64,
    other: ChangesetRangeKey,
    other_registration: u64,
)
    requires
        other != key,
    ensures
        cache.register(key, waiter).waiter(other, other_registration) == cache.waiter(
            other,
            other_registration,
        ),
        cache.register(key, waiter).entries == cache.entries,
        cache.insert_resolved(key, changesets).waiter(other, other_registration) == cache.waiter(
            other,
            other_registration,
        ),
        cache.insert_resolved(key, changesets).entries.contains_key(other)
            <==> cache.entries.contains_key(other),
        cache.insert_resolved(key, changesets).entries[other] == cache.entries[other],
        cache.abandon(key, registration).waiter(other, other_registration) == cache.waiter(
            other,
            other_registration,
        ),
        cache.abandon(key, registration).entries == cache.entries,
{
}

/// A key is made of the first block, the last block and the hash of the last block. Keys are
/// equal exactly if these are.
pub proof fn law_keys_are_made_of_their_parts(
    start_block: u64,
    end_block: u64,
    hash: B256,
    key: ChangesetRangeKey,
    other: ChangesetRangeKey,
)
    ensures
        range_key(start_block, end_block, hash).start_block == start_block,
        range_key(start_block, end_block, hash).end_block == end_block,
        range_key(start_block, end_block, hash).end_block_hash == hash,
        block_key(start_block, hash).start_block == start_block,
        block_key(start_block, hash).end_block == start_block,
        block_key(start_block, hash).end_block_hash == hash,
        key.eq_spec(&other) <==> key.start_block == other.start_block && key.end_block
            == other.end_block && key.end_block_hash == other.end_block_hash,
{
}

/// A new cache holds nothing, and nothing has been announced to it.
pub proof fn law_new_cache_is_empty<W>(key: ChangesetRangeKey, registration: u64)
    ensures
        !CacheView::<W>::empty().entries.contains_key(key),
        !CacheView::<W>::empty().pending.contains_key(key),
        !CacheView::<W>::empty().superseded.contains_key((key, registration)),
        CacheView::<W>::empty().registrations == 0,
{
}

/// What is known about any key after changesets are inserted under one: under that one the
/// changesets, and under any other what was there.
pub proof fn law_insert_adds_one_entry<W>(
    cache: CacheView<W>,
    key: ChangesetRangeKey,
    changesets: Arc<TrieUpdatesSorted>,
    other: ChangesetRangeKey,
)
    ensures
        cache.insert(key, changesets).entries.contains_key(other) <==> other == key
            || cache.entries.contains_key(other),
        cache.insert(key, changesets).entries.contains_key(other) ==> cache.insert(
            key,
            changesets,
        ).entries[other] == (if other == key {
            changesets
        } else {
            cache.entries[other]
        }),
{
}

/// What is announced after a registration: under its key the new computation, with the next
/// number, and under any other what was announced. The computation that was announced before
/// is the only one that is superseded by it.
pub proof fn law_register_announces_one<W>(
    cache: CacheView<W>,
    key: ChangesetRangeKey,
    waiter: W,
    other: ChangesetRangeKey,
    registration: u64,
)
    ensures
        ({
            let after = cache.register(key, waiter);
            let replaced = other == key && cache.pending.contains_key(key) && registration
                == cache.pending[key].registration;
            &&& after.entries == cache.entries
            &&& after.pending.contains_key(other) <==> other == key || cache.pending.contains_key(
                other,
            )
            &&& after.pending[key].registration == cache.registrations
            &&& after.pending[key].waiter == waiter
            &&& other != key && cache.pending.contains_key(other) ==> after.pending[other]
                == cache.pending[other]
            &&& after.superseded.contains_key((other, registration)) <==> replaced
                || cache.superseded.contains_key((other, registration))
            &&& replaced ==> after.superseded[(other, registration)] == cache.pending[key].waiter
            &&& !replaced && cache.superseded.contains_key((other, registration))
                ==> after.superseded[(other, registration)] == cache.superseded[(
                other,
                registration,
            )]
        }),
{
}

/// What is left after a resolution: under its key the changesets and no announcement, and
/// under any other what was there.
pub proof fn law_resolve_settles_one_key<W>(
    cache: CacheView<W>,
    key: ChangesetRangeKey,
    changesets: Arc<TrieUpdatesSorted>,
    other: ChangesetRangeKey,
    registration: u64,
)
    ensures
        ({
            let after = cache.insert_resolved(key, changesets);
            &&& after.entries.contains_key(other) <==> other == key || cache.entries.contains_key(
                other,
            )
            &&& after.entries[key] == changesets
            &&& other != key && cache.entries.contains_key(other) ==> after.entries[other]
                == cache.entries[other]
            &&& after.pending.contains_key(other) <==> other != key && cache.pending.contains_key(
                other,
            )
            &&& after.pending.contains_key(other) ==> after.pending[other] == cache.pending[other]
            &&& after.superseded.contains_key((other, registration)) <==> other != key
                && cache.superseded.contains_key((other, registration))
            &&& after.superseded.contains_key((other, registration)) ==> after.superseded[(
                other,
                registration,
            )] == cache.superseded[(other, registration)]
        }),
{
}

/// What is left after a withdrawal: everything but the given registration.
pub proof fn law_abandon_withdraws_one<W>(
    cache: CacheView<W>,
    key: ChangesetRangeKey,
    registration: u64,
    other: ChangesetRangeKey,
    other_registration: u64,
)
    requires
        cache.is_numbered(),
    ensures
        ({
            let after = cache.abandon(key, registration);
            let latest = cache.pending.contains_key(key) && cache.pending[key].registration
                == registration;
            &&& after.entries == cache.entries
            &&& after.pending.contains_key(other) <==> cache.pending.contains_key(other) && !(other
                == key && latest)
            &&& after.pending.contains_key(other) ==> after.pending[other] == cache.pending[other]
            &&& after.superseded.contains_key((other, other_registration))
                <==> cache.superseded.contains_key((other, other_registration)) && !(other == key
                && other_registration == registration)
            &&& after.superseded.contains_key((other, other_registration)) ==> after.superseded[(
                other,
                other_registration,
            )] == cache.superseded[(other, other_registration)]
        }),
{
}

/// The readers of a registration wait on what was announced with it, as the latest of its
/// key or as one that has been superseded. Of any other registration nobody waits.
pub proof fn law_waiter_is_what_was_announced<W>(
    cache: CacheView<W>,
    key: ChangesetRangeKey,
    registration: u64,
    waiter: W,
)
    requires
        cache.is_numbered(),
    ensures
        cache.waiter(key, registration) == Some(waiter) <==> (cache.pending.contains_key(key)
            && cache.pending[key].registration == registration && cache.pending[key].waiter
            == waiter) || (cache.superseded.contains_key((key, registration))
            && cache.superseded[(key, registration)] == waiter),
{
}

/// Everyone is handed back: there are increasing numbers, those of the latest announcement
/// of the key and of the superseded ones and no others, and what is handed back is what was
/// announced with each.
pub proof fn law_everyone_is_each_registration_once<W>(
    cache: CacheView<W>,
    key: ChangesetRangeKey,
    woken: Seq<W>,
)
    requires
        cache.is_numbered(),
        cache.is_everyone(key, woken),
    ensures
        exists|numbers: Seq<u64>|
            {
                &&& #[trigger] numbers.len() == woken.len()
                &&& forall|i: int, j: int|
                    0 <= i < j < numbers.len() ==> #[trigger] numbers[i] < #[trigger] numbers[j]
                &&& forall|number: u64| #[trigger]
                    numbers.contains(number) <==> (cache.pending.contains_key(key)
                        && cache.pending[key].registration == number)
                        || cache.superseded.contains_key((key, number))
                &&& forall|i: int|
                    0 <= i < numbers.len() ==> #[trigger] woken[i] == (
                    if cache.superseded.contains_key((key, numbers[i])) {
                        cache.superseded[(key, numbers[i])]
                    } else {
                        cache.pending[key].waiter
                    })
            },
{
    let numbers = choose|numbers: Seq<u64>| #[trigger] cache.are_waiters(key, numbers, woken);
    assert forall|number: u64| #[trigger]
        numbers.contains(number) <==> (cache.pending.contains_key(key)
            && cache.pending[key].registration == number) || cache.superseded.contains_key(
            (key, number),
        ) by {
        assert(numbers.to_set().contains(number) <==> cache.unfinished(key).contains(number));
    }
    assert forall|i: int| 0 <= i < numbers.len() implies #[trigger] woken[i] == (
    if cache.superseded.contains_key((key, numbers[i])) {
        cache.superseded[(key, numbers[i])]
    } else {
        cache.pending[key].waiter
    }) by {
        assert(cache.waiter(key, numbers[i]) == Some(woken[i]));
        assert(numbers.contains(numbers[i]));
    }
    assert(numbers.len() == woken.len());
}

/// What is known about a key is decided by that key alone, whatever else has been cached or
/// announced: the changesets exactly if they are cached; the announced computation exactly if
/// they are not cached and one is announced; nothing exactly if neither.
pub proof fn law_look_up_tells_what_the_cache_holds<W: Clone>(
    cache: CacheView<W>,
    key: ChangesetRangeKey,
    found: BlockLookup<W>,
)
    requires
        found.answers(cache, key),
    ensures
        found is Cached <==> cache.entries.contains_key(key),
        found is InFlight <==> !cache.entries.contains_key(key) && cache.pending.contains_key(key),
        found is Absent <==> !cache.entries.contains_key(key) && !cache.pending.contains_key(key),
        found matches BlockLookup::Cached(changesets) ==> changesets == cache.entries[key],
        found matches BlockLookup::InFlight(waiter) ==> cloned::<W>(
            cache.pending[key].waiter,
            waiter,
        ),
{
}

/// A reader of announced changesets waits, whatever happens meanwhile to other keys and
/// whatever is evicted.
pub proof fn law_reader_waits_whatever_else_happens<W: Clone>(
    cache: CacheView<W>,
    key: ChangesetRangeKey,
    other: ChangesetRangeKey,
    changesets: Arc<TrieUpdatesSorted>,
    waiter: W,
    registration: u64,
    up_to_block: u64,
    found: BlockLookup<W>,
)
    requires
        !cache.entries.contains_key(key),
        cache.pending.contains_key(key),
        other != key,
        found.answers(cache.register(other, waiter), key) || found.answers(
            cache.insert(other, changesets),
            key,
        ) || found.answers(cache.insert_resolved(other, changesets), key) || found.answers(
            cache.abandon(other, registration),
            key,
        ) || found.answers(cache.evict(up_to_block), key),
    ensures
        found matches BlockLookup::InFlight(handle) && cloned::<W>(
            cache.pending[key].waiter,
            handle,
        ),
{
}

} // verus!
