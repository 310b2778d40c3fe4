//! The changeset cache proper.
use crate::key::{block_key, ChangesetRangeKey};
use crate::key_map::KeyMap;
use crate::registrations::{
    in_order, into_waiters, is_among, lemma_pushed, lemma_waiter_in, numbers, stands_at, take_out,
    waiter_in, waiters, PendingEntry,
};
use crate::updates::TrieUpdatesSorted;
use alloy_primitives::B256;
use std::collections::BTreeMap;
use std::sync::Arc;
use vstd::prelude::*;

verus! {

broadcast use {vstd::std_specs::btree::group_btree_axioms, vstd::laws_cmp::group_laws_cmp};

/// What the cache holds.
#[verifier::ext_equal]
#[verifier::reject_recursive_types(W)]
pub struct CacheView<W> {
    /// The cached changesets.
    pub entries: Map<ChangesetRangeKey, Arc<TrieUpdatesSorted>>,
    /// The announced computations, the latest of each key.
    pub pending: Map<ChangesetRangeKey, PendingEntry<W>>,
    /// Earlier announcements of a key that another one took the place of, and whose
    /// computation is not finished, by key and number: what their readers wait on.
    pub superseded: Map<(ChangesetRangeKey, u64), W>,
    /// How many computations have been announced so far.
    pub registrations: u64,
}

/// What the cache knows about one key.
#[verifier::reject_recursive_types(W)]
pub enum BlockLookup<W> {
    /// The changesets are cached.
    Cached(Arc<TrieUpdatesSorted>),
    /// The changesets are being computed.
    InFlight(W),
    /// Neither.
    Absent,
}

impl<W> CacheView<W> {
    /// A cache that holds nothing.
    pub open spec fn empty() -> Self {
        CacheView {
            entries: Map::empty(),
            pending: Map::empty(),
            superseded: Map::empty(),
            registrations: 0,
        }
    }

    /// The cache with one more entry, or another value for it.
    pub open spec fn insert(self, key: ChangesetRangeKey, changesets: Arc<TrieUpdatesSorted>) -> Self {
        CacheView { entries: self.entries.insert(key, changesets), ..self }
    }

    /// The cache without the ranges that start below the given block.
    pub open spec fn evict(self, up_to_block: u64) -> Self {
        CacheView { entries: starting_from(self.entries, up_to_block), ..self }
    }

    /// What the readers of a registration wait on, if it is not finished.
    pub open spec fn waiter(self, key: ChangesetRangeKey, registration: u64) -> Option<W> {
        if self.is_open(key, registration) {
            Some(self.pending[key].waiter)
        } else if self.superseded.contains_key((key, registration)) {
            Some(self.superseded[(key, registration)])
        } else {
            None
        }
    }

    /// The registrations of a key that are not finished.
    pub open spec fn unfinished(self, key: ChangesetRangeKey) -> Set<u64> {
        Set::new(|registration: u64| self.waiter(key, registration) is Some)
    }

    /// Whether `handles` are what the readers of each unfinished registration of a key wait
    /// on, the oldest first.
    pub open spec fn is_everyone(self, key: ChangesetRangeKey, handles: Seq<W>) -> bool {
        exists|registrations: Seq<u64>| #[trigger] self.are_waiters(key, registrations, handles)
    }

    /// Whether `registrations` are the unfinished ones of a key, the oldest first, and
    /// `handles` what their readers wait on.
    pub open spec fn are_waiters(
        self,
        key: ChangesetRangeKey,
        registrations: Seq<u64>,
        handles: Seq<W>,
    ) -> bool {
        &&& forall|i: int, j: int|
            0 <= i < j < registrations.len() ==> #[trigger] registrations[i]
                < #[trigger] registrations[j]
        &&& registrations.to_set() == self.unfinished(key)
        &&& handles.len() == registrations.len()
        &&& forall|i: int|
            0 <= i < handles.len() ==> self.waiter(key, registrations[i]) == Some(
                #[trigger] handles[i],
            )
    }

    /// Whether every number of an announcement has been given out, and the latest
    /// announcement of a key has the highest.
    pub open spec fn is_numbered(self) -> bool {
        &&& forall|key: ChangesetRangeKey| #[trigger]
            self.pending.contains_key(key) ==> self.pending[key].registration
                < self.registrations
        &&& forall|key: ChangesetRangeKey, registration: u64| #[trigger]
            self.superseded.contains_key((key, registration)) ==> {
                &&& registration < self.registrations
                &&& self.pending.contains_key(key) ==> registration
                    < self.pending[key].registration
            }
    }

    /// The cache with one more announced computation. Readers to come wait on it. An
    /// earlier one for the same block is superseded.
    pub open spec fn register(self, key: ChangesetRangeKey, waiter: W) -> Self {
        CacheView {
            pending: self.pending.insert(
                key,
                PendingEntry { registration: self.registrations, waiter },
            ),
            superseded: if self.pending.contains_key(key) {
                self.superseded.insert(
                    (key, self.pending[key].registration),
                    self.pending[key].waiter,
                )
            } else {
                self.superseded
            },
            registrations: (self.registrations + 1) as u64,
            ..self
        }
    }

    /// The cache with the result of a computation, which is no longer announced.
    pub open spec fn insert_resolved(
        self,
        key: ChangesetRangeKey,
        changesets: Arc<TrieUpdatesSorted>,
    ) -> Self {
        CacheView {
            pending: self.pending.remove(key),
            superseded: without_key(self.superseded, key),
            ..self.insert(key, changesets)
        }
    }

    /// Whether the given registration is the latest of its key and not finished.
    pub open spec fn is_open(self, key: ChangesetRangeKey, registration: u64) -> bool {
        self.pending.contains_key(key) && self.pending[key].registration == registration
    }

    /// The cache without the given registration. Others for the same key stay.
    pub open spec fn abandon(self, key: ChangesetRangeKey, registration: u64) -> Self {
        if self.is_open(key, registration) {
            CacheView { pending: self.pending.remove(key), ..self }
        } else {
            CacheView { superseded: self.superseded.remove((key, registration)), ..self }
        }
    }
}

/// The announcements of other keys.
pub open spec fn without_key<W>(
    announcements: Map<(ChangesetRangeKey, u64), W>,
    key: ChangesetRangeKey,
) -> Map<(ChangesetRangeKey, u64), W> {
    Map::new(
        |k: (ChangesetRangeKey, u64)| announcements.contains_key(k) && k.0 != key,
        |k: (ChangesetRangeKey, u64)| announcements[k],
    )
}

/// The announcements of other keys, and those of `key` that are listed.
spec fn with_list<W>(
    announcements: Map<(ChangesetRangeKey, u64), W>,
    key: ChangesetRangeKey,
    list: Seq<PendingEntry<W>>,
) -> Map<(ChangesetRangeKey, u64), W> {
    Map::new(
        |k: (ChangesetRangeKey, u64)|
            if k.0 == key {
                is_among(list, k.1)
            } else {
                announcements.contains_key(k)
            },
        |k: (ChangesetRangeKey, u64)|
            if k.0 == key {
                waiter_in(list, k.1)
            } else {
                announcements[k]
            },
    )
}

/// The entries whose range does not start below the given block.
pub open spec fn starting_from(
    entries: Map<ChangesetRangeKey, Arc<TrieUpdatesSorted>>,
    up_to_block: u64,
) -> Map<ChangesetRangeKey, Arc<TrieUpdatesSorted>> {
    Map::new(
        |key: ChangesetRangeKey| entries.contains_key(key) && key.start_block >= up_to_block,
        |key: ChangesetRangeKey| entries[key],
    )
}

/// The keys that are listed under a block start there, are cached, and occur once.
spec fn listing_ok(
    entries: Map<ChangesetRangeKey, Arc<TrieUpdatesSorted>>,
    start: u64,
    keys: Seq<ChangesetRangeKey>,
) -> bool {
    &&& keys.len() > 0
    &&& keys.no_duplicates()
    &&& forall|m: int|
        0 <= m < keys.len() ==> (#[trigger] keys[m]).start_block == start && entries.contains_key(
            keys[m],
        )
}

/// The index by first block lists exactly the cached keys.
spec fn indexed(
    entries: Map<ChangesetRangeKey, Arc<TrieUpdatesSorted>>,
    range_starts: Map<u64, Vec<ChangesetRangeKey>>,
) -> bool {
    &&& forall|key: ChangesetRangeKey| #[trigger]
        entries.contains_key(key) ==> range_starts.contains_key(key.start_block)
            && range_starts[key.start_block]@.contains(key)
    &&& forall|start: u64| #[trigger]
        range_starts.contains_key(start) ==> listing_ok(entries, start, range_starts[start]@)
}

/// The first blocks of ranges that lie below the given block.
fn starts_below(
    range_starts: &BTreeMap<u64, Vec<ChangesetRangeKey>>,
    up_to_block: u64,
) -> (starts: Vec<u64>)
    ensures
        starts@.no_duplicates(),
        forall|start: u64| #[trigger]
            starts@.contains(start) <==> range_starts@.contains_key(start) && start < up_to_block,
{
    let mut starts: Vec<u64> = Vec::new();
    for start in it: range_starts.keys()
        invariant
            it.seq().unref().no_duplicates(),
            it.seq().unref().to_set() == range_starts@.dom(),
            starts@.no_duplicates(),
            forall|s: u64| #[trigger]
                starts@.contains(s) ==> s < up_to_block && range_starts@.contains_key(s),
            forall|i: int|
                0 <= i < it.index() && #[trigger] it.seq().unref()[i] < up_to_block
                    ==> starts@.contains(it.seq().unref()[i]),
            forall|i: int|
                it.index() <= i < it.seq().len() ==> !starts@.contains(
                    #[trigger] it.seq().unref()[i],
                ),
    {
        let ghost before = starts@;
        let ghost keys = it.seq().unref();
        assert(keys[it.index()] == *start);
        assert(keys.to_set().contains(*start));
        if *start < up_to_block {
            starts.push(*start);
            proof {
                assert(starts@[before.len() as int] == *start);
                assert forall|s: u64| #[trigger]
                    starts@.contains(s) <==> before.contains(s) || s == *start by {
                    if before.contains(s) {
                        let k = choose|k: int| 0 <= k < before.len() && before[k] == s;
                        assert(starts@[k] == s);
                    }
                }
            }
        }
    }
    starts
}

/// In-memory cache for trie changesets with explicit eviction policy.
///
/// Holds changesets for blocks or block ranges that have been validated but not yet
/// persisted. Keyed by canonical block range. There is no capacity limit and no
/// automatic eviction: changesets remain until `evict` is called, after their blocks
/// have been persisted.
///
/// `W` is what a reader waits on when the changesets it needs are being computed.
#[verifier::reject_recursive_types(W)]
#[derive(Debug)]
pub struct ChangesetCacheInner<W> {
    /// Cache entries keyed by inclusive block range plus the range's canonical end hash.
    entries: KeyMap<Arc<TrieUpdatesSorted>>,
    /// Range start block to cache keys mapping for eviction.
    range_starts: BTreeMap<u64, Vec<ChangesetRangeKey>>,
    /// In-flight eager changeset computations, keyed by single-block range.
    pending: KeyMap<PendingEntry<W>>,
    /// Announcements that a later one of the same key took the place of.
    superseded: KeyMap<Vec<PendingEntry<W>>>,
    /// How many computations have been announced so far.
    registrations: u64,
}

impl<W> View for ChangesetCacheInner<W> {
    type V = CacheView<W>;

    closed spec fn view(&self) -> CacheView<W> {
        CacheView {
            entries: self.entries@,
            pending: self.pending@,
            superseded: listed(self.superseded@),
            registrations: self.registrations,
        }
    }
}

/// The announcements that are listed under their key.
spec fn listed<W>(lists: Map<ChangesetRangeKey, Vec<PendingEntry<W>>>) -> Map<
    (ChangesetRangeKey, u64),
    W,
> {
    Map::new(
        |k: (ChangesetRangeKey, u64)| lists.contains_key(k.0) && is_among(lists[k.0]@, k.1),
        |k: (ChangesetRangeKey, u64)| waiter_in(lists[k.0]@, k.1),
    )
}

/// The announcements of a key, the superseded ones and then the latest.
spec fn full_list<W>(
    lists: Map<ChangesetRangeKey, Vec<PendingEntry<W>>>,
    pending: Map<ChangesetRangeKey, PendingEntry<W>>,
    key: ChangesetRangeKey,
) -> Seq<PendingEntry<W>> {
    let list = if lists.contains_key(key) {
        lists[key]@
    } else {
        Seq::empty()
    };
    if pending.contains_key(key) {
        list.push(pending[key])
    } else {
        list
    }
}

impl<W> ChangesetCacheInner<W> {
    /// Whether the index by first block agrees with the entries, and announced
    /// computations are numbered.
    pub closed spec fn wf(&self) -> bool {
        &&& self.entries.wf()
        &&& self.pending.wf()
        &&& self.superseded.wf()
        &&& indexed(self.entries@, self.range_starts@)
        &&& forall|key: ChangesetRangeKey|
            in_order(
                #[trigger] full_list(self.superseded@, self.pending@, key),
                self.registrations,
            )
    }

    /// The announcements of a cache are numbered.
    pub proof fn lemma_numbered(&self)
        requires
            self.wf(),
        ensures
            self@.is_numbered(),
    {
        assert forall|key: ChangesetRangeKey| #[trigger]
            self@.pending.contains_key(key) implies self@.pending[key].registration
            < self@.registrations by {
            let list = full_list(self.superseded@, self.pending@, key);
            assert(in_order(list, self.registrations));
            assert(list[list.len() - 1] == self@.pending[key]);
        }
        assert forall|key: ChangesetRangeKey, registration: u64| #[trigger]
            self@.superseded.contains_key((key, registration)) implies registration
            < self@.registrations && (self@.pending.contains_key(key) ==> registration
            < self@.pending[key].registration) by {
            let earlier = self.superseded@[key]@;
            let list = full_list(self.superseded@, self.pending@, key);
            assert(in_order(list, self.registrations));
            let i = choose|i: int| stands_at(earlier, registration, i);
            assert(list[i] == earlier[i]);
            if self@.pending.contains_key(key) {
                assert(list[i].registration < list[list.len() - 1].registration);
            }
        }
    }

    /// Creates a new empty changeset cache.
    pub fn new() -> (cache: Self)
        ensures
            cache.wf(),
            cache@ == CacheView::<W>::empty(),
    {
        let cache = ChangesetCacheInner {
            entries: KeyMap::new(),
            range_starts: BTreeMap::new(),
            pending: KeyMap::new(),
            superseded: KeyMap::new(),
            registrations: 0,
        };
        assert(cache@ =~= CacheView::<W>::empty());
        cache
    }

    /// The number of cached changesets.
    pub fn len(&self) -> (len: usize)
        requires
            self.wf(),
        ensures
            self@.entries.dom().finite(),
            len == self@.entries.len(),
    {
        self.entries.len()
    }

    /// The changesets that are cached under `key`.
    pub fn get(&self, key: &ChangesetRangeKey) -> (changesets: Option<Arc<TrieUpdatesSorted>>)
        requires
            self.wf(),
        ensures
            match changesets {
                Some(c) => self@.entries.contains_key(*key) && c == self@.entries[*key],
                None => !self@.entries.contains_key(*key),
            },
    {
        match self.entries.get(key) {
            Some(changesets) => Some(changesets.clone()),
            None => None,
        }
    }

    /// Caches changesets under `key`.
    pub fn insert(&mut self, key: ChangesetRangeKey, changesets: Arc<TrieUpdatesSorted>)
        requires
            old(self).wf(),
        ensures
            final(self).wf(),
            final(self)@ == old(self)@.insert(key, changesets),
            final(self)@.entries == old(self)@.entries.insert(key, changesets),
            final(self)@.pending == old(self)@.pending,
            final(self)@.superseded == old(self)@.superseded,
            final(self)@.registrations == old(self)@.registrations,
    {
        let ghost entries = self.entries@;
        let ghost range_starts = self.range_starts@;
        let is_new_entry = self.entries.insert(key, changesets).is_none();
        if is_new_entry {
            let mut keys: Vec<ChangesetRangeKey> = match self.range_starts.remove(
                &key.start_block,
            ) {
                Some(keys) => keys,
                None => Vec::new(),
            };
            let ghost listed = keys@;
            keys.push(key);
            self.range_starts.insert(key.start_block, keys);
            proof {
                assert(listed.push(key).contains(key)) by {
                    assert(listed.push(key)[listed.len() as int] == key);
                }
                assert forall|k: ChangesetRangeKey| #[trigger]
                    self.entries@.contains_key(k) implies self.range_starts@.contains_key(
                    k.start_block,
                ) && self.range_starts@[k.start_block]@.contains(k) by {
                    if k != key {
                        assert(entries.contains_key(k));
                        let m = choose|m: int|
                            0 <= m < range_starts[k.start_block]@.len()
                                && range_starts[k.start_block]@[m] == k;
                        assert(self.range_starts@[k.start_block]@[m] == k);
                    }
                }
                assert forall|start: u64| #[trigger]
                    self.range_starts@.contains_key(start) implies listing_ok(
                    self.entries@,
                    start,
                    self.range_starts@[start]@,
                ) by {
                    if range_starts.contains_key(start) {
                        assert(listing_ok(entries, start, range_starts[start]@));
                    }
                }
            }
        } else {
            assert(indexed(self.entries@, self.range_starts@)) by {
                assert forall|start: u64| #[trigger]
                    self.range_starts@.contains_key(start) implies listing_ok(
                    self.entries@,
                    start,
                    self.range_starts@[start]@,
                ) by {
                    assert(listing_ok(entries, start, range_starts[start]@));
                }
            }
        }
        proof {
            assert(self@ =~= old(self)@.insert(key, changesets));
            assert forall|k: ChangesetRangeKey|
                in_order(
                    #[trigger] full_list(self.superseded@, self.pending@, k),
                    self.registrations,
                ) by {
                assert(in_order(
                    full_list(old(self).superseded@, old(self).pending@, k),
                    self.registrations,
                ));
            }
        }
    }

    /// Drops every range that starts below `up_to_block`, and returns how many there were.
    ///
    /// Ranges that start at `up_to_block` or later are retained.
    pub fn evict(&mut self, up_to_block: u64) -> (evicted: usize)
        requires
            old(self).wf(),
        ensures
            final(self).wf(),
            final(self)@ == old(self)@.evict(up_to_block),
            forall|key: ChangesetRangeKey| #[trigger]
                final(self)@.entries.contains_key(key) <==> old(self)@.entries.contains_key(key)
                    && key.start_block >= up_to_block,
            forall|key: ChangesetRangeKey| #[trigger]
                final(self)@.entries.contains_key(key) ==> final(self)@.entries[key]
                    == old(self)@.entries[key],
            final(self)@.pending == old(self)@.pending,
            final(self)@.superseded == old(self)@.superseded,
            final(self)@.registrations == old(self)@.registrations,
            final(self)@.entries.len() + evicted == old(self)@.entries.len(),
    {
        let starts = starts_below(&self.range_starts, up_to_block);
        let size: usize = self.entries.len();
        let ghost entries = self.entries@;
        let mut evicted: usize = 0;
        let mut i: usize = 0;
        proof {
            assert(self.entries@ =~= without_starts(entries, starts@.take(0)));
        }
        while i < starts.len()
            invariant
                i <= starts.len(),
                self.entries.wf(),
                self.pending == old(self).pending,
                self.superseded == old(self).superseded,
                self.registrations == old(self).registrations,
                indexed(self.entries@, self.range_starts@),
                self.entries@ == without_starts(entries, starts@.take(i as int)),
                self.entries@.dom().finite(),
                self.entries@.len() + evicted == size,
            decreases starts.len() - i,
        {
            let start: u64 = starts[i];
            let ghost middle = self.entries@;
            let ghost range_starts = self.range_starts@;
            match self.range_starts.remove(&start) {
                Some(keys) => {
                    assert(listing_ok(middle, start, keys@));
                    let mut j: usize = 0;
                    assert(self.entries@ =~= middle.remove_keys(keys@.take(0).to_set()));
                    while j < keys.len()
                        invariant
                            j <= keys.len(),
                            listing_ok(middle, start, keys@),
                            self.entries.wf(),
                            self.pending == old(self).pending,
                            self.superseded == old(self).superseded,
                            self.registrations == old(self).registrations,
                            self.range_starts@ == range_starts.remove(start),
                            self.entries@ == middle.remove_keys(keys@.take(j as int).to_set()),
                            self.entries@.dom().finite(),
                            self.entries@.len() + evicted == size,
                        decreases keys.len() - j,
                    {
                        let ghost now = self.entries@;
                        proof {
                            let key = keys@[j as int];
                            assert(!keys@.take(j as int).to_set().contains(key));
                            assert(now.contains_key(key));
                            assert(now.remove(key) =~= middle.remove_keys(
                                keys@.take(j + 1).to_set(),
                            )) by {
                                lemma_take_to_set(keys@, j as int);
                            }
                        }
                        if self.entries.remove(&keys[j]).is_some() {
                            evicted = evicted + 1;
                        }
                        j = j + 1;
                    }
                    proof {
                        assert(keys@.take(j as int) =~= keys@);
                        lemma_start_removed(middle, range_starts, start);
                        lemma_without_more_starts(entries, starts@, i as int);
                    }
                },
                None => {
                    proof {
                        lemma_start_removed(middle, range_starts, start);
                        lemma_without_more_starts(entries, starts@, i as int);
                    }
                },
            }
            i = i + 1;
        }
        proof {
            assert(starts@.take(i as int) =~= starts@);
            assert(self.entries@ =~= starting_from(entries, up_to_block)) by {
                assert forall|key: ChangesetRangeKey| entries.contains_key(key) implies (
                starts@.contains(key.start_block) <==> key.start_block < up_to_block) by {}
            }
            assert(self@ =~= old(self)@.evict(up_to_block));
            assert forall|k: ChangesetRangeKey|
                in_order(
                    #[trigger] full_list(self.superseded@, self.pending@, k),
                    self.registrations,
                ) by {
                assert(in_order(
                    full_list(old(self).superseded@, old(self).pending@, k),
                    self.registrations,
                ));
            }
        }
        evicted
    }

    /// Whether another computation can be announced: the numbers of registrations
    /// have not run out.
    pub fn can_register(&self) -> (can: bool)
        ensures
            can == (self@.registrations < u64::MAX),
    {
        self.registrations < u64::MAX
    }

    /// The superseded announcements of `key`, which are dropped from the cache.
    fn take_superseded(&mut self, key: &ChangesetRangeKey) -> (list: Vec<PendingEntry<W>>)
        requires
            old(self).superseded.wf(),
        ensures
            final(self).superseded.wf(),
            final(self).entries == old(self).entries,
            final(self).range_starts == old(self).range_starts,
            final(self).pending == old(self).pending,
            final(self).registrations == old(self).registrations,
            final(self).superseded@ == old(self).superseded@.remove(*key),
            list@ == full_list(old(self).superseded@, Map::<_, PendingEntry<W>>::empty(), *key),
            old(self)@.superseded == with_list(final(self)@.superseded, *key, list@),
            final(self)@.superseded == without_key(old(self)@.superseded, *key),
    {
        let list: Vec<PendingEntry<W>> = match self.superseded.remove(key) {
            Some(list) => list,
            None => Vec::new(),
        };
        proof {
            if !old(self).superseded@.contains_key(*key) {
                assert forall|n: u64| !is_among(list@, n) by {}
            }
            assert(old(self)@.superseded =~= with_list(self@.superseded, *key, list@));
            assert(self@.superseded =~= without_key(old(self)@.superseded, *key));
        }
        list
    }

    /// Keeps a list of superseded announcements of `key`, of which there are none.
    fn keep_superseded(&mut self, key: ChangesetRangeKey, list: Vec<PendingEntry<W>>)
        requires
            old(self).superseded.wf(),
            !old(self).superseded@.contains_key(key),
        ensures
            final(self).superseded.wf(),
            final(self).entries == old(self).entries,
            final(self).range_starts == old(self).range_starts,
            final(self).pending == old(self).pending,
            final(self).registrations == old(self).registrations,
            final(self)@.superseded == with_list(old(self)@.superseded, key, list@),
            full_list(final(self).superseded@, Map::<_, PendingEntry<W>>::empty(), key) == list@,
            forall|k: ChangesetRangeKey|
                k != key ==> #[trigger] full_list(final(self).superseded@, final(self).pending@, k)
                    == full_list(old(self).superseded@, old(self).pending@, k),
    {
        if list.len() > 0 {
            let _ = self.superseded.insert(key, list);
        } else {
            assert forall|n: u64| !is_among(list@, n) by {}
            assert(list@ =~= Seq::empty());
        }
        assert(self@.superseded =~= with_list(old(self)@.superseded, key, list@));
    }

    /// Registers a pending changeset computation for the given block.
    ///
    /// Readers that need the changesets then wait on `waiter` instead of computing
    /// them. An earlier registration for the same block is superseded, and stays
    /// unfinished: those who already wait on it are woken when a guard resolves the block,
    /// or released when its own guard is given up.
    pub fn register_pending(
        &mut self,
        block_number: u64,
        block_hash: B256,
        waiter: W,
    ) -> (guard: PendingChangesetGuard)
        requires
            old(self).wf(),
            old(self)@.registrations < u64::MAX,
        ensures
            final(self).wf(),
            final(self)@ == old(self)@.register(block_key(block_number, block_hash), waiter),
            final(self)@.entries == old(self)@.entries,
            final(self)@.pending == old(self)@.pending.insert(
                guard.key(),
                PendingEntry { registration: guard.registration(), waiter },
            ),
            final(self)@.registrations == old(self)@.registrations + 1,
            guard.key().start_block == block_number,
            guard.key().end_block == block_number,
            guard.key().end_block_hash == block_hash,
            guard.key() == block_key(block_number, block_hash),
            guard.registration() == old(self)@.registrations,
    {
        let key = ChangesetRangeKey::single(block_number, block_hash);
        let registration: u64 = self.registrations;
        let ghost lists = self.superseded@;
        let ghost pending = self.pending@;
        self.registrations = registration + 1;
        let mut list = self.take_superseded(&key);
        let ghost earlier = list@;
        if let Some(former) = self.pending.insert(key, PendingEntry { registration, waiter }) {
            list.push(former);
        }
        self.keep_superseded(key, list);
        proof {
            let entry = PendingEntry { registration, waiter };
            assert(in_order(full_list(lists, pending, key), registration));
            assert(list@ == full_list(lists, pending, key));
            assert(full_list(self.superseded@, self.pending@, key) == list@.push(entry));
            assert forall|k: ChangesetRangeKey|
                in_order(
                    #[trigger] full_list(self.superseded@, self.pending@, k),
                    self.registrations,
                ) by {
                assert(in_order(full_list(lists, pending, k), registration));
                if k != key {
                    assert(full_list(self.superseded@, self.pending@, k) == full_list(
                        lists,
                        pending,
                        k,
                    ));
                }
            }
            if pending.contains_key(key) {
                assert forall|n: u64|
                    (is_among(list@, n) <==> is_among(earlier, n) || n
                        == pending[key].registration) && (is_among(earlier, n) ==> waiter_in(
                        list@,
                        n,
                    ) == waiter_in(earlier, n)) by {
                    lemma_pushed(earlier, pending[key], registration, n);
                }
                lemma_pushed(earlier, pending[key], registration, registration);
            }
            assert(self@.superseded =~= old(self)@.register(key, waiter).superseded);
            assert(self@ =~= old(self)@.register(key, waiter));
        }
        PendingChangesetGuard { key, registration }
    }

    /// Caches eagerly computed changesets, and returns what all readers wait on who came by
    /// an unfinished registration of the key, the oldest first.
    fn insert_resolved(
        &mut self,
        key: ChangesetRangeKey,
        changesets: Arc<TrieUpdatesSorted>,
    ) -> (woken: Vec<W>)
        requires
            old(self).wf(),
        ensures
            final(self).wf(),
            final(self)@ == old(self)@.insert_resolved(key, changesets),
            old(self)@.is_everyone(key, woken@),
    {
        let ghost lists = self.superseded@;
        let ghost pending = self.pending@;
        let mut list = self.take_superseded(&key);
        if let Some(latest) = self.pending.remove(&key) {
            list.push(latest);
        }
        proof {
            assert(list@ == full_list(lists, pending, key));
            assert forall|k: ChangesetRangeKey|
                in_order(
                    #[trigger] full_list(self.superseded@, self.pending@, k),
                    self.registrations,
                ) by {
                assert(in_order(full_list(lists, pending, k), self.registrations));
            }
            old(self).lemma_everyone(key);
        }
        self.insert(key, changesets);
        assert(self@ =~= old(self)@.insert_resolved(key, changesets));
        into_waiters(list)
    }

    /// The list of a key's announcements holds what readers wait on.
    proof fn lemma_everyone(&self, key: ChangesetRangeKey)
        requires
            self.wf(),
        ensures
            self@.is_everyone(key, waiters(full_list(self.superseded@, self.pending@, key))),
    {
        let list = full_list(self.superseded@, self.pending@, key);
        let earlier = full_list(self.superseded@, Map::<_, PendingEntry<W>>::empty(), key);
        let all = numbers(list);
        assert(in_order(list, self.registrations));
        assert forall|n: u64|
            (is_among(list, n) <==> self@.waiter(key, n) is Some) && (is_among(list, n)
                ==> self@.waiter(key, n) == Some(waiter_in(list, n))) by {
            if self.pending@.contains_key(key) {
                lemma_pushed(earlier, self.pending@[key], self.registrations, n);
            }
        }
        assert forall|n: u64| all.to_set().contains(n) <==> self@.unfinished(key).contains(n) by {
            if is_among(list, n) {
                let i = choose|i: int| stands_at(list, n, i);
                assert(all[i] == n);
            }
            if all.contains(n) {
                let i = choose|i: int| 0 <= i < all.len() && all[i] == n;
                assert(stands_at(list, n, i));
            }
        }
        assert(all.to_set() =~= self@.unfinished(key));
        assert forall|i: int| 0 <= i < list.len() implies self@.waiter(key, all[i]) == Some(
            #[trigger] waiters(list)[i],
        ) by {
            lemma_waiter_in(list, self.registrations, i);
        }
        assert(self@.are_waiters(key, all, waiters(list)));
    }

    /// What the cache knows about the changesets of `key`: the cached ones, or else
    /// what to wait on while they are being computed.
    pub fn look_up(&self, key: &ChangesetRangeKey) -> (found: BlockLookup<W>) where W: Clone
        requires
            self.wf(),
        ensures
            found.answers(self@, *key),
            match found {
                BlockLookup::Cached(changesets) => self@.entries.contains_key(*key) && changesets
                    == self@.entries[*key],
                BlockLookup::InFlight(waiter) => !self@.entries.contains_key(*key)
                    && self@.pending.contains_key(*key) && cloned::<W>(
                    self@.pending[*key].waiter,
                    waiter,
                ),
                BlockLookup::Absent => !self@.entries.contains_key(*key)
                    && !self@.pending.contains_key(*key),
            },
    {
        match self.get(key) {
            Some(changesets) => BlockLookup::Cached(changesets),
            None => match self.pending.get(key) {
                Some(entry) => BlockLookup::InFlight(entry.waiter.clone()),
                None => BlockLookup::Absent,
            },
        }
    }
}

impl<W> Default for ChangesetCacheInner<W> {
    /// Creates a new empty changeset cache.
    fn default() -> (cache: Self)
        ensures
            cache.wf(),
            cache@ == CacheView::<W>::empty(),
    {
        Self::new()
    }
}

impl<W: Clone> BlockLookup<W> {
    /// Whether this is what the cache knows about `key`.
    pub open spec fn answers(self, cache: CacheView<W>, key: ChangesetRangeKey) -> bool {
        match self {
            BlockLookup::Cached(changesets) => {
                cache.entries.contains_key(key) && changesets == cache.entries[key]
            },
            BlockLookup::InFlight(waiter) => {
                &&& !cache.entries.contains_key(key)
                &&& cache.pending.contains_key(key)
                &&& cloned::<W>(cache.pending[key].waiter, waiter)
            },
            BlockLookup::Absent => {
                !cache.entries.contains_key(key) && !cache.pending.contains_key(key)
            },
        }
    }
}

/// Guard for a pending changeset computation.
///
/// Returned by `register_pending`. It ends in one of two ways: `resolve` caches the
/// computed changesets, and `abandon` withdraws the registration. What readers wait on is
/// handed back once for each registration, to be woken or released.
#[must_use]
#[derive(Debug)]
pub struct PendingChangesetGuard {
    key: ChangesetRangeKey,
    registration: u64,
}

impl PendingChangesetGuard {
    /// The key of the block whose changesets are being computed.
    pub closed spec fn key(self) -> ChangesetRangeKey {
        self.key
    }

    /// The number of the registration.
    pub closed spec fn registration(self) -> u64 {
        self.registration
    }

    /// Resolves the pending computation by inserting the changesets into the cache.
    ///
    /// Returns what all readers of the changesets wait on, so that they can be woken with
    /// them: those who came by this registration, and those who came by any other
    /// registration of the block that is not finished. All of these are finished then.
    pub fn resolve<W>(
        self,
        cache: &mut ChangesetCacheInner<W>,
        changesets: Arc<TrieUpdatesSorted>,
    ) -> (woken: Vec<W>)
        requires
            old(cache).wf(),
        ensures
            final(cache).wf(),
            final(cache)@ == old(cache)@.insert_resolved(self.key(), changesets),
            final(cache)@.entries == old(cache)@.entries.insert(self.key(), changesets),
            final(cache)@.pending == old(cache)@.pending.remove(self.key()),
            final(cache)@.registrations == old(cache)@.registrations,
            old(cache)@.is_everyone(self.key(), woken@),
            forall|registration: u64|
                #![trigger old(cache)@.waiter(self.key(), registration)]
                old(cache)@.waiter(self.key(), registration) matches Some(waiter)
                    ==> woken@.contains(waiter),
    {
        let woken = cache.insert_resolved(self.key, changesets);
        proof {
            lemma_everyone_is_there(old(cache)@, self.key(), woken@);
        }
        woken
    }

    /// Withdraws the pending computation.
    ///
    /// Returns what readers who came by this registration wait on, so that they can be
    /// released. Other registrations of the block are left alone. Where the block has been
    /// resolved through another guard, which finished this registration too, nothing
    /// happens.
    pub fn abandon<W>(self, cache: &mut ChangesetCacheInner<W>) -> (released: Option<W>)
        requires
            old(cache).wf(),
        ensures
            final(cache).wf(),
            final(cache)@ == old(cache)@.abandon(self.key(), self.registration()),
            final(cache)@.entries == old(cache)@.entries,
            final(cache)@.registrations == old(cache)@.registrations,
            released == old(cache)@.waiter(self.key(), self.registration()),
    {
        let is_open = match cache.pending.get(&self.key) {
            Some(entry) => entry.registration == self.registration,
            None => false,
        };
        let ghost lists = cache.superseded@;
        let ghost pending = cache.pending@;
        let ghost count = cache.registrations;
        proof {
            assert(in_order(full_list(lists, pending, self.key), count));
            lemma_earlier_in_order(lists, pending, self.key, count);
        }
        let released = if is_open {
            match cache.pending.remove(&self.key) {
                Some(entry) => Some(entry.waiter),
                None => None,
            }
        } else {
            let mut list = cache.take_superseded(&self.key);
            let waiter = take_out(&mut list, self.registration, Ghost(count));
            cache.keep_superseded(self.key, list);
            waiter
        };
        proof {
            assert(cache@.superseded =~= old(cache)@.abandon(
                self.key(),
                self.registration(),
            ).superseded);
            assert(cache@ =~= old(cache)@.abandon(self.key(), self.registration()));
            assert forall|k: ChangesetRangeKey|
                in_order(
                    #[trigger] full_list(cache.superseded@, cache.pending@, k),
                    cache.registrations,
                ) by {
                assert(in_order(full_list(lists, pending, k), count));
                lemma_earlier_in_order(lists, pending, k, count);
            }
        }
        released
    }
}

/// Superseded announcements stand in order without the latest.
proof fn lemma_earlier_in_order<W>(
    lists: Map<ChangesetRangeKey, Vec<PendingEntry<W>>>,
    pending: Map<ChangesetRangeKey, PendingEntry<W>>,
    key: ChangesetRangeKey,
    count: u64,
)
    requires
        in_order(full_list(lists, pending, key), count),
    ensures
        in_order(full_list(lists, Map::<_, PendingEntry<W>>::empty(), key), count),
{
    if pending.contains_key(key) {
        lemma_pushed(
            full_list(lists, Map::<_, PendingEntry<W>>::empty(), key),
            pending[key],
            count,
            0,
        );
    }
}

/// Among what all readers of a key wait on is what those of each registration wait on.
pub proof fn lemma_everyone_is_there<W>(
    cache: CacheView<W>,
    key: ChangesetRangeKey,
    handles: Seq<W>,
)
    requires
        cache.is_everyone(key, handles),
    ensures
        forall|registration: u64|
            #![trigger cache.waiter(key, registration)]
            cache.waiter(key, registration) matches Some(waiter) ==> handles.contains(waiter),
{
    let registrations = choose|registrations: Seq<u64>| #[trigger]
        cache.are_waiters(key, registrations, handles);
    assert forall|registration: u64|
        #![trigger cache.waiter(key, registration)]
        cache.waiter(key, registration) is Some implies handles.contains(
        cache.waiter(key, registration)->0,
    ) by {
        assert(cache.unfinished(key).contains(registration));
        assert(registrations.to_set().contains(registration));
        let i = choose|i: int| 0 <= i < registrations.len() && registrations[i] == registration;
        assert(cache.waiter(key, registrations[i]) == Some(handles[i]));
    }
}

/// The entries whose range does not start at one of the given blocks.
spec fn without_starts(
    entries: Map<ChangesetRangeKey, Arc<TrieUpdatesSorted>>,
    starts: Seq<u64>,
) -> Map<ChangesetRangeKey, Arc<TrieUpdatesSorted>> {
    Map::new(
        |key: ChangesetRangeKey| entries.contains_key(key) && !starts.contains(key.start_block),
        |key: ChangesetRangeKey| entries[key],
    )
}

proof fn lemma_take_to_set<A>(s: Seq<A>, i: int)
    requires
        0 <= i < s.len(),
    ensures
        s.take(i + 1).to_set() == s.take(i).to_set().insert(s[i]),
{
    let longer = s.take(i + 1);
    let shorter = s.take(i);
    assert forall|a: A| longer.to_set().contains(a) <==> shorter.to_set().insert(s[i]).contains(a) by {
        if longer.contains(a) {
            let k = choose|k: int| 0 <= k < longer.len() && longer[k] == a;
            if k < i {
                assert(shorter[k] == a);
            }
        }
        if shorter.contains(a) {
            let k = choose|k: int| 0 <= k < shorter.len() && shorter[k] == a;
            assert(longer[k] == a);
        }
        if a == s[i] {
            assert(longer[i] == a);
        }
    }
    assert(longer.to_set() =~= shorter.to_set().insert(s[i]));
}

proof fn lemma_start_removed(
    entries: Map<ChangesetRangeKey, Arc<TrieUpdatesSorted>>,
    range_starts: Map<u64, Vec<ChangesetRangeKey>>,
    start: u64,
)
    requires
        indexed(entries, range_starts),
    ensures
        ({
            let keys = range_starts[start]@;
            let left = if range_starts.contains_key(start) {
                entries.remove_keys(keys.to_set())
            } else {
                entries
            };
            &&& left == without_starts(entries, seq![start])
            &&& indexed(left, range_starts.remove(start))
        }),
{
    let keys = range_starts[start]@;
    let left = if range_starts.contains_key(start) {
        entries.remove_keys(keys.to_set())
    } else {
        entries
    };
    assert(seq![start][0] == start);
    if range_starts.contains_key(start) {
        assert(listing_ok(entries, start, keys));
    }
    assert forall|key: ChangesetRangeKey|
        left.contains_key(key) <==> without_starts(entries, seq![start]).contains_key(key) by {
        if entries.contains_key(key) {
            assert(range_starts[key.start_block]@.contains(key));
            assert(seq![start].contains(key.start_block) <==> key.start_block == start);
        }
    }
    assert(left =~= without_starts(entries, seq![start]));
    assert forall|s: u64| #[trigger] range_starts.remove(start).contains_key(s) implies listing_ok(
        left,
        s,
        range_starts[s]@,
    ) by {
        assert(listing_ok(entries, s, range_starts[s]@));
    }
    assert forall|key: ChangesetRangeKey| #[trigger] left.contains_key(key) implies range_starts.remove(
        start,
    ).contains_key(key.start_block) && range_starts.remove(start)[key.start_block]@.contains(
        key,
    ) by {
        assert(entries.contains_key(key));
    }
}

proof fn lemma_without_more_starts(
    entries: Map<ChangesetRangeKey, Arc<TrieUpdatesSorted>>,
    starts: Seq<u64>,
    i: int,
)
    requires
        0 <= i < starts.len(),
    ensures
        without_starts(without_starts(entries, starts.take(i)), seq![starts[i]]) == without_starts(
            entries,
            starts.take(i + 1),
        ),
{
    assert(seq![starts[i]][0] == starts[i]);
    lemma_take_to_set(starts, i);
    assert forall|s: u64|
        starts.take(i + 1).contains(s) <==> starts.take(i).contains(s) || s == starts[i] by {
        assert(starts.take(i + 1).to_set().contains(s) == starts.take(i + 1).contains(s));
        assert(starts.take(i).to_set().contains(s) == starts.take(i).contains(s));
    }
    assert(without_starts(without_starts(entries, starts.take(i)), seq![starts[i]])
        =~= without_starts(entries, starts.take(i + 1)));
}

} // verus!
