//! A hash map from range keys.
use crate::key::ChangesetRangeKey;
use std::collections::HashMap;
use vstd::prelude::*;

verus! {

broadcast use vstd::std_specs::hash::group_hash_axioms;

/// A map from range keys to values.
///
/// The entries lie side by side in no particular order. The positions of those
/// that start at one block are found by that block's number.
#[verifier::reject_recursive_types(V)]
#[derive(Debug)]
pub(crate) struct KeyMap<V> {
    slots: Vec<(ChangesetRangeKey, V)>,
    index: HashMap<u64, Vec<usize>>,
}

/// Whether `key` stands at position `i`.
spec fn at<V>(slots: Seq<(ChangesetRangeKey, V)>, i: int, key: ChangesetRangeKey) -> bool {
    0 <= i < slots.len() && slots[i].0 == key
}

/// No key stands at two positions.
spec fn distinct<V>(slots: Seq<(ChangesetRangeKey, V)>) -> bool {
    forall|i: int, j: int|
        0 <= i < j < slots.len() ==> (#[trigger] slots[i]).0 != (#[trigger] slots[j]).0
}

/// Every position is listed under the first block of the key that stands there.
spec fn listed<V>(
    slots: Seq<(ChangesetRangeKey, V)>,
    index: Map<u64, Vec<usize>>,
    i: int,
) -> bool {
    &&& index.contains_key(slots[i].0.start_block)
    &&& exists|m: int|
        0 <= m < index[slots[i].0.start_block]@.len()
            && #[trigger] index[slots[i].0.start_block]@[m] == i
}

/// What is listed under a block are positions, each once, of keys that start there.
/// Where no key starts nothing is listed.
spec fn bucket_ok<V>(slots: Seq<(ChangesetRangeKey, V)>, start: u64, bucket: Seq<usize>) -> bool {
    &&& bucket.len() > 0
    &&& bucket.no_duplicates()
    &&& forall|m: int|
        0 <= m < bucket.len() ==> (#[trigger] bucket[m]) < slots.len()
            && slots[bucket[m] as int].0.start_block == start
}

spec fn contents<V>(slots: Seq<(ChangesetRangeKey, V)>) -> Map<ChangesetRangeKey, V> {
    Map::new(
        |key: ChangesetRangeKey| exists|i: int| at(slots, i, key),
        |key: ChangesetRangeKey| slots[choose|i: int| at(slots, i, key)].1,
    )
}

proof fn lemma_contents<V>(slots: Seq<(ChangesetRangeKey, V)>, i: int)
    requires
        distinct(slots),
        0 <= i < slots.len(),
    ensures
        contents(slots).contains_key(slots[i].0),
        contents(slots)[slots[i].0] == slots[i].1,
{
    let key = slots[i].0;
    assert(at(slots, i, key));
    let j = choose|j: int| at(slots, j, key);
    assert(at(slots, j, key));
    assert(i == j) by {
        if i < j {
            assert(slots[i].0 != slots[j].0);
        } else if j < i {
            assert(slots[j].0 != slots[i].0);
        }
    }
}

impl<V> View for KeyMap<V> {
    type V = Map<ChangesetRangeKey, V>;

    closed spec fn view(&self) -> Map<ChangesetRangeKey, V> {
        contents(self.slots@)
    }
}

impl<V> KeyMap<V> {
    /// Whether the positions that are listed are those of the entries.
    pub(crate) closed spec fn wf(&self) -> bool {
        &&& distinct(self.slots@)
        &&& forall|i: int|
            0 <= i < self.slots@.len() ==> #[trigger] listed(self.slots@, self.index@, i)
        &&& forall|start: u64| #[trigger]
            self.index@.contains_key(start) ==> bucket_ok(
                self.slots@,
                start,
                self.index@[start]@,
            )
    }

    /// A map without entries.
    pub(crate) fn new() -> (map: Self)
        ensures
            map.wf(),
            map@ == Map::<ChangesetRangeKey, V>::empty(),
    {
        let map = KeyMap { slots: Vec::new(), index: HashMap::new() };
        assert(map@ =~= Map::<ChangesetRangeKey, V>::empty());
        map
    }

    /// The number of entries.
    pub(crate) fn len(&self) -> (len: usize)
        requires
            self.wf(),
        ensures
            self@.dom().finite(),
            len == self@.len(),
    {
        proof {
            let keys = self.slots@.map_values(|slot: (ChangesetRangeKey, V)| slot.0);
            assert(keys.no_duplicates());
            keys.unique_seq_to_set();
            vstd::seq_lib::seq_to_set_is_finite(keys);
            assert forall|key: ChangesetRangeKey|
                keys.to_set().contains(key) <==> self@.dom().contains(key) by {
                if self@.dom().contains(key) {
                    let i = choose|i: int| at(self.slots@, i, key);
                    assert(keys[i] == key);
                }
                if keys.to_set().contains(key) {
                    let i = choose|i: int| 0 <= i < keys.len() && keys[i] == key;
                    assert(at(self.slots@, i, key));
                }
            }
            assert(keys.to_set() =~= self@.dom());
        }
        self.slots.len()
    }

    /// Where `key` stands: its place in the list of its first block, and its position.
    fn find(&self, key: &ChangesetRangeKey) -> (found: Option<(usize, usize)>)
        requires
            self.wf(),
        ensures
            match found {
                Some((place, position)) => {
                    &&& self.index@.contains_key(key.start_block)
                    &&& place < self.index@[key.start_block]@.len()
                    &&& self.index@[key.start_block]@[place as int] == position
                    &&& at(self.slots@, position as int, *key)
                },
                None => !self@.contains_key(*key),
            },
    {
        match self.index.get(&key.start_block) {
            Some(bucket) => {
                let mut place: usize = 0;
                while place < bucket.len()
                    invariant
                        self.wf(),
                        place <= bucket.len(),
                        self.index@.contains_key(key.start_block),
                        *bucket == self.index@[key.start_block],
                        forall|m: int|
                            0 <= m < place ==> self.slots@[#[trigger] bucket@[m] as int].0 != *key,
                    decreases bucket.len() - place,
                {
                    let position: usize = bucket[place];
                    if self.slots[position].0 == *key {
                        return Some((place, position));
                    }
                    place = place + 1;
                }
                proof {
                    if self@.contains_key(*key) {
                        let i = choose|i: int| at(self.slots@, i, *key);
                        assert(listed(self.slots@, self.index@, i));
                    }
                }
                None
            },
            None => {
                proof {
                    if self@.contains_key(*key) {
                        let i = choose|i: int| at(self.slots@, i, *key);
                        assert(listed(self.slots@, self.index@, i));
                    }
                }
                None
            },
        }
    }

    /// The value that `key` maps to.
    pub(crate) fn get(&self, key: &ChangesetRangeKey) -> (value: Option<&V>)
        requires
            self.wf(),
        ensures
            match value {
                Some(v) => self@.contains_key(*key) && *v == self@[*key],
                None => !self@.contains_key(*key),
            },
    {
        match self.find(key) {
            Some((_, position)) => {
                proof {
                    lemma_contents(self.slots@, position as int);
                }
                Some(&self.slots[position].1)
            },
            None => None,
        }
    }

    /// Maps `key` to `value`, and returns what it mapped to.
    pub(crate) fn insert(&mut self, key: ChangesetRangeKey, value: V) -> (former: Option<V>)
        requires
            old(self).wf(),
        ensures
            final(self).wf(),
            final(self)@ == old(self)@.insert(key, value),
            match former {
                Some(v) => old(self)@.contains_key(key) && v == old(self)@[key],
                None => !old(self)@.contains_key(key),
            },
    {
        let ghost before = self.slots@;
        let ghost index = self.index@;
        match self.find(&key) {
            Some((_, position)) => {
                self.slots.push((key, value));
                let (_, former) = self.slots.swap_remove(position);
                proof {
                    let after = self.slots@;
                    assert(after =~= before.update(position as int, (key, value)));
                    assert forall|i: int| 0 <= i < after.len() implies #[trigger] listed(
                        after,
                        index,
                        i,
                    ) by {
                        assert(listed(before, index, i));
                    }
                    lemma_updated(before, after, position as int, key, value);
                }
                Some(former)
            },
            None => {
                let position: usize = self.slots.len();
                self.slots.push((key, value));
                let mut bucket: Vec<usize> = match self.index.remove(&key.start_block) {
                    Some(bucket) => bucket,
                    None => Vec::new(),
                };
                let ghost listing = bucket@;
                bucket.push(position);
                self.index.insert(key.start_block, bucket);
                proof {
                    let after = self.slots@;
                    assert forall|i: int| 0 <= i < after.len() implies #[trigger] listed(
                        after,
                        self.index@,
                        i,
                    ) by {
                        if i < before.len() {
                            assert(listed(before, index, i));
                            let start = before[i].0.start_block;
                            let m = choose|m: int|
                                0 <= m < index[start]@.len() && #[trigger] index[start]@[m] == i;
                            assert(after[i] == before[i]);
                            assert(self.index@[start]@[m] == i);
                        } else {
                            assert(after[i] == (key, value));
                            assert(self.index@[key.start_block]@[listing.len() as int] == i);
                        }
                    }
                    assert forall|start: u64| #[trigger]
                        self.index@.contains_key(start) implies bucket_ok(
                        after,
                        start,
                        self.index@[start]@,
                    ) by {
                        if start == key.start_block {
                            if index.contains_key(start) {
                                assert(bucket_ok(before, start, index[start]@));
                            }
                        } else {
                            assert(index.contains_key(start));
                        }
                    }
                    lemma_pushed(before, after, key, value);
                }
                None
            },
        }
    }

    /// Drops the entry of `key`, and returns its value.
    pub(crate) fn remove(&mut self, key: &ChangesetRangeKey) -> (former: Option<V>)
        requires
            old(self).wf(),
        ensures
            final(self).wf(),
            final(self)@ == old(self)@.remove(*key),
            match former {
                Some(v) => old(self)@.contains_key(*key) && v == old(self)@[*key],
                None => !old(self)@.contains_key(*key),
            },
    {
        let (place, position): (usize, usize) = match self.find(key) {
            Some(found) => found,
            None => {
                assert(self@ =~= old(self)@.remove(*key));
                return None;
            },
        };
        let ghost before = self.slots@;
        let ghost index = self.index@;
        let last: usize = self.slots.len() - 1;
        let start: u64 = key.start_block;
        // Unlist the entry.
        let mut bucket: Vec<usize> = match self.index.remove(&start) {
            Some(bucket) => bucket,
            None => Vec::new(),
        };
        assert(bucket_ok(before, start, bucket@));
        let ghost listing = bucket@;
        let _ = bucket.swap_remove(place);
        proof {
            lemma_unlisted(before, start, listing, place as int, bucket@);
        }
        if bucket.len() > 0 {
            self.index.insert(start, bucket);
        }
        let ghost middle = self.index@;
        proof {
            assert forall|i: int| 0 <= i < before.len() && i != position implies #[trigger] listed(
                before,
                middle,
                i,
            ) by {
                assert(listed(before, index, i));
                let s = before[i].0.start_block;
                let m = choose|m: int|
                    0 <= m < index[s]@.len() && #[trigger] index[s]@[m] == i;
                if s == start {
                    assert(m != place);
                    assert(listing.len() > 1);
                    if m == listing.len() - 1 {
                        assert(middle[s]@[place as int] == i);
                    } else {
                        assert(middle[s]@[m] == i);
                    }
                } else {
                    assert(middle[s]@[m] == i);
                }
            }
            assert forall|s: u64| #[trigger] middle.contains_key(s) implies bucket_ok(
                before,
                s,
                middle[s]@,
            ) && !middle[s]@.contains(position) by {
                if s != start {
                    assert(index.contains_key(s));
                }
            }
        }
        // Fill the gap with the entry that stands last.
        let (_, former) = self.slots.swap_remove(position);
        if position != last {
            let moved: u64 = self.slots[position].0.start_block;
            assert(moved == before[last as int].0.start_block);
            assert(listed(before, middle, last as int));
            let mut bucket: Vec<usize> = match self.index.remove(&moved) {
                Some(bucket) => bucket,
                None => Vec::new(),
            };
            let ghost listing = bucket@;
            let mut m: usize = 0;
            while m < bucket.len() && bucket[m] != last
                invariant
                    m <= bucket.len(),
                    bucket@ == listing,
                    forall|k: int| 0 <= k < m ==> bucket@[k] != last,
                decreases bucket.len() - m,
            {
                m = m + 1;
            }
            assert(m < bucket.len());
            bucket.set(m, position);
            self.index.insert(moved, bucket);
            proof {
                let after = self.slots@;
                assert(bucket_ok(before, moved, listing));
                assert forall|i: int| 0 <= i < after.len() implies #[trigger] listed(
                    after,
                    self.index@,
                    i,
                ) by {
                    if i == position {
                        assert(self.index@[moved]@[m as int] == i);
                    } else {
                        assert(after[i] == before[i]);
                        assert(listed(before, middle, i));
                        let s = before[i].0.start_block;
                        let k = choose|k: int|
                            0 <= k < middle[s]@.len() && #[trigger] middle[s]@[k] == i;
                        assert(i != last);
                        if s == moved {
                            assert(listing[m as int] == last);
                            assert(k != m);
                        }
                        assert(self.index@[s]@[k] == i);
                    }
                }
                assert forall|s: u64| #[trigger] self.index@.contains_key(s) implies bucket_ok(
                    after,
                    s,
                    self.index@[s]@,
                ) by {
                    assert(middle.contains_key(s));
                    assert(bucket_ok(before, s, middle[s]@));
                    if s == moved {
                        lemma_relisted(
                            before,
                            after,
                            s,
                            listing,
                            m as int,
                            position,
                            self.index@[s]@,
                        );
                    } else {
                        lemma_kept(before, after, s, middle[s]@, position);
                    }
                }
            }
        } else {
            proof {
                let after = self.slots@;
                assert(after =~= before.drop_last());
                assert forall|i: int| 0 <= i < after.len() implies #[trigger] listed(
                    after,
                    self.index@,
                    i,
                ) by {
                    assert(listed(before, middle, i));
                }
                assert forall|s: u64| #[trigger] self.index@.contains_key(s) implies bucket_ok(
                    after,
                    s,
                    self.index@[s]@,
                ) by {
                    lemma_kept(before, after, s, middle[s]@, position);
                }
            }
        }
        proof {
            lemma_removed(before, self.slots@, position as int);
        }
        Some(former)
    }
}

proof fn lemma_updated<V>(
    before: Seq<(ChangesetRangeKey, V)>,
    after: Seq<(ChangesetRangeKey, V)>,
    position: int,
    key: ChangesetRangeKey,
    value: V,
)
    requires
        distinct(before),
        at(before, position, key),
        after == before.update(position, (key, value)),
    ensures
        distinct(after),
        contents(after) == contents(before).insert(key, value),
        contents(before).contains_key(key),
        contents(before)[key] == before[position].1,
{
    lemma_contents(before, position);
    assert(contents(after) =~= contents(before).insert(key, value)) by {
        lemma_contents(after, position);
        assert forall|k: ChangesetRangeKey|
            contents(after).contains_key(k) <==> contents(before).insert(key, value).contains_key(
                k,
            ) by {
            if contents(before).contains_key(k) {
                let i = choose|i: int| at(before, i, k);
                assert(at(after, i, k));
            }
            if contents(after).contains_key(k) {
                let i = choose|i: int| at(after, i, k);
                assert(at(before, i, k));
            }
        }
        assert forall|k: ChangesetRangeKey| contents(after).contains_key(k) implies contents(
            after,
        )[k] == contents(before).insert(key, value)[k] by {
            let i = choose|i: int| at(after, i, k);
            lemma_contents(after, i);
            lemma_contents(before, i);
        }
    }
}

proof fn lemma_pushed<V>(
    before: Seq<(ChangesetRangeKey, V)>,
    after: Seq<(ChangesetRangeKey, V)>,
    key: ChangesetRangeKey,
    value: V,
)
    requires
        distinct(before),
        !contents(before).contains_key(key),
        after == before.push((key, value)),
    ensures
        distinct(after),
        contents(after) == contents(before).insert(key, value),
{
    assert forall|i: int| 0 <= i < before.len() implies (#[trigger] before[i]).0 != key by {
        if before[i].0 == key {
            assert(at(before, i, key));
        }
    }
    lemma_contents(after, before.len() as int);
    assert forall|k: ChangesetRangeKey|
        contents(after).contains_key(k) <==> contents(before).insert(key, value).contains_key(k) by {
        if contents(before).contains_key(k) {
            let i = choose|i: int| at(before, i, k);
            assert(at(after, i, k));
        }
        if contents(after).contains_key(k) && k != key {
            let i = choose|i: int| at(after, i, k);
            assert(at(before, i, k));
        }
    }
    assert forall|k: ChangesetRangeKey| contents(after).contains_key(k) implies contents(after)[k]
        == contents(before).insert(key, value)[k] by {
        let i = choose|i: int| at(after, i, k);
        lemma_contents(after, i);
        if i < before.len() {
            lemma_contents(before, i);
        }
    }
    assert(contents(after) =~= contents(before).insert(key, value));
}

proof fn lemma_removed<V>(
    before: Seq<(ChangesetRangeKey, V)>,
    after: Seq<(ChangesetRangeKey, V)>,
    position: int,
)
    requires
        distinct(before),
        0 <= position < before.len(),
        after == before.update(position, before.last()).drop_last(),
    ensures
        distinct(after),
        contents(after) == contents(before).remove(before[position].0),
        contents(before).contains_key(before[position].0),
        contents(before)[before[position].0] == before[position].1,
{
    let key = before[position].0;
    let last = before.len() - 1;
    lemma_contents(before, position);
    assert forall|i: int, j: int| 0 <= i < j < after.len() implies (#[trigger] after[i]).0 != (
    #[trigger] after[j]).0 by {
        let i0 = if i == position { last } else { i };
        let j0 = if j == position { last } else { j };
        assert(after[i] == before[i0] && after[j] == before[j0]);
        if i0 < j0 {
            assert(before[i0].0 != before[j0].0);
        } else {
            assert(before[j0].0 != before[i0].0);
        }
    }
    assert forall|k: ChangesetRangeKey|
        contents(after).contains_key(k) <==> contents(before).remove(key).contains_key(k) by {
        if contents(before).contains_key(k) && k != key {
            let i = choose|i: int| at(before, i, k);
            if i == last {
                assert(at(after, position, k));
            } else {
                assert(at(after, i, k));
            }
        }
        if contents(after).contains_key(k) {
            let i = choose|i: int| at(after, i, k);
            let i0 = if i == position { last } else { i };
            assert(after[i] == before[i0]);
            assert(at(before, i0, k));
            assert(i0 != position);
            if i0 < position {
                assert(before[i0].0 != before[position].0);
            } else {
                assert(before[position].0 != before[i0].0);
            }
        }
    }
    assert forall|k: ChangesetRangeKey| contents(after).contains_key(k) implies contents(after)[k]
        == contents(before).remove(key)[k] by {
        let i = choose|i: int| at(after, i, k);
        let i0 = if i == position { last } else { i };
        lemma_contents(after, i);
        lemma_contents(before, i0);
    }
    assert(contents(after) =~= contents(before).remove(key));
}

proof fn lemma_unlisted<V>(
    slots: Seq<(ChangesetRangeKey, V)>,
    start: u64,
    bucket: Seq<usize>,
    place: int,
    shorter: Seq<usize>,
)
    requires
        bucket_ok(slots, start, bucket),
        0 <= place < bucket.len(),
        shorter == bucket.update(place, bucket.last()).drop_last(),
    ensures
        shorter.len() > 0 ==> bucket_ok(slots, start, shorter),
        !shorter.contains(bucket[place]),
{
    let last = bucket.len() - 1;
    assert forall|m: int| 0 <= m < shorter.len() implies shorter[m] == bucket[if m == place {
        last
    } else {
        m
    }] by {}
    assert(shorter.no_duplicates());
}

proof fn lemma_relisted<V>(
    before: Seq<(ChangesetRangeKey, V)>,
    after: Seq<(ChangesetRangeKey, V)>,
    start: u64,
    bucket: Seq<usize>,
    m: int,
    position: usize,
    changed: Seq<usize>,
)
    requires
        bucket_ok(before, start, bucket),
        0 <= m < bucket.len(),
        bucket[m] == before.len() - 1,
        position < before.len() - 1,
        !bucket.contains(position),
        changed == bucket.update(m, position),
        after == before.update(position as int, before.last()).drop_last(),
    ensures
        bucket_ok(after, start, changed),
{
    assert(changed.no_duplicates()) by {
        assert forall|i: int, j: int|
            0 <= i < changed.len() && 0 <= j < changed.len() && i != j implies changed[i]
            != changed[j] by {
            if i == m {
                assert(bucket[j] != position);
            } else if j == m {
                assert(bucket[i] != position);
            } else {
                assert(bucket[i] != bucket[j]);
            }
        }
    }
    assert forall|k: int| 0 <= k < changed.len() implies (#[trigger] changed[k]) < after.len()
        && after[changed[k] as int].0.start_block == start by {
        if k == m {
            assert(before[bucket[m] as int].0.start_block == start);
        } else {
            assert(bucket[k] != bucket[m]);
            assert(bucket[k] != position);
        }
    }
}

proof fn lemma_kept<V>(
    before: Seq<(ChangesetRangeKey, V)>,
    after: Seq<(ChangesetRangeKey, V)>,
    start: u64,
    bucket: Seq<usize>,
    position: usize,
)
    requires
        bucket_ok(before, start, bucket),
        position < before.len(),
        !bucket.contains(position),
        !bucket.contains((before.len() - 1) as usize),
        before.len() - 1 <= usize::MAX,
        after == before.update(position as int, before.last()).drop_last(),
    ensures
        bucket_ok(after, start, bucket),
{
    assert forall|k: int| 0 <= k < bucket.len() implies (#[trigger] bucket[k]) < after.len()
        && after[bucket[k] as int].0.start_block == start by {
        assert(bucket[k] != position);
        assert(bucket[k] != before.len() - 1);
    }
}

} // verus!
