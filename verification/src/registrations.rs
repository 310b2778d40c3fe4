//! Announced computations of one block's changesets.
use vstd::prelude::*;

verus! {

/// A computation of changesets that has been announced and is not finished.
#[derive(Debug)]
pub struct PendingEntry<W> {
    /// Tells registrations of one key apart. No two registrations share a number.
    pub registration: u64,
    /// What readers of the changesets wait on.
    pub waiter: W,
}

/// Whether the given registration stands at position `i`.
pub(crate) open spec fn stands_at<W>(
    entries: Seq<PendingEntry<W>>,
    registration: u64,
    i: int,
) -> bool {
    0 <= i < entries.len() && entries[i].registration == registration
}

/// Whether the given registration is among these.
pub(crate) open spec fn is_among<W>(entries: Seq<PendingEntry<W>>, registration: u64) -> bool {
    exists|i: int| stands_at(entries, registration, i)
}

/// What the readers of the given registration wait on.
pub(crate) open spec fn waiter_in<W>(entries: Seq<PendingEntry<W>>, registration: u64) -> W {
    entries[choose|i: int| stands_at(entries, registration, i)].waiter
}

/// Whether the registrations stand in the order of their numbers, all below `count`.
pub(crate) open spec fn in_order<W>(entries: Seq<PendingEntry<W>>, count: u64) -> bool {
    &&& forall|i: int| 0 <= i < entries.len() ==> (#[trigger] entries[i]).registration < count
    &&& forall|i: int, j: int|
        0 <= i < j < entries.len() ==> (#[trigger] entries[i]).registration < (
        #[trigger] entries[j]).registration
}

pub(crate) proof fn lemma_waiter_in<W>(entries: Seq<PendingEntry<W>>, count: u64, i: int)
    requires
        in_order(entries, count),
        0 <= i < entries.len(),
    ensures
        is_among(entries, entries[i].registration),
        waiter_in(entries, entries[i].registration) == entries[i].waiter,
{
    let registration = entries[i].registration;
    assert(stands_at(entries, registration, i));
    let j = choose|j: int| stands_at(entries, registration, j);
    if i < j {
        assert(entries[i].registration < entries[j].registration);
    } else if j < i {
        assert(entries[j].registration < entries[i].registration);
    }
}

/// One registration more, with the highest number.
pub(crate) proof fn lemma_pushed<W>(
    entries: Seq<PendingEntry<W>>,
    entry: PendingEntry<W>,
    count: u64,
    registration: u64,
)
    requires
        in_order(entries.push(entry), count),
    ensures
        in_order(entries, count),
        !is_among(entries, entry.registration),
        is_among(entries.push(entry), registration) <==> is_among(entries, registration)
            || registration == entry.registration,
        waiter_in(entries.push(entry), entry.registration) == entry.waiter,
        is_among(entries, registration) ==> waiter_in(entries.push(entry), registration)
            == waiter_in(entries, registration),
{
    let all = entries.push(entry);
    let last = entries.len() as int;
    assert forall|i: int| 0 <= i < entries.len() implies (#[trigger] entries[i]).registration
        < entry.registration && entries[i].registration < count by {
        assert(all[i].registration < all[last].registration);
    }
    assert forall|i: int, j: int| 0 <= i < j < entries.len() implies (
    #[trigger] entries[i]).registration < (#[trigger] entries[j]).registration by {
        assert(all[i].registration < all[j].registration);
    }
    lemma_waiter_in(all, count, last);
    if is_among(entries, registration) {
        let i = choose|i: int| stands_at(entries, registration, i);
        lemma_waiter_in(entries, count, i);
        lemma_waiter_in(all, count, i);
    }
    if is_among(all, registration) && registration != entry.registration {
        let i = choose|i: int| stands_at(all, registration, i);
        assert(stands_at(entries, registration, i));
    }
}

/// One registration less.
pub(crate) proof fn lemma_taken<W>(
    entries: Seq<PendingEntry<W>>,
    count: u64,
    position: int,
    registration: u64,
)
    requires
        in_order(entries, count),
        0 <= position < entries.len(),
    ensures
        in_order(entries.remove(position), count),
        is_among(entries.remove(position), registration) <==> is_among(entries, registration)
            && registration != entries[position].registration,
        is_among(entries.remove(position), registration) ==> waiter_in(
            entries.remove(position),
            registration,
        ) == waiter_in(entries, registration),
{
    let left = entries.remove(position);
    assert forall|i: int| 0 <= i < left.len() implies #[trigger] left[i] == entries[if i
        < position {
        i
    } else {
        i + 1
    }] by {}
    if is_among(left, registration) {
        let i = choose|i: int| stands_at(left, registration, i);
        let j = if i < position {
            i
        } else {
            i + 1
        };
        assert(left[i] == entries[j]);
        lemma_waiter_in(entries, count, j);
        lemma_waiter_in(left, count, i);
        assert(entries[j].registration != entries[position].registration) by {
            if j < position {
                assert(entries[j].registration < entries[position].registration);
            } else {
                assert(entries[position].registration < entries[j].registration);
            }
        }
    }
    if is_among(entries, registration) && registration != entries[position].registration {
        let j = choose|j: int| stands_at(entries, registration, j);
        assert(stands_at(left, registration, if j < position { j } else { j - 1 }));
    }
}

/// Takes a registration out, and returns what its readers wait on.
pub(crate) fn take_out<W>(
    entries: &mut Vec<PendingEntry<W>>,
    registration: u64,
    Ghost(count): Ghost<u64>,
) -> (waiter: Option<W>)
    requires
        in_order(old(entries)@, count),
    ensures
        forall|later: PendingEntry<W>|
            in_order(#[trigger] old(entries)@.push(later), count) ==> in_order(
                final(entries)@.push(later),
                count,
            ),
        in_order(final(entries)@, count),
        forall|n: u64| #[trigger]
            is_among(final(entries)@, n) <==> is_among(old(entries)@, n) && n != registration,
        forall|n: u64|
            is_among(final(entries)@, n) ==> #[trigger] waiter_in(final(entries)@, n) == waiter_in(
                old(entries)@,
                n,
            ),
        match waiter {
            Some(w) => is_among(old(entries)@, registration) && w == waiter_in(
                old(entries)@,
                registration,
            ),
            None => !is_among(old(entries)@, registration),
        },
{
    let ghost all = entries@;
    let mut i: usize = 0;
    while i < entries.len()
        invariant
            all == old(entries)@,
            entries@ == all,
            in_order(all, count),
            i <= all.len(),
            forall|k: int| 0 <= k < i ==> (#[trigger] all[k]).registration != registration,
        decreases entries.len() - i,
    {
        if entries[i].registration == registration {
            let entry = entries.remove(i);
            proof {
                let left = entries@;
                assert(left == all.remove(i as int));
                lemma_waiter_in(all, count, i as int);
                assert forall|n: u64| #[trigger]
                    is_among(left, n) <==> is_among(all, n) && n != registration by {
                    lemma_taken(all, count, i as int, n);
                }
                assert forall|n: u64| is_among(left, n) implies #[trigger] waiter_in(left, n)
                    == waiter_in(all, n) by {
                    lemma_taken(all, count, i as int, n);
                }
                lemma_taken(all, count, i as int, registration);
                assert forall|later: PendingEntry<W>|
                    in_order(#[trigger] all.push(later), count) implies in_order(
                    left.push(later),
                    count,
                ) by {
                    assert(all.push(later).remove(i as int) =~= left.push(later));
                    lemma_taken(all.push(later), count, i as int, registration);
                }
            }
            return Some(entry.waiter);
        }
        i = i + 1;
    }
    assert(!is_among(all, registration)) by {
        if is_among(all, registration) {
            let k = choose|k: int| stands_at(all, registration, k);
            assert(all[k].registration != registration);
        }
    }
    None
}

/// The numbers of registrations.
pub(crate) open spec fn numbers<W>(entries: Seq<PendingEntry<W>>) -> Seq<u64> {
    entries.map_values(|entry: PendingEntry<W>| entry.registration)
}

/// What readers wait on, by registration.
pub(crate) open spec fn waiters<W>(entries: Seq<PendingEntry<W>>) -> Seq<W> {
    entries.map_values(|entry: PendingEntry<W>| entry.waiter)
}

/// What readers wait on, by registration.
pub(crate) fn into_waiters<W>(entries: Vec<PendingEntry<W>>) -> (handles: Vec<W>)
    ensures
        handles@ == waiters(entries@),
{
    let ghost all = entries@;
    let mut handles: Vec<W> = Vec::new();
    for entry in it: entries
        invariant
            it.seq() == all,
            handles@ == waiters(all.take(it.index() as int)),
    {
        handles.push(entry.waiter);
        proof {
            let i = it.index() as int;
            assert(waiters(all.take(i + 1)) =~= waiters(all.take(i)).push(entry.waiter));
        }
    }
    assert(all.take(all.len() as int) =~= all);
    handles
}

} // verus!
