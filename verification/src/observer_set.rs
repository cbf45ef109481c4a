//! Who is told of an item's events.

use crate::outside::share;
use std::sync::Arc;
use vstd::prelude::*;

verus! {

pub type ObserverId = u64;

/// Observers, each under the handle it was given.
pub struct ObserverSet<T> {
    next_id: ObserverId,
    entries: Vec<(ObserverId, Arc<T>)>,
}

/// What is left of `entries` without those under `id`.
pub open spec fn without<T>(
    entries: Seq<(ObserverId, Arc<T>)>,
    id: ObserverId,
) -> Seq<(ObserverId, Arc<T>)>
    decreases entries.len(),
{
    if entries.len() == 0 {
        entries
    } else if entries.last().0 == id {
        without(entries.drop_last(), id)
    } else {
        without(entries.drop_last(), id).push(entries.last())
    }
}

impl<T> ObserverSet<T> {
    /// The observers with their handles, in the order they came.
    pub closed spec fn registered(&self) -> Seq<(ObserverId, Arc<T>)> {
        self.entries@
    }

    /// The handle that the next observer gets.
    pub closed spec fn next(&self) -> ObserverId {
        self.next_id
    }

    /// Every handle was given once, in ascending order, and before the next.
    pub open spec fn well_formed(&self) -> bool {
        ascending(self.registered(), self.next())
    }

    pub fn new() -> (set: Self)
        ensures
            set.registered() == Seq::<(ObserverId, Arc<T>)>::empty(),
            set.next() == 0,
            set.well_formed(),
    {
        ObserverSet { next_id: 0, entries: Vec::new() }
    }

    /// Whether there is a handle left to give out.
    pub fn has_next(&self) -> (left: bool)
        ensures
            left <==> self.next() < u64::MAX,
    {
        self.next_id < u64::MAX
    }

    /// Register `observer` under a new handle.
    pub fn add(&mut self, observer: Arc<T>) -> (id: ObserverId)
        requires
            old(self).next() < u64::MAX,
        ensures
            id == old(self).next(),
            final(self).next() == old(self).next() + 1,
            final(self).registered() == old(self).registered().push((id, observer)),
            old(self).well_formed() ==> final(self).well_formed(),
    {
        let id: ObserverId = self.next_id;
        self.next_id = self.next_id + 1;
        self.entries.push((id, observer));
        id
    }

    /// Forget the observer under `id`.
    pub fn remove(&mut self, id: ObserverId)
        ensures
            final(self).next() == old(self).next(),
            final(self).registered() == without(old(self).registered(), id),
            old(self).well_formed() ==> final(self).well_formed(),
    {
        let ghost all = self.entries@;
        let mut kept: Vec<(ObserverId, Arc<T>)> = Vec::new();
        let mut i: usize = 0;
        assert(all.take(0) =~= Seq::<(ObserverId, Arc<T>)>::empty());
        while i < self.entries.len()
            invariant
                all == self.entries@,
                i <= all.len(),
                kept@ == without(all.take(i as int), id),
            decreases all.len() - i,
        {
            assert(all.take(i + 1).drop_last() =~= all.take(i as int));
            if self.entries[i].0 != id {
                kept.push((self.entries[i].0, share(&self.entries[i].1)));
            }
            i += 1;
        }
        assert(all.take(all.len() as int) =~= all);
        self.entries = kept;
        proof {
            lemma_without(all, id);
            if old(self).well_formed() {
                lemma_without_ascends(all, id, self.next_id);
            }
        }
    }

    /// Everyone who is registered now, in the order they came.
    pub fn snapshot(&self) -> (observers: Vec<Arc<T>>)
        ensures
            observers@.len() == self.registered().len(),
            forall|i: int|
                0 <= i < observers@.len() ==> #[trigger] observers@[i] == self.registered()[i].1,
    {
        let mut observers: Vec<Arc<T>> = Vec::new();
        let mut i: usize = 0;
        while i < self.entries.len()
            invariant
                i <= self.entries@.len(),
                observers@.len() == i,
                forall|k: int| 0 <= k < i ==> #[trigger] observers@[k] == self.entries@[k].1,
            decreases self.entries@.len() - i,
        {
            observers.push(share(&self.entries[i].1));
            i += 1;
        }
        observers
    }
}

/// Whether the handles ascend, all below `next`.
pub open spec fn ascending<T>(entries: Seq<(ObserverId, Arc<T>)>, next: ObserverId) -> bool {
    &&& forall|i: int| 0 <= i < entries.len() ==> (#[trigger] entries[i]).0 < next
    &&& forall|i: int, j: int|
        0 <= i < j < entries.len() ==> (#[trigger] entries[i]).0 < (#[trigger] entries[j]).0
}

/// What is left is what was there and has another handle.
proof fn lemma_without<T>(entries: Seq<(ObserverId, Arc<T>)>, id: ObserverId)
    ensures
        forall|entry: (ObserverId, Arc<T>)| #[trigger]
            without(entries, id).contains(entry) <==> entries.contains(entry) && entry.0 != id,
    decreases entries.len(),
{
    if entries.len() > 0 {
        let rest = entries.drop_last();
        lemma_without(rest, id);
        assert forall|entry: (ObserverId, Arc<T>)| #[trigger]
            without(entries, id).contains(entry) <==> entries.contains(entry) && entry.0 != id by {
            assert(entries =~= rest.push(entries.last()));
            if entries.contains(entry) {
                let k = choose|k: int| 0 <= k < entries.len() && entries[k] == entry;
                if k < rest.len() {
                    assert(rest[k] == entry);
                }
            }
            if rest.contains(entry) {
                let k = choose|k: int| 0 <= k < rest.len() && rest[k] == entry;
                assert(entries[k] == entry);
            }
            assert(entries[entries.len() - 1] == entries.last());
            if entries.last().0 != id {
                let left = without(rest, id);
                assert(left.push(entries.last())[left.len() as int] == entries.last());
                if left.contains(entry) {
                    let k = choose|k: int| 0 <= k < left.len() && left[k] == entry;
                    assert(left.push(entries.last())[k] == entry);
                }
                if left.push(entries.last()).contains(entry) {
                    let k = choose|k: int|
                        0 <= k < left.push(entries.last()).len() && left.push(entries.last())[k]
                            == entry;
                    if k < left.len() {
                        assert(left[k] == entry);
                    }
                }
            }
        }
    }
}

proof fn lemma_without_ascends<T>(
    entries: Seq<(ObserverId, Arc<T>)>,
    id: ObserverId,
    next: ObserverId,
)
    requires
        ascending(entries, next),
    ensures
        ascending(without(entries, id), next),
        entries.len() > 0 ==> ascending(
            without(entries.drop_last(), id),
            entries.last().0,
        ),
    decreases entries.len(),
{
    if entries.len() > 0 {
        let rest = entries.drop_last();
        let last = entries.last();
        assert(ascending(rest, last.0)) by {
            assert forall|i: int| 0 <= i < rest.len() implies (#[trigger] rest[i]).0 < last.0 by {
                assert(entries[i].0 < entries[entries.len() - 1].0);
            }
            assert forall|i: int, j: int| 0 <= i < j < rest.len() implies (#[trigger] rest[i]).0 < (
            #[trigger] rest[j]).0 by {
                assert(entries[i].0 < entries[j].0);
            }
        }
        lemma_without_ascends(rest, id, last.0);
        let left = without(rest, id);
        if last.0 == id {
            assert forall|i: int| 0 <= i < left.len() implies (#[trigger] left[i]).0 < next by {
                assert(left[i].0 < last.0);
                assert(entries[entries.len() - 1].0 < next);
            }
        } else {
            let all = left.push(last);
            assert forall|i: int| 0 <= i < all.len() implies (#[trigger] all[i]).0 < next by {
                assert(entries[entries.len() - 1].0 < next);
                if i < left.len() {
                    assert(left[i].0 < last.0);
                }
            }
        }
    }
}

/// Every registered observer is told until it unsubscribes: one that was added
/// is among those told, whoever else unsubscribes, and is no longer once its
/// own handle is removed.
pub proof fn law_registered_until_removed<T>(
    entries: Seq<(ObserverId, Arc<T>)>,
    next: ObserverId,
    observer: Arc<T>,
    other: ObserverId,
)
    requires
        ascending(entries, next),
        other != next,
    ensures
        without(entries.push((next, observer)), other).contains((next, observer)),
        without(entries.push((next, observer)), next) == entries,
        forall|entry: (ObserverId, Arc<T>)| #[trigger]
            without(entries, other).contains(entry) ==> entry.0 != other,
{
    let more = entries.push((next, observer));
    lemma_without(more, other);
    lemma_without(entries, other);
    assert(more[more.len() - 1] == (next, observer));
    assert(more.drop_last() =~= entries);
    lemma_without_nothing(entries, next);
}

proof fn lemma_without_nothing<T>(entries: Seq<(ObserverId, Arc<T>)>, id: ObserverId)
    requires
        forall|i: int| 0 <= i < entries.len() ==> (#[trigger] entries[i]).0 < id,
    ensures
        without(entries, id) == entries,
    decreases entries.len(),
{
    if entries.len() > 0 {
        let rest = entries.drop_last();
        assert forall|i: int| 0 <= i < rest.len() implies (#[trigger] rest[i]).0 < id by {
            assert(entries[i].0 < id);
        }
        lemma_without_nothing(rest, id);
        assert(entries[entries.len() - 1].0 < id);
        assert(rest.push(entries.last()) =~= entries);
    }
}

/// Removing a handle removes what is under it and nothing else, and a second
/// time nothing more.
pub proof fn law_removal_takes_one_handle<T>(
    entries: Seq<(ObserverId, Arc<T>)>,
    id: ObserverId,
    entry: (ObserverId, Arc<T>),
)
    ensures
        without(entries, id).contains(entry) <==> entries.contains(entry) && entry.0 != id,
        without(without(entries, id), id) == without(entries, id),
    decreases entries.len(),
{
    lemma_without(entries, id);
    if entries.len() > 0 {
        let rest = entries.drop_last();
        law_removal_takes_one_handle(rest, id, entry);
        if entries.last().0 != id {
            assert(without(rest, id).push(entries.last()).drop_last() =~= without(rest, id));
        }
    }
}

} // verus!
