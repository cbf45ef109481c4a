//! Selecting an item in a player's queue.

use crate::item::TrackId;
use vstd::prelude::*;

verus! {

/// How playback goes over to a selected item.
#[derive(Clone, Copy, Debug, PartialEq, Eq, Structural)]
pub enum FfiTransition {
    /// An immediate cut.
    Cut,
    /// The player's configured duration.
    Crossfade,
}

#[derive(Clone, Copy, Debug, PartialEq, Eq, Structural)]
pub enum FfiError {
    InvalidArgument,
    NotReady,
    Internal,
}

/// A track in a queue, and whether its resource is loaded.
#[derive(Clone, Copy, Debug, PartialEq, Eq, Structural)]
pub struct QueuedTrack {
    pub id: TrackId,
    pub loaded: bool,
}

/// The queue that plays. Of its answer it promises nothing: it says whether it
/// selected the track.
pub trait Queue {
    /// What it was asked to select so far, and how.
    closed spec fn asked(&self) -> Seq<(TrackId, FfiTransition)> {
        arbitrary()
    }

    /// What it answered each time.
    closed spec fn answered(&self) -> Seq<bool> {
        arbitrary()
    }

    fn select(&mut self, id: TrackId, transition: FfiTransition) -> (selected: bool)
        ensures
            final(self).asked() == old(self).asked().push((id, transition)),
            final(self).answered() == old(self).answered().push(selected),
    ;
}

/// The tracks of a player, in the order they are queued.
#[derive(Debug)]
pub struct AudioPlayer {
    pub tracks: Vec<QueuedTrack>,
}

/// What a selection by index comes to before the queue is asked.
pub open spec fn target_at(tracks: Seq<QueuedTrack>, index: int) -> Result<TrackId, FfiError> {
    if index >= tracks.len() {
        Err(FfiError::InvalidArgument)
    } else if !tracks[index].loaded {
        Err(FfiError::NotReady)
    } else {
        Ok(tracks[index].id)
    }
}

/// Where a track first stands in the queue, or its length where it does not.
pub open spec fn place_of(tracks: Seq<QueuedTrack>, id: TrackId) -> int
    decreases tracks.len(),
{
    if tracks.len() == 0 || tracks[0].id == id {
        0
    } else {
        1 + place_of(tracks.skip(1), id)
    }
}

/// What a selection of a track comes to before the queue is asked. A track
/// that is not queued is for the queue to refuse.
pub open spec fn target_of(tracks: Seq<QueuedTrack>, id: TrackId) -> Result<TrackId, FfiError> {
    let at = place_of(tracks, id);
    if at < tracks.len() && !tracks[at].loaded {
        Err(FfiError::NotReady)
    } else {
        Ok(id)
    }
}

/// Whether the queue was asked for the target of a selection, once and with that
/// transition, and is left alone where there is none; and whether `result` is
/// what its answer made of it.
pub open spec fn is_selection<Q: Queue>(
    target: Result<TrackId, FfiError>,
    transition: FfiTransition,
    before: Q,
    after: Q,
    result: Result<(), FfiError>,
) -> bool {
    match target {
        Ok(id) => {
            &&& after.asked() == before.asked().push((id, transition))
            &&& after.answered() == before.answered().push(after.answered().last())
            &&& result == settled(target, after.answered().last())
        },
        Err(error) => {
            &&& after == before
            &&& result == Err::<(), FfiError>(error)
        },
    }
}

/// What the queue's answer makes of a selection.
pub open spec fn settled(target: Result<TrackId, FfiError>, selected: bool) -> Result<(), FfiError> {
    match target {
        Err(error) => Err(error),
        Ok(_) => if selected {
            Ok(())
        } else {
            Err(FfiError::Internal)
        },
    }
}

/// What the queue's answer makes of a selection.
pub fn settle(target: Result<TrackId, FfiError>, selected: bool) -> (result: Result<(), FfiError>)
    ensures
        result == settled(target, selected),
{
    match target {
        Err(error) => Err(error),
        Ok(_) => if selected {
            Ok(())
        } else {
            Err(FfiError::Internal)
        },
    }
}

impl AudioPlayer {
    /// The track that `index` stands for, once it can be selected.
    pub fn target_at_index(&self, index: u32) -> (target: Result<TrackId, FfiError>)
        ensures
            target == target_at(self.tracks@, index as int),
    {
        let index: usize = index as usize;
        if index >= self.tracks.len() {
            return Err(FfiError::InvalidArgument);
        }
        if !self.tracks[index].loaded {
            return Err(FfiError::NotReady);
        }
        Ok(self.tracks[index].id)
    }

    /// The track itself, once it can be selected.
    pub fn target_of_track(&self, id: TrackId) -> (target: Result<TrackId, FfiError>)
        ensures
            target == target_of(self.tracks@, id),
    {
        let mut i: usize = 0;
        assert(self.tracks@.skip(0) =~= self.tracks@);
        while i < self.tracks.len()
            invariant
                i <= self.tracks@.len(),
                place_of(self.tracks@, id) == i + place_of(self.tracks@.skip(i as int), id),
            decreases self.tracks@.len() - i,
        {
            assert(self.tracks@.skip(i as int).skip(1) =~= self.tracks@.skip(i + 1));
            if self.tracks[i].id.as_u64() == id.as_u64() {
                if !self.tracks[i].loaded {
                    return Err(FfiError::NotReady);
                }
                return Ok(id);
            }
            i += 1;
        }
        Ok(id)
    }

    /// Select an item in the queue with the given transition.
    ///
    /// [`FfiTransition::Cut`] performs an immediate cut (tap a track in a
    /// list). [`FfiTransition::Crossfade`] uses the player's configured
    /// duration (typical for Next/Prev buttons). Play state is not changed
    /// here: the engine continues playing if it was, pauses if it was.
    ///
    /// # Errors
    ///
    /// Returns [`FfiError::InvalidArgument`] if `index` is out of range,
    /// [`FfiError::NotReady`] if the track's resource is not yet loaded, or
    /// [`FfiError::Internal`] if the underlying queue fails to select.
    pub fn select_item<Q: Queue>(
        &self,
        queue: &mut Q,
        index: u32,
        transition: FfiTransition,
    ) -> (result: Result<(), FfiError>)
        ensures
            is_selection(
                target_at(self.tracks@, index as int),
                transition,
                *old(queue),
                *final(queue),
                result,
            ),
    {
        let target = self.target_at_index(index);
        let selected: bool = match target {
            Ok(id) => queue.select(id, transition),
            Err(_) => false,
        };
        settle(target, selected)
    }

    /// Select the track `id`, applying `transition`. Prefer this to
    /// [`Self::select_item`]: an index only means something against the
    /// queue's own order.
    ///
    /// # Errors
    ///
    /// Returns [`FfiError::NotReady`] if the track's resource is not yet
    /// loaded, or [`FfiError::Internal`] if the underlying queue fails.
    pub fn select<Q: Queue>(
        &self,
        queue: &mut Q,
        id: TrackId,
        transition: FfiTransition,
    ) -> (result: Result<(), FfiError>)
        ensures
            is_selection(
                target_of(self.tracks@, id),
                transition,
                *old(queue),
                *final(queue),
                result,
            ),
    {
        let target = self.target_of_track(id);
        let selected: bool = match target {
            Ok(id) => queue.select(id, transition),
            Err(_) => false,
        };
        settle(target, selected)
    }
}

/// An index that is out of range, or a track that is not loaded, is refused
/// whatever the queue would have answered.
pub proof fn law_the_queue_decides_only_what_is_ready(
    tracks: Seq<QueuedTrack>,
    index: int,
    selected: bool,
)
    requires
        index >= 0,
    ensures
        index >= tracks.len() <==> settled(target_at(tracks, index), selected) == Err::<(), FfiError>(
            FfiError::InvalidArgument,
        ),
        index < tracks.len() && !tracks[index].loaded <==> settled(
            target_at(tracks, index),
            selected,
        ) == Err::<(), FfiError>(FfiError::NotReady),
        settled(target_at(tracks, index), selected) is Ok ==> selected,
{
}

/// A track is found where it first stands, and nowhere where it is not queued.
pub proof fn law_a_track_is_found_where_it_first_stands(tracks: Seq<QueuedTrack>, id: TrackId)
    ensures
        0 <= place_of(tracks, id) <= tracks.len(),
        place_of(tracks, id) < tracks.len() ==> tracks[place_of(tracks, id)].id == id,
        forall|i: int| 0 <= i < place_of(tracks, id) ==> (#[trigger] tracks[i]).id != id,
    decreases tracks.len(),
{
    if tracks.len() > 0 && tracks[0].id != id {
        let rest = tracks.skip(1);
        law_a_track_is_found_where_it_first_stands(rest, id);
        assert forall|i: int| 0 <= i < place_of(tracks, id) implies (#[trigger] tracks[i]).id != id by {
            if i > 0 {
                assert(rest[i - 1] == tracks[i]);
            }
        }
        if place_of(tracks, id) < tracks.len() {
            assert(rest[place_of(rest, id)] == tracks[place_of(tracks, id)]);
        }
    }
}

/// A track that is asked for is refused only where it is queued and not loaded
/// where it first stands; anything else is the queue's to decide, for that track.
pub proof fn law_only_an_unloaded_track_is_not_ready(
    tracks: Seq<QueuedTrack>,
    id: TrackId,
    at: int,
)
    requires
        0 <= at <= tracks.len(),
        forall|i: int| 0 <= i < at ==> (#[trigger] tracks[i]).id != id,
        at < tracks.len() ==> tracks[at].id == id,
    ensures
        at < tracks.len() && !tracks[at].loaded ==> target_of(tracks, id) == Err::<
            TrackId,
            FfiError,
        >(FfiError::NotReady),
        at == tracks.len() || tracks[at].loaded ==> target_of(tracks, id) == Ok::<
            TrackId,
            FfiError,
        >(id),
{
    law_a_track_is_found_where_it_first_stands(tracks, id);
    let place = place_of(tracks, id);
    if place < at {
        assert(tracks[place].id != id);
    }
    if at < place {
        assert(tracks[at].id != id);
    }
}

/// A selection by index and one by the track at that index come to the same,
/// where the track stands there first.
pub proof fn law_index_and_track_select_alike(tracks: Seq<QueuedTrack>, index: int)
    requires
        0 <= index < tracks.len(),
        forall|i: int| 0 <= i < index ==> (#[trigger] tracks[i]).id != tracks[index].id,
    ensures
        target_at(tracks, index) == target_of(tracks, tracks[index].id),
{
    law_only_an_unloaded_track_is_not_ready(tracks, tracks[index].id, index);
}

/// A selection asks the queue once, for its target and with its transition, or
/// not at all where there is none; and it succeeds exactly when the queue said
/// so.
pub proof fn law_a_selection_asks_the_queue_once<Q: Queue>(
    target: Result<TrackId, FfiError>,
    transition: FfiTransition,
    before: Q,
    after: Q,
    result: Result<(), FfiError>,
)
    requires
        is_selection(target, transition, before, after, result),
    ensures
        target is Err ==> after == before && result is Err && result->Err_0 == target->Err_0,
        target is Ok ==> {
            &&& after.asked().len() == before.asked().len() + 1
            &&& after.asked().last() == (target->Ok_0, transition)
            &&& result is Ok <==> after.answered().last()
            &&& result is Err ==> result->Err_0 == FfiError::Internal
        },
{
}

} // verus!
