//! Player items: what a caller gave, and what is known of the resource since.
//!
//! Durations, positions and bitrates are 64-bit floats, each held as its bit
//! pattern.

use crate::bytes::{
    be_bytes, be_value, law_a_number_writes_back, lemma_byte_powers, lemma_eight_bytes,
};
use crate::observer_set::{without, ObserverId, ObserverSet};
use crate::outside::{url_uuid, uuid_v5_url};
use crate::text::{decimal, law_decimal_is_parsed_back, push_decimal};
use std::collections::HashMap;
use std::sync::Arc;
use vstd::prelude::*;
use vstd::string::*;

verus! {

/// Identifies a track in a queue.
#[derive(Clone, Copy, Debug, PartialEq, Eq, PartialOrd, Ord, Hash, Structural)]
pub struct TrackId(pub u64);

impl TrackId {
    pub fn as_u64(&self) -> (id: u64)
        ensures
            id == self.0,
    {
        self.0
    }
}

/// Hands out track ids, each once and in ascending order.
#[derive(Debug)]
pub struct TrackIds {
    next: u64,
}

impl TrackIds {
    pub closed spec fn next_id(&self) -> u64 {
        self.next
    }

    pub fn new() -> (ids: Self)
        ensures
            ids.next_id() == 0,
    {
        TrackIds { next: 0 }
    }

    /// Whether there is an id left to hand out.
    pub fn has_next(&self) -> (left: bool)
        ensures
            left <==> self.next_id() < u64::MAX,
    {
        self.next < u64::MAX
    }

    /// An id that was not handed out before.
    pub fn allocate(&mut self) -> (id: TrackId)
        requires
            old(self).next_id() < u64::MAX,
        ensures
            id == TrackId(old(self).next_id()),
            final(self).next_id() == old(self).next_id() + 1,
    {
        let id: u64 = self.next;
        self.next = id + 1;
        TrackId(id)
    }
}

/// A buffered stretch of an item, in seconds.
#[derive(Clone, Copy, Debug, PartialEq, Eq, Structural)]
pub struct FfiTimeRange {
    pub start_seconds: u64,
    pub duration_seconds: u64,
}

#[derive(Clone, Copy, Debug, PartialEq, Eq, Structural)]
pub enum FfiItemStatus {
    Unknown,
    ReadyToPlay,
    Failed,
}

/// How the variant of a stream is chosen.
#[derive(Clone, Copy, Debug, PartialEq, Eq, Structural)]
pub enum FfiAbrMode {
    Auto,
    Manual { variant_index: u32 },
}

#[derive(Clone, Copy, Debug, PartialEq, Eq, Structural)]
pub enum FfiItemEvent {
    StatusChanged { status: FfiItemStatus },
    DurationChanged { seconds: u64 },
}

#[derive(Clone, Copy, Debug, PartialEq, Eq, Structural)]
pub struct FfiItemLoadResult {
    pub has_protected_content: bool,
    pub is_playable: bool,
}

/// Consistent snapshot of an item.
#[derive(Debug)]
pub struct FfiItemState {
    pub status: FfiItemStatus,
    pub duration_seconds: u64,
    pub error: Option<String>,
    pub loaded_ranges: Vec<FfiTimeRange>,
}

/// What a caller gives to make an item.
#[derive(Debug)]
pub struct FfiItemConfig {
    pub url: String,
    pub headers: Option<HashMap<String, String>>,
    pub audio_id: Option<TrackId>,
    pub uuid_i64: Option<i64>,
    pub preferred_peak_bitrate: u64,
    pub preferred_peak_bitrate_expensive: u64,
    pub abr_mode: Option<FfiAbrMode>,
    pub is_live_stream: bool,
}

/// Loading lifecycle of an item. A sum type so contradictory combinations are
/// unrepresentable: a duration only exists inside `Ready`, and `Ready` /
/// `Failed` are mutually exclusive.
#[derive(Clone, Copy, Debug, PartialEq, Eq, Structural)]
pub enum LoadingState {
    /// Inserted but no duration resolved yet (and not failed).
    Pending,
    /// Metadata resolved; `duration_sec` is the playable duration.
    Ready { duration_sec: u64 },
    /// Terminal failure: sticky, carries no duration.
    Failed,
}

/// The duration that a loading state reports: zero unless it is ready.
pub open spec fn duration_of(loading: LoadingState) -> u64 {
    match loading {
        LoadingState::Ready { duration_sec } => duration_sec,
        _ => 0,
    }
}

/// Whether a 64-bit float is greater than zero.
pub open spec fn is_positive(bits: u64) -> bool {
    0 < bits <= 0x7FF0_0000_0000_0000
}

/// Cached subset of item state surfaced through synchronous getters.
#[derive(Debug)]
pub struct ItemView {
    pub loading: LoadingState,
    pub has_protected_content: bool,
    pub is_live_stream: bool,
    pub error: Option<String>,
    pub loaded_ranges: Vec<FfiTimeRange>,
}

impl ItemView {
    /// Failed for `reason`, unless it already was.
    pub open spec fn failed(self, reason: String) -> ItemView {
        if self.loading == LoadingState::Failed {
            self
        } else {
            ItemView { loading: LoadingState::Failed, error: Some(reason), ..self }
        }
    }

    /// Playable, where it was pending.
    pub open spec fn readied(self) -> ItemView {
        if self.loading == LoadingState::Pending {
            ItemView { loading: LoadingState::Ready { duration_sec: 0 }, ..self }
        } else {
            self
        }
    }

    /// Playable with a duration, unless it failed.
    pub open spec fn resolved(self, duration_sec: u64) -> ItemView {
        if self.loading == LoadingState::Failed {
            self
        } else {
            ItemView { loading: LoadingState::Ready { duration_sec }, ..self }
        }
    }

    pub fn new(is_live_stream: bool) -> (view: Self)
        ensures
            view.loading == LoadingState::Pending,
            !view.has_protected_content,
            view.is_live_stream == is_live_stream,
            view.error is None,
            view.loaded_ranges@ == Seq::<FfiTimeRange>::empty(),
    {
        ItemView {
            loading: LoadingState::Pending,
            has_protected_content: false,
            is_live_stream,
            error: None,
            loaded_ranges: Vec::new(),
        }
    }

    /// Resolved duration in seconds, or zero when not yet `Ready` (pending or
    /// failed).
    pub fn duration_sec(&self) -> (bits: u64)
        ensures
            bits == duration_of(self.loading),
    {
        match self.loading {
            LoadingState::Ready { duration_sec } => duration_sec,
            LoadingState::Pending => 0,
            LoadingState::Failed => 0,
        }
    }

    /// Whether the item resolved metadata and is playable. False while pending
    /// or after a failure.
    pub fn is_ready(&self) -> (ready: bool)
        ensures
            ready == (self.loading is Ready),
    {
        match self.loading {
            LoadingState::Ready { .. } => true,
            _ => false,
        }
    }

    /// Terminal failure transition from any state. Reports whether this call
    /// performed it, so the second source of a terminal event sees `false` and
    /// stays silent instead of repeating the status/error pair.
    pub fn mark_failed(&mut self, reason: String) -> (first: bool)
        ensures
            first == (old(self).loading != LoadingState::Failed),
            *final(self) == old(self).failed(reason),
    {
        if self.loading == LoadingState::Failed {
            return false;
        }
        self.loading = LoadingState::Failed;
        self.error = Some(reason);
        true
    }

    /// Playable without a resolved duration yet: the queue reports a track
    /// loaded before the metadata layer answers.
    pub fn mark_ready(&mut self)
        ensures
            *final(self) == old(self).readied(),
    {
        if self.loading == LoadingState::Pending {
            self.loading = LoadingState::Ready { duration_sec: 0 };
        }
    }

    pub fn replace_loaded_ranges(&mut self, ranges: Vec<FfiTimeRange>)
        ensures
            *final(self) == (ItemView { loaded_ranges: ranges, ..*old(self) }),
    {
        self.loaded_ranges = ranges;
    }

    pub fn status(&self) -> (status: FfiItemStatus)
        ensures
            status == match self.loading {
                LoadingState::Pending => FfiItemStatus::Unknown,
                LoadingState::Ready { .. } => FfiItemStatus::ReadyToPlay,
                LoadingState::Failed => FfiItemStatus::Failed,
            },
    {
        match self.loading {
            LoadingState::Pending => FfiItemStatus::Unknown,
            LoadingState::Ready { .. } => FfiItemStatus::ReadyToPlay,
            LoadingState::Failed => FfiItemStatus::Failed,
        }
    }

    /// Metadata resolved with `duration_sec`. A no-op once `Failed` (failure
    /// is sticky).
    pub fn resolve_duration(&mut self, duration_sec: u64)
        ensures
            *final(self) == old(self).resolved(duration_sec),
    {
        if self.loading != LoadingState::Failed {
            self.loading = LoadingState::Ready { duration_sec };
        }
    }

    /// What an observer that subscribes late is told: the settled status, and
    /// the duration where there is one.
    pub fn prime(&self) -> (events: Vec<FfiItemEvent>)
        ensures
            events@ == primed(self.loading),
    {
        let mut events: Vec<FfiItemEvent> = Vec::new();
        match self.loading {
            LoadingState::Failed => events.push(
                FfiItemEvent::StatusChanged { status: FfiItemStatus::Failed },
            ),
            LoadingState::Ready { .. } => events.push(
                FfiItemEvent::StatusChanged { status: FfiItemStatus::ReadyToPlay },
            ),
            LoadingState::Pending => {},
        }
        let seconds: u64 = self.duration_sec();
        if 0 < seconds && seconds <= 0x7FF0_0000_0000_0000 {
            events.push(FfiItemEvent::DurationChanged { seconds });
        }
        assert(events@ =~= primed(self.loading));
        events
    }
}

/// What an observer that subscribes late is told.
pub open spec fn primed(loading: LoadingState) -> Seq<FfiItemEvent> {
    match loading {
        LoadingState::Pending => Seq::empty(),
        LoadingState::Failed => seq![
            FfiItemEvent::StatusChanged { status: FfiItemStatus::Failed },
        ],
        LoadingState::Ready { duration_sec } => if is_positive(duration_sec) {
            seq![
                FfiItemEvent::StatusChanged { status: FfiItemStatus::ReadyToPlay },
                FfiItemEvent::DurationChanged { seconds: duration_sec },
            ]
        } else {
            seq![FfiItemEvent::StatusChanged { status: FfiItemStatus::ReadyToPlay }]
        },
    }
}

/// The name that an item's handle is derived from.
pub open spec fn handle_key(url: Seq<char>, queue_id: TrackId) -> Seq<char> {
    url + ":"@ + decimal(queue_id.0 as nat)
}

/// A 64-bit number in two's complement.
pub open spec fn signed64(n: int) -> int {
    if n < 0x8000_0000_0000_0000 {
        n
    } else {
        n - 0x1_0000_0000_0000_0000
    }
}

/// The handle in the first eight bytes of a UUID, the most significant first.
pub open spec fn handle_in(uuid: Seq<u8>) -> int {
    signed64(be_value(uuid.take(8)))
}

/// The handle in the first eight bytes of a UUID.
pub fn handle_of_uuid(uuid: &[u8; 16]) -> (handle: i64)
    ensures
        handle == handle_in(uuid@),
{
    let mut n: u64 = 0;
    let mut i: usize = 0;
    assert(uuid@.take(0) =~= Seq::<u8>::empty());
    let ghost mut bound: int = 1;
    while i < 8
        invariant
            i <= 8,
            uuid@.len() == 16,
            n == be_value(uuid@.take(i as int)),
            n < bound,
            bound <= 0x1_0000_0000_0000_0000,
            i == 0 ==> bound == 1,
            i == 1 ==> bound == 0x100,
            i == 2 ==> bound == 0x1_0000,
            i == 3 ==> bound == 0x100_0000,
            i == 4 ==> bound == 0x1_0000_0000,
            i == 5 ==> bound == 0x100_0000_0000,
            i == 6 ==> bound == 0x1_0000_0000_0000,
            i == 7 ==> bound == 0x100_0000_0000_0000,
        decreases 8 - i,
    {
        assert(uuid@.take(i + 1).drop_last() =~= uuid@.take(i as int));
        n = n * 256 + uuid[i] as u64;
        i += 1;
        proof {
            bound = bound * 256;
        }
    }
    if n < 0x8000_0000_0000_0000 {
        n as i64
    } else {
        -1 - ((u64::MAX - n) as i64)
    }
}

/// The handle of an item that was given none.
pub open spec fn derived_handle(url: Seq<char>, queue_id: TrackId) -> int {
    handle_in(url_uuid(handle_key(url, queue_id)))
}

/// The handle of an item that was given none.
pub fn derived_uuid_i64(url: &str, queue_id: TrackId) -> (handle: i64)
    ensures
        handle == derived_handle(url@, queue_id),
{
    let mut key = String::from_str(url);
    key.append(":");
    push_decimal(&mut key, queue_id.as_u64());
    let uuid = uuid_v5_url(key.as_str());
    handle_of_uuid(&uuid)
}

/// Audio player item.
///
/// Carries two identifiers:
/// - [`Self::audio_id`]: caller-facing content id. When
///   [`FfiItemConfig::audio_id`] is absent it falls back to the queue id.
/// - [`Self::uuid_i64`]: caller-facing queue-item id. When
///   [`FfiItemConfig::uuid_i64`] is absent it falls back to a handle derived
///   from a name-based UUID.
pub struct AudioPlayerItem<T> {
    pub view: ItemView,
    /// Whether the item is in a queue, so that [`Self::load`] can tell "still
    /// detached" from "loaded enough to answer playable".
    pub inserted: bool,
    pub config: FfiItemConfig,
    pub observers: ObserverSet<T>,
    /// Consumed by the core queue: the routing key that lets repeated business
    /// tracks coexist.
    pub queue_id: TrackId,
    pub audio_id: TrackId,
    pub uuid_i64: i64,
}

impl<T> AudioPlayerItem<T> {
    pub open spec fn config_of(&self) -> FfiItemConfig {
        self.config
    }

    pub open spec fn queue(&self) -> TrackId {
        self.queue_id
    }

    pub open spec fn audio(&self) -> TrackId {
        self.audio_id
    }

    pub open spec fn handle(&self) -> i64 {
        self.uuid_i64
    }

    pub open spec fn observers_of(&self) -> ObserverSet<T> {
        self.observers
    }

    /// Whether nothing but the observers differs from `other`.
    pub open spec fn same_but_observers(&self, other: &AudioPlayerItem<T>) -> bool {
        &&& self.view == other.view
        &&& self.inserted == other.inserted
        &&& self.config_of() == other.config_of()
        &&& self.queue() == other.queue()
        &&& self.audio() == other.audio()
        &&& self.handle() == other.handle()
    }

    /// Create a new item with frozen preferences, under the queue id it was
    /// allocated. Caller-supplied ids are stored on the item and surfaced
    /// without becoming the core queue key.
    #[must_use]
    pub fn new(config: FfiItemConfig, queue_id: TrackId) -> (item: Self)
        ensures
            item.config_of() == config,
            item.queue() == queue_id,
            item.audio() == match config.audio_id {
                Some(id) => id,
                None => queue_id,
            },
            item.handle() == match config.uuid_i64 {
                Some(handle) => handle as int,
                None => derived_handle(config.url@, queue_id),
            },
            item.view.loading == LoadingState::Pending,
            !item.view.has_protected_content,
            item.view.is_live_stream == config.is_live_stream,
            item.view.error is None,
            item.view.loaded_ranges@.len() == 0,
            !item.inserted,
            item.observers_of().registered().len() == 0,
            item.observers_of().next() == 0,
            item.observers_of().well_formed(),
    {
        let audio_id: TrackId = match config.audio_id {
            Some(id) => id,
            None => queue_id,
        };
        let uuid_i64: i64 = match config.uuid_i64 {
            Some(handle) => handle,
            None => derived_uuid_i64(config.url.as_str(), queue_id),
        };
        AudioPlayerItem {
            view: ItemView::new(config.is_live_stream),
            inserted: false,
            config,
            observers: ObserverSet::new(),
            queue_id,
            audio_id,
            uuid_i64,
        }
    }

    /// Caller-facing content id.
    pub fn audio_id(&self) -> (id: TrackId)
        ensures
            id == self.audio(),
    {
        self.audio_id
    }

    /// Cached item duration in seconds. Zero until the underlying resource
    /// emits a duration update.
    pub fn duration_sec(&self) -> (bits: u64)
        ensures
            bits == duration_of(self.view.loading),
    {
        self.view.duration_sec()
    }

    /// Consistent snapshot of status, duration, failure reason and buffered
    /// ranges.
    pub fn state(&self) -> (state: FfiItemState)
        ensures
            state.status == match self.view.loading {
                LoadingState::Pending => FfiItemStatus::Unknown,
                LoadingState::Ready { .. } => FfiItemStatus::ReadyToPlay,
                LoadingState::Failed => FfiItemStatus::Failed,
            },
            state.duration_seconds == duration_of(self.view.loading),
            match (self.view.error, state.error) {
                (Some(reason), Some(text)) => text@ == reason@,
                (None, None) => true,
                _ => false,
            },
            state.loaded_ranges@ == self.view.loaded_ranges@,
    {
        FfiItemState {
            status: self.view.status(),
            duration_seconds: self.view.duration_sec(),
            error: match &self.view.error {
                Some(reason) => Some(reason.clone()),
                None => None,
            },
            loaded_ranges: vstd::slice::slice_to_vec(self.view.loaded_ranges.as_slice()),
        }
    }

    /// Whether this item represents a live HLS feed.
    pub fn is_live_stream(&self) -> (live: bool)
        ensures
            live == self.view.is_live_stream,
    {
        self.view.is_live_stream
    }

    /// Whether the item is playable where `within` says that a buffered range
    /// holds the position. Live streams are reported playable unconditionally.
    pub fn is_playable<F: Fn(&FfiTimeRange) -> bool>(
        &self,
        ranges: &Vec<FfiTimeRange>,
        within: F,
    ) -> (playable: bool)
        requires
            forall|range: &FfiTimeRange| #[trigger] call_requires(within, (range,)),
        ensures
            self.view.is_live_stream ==> playable,
            playable && !self.view.is_live_stream ==> exists|i: int|
                0 <= i < ranges@.len() && call_ensures(within, (&#[trigger] ranges@[i],), true),
            !playable ==> forall|i: int|
                0 <= i < ranges@.len() ==> call_ensures(within, (&#[trigger] ranges@[i],), false),
    {
        if self.view.is_live_stream {
            return true;
        }
        let mut i: usize = 0;
        while i < ranges.len()
            invariant
                i <= ranges@.len(),
                forall|range: &FfiTimeRange| #[trigger] call_requires(within, (range,)),
                forall|k: int|
                    0 <= k < i ==> call_ensures(within, (&#[trigger] ranges@[k],), false),
            decreases ranges@.len() - i,
        {
            if within(&ranges[i]) {
                return true;
            }
            i += 1;
        }
        false
    }

    /// The item's current load status. An item that is not in a queue answers
    /// that it is neither protected nor playable.
    ///
    /// `load` does not trigger an additional fetch: inserting the item already
    /// kicks off background loading.
    pub fn load(&self) -> (result: FfiItemLoadResult)
        ensures
            result == (FfiItemLoadResult {
                has_protected_content: self.inserted && self.view.has_protected_content,
                is_playable: self.inserted && self.view.loading is Ready,
            }),
    {
        if self.inserted {
            FfiItemLoadResult {
                has_protected_content: self.view.has_protected_content,
                is_playable: self.view.is_ready(),
            }
        } else {
            FfiItemLoadResult { has_protected_content: false, is_playable: false }
        }
    }

    pub fn preferred_peak_bitrate(&self) -> (bits: u64)
        ensures
            bits == self.config_of().preferred_peak_bitrate,
    {
        self.config.preferred_peak_bitrate
    }

    pub fn preferred_peak_bitrate_for_expensive_networks(&self) -> (bits: u64)
        ensures
            bits == self.config_of().preferred_peak_bitrate_expensive,
    {
        self.config.preferred_peak_bitrate_expensive
    }

    /// Private queue id used by player-level events to route back to the item.
    pub fn queue_id(&self) -> (id: TrackId)
        ensures
            id == self.queue(),
    {
        self.queue_id
    }

    /// Returns the strongly typed queue routing id.
    pub fn track_id(&self) -> (id: TrackId)
        ensures
            id == self.queue(),
    {
        self.queue_id
    }

    /// Subscribes `observer` to this item's events and returns the handle that
    /// [`Self::remove_observer`] unsubscribes it with. Every registered
    /// observer receives every event.
    pub fn add_observer(&mut self, observer: Arc<T>) -> (id: ObserverId)
        requires
            old(self).observers_of().next() < u64::MAX,
        ensures
            final(self).same_but_observers(old(self)),
            id == old(self).observers_of().next(),
            final(self).observers_of().next() == old(self).observers_of().next() + 1,
            final(self).observers_of().registered() == old(self).observers_of().registered().push(
                (id, observer),
            ),
            old(self).observers_of().well_formed() ==> final(self).observers_of().well_formed(),
    {
        self.observers.add(observer)
    }

    /// Unsubscribes the observer registered under `id`.
    pub fn remove_observer(&mut self, id: ObserverId)
        ensures
            final(self).same_but_observers(old(self)),
            final(self).observers_of().next() == old(self).observers_of().next(),
            final(self).observers_of().registered() == without(
                old(self).observers_of().registered(),
                id,
            ),
            old(self).observers_of().well_formed() ==> final(self).observers_of().well_formed(),
    {
        self.observers.remove(id);
    }

    /// Who is told of an event: everyone who is registered now.
    pub fn observers(&self) -> (observers: Vec<Arc<T>>)
        ensures
            observers@.len() == self.observers_of().registered().len(),
            forall|i: int|
                0 <= i < observers@.len() ==> #[trigger] observers@[i]
                    == self.observers_of().registered()[i].1,
    {
        self.observers.snapshot()
    }

    /// Audio source string: either a network URL or an absolute local path, as
    /// supplied via [`FfiItemConfig::url`].
    pub fn url(&self) -> (url: String)
        ensures
            url@ == self.config_of().url@,
    {
        self.config.url.clone()
    }

    /// Caller-facing queue-item uuid.
    pub fn uuid_i64(&self) -> (handle: i64)
        ensures
            handle == self.handle(),
    {
        self.uuid_i64
    }

    pub fn abr_mode(&self) -> (mode: Option<FfiAbrMode>)
        ensures
            mode == self.config_of().abr_mode,
    {
        self.config.abr_mode
    }

    pub fn headers(&self) -> (headers: &Option<HashMap<String, String>>)
        ensures
            *headers == self.config_of().headers,
    {
        &self.config.headers
    }
}

/// Failure is sticky: once an item has failed, no transition changes it any
/// more, and it has no duration.
pub proof fn law_failure_is_sticky(
    view: ItemView,
    reason: String,
    other: String,
    duration_sec: u64,
)
    ensures
        view.failed(reason).resolved(duration_sec) == view.failed(reason),
        view.failed(reason).readied() == view.failed(reason),
        view.failed(reason).failed(other) == view.failed(reason),
        duration_of(view.failed(reason).loading) == 0,
{
}

/// No transition touches the live flag, the protection flag or the buffered
/// ranges.
pub proof fn law_transitions_keep_the_rest(view: ItemView, reason: String, duration_sec: u64)
    ensures
        view.failed(reason).is_live_stream == view.is_live_stream,
        view.readied().is_live_stream == view.is_live_stream,
        view.resolved(duration_sec).is_live_stream == view.is_live_stream,
        view.failed(reason).has_protected_content == view.has_protected_content,
        view.readied().has_protected_content == view.has_protected_content,
        view.resolved(duration_sec).has_protected_content == view.has_protected_content,
        view.failed(reason).loaded_ranges == view.loaded_ranges,
        view.readied().loaded_ranges == view.loaded_ranges,
        view.resolved(duration_sec).loaded_ranges == view.loaded_ranges,
{
}

/// An item is ready exactly with the duration it was last given: a later one
/// replaces it, and being reported ready does not touch it. One that failed
/// keeps the reason it failed for first.
pub proof fn law_an_item_holds_its_last_duration(
    view: ItemView,
    reason: String,
    other: String,
    first: u64,
    second: u64,
)
    ensures
        view.loading != LoadingState::Failed ==> {
            &&& view.resolved(first).loading == (LoadingState::Ready { duration_sec: first })
            &&& duration_of(view.resolved(first).loading) == first
            &&& view.resolved(first).resolved(second) == view.resolved(second)
            &&& view.resolved(first).readied() == view.resolved(first)
            &&& view.failed(reason).loading == LoadingState::Failed
            &&& view.failed(reason).error == Some(reason)
            &&& view.failed(reason).failed(other).error == Some(reason)
            &&& view.readied().loading is Ready
            &&& view.resolved(first).error == view.error
            &&& view.readied().error == view.error
        },
        view.loading == LoadingState::Pending ==> duration_of(view.readied().loading) == 0
            && duration_of(view.loading) == 0,
        view.readied().readied() == view.readied(),
{
}

/// Whoever subscribes late is told the status once it is settled, first and
/// once, and behind it the duration where there is one above zero.
pub proof fn law_a_late_observer_is_told_what_is_settled(
    loading: LoadingState,
    status: FfiItemStatus,
    seconds: u64,
)
    ensures
        primed(loading).len() == 0 <==> loading == LoadingState::Pending,
        primed(loading).len() > 0 ==> primed(loading)[0] is StatusChanged,
        primed(loading).contains(FfiItemEvent::StatusChanged { status }) <==> {
            ||| loading is Ready && status == FfiItemStatus::ReadyToPlay
            ||| loading is Failed && status == FfiItemStatus::Failed
        },
        primed(loading).contains(FfiItemEvent::DurationChanged { seconds }) <==> loading is Ready
            && seconds == duration_of(loading) && 0 < seconds <= 0x7FF0_0000_0000_0000,
        primed(loading).len() <= 2,
{
    let events = primed(loading);
    match loading {
        LoadingState::Pending => {},
        LoadingState::Failed => {
            assert(events[0] == (FfiItemEvent::StatusChanged { status: FfiItemStatus::Failed }));
            assert(events.len() == 1);
        },
        LoadingState::Ready { duration_sec } => {
            assert(events[0] == (FfiItemEvent::StatusChanged {
                status: FfiItemStatus::ReadyToPlay,
            }));
            if is_positive(duration_sec) {
                assert(events[1] == (FfiItemEvent::DurationChanged { seconds: duration_sec }));
                assert(events.len() == 2);
            } else {
                assert(events.len() == 1);
            }
        },
    }
}

/// A handle is the first eight bytes of its UUID as a signed number: it has a
/// handle's range, and its bytes are those eight.
#[verifier::rlimit(60)]
pub proof fn law_a_handle_is_the_first_eight_bytes(uuid: Seq<u8>)
    requires
        uuid.len() == 16,
    ensures
        i64::MIN <= handle_in(uuid) <= i64::MAX,
        be_bytes(
            if handle_in(uuid) < 0 {
                handle_in(uuid) + 0x1_0000_0000_0000_0000
            } else {
                handle_in(uuid)
            },
            8,
        ) == uuid.take(8),
        handle_in(uuid) < 0 <==> uuid[0] >= 0x80,
{
    let first = uuid.take(8);
    law_a_number_writes_back(first);
    lemma_byte_powers();
    let n = be_value(first);
    assert(be_bytes(n, 8)[0] == uuid[0]);
    lemma_eight_bytes(n);
    assert(be_bytes(n, 8)[0] == (n / 0x100_0000_0000_0000) as u8);
}

/// The names that two items of one URL get their handles from differ, unless
/// they are queued under the same id.
pub proof fn law_every_queue_id_has_its_own_name(url: Seq<char>, id: TrackId, other: TrackId)
    requires
        handle_key(url, id) == handle_key(url, other),
    ensures
        id == other,
{
    reveal_strlit(":");
    let a = decimal(id.0 as nat);
    let b = decimal(other.0 as nat);
    let key = handle_key(url, id);
    assert(key.skip(url.len() + 1int) =~= a);
    assert(key.skip(url.len() + 1int) =~= b);
    law_decimal_is_parsed_back(id.0 as nat, u64::MAX as int);
    law_decimal_is_parsed_back(other.0 as nat, u64::MAX as int);
}

} // verus!
