//! Where an analysis pass decodes next, and the length it plans against.

use crate::coverage::{covered, holds, is_gap, Coverage, FrameRange};
use crate::time::{frames_for_duration, frames_in, law_as_many_frames_as_fit, Duration};
use std::collections::BTreeSet;
use vstd::prelude::*;

verus! {

broadcast use vstd::std_specs::btree::group_btree_axioms;

/// The middle of a range, which is where a subdivision splits it.
pub open spec fn middle_of(range: FrameRange) -> int {
    if range.start + range.frames / 2 <= u64::MAX {
        range.start + range.frames / 2
    } else {
        u64::MAX as int
    }
}

/// The middle of a range, which is where a subdivision splits it.
pub fn middle(range: FrameRange) -> (at: u64)
    ensures
        at == middle_of(range),
{
    range.start.saturating_add(range.frames / 2)
}

/// Where an analysis pass decodes next, chosen from what it has not covered.
///
/// One rule: the middle of the largest uncovered range. On a track nothing has
/// covered that is binary subdivision; on a mostly covered one it is hole
/// refill. Nothing has to detect which of the two it is in.
pub struct Schedule {
    /// Positions that produced no new coverage. A seek that snapped backwards
    /// into covered audio, or landed past the end, leaves the gap it was meant
    /// to fill exactly as it was, so without this the same position would be
    /// chosen forever.
    barren: BTreeSet<u64>,
}

/// Whether `gap` is open below `extent` and its middle has not proved barren.
pub open spec fn eligible(
    runs: Seq<FrameRange>,
    extent: u64,
    barren: Set<u64>,
    gap: FrameRange,
) -> bool {
    &&& is_gap(runs, extent, gap)
    &&& !barren.contains(middle_of(gap) as u64)
}

/// Whether a schedule takes `gap` before `other`: the wider one goes first,
/// and of two equally wide ones the earlier.
pub open spec fn goes_before(gap: FrameRange, other: FrameRange) -> bool {
    ||| other.frames < gap.frames
    ||| other.frames == gap.frames && gap.start <= other.start
}

/// Whether `next` is what the schedule answers for a known extent.
pub open spec fn is_next(
    runs: Seq<FrameRange>,
    extent: u64,
    barren: Set<u64>,
    next: Option<u64>,
) -> bool {
    match next {
        Some(at) => exists|gap: FrameRange|
            {
                &&& #[trigger] eligible(runs, extent, barren, gap)
                &&& at == middle_of(gap)
                &&& forall|other: FrameRange|
                    #[trigger] eligible(runs, extent, barren, other) ==> goes_before(gap, other)
            },
        None => forall|gap: FrameRange| !#[trigger] eligible(runs, extent, barren, gap),
    }
}

/// What the schedule answers: nothing without an extent to plan against.
pub open spec fn next_position(
    runs: Seq<FrameRange>,
    extent: Option<u64>,
    barren: Set<u64>,
) -> Option<u64> {
    match extent {
        Some(extent) => choose|next: Option<u64>| is_next(runs, extent, barren, next),
        None => None,
    }
}

impl Schedule {
    /// The positions that produced no new coverage.
    pub closed spec fn barren_positions(&self) -> Set<u64> {
        self.barren@
    }

    pub fn new() -> (schedule: Self)
        ensures
            schedule.barren_positions() == Set::<u64>::empty(),
    {
        Schedule { barren: BTreeSet::new() }
    }

    /// The next source position to decode from, or `None` when nothing is left
    /// to schedule: no extent to plan against, an extent already covered, or
    /// every remaining gap already proved unreachable.
    pub fn next(&self, coverage: &Coverage, extent: Option<u64>) -> (next: Option<u64>)
        ensures
            next == next_position(coverage.runs(), extent, self.barren_positions()),
            extent matches Some(extent) ==> is_next(
                coverage.runs(),
                extent,
                self.barren_positions(),
                next,
            ),
            next matches Some(at) ==> {
                &&& !self.barren_positions().contains(at)
                &&& !coverage.covers(at as int)
                &&& at < extent->0
            },
    {
        let extent: u64 = match extent {
            Some(extent) => extent,
            None => return None,
        };
        let gaps = coverage.gaps(extent);
        let ghost runs = coverage.runs();
        let ghost barren = self.barren@;
        let mut widest: Option<FrameRange> = None;
        let mut i: usize = 0;
        while i < gaps.len()
            invariant
                i <= gaps@.len(),
                barren == self.barren@,
                forall|k: int| 0 <= k < gaps@.len() ==> is_gap(runs, extent, #[trigger] gaps@[k]),
                forall|k: int, l: int|
                    0 <= k < l < gaps@.len() ==> (#[trigger] gaps@[k]).end_frame() < (
                    #[trigger] gaps@[l]).start,
                match widest {
                    Some(held) => {
                        &&& eligible(runs, extent, barren, held)
                        &&& exists|k: int| 0 <= k < i && #[trigger] gaps@[k] == held
                        &&& forall|k: int|
                            0 <= k < i && eligible(runs, extent, barren, #[trigger] gaps@[k])
                                ==> goes_before(held, gaps@[k])
                    },
                    None => forall|k: int|
                        0 <= k < i ==> !eligible(runs, extent, barren, #[trigger] gaps@[k]),
                },
            decreases gaps@.len() - i,
        {
            let gap = gaps[i];
            let at: u64 = middle(gap);
            let skip: bool = self.barren.contains(&at);
            if !skip {
                let wider: bool = match widest {
                    Some(held) => gap.frames() > held.frames(),
                    None => true,
                };
                if wider {
                    widest = Some(gap);
                }
            }
            i += 1;
        }
        proof {
            assert forall|gap: FrameRange| #[trigger]
                eligible(runs, extent, barren, gap) implies exists|k: int|
                0 <= k < gaps@.len() && gaps@[k] == gap by {
                assert(gaps@.contains(gap));
            }
        }
        let next: Option<u64> = match widest {
            Some(gap) => {
                proof {
                    assert(gap.has(middle_of(gap)));
                }
                Some(middle(gap))
            },
            None => None,
        };
        proof {
            assert(is_next(runs, extent, barren, next));
            law_one_next(
                runs,
                extent,
                barren,
                next,
                next_position(runs, Some(extent), barren),
            );
        }
        next
    }

    /// Record a position that added no coverage, so it is never chosen again.
    pub fn barren(&mut self, at: u64)
        ensures
            final(self).barren_positions() == old(self).barren_positions().insert(at),
    {
        self.barren.insert(at);
    }
}

impl Default for Schedule {
    fn default() -> (schedule: Self)
        ensures
            schedule.barren_positions() == Set::<u64>::empty(),
    {
        Schedule::new()
    }
}

/// The source length an analysis pass plans against.
///
/// Two facts from the same reader: the length it reports, which the decode
/// path refines upward as it learns more, and the length it proved it can
/// reach, which end of stream and a seek past the end refine downward. The
/// schedule plans against the lower of the two, so a duration that is an
/// estimate cannot leave a tail no seek can reach.
#[derive(Clone, Copy, Debug, PartialEq, Eq, Structural)]
pub struct Extent {
    pub reported: Option<u64>,
    pub reachable: Option<u64>,
}

impl Extent {
    /// Nothing reported, nothing proved.
    pub open spec fn unknown() -> Extent {
        Extent { reported: None, reachable: None }
    }

    /// The lower of what is reported and what is proved, once a length is
    /// reported.
    pub open spec fn planned(self) -> Option<u64> {
        match (self.reported, self.reachable) {
            (Some(reported), Some(limit)) => Some(
                if limit < reported {
                    limit
                } else {
                    reported
                },
            ),
            (reported, _) => reported,
        }
    }

    /// The extent once the source has reported `frames`.
    pub open spec fn after_report(self, frames: Option<u64>) -> Extent {
        Extent {
            reported: match (self.reported, frames) {
                (Some(held), Some(frames)) => Some(
                    if held < frames {
                        frames
                    } else {
                        held
                    },
                ),
                (None, frames) => frames,
                (held, None) => held,
            },
            ..self
        }
    }

    /// The extent once the source has proved that nothing is at or past
    /// `frame`.
    pub open spec fn after_unreachable(self, frame: u64) -> Extent {
        Extent {
            reachable: match self.reachable {
                Some(limit) => Some(
                    if limit < frame {
                        limit
                    } else {
                        frame
                    },
                ),
                None => Some(frame),
            },
            ..self
        }
    }

    pub fn new() -> (extent: Self)
        ensures
            extent == Extent::unknown(),
    {
        Extent { reported: None, reachable: None }
    }

    /// What the schedule plans against, once the source names a length.
    pub fn frames(&self) -> (frames: Option<u64>)
        ensures
            frames == self.planned(),
    {
        match self.reported {
            Some(reported) => match self.reachable {
                Some(limit) => Some(
                    if limit < reported {
                        limit
                    } else {
                        reported
                    },
                ),
                None => Some(reported),
            },
            None => None,
        }
    }

    /// Take the length the source reports, keeping the largest seen.
    pub fn report(&mut self, duration: Option<Duration>, rate: u32)
        ensures
            *final(self) == old(self).after_report(reported_frames(duration, rate)),
    {
        let frames: Option<u64> = extent_frames(duration, rate);
        self.reported = match (self.reported, frames) {
            (Some(held), Some(frames)) => Some(
                if held < frames {
                    frames
                } else {
                    held
                },
            ),
            (None, frames) => frames,
            (held, None) => held,
        };
    }

    /// Record that the source has nothing at or past `frame`.
    pub fn unreachable(&mut self, frame: u64)
        ensures
            *final(self) == old(self).after_unreachable(frame),
    {
        self.reachable = match self.reachable {
            Some(limit) => Some(
                if limit < frame {
                    limit
                } else {
                    frame
                },
            ),
            None => Some(frame),
        };
    }
}

impl Default for Extent {
    fn default() -> (extent: Self)
        ensures
            extent == Extent::unknown(),
    {
        Extent::new()
    }
}

/// The length in frames that a reported duration names: none for a source that
/// reports no duration, or one too short for a single frame, or one too long
/// for the frame axis.
pub open spec fn reported_frames(duration: Option<Duration>, rate: u32) -> Option<u64> {
    match duration {
        Some(duration) => {
            let frames = frames_in(rate as int, duration.nanoseconds());
            if 0 < frames <= u64::MAX {
                Some(frames as u64)
            } else {
                None
            }
        },
        None => None,
    }
}

/// What the source says its length is, in frames on the pass's axis. A source
/// that reports no duration, or a zero one, gives nothing to subdivide.
pub fn extent_frames(duration: Option<Duration>, rate: u32) -> (frames: Option<u64>)
    ensures
        frames == reported_frames(duration, rate),
{
    match duration {
        Some(duration) => {
            let frames: u128 = frames_for_duration(rate, duration);
            if 0 < frames && frames <= u64::MAX as u128 {
                Some(frames as u64)
            } else {
                None
            }
        },
        None => None,
    }
}

/// There is one answer: what has been covered, what has proved barren and how
/// far the source reaches decide it.
pub proof fn law_one_next(
    runs: Seq<FrameRange>,
    extent: u64,
    barren: Set<u64>,
    a: Option<u64>,
    b: Option<u64>,
)
    requires
        is_next(runs, extent, barren, a),
        is_next(runs, extent, barren, b),
    ensures
        a == b,
{
    if a is Some && b is Some {
        let first = choose|gap: FrameRange|
            {
                &&& #[trigger] eligible(runs, extent, barren, gap)
                &&& a->0 == middle_of(gap)
                &&& forall|other: FrameRange|
                    #[trigger] eligible(runs, extent, barren, other) ==> goes_before(gap, other)
            };
        let second = choose|gap: FrameRange|
            {
                &&& #[trigger] eligible(runs, extent, barren, gap)
                &&& b->0 == middle_of(gap)
                &&& forall|other: FrameRange|
                    #[trigger] eligible(runs, extent, barren, other) ==> goes_before(gap, other)
            };
        assert(goes_before(first, second) && goes_before(second, first));
        assert(first == second);
    }
}

/// A track that nothing has covered is split in its middle.
pub proof fn law_untouched_track_splits_in_the_middle(extent: u64)
    requires
        extent > 0,
    ensures
        next_position(Seq::empty(), Some(extent), Set::empty()) == Some((extent / 2) as u64),
{
    let runs = Seq::<FrameRange>::empty();
    let barren = Set::<u64>::empty();
    let whole = FrameRange { start: 0, frames: extent };
    let at = Some((extent / 2) as u64);
    assert(eligible(runs, extent, barren, whole));
    assert forall|other: FrameRange| #[trigger]
        eligible(runs, extent, barren, other) implies goes_before(whole, other) by {
        assert(!covered(runs, other.start - 1));
    }
    assert(is_next(runs, extent, barren, at));
    law_one_next(runs, extent, barren, at, next_position(runs, Some(extent), barren));
}

/// A covered extent leaves nothing to schedule.
pub proof fn law_covered_extent_schedules_nothing(
    runs: Seq<FrameRange>,
    extent: u64,
    barren: Set<u64>,
)
    requires
        holds(runs, FrameRange { start: 0, frames: extent }),
    ensures
        next_position(runs, Some(extent), barren) is None,
{
    let whole = FrameRange { start: 0, frames: extent };
    assert forall|gap: FrameRange| !#[trigger] eligible(runs, extent, barren, gap) by {
        if is_gap(runs, extent, gap) {
            assert(gap.has(gap.start as int));
            assert(whole.has(gap.start as int));
        }
    }
    assert(is_next(runs, extent, barren, None));
    law_one_next(runs, extent, barren, None, next_position(runs, Some(extent), barren));
}

/// Of the gaps that are eligible, one goes before all others.
proof fn lemma_widest_gap(
    runs: Seq<FrameRange>,
    extent: u64,
    barren: Set<u64>,
    gap: FrameRange,
) -> (widest: FrameRange)
    requires
        eligible(runs, extent, barren, gap),
    ensures
        eligible(runs, extent, barren, widest),
        forall|other: FrameRange|
            #[trigger] eligible(runs, extent, barren, other) ==> goes_before(widest, other),
    decreases u64::MAX - gap.frames, gap.start,
{
    if forall|other: FrameRange|
        #[trigger] eligible(runs, extent, barren, other) ==> goes_before(gap, other) {
        gap
    } else {
        let other = choose|other: FrameRange|
            #[trigger] eligible(runs, extent, barren, other) && !goes_before(gap, other);
        lemma_widest_gap(runs, extent, barren, other)
    }
}

/// The schedule always has its answer, and a position it names is below the
/// extent, not covered, and has not proved barren.
pub proof fn law_next_is_new(runs: Seq<FrameRange>, extent: u64, barren: Set<u64>)
    ensures
        is_next(runs, extent, barren, next_position(runs, Some(extent), barren)),
        next_position(runs, Some(extent), barren) matches Some(at) ==> {
            &&& at < extent
            &&& !covered(runs, at as int)
            &&& !barren.contains(at)
        },
{
    let next: Option<u64> = if exists|gap: FrameRange| eligible(runs, extent, barren, gap) {
        let gap = choose|gap: FrameRange| eligible(runs, extent, barren, gap);
        let widest = lemma_widest_gap(runs, extent, barren, gap);
        Some(middle_of(widest) as u64)
    } else {
        None
    };
    assert(is_next(runs, extent, barren, next));
    law_one_next(runs, extent, barren, next, next_position(runs, Some(extent), barren));
    if next is Some {
        let widest = choose|gap: FrameRange|
            #[trigger] eligible(runs, extent, barren, gap) && next->0 == middle_of(gap);
        assert(widest.has(middle_of(widest)));
    }
}

/// What a source proved it can reach bounds every length it goes on to claim.
pub proof fn law_proved_bounds_claims(extent: Extent, frame: u64, claim: Option<u64>)
    ensures
        extent.after_unreachable(frame).after_report(claim).planned() matches Some(planned)
            ==> planned <= frame,
        extent.after_report(claim).after_unreachable(frame) == extent.after_unreachable(
            frame,
        ).after_report(claim),
{
}

/// A report never shortens the planned length, and a missing one changes
/// nothing.
pub proof fn law_reports_only_grow(extent: Extent, claim: Option<u64>)
    ensures
        extent.after_report(None) == extent,
        extent.planned() matches Some(planned) ==> (extent.after_report(claim).planned() matches Some(
            grown,
        ) && planned <= grown),
{
}

/// What an extent can be told.
pub enum ExtentCall {
    /// The source reports this length, at this rate.
    Report(Option<Duration>, u32),
    /// The source has nothing at or past this frame.
    Unreachable(u64),
}

/// The extent that was told these things in turn, from one that knew nothing.
pub open spec fn extent_after(calls: Seq<ExtentCall>) -> Extent
    decreases calls.len(),
{
    if calls.len() == 0 {
        Extent::unknown()
    } else {
        let before = extent_after(calls.drop_last());
        match calls.last() {
            ExtentCall::Report(duration, rate) => before.after_report(
                reported_frames(duration, rate),
            ),
            ExtentCall::Unreachable(frame) => before.after_unreachable(frame),
        }
    }
}

/// Whether a call reports that many frames.
pub open spec fn reports(call: ExtentCall, frames: u64) -> bool {
    call matches ExtentCall::Report(duration, rate) && reported_frames(duration, rate) == Some(
        frames,
    )
}

/// Whether a call proves that bound.
pub open spec fn proves(call: ExtentCall, frame: u64) -> bool {
    call == ExtentCall::Unreachable(frame)
}

/// Whether `frames` is the largest length among the reports.
pub open spec fn is_largest_report(calls: Seq<ExtentCall>, frames: u64) -> bool {
    &&& exists|i: int| 0 <= i < calls.len() && reports(#[trigger] calls[i], frames)
    &&& forall|i: int, other: u64|
        0 <= i < calls.len() && #[trigger] reports(calls[i], other) ==> other <= frames
}

/// Whether `frame` is the smallest of the proved bounds.
pub open spec fn is_smallest_bound(calls: Seq<ExtentCall>, frame: u64) -> bool {
    &&& exists|i: int| 0 <= i < calls.len() && proves(#[trigger] calls[i], frame)
    &&& forall|i: int, other: u64|
        0 <= i < calls.len() && #[trigger] proves(calls[i], other) ==> frame <= other
}

/// Whatever an extent was told and in whatever order, it plans against the lower
/// of the largest length reported and the smallest bound proved: against nothing
/// as long as no report named a frame, and against the report alone as long as
/// no bound was proved.
pub proof fn law_the_lower_of_the_largest_report_and_the_smallest_bound(calls: Seq<ExtentCall>)
    ensures
        match extent_after(calls).reported {
            Some(frames) => is_largest_report(calls, frames),
            None => forall|i: int, frames: u64|
                0 <= i < calls.len() ==> !#[trigger] reports(calls[i], frames),
        },
        match extent_after(calls).reachable {
            Some(frame) => is_smallest_bound(calls, frame),
            None => forall|i: int, frame: u64|
                0 <= i < calls.len() ==> !#[trigger] proves(calls[i], frame),
        },
        extent_after(calls).planned() is None <==> forall|i: int, frames: u64|
            0 <= i < calls.len() ==> !#[trigger] reports(calls[i], frames),
        forall|frames: u64|
            #[trigger] is_largest_report(calls, frames) && (forall|i: int, frame: u64|
                0 <= i < calls.len() ==> !#[trigger] proves(calls[i], frame))
                ==> extent_after(calls).planned() == Some(frames),
        forall|frames: u64, frame: u64| #[trigger]
            is_largest_report(calls, frames) && #[trigger] is_smallest_bound(calls, frame)
                ==> extent_after(calls).planned() == Some(
                if frame < frames {
                    frame
                } else {
                    frames
                },
            ),
    decreases calls.len(),
{
    if calls.len() > 0 {
        let before = calls.drop_last();
        law_the_lower_of_the_largest_report_and_the_smallest_bound(before);
        let last = calls.len() - 1;
        assert forall|i: int| 0 <= i < last implies #[trigger] calls[i] == before[i] by {}
        let extent = extent_after(calls);
        let earlier = extent_after(before);
        if let Some(frames) = extent.reported {
            if earlier.reported == Some(frames) {
                let i = choose|i: int| 0 <= i < before.len() && reports(#[trigger] before[i], frames);
                assert(reports(calls[i], frames));
            } else {
                assert(reports(calls[last], frames));
            }
            assert forall|i: int, other: u64|
                0 <= i < calls.len() && #[trigger] reports(calls[i], other) implies other
                <= frames by {
                if i < last {
                    assert(reports(before[i], other));
                }
            }
            assert(is_largest_report(calls, frames));
        } else {
            assert forall|i: int, frames: u64| 0 <= i < calls.len() implies !#[trigger] reports(
                calls[i],
                frames,
            ) by {
                if i < last {
                    assert(!reports(before[i], frames));
                }
            }
        }
        if let Some(frame) = extent.reachable {
            if earlier.reachable == Some(frame) {
                let i = choose|i: int| 0 <= i < before.len() && proves(#[trigger] before[i], frame);
                assert(proves(calls[i], frame));
            } else {
                assert(proves(calls[last], frame));
            }
            assert forall|i: int, other: u64|
                0 <= i < calls.len() && #[trigger] proves(calls[i], other) implies frame
                <= other by {
                if i < last {
                    assert(proves(before[i], other));
                }
            }
            assert(is_smallest_bound(calls, frame));
        } else {
            assert forall|i: int, frame: u64| 0 <= i < calls.len() implies !#[trigger] proves(
                calls[i],
                frame,
            ) by {
                if i < last {
                    assert(!proves(before[i], frame));
                }
            }
        }
    }
    let extent = extent_after(calls);
    assert forall|frames: u64| #[trigger] is_largest_report(calls, frames) implies extent.reported
        == Some(frames) by {
        let i = choose|i: int| 0 <= i < calls.len() && reports(#[trigger] calls[i], frames);
        assert(reports(calls[i], frames));
        let held = extent.reported->Some_0;
        let j = choose|j: int| 0 <= j < calls.len() && reports(#[trigger] calls[j], held);
        assert(reports(calls[j], held));
    }
    assert forall|frame: u64| #[trigger] is_smallest_bound(calls, frame) implies extent.reachable
        == Some(frame) by {
        let i = choose|i: int| 0 <= i < calls.len() && proves(#[trigger] calls[i], frame);
        assert(proves(calls[i], frame));
        let held = extent.reachable->Some_0;
        let j = choose|j: int| 0 <= j < calls.len() && proves(#[trigger] calls[j], held);
        assert(proves(calls[j], held));
    }
}

/// A proved bound never lengthens the plan.
pub proof fn law_bounds_only_shrink(extent: Extent, frame: u64)
    ensures
        extent.after_unreachable(frame).planned() is None <==> extent.planned() is None,
        extent.planned() matches Some(planned) ==> (extent.after_unreachable(
            frame,
        ).planned() matches Some(shrunk) && shrunk <= planned),
{
}

/// A subdivision splits a range into halves that differ by one frame at most.
pub proof fn law_a_range_is_split_in_halves(range: FrameRange)
    requires
        range.start + range.frames <= u64::MAX,
    ensures
        0 <= (range.start + range.frames - middle_of(range)) - (middle_of(range) - range.start)
            <= 1,
        range.frames > 0 ==> range.has(middle_of(range)),
{
}

/// What is scheduled next is the middle of a gap that no other eligible one is
/// wider than, and of those as wide the first. Nothing is scheduled only where
/// every gap's middle proved barren.
pub proof fn law_the_widest_gap_goes_first(
    runs: Seq<FrameRange>,
    extent: u64,
    barren: Set<u64>,
    next: Option<u64>,
    other: FrameRange,
)
    requires
        is_next(runs, extent, barren, next),
        is_gap(runs, extent, other),
    ensures
        next matches Some(at) ==> exists|gap: FrameRange|
            {
                &&& #[trigger] is_gap(runs, extent, gap)
                &&& at == middle_of(gap)
                &&& !barren.contains(at)
                &&& !barren.contains(middle_of(other) as u64) ==> {
                    &&& other.frames <= gap.frames
                    &&& other.frames == gap.frames ==> gap.start <= other.start
                }
            },
        next is None ==> barren.contains(middle_of(other) as u64),
{
    match next {
        Some(at) => {
            let gap = choose|gap: FrameRange|
                {
                    &&& #[trigger] eligible(runs, extent, barren, gap)
                    &&& at == middle_of(gap)
                    &&& forall|other: FrameRange|
                        #[trigger] eligible(runs, extent, barren, other) ==> goes_before(gap, other)
                };
            assert(is_gap(runs, extent, gap));
            if !barren.contains(middle_of(other) as u64) {
                assert(eligible(runs, extent, barren, other));
            }
        },
        None => {
            assert(!eligible(runs, extent, barren, other));
        },
    }
}

/// A plan needs a report. It reaches no further than the report and no further
/// than what is proved reachable, and as far as one of them.
pub proof fn law_a_plan_is_the_lower_claim(extent: Extent)
    ensures
        extent.planned() is None <==> extent.reported is None,
        extent.planned() matches Some(planned) ==> {
            &&& planned <= extent.reported->0
            &&& extent.reachable matches Some(limit) ==> planned <= limit
            &&& planned == extent.reported->0 || extent.reachable == Some(planned)
        },
{
}

/// A reported length is the whole frames that fit into the duration, as long as
/// there is one and a position can count them; anything else reports nothing.
pub proof fn law_a_report_is_the_frames_that_fit(duration: Duration, rate: u32)
    requires
        duration.nanoseconds() >= 0,
    ensures
        reported_frames(Some(duration), rate) matches Some(frames) ==> {
            &&& frames > 0
            &&& frames * 1_000_000_000 <= rate * duration.nanoseconds()
            &&& rate * duration.nanoseconds() < (frames + 1) * 1_000_000_000
        },
        reported_frames(Some(duration), rate) is None ==> rate * duration.nanoseconds()
            < 1_000_000_000 || rate * duration.nanoseconds() >= (u64::MAX + 1) * 1_000_000_000,
        reported_frames(None, rate) is None,
{
    law_as_many_frames_as_fit(rate as int, duration.nanoseconds());
}

} // verus!
