//! What one analysis pass has observed, and what it publishes.

use crate::coverage::{
    covered, frontier_of, holds, is_union, lemma_union_exists, separated, total_frames, with_range,
    Coverage, FrameRange,
};
use crate::producer::PcmSpec;
use crate::snapshot::{BeatGrid, BeatSnapshot, GridState};
use vstd::prelude::*;

verus! {

/// What a pass did with an offered range.
#[derive(Clone, Copy, Debug, PartialEq, Eq, Structural)]
pub enum Ingest {
    /// Folded into the artifacts and added to the coverage.
    Accepted,
    /// Already covered: the artifacts and the coverage are unchanged.
    Covered,
    /// Measured on another sample-rate axis than the pass was opened with.
    ForeignRate,
    /// Reaches past the source extent the pass knows.
    OutOfExtent,
}

/// What a decoded chunk says of itself.
#[derive(Clone, Copy, Debug, PartialEq, Eq, Structural)]
pub struct ChunkMeta {
    pub spec: PcmSpec,
    pub frame_offset: u64,
    pub frames: u32,
}

impl ChunkMeta {
    /// The source range of the chunk.
    pub open spec fn range_of(self) -> FrameRange {
        FrameRange { start: self.frame_offset, frames: self.frames as u64 }
    }

    /// The source range of the chunk.
    pub fn range(&self) -> (range: FrameRange)
        ensures
            range == self.range_of(),
    {
        FrameRange::new(self.frame_offset, self.frames as u64)
    }
}

/// What a pass does with a range on its own axis.
pub open spec fn ingest_outcome(
    extent: Option<u64>,
    runs: Seq<FrameRange>,
    range: FrameRange,
) -> Ingest {
    if extent matches Some(extent) && range.end_frame() > extent {
        Ingest::OutOfExtent
    } else if holds(runs, range) {
        Ingest::Covered
    } else {
        Ingest::Accepted
    }
}

/// What a pass on `axis` does with a decoded chunk.
pub open spec fn push_outcome(
    axis: u32,
    extent: Option<u64>,
    runs: Seq<FrameRange>,
    chunk: ChunkMeta,
) -> Ingest {
    if chunk.spec.sample_rate != axis {
        Ingest::ForeignRate
    } else {
        ingest_outcome(extent, runs, chunk.range_of())
    }
}

/// The extent a snapshot is measured against. At end of stream that is the
/// covered frontier, unless a longer source was planned against: then the tail
/// that was never reached stays missing.
pub open spec fn sealed_extent(extent: Option<u64>, frontier: int, ending: bool) -> Option<u64> {
    if ending {
        match extent {
            Some(planned) => Some(
                if planned < frontier {
                    frontier as u64
                } else {
                    planned
                },
            ),
            None => Some(frontier as u64),
        }
    } else {
        extent
    }
}

/// A grid is final only once the whole known extent is covered.
pub open spec fn state_for(extent: Option<u64>, runs: Seq<FrameRange>) -> GridState {
    match extent {
        Some(extent) if holds(runs, FrameRange { start: 0, frames: extent }) => GridState::Final,
        _ => GridState::Provisional,
    }
}

/// What a pass has observed, as a value.
pub struct PassState {
    pub runs: Seq<FrameRange>,
    pub fingerprint: Seq<char>,
    pub extent: Option<u64>,
    pub revision: u64,
    pub rate: u32,
    pub token: Seq<char>,
}

impl PassState {
    /// A pass that has observed nothing.
    pub open spec fn fresh(rate: u32, token: Seq<char>, fingerprint: Seq<char>) -> PassState {
        PassState {
            runs: Seq::empty(),
            fingerprint,
            extent: None,
            revision: 0,
            rate,
            token,
        }
    }

    /// The pass once `range` was offered to it.
    pub open spec fn ingested(self, range: FrameRange) -> PassState {
        if ingest_outcome(self.extent, self.runs, range) == Ingest::Accepted {
            PassState { runs: with_range(self.runs, range), ..self }
        } else {
            self
        }
    }

    /// The pass once `chunk` was offered to it.
    pub open spec fn pushed(self, chunk: ChunkMeta) -> PassState {
        if chunk.spec.sample_rate != self.rate {
            self
        } else {
            self.ingested(chunk.range_of())
        }
    }

    /// The pass once it is known to be planned against `frames`.
    pub open spec fn planned(self, frames: u64) -> PassState {
        PassState {
            extent: Some(
                match self.extent {
                    Some(held) if frames < held => held,
                    _ => frames,
                },
            ),
            ..self
        }
    }

    /// The pass once it was published.
    pub open spec fn published(self, ending: bool) -> PassState {
        PassState {
            extent: sealed_extent(self.extent, frontier_of(self.runs), ending),
            revision: if self.revision < u64::MAX {
                (self.revision + 1) as u64
            } else {
                u64::MAX
            },
            ..self
        }
    }
}

/// One published analysis of a track.
#[derive(Debug)]
pub struct TrackAnalysis {
    pub token: String,
    pub revision: u64,
    pub source_sample_rate: u32,
    pub extent: Option<u64>,
    pub coverage: Coverage,
    pub fingerprint: String,
    pub waveform: Option<Vec<u8>>,
    pub beat: Option<BeatSnapshot>,
}

impl TrackAnalysis {
    /// Whether this publishes what `pass` holds.
    pub open spec fn publishes(&self, pass: PassState) -> bool {
        &&& self.token@ == pass.token
        &&& self.revision == pass.revision
        &&& self.source_sample_rate == pass.rate
        &&& self.extent == pass.extent
        &&& self.coverage.runs() == pass.runs
        &&& self.fingerprint@ == pass.fingerprint
        &&& self.beat matches Some(beat) ==> beat.state_of() == state_for(pass.extent, pass.runs)
    }
}

/// The analyzers of one pass, as far as they decide anything: which ranges they
/// have observed, on which axis, and how far the source reaches.
#[derive(Debug)]
pub struct TrackAnalyzers {
    /// Source frame ranges this pass has observed, in `source_sample_rate`.
    pub coverage: Coverage,
    pub fingerprint: String,
    /// Source length in frames. Unknown until the pass is told, and pinned to
    /// the covered frontier at end of stream, which is the decoder's own
    /// ground truth rather than a second estimate of it.
    pub extent: Option<u64>,
    pub revision: u64,
    /// Sample-rate axis frozen from the first decoded chunk of this pass.
    pub source_sample_rate: u32,
    pub token: String,
}

impl View for TrackAnalyzers {
    type V = PassState;

    open spec fn view(&self) -> PassState {
        PassState {
            runs: self.coverage.runs(),
            fingerprint: self.fingerprint@,
            extent: self.extent,
            revision: self.revision,
            rate: self.source_sample_rate,
            token: self.token@,
        }
    }
}

impl TrackAnalyzers {
    /// A pass on `rate` that has observed nothing.
    pub fn new(rate: u32, token: String, fingerprint: String) -> (pass: Self)
        ensures
            pass@ == PassState::fresh(rate, token@, fingerprint@),
    {
        TrackAnalyzers {
            coverage: Coverage::new(),
            fingerprint,
            extent: None,
            revision: 0,
            source_sample_rate: rate,
            token,
        }
    }

    /// What this pass has observed, which is what a decode schedule plans
    /// against.
    pub fn coverage(&self) -> (coverage: &Coverage)
        ensures
            *coverage == self.coverage,
    {
        &self.coverage
    }

    pub fn source_sample_rate(&self) -> (rate: u32)
        ensures
            rate == self.source_sample_rate,
    {
        self.source_sample_rate
    }

    /// The source length the caller planned against, which the final snapshot
    /// measures against instead of the covered frontier. A pass that gave up
    /// on a range past its last covered frame must still report it missing.
    pub fn plan_extent(&mut self, frames: u64)
        ensures
            final(self)@ == old(self)@.planned(frames),
    {
        self.extent = Some(
            match self.extent {
                Some(held) => if frames < held {
                    held
                } else {
                    frames
                },
                None => frames,
            },
        );
    }

    /// Covered source frames, counting an overlap or a repeat once.
    pub fn covered_frames(&self) -> (frames: u64)
        ensures
            frames == total_frames(self@.runs),
    {
        self.coverage.frames()
    }

    /// Decide on one interleaved chunk, positioned by its own metadata.
    pub fn push(&mut self, chunk: &ChunkMeta) -> (outcome: Ingest)
        ensures
            outcome == push_outcome(
                old(self)@.rate,
                old(self)@.extent,
                old(self)@.runs,
                *chunk,
            ),
            final(self)@ == old(self)@.pushed(*chunk),
            outcome == Ingest::Accepted ==> is_union(
                old(self)@.runs,
                chunk.range_of(),
                final(self)@.runs,
            ),
    {
        if chunk.spec.sample_rate != self.source_sample_rate {
            return Ingest::ForeignRate;
        }
        self.ingest(chunk.range())
    }

    /// Decide on one range that a producer already downmixed.
    ///
    /// The transport carries mono measured on the pass's own axis, so there is
    /// no spec to check here: the producer refused anything else before it was
    /// written.
    pub fn push_mono(&mut self, frames: usize, at: u64) -> (outcome: Ingest)
        ensures
            outcome == ingest_outcome(
                old(self)@.extent,
                old(self)@.runs,
                FrameRange { start: at, frames: frames as u64 },
            ),
            final(self)@ == old(self)@.ingested(FrameRange { start: at, frames: frames as u64 }),
            outcome == Ingest::Accepted ==> is_union(
                old(self)@.runs,
                FrameRange { start: at, frames: frames as u64 },
                final(self)@.runs,
            ),
    {
        self.ingest(FrameRange::new(at, frames as u64))
    }

    /// Add `range` to the coverage unless it lies past the extent or is held
    /// already. An accepted range is the caller's to fold into the artifacts.
    pub fn ingest(&mut self, range: FrameRange) -> (outcome: Ingest)
        ensures
            outcome == ingest_outcome(old(self)@.extent, old(self)@.runs, range),
            final(self)@ == old(self)@.ingested(range),
            outcome == Ingest::Accepted ==> is_union(
                old(self)@.runs,
                range,
                final(self)@.runs,
            ),
    {
        let past: bool = match self.extent {
            Some(extent) => range.end() > extent,
            None => false,
        };
        if past {
            return Ingest::OutOfExtent;
        }
        if self.coverage.contains(range) {
            return Ingest::Covered;
        }
        self.coverage.insert(range);
        Ingest::Accepted
    }

    /// The extent that a snapshot taken now would be measured against, which
    /// is what the artifacts of that snapshot have to be made for.
    pub fn snapshot_extent(&self, ending: bool) -> (extent: Option<u64>)
        ensures
            extent == sealed_extent(self@.extent, frontier_of(self@.runs), ending),
    {
        if ending {
            let frontier: u64 = self.coverage.frontier();
            match self.extent {
                Some(planned) => Some(
                    if planned < frontier {
                        frontier
                    } else {
                        planned
                    },
                ),
                None => Some(frontier),
            }
        } else {
            self.extent
        }
    }

    /// Publish what the pass holds without ending it. `ending` marks end of
    /// stream: the extent is pinned to the covered frontier. `waveform` and
    /// `beat` are the artifacts made for [`Self::snapshot_extent`], and `mean`
    /// averages the confidences of a grid.
    pub fn snapshot<M: Fn(&Vec<u32>) -> u32>(
        &mut self,
        ending: bool,
        waveform: Option<Vec<u8>>,
        beat: Option<(BeatGrid, Vec<FrameRange>)>,
        mean: M,
    ) -> (analysis: TrackAnalysis)
        requires
            forall|confidences: &Vec<u32>|
                confidences@.len() > 0 ==> #[trigger] call_requires(mean, (confidences,)),
        ensures
            final(self)@ == old(self)@.published(ending),
            analysis.publishes(final(self)@),
            analysis.waveform == waveform,
            beat is None <==> analysis.beat is None,
            beat matches Some((grid, unanalysed)) ==> {
                &&& analysis.beat->0.grid_of() == grid
                &&& analysis.beat->0.unanalysed_of() == unanalysed@
                &&& grid.confidences().len() == 0 <==> analysis.beat->0.confidence_of() is None
                &&& analysis.beat->0.confidence_of() matches Some(bits) ==> exists|
                    confidences: &Vec<u32>,
                |
                    #[trigger] confidences@ == grid.confidences() && call_ensures(
                        mean,
                        (confidences,),
                        bits,
                    )
            },
    {
        let extent: Option<u64> = self.snapshot_extent(ending);
        self.extent = extent;
        self.revision = self.revision.saturating_add(1);
        let state: GridState = self.grid_state();
        let beat: Option<BeatSnapshot> = match beat {
            Some((grid, unanalysed)) => Some(BeatSnapshot::new(grid, state, unanalysed, mean)),
            None => None,
        };
        TrackAnalysis {
            token: self.token.clone(),
            revision: self.revision,
            source_sample_rate: self.source_sample_rate,
            extent,
            coverage: self.coverage.duplicate(),
            fingerprint: self.fingerprint.clone(),
            waveform,
            beat,
        }
    }

    /// A grid is final only once the whole known extent is one covered run.
    pub fn grid_state(&self) -> (state: GridState)
        ensures
            state == state_for(self@.extent, self@.runs),
    {
        let covered: bool = match self.extent {
            Some(extent) => self.coverage.contains(FrameRange::new(0, extent)),
            None => false,
        };
        if covered {
            GridState::Final
        } else {
            GridState::Provisional
        }
    }
}

/// A range is folded once: offered again after it was accepted, it is covered.
pub proof fn law_range_is_folded_once(pass: PassState, range: FrameRange)
    requires
        ingest_outcome(pass.extent, pass.runs, range) == Ingest::Accepted,
        separated(pass.runs),
    ensures
        ingest_outcome(pass.extent, pass.ingested(range).runs, range) == Ingest::Covered,
        pass.ingested(range).ingested(range) == pass.ingested(range),
{
    lemma_union_exists(pass.runs, range);
}

/// What the pass has accepted stays accepted: no later range uncovers any of
/// it, so a range once covered is covered for good.
pub proof fn law_covered_stays_covered(pass: PassState, range: FrameRange, held: FrameRange)
    requires
        separated(pass.runs),
        ingest_outcome(pass.extent, pass.runs, held) == Ingest::Covered,
    ensures
        ingest_outcome(pass.extent, pass.ingested(range).runs, held) == Ingest::Covered,
{
    lemma_union_exists(pass.runs, range);
    assert forall|frame: int| held.has(frame) implies covered(pass.ingested(range).runs, frame) by {
        assert(covered(pass.runs, frame));
    }
}

/// A tail that was planned for and never reached stays missing: the extent that
/// the last snapshot is measured against keeps it, and the grid stays
/// provisional.
pub proof fn law_unreached_tail_stays_missing(pass: PassState, planned: u64)
    requires
        separated(pass.runs),
        planned > frontier_of(pass.runs),
    ensures
        pass.planned(planned).published(true).extent matches Some(extent) && extent >= planned,
        state_for(pass.planned(planned).published(true).extent, pass.runs)
            == GridState::Provisional,
{
    let extent = pass.planned(planned).published(true).extent->0;
    let whole = FrameRange { start: 0, frames: extent };
    assert(whole.has(frontier_of(pass.runs)));
    assert(!covered(pass.runs, frontier_of(pass.runs)));
}

/// A pass takes a range exactly when it ends inside the extent, as far as one is
/// known, and has a frame that is not covered yet. Taking it covers its frames
/// and no others, and changes nothing else of the pass.
pub proof fn law_a_pass_takes_what_is_new_and_inside(pass: PassState, range: FrameRange, frame: int)
    requires
        separated(pass.runs),
    ensures
        ({
            let outcome = ingest_outcome(pass.extent, pass.runs, range);
            let after = pass.ingested(range);
            &&& outcome == Ingest::Accepted ==> {
                &&& exists|new: int| range.has(new) && !covered(pass.runs, new)
                &&& pass.extent matches Some(extent) ==> (range.has(frame) ==> frame < extent)
            }
            &&& outcome == Ingest::Covered ==> (range.has(frame) ==> covered(pass.runs, frame))
            &&& outcome == Ingest::OutOfExtent ==> {
                &&& pass.extent is Some
                &&& range.frames > 0 && range.start < u64::MAX ==> exists|past: int|
                    range.has(past) && past >= pass.extent->0
            }
            &&& outcome == Ingest::Accepted || outcome == Ingest::Covered || outcome
                == Ingest::OutOfExtent
            &&& pass.extent is None ==> outcome != Ingest::OutOfExtent
            &&& covered(after.runs, frame) <==> covered(pass.runs, frame) || (outcome
                == Ingest::Accepted && range.has(frame))
            &&& separated(after.runs)
            &&& after == PassState { runs: after.runs, ..pass }
        }),
{
    lemma_union_exists(pass.runs, range);
    let outcome = ingest_outcome(pass.extent, pass.runs, range);
    if outcome == Ingest::Accepted {
        let new = choose|new: int| range.has(new) && !covered(pass.runs, new);
        assert(range.has(new) && !covered(pass.runs, new));
    }
    if outcome == Ingest::OutOfExtent && range.frames > 0 && range.start < u64::MAX {
        assert(range.has(range.end_frame() - 1));
    }
}

/// A chunk on the pass's own axis is taken as its range is; one on another axis
/// is not looked at.
pub proof fn law_a_foreign_rate_changes_nothing(pass: PassState, chunk: ChunkMeta)
    ensures
        chunk.spec.sample_rate != pass.rate ==> push_outcome(
            pass.rate,
            pass.extent,
            pass.runs,
            chunk,
        ) == Ingest::ForeignRate && pass.pushed(chunk) == pass,
        chunk.spec.sample_rate == pass.rate ==> push_outcome(
            pass.rate,
            pass.extent,
            pass.runs,
            chunk,
        ) != Ingest::ForeignRate && pass.pushed(chunk) == pass.ingested(
            FrameRange { start: chunk.frame_offset, frames: chunk.frames as u64 },
        ),
{
}

/// A plan never shortens the extent, the longest plan stands, and the order of
/// two plans does not matter.
pub proof fn law_the_longest_plan_stands(pass: PassState, frames: u64, other: u64)
    ensures
        pass.planned(frames).extent matches Some(extent) && {
            &&& extent >= frames
            &&& pass.extent matches Some(held) ==> extent >= held
            &&& extent == frames || pass.extent == Some(extent)
        },
        pass.planned(frames).planned(other) == pass.planned(other).planned(frames),
        pass.planned(frames) == (PassState { extent: pass.planned(frames).extent, ..pass }),
{
}

/// A publication is numbered one higher than the one before. Only the last one
/// settles the extent: on what was planned or on what was covered, whichever
/// reaches further.
pub proof fn law_the_last_publication_settles_the_extent(pass: PassState)
    requires
        separated(pass.runs),
    ensures
        pass.published(false).extent == pass.extent,
        pass.published(true).extent matches Some(extent) && {
            &&& forall|frame: int| #[trigger] covered(pass.runs, frame) ==> frame < extent
            &&& pass.extent matches Some(planned) ==> extent >= planned
            &&& pass.extent == Some(extent) || extent == frontier_of(pass.runs)
        },
        forall|ending: bool|
            pass.revision < u64::MAX ==> (#[trigger] pass.published(ending)).revision
                == pass.revision + 1,
        forall|ending: bool|
            #[trigger] pass.published(ending) == (PassState {
                extent: pass.published(ending).extent,
                revision: pass.published(ending).revision,
                ..pass
            }),
{
    assert forall|frame: int| #[trigger] covered(pass.runs, frame) implies frame < frontier_of(
        pass.runs,
    ) by {
        let i = choose|i: int| 0 <= i < pass.runs.len() && (#[trigger] pass.runs[i]).has(frame);
        if i < pass.runs.len() - 1 {
            assert(pass.runs[i].end_frame() < pass.runs[pass.runs.len() - 1].start);
        }
    }
}

/// A grid is final when every frame below the extent is covered, and only then:
/// one missing frame, or an extent that nobody knows, keeps it provisional.
pub proof fn law_a_grid_is_final_once_whole(extent: Option<u64>, runs: Seq<FrameRange>)
    ensures
        state_for(extent, runs) == GridState::Final <==> extent is Some && forall|frame: int|
            0 <= frame < extent->0 ==> #[trigger] covered(runs, frame),
        state_for(extent, runs) != GridState::Final ==> state_for(extent, runs)
            == GridState::Provisional,
{
    if extent is Some {
        let whole = FrameRange { start: 0, frames: extent->0 };
        assert forall|frame: int| 0 <= frame < extent->0 implies whole.has(frame) by {}
    }
}

/// The last analysis that is published is final exactly when every frame that
/// was planned or covered is covered, and counts on from the one before.
pub proof fn law_the_last_analysis_is_final_once_whole(
    pass: PassState,
    analysis: TrackAnalysis,
    beat: BeatSnapshot,
)
    requires
        separated(pass.runs),
        pass.revision < u64::MAX,
        analysis.publishes(pass.published(true)),
        analysis.beat == Some(beat),
    ensures
        analysis.revision == pass.revision + 1,
        analysis.coverage.runs() == pass.runs,
        analysis.source_sample_rate == pass.rate,
        analysis.token@ == pass.token,
        analysis.fingerprint@ == pass.fingerprint,
        analysis.extent is Some,
        beat.state_of() == GridState::Final <==> forall|frame: int|
            0 <= frame < analysis.extent->0 ==> #[trigger] covered(pass.runs, frame),
{
    law_the_last_publication_settles_the_extent(pass);
    law_a_grid_is_final_once_whole(pass.published(true).extent, pass.runs);
}

} // verus!
