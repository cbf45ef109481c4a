//! One analysis pass over one track: which range it decodes next, what it does
//! with what its reader answers, and when it publishes.

use crate::buffer::{PcmBuf, PcmPool};
use crate::coverage::{
    covered, frame_set, holds, law_frames_count_once, lemma_union_exists, separated, total_frames,
    Coverage, FrameRange,
};
use crate::ring;
use crate::schedule::{law_next_is_new, next_position, reported_frames, Extent, Schedule};
use crate::session::{
    ingest_outcome, law_a_foreign_rate_changes_nothing, law_a_pass_takes_what_is_new_and_inside,
    push_outcome, ChunkMeta, Ingest, PassState, TrackAnalysis, TrackAnalyzers,
};
use crate::snapshot::BeatGrid;
use crate::time::{
    duration_for_frames, frames_in, law_a_frame_is_found_by_its_time, Duration, NANOS_PER_SEC,
};
use vstd::prelude::*;

verus! {

/// Source seconds between publications while decoding. Keyed to decoded
/// frames rather than wall-clock time so a run publishes the same revision
/// sequence every time.
pub const PUBLISH_SECONDS: u64 = 5;

/// A decoded chunk: interleaved samples, each as the bit pattern of its 32-bit
/// float.
#[derive(Debug)]
pub struct PcmChunk {
    pub meta: ChunkMeta,
    pub samples: Vec<u32>,
}

/// What a reader answers when it is asked for its next chunk.
#[derive(Debug)]
pub enum ChunkOutcome {
    Chunk(PcmChunk),
    Pending,
    Eof,
}

/// What a reader answers when it is asked to seek.
#[derive(Clone, Copy, Debug, PartialEq, Eq, Structural)]
pub enum SeekOutcome {
    Landed,
    PastEof,
}

/// The decoder a pass reads its track from. It promises nothing of its answers:
/// what the pass does with one holds whatever it is. What the reader was asked
/// and what it answered is on record.
pub trait PcmReader {
    /// What it has answered to reads, in order.
    closed spec fn answers(&self) -> Seq<Result<ChunkOutcome, String>> {
        arbitrary()
    }

    /// Where it was asked to seek to, in nanoseconds, and what it answered, in
    /// order.
    closed spec fn seeks(&self) -> Seq<(int, Result<SeekOutcome, String>)> {
        arbitrary()
    }

    /// What it has answered when it was asked how long it is, in order.
    closed spec fn lengths(&self) -> Seq<Option<Duration>> {
        arbitrary()
    }

    /// How long the source is, as far as it can tell now.
    fn duration(&mut self) -> (answer: Option<Duration>)
        ensures
            final(self).lengths() == old(self).lengths().push(answer),
            final(self).answers() == old(self).answers(),
            final(self).seeks() == old(self).seeks(),
    ;

    fn next_chunk(&mut self) -> (answer: Result<ChunkOutcome, String>)
        ensures
            final(self).answers() == old(self).answers().push(answer),
            final(self).seeks() == old(self).seeks(),
            final(self).lengths() == old(self).lengths(),
    ;

    fn seek(&mut self, position: Duration) -> (answer: Result<SeekOutcome, String>)
        ensures
            final(self).answers() == old(self).answers(),
            final(self).seeks() == old(self).seeks().push((position.nanoseconds(), answer)),
            final(self).lengths() == old(self).lengths(),
    ;
}

/// A range that the pass took: interleaved samples from source frame `at` on,
/// which are the artifacts' to fold in.
#[derive(Debug)]
pub struct Fold {
    pub samples: Vec<u32>,
    pub channels: u16,
    pub at: u64,
}

/// The same, as a value.
pub struct FoldState {
    pub samples: Seq<u32>,
    pub channels: u16,
    pub at: u64,
}

impl Fold {
    pub open spec fn state(self) -> FoldState {
        FoldState { samples: self.samples@, channels: self.channels, at: self.at }
    }
}

/// What has been taken, in order.
pub open spec fn folds_of(folds: Seq<Fold>) -> Seq<FoldState> {
    Seq::new(folds.len(), |i: int| folds[i].state())
}

/// A publication that is due: whether it is the last one, and the extent that
/// its artifacts are made for.
#[derive(Clone, Copy, Debug, PartialEq, Eq, Structural)]
pub struct Publication {
    pub ending: bool,
    pub extent: Option<u64>,
}

/// What a tick did, for whoever schedules ticks.
#[derive(Clone, Copy, Debug, PartialEq, Eq, Structural)]
pub enum TickResult {
    Progress,
    UpstreamPending,
    Done,
}

#[derive(Clone, Copy, Debug, PartialEq, Eq, Structural)]
pub enum TaskPhase {
    Decode,
    Ending,
    Done,
}

/// One decoded run: the position it was scheduled to, where its first chunk
/// came from, how far it has decoded, and whether any of that was new.
///
/// `at` is seeded with the scheduled position and replaced by the first chunk
/// the run decodes: a seek reports where it was asked to go, not where the
/// decoder resumed, so only a chunk says where the run really starts.
#[derive(Clone, Copy, Debug, PartialEq, Eq, Structural)]
pub struct Run {
    pub chosen: u64,
    pub at: u64,
    pub frontier: u64,
    pub started: bool,
    pub grew: bool,
}

/// What a tick came to.
#[derive(Clone, Copy, Debug, PartialEq, Eq, Structural)]
pub struct Tick {
    pub result: TickResult,
    /// What is to be published once the ranges that were taken are folded in.
    pub publish: Option<Publication>,
}

/// What a reader's answer to a read comes down to.
#[derive(Clone, Copy, Debug, PartialEq, Eq, Structural)]
pub enum ReadEvent {
    Chunk(ChunkMeta),
    Pending,
    Eof,
    Failed,
}

/// What a reader's answer to a seek comes down to.
#[derive(Clone, Copy, Debug, PartialEq, Eq, Structural)]
pub enum SeekEvent {
    Landed,
    PastEof,
    Failed,
}

/// What an answer to a read comes down to.
pub open spec fn event_of(answer: Result<ChunkOutcome, String>) -> ReadEvent {
    match answer {
        Ok(ChunkOutcome::Chunk(chunk)) => ReadEvent::Chunk(chunk.meta),
        Ok(ChunkOutcome::Pending) => ReadEvent::Pending,
        Ok(ChunkOutcome::Eof) => ReadEvent::Eof,
        Err(_) => ReadEvent::Failed,
    }
}

/// The samples that an answer to a read brings.
pub open spec fn samples_of(answer: Result<ChunkOutcome, String>) -> Seq<u32> {
    match answer {
        Ok(ChunkOutcome::Chunk(chunk)) => chunk.samples@,
        _ => Seq::empty(),
    }
}

/// What an answer to a seek comes down to.
pub open spec fn seek_event_of(answer: Result<SeekOutcome, String>) -> SeekEvent {
    match answer {
        Ok(SeekOutcome::Landed) => SeekEvent::Landed,
        Ok(SeekOutcome::PastEof) => SeekEvent::PastEof,
        Err(_) => SeekEvent::Failed,
    }
}

/// What has passed between a task and the outside: its reader's answers, its
/// seeks, how the transport stands, and how many samples a range may have that
/// is read out of it: what the buffer it is read into may hold, once there is
/// one.
pub struct Exchange {
    pub answers: Seq<Result<ChunkOutcome, String>>,
    pub seeks: Seq<(int, Result<SeekOutcome, String>)>,
    pub lengths: Seq<Option<Duration>>,
    pub transport: ring::Reader,
    pub buffer: Option<int>,
}

impl Exchange {
    /// The samples that a range may have to be read out of the transport, where
    /// the buffer comes from `pool` at first.
    pub open spec fn range_limit(self, pool: PcmPool) -> int {
        match self.buffer {
            Some(limit) => limit,
            None => pool.limit as int,
        }
    }

    /// What the reader last answered to a read.
    pub open spec fn answer(self) -> Result<ChunkOutcome, String> {
        self.answers.last()
    }

    /// What the reader last answered to a seek.
    pub open spec fn seek_answer(self) -> Result<SeekOutcome, String> {
        self.seeks.last().1
    }

    /// What the reader last answered when it was asked how long it is.
    pub open spec fn length(self) -> Option<Duration> {
        self.lengths.last()
    }
}

/// Whether `after` is `before` with one read asked of the reader.
pub open spec fn is_one_read(before: Exchange, after: Exchange) -> bool {
    after == Exchange { answers: before.answers.push(after.answer()), ..before }
}

/// Whether `after` is `before` with one seek asked of the reader: to where frame
/// `at` begins on an axis of `rate` frames a second.
pub open spec fn is_one_seek(before: Exchange, after: Exchange, rate: u32, at: u64) -> bool {
    after == Exchange {
        seeks: before.seeks.push((at * NANOS_PER_SEC / rate as int, after.seek_answer())),
        ..before
    }
}

/// Whether the read of the transport as it stood at the i-th of `looks`, into a
/// buffer of `limit` samples, gave the i-th of `ranges`.
pub open spec fn gave(
    looks: Seq<ring::Reader>,
    ranges: Seq<(u64, Seq<u32>)>,
    limit: int,
    i: int,
) -> bool {
    &&& looks[i].gives(limit)
    &&& ranges[i] == looks[i].next_range()
    &&& ring::is_read(looks[i], looks[i + 1])
}

/// Whether such reads, one after the other, gave all of `ranges`.
pub open spec fn is_taken(
    looks: Seq<ring::Reader>,
    ranges: Seq<(u64, Seq<u32>)>,
    limit: int,
) -> bool {
    &&& looks.len() > ranges.len()
    &&& forall|i: int| 0 <= i < ranges.len() ==> #[trigger] gave(looks, ranges, limit, i)
}

/// Whether those reads went on as long as there was anything to give: the look
/// behind the last range found none, or one of more than `limit` samples.
pub open spec fn is_emptied(
    looks: Seq<ring::Reader>,
    ranges: Seq<(u64, Seq<u32>)>,
    limit: int,
) -> bool {
    let last = ranges.len() as int;
    &&& is_taken(looks, ranges, limit)
    &&& looks.len() == last + 2
    &&& !looks[last].gives(limit)
    &&& ring::is_read(looks[last], looks[last + 1])
}

/// Whether `after` is `before` with all that a producer left taken out of the
/// transport: `ranges`, one for each descriptor, up to a look that found nothing
/// more, or a range of more than `limit` samples, which is dropped. The buffer
/// they were read into is kept.
pub open spec fn is_drained(
    before: Exchange,
    after: Exchange,
    ranges: Seq<(u64, Seq<u32>)>,
    limit: int,
) -> bool {
    &&& after == Exchange { transport: after.transport, buffer: Some(limit), ..before }
    &&& exists|looks: Seq<ring::Reader>|
        {
            &&& #[trigger] is_emptied(looks, ranges, limit)
            &&& looks[0] == before.transport
            &&& looks.last() == after.transport
        }
}

/// What a step asks of the reader.
#[derive(Clone, Copy, Debug, PartialEq, Eq, Structural)]
pub enum Action {
    /// Read the next chunk where the reader stands.
    Decode,
    /// Seek to source frame `at` and open a run there.
    Seek { at: u64 },
    /// Nothing: the pass has ended.
    Finish,
}

/// What a task remembers between ticks, as a value.
pub struct TaskState {
    pub pass: Option<PassState>,
    pub rate: u32,
    pub token: Seq<char>,
    pub fingerprint: Seq<char>,
    pub phase: TaskPhase,
    pub published_at: u64,
    pub extent: Extent,
    pub barren: Set<u64>,
    pub run: Option<Run>,
}

impl TaskState {
    /// A pass about to read its first range.
    pub open spec fn fresh(rate: u32, token: Seq<char>, fingerprint: Seq<char>) -> TaskState {
        TaskState {
            pass: None,
            rate,
            token,
            fingerprint,
            phase: TaskPhase::Decode,
            published_at: 0,
            extent: Extent::unknown(),
            barren: Set::empty(),
            run: None,
        }
    }

    /// What the pass has observed so far.
    pub open spec fn runs(self) -> Seq<FrameRange> {
        match self.pass {
            Some(pass) => pass.runs,
            None => Seq::empty(),
        }
    }

    /// With the pass opened on its axis.
    pub open spec fn opened(self) -> TaskState {
        match self.pass {
            Some(_) => self,
            None => TaskState {
                pass: Some(PassState::fresh(self.rate, self.token, self.fingerprint)),
                ..self
            },
        }
    }

    /// With `ranges`, which a producer left in the transport, offered in turn.
    pub open spec fn drained(self, ranges: Seq<(u64, Seq<u32>)>) -> TaskState
        decreases ranges.len(),
    {
        if ranges.len() == 0 {
            self.opened()
        } else {
            let before = self.drained(ranges.drop_last());
            TaskState { pass: Some(before.pass->0.ingested(span_of(ranges.last()))), ..before }
        }
    }

    /// What is taken of `ranges`, offered in turn.
    pub open spec fn drained_folds(self, ranges: Seq<(u64, Seq<u32>)>) -> Seq<FoldState>
        decreases ranges.len(),
    {
        if ranges.len() == 0 {
            Seq::empty()
        } else {
            let pass = self.drained(ranges.drop_last()).pass->0;
            let before = self.drained_folds(ranges.drop_last());
            if ingest_outcome(pass.extent, pass.runs, span_of(ranges.last())) == Ingest::Accepted {
                before.push(
                    FoldState { samples: ranges.last().1, channels: 1, at: ranges.last().0 },
                )
            } else {
                before
            }
        }
    }

    /// With the length that the source reports taken in.
    pub open spec fn told(self, duration: Option<Duration>) -> TaskState {
        TaskState {
            extent: self.extent.after_report(reported_frames(duration, self.rate)),
            ..self
        }
    }

    /// Whether the pass already holds `range`.
    pub open spec fn covers(self, range: FrameRange) -> bool {
        self.pass matches Some(pass) && holds(pass.runs, range)
    }

    /// Whether the whole known extent is covered.
    pub open spec fn complete(self) -> bool {
        self.extent.planned() matches Some(extent) && self.covers(
            FrameRange { start: 0, frames: extent },
        )
    }

    /// With the pass ended, and the length it planned against handed to it.
    pub open spec fn finished(self) -> TaskState {
        match self.pass {
            Some(pass) => TaskState {
                pass: Some(
                    match self.extent.planned() {
                        Some(frames) => pass.planned(frames),
                        None => pass,
                    },
                ),
                phase: TaskPhase::Ending,
                ..self
            },
            None => TaskState { phase: TaskPhase::Done, ..self },
        }
    }

    /// With the current run closed, and the position it was scheduled to
    /// retired when it decoded nothing new.
    pub open spec fn retired(self) -> TaskState {
        match self.run {
            Some(run) => TaskState {
                run: None,
                barren: if run.grew {
                    self.barren
                } else {
                    self.barren.insert(run.chosen)
                },
                ..self
            },
            None => self,
        }
    }

    /// Whether the current run has done its work: nothing open, the extent
    /// reached, the next frame already covered, or a whole detector window
    /// decoded.
    pub open spec fn run_is_over(self, run_frames: Option<u64>) -> bool {
        match self.run {
            Some(run) => {
                ||| self.extent.planned() matches Some(extent) && run.frontier >= extent
                ||| run.frontier > run.at && self.covers(
                    FrameRange { start: run.frontier, frames: 1 },
                )
                ||| run_frames matches Some(window) && window <= if run.at <= run.frontier {
                    run.frontier - run.at
                } else {
                    0
                }
            },
            None => true,
        }
    }

    /// What a step asks of the reader: a read while the source reports no
    /// length, and what the schedule says once it does.
    pub open spec fn action(self, run_frames: Option<u64>) -> Action {
        if self.extent.planned() is None {
            Action::Decode
        } else if self.complete() {
            Action::Finish
        } else if self.run_is_over(run_frames) {
            match next_position(self.runs(), self.extent.planned(), self.retired().barren) {
                Some(at) => Action::Seek { at },
                None => Action::Finish,
            }
        } else {
            Action::Decode
        }
    }

    /// The state in which that action is taken.
    pub open spec fn acting(self, run_frames: Option<u64>) -> TaskState {
        match self.action(run_frames) {
            Action::Decode => self,
            Action::Seek { at } => self.retired(),
            Action::Finish => if self.complete() {
                self.finished()
            } else {
                self.retired().finished()
            },
        }
    }

    /// With the reader's answer to a read taken in.
    pub open spec fn after_read(self, event: ReadEvent) -> TaskState {
        match event {
            ReadEvent::Chunk(chunk) => self.after_chunk(chunk),
            ReadEvent::Pending => self,
            ReadEvent::Eof => self.after_eof(),
            ReadEvent::Failed => self.finished(),
        }
    }

    /// With a decoded chunk offered to the pass, and the run moved up to it.
    pub open spec fn after_chunk(self, chunk: ChunkMeta) -> TaskState {
        let before = self.opened().pass->0;
        let after = before.pushed(chunk);
        TaskState {
            pass: Some(after),
            run: match self.run {
                Some(run) => Some(
                    Run {
                        chosen: run.chosen,
                        at: if run.started {
                            run.at
                        } else {
                            chunk.frame_offset
                        },
                        frontier: chunk.range_of().end_frame() as u64,
                        started: true,
                        grew: run.grew || total_frames(after.runs) > total_frames(before.runs),
                    },
                ),
                None => None,
            },
            ..self
        }
    }

    /// End of stream ends the run, and bounds the extent: the source has just
    /// proved where it ends, whatever length it reports. It ends the pass only
    /// when there is no extent to schedule against.
    pub open spec fn after_eof(self) -> TaskState {
        if self.extent.planned() is None {
            self.finished()
        } else {
            match self.run {
                Some(run) => TaskState {
                    extent: self.extent.after_unreachable(run.frontier),
                    ..self
                }.retired(),
                None => self,
            }
        }
    }

    /// With the reader's answer to a seek taken in.
    pub open spec fn after_seek(self, at: u64, event: SeekEvent) -> TaskState {
        match event {
            SeekEvent::Landed => TaskState {
                run: Some(Run { chosen: at, at, frontier: at, started: false, grew: false }),
                ..self
            },
            SeekEvent::PastEof => TaskState { extent: self.extent.after_unreachable(at), ..self },
            SeekEvent::Failed => TaskState { barren: self.barren.insert(at), ..self },
        }
    }

    /// With one whole step taken: what was asked of the reader, and what it
    /// answered.
    pub open spec fn stepped(
        self,
        run_frames: Option<u64>,
        read: ReadEvent,
        seek: SeekEvent,
    ) -> TaskState {
        match self.action(run_frames) {
            Action::Decode => self.after_read(read),
            Action::Seek { at } => self.acting(run_frames).after_seek(at, seek),
            Action::Finish => self.acting(run_frames),
        }
    }

    /// What a step takes: the chunk that was read, where the pass takes it.
    pub open spec fn step_folds(
        self,
        run_frames: Option<u64>,
        read: ReadEvent,
        samples: Seq<u32>,
    ) -> Seq<FoldState> {
        if self.action(run_frames) == Action::Decode {
            self.read_folds(read, samples)
        } else {
            Seq::empty()
        }
    }

    /// What is taken of the reader's answer to a read, with the samples of the
    /// chunk where it is one.
    pub open spec fn read_folds(self, read: ReadEvent, samples: Seq<u32>) -> Seq<FoldState> {
        let pass = self.opened().pass->0;
        match read {
            ReadEvent::Chunk(chunk) if push_outcome(pass.rate, pass.extent, pass.runs, chunk)
                == Ingest::Accepted => seq![
                FoldState {
                    samples,
                    channels: if chunk.spec.channels == 0 {
                        1
                    } else {
                        chunk.spec.channels
                    },
                    at: chunk.frame_offset,
                },
            ],
            _ => Seq::empty(),
        }
    }

    /// What a step reports: pending only when the reader had nothing to read
    /// yet.
    pub open spec fn step_result(self, run_frames: Option<u64>, read: ReadEvent) -> TickResult {
        if self.action(run_frames) == Action::Decode && read == ReadEvent::Pending {
            TickResult::UpstreamPending
        } else {
            TickResult::Progress
        }
    }

    /// Whether enough new source has been covered to be worth publishing.
    pub open spec fn is_due(self) -> bool {
        self.pass matches Some(pass) && {
            let fresh = total_frames(pass.runs) - self.published_at;
            pass.rate * PUBLISH_SECONDS <= if fresh < 0 {
                0
            } else {
                fresh
            }
        }
    }

    /// Whether there is anything to publish.
    pub open spec fn publishable(self) -> bool {
        self.pass matches Some(pass) && total_frames(pass.runs) != 0
    }

    /// With what the pass holds published. A pass that covered nothing
    /// publishes nothing.
    pub open spec fn published(self, ending: bool) -> TaskState {
        if self.publishable() {
            TaskState {
                pass: Some(self.pass->0.published(ending)),
                published_at: total_frames(self.pass->0.runs) as u64,
                ..self
            }
        } else {
            self
        }
    }

    /// What is to be published, where there is anything.
    pub open spec fn publication(self, ending: bool) -> Option<Publication> {
        if self.publishable() {
            Some(
                Publication {
                    ending,
                    extent: self.pass->0.published(ending).extent,
                },
            )
        } else {
            None
        }
    }

    /// With the phase left for good.
    pub open spec fn done(self) -> TaskState {
        TaskState { phase: TaskPhase::Done, ..self }
    }
}

/// The source range of what a producer offered.
pub open spec fn span_of(range: (u64, Seq<u32>)) -> FrameRange {
    FrameRange { start: range.0, frames: range.1.len() as u64 }
}

/// Whether a step that takes `action` led from `before` to `after`: one read, one
/// seek, or nothing.
pub open spec fn is_asked(action: Action, rate: u32, before: Exchange, after: Exchange) -> bool {
    match action {
        Action::Decode => is_one_read(before, after),
        Action::Seek { at } => is_one_seek(before, after, rate, at),
        Action::Finish => after == before,
    }
}

/// Whether a tick in the decoding phase led from `before` to `after`, once it
/// had drained `ranges` and asked how long the source is. `folds` is what it
/// took.
pub open spec fn is_decode_tick(
    before: TaskState,
    asked: Exchange,
    run_frames: Option<u64>,
    limit: int,
    ranges: Seq<(u64, Seq<u32>)>,
    after: TaskState,
    answered: Exchange,
    folds: Seq<FoldState>,
    tick: Tick,
) -> bool {
    let ready = before.drained(ranges).told(answered.length());
    let drained = Exchange { transport: answered.transport, buffer: Some(limit), ..asked };
    let told = Exchange { lengths: asked.lengths.push(answered.length()), ..drained };
    let read = event_of(answered.answer());
    &&& is_drained(asked, drained, ranges, limit)
    &&& is_asked(ready.action(run_frames), before.rate, told, answered)
    &&& after == ready.stepped(run_frames, read, seek_event_of(answered.seek_answer()))
    &&& folds == before.drained_folds(ranges) + ready.step_folds(
        run_frames,
        read,
        samples_of(answered.answer()),
    )
    &&& tick.publish == if after.phase == TaskPhase::Decode && after.is_due() {
        after.publication(false)
    } else {
        None
    }
    &&& tick.result == if ranges.len() > 0 {
        TickResult::Progress
    } else {
        ready.step_result(run_frames, read)
    }
}

/// Whether a tick led from `before` to `after`, and from `asked` to `answered`,
/// and took `folds`. Only a tick in the decoding phase asks for anything.
pub open spec fn is_tick(
    before: TaskState,
    asked: Exchange,
    cancelled: bool,
    run_frames: Option<u64>,
    limit: int,
    after: TaskState,
    answered: Exchange,
    folds: Seq<FoldState>,
    tick: Tick,
) -> bool {
    if cancelled {
        &&& after == before.done()
        &&& answered == asked
        &&& folds.len() == 0
        &&& tick == (Tick { result: TickResult::Progress, publish: None })
    } else {
        match before.phase {
            TaskPhase::Decode => exists|ranges: Seq<(u64, Seq<u32>)>|
                #[trigger] is_decode_tick(
                    before,
                    asked,
                    run_frames,
                    limit,
                    ranges,
                    after,
                    answered,
                    folds,
                    tick,
                ),
            TaskPhase::Ending => {
                &&& after == before.done()
                &&& answered == asked
                &&& folds.len() == 0
                &&& tick == (Tick {
                    result: TickResult::Progress,
                    publish: before.publication(true),
                })
            },
            TaskPhase::Done => {
                &&& after == before
                &&& answered == asked
                &&& folds.len() == 0
                &&& tick == (Tick { result: TickResult::Done, publish: None })
            },
        }
    }
}

/// What a pass is started with.
pub struct Job<R> {
    pub reader: R,
    /// The consumer half of this pass's producer transport.
    pub ingest: ring::Reader,
    /// The axis every range of this pass is measured on.
    pub rate: u32,
    pub token: String,
    pub fingerprint: String,
}

/// One analysis pass over one track.
pub struct AnalysisTask<R> {
    reader: R,
    analyzers: Option<TrackAnalyzers>,
    ingest: ring::Reader,
    /// Where a drained range is read into. Held across ticks so draining
    /// costs no allocation.
    scratch: Option<PcmBuf>,
    rate: u32,
    token: String,
    fingerprint: String,
    phase: TaskPhase,
    /// Covered frames at the last publication.
    published_at: u64,
    /// Source length the schedule plans against, on the pass's axis. Read
    /// from the reader rather than from the pass, which pins its own extent
    /// only at end of stream. Until the source names one, the reader is left
    /// where it is and decoded in order.
    extent: Extent,
    schedule: Schedule,
    run: Option<Run>,
}

impl<R> View for AnalysisTask<R> {
    type V = TaskState;

    closed spec fn view(&self) -> TaskState {
        TaskState {
            pass: match self.analyzers {
                Some(pass) => Some(pass@),
                None => None,
            },
            rate: self.rate,
            token: self.token@,
            fingerprint: self.fingerprint@,
            phase: self.phase,
            published_at: self.published_at,
            extent: self.extent,
            barren: self.schedule.barren_positions(),
            run: self.run,
        }
    }
}

impl<R: PcmReader> AnalysisTask<R> {
    /// The axis is one, and the transport is in order.
    pub closed spec fn well_formed(&self) -> bool {
        &&& self.rate > 0
        &&& self.ingest.well_formed()
    }

    /// The reader this pass decodes.
    pub closed spec fn source(&self) -> R {
        self.reader
    }

    /// What has passed between the task and the outside.
    pub closed spec fn exchange(&self) -> Exchange {
        Exchange {
            answers: self.reader.answers(),
            seeks: self.reader.seeks(),
            lengths: self.reader.lengths(),
            transport: self.ingest,
            buffer: match self.scratch {
                Some(scratch) => Some(scratch.limit() as int),
                None => None,
            },
        }
    }

    /// The samples that a range may have to be read out of the transport, where
    /// the buffer comes from `pool` at first.
    pub open spec fn range_limit(&self, pool: PcmPool) -> int {
        self.exchange().range_limit(pool)
    }

    pub fn new(job: Job<R>) -> (task: Self)
        requires
            job.rate > 0,
            job.ingest.well_formed(),
        ensures
            task.well_formed(),
            task.source() == job.reader,
            task.exchange() == (Exchange {
                answers: job.reader.answers(),
                seeks: job.reader.seeks(),
                lengths: job.reader.lengths(),
                transport: job.ingest,
                buffer: None,
            }),
            task@ == TaskState::fresh(job.rate, job.token@, job.fingerprint@),
    {
        AnalysisTask {
            reader: job.reader,
            analyzers: None,
            ingest: job.ingest,
            scratch: None,
            rate: job.rate,
            token: job.token,
            fingerprint: job.fingerprint,
            phase: TaskPhase::Decode,
            published_at: 0,
            extent: Extent::new(),
            schedule: Schedule::new(),
            run: None,
        }
    }

    /// The reader this pass decodes.
    pub fn reader(&self) -> (reader: &R)
        ensures
            *reader == self.source(),
    {
        &self.reader
    }

    /// Whether the pass already holds `range` in one covered run.
    pub fn is_covered(&self, range: FrameRange) -> (covered: bool)
        ensures
            covered == self@.covers(range),
    {
        match &self.analyzers {
            Some(pass) => pass.coverage().contains(range),
            None => false,
        }
    }

    /// Whether the whole known extent sits in one covered run. Asked before
    /// the run in flight is, because a run waiting on its reader is never the
    /// one that notices a producer covered the last of the track.
    pub fn is_complete(&self) -> (complete: bool)
        ensures
            complete == self@.complete(),
    {
        match self.extent.frames() {
            Some(extent) => self.is_covered(FrameRange::new(0, extent)),
            None => false,
        }
    }

    /// The position to decode from next, chosen from what no producer covered.
    pub fn choose_next(&self) -> (next: Option<u64>)
        ensures
            next == next_position(self@.runs(), self@.extent.planned(), self@.barren),
    {
        match &self.analyzers {
            Some(pass) => self.schedule.next(pass.coverage(), self.extent.frames()),
            None => {
                let empty = Coverage::new();
                self.schedule.next(&empty, self.extent.frames())
            },
        }
    }

    /// Open the pass on its axis, unless an earlier range already has.
    fn open(&mut self)
        requires
            old(self).well_formed(),
        ensures
            final(self).well_formed(),
            final(self)@ == old(self)@.opened(),
            final(self).analyzers is Some,
            final(self).ingest == old(self).ingest,
            final(self).reader == old(self).reader,
            final(self).scratch == old(self).scratch,
    {
        if self.analyzers.is_none() {
            self.analyzers = Some(
                TrackAnalyzers::new(self.rate, self.token.clone(), self.fingerprint.clone()),
            );
        }
    }

    /// Take in what the reader answered to a read.
    pub fn on_read(&mut self, event: ReadEvent) -> (outcome: Option<Ingest>)
        requires
            old(self).well_formed(),
        ensures
            final(self).well_formed(),
            final(self).source() == old(self).source(),
            final(self).exchange() == old(self).exchange(),
            final(self)@ == old(self)@.after_read(event),
            outcome == match event {
                ReadEvent::Chunk(chunk) => Some(
                    push_outcome(
                        old(self)@.opened().pass->0.rate,
                        old(self)@.opened().pass->0.extent,
                        old(self)@.runs(),
                        chunk,
                    ),
                ),
                _ => None,
            },
    {
        match event {
            ReadEvent::Chunk(chunk) => {
                let range = chunk.range();
                self.open();
                let mut outcome: Option<Ingest> = None;
                let mut grew: bool = false;
                if let Some(pass) = &mut self.analyzers {
                    let before: u64 = pass.covered_frames();
                    outcome = Some(pass.push(&chunk));
                    grew = pass.covered_frames() > before;
                }
                if let Some(run) = self.run {
                    self.run = Some(
                        Run {
                            chosen: run.chosen,
                            at: if run.started {
                                run.at
                            } else {
                                range.start()
                            },
                            frontier: range.end(),
                            started: true,
                            grew: run.grew || grew,
                        },
                    );
                }
                outcome
            },
            ReadEvent::Pending => None,
            ReadEvent::Eof => {
                if self.extent.frames().is_none() {
                    self.finish();
                } else {
                    if let Some(run) = self.run {
                        self.extent.unreachable(run.frontier);
                    }
                    self.retire();
                }
                None
            },
            ReadEvent::Failed => {
                // What was covered is still worth publishing: the reader
                // failed, the ranges it already delivered did not.
                self.finish();
                None
            },
        }
    }

    /// Take in what the reader answered to a seek to `at`.
    ///
    /// Where the seek says it landed is only an echo of the target, so the run
    /// opens on the position it asked for and takes its real start from its
    /// first chunk. A position past the end bounds where the source ends
    /// however long it says it is.
    pub fn on_seek(&mut self, at: u64, event: SeekEvent)
        requires
            old(self).well_formed(),
        ensures
            final(self).well_formed(),
            final(self).source() == old(self).source(),
            final(self).exchange() == old(self).exchange(),
            final(self)@ == old(self)@.after_seek(at, event),
    {
        match event {
            SeekEvent::Landed => {
                self.run = Some(
                    Run { chosen: at, at, frontier: at, started: false, grew: false },
                );
            },
            SeekEvent::PastEof => {
                self.extent.unreachable(at);
            },
            SeekEvent::Failed => {
                self.schedule.barren(at);
            },
        }
    }

    /// Take in what the reader answered to a read: a chunk is offered to the
    /// pass, and appended to `folds` where the pass takes it.
    pub fn on_answer(
        &mut self,
        answer: Result<ChunkOutcome, String>,
        folds: &mut Vec<Fold>,
    ) -> (result: TickResult)
        requires
            old(self).well_formed(),
        ensures
            final(self).well_formed(),
            final(self).source() == old(self).source(),
            final(self).exchange() == old(self).exchange(),
            final(self)@ == old(self)@.after_read(event_of(answer)),
            folds_of(final(folds)@) == folds_of(old(folds)@) + old(self)@.read_folds(
                event_of(answer),
                samples_of(answer),
            ),
            old(folds)@.len() <= final(folds)@.len() <= old(folds)@.len() + 1,
            final(folds)@.len() > old(folds)@.len() ==> (answer matches Ok(ChunkOutcome::Chunk(chunk))
                && {
                let fold = final(folds)@.last();
                &&& fold.channels >= 1
                &&& chunk.meta.spec.channels >= 1 ==> fold.channels == chunk.meta.spec.channels
                &&& fold.at == chunk.meta.frame_offset
                &&& fold.samples@ == chunk.samples@
            }),
            result == if event_of(answer) == ReadEvent::Pending {
                TickResult::UpstreamPending
            } else {
                TickResult::Progress
            },
    {
        let ghost before = self@;
        let ghost taken = folds_of(folds@);
        let ghost read = before.read_folds(event_of(answer), samples_of(answer));
        match answer {
            Ok(ChunkOutcome::Chunk(chunk)) => {
                let outcome = self.on_read(ReadEvent::Chunk(chunk.meta));
                if let Some(Ingest::Accepted) = outcome {
                    let channels: u16 = if chunk.meta.spec.channels == 0 {
                        1
                    } else {
                        chunk.meta.spec.channels
                    };
                    folds.push(
                        Fold { samples: chunk.samples, channels, at: chunk.meta.frame_offset },
                    );
                }
                assert(folds_of(folds@) =~= taken + read);
                TickResult::Progress
            },
            Ok(ChunkOutcome::Pending) => {
                assert(folds_of(folds@) =~= taken + read);
                TickResult::UpstreamPending
            },
            Ok(ChunkOutcome::Eof) => {
                self.on_read(ReadEvent::Eof);
                assert(folds_of(folds@) =~= taken + read);
                TickResult::Progress
            },
            Err(_) => {
                self.on_read(ReadEvent::Failed);
                assert(folds_of(folds@) =~= taken + read);
                TickResult::Progress
            },
        }
    }

    /// Ask the reader for one chunk, and take in what it answers.
    fn decode(&mut self, folds: &mut Vec<Fold>) -> (result: TickResult)
        requires
            old(self).well_formed(),
        ensures
            final(self).well_formed(),
            is_one_read(old(self).exchange(), final(self).exchange()),
            ({
                let answer = final(self).exchange().answer();
                &&& final(self)@ == old(self)@.after_read(event_of(answer))
                &&& folds_of(final(folds)@) == folds_of(old(folds)@) + old(self)@.read_folds(
                    event_of(answer),
                    samples_of(answer),
                )
                &&& result == if event_of(answer) == ReadEvent::Pending {
                    TickResult::UpstreamPending
                } else {
                    TickResult::Progress
                }
            }),
    {
        let answer = self.reader.next_chunk();
        assert(self@ == old(self)@);
        assert(self.exchange().answers.last() == answer);
        self.on_answer(answer, folds)
    }

    /// Offer everything a producer left in the transport, one range per
    /// descriptor, and take what the pass does.
    ///
    /// Contiguous ranges are deliberately not joined into one block: the beat
    /// pass segments its resampler at every block boundary, so joining them
    /// would make the artifacts depend on how many ranges happened to be
    /// waiting. Returns whether anything was offered. Every range that leaves
    /// the transport is offered, except one that outgrows the pool's budget:
    /// that one is dropped, and ends the drain.
    fn drain(&mut self, pool: &PcmPool, folds: &mut Vec<Fold>) -> (drained: bool)
        requires
            old(self).well_formed(),
        ensures
            final(self).well_formed(),
            exists|ranges: Seq<(u64, Seq<u32>)>|
                {
                    &&& final(self)@ == #[trigger] old(self)@.drained(ranges)
                    &&& folds_of(final(folds)@) == folds_of(old(folds)@) + old(
                        self,
                    )@.drained_folds(ranges)
                    &&& drained == (ranges.len() > 0)
                    &&& is_drained(
                        old(self).exchange(),
                        final(self).exchange(),
                        ranges,
                        old(self).range_limit(*pool),
                    )
                },
    {
        let mut scratch: PcmBuf = match self.scratch.take() {
            Some(held) => held,
            None => pool.get(),
        };
        let ghost before = old(self)@;
        let ghost start = old(self).exchange();
        let ghost limit = old(self).range_limit(*pool);
        let ghost taken = folds_of(folds@);
        assert(self@ == before);
        assert(self.exchange() == (Exchange { buffer: None, ..start }));
        self.open();
        assert(self.exchange() == (Exchange { buffer: None, ..start }));
        let ghost mut ranges = Seq::<(u64, Seq<u32>)>::empty();
        assert(taken + before.drained_folds(ranges) =~= taken);
        let ghost mut looks = seq![self.ingest];
        let mut drained: bool = false;
        let mut waiting: bool = true;
        while waiting
            invariant
                self.well_formed(),
                self.analyzers is Some,
                self@ == before.drained(ranges),
                folds_of(folds@) == taken + before.drained_folds(ranges),
                drained == (ranges.len() > 0),
                scratch.limit() == limit,
                self.exchange() == (Exchange { transport: self.ingest, buffer: None, ..start }),
                looks[0] == start.transport,
                looks.last() == self.ingest,
                is_taken(looks, ranges, limit),
                waiting ==> looks.len() == ranges.len() + 1,
                !waiting ==> is_emptied(looks, ranges, limit),
            decreases
                self.ingest.span_stream().len() - self.ingest.spans_read().len(),
                if waiting {
                    1int
                } else {
                    0int
                },
        {
            let ghost look = self.ingest;
            match self.ingest.pop(&mut scratch) {
                Some(at) => {
                    let ghost range = (at, scratch@);
                    let ghost held = folds_of(folds@);
                    let mut accepted: bool = false;
                    if let Some(pass) = &mut self.analyzers {
                        accepted = pass.push_mono(scratch.len(), at) == Ingest::Accepted;
                    }
                    if accepted {
                        folds.push(Fold { samples: scratch.take_samples(), channels: 1, at });
                    }
                    drained = true;
                    proof {
                        let more = ranges.push(range);
                        assert(more.drop_last() =~= ranges);
                        assert(span_of(range) == (FrameRange {
                            start: at,
                            frames: range.1.len() as u64,
                        }));
                        let fold = FoldState { samples: range.1, channels: 1, at };
                        if accepted {
                            assert(folds_of(folds@) =~= held.push(fold));
                            assert(before.drained_folds(more) == before.drained_folds(ranges).push(
                                fold,
                            ));
                        } else {
                            assert(before.drained_folds(more) == before.drained_folds(ranges));
                        }
                        assert(folds_of(folds@) =~= taken + before.drained_folds(more));
                        assert(range == look.next_range());
                        lemma_one_more(looks, ranges, limit, self.ingest);
                        looks = looks.push(self.ingest);
                        ranges = more;
                    }
                },
                None => {
                    waiting = false;
                    proof {
                        lemma_no_more(looks, ranges, limit, self.ingest);
                        looks = looks.push(self.ingest);
                    }
                },
            }
        }
        self.scratch = Some(scratch);
        drained
    }

    /// Whether enough new source has been covered to be worth publishing.
    pub fn due(&self) -> (due: bool)
        ensures
            due == self@.is_due(),
    {
        match &self.analyzers {
            Some(pass) => {
                let interval: u64 = (pass.source_sample_rate() as u64) * PUBLISH_SECONDS;
                pass.covered_frames().saturating_sub(self.published_at) >= interval
            },
            None => false,
        }
    }

    /// End the pass, handing the length it planned against to the snapshot so
    /// a range it gave up on is still reported missing. Safe here and not
    /// earlier: nothing is ingested once the phase leaves `Decode`, so an
    /// extent the source under-reports cannot refuse its own tail.
    fn finish(&mut self)
        requires
            old(self).well_formed(),
        ensures
            final(self).well_formed(),
            final(self).source() == old(self).source(),
            final(self).exchange() == old(self).exchange(),
            final(self)@ == old(self)@.finished(),
    {
        let planned: Option<u64> = self.extent.frames();
        if let Some(pass) = &mut self.analyzers {
            if let Some(frames) = planned {
                pass.plan_extent(frames);
            }
            self.phase = TaskPhase::Ending;
        } else {
            self.phase = TaskPhase::Done;
        }
    }

    pub fn is_done(&self) -> (done: bool)
        ensures
            done == (self@.phase == TaskPhase::Done),
    {
        self.phase == TaskPhase::Done
    }

    /// What is to be published, where there is anything: a pass that covered
    /// nothing publishes nothing, the same way a stream that decoded nothing
    /// is not an analysis. It is reachable when every range the reader
    /// produced was measured on another axis.
    fn due_publication(&self, ending: bool) -> (publication: Option<Publication>)
        ensures
            publication == self@.publication(ending),
    {
        match &self.analyzers {
            Some(pass) => if pass.covered_frames() == 0 {
                None
            } else {
                Some(Publication { ending, extent: pass.snapshot_extent(ending) })
            },
            None => None,
        }
    }

    /// Publish what the pass holds, with the artifacts that were made for it.
    /// `ending` marks end of stream, which pins the extent.
    pub fn publish<M: Fn(&Vec<u32>) -> u32>(
        &mut self,
        ending: bool,
        waveform: Option<Vec<u8>>,
        beat: Option<(BeatGrid, Vec<FrameRange>)>,
        mean: M,
    ) -> (published: Option<TrackAnalysis>)
        requires
            old(self).well_formed(),
            forall|confidences: &Vec<u32>|
                confidences@.len() > 0 ==> #[trigger] call_requires(mean, (confidences,)),
        ensures
            final(self).well_formed(),
            final(self).source() == old(self).source(),
            final(self).exchange() == old(self).exchange(),
            final(self)@ == old(self)@.published(ending),
            published is Some <==> old(self)@.publishable(),
            published matches Some(analysis) ==> {
                &&& analysis.publishes(final(self)@.pass->0)
                &&& analysis.waveform == waveform
                &&& beat is None <==> analysis.beat is None
                &&& beat matches Some((grid, unanalysed)) ==> {
                    &&& analysis.beat->0.grid_of() == grid
                    &&& analysis.beat->0.unanalysed_of() == unanalysed@
                    &&& grid.confidences().len() == 0 <==> analysis.beat->0.confidence_of() is None
                    &&& analysis.beat->0.confidence_of() matches Some(bits) ==> exists|
                        confidences: &Vec<u32>,
                    |
                        #[trigger] confidences@ == grid.confidences() && call_ensures(
                            mean,
                            (confidences,),
                            bits,
                        )
                }
            },
    {
        if let Some(pass) = &mut self.analyzers {
            let covered: u64 = pass.covered_frames();
            if covered == 0 {
                return None;
            }
            let analysis = pass.snapshot(ending, waveform, beat, mean);
            self.published_at = covered;
            Some(analysis)
        } else {
            None
        }
    }

    /// Take in what the reader answered to a seek to `at`.
    pub fn on_seek_answer(&mut self, at: u64, answer: Result<SeekOutcome, String>)
        requires
            old(self).well_formed(),
        ensures
            final(self).well_formed(),
            final(self).source() == old(self).source(),
            final(self).exchange() == old(self).exchange(),
            final(self)@ == old(self)@.after_seek(at, seek_event_of(answer)),
    {
        match answer {
            Ok(SeekOutcome::Landed) => self.on_seek(at, SeekEvent::Landed),
            Ok(SeekOutcome::PastEof) => self.on_seek(at, SeekEvent::PastEof),
            Err(_) => self.on_seek(at, SeekEvent::Failed),
        }
    }

    /// Seek to the next scheduled position and open a run there.
    fn reschedule(&mut self, at: u64)
        requires
            old(self).well_formed(),
        ensures
            final(self).well_formed(),
            is_one_seek(old(self).exchange(), final(self).exchange(), old(self)@.rate, at),
            final(self)@ == old(self)@.after_seek(
                at,
                seek_event_of(final(self).exchange().seek_answer()),
            ),
    {
        let answer = self.reader.seek(duration_for_frames(self.rate, at));
        assert(self@ == old(self)@);
        assert(self.exchange().seeks.last().1 == answer);
        self.on_seek_answer(at, answer);
    }

    /// Close the current run, retiring the position it was scheduled to when
    /// it decoded nothing the pass did not already hold.
    ///
    /// Whether the run itself grew the coverage, not whether the coverage
    /// grew: a producer folds ranges from anywhere in the track on every
    /// tick, and counting those would keep an unreachable position eligible.
    fn retire(&mut self)
        requires
            old(self).well_formed(),
        ensures
            final(self).well_formed(),
            final(self).source() == old(self).source(),
            final(self).exchange() == old(self).exchange(),
            final(self)@ == old(self)@.retired(),
    {
        if let Some(run) = self.run {
            self.run = None;
            if !run.grew {
                self.schedule.barren(run.chosen);
            }
        }
    }

    /// Whether the current run has done its work: nothing open, the next
    /// frame already covered, the extent reached, or a whole detector window
    /// decoded.
    ///
    /// The next frame counts only once the run has decoded something: a seek
    /// lands on a frame boundary of its own choosing, so the position it parks
    /// at can be just inside covered audio while the range it was scheduled
    /// for is still ahead of it.
    pub fn run_over(&self, run_frames: Option<u64>) -> (over: bool)
        ensures
            over == self@.run_is_over(run_frames),
    {
        let run: Run = match self.run {
            Some(run) => run,
            None => return true,
        };
        if let Some(extent) = self.extent.frames() {
            if run.frontier >= extent {
                return true;
            }
        }
        if run.frontier > run.at && self.is_covered(FrameRange::new(run.frontier, 1)) {
            return true;
        }
        match run_frames {
            Some(window) => run.frontier.saturating_sub(run.at) >= window,
            None => false,
        }
    }

    /// Decide what one decode step asks of the reader: linear while the source
    /// reports no length, and scheduled once it does. Ends the pass when there
    /// is nothing left to schedule: the extent is covered, or what is left of
    /// it has already proved unreachable.
    pub fn plan(&mut self, run_frames: Option<u64>) -> (action: Action)
        requires
            old(self).well_formed(),
        ensures
            final(self).well_formed(),
            final(self).source() == old(self).source(),
            final(self).exchange() == old(self).exchange(),
            action == old(self)@.action(run_frames),
            final(self)@ == old(self)@.acting(run_frames),
    {
        if self.extent.frames().is_none() {
            return Action::Decode;
        }
        if self.is_complete() {
            self.finish();
            return Action::Finish;
        }
        if self.run_over(run_frames) {
            self.retire();
            return match self.choose_next() {
                Some(at) => Action::Seek { at },
                None => {
                    self.finish();
                    Action::Finish
                },
            };
        }
        Action::Decode
    }

    /// One decode step.
    fn step(&mut self, run_frames: Option<u64>, folds: &mut Vec<Fold>) -> (result: TickResult)
        requires
            old(self).well_formed(),
        ensures
            final(self).well_formed(),
            is_asked(
                old(self)@.action(run_frames),
                old(self)@.rate,
                old(self).exchange(),
                final(self).exchange(),
            ),
            ({
                let answered = final(self).exchange();
                let read = event_of(answered.answer());
                &&& final(self)@ == old(self)@.stepped(
                    run_frames,
                    read,
                    seek_event_of(answered.seek_answer()),
                )
                &&& folds_of(final(folds)@) == folds_of(old(folds)@) + old(self)@.step_folds(
                    run_frames,
                    read,
                    samples_of(answered.answer()),
                )
                &&& result == old(self)@.step_result(run_frames, read)
            }),
    {
        let ghost taken = folds_of(folds@);
        assert(taken + Seq::<FoldState>::empty() =~= taken);
        match self.plan(run_frames) {
            Action::Decode => self.decode(folds),
            Action::Seek { at } => {
                self.reschedule(at);
                TickResult::Progress
            },
            Action::Finish => TickResult::Progress,
        }
    }

    /// One tick of the pass. The ranges it took are appended to `folds`: they
    /// are to be folded into the artifacts, and then what is due is to be
    /// published.
    pub fn tick(
        &mut self,
        cancelled: bool,
        run_frames: Option<u64>,
        pool: &PcmPool,
        folds: &mut Vec<Fold>,
    ) -> (tick: Tick)
        requires
            old(self).well_formed(),
        ensures
            final(self).well_formed(),
            cancelled || old(self)@.phase != TaskPhase::Decode ==> final(self).source() == old(
                self,
            ).source(),
            folds_of(old(folds)@).is_prefix_of(folds_of(final(folds)@)),
            is_tick(
                old(self)@,
                old(self).exchange(),
                cancelled,
                run_frames,
                old(self).range_limit(*pool),
                final(self)@,
                final(self).exchange(),
                folds_of(final(folds)@).skip(old(folds)@.len() as int),
                tick,
            ),
    {
        let ghost before = self@;
        let ghost asked = self.exchange();
        let ghost limit = self.range_limit(*pool);
        let ghost taken = folds_of(folds@);
        if cancelled {
            self.phase = TaskPhase::Done;
            return Tick { result: TickResult::Progress, publish: None };
        }
        match self.phase {
            TaskPhase::Decode => {
                let drained: bool = self.drain(pool, folds);
                let ghost opened = self@;
                let ghost emptied = self.exchange();
                let ghost first = folds_of(folds@);
                // Re-read rather than cached: the decode path refines a
                // duration upward as it learns more, and a subdivision
                // computed against a short extent leaves the tail unplanned.
                let duration = self.reader.duration();
                self.extent.report(duration, self.rate);
                let ghost ready = self@;
                let ghost told = self.exchange();
                assert(told == (Exchange { lengths: asked.lengths.push(duration), ..emptied }));
                let result: TickResult = self.step(run_frames, folds);
                let publish: Option<Publication> = if self.phase == TaskPhase::Decode
                    && self.due() {
                    self.due_publication(false)
                } else {
                    None
                };
                let tick = Tick {
                    result: if drained {
                        TickResult::Progress
                    } else {
                        result
                    },
                    publish,
                };
                proof {
                    let ranges = choose|ranges: Seq<(u64, Seq<u32>)>|
                        {
                            &&& opened == #[trigger] before.drained(ranges)
                            &&& first == taken + before.drained_folds(ranges)
                            &&& drained == (ranges.len() > 0)
                            &&& is_drained(asked, emptied, ranges, limit)
                        };
                    let answered = self.exchange();
                    lemma_drained_keeps_the_rest(before, ranges);
                    assert(emptied == (Exchange {
                        transport: answered.transport,
                        buffer: Some(limit),
                        ..asked
                    }));
                    assert(answered.length() == duration);
                    assert(folds_of(folds@).skip(taken.len() as int) =~= before.drained_folds(
                        ranges,
                    ) + ready.step_folds(
                        run_frames,
                        event_of(answered.answer()),
                        samples_of(answered.answer()),
                    ));
                    assert(is_decode_tick(
                        before,
                        asked,
                        run_frames,
                        limit,
                        ranges,
                        self@,
                        answered,
                        folds_of(folds@).skip(taken.len() as int),
                        tick,
                    ));
                }
                tick
            },
            TaskPhase::Ending => {
                let publish = self.due_publication(true);
                self.phase = TaskPhase::Done;
                Tick { result: TickResult::Progress, publish }
            },
            TaskPhase::Done => Tick { result: TickResult::Done, publish: None },
        }
    }
}

proof fn lemma_drained_keeps_the_rest(before: TaskState, ranges: Seq<(u64, Seq<u32>)>)
    ensures
        before.drained(ranges) == (TaskState { pass: before.drained(ranges).pass, ..before }),
    decreases ranges.len(),
{
    if ranges.len() > 0 {
        lemma_drained_keeps_the_rest(before, ranges.drop_last());
    }
}

/// Draining changes what the pass has observed, and nothing else of the task;
/// and it only ever adds to it.
proof fn lemma_drained(before: TaskState, spans: Seq<(u64, Seq<u32>)>)
    requires
        separated(before.runs()),
    ensures
        before.drained(spans).pass is Some,
        before.drained(spans) == (TaskState { pass: before.drained(spans).pass, ..before }),
        before.drained(spans).pass->0 == (PassState {
            runs: before.drained(spans).runs(),
            ..before.opened().pass->0
        }),
        separated(before.drained(spans).runs()),
        forall|frame: int|
            covered(before.runs(), frame) ==> #[trigger] covered(
                before.drained(spans).runs(),
                frame,
            ),
    decreases spans.len(),
{
    if spans.len() > 0 {
        let rest = spans.drop_last();
        lemma_drained(before, rest);
        lemma_union_exists(before.drained(rest).runs(), span_of(spans.last()));
    }
}

/// One step only ever adds to what the pass has observed.
proof fn lemma_stepped(
    state: TaskState,
    run_frames: Option<u64>,
    read: ReadEvent,
    seek: SeekEvent,
)
    requires
        separated(state.runs()),
        state.pass is Some,
    ensures
        state.stepped(run_frames, read, seek).pass is Some,
        state.stepped(run_frames, read, seek).pass->0.revision == state.pass->0.revision,
        separated(state.stepped(run_frames, read, seek).runs()),
        forall|frame: int|
            covered(state.runs(), frame) ==> #[trigger] covered(
                state.stepped(run_frames, read, seek).runs(),
                frame,
            ),
{
    if read is Chunk {
        lemma_union_exists(state.runs(), read->0.range_of());
    }
}

/// A tick never takes back what the pass has observed, and leaves the revision
/// as it is.
pub proof fn law_coverage_only_grows(
    before: TaskState,
    asked: Exchange,
    cancelled: bool,
    run_frames: Option<u64>,
    limit: int,
    after: TaskState,
    answered: Exchange,
    folds: Seq<FoldState>,
    tick: Tick,
    frame: int,
)
    requires
        is_tick(before, asked, cancelled, run_frames, limit, after, answered, folds, tick),
        separated(before.runs()),
    ensures
        separated(after.runs()),
        covered(before.runs(), frame) ==> covered(after.runs(), frame),
        after.opened().pass->0.revision == before.opened().pass->0.revision,
{
    if !cancelled && before.phase == TaskPhase::Decode {
        let ranges = choose|ranges: Seq<(u64, Seq<u32>)>|
            #[trigger] is_decode_tick(
                before,
                asked,
                run_frames,
                limit,
                ranges,
                after,
                answered,
                folds,
                tick,
            );
        lemma_drained(before, ranges);
        lemma_stepped(
            before.drained(ranges).told(answered.length()),
            run_frames,
            event_of(answered.answer()),
            seek_event_of(answered.seek_answer()),
        );
    }
}

/// Every publication is the next revision, of what the pass has covered; a pass
/// that covered nothing publishes nothing.
pub proof fn law_a_publication_is_the_next_revision(state: TaskState, ending: bool)
    requires
        state.publishable(),
        state.pass->0.revision < u64::MAX,
        total_frames(state.pass->0.runs) <= u64::MAX,
    ensures
        state.published(ending).pass->0.revision == state.pass->0.revision + 1,
        state.published(ending).runs() == state.runs(),
        state.pass->0.rate > 0 ==> !state.published(ending).is_due(),
{
}

/// The samples of `ranges`, one range after the other.
pub open spec fn samples_in(ranges: Seq<(u64, Seq<u32>)>) -> Seq<u32>
    decreases ranges.len(),
{
    if ranges.len() == 0 {
        Seq::empty()
    } else {
        samples_in(ranges.drop_last()) + ranges.last().1
    }
}

/// A look that gives a range adds it.
proof fn lemma_one_more(
    looks: Seq<ring::Reader>,
    ranges: Seq<(u64, Seq<u32>)>,
    limit: int,
    next: ring::Reader,
)
    requires
        is_taken(looks, ranges, limit),
        looks.len() == ranges.len() + 1,
        looks.last().gives(limit),
        ring::is_read(looks.last(), next),
    ensures
        is_taken(looks.push(next), ranges.push(looks.last().next_range()), limit),
{
    let further = looks.push(next);
    let more = ranges.push(looks.last().next_range());
    assert forall|i: int| 0 <= i < more.len() implies #[trigger] gave(further, more, limit, i) by {
        if i < ranges.len() {
            assert(gave(looks, ranges, limit, i));
        }
    }
}

/// A look that gives none is the last.
proof fn lemma_no_more(
    looks: Seq<ring::Reader>,
    ranges: Seq<(u64, Seq<u32>)>,
    limit: int,
    next: ring::Reader,
)
    requires
        is_taken(looks, ranges, limit),
        looks.len() == ranges.len() + 1,
        !looks.last().gives(limit),
        ring::is_read(looks.last(), next),
    ensures
        is_emptied(looks.push(next), ranges, limit),
{
    let further = looks.push(next);
    assert forall|i: int| 0 <= i < ranges.len() implies #[trigger] gave(
        further,
        ranges,
        limit,
        i,
    ) by {
        assert(gave(looks, ranges, limit, i));
    }
}

/// What the first `count` reads have taken out.
proof fn lemma_taken(
    looks: Seq<ring::Reader>,
    ranges: Seq<(u64, Seq<u32>)>,
    limit: int,
    count: int,
)
    requires
        is_taken(looks, ranges, limit),
        0 <= count <= ranges.len(),
    ensures
        looks[count].samples_read() == looks[0].samples_read() + samples_in(ranges.take(count)),
        looks[count].spans_read().len() == looks[0].spans_read().len() + count,
        looks[0].spans_read().is_prefix_of(looks[count].spans_read()),
        forall|i: int|
            0 <= i < count ==> {
                let span = looks[count].spans_read()[looks[0].spans_read().len() + i];
                &&& (#[trigger] ranges[i]).0 == span.0
                &&& ranges[i].1.len() <= span.1 <= limit
            },
    decreases count,
{
    let first = looks[0].spans_read();
    if count == 0 {
        assert(samples_in(ranges.take(0)) =~= Seq::<u32>::empty());
        assert(looks[0].samples_read() + Seq::<u32>::empty() =~= looks[0].samples_read());
    } else {
        let n = count - 1;
        lemma_taken(looks, ranges, limit, n);
        assert(gave(looks, ranges, limit, n));
        assert(ranges.take(count).drop_last() =~= ranges.take(n));
        assert(ranges.take(count).last() == ranges[n]);
        assert(looks[0].samples_read() + samples_in(ranges.take(count)) =~= looks[0].samples_read()
            + samples_in(ranges.take(n)) + ranges[n].1);
        assert forall|i: int| 0 <= i < count implies {
            let span = looks[count].spans_read()[first.len() + i];
            &&& (#[trigger] ranges[i]).0 == span.0
            &&& ranges[i].1.len() <= span.1 <= limit
        } by {
            if i < n {
                assert(looks[count].spans_read()[first.len() + i]
                    == looks[n].spans_read()[first.len() + i]);
            }
        }
        assert forall|i: int| 0 <= i < first.len() implies first[i]
            == looks[count].spans_read()[i] by {
            assert(first[i] == looks[n].spans_read()[i]);
        }
    }
}

/// What a drain takes is what the transport gave up: a range for each descriptor
/// it has read since, from that descriptor's start on, and together their
/// samples, except those of a last range that was dropped because it has more
/// than the buffer may hold.
pub proof fn law_a_drain_takes_what_the_transport_gave(
    before: Exchange,
    after: Exchange,
    ranges: Seq<(u64, Seq<u32>)>,
    limit: int,
)
    requires
        is_drained(before, after, ranges, limit),
    ensures
        ({
            let read = before.transport.spans_read();
            let spans = after.transport.spans_read();
            let samples = before.transport.samples_read() + samples_in(ranges);
            &&& read.is_prefix_of(spans)
            &&& forall|i: int|
                0 <= i < ranges.len() ==> (#[trigger] ranges[i]).0 == spans[read.len() + i].0
                    && ranges[i].1.len() <= spans[read.len() + i].1
            &&& spans.len() == read.len() + ranges.len() ==> after.transport.samples_read()
                == samples
            &&& spans.len() != read.len() + ranges.len() ==> {
                &&& spans.len() == read.len() + ranges.len() + 1
                &&& spans.last().1 > limit
                &&& samples.is_prefix_of(after.transport.samples_read())
            }
        }),
{
    let looks = choose|looks: Seq<ring::Reader>|
        {
            &&& #[trigger] is_emptied(looks, ranges, limit)
            &&& looks[0] == before.transport
            &&& looks.last() == after.transport
        };
    let last = ranges.len() as int;
    lemma_taken(looks, ranges, limit, last);
    assert(ranges.take(last) =~= ranges);
    let read = before.transport.spans_read();
    let spans = after.transport.spans_read();
    let held = looks[last].spans_read();
    assert forall|i: int| 0 <= i < ranges.len() implies (#[trigger] ranges[i]).0 == spans[read.len()
        + i].0 && ranges[i].1.len() <= spans[read.len() + i].1 by {
        assert(spans[read.len() + i] == held[read.len() + i]);
    }
    assert forall|i: int| 0 <= i < read.len() implies read[i] == spans[i] by {
        assert(read[i] == held[i]);
    }
}

/// Reads that find every sample of their ranges leave a whole transport whole,
/// and add those ranges to what was read.
proof fn lemma_taken_whole(
    looks: Seq<ring::Reader>,
    ranges: Seq<(u64, Seq<u32>)>,
    limit: int,
    count: int,
)
    requires
        is_taken(looks, ranges, limit),
        0 <= count <= ranges.len(),
        looks[0].well_formed(),
        looks[0].whole(),
        forall|i: int|
            0 <= i < count ==> (#[trigger] ranges[i]).1.len() == looks[i].next_span().1,
    ensures
        looks[count].well_formed(),
        looks[count].whole(),
        looks[count].sample_stream() == looks[0].sample_stream(),
        looks[count].span_stream() == looks[0].span_stream(),
        looks[count].ranges() == looks[0].ranges() + ranges.take(count),
    decreases count,
{
    if count == 0 {
        assert(looks[0].ranges() + ranges.take(0) =~= looks[0].ranges());
    } else {
        let n = count - 1;
        lemma_taken_whole(looks, ranges, limit, n);
        assert(gave(looks, ranges, limit, n));
        let (at, frames) = looks[n].next_span();
        assert(ranges[n].1.len() == frames);
        ring::lemma_ranges_push(
            looks[n].spans_read(),
            looks[n].samples_read(),
            at,
            frames,
            looks[n].next_samples(frames),
        );
        assert(looks[0].ranges() + ranges.take(count) =~= (looks[0].ranges() + ranges.take(
            n,
        )).push(ranges[n]));
    }
}

/// What a drain takes is what was sent: where the reads before it and in it came
/// with all their samples, the i-th range it takes is the one that was sent that
/// many ranges behind those read before, with its start and its samples.
pub proof fn law_a_drain_takes_what_was_sent(
    writer: ring::Writer,
    before: Exchange,
    after: Exchange,
    ranges: Seq<(u64, Seq<u32>)>,
    limit: int,
    i: int,
)
    requires
        is_drained(before, after, ranges, limit),
        ring::connected(writer, before.transport),
        writer.well_formed(),
        before.transport.well_formed(),
        before.transport.whole(),
        forall|k: int|
            0 <= k < ranges.len() ==> (#[trigger] ranges[k]).1.len()
                == after.transport.spans_read()[before.transport.spans_read().len() + k].1,
        0 <= i < ranges.len(),
        before.transport.spans_read().len() + i < writer.ranges().len(),
    ensures
        ranges[i] == writer.ranges()[before.transport.spans_read().len() + i],
{
    let looks = choose|looks: Seq<ring::Reader>|
        {
            &&& #[trigger] is_emptied(looks, ranges, limit)
            &&& looks[0] == before.transport
            &&& looks.last() == after.transport
        };
    let first = before.transport.spans_read().len() as int;
    assert forall|k: int| 0 <= k < ranges.len() implies (#[trigger] ranges[k]).1.len()
        == looks[k].next_span().1 by {
        lemma_taken(looks, ranges, limit, k);
        lemma_reads_keep(looks, ranges, limit, k + 1);
        assert(gave(looks, ranges, limit, k));
        assert(looks[k + 1].spans_read()[first + k] == looks[k].next_span());
        assert(after.transport.spans_read()[first + k] == looks[k + 1].spans_read()[first + k]);
    }
    lemma_taken_whole(looks, ranges, limit, i + 1);
    let reader = looks[i + 1];
    assert(before.transport.ranges().len() == first);
    assert(reader.ranges()[first + i] == ranges[i]);
    ring::law_ranges_come_out_as_they_went_in(writer, reader, first + i);
}

/// A range that waits and fits is taken by the next tick of a pass that still
/// decodes, before anything is read: it is the first that is offered to the
/// pass, and the tick is progress.
pub proof fn law_a_waiting_range_is_taken(
    before: TaskState,
    asked: Exchange,
    run_frames: Option<u64>,
    limit: int,
    after: TaskState,
    answered: Exchange,
    folds: Seq<FoldState>,
    tick: Tick,
)
    requires
        is_tick(before, asked, false, run_frames, limit, after, answered, folds, tick),
        before.phase == TaskPhase::Decode,
        asked.transport.gives(limit),
    ensures
        tick.result == TickResult::Progress,
        asked.transport.spans_read().push(asked.transport.next_span()).is_prefix_of(
            answered.transport.spans_read(),
        ),
        exists|ranges: Seq<(u64, Seq<u32>)>|
            {
                &&& #[trigger] is_decode_tick(
                    before,
                    asked,
                    run_frames,
                    limit,
                    ranges,
                    after,
                    answered,
                    folds,
                    tick,
                )
                &&& ranges.len() > 0
                &&& ranges[0] == asked.transport.next_range()
            },
{
    let ranges = choose|ranges: Seq<(u64, Seq<u32>)>|
        #[trigger] is_decode_tick(
            before,
            asked,
            run_frames,
            limit,
            ranges,
            after,
            answered,
            folds,
            tick,
        );
    let drained = Exchange { transport: answered.transport, buffer: Some(limit), ..asked };
    let looks = choose|looks: Seq<ring::Reader>|
        {
            &&& #[trigger] is_emptied(looks, ranges, limit)
            &&& looks[0] == asked.transport
            &&& looks.last() == drained.transport
        };
    assert(ranges.len() > 0);
    assert(gave(looks, ranges, limit, 0));
    lemma_reads_keep(looks, ranges, limit, 1);
}

/// What is read once stays read.
proof fn lemma_reads_keep(
    looks: Seq<ring::Reader>,
    ranges: Seq<(u64, Seq<u32>)>,
    limit: int,
    from: int,
)
    requires
        is_emptied(looks, ranges, limit),
        0 <= from <= ranges.len(),
    ensures
        looks[from].spans_read().is_prefix_of(looks.last().spans_read()),
    decreases ranges.len() - from,
{
    if from < ranges.len() {
        assert(gave(looks, ranges, limit, from));
        lemma_reads_keep(looks, ranges, limit, from + 1);
    }
}

/// Whether a range that was taken holds a frame that `runs` do not.
pub open spec fn adds_to(runs: Seq<FrameRange>, fold: FoldState) -> bool {
    exists|frame: int|
        #[trigger] span_of((fold.at, fold.samples)).has(frame) && !covered(runs, frame)
}

/// What is taken out of the transport, the pass had not covered: every range
/// that is folded into the artifacts holds a frame that was not covered before
/// the tick.
pub proof fn law_only_new_ranges_are_folded(before: TaskState, ranges: Seq<(u64, Seq<u32>)>)
    requires
        separated(before.runs()),
    ensures
        forall|k: int|
            0 <= k < before.drained_folds(ranges).len() ==> adds_to(
                before.runs(),
                #[trigger] before.drained_folds(ranges)[k],
            ),
    decreases ranges.len(),
{
    if ranges.len() > 0 {
        let rest = ranges.drop_last();
        law_only_new_ranges_are_folded(before, rest);
        lemma_drained(before, rest);
        let pass = before.drained(rest).pass->0;
        let span = span_of(ranges.last());
        let earlier = before.drained_folds(rest);
        assert forall|k: int| 0 <= k < before.drained_folds(ranges).len() implies adds_to(
            before.runs(),
            #[trigger] before.drained_folds(ranges)[k],
        ) by {
            let fold = before.drained_folds(ranges)[k];
            if k < earlier.len() {
                assert(fold == earlier[k]);
            } else {
                assert(span_of((fold.at, fold.samples)) == span);
                let frame = choose|frame: int| span.has(frame) && !covered(pass.runs, frame);
                assert(span_of((fold.at, fold.samples)).has(frame) && !covered(
                    before.runs(),
                    frame,
                ));
            }
        }
    }
}

/// A pass that has left the decoding phase ingests nothing more: one more tick
/// ends it, and then it stays done.
pub proof fn law_an_ended_pass_stays_ended(
    before: TaskState,
    asked: Exchange,
    cancelled: bool,
    run_frames: Option<u64>,
    limit: int,
    after: TaskState,
    answered: Exchange,
    folds: Seq<FoldState>,
    tick: Tick,
)
    requires
        is_tick(before, asked, cancelled, run_frames, limit, after, answered, folds, tick),
        before.phase != TaskPhase::Decode,
    ensures
        after.phase == TaskPhase::Done,
        after.runs() == before.runs(),
        answered == asked,
        folds.len() == 0,
        before.phase == TaskPhase::Done ==> tick.publish is None,
{
}

/// Every seek goes somewhere new: inside the extent, to a frame that is not
/// covered, and never to where an earlier run found nothing, the one it
/// replaces among them.
pub proof fn law_a_seek_goes_somewhere_new(state: TaskState, run_frames: Option<u64>, at: u64)
    requires
        state.action(run_frames) == (Action::Seek { at }),
    ensures
        state.extent.planned() matches Some(extent) && at < extent,
        !covered(state.runs(), at as int),
        !state.barren.contains(at),
        state.run matches Some(run) ==> run.grew || at != run.chosen,
        forall|event: SeekEvent|
            event == SeekEvent::Failed ==> (#[trigger] state.acting(run_frames).after_seek(
                at,
                event,
            )).barren.contains(at),
{
    law_next_is_new(state.runs(), state.extent.planned()->0, state.retired().barren);
}

/// A pass whose whole planned extent is covered ends, whatever its current run
/// is waiting for.
pub proof fn law_a_complete_pass_ends(state: TaskState, run_frames: Option<u64>)
    requires
        state.complete(),
    ensures
        state.action(run_frames) == Action::Finish,
        state.acting(run_frames).phase == TaskPhase::Ending,
{
}

/// What is folded of a decoded chunk is the chunk: its samples, at its own
/// position, under the channel count of its own spec, and at least one. So a
/// chunk of whole frames is a fold of as many frames.
pub proof fn law_a_fold_is_its_chunk(
    state: TaskState,
    run_frames: Option<u64>,
    chunk: ChunkMeta,
    samples: Seq<u32>,
    i: int,
)
    requires
        0 <= i < state.read_folds(ReadEvent::Chunk(chunk), samples).len(),
    ensures
        ({
            let folds = state.read_folds(ReadEvent::Chunk(chunk), samples);
            let fold = folds[i];
            &&& folds.len() == 1
            &&& fold.channels >= 1
            &&& chunk.spec.channels >= 1 ==> fold.channels == chunk.spec.channels
            &&& fold.at == chunk.frame_offset
            &&& fold.samples == samples
            &&& chunk.spec.channels >= 1 && samples.len() == chunk.frames * chunk.spec.channels
                ==> fold.samples.len() == chunk.frames * fold.channels
            &&& chunk.spec.channels == 0 && samples.len() == chunk.frames ==> fold.samples.len()
                == chunk.frames * fold.channels
            &&& state.action(run_frames) == Action::Decode ==> state.step_folds(
                run_frames,
                ReadEvent::Chunk(chunk),
                samples,
            ) == folds
        }),
{
    let fold = state.read_folds(ReadEvent::Chunk(chunk), samples)[0];
    assert(i == 0);
    if chunk.spec.channels == 0 {
        assert(fold.channels == 1);
        assert(chunk.frames * fold.channels == chunk.frames) by (nonlinear_arith)
            requires
                fold.channels == 1,
        ;
    } else {
        assert(fold.channels == chunk.spec.channels);
    }
}

/// A chunk is folded exactly when it makes the pass cover more, and then its
/// frames and no others are new. Whatever else the reader answers is folded
/// nowhere and covers nothing.
#[verifier::rlimit(60)]
pub proof fn law_what_is_folded_is_covered(
    state: TaskState,
    read: ReadEvent,
    samples: Seq<u32>,
    frame: int,
)
    requires
        separated(state.runs()),
    ensures
        ({
            let folds = state.read_folds(read, samples);
            let after = state.after_read(read);
            &&& folds.len() > 0 ==> read is Chunk && exists|new: int|
                !(#[trigger] covered(state.runs(), new)) && covered(after.runs(), new)
            &&& folds.len() == 0 ==> after.runs() == state.runs()
            &&& covered(after.runs(), frame) <==> covered(state.runs(), frame) || (folds.len() > 0
                && read->Chunk_0.frame_offset <= frame && frame < read->Chunk_0.range_of().end_frame())
            &&& separated(after.runs())
        }),
{
    if read is Chunk {
        let chunk = read->Chunk_0;
        let pass = state.opened().pass->0;
        law_a_pass_takes_what_is_new_and_inside(pass, chunk.range_of(), frame);
        law_a_foreign_rate_changes_nothing(pass, chunk);
        if state.read_folds(read, samples).len() > 0 {
            let new = choose|new: int| chunk.range_of().has(new) && !covered(pass.runs, new);
            law_a_pass_takes_what_is_new_and_inside(pass, chunk.range_of(), new);
            assert(!covered(state.runs(), new) && covered(state.after_read(read).runs(), new));
        }
    }
}

/// Every fold of a drain is one of the ranges that were offered, as it came: its
/// samples, at its position, in one channel.
pub proof fn law_a_drained_fold_is_its_range(
    state: TaskState,
    ranges: Seq<(u64, Seq<u32>)>,
    k: int,
)
    requires
        0 <= k < state.drained_folds(ranges).len(),
    ensures
        exists|i: int|
            {
                &&& 0 <= i < ranges.len()
                &&& (#[trigger] ranges[i]).0 == state.drained_folds(ranges)[k].at
                &&& ranges[i].1 == state.drained_folds(ranges)[k].samples
                &&& state.drained_folds(ranges)[k].channels == 1
            },
    decreases ranges.len(),
{
    let rest = ranges.drop_last();
    let earlier = state.drained_folds(rest);
    if k < earlier.len() {
        law_a_drained_fold_is_its_range(state, rest, k);
        let i = choose|i: int|
            {
                &&& 0 <= i < rest.len()
                &&& (#[trigger] rest[i]).0 == earlier[k].at
                &&& rest[i].1 == earlier[k].samples
                &&& earlier[k].channels == 1
            };
        assert(ranges[i] == rest[i]);
        assert(state.drained_folds(ranges)[k] == earlier[k]);
    } else {
        assert(ranges[ranges.len() - 1] == ranges.last());
    }
}

/// What a drain covers that was not covered before, one of its folds brought;
/// and what a fold brought is covered.
#[verifier::rlimit(60)]
pub proof fn law_what_a_drain_covers_was_folded(
    state: TaskState,
    ranges: Seq<(u64, Seq<u32>)>,
    frame: int,
)
    requires
        separated(state.runs()),
    ensures
        separated(state.drained(ranges).runs()),
        covered(state.drained(ranges).runs(), frame) <==> covered(state.runs(), frame) || exists|
            k: int,
        |
            0 <= k < state.drained_folds(ranges).len() && span_of(
                (
                    (#[trigger] state.drained_folds(ranges)[k]).at,
                    state.drained_folds(ranges)[k].samples,
                ),
            ).has(frame),
    decreases ranges.len(),
{
    if ranges.len() > 0 {
        let rest = ranges.drop_last();
        law_what_a_drain_covers_was_folded(state, rest, frame);
        let pass = state.drained(rest).pass->0;
        let span = span_of(ranges.last());
        lemma_drained(state, rest);
        law_a_pass_takes_what_is_new_and_inside(pass, span, frame);
        let earlier = state.drained_folds(rest);
        let folds = state.drained_folds(ranges);
        if covered(state.drained(rest).runs(), frame) && !covered(state.runs(), frame) {
            let k = choose|k: int|
                0 <= k < earlier.len() && span_of(
                    ((#[trigger] earlier[k]).at, earlier[k].samples),
                ).has(frame);
            assert(folds[k] == earlier[k]);
        }
        if ingest_outcome(pass.extent, pass.runs, span) == Ingest::Accepted {
            assert(folds[earlier.len() as int].at == ranges.last().0);
            assert(folds[earlier.len() as int].samples == ranges.last().1);
        }
        assert forall|k: int| 0 <= k < folds.len() && span_of(
            ((#[trigger] folds[k]).at, folds[k].samples),
        ).has(frame) implies covered(state.drained(ranges).runs(), frame) by {
            if k < earlier.len() {
                assert(folds[k] == earlier[k]);
            }
        }
    }
}

/// A run stands at the end of the chunk it read last. It keeps the position it
/// was sent to, counts from where its first chunk really began, and has grown as
/// soon as one of its chunks covered a frame that was missing.
#[verifier::rlimit(60)]
pub proof fn law_a_run_follows_its_chunks(state: TaskState, chunk: ChunkMeta, next: ChunkMeta)
    requires
        state.run is Some,
        separated(state.runs()),
    ensures
        ({
            let after = state.after_chunk(chunk);
            let run = state.run->0;
            &&& after.run matches Some(moved) && {
                &&& moved.chosen == run.chosen
                &&& chunk.frame_offset + chunk.frames <= u64::MAX ==> moved.frontier
                    == chunk.frame_offset + chunk.frames
                &&& moved.started
                &&& !run.started ==> moved.at == chunk.frame_offset
                &&& run.started ==> moved.at == run.at
                &&& run.grew ==> moved.grew
                &&& moved.grew <==> run.grew || after.runs() != state.runs()
            }
            &&& after.after_chunk(next).run->0.at == after.run->0.at
            &&& after == TaskState { pass: after.pass, run: after.run, ..state }
        }),
{
    let pass = state.opened().pass->0;
    let after = pass.pushed(chunk);
    law_a_pass_takes_what_is_new_and_inside(pass, chunk.range_of(), 0);
    law_a_foreign_rate_changes_nothing(pass, chunk);
    if after.runs != pass.runs {
        assert forall|frame: int| covered(pass.runs, frame) implies covered(after.runs, frame) by {
            law_a_pass_takes_what_is_new_and_inside(pass, chunk.range_of(), frame);
        }
        let new = choose|new: int| chunk.range_of().has(new) && !covered(pass.runs, new);
        law_a_pass_takes_what_is_new_and_inside(pass, chunk.range_of(), new);
        lemma_more_frames(pass.runs, after.runs, new);
    }
}

/// Runs that cover one frame more hold more frames.
proof fn lemma_more_frames(less: Seq<FrameRange>, more: Seq<FrameRange>, new: int)
    requires
        separated(less),
        separated(more),
        forall|frame: int| covered(less, frame) ==> covered(more, frame),
        covered(more, new),
        !covered(less, new),
    ensures
        total_frames(less) < total_frames(more),
{
    law_frames_count_once(less);
    law_frames_count_once(more);
    assert(frame_set(less).insert(new).subset_of(frame_set(more)));
    vstd::set_lib::lemma_len_subset(frame_set(less).insert(new), frame_set(more));
}

/// A run inside the extent that has met nothing covered goes on until it has
/// decoded a whole window, and no longer; without a window it goes on.
pub proof fn law_a_run_lasts_one_window(
    state: TaskState,
    run_frames: Option<u64>,
    longer: u64,
)
    requires
        state.run is Some,
        state.run->0.at <= state.run->0.frontier < u64::MAX,
        state.extent.planned() matches Some(extent) ==> state.run->0.frontier < extent,
        !covered(state.runs(), state.run->0.frontier as int),
    ensures
        state.run_is_over(run_frames) <==> run_frames is Some && state.run->0.frontier
            - state.run->0.at >= run_frames->0,
        run_frames matches Some(window) ==> (window <= longer && state.run_is_over(Some(longer))
            ==> state.run_is_over(run_frames)),
{
    let next = FrameRange { start: state.run->0.frontier, frames: 1 };
    assert(next.has(state.run->0.frontier as int));
}

/// A run ends where the extent does, and where it runs into what is covered
/// already; one that has not moved yet may stand on a covered frame. No run is
/// open where there is none.
pub proof fn law_a_run_ends_at_what_is_known(state: TaskState, run_frames: Option<u64>)
    ensures
        state.run is None ==> state.run_is_over(run_frames),
        state.run matches Some(run) ==> {
            &&& state.extent.planned() matches Some(extent) ==> (extent <= run.frontier
                ==> state.run_is_over(run_frames))
            &&& run.at < run.frontier && run.frontier < u64::MAX && covered(
                state.runs(),
                run.frontier as int,
            ) ==> state.run_is_over(run_frames)
            &&& run.frontier == run.at && run_frames is None && (state.extent.planned() matches Some(
                extent,
            ) ==> run.frontier < extent) ==> !state.run_is_over(run_frames)
        },
{
    if state.run is Some {
        let run = state.run->0;
        if run.frontier < u64::MAX && covered(state.runs(), run.frontier as int) {
            let next = FrameRange { start: run.frontier, frames: 1 };
            assert(forall|frame: int| next.has(frame) ==> frame == run.frontier);
            assert(holds(state.runs(), next));
        }
    }
}

/// Closing a run rules out the position it was sent to exactly when the run
/// covered nothing new, and rules out no other position.
pub proof fn law_only_a_fruitless_run_rules_its_position_out(state: TaskState, at: u64)
    ensures
        state.retired().run is None,
        state.retired().barren.contains(at) <==> state.barren.contains(at) || (state.run matches Some(
            run,
        ) && !run.grew && run.chosen == at),
        state.retired() == (TaskState {
            run: None,
            barren: state.retired().barren,
            ..state
        }),
{
}

/// The end of the stream says where the source ends: no plan reaches past where
/// the run stood any more. Without a plan it ends the pass instead. What is
/// covered stays.
pub proof fn law_the_end_of_the_stream_bounds_the_plan(state: TaskState)
    ensures
        state.after_eof().runs() == state.runs(),
        state.extent.planned() is None ==> state.after_eof().phase != TaskPhase::Decode
            || state.phase != TaskPhase::Decode,
        state.extent.planned() is Some && state.run is Some ==> {
            &&& state.after_eof().extent.planned() matches Some(extent) && extent
                <= state.run->0.frontier && extent <= state.extent.planned()->0
            &&& state.after_eof().run is None
            &&& state.after_eof().phase == state.phase
        },
        state.extent.planned() is Some && state.run is None ==> state.after_eof() == state,
{
}

/// A seek that lands opens a run at the position it was sent to; one past the
/// end bounds the plan there; one that fails rules the position out. None of
/// them covers anything.
pub proof fn law_what_a_seek_leads_to(state: TaskState, at: u64, event: SeekEvent)
    ensures
        state.after_seek(at, event).runs() == state.runs(),
        event == SeekEvent::Landed ==> (state.after_seek(at, event).run matches Some(run)
            && run.chosen == at && run.at == at && run.frontier == at && !run.grew && !run.started),
        event != SeekEvent::Landed ==> state.after_seek(at, event).run == state.run,
        event == SeekEvent::PastEof && state.extent.planned() is Some ==> (state.after_seek(
            at,
            event,
        ).extent.planned() matches Some(extent) && extent <= at),
        event != SeekEvent::PastEof ==> state.after_seek(at, event).extent == state.extent,
        event == SeekEvent::Failed ==> state.after_seek(at, event).barren == state.barren.insert(at),
        event != SeekEvent::Failed ==> state.after_seek(at, event).barren == state.barren,
        state.after_seek(at, event).phase == state.phase,
{
}

/// A publication is due once five seconds of source were covered since the last
/// one, and not before.
pub proof fn law_five_seconds_make_a_publication_due(state: TaskState)
    requires
        state.pass is Some,
        state.published_at <= total_frames(state.pass->0.runs),
    ensures
        state.is_due() <==> total_frames(state.pass->0.runs) >= state.published_at + 5
            * state.pass->0.rate,
{
}

/// A pass that covered nothing publishes nothing; any other publishes the extent
/// it is left with, and remembers how much it had covered.
pub proof fn law_only_what_was_covered_is_published(state: TaskState, ending: bool)
    requires
        separated(state.runs()),
    ensures
        state.publication(ending) is Some <==> exists|frame: int| #[trigger]
            covered(state.runs(), frame),
        state.publication(ending) matches Some(publication) ==> {
            &&& publication.ending == ending
            &&& publication.extent == state.published(ending).pass->0.extent
            &&& !ending ==> publication.extent == state.pass->0.extent
            &&& ending ==> publication.extent is Some
            &&& state.published(ending).published_at == total_frames(state.runs()) as u64
        },
        state.publication(ending) is None ==> state.published(ending) == state,
        state.published(ending).runs() == state.runs(),
{
    let runs = state.runs();
    law_frames_count_once(runs);
    if exists|frame: int| #[trigger] covered(runs, frame) {
        let frame = choose|frame: int| #[trigger] covered(runs, frame);
        assert(frame_set(runs).contains(frame));
        if frame_set(runs).len() == 0 {
            assert(frame_set(runs) =~= Set::<int>::empty());
        }
    } else if total_frames(runs) != 0 {
        assert(frame_set(runs) =~= Set::<int>::empty());
    }
}

/// A step decodes on as long as no length is known, or its run has work to do.
/// It seeks only once the run is over, and ends the pass only where the extent
/// is covered or nothing is left to schedule.
pub proof fn law_what_a_step_asks_for(state: TaskState, run_frames: Option<u64>)
    ensures
        state.extent.planned() is None ==> state.action(run_frames) == Action::Decode,
        state.action(run_frames) == Action::Decode && state.extent.planned() is Some
            ==> state.run is Some && !state.run_is_over(run_frames),
        state.action(run_frames) is Seek ==> state.run_is_over(run_frames) && !state.complete(),
        state.action(run_frames) == Action::Finish ==> state.complete() || (state.run_is_over(
            run_frames,
        ) && next_position(state.runs(), state.extent.planned(), state.retired().barren) is None),
        state.acting(run_frames).runs() == state.runs(),
        state.action(run_frames) is Seek ==> state.acting(run_frames).run is None,
        state.action(run_frames) == Action::Decode ==> state.acting(run_frames) == state,
{
}

/// A pass that ends leaves the decoding phase for good and takes the length it
/// planned against along; one that was never opened has nothing to publish and
/// is done.
pub proof fn law_an_ending_pass_takes_its_plan_along(state: TaskState)
    ensures
        state.finished().phase != TaskPhase::Decode,
        state.finished().runs() == state.runs(),
        state.pass is Some ==> state.finished().phase == TaskPhase::Ending,
        state.pass is None ==> state.finished().phase == TaskPhase::Done
            && state.finished().publication(true) is None,
        state.pass is Some && state.extent.planned() is Some ==> (
        state.finished().pass->0.extent matches Some(extent) && extent
            >= state.extent.planned()->0),
        state.pass is Some && state.extent.planned() is None ==> state.finished().pass
            == state.pass,
        state.after_read(ReadEvent::Failed).phase != TaskPhase::Decode,
        state.after_read(ReadEvent::Pending) == state,
{
}

/// A seek names a time that leads back to the frame it is for: no later frame
/// has begun by then, and a nanosecond on the frame has.
pub proof fn law_a_seek_names_the_time_of_its_frame(
    rate: u32,
    at: u64,
    before: Exchange,
    after: Exchange,
)
    requires
        rate > 0,
        is_asked(Action::Seek { at }, rate, before, after),
    ensures
        after.seeks.len() == before.seeks.len() + 1,
        frames_in(rate as int, after.seeks.last().0) <= at,
        frames_in(rate as int, after.seeks.last().0 + 1) >= at,
        after.answers == before.answers,
        after.transport == before.transport,
{
    law_a_frame_is_found_by_its_time(rate as int, at as int);
}

/// A tick asks the reader for one read or one seek at most, and only while the
/// pass decodes; one that is cancelled asks for nothing, covers nothing and
/// publishes nothing.
pub proof fn law_a_tick_asks_the_reader_once_at_most(
    before: TaskState,
    asked: Exchange,
    cancelled: bool,
    run_frames: Option<u64>,
    limit: int,
    after: TaskState,
    answered: Exchange,
    folds: Seq<FoldState>,
    tick: Tick,
)
    requires
        is_tick(before, asked, cancelled, run_frames, limit, after, answered, folds, tick),
    ensures
        answered.answers.len() + answered.seeks.len() <= asked.answers.len() + asked.seeks.len() + 1,
        asked.answers.is_prefix_of(answered.answers),
        asked.seeks.is_prefix_of(answered.seeks),
        cancelled || before.phase != TaskPhase::Decode ==> answered == asked && folds.len() == 0,
        cancelled ==> after.phase == TaskPhase::Done && after.runs() == before.runs()
            && tick.publish is None,
        tick.result == TickResult::UpstreamPending ==> answered.answers.len()
            == asked.answers.len() + 1 && event_of(answered.answer()) == ReadEvent::Pending,
        tick.result == TickResult::Done <==> !cancelled && before.phase == TaskPhase::Done,
{
}

/// Whatever a tick folds was given to it: a range that a producer left, in one
/// channel, or the chunk that the reader answered with, under its own channel
/// count.
pub proof fn law_a_tick_folds_what_it_was_given(
    before: TaskState,
    asked: Exchange,
    cancelled: bool,
    run_frames: Option<u64>,
    limit: int,
    after: TaskState,
    answered: Exchange,
    folds: Seq<FoldState>,
    tick: Tick,
    k: int,
)
    requires
        is_tick(before, asked, cancelled, run_frames, limit, after, answered, folds, tick),
        0 <= k < folds.len(),
    ensures
        folds[k].channels == 1 || (answered.answer() matches Ok(ChunkOutcome::Chunk(chunk)) && {
            &&& k == folds.len() - 1
            &&& folds[k].channels == chunk.meta.spec.channels
            &&& folds[k].samples == chunk.samples@
            &&& folds[k].at == chunk.meta.frame_offset
        }),
{
    let ranges = choose|ranges: Seq<(u64, Seq<u32>)>|
        #[trigger] is_decode_tick(
            before,
            asked,
            run_frames,
            limit,
            ranges,
            after,
            answered,
            folds,
            tick,
        );
    let ready = before.drained(ranges).told(answered.length());
    let drained = before.drained_folds(ranges);
    let read = event_of(answered.answer());
    let stepped = ready.step_folds(run_frames, read, samples_of(answered.answer()));
    if k < drained.len() {
        law_a_drained_fold_is_its_range(before, ranges, k);
        assert(folds[k] == drained[k]);
    } else {
        assert(folds[k] == stepped[k - drained.len()]);
        assert(stepped == ready.read_folds(read, samples_of(answered.answer())));
        law_a_fold_is_its_chunk(
            ready,
            run_frames,
            read->Chunk_0,
            samples_of(answered.answer()),
            k - drained.len(),
        );
    }
}

/// Decoding publishes only what is due, and ending publishes once more and for
/// the last time.
pub proof fn law_a_tick_publishes_when_it_is_time(
    before: TaskState,
    asked: Exchange,
    cancelled: bool,
    run_frames: Option<u64>,
    limit: int,
    after: TaskState,
    answered: Exchange,
    folds: Seq<FoldState>,
    tick: Tick,
)
    requires
        is_tick(before, asked, cancelled, run_frames, limit, after, answered, folds, tick),
    ensures
        tick.publish matches Some(publication) ==> {
            &&& !cancelled
            &&& publication.ending <==> before.phase == TaskPhase::Ending
            &&& !publication.ending ==> after.phase == TaskPhase::Decode && after.is_due()
        },
        !cancelled && before.phase == TaskPhase::Decode && after.phase == TaskPhase::Decode
            && after.is_due() && after.publishable() ==> tick.publish is Some,
        !cancelled && before.phase == TaskPhase::Ending && before.publishable()
            ==> tick.publish is Some,
        before.phase == TaskPhase::Ending ==> after.phase == TaskPhase::Done,
{
}

/// Once a transport was drained, the buffer it was drained into stays: a later
/// range may have as many samples as that one holds, whatever the pool allows.
pub proof fn law_a_drained_transport_keeps_its_buffer(
    before: Exchange,
    after: Exchange,
    ranges: Seq<(u64, Seq<u32>)>,
    pool: PcmPool,
    other: PcmPool,
)
    requires
        is_drained(before, after, ranges, before.range_limit(pool)),
    ensures
        after.range_limit(other) == before.range_limit(pool),
        before.buffer is None ==> before.range_limit(pool) == pool.limit,
        after.answers == before.answers,
        after.seeks == before.seeks,
{
}

/// A pass is complete once every frame below the length it plans against is
/// covered, and not before.
pub proof fn law_a_pass_is_complete_once_all_is_covered(state: TaskState, extent: u64)
    requires
        state.pass is Some,
        state.extent.planned() == Some(extent),
    ensures
        state.complete() <==> forall|frame: int|
            0 <= frame < extent ==> #[trigger] covered(state.runs(), frame),
{
    let whole = FrameRange { start: 0, frames: extent };
    if state.complete() {
        assert forall|frame: int| 0 <= frame < extent implies #[trigger] covered(
            state.runs(),
            frame,
        ) by {
            assert(whole.has(frame));
        }
    }
    if forall|frame: int| 0 <= frame < extent ==> #[trigger] covered(state.runs(), frame) {
        assert(holds(state.runs(), whole));
    }
}

/// A length that the source reports, on the pass's own axis, is planned against
/// unless a longer one was reported before or less proved reachable; reporting
/// none changes nothing, and a report changes nothing else.
pub proof fn law_a_report_is_planned_against(state: TaskState, duration: Duration, frames: u64)
    requires
        reported_frames(Some(duration), state.rate) == Some(frames),
    ensures
        state.told(None) == state,
        state.told(Some(duration)).extent.reported matches Some(reported) && {
            &&& reported >= frames
            &&& state.extent.reported matches Some(held) ==> reported >= held
            &&& reported == frames || state.extent.reported == Some(reported)
        },
        state.extent == Extent::unknown() ==> state.told(Some(duration)).extent.planned() == Some(
            frames,
        ),
        state.told(Some(duration)) == (TaskState {
            extent: state.told(Some(duration)).extent,
            ..state
        }),
        state.told(Some(duration)).extent.reachable == state.extent.reachable,
{
}

/// Whatever a reader answers to a read is taken for what it is: a chunk with its
/// samples, nothing yet, the end of the stream, or a failure, which ends the
/// pass.
pub proof fn law_an_answer_is_taken_for_what_it_is(
    state: TaskState,
    chunk: PcmChunk,
    reason: String,
)
    ensures
        state.after_read(event_of(Ok(ChunkOutcome::Chunk(chunk)))) == state.after_chunk(chunk.meta),
        samples_of(Ok(ChunkOutcome::Chunk(chunk))) == chunk.samples@,
        state.after_read(event_of(Ok(ChunkOutcome::Pending))) == state,
        state.after_read(event_of(Ok(ChunkOutcome::Eof))) == state.after_eof(),
        state.after_read(event_of(Err(reason))).phase != TaskPhase::Decode,
        state.after_read(event_of(Err(reason))).runs() == state.runs(),
        event_of(Err(reason)) != event_of(Ok(ChunkOutcome::Eof)),
{
}

/// Whatever a reader answers to a seek is taken for what it is: it landed and
/// opens a run, it went past the end and bounds the plan, or it failed and rules
/// the position out.
pub proof fn law_a_seek_answer_is_taken_for_what_it_is(state: TaskState, at: u64, reason: String)
    ensures
        state.after_seek(at, seek_event_of(Ok(SeekOutcome::Landed))).run matches Some(run)
            && run.chosen == at,
        state.extent.planned() is Some ==> (state.after_seek(
            at,
            seek_event_of(Ok(SeekOutcome::PastEof)),
        ).extent.planned() matches Some(extent) && extent <= at),
        state.after_seek(at, seek_event_of(Ok(SeekOutcome::PastEof))).barren == state.barren,
        state.after_seek(at, seek_event_of(Err(reason))).barren.contains(at),
        state.after_seek(at, seek_event_of(Err(reason))).extent == state.extent,
{
}

/// A pass about to begin has covered nothing, planned nothing and published
/// nothing, and reads first of all. Once opened it is on the axis, and under the
/// token and the fingerprint, that it was started with.
pub proof fn law_a_fresh_pass_has_nothing_yet(
    rate: u32,
    token: Seq<char>,
    fingerprint: Seq<char>,
    run_frames: Option<u64>,
    ending: bool,
)
    ensures
        ({
            let state = TaskState::fresh(rate, token, fingerprint);
            let pass = state.opened().pass->0;
            &&& state.runs().len() == 0
            &&& state.action(run_frames) == Action::Decode
            &&& state.phase == TaskPhase::Decode
            &&& state.publication(ending) is None
            &&& !state.is_due()
            &&& rate > 0 ==> !state.opened().is_due()
            &&& state.published_at == 0
            &&& forall|at: u64| !#[trigger] state.barren.contains(at)
            &&& pass.rate == rate
            &&& pass.token == token
            &&& pass.fingerprint == fingerprint
            &&& pass.revision == 0
            &&& pass.extent is None
            &&& pass.runs.len() == 0
            &&& state.opened() == TaskState { pass: Some(pass), ..state }
            &&& state.opened().opened() == state.opened()
        }),
{
}

/// A producer's range spans as many frames as it has samples, from its start on,
/// and what was taken is taken as it is.
pub proof fn law_a_range_spans_its_samples(
    range: (u64, Seq<u32>),
    frame: int,
    folds: Seq<Fold>,
    i: int,
)
    requires
        range.0 + range.1.len() <= u64::MAX,
        0 <= i < folds.len(),
    ensures
        span_of(range).has(frame) <==> range.0 <= frame < range.0 + range.1.len(),
        folds_of(folds).len() == folds.len(),
        folds_of(folds)[i].at == folds[i].at,
        folds_of(folds)[i].channels == folds[i].channels,
        folds_of(folds)[i].samples == folds[i].samples@,
{
}

} // verus!
