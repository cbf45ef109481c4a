use kithara::buffer::PcmPool;
use kithara::coverage::{Coverage, FrameRange};
use kithara::producer::{AnalysisProducer, Offer, PcmSpec};
use kithara::ring;
use kithara::session::{ChunkMeta, Ingest, TrackAnalysis, TrackAnalyzers};
use kithara::snapshot::{BeatGrid, GridState};
use kithara::task::{
    AnalysisTask, ChunkOutcome, Fold, Job, PcmChunk, PcmReader, SeekOutcome, TickResult,
};
use kithara::time::{duration_for_frames, frames_for_duration, Duration};
use std::collections::VecDeque;

const RATE: u32 = 1_000;

fn mean(confidences: &Vec<u32>) -> u32 {
    confidences[0]
}

fn pass() -> TrackAnalyzers {
    TrackAnalyzers::new(RATE, "track-a".into(), "print".into())
}

fn meta(at: u64, frames: u32, rate: u32) -> ChunkMeta {
    ChunkMeta {
        spec: PcmSpec {
            channels: 1,
            sample_rate: rate,
        },
        frame_offset: at,
        frames,
    }
}

/// The samples of the track from `at` on: no two of them, and none of them the
/// silence of a sample that was never written.
fn samples(at: u64, frames: usize) -> Vec<u32> {
    (0..frames).map(|i| at as u32 + i as u32 + 1).collect()
}

/// What the producer offers at `at`, told apart from what is read there.
fn offered(at: u64, frames: usize) -> Vec<u32> {
    (0..frames).map(|i| 1_000_000 + at as u32 + i as u32).collect()
}

/// A track of `frames` frames that is read in chunks of a tenth of a second.
struct Track {
    frames: u64,
    reported: Option<Duration>,
    at: u64,
    asked: usize,
    seeks: Vec<u64>,
    script: VecDeque<Result<ChunkOutcome, String>>,
    snap_to: Option<u64>,
    refuse_seeks: bool,
}

impl Track {
    fn new(frames: u64, reported: Option<u64>) -> Self {
        Track {
            frames,
            reported: reported.map(|frames| duration_for_frames(RATE, frames)),
            at: 0,
            asked: 0,
            seeks: Vec::new(),
            script: VecDeque::new(),
            snap_to: None,
            refuse_seeks: false,
        }
    }
}

impl PcmReader for Track {
    fn duration(&mut self) -> Option<Duration> {
        self.asked += 1;
        self.reported
    }

    fn next_chunk(&mut self) -> Result<ChunkOutcome, String> {
        if let Some(outcome) = self.script.pop_front() {
            return outcome;
        }
        if self.at >= self.frames {
            return Ok(ChunkOutcome::Eof);
        }
        let frames = (self.frames - self.at).min(100);
        let at = self.at;
        self.at += frames;
        Ok(ChunkOutcome::Chunk(PcmChunk {
            meta: meta(at, frames as u32, RATE),
            samples: samples(at, frames as usize),
        }))
    }

    fn seek(&mut self, position: Duration) -> Result<SeekOutcome, String> {
        let at = frames_for_duration(RATE, position) as u64;
        self.seeks.push(at);
        if self.refuse_seeks {
            return Err("refused".into());
        }
        if at >= self.frames {
            return Ok(SeekOutcome::PastEof);
        }
        self.at = self.snap_to.unwrap_or(at);
        Ok(SeekOutcome::Landed)
    }
}

fn grid() -> BeatGrid {
    BeatGrid {
        beats: vec![0],
        beat_confidence: vec![Some(7)],
        downbeats: Vec::new(),
        downbeat_confidence: Vec::new(),
    }
}

struct Pass {
    task: AnalysisTask<Track>,
    producer: AnalysisProducer,
    folds: Vec<Fold>,
    published: Vec<TrackAnalysis>,
    extents: Vec<Option<u64>>,
}

impl Pass {
    fn new(reader: Track) -> Self {
        let (tx, rx) = ring::open_for(RATE);
        Pass {
            task: AnalysisTask::new(Job {
                reader,
                ingest: rx,
                rate: RATE,
                token: "track-a".into(),
                fingerprint: "print".into(),
            }),
            producer: AnalysisProducer::new(tx, RATE, "track-a".into()),
            folds: Vec::new(),
            published: Vec::new(),
            extents: Vec::new(),
        }
    }

    fn tick_with(&mut self, cancelled: bool, run_frames: Option<u64>) -> TickResult {
        let pool = PcmPool::new(1 << 20);
        let tick = self
            .task
            .tick(cancelled, run_frames, &pool, &mut self.folds);
        if let Some(publication) = tick.publish {
            self.extents.push(publication.extent);
            self.published.extend(self.task.publish(
                publication.ending,
                Some(vec![1]),
                Some((grid(), Vec::new())),
                mean,
            ));
        }
        tick.result
    }

    fn folded(&self) -> Vec<(u64, usize, u16)> {
        self.folds
            .iter()
            .map(|fold| (fold.at, fold.samples.len(), fold.channels))
            .collect()
    }

    fn tick(&mut self) -> TickResult {
        self.tick_with(false, None)
    }

    fn run(&mut self, run_frames: Option<u64>) {
        for _ in 0..10_000 {
            if self.tick_with(false, run_frames) == TickResult::Done {
                return;
            }
        }
        panic!("the pass must end");
    }

    fn offer(&mut self, at: u64, frames: usize) -> Offer {
        let spec = PcmSpec {
            channels: 1,
            sample_rate: RATE,
        };
        self.producer
            .offer(&offered(at, frames), spec, at, |frame: &[u32]| frame[0])
    }
}

#[test]
fn a_range_is_folded_once() {
    let mut pass = pass();
    assert_eq!(pass.push(&meta(10, 5, RATE)), Ingest::Accepted);
    assert_eq!(pass.push(&meta(10, 5, RATE)), Ingest::Covered);
    assert_eq!(pass.push_mono(3, 11), Ingest::Covered);
    assert_eq!(pass.push_mono(6, 11), Ingest::Accepted);
    assert_eq!(pass.covered_frames(), 7);
    assert_eq!(pass.push(&meta(0, 5, 44_100)), Ingest::ForeignRate);
    pass.plan_extent(20);
    assert_eq!(pass.push(&meta(18, 3, RATE)), Ingest::OutOfExtent);
    assert_eq!(pass.covered_frames(), 7);
}

#[test]
fn an_unreached_tail_stays_missing() {
    let mut pass = pass();
    pass.push(&meta(0, 50, RATE));
    pass.plan_extent(80);
    pass.plan_extent(60);
    let analysis = pass.snapshot(true, None, None, mean);
    assert_eq!(analysis.extent, Some(80));
    assert_eq!(analysis.revision, 1);
    assert_eq!(pass.grid_state(), GridState::Provisional);
    assert!(analysis.beat.is_none());
}

#[test]
fn the_end_of_the_stream_pins_the_extent() {
    let mut pass = pass();
    pass.push(&meta(0, 50, RATE));
    let open = pass.snapshot(false, None, None, mean);
    assert_eq!(open.extent, None);
    let ended = pass.snapshot(true, None, None, mean);
    assert_eq!(ended.extent, Some(50));
    assert_eq!(ended.revision, 2);
    assert_eq!(ended.token, "track-a");
    assert_eq!(ended.fingerprint, "print");
    assert_eq!(ended.source_sample_rate, RATE);
    assert!(ended.coverage.contains(FrameRange::new(0, 50)));
    assert_eq!(pass.grid_state(), GridState::Final);
}

#[test]
fn coverage_counts_an_overlap_once() {
    let mut coverage = Coverage::new();
    coverage.insert(FrameRange::new(10, 10));
    coverage.insert(FrameRange::new(30, 10));
    coverage.insert(FrameRange::new(15, 20));
    coverage.insert(FrameRange::new(50, 0));
    assert_eq!(coverage.frames(), 30);
    assert_eq!(coverage.frontier(), 40);
    assert_eq!(
        coverage.gaps(60),
        vec![FrameRange::new(0, 10), FrameRange::new(40, 20)]
    );
    assert!(coverage.contains(FrameRange::new(10, 30)));
    assert!(!coverage.contains(FrameRange::new(9, 2)));
    assert_eq!(coverage.duplicate().frames(), 30);
}

#[test]
fn touching_ranges_become_one_whatever_their_order() {
    for order in [[0u64, 10, 20], [20, 0, 10], [10, 20, 0]] {
        let mut coverage = Coverage::new();
        for at in order {
            coverage.insert(FrameRange::new(at, 10));
        }
        assert!(coverage.gaps(30).is_empty());
        assert_eq!(coverage.frames(), 30);
    }
    assert_eq!(FrameRange::new(u64::MAX - 1, 5).end(), u64::MAX);
}

#[test]
fn a_source_without_a_length_is_decoded_in_order() {
    let mut pass = Pass::new(Track::new(1_000, None));
    pass.run(None);
    assert!(pass.task.reader().seeks.is_empty());
    assert_eq!(pass.folded().len(), 10);
    assert_eq!(pass.folded()[3], (300, 100, 1));
    for fold in &pass.folds {
        assert_eq!(fold.samples, samples(fold.at, 100), "a chunk is folded as it was read");
    }
    let last = pass.published.last().unwrap();
    assert_eq!(last.extent, Some(1_000));
    let beat = last.beat.as_ref().unwrap();
    assert_eq!(beat.state(), GridState::Final);
    assert_eq!(beat.confidence(), Some(7));
    assert_eq!(last.waveform, Some(vec![1]));
}

#[test]
fn a_source_with_a_length_is_split_in_the_middle() {
    let mut pass = Pass::new(Track::new(1_000, Some(1_000)));
    pass.run(Some(200));
    assert_eq!(pass.task.reader().seeks[0], 500);
    // The wider gap is then the one before the middle, and the next run
    // starts in the middle of that.
    assert_eq!(pass.task.reader().seeks[1], 250);
    assert_eq!(pass.folds[0].at, 500);
    assert_eq!(pass.folds[0].samples, samples(500, 100));
    let last = pass.published.last().unwrap();
    assert_eq!(last.extent, Some(1_000));
    assert_eq!(last.beat.as_ref().unwrap().state(), GridState::Final);
    assert_eq!(last.coverage.frames(), 1_000);
}

#[test]
fn an_overstated_length_is_bounded_by_what_can_be_reached() {
    let mut pass = Pass::new(Track::new(600, Some(1_000)));
    pass.run(None);
    let last = pass.published.last().unwrap();
    assert_eq!(last.coverage.frames(), 600);
    assert_eq!(last.extent, Some(600));
    assert_eq!(last.beat.as_ref().unwrap().state(), GridState::Final);
}

#[test]
fn a_position_that_adds_nothing_is_retired() {
    let mut track = Track::new(1_000, Some(1_000));
    track.snap_to = Some(0);
    let mut pass = Pass::new(track);
    pass.run(Some(100));
    let seeks = &pass.task.reader().seeks;
    let mut distinct = seeks.clone();
    distinct.sort_unstable();
    distinct.dedup();
    assert_eq!(distinct.len(), seeks.len(), "no position is tried twice");
    assert_eq!(pass.published.last().unwrap().coverage.frames(), 100);
}

#[test]
fn refused_seeks_end_the_pass() {
    let mut track = Track::new(1_000, Some(1_000));
    track.refuse_seeks = true;
    let mut pass = Pass::new(track);
    pass.run(None);
    assert!(pass.published.is_empty(), "nothing was covered");
    assert!(pass.task.is_done());
}

#[test]
fn a_producer_covers_what_the_reader_need_not() {
    let mut pass = Pass::new(Track::new(1_000, Some(1_000)));
    assert_eq!(pass.offer(0, 1_000), Offer::Taken);
    assert_eq!(pass.tick(), TickResult::Progress);
    assert!(pass.task.reader().seeks.is_empty(), "nothing is left to decode");
    assert_eq!(pass.folded(), vec![(0, 1_000, 1)]);
    assert_eq!(pass.folds[0].samples, offered(0, 1_000));
    assert_eq!(pass.tick(), TickResult::Progress);
    assert_eq!(pass.tick(), TickResult::Done);
    assert_eq!(pass.published.len(), 1);
}

#[test]
fn a_pass_publishes_every_five_seconds_of_source() {
    let mut pass = Pass::new(Track::new(12_000, None));
    pass.run(None);
    let revisions: Vec<(u64, u64)> = pass
        .published
        .iter()
        .map(|analysis| (analysis.revision, analysis.coverage.frames()))
        .collect();
    assert_eq!(revisions, vec![(1, 5_000), (2, 10_000), (3, 12_000)]);
    assert_eq!(pass.published[0].extent, None);
    assert_eq!(
        pass.published[0].beat.as_ref().unwrap().state(),
        GridState::Provisional
    );
}

#[test]
fn a_stalled_reader_is_waited_for() {
    let mut track = Track::new(0, None);
    track.script.push_back(Ok(ChunkOutcome::Pending));
    track.script.push_back(Ok(ChunkOutcome::Pending));
    let mut pass = Pass::new(track);
    assert_eq!(pass.tick(), TickResult::UpstreamPending);
    pass.offer(0, 10);
    assert_eq!(pass.tick(), TickResult::Progress, "a range was folded");
    assert_eq!(pass.tick(), TickResult::Progress);
    assert_eq!(pass.tick(), TickResult::Progress);
    assert_eq!(pass.tick(), TickResult::Done);
    assert_eq!(pass.published[0].coverage.frames(), 10);
}

#[test]
fn a_failed_reader_still_publishes_what_was_covered() {
    let mut track = Track::new(1_000, None);
    track.script.push_back(Err("broken".into()));
    let mut pass = Pass::new(track);
    pass.offer(0, 10);
    assert_eq!(pass.tick(), TickResult::Progress);
    assert!(pass.published.is_empty());
    assert_eq!(pass.tick(), TickResult::Progress);
    assert_eq!(pass.published[0].coverage.frames(), 10);
    assert_eq!(pass.extents, vec![Some(10)]);
    assert_eq!(pass.tick(), TickResult::Done);
}

#[test]
fn what_a_producer_offers_twice_is_folded_once() {
    let mut pass = Pass::new(Track::new(0, None));
    pass.offer(0, 10);
    pass.offer(0, 10);
    pass.offer(5, 10);
    pass.tick();
    assert_eq!(pass.folded(), vec![(0, 10, 1), (5, 10, 1)]);
    assert_eq!(pass.folds[0].samples, offered(0, 10));
    assert_eq!(pass.folds[1].samples, offered(5, 10));
}

#[test]
fn ranges_on_another_axis_cover_nothing() {
    let mut track = Track::new(0, None);
    track
        .script
        .push_back(Ok(ChunkOutcome::Chunk(PcmChunk {
            meta: meta(0, 100, 44_100),
            samples: samples(0, 100),
        })));
    let mut pass = Pass::new(track);
    pass.run(None);
    assert!(pass.folded().is_empty());
    assert!(pass.published.is_empty());
}

#[test]
fn a_cancelled_pass_ends_without_publishing() {
    let mut pass = Pass::new(Track::new(1_000, None));
    pass.tick();
    assert_eq!(pass.offer(500, 10), Offer::Taken);
    let folded = pass.folded();
    let read = pass.task.reader().at;
    assert_eq!(pass.tick_with(true, None), TickResult::Progress);
    assert!(pass.task.is_done());
    assert_eq!(pass.folded(), folded, "nothing more is folded");
    assert_eq!(pass.task.reader().at, read, "nothing more is read");
    assert_eq!(pass.tick(), TickResult::Done);
    assert!(pass.published.is_empty());
}

#[test]
fn durations_and_frames_agree() {
    assert_eq!(frames_for_duration(44_100, Duration::from_millis(10)), 441);
    assert_eq!(frames_for_duration(3, Duration::from_millis(999)), 2);
    let second = duration_for_frames(44_100, 44_100);
    assert_eq!(second.as_secs(), 1);
    assert_eq!(second.subsec_nanos(), 0);
    assert_eq!(duration_for_frames(1_000, 1_500).as_millis(), 1_500);
    assert_eq!(Duration::from_parts(1, 5).as_nanos(), 1_000_000_005);
}

#[test]
fn each_answer_of_the_reader_is_taken_in_as_it_is() {
    let mut pass = Pass::new(Track::new(0, None));
    let mut folds = Vec::new();
    assert_eq!(
        pass.task.on_answer(Ok(ChunkOutcome::Pending), &mut folds),
        TickResult::UpstreamPending
    );
    assert!(folds.is_empty());
    let chunk = PcmChunk {
        meta: meta(20, 5, RATE),
        samples: samples(20, 5),
    };
    assert_eq!(
        pass.task.on_answer(Ok(ChunkOutcome::Chunk(chunk)), &mut folds),
        TickResult::Progress
    );
    assert_eq!(folds.len(), 1);
    assert_eq!(folds[0].at, 20);
    assert_eq!(folds[0].samples, vec![21, 22, 23, 24, 25]);
    assert_eq!(
        pass.task.on_answer(Err("broken".into()), &mut folds),
        TickResult::Progress
    );
    assert_eq!(folds.len(), 1);
    assert_eq!(pass.tick(), TickResult::Progress);
    assert_eq!(pass.published[0].coverage.frames(), 5);
    assert_eq!(pass.tick(), TickResult::Done);
}

#[test]
fn the_end_of_a_source_with_a_length_does_not_end_the_pass() {
    let mut pass = Pass::new(Track::new(1_000, Some(1_000)));
    pass.tick();
    let mut folds = Vec::new();
    assert_eq!(
        pass.task.on_answer(Ok(ChunkOutcome::Eof), &mut folds),
        TickResult::Progress
    );
    assert!(folds.is_empty());
    assert!(!pass.task.is_done());
    assert!(pass.published.is_empty());
}

#[test]
fn a_seek_that_lands_past_the_end_bounds_the_extent() {
    let mut pass = Pass::new(Track::new(1_000, Some(1_000)));
    pass.task.on_seek_answer(500, Ok(SeekOutcome::PastEof));
    pass.run(None);
    let last = pass.published.last().unwrap();
    assert!(pass.task.reader().seeks.iter().all(|at| *at < 500));
    assert_eq!(pass.task.reader().seeks[0], 250, "half of what can be reached");
    assert!(last.coverage.frames() >= 500);
}

#[test]
fn one_tick_takes_everything_a_producer_left() {
    let mut pass = Pass::new(Track::new(0, None));
    for at in [0, 100, 50, 300] {
        assert_eq!(pass.offer(at, 10), Offer::Taken);
    }
    assert_eq!(pass.tick(), TickResult::Progress);
    assert_eq!(
        pass.folded(),
        vec![(0, 10, 1), (100, 10, 1), (50, 10, 1), (300, 10, 1)],
        "one range for each that was offered"
    );
}

#[test]
fn a_range_that_does_not_fit_is_dropped_and_ends_the_drain() {
    let mut pass = Pass::new(Track::new(0, None));
    let pool = PcmPool::new(8);
    for (at, frames) in [(0, 5), (20, 9), (40, 5)] {
        assert_eq!(pass.offer(at, frames), Offer::Taken);
    }
    pass.task.tick(false, None, &pool, &mut pass.folds);
    assert_eq!(pass.folded(), vec![(0, 5, 1)]);
}

#[test]
fn the_reader_is_asked_how_long_it_is_on_every_tick() {
    let mut pass = Pass::new(Track::new(1_000, None));
    pass.tick();
    assert_eq!(pass.task.reader().asked, 1);
    pass.tick();
    assert_eq!(pass.task.reader().asked, 2);
    assert_eq!(pass.tick_with(true, None), TickResult::Progress);
    assert_eq!(pass.task.reader().asked, 2);
}

#[test]
fn the_buffer_of_the_first_pool_is_kept() {
    let mut track = Track::new(1_000, None);
    for _ in 0..4 {
        track.script.push_back(Ok(ChunkOutcome::Pending));
    }
    let mut pass = Pass::new(track);
    pass.offer(0, 8);
    pass.task.tick(false, None, &PcmPool::new(8), &mut pass.folds);
    pass.offer(100, 8);
    pass.task.tick(false, None, &PcmPool::new(0), &mut pass.folds);
    pass.offer(200, 9);
    pass.task.tick(false, None, &PcmPool::new(1 << 20), &mut pass.folds);
    assert_eq!(
        pass.folded(),
        vec![(0, 8, 1), (100, 8, 1)],
        "what the first buffer may hold bounds every range"
    );
}

#[test]
fn what_is_offered_comes_out_as_it_went_in() {
    let mut track = Track::new(1_000, None);
    for _ in 0..4 {
        track.script.push_back(Ok(ChunkOutcome::Pending));
    }
    let mut pass = Pass::new(track);
    for (at, frames) in [(0, 3), (50, 1), (20, 7)] {
        assert_eq!(pass.offer(at, frames), Offer::Taken);
    }
    pass.tick();
    let folded: Vec<(u64, Vec<u32>)> = pass
        .folds
        .iter()
        .map(|fold| (fold.at, fold.samples.clone()))
        .collect();
    assert_eq!(
        folded,
        vec![(0, offered(0, 3)), (50, offered(50, 1)), (20, offered(20, 7))]
    );
}
