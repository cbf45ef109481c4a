use kithara::buffer::PcmPool;
use kithara::runs::{append_all, MonoStream, ResamplerBackend, Runs};

const SRC: u32 = 44_100;
const DETECTOR: u32 = 22_050;

/// Takes the nearest source sample at or before each detector frame.
struct Nearest {
    source: u64,
    target: u64,
    seen: u64,
    given: u64,
}

impl MonoStream for Nearest {
    fn feed(&mut self, mono: &[u32]) -> Option<Vec<Vec<u32>>> {
        let mut batch = Vec::new();
        for sample in mono {
            while self.given * self.source / self.target == self.seen {
                batch.push(*sample);
                self.given += 1;
            }
            self.seen += 1;
        }
        Some(vec![batch])
    }

    fn finish(self) -> (Vec<Vec<u32>>, bool) {
        (Vec::new(), true)
    }
}

#[derive(Clone, Copy)]
enum Backend {
    Works,
    DoesNotOpen,
    FailsToPush,
}

struct Opens(Backend);

enum Stream {
    Nearest(Nearest),
    Broken,
}

impl MonoStream for Stream {
    fn feed(&mut self, mono: &[u32]) -> Option<Vec<Vec<u32>>> {
        match self {
            Stream::Nearest(nearest) => nearest.feed(mono),
            Stream::Broken => None,
        }
    }

    fn finish(self) -> (Vec<Vec<u32>>, bool) {
        match self {
            Stream::Nearest(nearest) => nearest.finish(),
            Stream::Broken => (Vec::new(), false),
        }
    }
}

impl ResamplerBackend for Opens {
    type Stream = Stream;

    fn stream(&self, source_rate: u32, target_rate: u32) -> Option<Stream> {
        match self.0 {
            Backend::Works => Some(Stream::Nearest(Nearest {
                source: u64::from(source_rate),
                target: u64::from(target_rate),
                seen: 0,
                given: 0,
            })),
            Backend::DoesNotOpen => None,
            Backend::FailsToPush => Some(Stream::Broken),
        }
    }
}

fn runs(source_rate: u32) -> Runs<Opens> {
    budgeted(source_rate, usize::MAX)
}

fn budgeted(source_rate: u32, budget: usize) -> Runs<Opens> {
    Runs::new(
        Opens(Backend::Works),
        DETECTOR,
        PcmPool::new(usize::MAX),
        source_rate,
        budget,
    )
}

fn ramp(frames: usize, from: u64) -> Vec<u32> {
    (0..frames)
        .map(|n| {
            let t = (from + n as u64) as f32 / 1000.0;
            t.sin().to_bits()
        })
        .collect()
}

fn layout(runs: &Runs<Opens>) -> Vec<(u64, usize)> {
    runs.spans()
        .iter()
        .map(|(start, mono)| (*start, mono.len()))
        .collect()
}

#[test]
fn adjacent_blocks_form_one_run() {
    let mut set = runs(SRC);
    set.push(&ramp(4410, 0), 0);
    set.push(&ramp(4410, 4410), 4410);
    set.flush();
    assert_eq!(layout(&set), vec![(0, 4410)], "8820 source frames at 2:1");
}

#[test]
fn a_gap_keeps_two_runs_until_it_is_filled() {
    let mut set = runs(SRC);
    set.push(&ramp(4410, 0), 0);
    set.push(&ramp(4410, 88_200), 88_200);
    set.flush();
    assert_eq!(layout(&set), vec![(0, 2205), (88_200, 2205)]);

    set.push(&ramp(83_790, 4410), 4410);
    set.flush();
    assert_eq!(
        layout(&set),
        vec![(0, 46_305)],
        "filling the gap joins the runs and pins the total length"
    );
}

#[test]
fn a_block_before_a_run_extends_it_backwards() {
    let mut set = runs(SRC);
    set.push(&ramp(4410, 4410), 4410);
    set.push(&ramp(4410, 0), 0);
    set.flush();
    assert_eq!(layout(&set), vec![(0, 4410)]);
}

#[test]
fn shuffled_blocks_land_at_the_same_detector_offsets() {
    let blocks: Vec<(u64, Vec<u32>)> = (0..8u64)
        .map(|i| (i * 4410, ramp(4410, i * 4410)))
        .collect();

    let mut ascending = runs(SRC);
    for (at, pcm) in &blocks {
        ascending.push(pcm, *at);
    }
    ascending.flush();

    let mut shuffled = runs(SRC);
    for index in [5usize, 0, 7, 2, 1, 6, 3, 4] {
        let Some((at, pcm)) = blocks.get(index) else {
            continue;
        };
        shuffled.push(pcm, *at);
    }
    shuffled.flush();

    assert_eq!(layout(&ascending), layout(&shuffled));
    let wanted = ascending.spans();
    let gotten = shuffled.spans();
    let (_, want) = wanted.first().expect("one run");
    let (_, got) = gotten.first().expect("one run");
    let drift = want
        .iter()
        .zip(got.iter())
        .filter(|(a, b)| (f32::from_bits(**a) - f32::from_bits(**b)).abs() > 1e-3)
        .count();
    assert!(
        drift * 200 < want.len(),
        "shuffled assembly must track the ascending one, {drift} of {} samples differ",
        want.len()
    );
}

#[test]
fn the_budget_reclaims_the_earliest_mono_and_reports_it() {
    let mut set = budgeted(SRC, 20_000);
    for block in 0..10u64 {
        set.push(&ramp(4410, block * 4410), block * 4410);
    }
    assert!(
        set.held_frames() <= 20_000,
        "held detector frames must stay under the budget, got {}",
        set.held_frames()
    );

    let dropped = set.dropped();
    assert!(!dropped.is_empty(), "the reclaimed ranges must be reported");
    let (from, _) = dropped.first().copied().unwrap_or((1, 1));
    assert_eq!(from, 0, "the earliest source frames go first");
    let reclaimed: u64 = dropped.iter().map(|(from, to)| to - from).sum();
    assert!(
        reclaimed > 0 && reclaimed < 44_100,
        "the budget reclaims the overflow, not the track: {reclaimed}"
    );
}

#[test]
fn a_non_integer_ratio_keeps_joins_on_position() {
    // 48 kHz -> 22.05 kHz is not a whole ratio, so a per-segment rounding
    // error would show up as a length drift at every join.
    let mut set = runs(48_000);
    for block in 0..10u64 {
        set.push(&ramp(4801, block * 4801), block * 4801);
    }
    set.flush();
    let total = set.offset_in_run(0, 48_010);
    assert_eq!(layout(&set), vec![(0, total)]);
}

#[test]
fn detector_frames_round_to_the_nearest_and_halves_upward() {
    let half = runs(SRC);
    assert_eq!(half.detector_frames(4), 2);
    assert_eq!(half.detector_frames(5), 3);
    assert_eq!(half.detector_frames(0), 0);
    let other = runs(48_000);
    assert_eq!(other.detector_frames(48_010), 22_055);
    assert_eq!(other.offset_in_run(100, 50), 0);
    assert_eq!(other.target_rate(), DETECTOR);
}

#[test]
fn at_one_rate_every_frame_keeps_its_first_sample() {
    let mut set = runs(DETECTOR);
    set.push(&[10, 11, 12], 0);
    set.push(&[50, 51], 5);
    // Overlaps the first run, bridges the gap and runs past the second.
    set.push(&[92, 93, 94, 95, 96, 97, 98], 2);
    set.push(&[], 1);
    let spans = set.spans();
    assert_eq!(spans.len(), 1);
    assert_eq!(spans[0].0, 0);
    assert_eq!(spans[0].1, &[10, 11, 12, 93, 94, 50, 51, 97, 98]);
    assert_eq!(set.held_frames(), 9);
}

#[test]
fn at_one_rate_the_budget_is_kept_to_the_frame() {
    let mut set = budgeted(DETECTOR, 4);
    set.push(&[1, 2, 3], 0);
    set.push(&[7, 8, 9], 10);
    assert_eq!(set.held_frames(), 4);
    assert_eq!(set.dropped(), &[(0, 2)]);
    let spans = set.spans();
    assert_eq!(spans[0], (2, &[3u32][..]));
    assert_eq!(spans[1], (10, &[7u32, 8, 9][..]));
}

#[test]
fn a_resampler_that_fails_loses_what_the_block_touches() {
    for backend in [Backend::DoesNotOpen, Backend::FailsToPush] {
        let mut set = Runs::new(
            Opens(backend),
            DETECTOR,
            PcmPool::new(usize::MAX),
            SRC,
            usize::MAX,
        );
        set.push(&ramp(100, 0), 0);
        assert!(set.spans().is_empty());
    }
}

#[test]
fn a_rate_of_zero_counts_as_one() {
    let set = Runs::new(Opens(Backend::Works), 0, PcmPool::new(8), 0, 8);
    assert_eq!(set.target_rate(), 1);
    assert_eq!(set.detector_frames(7), 7);
}

#[test]
fn a_batch_without_room_is_dropped_whole() {
    let mut out = PcmPool::new(3).get();
    append_all(&mut out, &vec![vec![1, 2], vec![3, 4], vec![5]]);
    assert_eq!(out.as_slice(), &[1, 2, 5]);
}

#[test]
fn a_gap_between_runs_is_resampled_from_the_block() {
    let mut set = runs(SRC);
    set.push(&ramp(100, 0), 0);
    set.push(&ramp(100, 200), 200);
    // Bridges the two runs: what lies between them is the block's.
    set.push(&ramp(100, 100), 100);
    set.flush();
    let spans = set.spans();
    assert_eq!(spans.len(), 1);
    assert_eq!(spans[0].0, 0);
    let every_other: Vec<u32> = ramp(300, 0).into_iter().step_by(2).collect();
    assert_eq!(spans[0].1, &every_other[..]);
}

#[test]
fn the_budget_is_kept_past_a_run_without_mono() {
    // Five samples outgrow a buffer of four, so the first run holds none.
    let mut set = Runs::new(
        Opens(Backend::Works),
        DETECTOR,
        PcmPool::new(4),
        DETECTOR,
        3,
    );
    set.push(&[1, 2, 3, 4, 5], 0);
    assert_eq!(set.held_frames(), 0);
    set.push(&[6, 7, 8, 9], 100);
    assert_eq!(set.held_frames(), 3);
    assert_eq!(set.dropped(), &[(100, 101)]);
    let spans = set.spans();
    assert_eq!(spans[0], (0, &[][..]), "it is passed over");
    assert_eq!(spans[1], (101, &[7u32, 8, 9][..]));
}

#[test]
fn the_budget_takes_a_whole_source_frame_where_less_would_do() {
    // Every source frame becomes ten detector frames.
    for (budget, held, dropped) in [(30, 30, vec![]), (27, 20, vec![(0, 1)]), (15, 10, vec![(0, 2)])] {
        let mut set = Runs::new(
            Opens(Backend::Works),
            10,
            PcmPool::new(usize::MAX),
            1,
            budget,
        );
        set.push(&[1, 2, 3], 0);
        assert_eq!(set.held_frames(), held);
        assert_eq!(set.dropped(), &dropped[..]);
    }
}

#[test]
fn a_budget_of_nothing_leaves_nothing() {
    let mut set = budgeted(SRC, 0);
    set.push(&ramp(101, 0), 0);
    set.push(&ramp(77, 500), 500);
    assert_eq!(set.held_frames(), 0);
    assert_eq!(set.dropped().first().map(|range| range.0), Some(0));
}
