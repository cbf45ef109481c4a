//! The contiguous runs that a beat pass assembles out of the ranges it is
//! handed, as detector-rate mono.

use crate::buffer::{append_within, padded, PcmBuf, PcmPool};
use crate::coverage::{covered, is_union, separated, FrameRange};
use vstd::arithmetic::div_mod::{
    lemma_basic_div, lemma_div_is_ordered, lemma_div_multiples_vanish_fancy, lemma_div_pos_is_pos,
    lemma_fundamental_div_mod,
};
use vstd::prelude::*;
use vstd::seq_lib::lemma_flatten_concat;

verus! {

/// A sequential resampler of one mono stream. Like a signal it is a pure
/// function: what it hands out is fixed by how it was opened and by the pieces
/// it was fed since, in their order. Whether it succeeds it does not promise.
pub trait MonoStream: Sized {
    /// Which resampler it is, with the rates it was opened for.
    closed spec fn resampler(&self) -> int {
        arbitrary()
    }

    /// The pieces it was fed since it was opened.
    closed spec fn fed(&self) -> Seq<Seq<u32>> {
        arbitrary()
    }

    /// The batches that such a resampler hands out for `mono` after these
    /// pieces; `None` where it fails.
    closed spec fn handed(resampler: int, fed: Seq<Seq<u32>>, mono: Seq<u32>) -> Option<
        Seq<Seq<u32>>,
    > {
        arbitrary()
    }

    /// The batches that it hands out at its end, after these pieces, and whether
    /// that goes well.
    closed spec fn remainder(resampler: int, fed: Seq<Seq<u32>>) -> (Seq<Seq<u32>>, bool) {
        arbitrary()
    }

    /// Resample `mono`, handing out what is ready in batches; `None` where the
    /// resampler failed.
    fn feed(&mut self, mono: &[u32]) -> (batches: Option<Vec<Vec<u32>>>)
        ensures
            final(self).resampler() == old(self).resampler(),
            final(self).fed() == old(self).fed().push(mono@),
            match batches {
                Some(batches) => Self::handed(old(self).resampler(), old(self).fed(), mono@)
                    == Some(batches_of(batches@)),
                None => Self::handed(old(self).resampler(), old(self).fed(), mono@) is None,
            },
    ;

    /// Hand out the rest in batches, and whether that went well.
    fn finish(self) -> (last: (Vec<Vec<u32>>, bool))
        ensures
            Self::remainder(self.resampler(), self.fed()) == (batches_of(last.0@), last.1),
    ;
}

/// What opens a resampler for a pass.
pub trait ResamplerBackend: Sized {
    type Stream: MonoStream;

    /// The resampler that it opens for these rates; `None` where it has none.
    closed spec fn opens(&self, source_rate: int, target_rate: int) -> Option<int> {
        arbitrary()
    }

    fn stream(&self, source_rate: u32, target_rate: u32) -> (stream: Option<Self::Stream>)
        ensures
            match stream {
                Some(stream) => {
                    &&& self.opens(source_rate as int, target_rate as int) == Some(
                        stream.resampler(),
                    )
                    &&& stream.fed() == Seq::<Seq<u32>>::empty()
                },
                None => self.opens(source_rate as int, target_rate as int) is None,
            },
    ;
}

/// `frames` counted at one rate, in frames of another, to the nearest and
/// halves upward.
pub open spec fn scaled(frames: int, to: int, from: int) -> int {
    (2 * frames * to + from) / (2 * from)
}

/// The largest count a buffer can be asked for.
pub open spec fn capped(frames: int) -> int {
    if frames <= usize::MAX {
        frames
    } else {
        usize::MAX as int
    }
}

/// `frames` counted at one rate, in frames of another.
fn scale(frames: u64, to: u32, from: u32) -> (count: u128)
    requires
        from > 0,
    ensures
        count == scaled(frames as int, to as int, from as int),
{
    assert(0 <= 2 * frames * to <= 2 * 0xffff_ffff_ffff_ffffint * 0xffff_ffffint) by (nonlinear_arith)
        requires
            0 <= frames <= 0xffff_ffff_ffff_ffffint,
            0 <= to <= 0xffff_ffffint,
    ;
    (2 * (frames as u128) * (to as u128) + (from as u128)) / (2 * (from as u128))
}

/// `frames` counted at one rate, in frames of another, as far as a buffer can
/// hold them.
fn scale_to_len(frames: u64, to: u32, from: u32) -> (count: usize)
    requires
        from > 0,
    ensures
        count == capped(scaled(frames as int, to as int, from as int)),
{
    let count: u128 = scale(frames, to, from);
    if count <= usize::MAX as u128 {
        count as usize
    } else {
        usize::MAX
    }
}

/// At one rate a count stays as it is.
proof fn lemma_scaled_same(frames: int, rate: int)
    requires
        rate > 0,
        frames >= 0,
    ensures
        scaled(frames, rate, rate) == frames,
{
    assert(2 * frames * rate + rate == (2 * rate) * frames + rate) by (nonlinear_arith);
    lemma_div_multiples_vanish_fancy(frames, rate, 2 * rate);
}

/// One contiguous covered span of the source, held as detector-rate mono
/// anchored at its own source start.
///
/// The run, not the pass, owns the resampler: a stream is sequential, so a
/// range decoded later in the track cannot be pushed through the stream that
/// produced an earlier one. A run keeps its stream only while it is the
/// frontier; the moment another segment is appended behind it, the stream is
/// flushed into `mono` and dropped.
struct Run<S> {
    start: u64,
    end: u64,
    /// Detector-rate mono from `start`, drawn from the pass's pool so a run
    /// cannot grow outside the pool's budget.
    mono: PcmBuf,
    stream: Option<S>,
}

/// An open stream, as a value: the resampler it is and the pieces it was fed.
pub struct StreamState {
    pub resampler: int,
    pub fed: Seq<Seq<u32>>,
}

/// One run, as a value: the span it covers, its detector-rate mono, and the
/// stream that is still open behind it.
pub struct RunState {
    pub start: u64,
    pub end: u64,
    pub mono: Seq<u32>,
    pub stream: Option<StreamState>,
}

impl RunState {
    /// The source frames it covers.
    pub open spec fn span(self) -> FrameRange {
        FrameRange { start: self.start, frames: (self.end - self.start) as u64 }
    }

    /// Whether it holds one sample for each frame it covers.
    pub open spec fn exact(self) -> bool {
        self.mono.len() == self.end - self.start
    }
}

impl<S: MonoStream> Run<S> {
    spec fn state(self) -> RunState {
        RunState {
            start: self.start,
            end: self.end,
            mono: self.mono@,
            stream: match self.stream {
                Some(stream) => Some(
                    StreamState { resampler: stream.resampler(), fed: stream.fed() },
                ),
                None => None,
            },
        }
    }
}

spec fn states<S: MonoStream>(runs: Seq<Run<S>>) -> Seq<RunState> {
    Seq::new(runs.len(), |i: int| runs[i].state())
}

/// The source frames that each run covers.
pub open spec fn layout(runs: Seq<RunState>) -> Seq<FrameRange> {
    Seq::new(runs.len(), |i: int| runs[i].span())
}

/// The runs of a pass: none is empty, they ascend, and no two touch.
pub open spec fn in_order(runs: Seq<RunState>) -> bool {
    &&& forall|i: int| 0 <= i < runs.len() ==> (#[trigger] runs[i]).start < runs[i].end
    &&& forall|i: int, j: int|
        0 <= i < j < runs.len() ==> (#[trigger] runs[i]).end < (#[trigger] runs[j]).start
}

/// Whether a block over `[at, end)` touches the runs from `first` up to `last`,
/// and no others.
pub open spec fn splits(runs: Seq<RunState>, at: u64, end: u64, first: int, last: int) -> bool {
    &&& 0 <= first <= last <= runs.len()
    &&& forall|i: int| 0 <= i < first ==> (#[trigger] runs[i]).end < at
    &&& forall|i: int|
        first <= i < last ==> at <= (#[trigger] runs[i]).end && runs[i].start <= end
    &&& forall|i: int| last <= i < runs.len() ==> end < (#[trigger] runs[i]).start
}

/// The rates and the budget that runs are assembled under, and the resampler
/// that opens for those rates.
pub struct Terms {
    pub source: int,
    pub target: int,
    pub limit: int,
    pub resampler: Option<int>,
}

impl Terms {
    /// Detector frames that a source span of `frames` becomes.
    pub open spec fn detector_frames(self, frames: int) -> int {
        capped(scaled(frames, self.target, self.source))
    }
}

/// Where a run over `absorbed` and a block from `at` on begins.
pub open spec fn merged_start(absorbed: Seq<RunState>, at: u64) -> u64 {
    if absorbed.len() > 0 && absorbed[0].start < at {
        absorbed[0].start
    } else {
        at
    }
}

/// Where a run over `absorbed` and a block up to `end` ends.
pub open spec fn merged_end(absorbed: Seq<RunState>, end: u64) -> u64 {
    if absorbed.len() > 0 && end < absorbed.last().end {
        absorbed.last().end
    } else {
        end
    }
}

/// The sample at source frame `frame`: what a run already holds stays, and the
/// block fills the gaps.
pub open spec fn spliced(absorbed: Seq<RunState>, block: Seq<u32>, at: u64, frame: int) -> u32 {
    if exists|i: int| 0 <= i < absorbed.len() && (#[trigger] absorbed[i]).span().has(frame) {
        let i = choose|i: int|
            0 <= i < absorbed.len() && (#[trigger] absorbed[i]).span().has(frame);
        absorbed[i].mono[frame - absorbed[i].start]
    } else {
        block[frame - at]
    }
}

/// How far the first `count` of the absorbed runs reach.
pub open spec fn reach_of(absorbed: Seq<RunState>, at: u64, count: int) -> u64 {
    if count == 0 {
        merged_start(absorbed, at)
    } else {
        absorbed[count - 1].end
    }
}

/// `before`, which the runs ahead of the n-th have come to, with the n-th run
/// behind it: what the resampler made of the gap in between, where there is
/// one, and then the run's own mono with what its stream still had. Both joins
/// are pinned to the detector frame that their source position implies.
pub open spec fn with_run(
    terms: Terms,
    absorbed: Seq<RunState>,
    at: u64,
    n: int,
    before: Seq<u32>,
    gap: Seq<Seq<u32>>,
    rest: Seq<Seq<u32>>,
) -> Seq<u32> {
    let base = merged_start(absorbed, at);
    let run = absorbed[n];
    let filled = if reach_of(absorbed, at, n) < run.start {
        padded(
            appended(before, gap, terms.limit),
            terms.detector_frames(run.start - base),
            terms.limit,
        )
    } else {
        before
    };
    padded(
        append_within(filled, appended(run.mono, rest, terms.limit), terms.limit),
        terms.detector_frames(run.end - base),
        terms.limit,
    )
}

/// What a stream that opens on `piece` hands out for it, and the stream as it
/// stands then; `None` where none opens or it fails. Where nothing needs
/// resampling, that is the piece itself and no stream.
pub open spec fn opened<S: MonoStream>(terms: Terms, piece: Seq<u32>) -> Option<
    (Seq<Seq<u32>>, Option<StreamState>),
> {
    if terms.source == terms.target {
        Some((seq![piece], None))
    } else {
        match terms.resampler {
            Some(resampler) => match S::handed(resampler, Seq::empty(), piece) {
                Some(batches) => Some(
                    (batches, Some(StreamState { resampler, fed: seq![piece] })),
                ),
                None => None,
            },
            None => None,
        }
    }
}

/// What an open stream still has.
pub open spec fn rest_of<S: MonoStream>(stream: Option<StreamState>) -> Seq<Seq<u32>> {
    match stream {
        Some(stream) => S::remainder(stream.resampler, stream.fed).0,
        None => Seq::empty(),
    }
}

/// Whether a stream ends well.
pub open spec fn ends_well<S: MonoStream>(stream: Option<StreamState>) -> bool {
    match stream {
        Some(stream) => S::remainder(stream.resampler, stream.fed).1,
        None => true,
    }
}

/// What a stream hands out in all that opens on `piece` and is flushed straight
/// away; `None` where any of it fails.
pub open spec fn closed_segment<S: MonoStream>(terms: Terms, piece: Seq<u32>) -> Option<
    Seq<Seq<u32>>,
> {
    match opened::<S>(terms, piece) {
        Some((batches, stream)) => if ends_well::<S>(stream) {
            Some(batches + rest_of::<S>(stream))
        } else {
            None
        },
        None => None,
    }
}

/// What fills the gap ahead of the n-th absorbed run: nothing where there is
/// none, and `None` where the resampler fails on it.
pub open spec fn gap_before<S: MonoStream>(
    terms: Terms,
    absorbed: Seq<RunState>,
    block: Seq<u32>,
    at: u64,
    n: int,
) -> Option<Seq<Seq<u32>>> {
    let reach = reach_of(absorbed, at, n);
    if reach < absorbed[n].start {
        closed_segment::<S>(terms, block.subrange(reach - at, absorbed[n].start - at))
    } else {
        Some(Seq::empty())
    }
}

/// What the first `count` of the absorbed runs come to with the block in their
/// gaps; `None` where the resampler fails on one of these.
#[verifier::opaque]
pub open spec fn assembled<S: MonoStream>(
    terms: Terms,
    absorbed: Seq<RunState>,
    block: Seq<u32>,
    at: u64,
    count: nat,
) -> Option<Seq<u32>>
    decreases count,
{
    if count == 0 {
        Some(Seq::empty())
    } else {
        let n = count - 1;
        match (
            assembled::<S>(terms, absorbed, block, at, (count - 1) as nat),
            gap_before::<S>(terms, absorbed, block, at, n),
        ) {
            (Some(before), Some(gap)) => Some(
                with_run(terms, absorbed, at, n, before, gap, rest_of::<S>(absorbed[n].stream)),
            ),
            _ => None,
        }
    }
}

proof fn lemma_assembled_none<S: MonoStream>(
    terms: Terms,
    absorbed: Seq<RunState>,
    block: Seq<u32>,
    at: u64,
)
    ensures
        assembled::<S>(terms, absorbed, block, at, 0) == Some(Seq::<u32>::empty()),
{
    reveal_with_fuel(assembled, 1);
}

proof fn lemma_assembled_step<S: MonoStream>(
    terms: Terms,
    absorbed: Seq<RunState>,
    block: Seq<u32>,
    at: u64,
    n: int,
)
    requires
        n >= 0,
    ensures
        assembled::<S>(terms, absorbed, block, at, (n + 1) as nat) == match (
            assembled::<S>(terms, absorbed, block, at, n as nat),
            gap_before::<S>(terms, absorbed, block, at, n),
        ) {
            (Some(before), Some(gap)) => Some(
                with_run(terms, absorbed, at, n, before, gap, rest_of::<S>(absorbed[n].stream)),
            ),
            _ => None,
        },
{
    reveal_with_fuel(assembled, 1);
    assert(((n + 1) as nat - 1) as nat == n as nat);
}

/// Where the resampler fails on a gap, nothing comes of the runs behind it.
proof fn lemma_assembled_lost<S: MonoStream>(
    terms: Terms,
    absorbed: Seq<RunState>,
    block: Seq<u32>,
    at: u64,
    n: nat,
    count: nat,
)
    requires
        n <= count,
        assembled::<S>(terms, absorbed, block, at, n) is None,
    ensures
        assembled::<S>(terms, absorbed, block, at, count) is None,
    decreases count - n,
{
    if n < count {
        lemma_assembled_step::<S>(terms, absorbed, block, at, n as int);
        lemma_assembled_lost::<S>(terms, absorbed, block, at, (n + 1) as nat, count);
    }
}

/// `before` with a run of these batches behind it.
pub open spec fn with_tail(before: Seq<u32>, batches: Seq<Seq<u32>>, limit: int) -> Seq<u32> {
    append_within(before, appended(Seq::empty(), batches, limit), limit)
}

/// What the block holds past the absorbed runs: all of it where there are none.
pub open spec fn piece_past(
    absorbed: Seq<RunState>,
    block: Seq<u32>,
    at: u64,
    end: u64,
) -> Seq<u32> {
    if absorbed.len() == 0 {
        block
    } else {
        block.subrange(reach_of(absorbed, at, absorbed.len() as int) - at, end - at)
    }
}

/// What `absorbed` and a block at `at` fold into, left to right: the runs with
/// the block in their gaps, and behind them what it holds past them, whose
/// stream stays open. `None` where the resampler fails on any of it.
#[verifier::opaque]
pub open spec fn folded_into<S: MonoStream>(
    terms: Terms,
    absorbed: Seq<RunState>,
    block: Seq<u32>,
    at: u64,
    end: u64,
) -> Option<RunState> {
    match assembled::<S>(terms, absorbed, block, at, absorbed.len()) {
        Some(before) => if reach_of(absorbed, at, absorbed.len() as int) < end {
            match opened::<S>(terms, piece_past(absorbed, block, at, end)) {
                Some((batches, stream)) => Some(
                    RunState {
                        start: merged_start(absorbed, at),
                        end: merged_end(absorbed, end),
                        mono: with_tail(before, batches, terms.limit),
                        stream,
                    },
                ),
                None => None,
            }
        } else {
            Some(
                RunState {
                    start: merged_start(absorbed, at),
                    end: merged_end(absorbed, end),
                    mono: before,
                    stream: None,
                },
            )
        },
        None => None,
    }
}

/// Whether `merged` is what `absorbed` and a block at `at` fold into.
///
/// Where no resampling is needed, every frame keeps the sample it was given
/// first. Where it is, the samples are the resampler's, and every join is pinned
/// to the detector frame that its source position implies: a run whose end the
/// block does not reach past has exactly the length of its span.
pub open spec fn is_merge<S: MonoStream>(
    terms: Terms,
    absorbed: Seq<RunState>,
    block: Seq<u32>,
    at: u64,
    end: u64,
    merged: RunState,
) -> bool {
    let span = merged.end - merged.start;
    &&& folded_into::<S>(terms, absorbed, block, at, end) == Some(merged)
    &&& merged.start == merged_start(absorbed, at)
    &&& merged.end == merged_end(absorbed, end)
    &&& merged.stream is Some <==> terms.source != terms.target && reach_of(
        absorbed,
        at,
        absorbed.len() as int,
    ) < end
    &&& terms.source == terms.target && span <= terms.limit && at + block.len() <= u64::MAX && (
    forall|i: int| 0 <= i < absorbed.len() ==> (#[trigger] absorbed[i]).exact()) ==> {
        &&& merged.exact()
        &&& forall|frame: int|
            merged.span().has(frame) ==> #[trigger] merged.mono[frame - merged.start] == spliced(
                absorbed,
                block,
                at,
                frame,
            )
    }
    &&& absorbed.len() > 0 && absorbed.last().end >= end ==> {
        &&& merged.stream is None
        &&& terms.detector_frames(span) <= terms.limit ==> merged.mono.len()
            == terms.detector_frames(span)
    }
}

/// What the runs become once a block at `at` is folded in: the ones it touches
/// give way to one run, and the others stay as they are.
pub open spec fn is_placed<S: MonoStream>(
    terms: Terms,
    before: Seq<RunState>,
    block: Seq<u32>,
    at: u64,
    end: u64,
    after: Seq<RunState>,
) -> bool {
    exists|first: int, last: int, merged: RunState|
        {
            &&& #[trigger] splits(before, at, end, first, last)
            &&& #[trigger] is_merge::<S>(
                terms,
                before.subrange(first, last),
                block,
                at,
                end,
                merged,
            )
            &&& after == before.take(first).push(merged) + before.skip(last)
        }
}

/// What the runs become once a resampler failed on a block over `[at, end)`:
/// the ones it touches are gone, and the others stay as they are.
pub open spec fn is_lost<S: MonoStream>(
    terms: Terms,
    before: Seq<RunState>,
    block: Seq<u32>,
    at: u64,
    end: u64,
    after: Seq<RunState>,
) -> bool {
    exists|first: int, last: int|
        {
            &&& #[trigger] splits(before, at, end, first, last)
            &&& folded_into::<S>(terms, before.subrange(first, last), block, at, end) is None
            &&& after == before.take(first) + before.skip(last)
        }
}

/// Detector frames that runs hold between them.
pub open spec fn held_by(runs: Seq<RunState>) -> int
    decreases runs.len(),
{
    if runs.len() == 0 {
        0
    } else {
        held_by(runs.drop_last()) + runs.last().mono.len()
    }
}

/// How many source frames go from the front of `run`, which holds mono, to spare
/// `over` detector frames: at least one, and no more than it covers.
pub open spec fn source_share(run: RunState, over: int, source: int, target: int) -> int {
    let wanted = scaled(
        if over < run.mono.len() {
            over
        } else {
            run.mono.len() as int
        },
        source,
        target,
    );
    if wanted < 1 {
        1
    } else if wanted < run.end - run.start {
        wanted
    } else {
        run.end - run.start
    }
}

/// How many detector frames go with them: at least one, and all of them where no
/// source frame is left.
pub open spec fn detector_share(run: RunState, over: int, source: int, target: int) -> int {
    let share = source_share(run, over, source, target);
    let exact = scaled(share, target, source);
    if share >= run.end - run.start || exact >= run.mono.len() {
        run.mono.len() as int
    } else if exact < 1 {
        1
    } else {
        exact
    }
}

/// `run` without what goes from its front to spare `over` detector frames.
pub open spec fn trimmed(run: RunState, over: int, source: int, target: int) -> RunState {
    RunState {
        start: (run.start + source_share(run, over, source, target)) as u64,
        mono: run.mono.skip(detector_share(run, over, source, target)),
        ..run
    }
}

/// The runs and the dropped ranges once `over` detector frames are spared, from
/// the earliest run that holds any forward. Every step takes whole source frames
/// from the front of a run and reports them; a run that has none left is gone,
/// and one that holds no detector frame is passed over.
pub open spec fn reclaimed(
    runs: Seq<RunState>,
    dropped: Seq<(u64, u64)>,
    over: int,
    source: int,
    target: int,
) -> (Seq<RunState>, Seq<(u64, u64)>)
    decreases
            runs.len(),
            if over < 0 {
                0
            } else {
                over
            },
{
    if over <= 0 || runs.len() == 0 {
        (runs, dropped)
    } else if runs[0].mono.len() == 0 {
        let rest = reclaimed(runs.skip(1), dropped, over, source, target);
        (seq![runs[0]] + rest.0, rest.1)
    } else {
        let run = trimmed(runs[0], over, source, target);
        reclaimed(
            if run.start < run.end {
                runs.update(0, run)
            } else {
                runs.skip(1)
            },
            dropped.push((runs[0].start, run.start)),
            over - detector_share(runs[0], over, source, target),
            source,
            target,
        )
    }
}

/// The contiguous runs a beat pass has assembled, in source order.
pub struct Runs<B: ResamplerBackend> {
    runs: Vec<Run<B::Stream>>,
    backend: B,
    pcm_pool: PcmPool,
    /// Detector frames the runs may hold between them. Detection consumes the
    /// front of a run and never its back, so the budget is spent from the
    /// earliest run forward.
    budget: usize,
    /// Source ranges whose detector-rate mono the budget reclaimed. They stay
    /// covered for every other consumer; beat simply cannot analyse them again.
    dropped: Vec<(u64, u64)>,
    source_rate: u32,
    target_rate: u32,
}

/// The samples of each batch.
pub open spec fn batches_of(batches: Seq<Vec<u32>>) -> Seq<Seq<u32>> {
    Seq::new(batches.len(), |i: int| batches[i]@)
}

/// `samples` with every batch appended in turn; one that there is no room for is
/// dropped as a whole.
pub open spec fn appended(samples: Seq<u32>, batches: Seq<Seq<u32>>, limit: int) -> Seq<u32>
    decreases batches.len(),
{
    if batches.len() == 0 {
        samples
    } else {
        append_within(appended(samples, batches.drop_last(), limit), batches.last(), limit)
    }
}

proof fn lemma_appended_one(samples: Seq<u32>, batch: Seq<u32>, limit: int)
    ensures
        appended(samples, seq![batch], limit) == append_within(samples, batch, limit),
{
    reveal_with_fuel(appended, 2);
    assert(seq![batch].drop_last() =~= Seq::<Seq<u32>>::empty());
}

proof fn lemma_appended_bounded(samples: Seq<u32>, batches: Seq<Seq<u32>>, limit: int)
    requires
        samples.len() <= limit,
    ensures
        appended(samples, batches, limit).len() <= limit,
    decreases batches.len(),
{
    if batches.len() > 0 {
        lemma_appended_bounded(samples, batches.drop_last(), limit);
    }
}

proof fn lemma_appended_join(
    samples: Seq<u32>,
    first: Seq<Seq<u32>>,
    second: Seq<Seq<u32>>,
    limit: int,
)
    ensures
        appended(appended(samples, first, limit), second, limit) == appended(
            samples,
            first + second,
            limit,
        ),
    decreases second.len(),
{
    if second.len() == 0 {
        assert(first + second =~= first);
    } else {
        assert((first + second).drop_last() =~= first + second.drop_last());
        lemma_appended_join(samples, first, second.drop_last(), limit);
    }
}

/// Append every batch in turn; one that the buffer has no room for is dropped
/// as a whole.
pub fn append_all(out: &mut PcmBuf, batches: &Vec<Vec<u32>>)
    ensures
        final(out).limit() == old(out).limit(),
        final(out)@ == appended(old(out)@, batches_of(batches@), old(out).limit() as int),
{
    let ghost before = out@;
    let ghost limit = out.limit();
    let ghost all = batches_of(batches@);
    let mut i: usize = 0;
    assert(all.take(0) =~= Seq::<Seq<u32>>::empty());
    while i < batches.len()
        invariant
            i <= batches@.len(),
            all == batches_of(batches@),
            out.limit() == limit,
            out@ == appended(before, all.take(i as int), limit as int),
        decreases batches@.len() - i,
    {
        proof {
            assert(all.take(i + 1).drop_last() =~= all.take(i as int));
        }
        out.append(batches[i].as_slice());
        i += 1;
    }
    assert(all.take(all.len() as int) =~= all);
}

/// The `[from, to)` part of a block that starts at source frame `at`.
fn slice(mono: &[u32], at: u64, from: u64, to: u64) -> (piece: &[u32])
    requires
        at <= from <= to <= at + mono@.len(),
    ensures
        piece@ == mono@.subrange(from - at, to - at),
{
    let len: usize = mono.len();
    assert(to - at <= len);
    let start: usize = (from - at) as usize;
    let end: usize = (to - at) as usize;
    vstd::slice::slice_subrange(mono, start, end)
}

impl<B: ResamplerBackend> Runs<B> {
    /// What the runs hold.
    pub closed spec fn view_runs(&self) -> Seq<RunState> {
        states(self.runs@)
    }

    /// The source ranges that the budget reclaimed, in the order it did.
    pub closed spec fn dropped_ranges(&self) -> Seq<(u64, u64)> {
        self.dropped@
    }

    /// The rates, the budget of the buffers and the resampler of those rates.
    pub closed spec fn terms(&self) -> Terms {
        Terms {
            source: self.source_rate as int,
            target: self.target_rate as int,
            limit: self.pcm_pool.limit as int,
            resampler: self.backend.opens(self.source_rate as int, self.target_rate as int),
        }
    }

    /// Detector frames the runs may hold between them.
    pub closed spec fn budget_of(&self) -> int {
        self.budget as int
    }

    /// The runs are in order, on their own rates and in their pool's buffers,
    /// and no stream is open where nothing needs resampling.
    pub closed spec fn well_formed(&self) -> bool {
        &&& self.source_rate > 0
        &&& self.target_rate > 0
        &&& in_order(states(self.runs@))
        &&& forall|i: int|
            0 <= i < self.runs@.len() ==> (#[trigger] self.runs@[i]).mono.limit()
                == self.pcm_pool.limit
        &&& self.source_rate == self.target_rate ==> forall|i: int|
            0 <= i < self.runs@.len() ==> (#[trigger] self.runs@[i]).stream is None
    }

    /// No runs yet. A rate of zero counts as one.
    pub fn new(
        backend: B,
        target_rate: u32,
        pcm_pool: PcmPool,
        source_rate: u32,
        budget: usize,
    ) -> (runs: Self)
        ensures
            runs.well_formed(),
            runs.view_runs() == Seq::<RunState>::empty(),
            runs.dropped_ranges() == Seq::<(u64, u64)>::empty(),
            runs.budget_of() == budget,
            runs.terms() == ({
                let source = if source_rate == 0 {
                    1
                } else {
                    source_rate as int
                };
                let target = if target_rate == 0 {
                    1
                } else {
                    target_rate as int
                };
                Terms {
                    source,
                    target,
                    limit: pcm_pool.limit as int,
                    resampler: backend.opens(source, target),
                }
            }),
    {
        let runs = Runs {
            runs: Vec::new(),
            backend,
            pcm_pool,
            budget,
            dropped: Vec::new(),
            source_rate: if source_rate == 0 {
                1
            } else {
                source_rate
            },
            target_rate: if target_rate == 0 {
                1
            } else {
                target_rate
            },
        };
        assert(runs.view_runs() =~= Seq::<RunState>::empty());
        runs
    }

    /// Source ranges whose detector-rate mono the budget reclaimed.
    pub fn dropped(&self) -> (dropped: &[(u64, u64)])
        ensures
            dropped@ == self.dropped_ranges(),
    {
        self.dropped.as_slice()
    }

    pub fn target_rate(&self) -> (rate: u32)
        ensures
            rate == self.terms().target,
    {
        self.target_rate
    }

    /// Detector frames a source span of `frames` becomes, using the same
    /// rounding the resampler uses for its own output budget.
    pub fn detector_frames(&self, frames: u64) -> (count: usize)
        requires
            self.well_formed(),
        ensures
            count == self.terms().detector_frames(frames as int),
    {
        scale_to_len(frames, self.target_rate, self.source_rate)
    }

    /// Detector frames a source frame maps to inside a run starting at `start`.
    pub fn offset_in_run(&self, start: u64, frame: u64) -> (offset: usize)
        requires
            self.well_formed(),
        ensures
            offset == self.terms().detector_frames(
                if start < frame {
                    frame - start
                } else {
                    0
                },
            ),
    {
        self.detector_frames(frame.saturating_sub(start))
    }

    /// Start a run at `at`, keeping its stream as the frontier.
    fn open(&self, mono: &[u32], at: u64, end: u64) -> (run: Option<Run<B::Stream>>)
        requires
            self.well_formed(),
        ensures
            run is None <==> opened::<B::Stream>(self.terms(), mono@) is None,
            run matches Some(run) ==> {
                &&& run.mono.limit() == self.terms().limit
                &&& opened::<B::Stream>(self.terms(), mono@) matches Some((batches, stream))
                    && run.state() == (RunState {
                    start: at,
                    end,
                    mono: appended(Seq::empty(), batches, self.terms().limit),
                    stream,
                })
                &&& self.terms().source == self.terms().target ==> run.mono@ == append_within(
                    Seq::<u32>::empty(),
                    mono@,
                    self.terms().limit,
                )
            },
    {
        let mut out = self.pcm_pool.get();
        if self.source_rate == self.target_rate {
            out.append(mono);
            proof {
                lemma_appended_one(Seq::empty(), mono@, self.terms().limit);
            }
            return Some(Run { start: at, end, mono: out, stream: None });
        }
        let mut stream = match self.backend.stream(self.source_rate, self.target_rate) {
            Some(stream) => stream,
            None => return None,
        };
        match stream.feed(mono) {
            Some(batches) => append_all(&mut out, &batches),
            None => return None,
        }
        assert(stream.fed() =~= seq![mono@]);
        Some(Run { start: at, end, mono: out, stream: Some(stream) })
    }

    /// Resample one closed segment into `out`: its stream never becomes a
    /// frontier, so it is flushed straight away.
    fn segment(&self, out: &mut PcmBuf, mono: &[u32]) -> (done: bool)
        requires
            self.well_formed(),
            old(out).limit() == self.terms().limit,
        ensures
            final(out).limit() == old(out).limit(),
            done <==> closed_segment::<B::Stream>(self.terms(), mono@) is Some,
            closed_segment::<B::Stream>(self.terms(), mono@) matches Some(batches) ==> final(out)@
                == appended(old(out)@, batches, self.terms().limit),
            self.terms().source == self.terms().target ==> {
                &&& done
                &&& final(out)@ == append_within(old(out)@, mono@, self.terms().limit)
            },
    {
        if self.source_rate == self.target_rate {
            out.append(mono);
            proof {
                lemma_appended_one(old(out)@, mono@, self.terms().limit);
                assert(seq![mono@] + Seq::<Seq<u32>>::empty() =~= seq![mono@]);
            }
            return true;
        }
        let mut stream = match self.backend.stream(self.source_rate, self.target_rate) {
            Some(stream) => stream,
            None => return false,
        };
        let batches = match stream.feed(mono) {
            Some(batches) => batches,
            None => return false,
        };
        append_all(out, &batches);
        assert(stream.fed() =~= seq![mono@]);
        let (rest, finished) = stream.finish();
        append_all(out, &rest);
        proof {
            lemma_appended_join(
                old(out)@,
                batches_of(batches@),
                batches_of(rest@),
                self.terms().limit,
            );
        }
        finished
    }

    /// Fold `absorbed` and the block into one run, left to right. Every stream
    /// but the frontier's is flushed and every join is pinned to the detector
    /// frame its source position implies, so a rounding difference cannot
    /// accumulate into a drift of the markers downstream of it.
    fn merge(
        &self,
        absorbed: Vec<Run<B::Stream>>,
        mono: &[u32],
        at: u64,
        end: u64,
    ) -> (run: Option<Run<B::Stream>>)
        requires
            self.well_formed(),
            absorbed@.len() > 0,
            in_order(states(absorbed@)),
            at < end <= at + mono@.len(),
            forall|i: int|
                0 <= i < absorbed@.len() ==> at <= (#[trigger] absorbed@[i]).end
                    && absorbed@[i].start <= end,
            forall|i: int|
                0 <= i < absorbed@.len() ==> (#[trigger] absorbed@[i]).mono.limit()
                    == self.terms().limit,
            self.terms().source == self.terms().target ==> forall|i: int|
                0 <= i < absorbed@.len() ==> (#[trigger] absorbed@[i]).stream is None,
        ensures
            self.terms().source == self.terms().target ==> run is Some,
            run is None ==> folded_into::<B::Stream>(
                self.terms(),
                states(absorbed@),
                mono@,
                at,
                end,
            ) is None,
            run matches Some(run) ==> {
                &&& run.mono.limit() == self.terms().limit
                &&& is_merge::<B::Stream>(
                    self.terms(),
                    states(absorbed@),
                    mono@,
                    at,
                    end,
                    run.state(),
                )
            },
    {
        let ghost all = states(absorbed@);
        let ghost terms = self.terms();
        let mut rest = absorbed;
        let base: u64 = if rest[0].start < at {
            rest[0].start
        } else {
            at
        };
        assert(all[0].start == rest@[0].start);
        let mut out = self.pcm_pool.get();
        let mut cursor: u64 = base;
        let ghost mut i: int = 0;
        proof {
            lemma_assembled_none::<B::Stream>(terms, all, mono@, at);
        }
        while rest.len() > 0
            invariant
                self.well_formed(),
                terms == self.terms(),
                all == states(absorbed@),
                in_order(all),
                0 <= i <= all.len(),
                rest@.len() == all.len() - i,
                states(rest@) == all.skip(i),
                at < end <= at + mono@.len(),
                forall|k: int| 0 <= k < all.len() ==> at <= (#[trigger] all[k]).end && all[k].start
                    <= end,
                forall|k: int|
                    0 <= k < rest@.len() ==> (#[trigger] rest@[k]).mono.limit() == terms.limit,
                out.limit() == terms.limit,
                base == merged_start(all, at),
                cursor == reach_of(all, at, i),
                assembled::<B::Stream>(terms, all, mono@, at, i as nat) == Some(out@),
            decreases rest@.len(),
        {
            let ghost state = all[i];
            assert(states(rest@)[0] == state);
            assert(state.start < state.end);
            let ghost waiting = rest@;
            let run = rest.remove(0);
            assert forall|k: int| 0 <= k < rest@.len() implies #[trigger] states(rest@)[k]
                == all.skip(i + 1)[k] by {
                assert(states(waiting)[k + 1] == all.skip(i)[k + 1]);
            }
            assert(states(rest@) =~= all.skip(i + 1));
            assert(run.state() == state);
            assert(i > 0 ==> all[i - 1].end < state.start);
            proof {
                lemma_assembled_step::<B::Stream>(terms, all, mono@, at, i);
            }
            if cursor < run.start {
                let piece = slice(mono, at, cursor, run.start);
                if !self.segment(&mut out, piece) {
                    proof {
                        lemma_assembled_lost::<B::Stream>(
                            terms,
                            all,
                            mono@,
                            at,
                            (i + 1) as nat,
                            all.len(),
                        );
                        reveal(folded_into);
                    }
                    return None;
                }
                out.pad(self.detector_frames(run.start - base));
            }
            let mut tail = run.mono;
            if let Some(stream) = run.stream {
                let (batches, _) = stream.finish();
                append_all(&mut tail, &batches);
            }
            assert(tail@ == appended(state.mono, rest_of::<B::Stream>(state.stream), terms.limit));
            out.append(tail.as_slice());
            cursor = run.end;
            out.pad(self.detector_frames(cursor - base));
            proof {
                i = i + 1;
            }
        }
        let mut stream: Option<B::Stream> = None;
        if cursor < end {
            let piece = slice(mono, at, cursor, end);
            let opened = match self.open(piece, cursor, end) {
                Some(opened) => opened,
                None => {
                    proof {
                        reveal(folded_into);
                    }
                    return None;
                },
            };
            out.append(opened.mono.as_slice());
            stream = opened.stream;
            cursor = end;
        }
        assert(cursor == merged_end(all, end));
        let run = Run { start: base, end: cursor, mono: out, stream };
        assert(folded_into::<B::Stream>(terms, all, mono@, at, end) == Some(run.state())) by {
            reveal(folded_into);
        }
        proof {
            lemma_is_merge::<B::Stream>(terms, all, mono@, at, end, run.state());
        }
        Some(run)
    }

    /// Detector frames the runs hold between them.
    pub fn held_frames(&self) -> (held: u128)
        ensures
            held == held_by(self.view_runs()),
    {
        let ghost all = states(self.runs@);
        let mut held: u128 = 0;
        let mut i: usize = 0;
        while i < self.runs.len()
            invariant
                i <= self.runs@.len(),
                all == states(self.runs@),
                held == held_by(all.take(i as int)),
                held <= i * (usize::MAX as int),
            decreases self.runs@.len() - i,
        {
            let len: usize = self.runs[i].mono.len();
            proof {
                assert(all.take(i + 1).drop_last() =~= all.take(i as int));
                assert(all[i as int].mono.len() == len);
                assert((i + 1) * (usize::MAX as int) == i * (usize::MAX as int) + usize::MAX)
                    by (nonlinear_arith);
                assert((i + 1) * (usize::MAX as int) <= u128::MAX) by (nonlinear_arith)
                    requires
                        0 <= i < usize::MAX,
                        usize::MAX <= 0xffff_ffff_ffff_ffffint,
                ;
            }
            held = held + len as u128;
            i += 1;
        }
        assert(all.take(all.len() as int) =~= all);
        held
    }

    /// Spend the budget from the earliest run forward, which is where
    /// detection has already been.
    pub fn enforce_budget(&mut self)
        requires
            old(self).well_formed(),
        ensures
            final(self).well_formed(),
            final(self).terms() == old(self).terms(),
            final(self).budget_of() == old(self).budget_of(),
            (final(self).view_runs(), final(self).dropped_ranges()) == reclaimed(
                old(self).view_runs(),
                old(self).dropped_ranges(),
                held_by(old(self).view_runs()) - old(self).budget_of(),
                old(self).terms().source,
                old(self).terms().target,
            ),
            held_by(final(self).view_runs()) <= old(self).budget_of(),
    {
        let ghost source = self.terms().source;
        let ghost target = self.terms().target;
        let held: u128 = self.held_frames();
        if held <= self.budget as u128 {
            return;
        }
        let mut over: u128 = held - self.budget as u128;
        let ghost goal = reclaimed(
            self.view_runs(),
            self.dropped_ranges(),
            over as int,
            source,
            target,
        );
        let mut at: usize = 0;
        proof {
            law_the_budget_is_kept(
                self.view_runs(),
                self.dropped_ranges(),
                self.budget_of(),
                source,
                target,
            );
            assert(self.view_runs().skip(0) =~= self.view_runs());
            assert(self.view_runs().take(0) + goal.0 =~= goal.0);
        }
        while over > 0 && at < self.runs.len()
            invariant
                self.well_formed(),
                self.terms() == old(self).terms(),
                self.budget_of() == old(self).budget_of(),
                source == self.terms().source,
                target == self.terms().target,
                at <= self.runs@.len(),
                ({
                    let rest = reclaimed(
                        self.view_runs().skip(at as int),
                        self.dropped_ranges(),
                        over as int,
                        source,
                        target,
                    );
                    goal == (self.view_runs().take(at as int) + rest.0, rest.1)
                }),
            decreases self.runs@.len() - at, over,
        {
            let ghost before = self.view_runs();
            let ghost dropped = self.dropped_ranges();
            let ghost first = before[at as int];
            proof {
                assert(first == self.runs@[at as int].state());
                assert(before.skip(at as int)[0] == first);
                assert(first.start < first.end);
            }
            let len: usize = self.runs[at].mono.len();
            if len == 0 {
                proof {
                    let rest = reclaimed(before.skip(at + 1), dropped, over as int, source, target);
                    assert(before.skip(at as int).skip(1) =~= before.skip(at + 1));
                    assert(before.take(at as int) + (seq![first] + rest.0) =~= before.take(at + 1)
                        + rest.0);
                }
                at += 1;
            } else {
                let ghost all = self.runs@;
                let start: u64 = self.runs[at].start;
                let span: u64 = self.runs[at].end - self.runs[at].start;
                let wanted: u128 = scale(
                    if over < len as u128 {
                        over as u64
                    } else {
                        len as u64
                    },
                    self.source_rate,
                    self.target_rate,
                );
                let share: u64 = if wanted < 1 {
                    1
                } else if wanted < span as u128 {
                    wanted as u64
                } else {
                    span
                };
                let scaled_share: u128 = scale(share, self.target_rate, self.source_rate);
                let exact: usize = if share >= span || scaled_share >= len as u128 {
                    len
                } else if scaled_share < 1 {
                    1
                } else {
                    scaled_share as usize
                };
                assert(share == source_share(first, over as int, source, target));
                assert(exact == detector_share(first, over as int, source, target));
                let mut run = self.runs.remove(at);
                run.mono.drop_front(exact);
                run.start = start + share;
                self.dropped.push((start, run.start));
                let ghost left = run.state();
                assert(left == trimmed(first, over as int, source, target));
                proof {
                    lemma_trimmed_in_order(before, at as int, left);
                }
                if run.start < run.end {
                    self.runs.insert(at, run);
                    proof {
                        assert(self.runs@ =~= all.update(at as int, run));
                        assert(self.view_runs() =~= before.update(at as int, left));
                        assert(self.view_runs().skip(at as int) =~= before.skip(at as int).update(
                            0,
                            left,
                        ));
                    }
                } else {
                    proof {
                        assert(self.runs@ =~= all.remove(at as int));
                        assert(self.view_runs() =~= before.remove(at as int));
                        assert(self.view_runs().skip(at as int) =~= before.skip(at as int).skip(1));
                    }
                }
                assert(self.view_runs().take(at as int) =~= before.take(at as int));
                proof {
                    let tail = self.view_runs().skip(at as int);
                    let more = self.dropped_ranges();
                    assert(more =~= dropped.push((first.start, left.start)));
                    assert(reclaimed(before.skip(at as int), dropped, over as int, source, target)
                        == reclaimed(tail, more, over - exact, source, target));
                    if exact >= over {
                        assert(reclaimed(tail, more, over - exact, source, target) == reclaimed(
                            tail,
                            more,
                            0,
                            source,
                            target,
                        ));
                    }
                }
                over = if exact as u128 >= over {
                    0
                } else {
                    over - exact as u128
                };
            }
        }
        assert(self.view_runs().take(at as int) + self.view_runs().skip(at as int)
            =~= self.view_runs());
    }

    /// Flush every frontier stream so each run holds its whole source span. What
    /// the streams still had counts against the budget once the next block comes.
    pub fn flush(&mut self)
        requires
            old(self).well_formed(),
        ensures
            final(self).well_formed(),
            final(self).terms() == old(self).terms(),
            final(self).budget_of() == old(self).budget_of(),
            final(self).dropped_ranges() == old(self).dropped_ranges(),
            final(self).view_runs().len() == old(self).view_runs().len(),
            forall|i: int|
                0 <= i < final(self).view_runs().len() ==> is_flushed::<B::Stream>(
                    old(self).terms(),
                    old(self).view_runs()[i],
                    #[trigger] final(self).view_runs()[i],
                ),
            forall|i: int|
                0 <= i < final(self).view_runs().len() && old(self).terms().detector_frames(
                    old(self).view_runs()[i].end - old(self).view_runs()[i].start,
                ) <= old(self).terms().limit ==> (#[trigger] final(self).view_runs()[i]).mono.len()
                    == old(self).terms().detector_frames(
                    old(self).view_runs()[i].end - old(self).view_runs()[i].start,
                ),
            forall|i: int, j: int|
                0 <= i < final(self).view_runs().len() && old(self).view_runs()[i].stream is Some
                    && 0 <= j < final(self).view_runs()[i].mono.len() ==> {
                    let run = old(self).view_runs()[i];
                    let rest = B::Stream::remainder(
                        run.stream->0.resampler,
                        run.stream->0.fed,
                    ).0.flatten();
                    let held = run.mono.len();
                    held + rest.len() <= old(self).terms().limit && old(
                        self,
                    ).terms().detector_frames(run.end - run.start) <= old(self).terms().limit
                        ==> #[trigger] final(self).view_runs()[i].mono[j] == if j < held {
                        run.mono[j]
                    } else if j - held < rest.len() {
                        rest[j - held]
                    } else {
                        0
                    }
                },
    {
        let ghost before = self.view_runs();
        let ghost terms = self.terms();
        let mut index: usize = 0;
        while index < self.runs.len()
            invariant
                self.well_formed(),
                self.terms() == terms,
                self.budget_of() == old(self).budget_of(),
                self.dropped_ranges() == old(self).dropped_ranges(),
                before == old(self).view_runs(),
                in_order(before),
                index <= self.runs@.len(),
                self.view_runs().len() == before.len(),
                forall|i: int|
                    0 <= i < index ==> is_flushed::<B::Stream>(
                        terms,
                        before[i],
                        #[trigger] self.view_runs()[i],
                    ),
                forall|i: int|
                    index <= i < before.len() ==> #[trigger] self.view_runs()[i] == before[i],
            decreases self.runs@.len() - index,
        {
            let ghost all = self.runs@;
            let ghost state = before[index as int];
            assert(self.view_runs()[index as int] == state);
            let expected: usize = self.detector_frames(
                self.runs[index].end - self.runs[index].start,
            );
            let run = self.runs.remove(index);
            let mut mono = run.mono;
            if let Some(stream) = run.stream {
                let (batches, _) = stream.finish();
                append_all(&mut mono, &batches);
            }
            assert(mono@ == appended(state.mono, rest_of::<B::Stream>(state.stream), terms.limit));
            mono.pad(expected);
            let flushed = Run { start: run.start, end: run.end, mono, stream: None };
            let ghost done = flushed.state();
            self.runs.insert(index, flushed);
            proof {
                assert(self.runs@ =~= all.update(index as int, flushed));
                assert(is_flushed::<B::Stream>(terms, state, done));
                assert forall|i: int| 0 <= i < before.len() implies #[trigger] self.view_runs()[i]
                    == if i == index {
                    done
                } else {
                    states(all)[i]
                } by {}
                assert(in_order(self.view_runs())) by {
                    assert forall|i: int| 0 <= i < before.len() implies {
                        &&& (#[trigger] self.view_runs()[i]).start == before[i].start
                        &&& self.view_runs()[i].end == before[i].end
                    } by {}
                }
            }
            index += 1;
        }
        proof {
            assert forall|i: int, j: int|
                0 <= i < self.view_runs().len() && before[i].stream is Some && 0 <= j
                    < self.view_runs()[i].mono.len() implies {
                let run = before[i];
                let rest = B::Stream::remainder(
                    run.stream->0.resampler,
                    run.stream->0.fed,
                ).0.flatten();
                let held = run.mono.len();
                held + rest.len() <= terms.limit && terms.detector_frames(run.end - run.start)
                    <= terms.limit ==> #[trigger] self.view_runs()[i].mono[j] == if j < held {
                    run.mono[j]
                } else if j - held < rest.len() {
                    rest[j - held]
                } else {
                    0
                }
            } by {
                let run = before[i];
                let after = self.view_runs()[i];
                assert(is_flushed::<B::Stream>(terms, run, after));
                if run.mono.len() + B::Stream::remainder(
                    run.stream->0.resampler,
                    run.stream->0.fed,
                ).0.flatten().len() <= terms.limit && terms.detector_frames(run.end - run.start)
                    <= terms.limit {
                    law_a_flush_keeps_what_the_stream_still_had::<B::Stream>(terms, run, after, j);
                }
            }
        }
    }

    /// Source-rate mono, in the same order the caller wants it analysed. A
    /// block starts before the last frame that the source axis can name.
    ///
    /// The block may extend a run, sit before one, bridge two, or start its
    /// own; every shape is the same walk from the leftmost touched run to the
    /// rightmost, appending the pieces of the block that fill the gaps. Where a
    /// resampler fails, what the block touches is left unanalysed.
    pub fn push(&mut self, mono: &[u32], at: u64)
        requires
            old(self).well_formed(),
            at < u64::MAX,
        ensures
            final(self).well_formed(),
            final(self).terms() == old(self).terms(),
            final(self).budget_of() == old(self).budget_of(),
            mono@.len() > 0 ==> held_by(final(self).view_runs()) <= old(self).budget_of(),
            mono@.len() == 0 ==> {
                &&& final(self).view_runs() == old(self).view_runs()
                &&& final(self).dropped_ranges() == old(self).dropped_ranges()
            },
            mono@.len() > 0 ==> exists|folded: Seq<RunState>|
                {
                    &&& #[trigger] is_folded::<B::Stream>(
                        old(self).terms(),
                        old(self).view_runs(),
                        mono@,
                        at,
                        folded,
                    )
                    &&& (final(self).view_runs(), final(self).dropped_ranges()) == reclaimed(
                        folded,
                        old(self).dropped_ranges(),
                        held_by(folded) - old(self).budget_of(),
                        old(self).terms().source,
                        old(self).terms().target,
                    )
                },
    {
        if mono.len() == 0 {
            return;
        }
        let ghost all = self.runs@;
        let ghost before = self.view_runs();
        let ghost terms = self.terms();
        let end: u64 = at.saturating_add(mono.len() as u64);
        let mut first: usize = 0;
        while first < self.runs.len() && self.runs[first].end < at
            invariant
                first <= self.runs@.len(),
                before == states(self.runs@),
                forall|i: int| 0 <= i < first ==> (#[trigger] before[i]).end < at,
            decreases self.runs@.len() - first,
        {
            assert(before[first as int].end == self.runs@[first as int].end);
            first += 1;
        }
        assert forall|i: int| first <= i < before.len() implies at <= (#[trigger] before[i]).end by {
            assert(before[first as int].end == self.runs@[first as int].end);
            if first < i {
                assert(before[first as int].end < before[i].start);
            }
        }
        let mut last: usize = first;
        while last < self.runs.len() && self.runs[last].start <= end
            invariant
                first <= last <= self.runs@.len(),
                before == states(self.runs@),
                forall|i: int| first <= i < last ==> (#[trigger] before[i]).start <= end,
            decreases self.runs@.len() - last,
        {
            assert(before[last as int].start == self.runs@[last as int].start);
            last += 1;
        }
        assert forall|i: int| last <= i < before.len() implies end < (#[trigger] before[i]).start by {
            assert(before[last as int].start == self.runs@[last as int].start);
            if last < i {
                assert(before[last as int].end < before[i].start);
            }
        }
        assert(splits(before, at, end, first as int, last as int));
        let mut tail = self.runs.split_off(last);
        let absorbed = self.runs.split_off(first);
        proof {
            assert(self.view_runs() =~= before.take(first as int));
            assert(states(absorbed@) =~= before.subrange(first as int, last as int));
            assert(states(tail@) =~= before.skip(last as int));
            assert(self.well_formed());
        }
        let touched: bool = absorbed.len() > 0;
        let ghost absorbed_states = states(absorbed@);
        let run = if touched {
            assert forall|i: int| 0 <= i < absorbed@.len() implies at <= (
            #[trigger] absorbed@[i]).end && absorbed@[i].start <= end by {
                assert(states(absorbed@)[i] == before[first + i]);
            }
            self.merge(absorbed, mono, at, end)
        } else {
            self.open(mono, at, end)
        };
        let ghost kept = self.runs@;
        let ghost behind = tail@;
        match run {
            Some(run) => {
                let ghost merged = run.state();
                proof {
                    if !touched {
                        assert(absorbed_states =~= Seq::<RunState>::empty());
                        let batches = opened::<B::Stream>(terms, mono@)->Some_0.0;
                        lemma_appended_bounded(Seq::empty(), batches, terms.limit);
                        assert(merged.mono =~= with_tail(Seq::empty(), batches, terms.limit));
                        reveal(folded_into);
                        lemma_assembled_none::<B::Stream>(terms, absorbed_states, mono@, at);
                        lemma_is_merge::<B::Stream>(
                            terms,
                            absorbed_states,
                            mono@,
                            at,
                            end,
                            merged,
                        );
                    }
                }
                self.runs.push(run);
                self.runs.append(&mut tail);
                proof {
                    assert(self.runs@ =~= kept.push(run) + behind);
                    assert(self.view_runs() =~= before.take(first as int).push(merged)
                        + before.skip(last as int));
                    assert(is_placed::<B::Stream>(terms, before, mono@, at, end, self.view_runs()));
                    law_a_block_joins_what_it_touches::<B::Stream>(
                        terms,
                        before,
                        mono@,
                        at,
                        end,
                        self.view_runs(),
                    );
                }
            },
            None => {
                self.runs.append(&mut tail);
                proof {
                    assert(self.runs@ =~= kept + behind);
                    assert(self.view_runs() =~= before.take(first as int) + before.skip(
                        last as int,
                    ));
                    assert(folded_into::<B::Stream>(
                        terms,
                        before.subrange(first as int, last as int),
                        mono@,
                        at,
                        end,
                    ) is None) by {
                        if !touched {
                            assert(absorbed_states =~= Seq::<RunState>::empty());
                            reveal(folded_into);
                            lemma_assembled_none::<B::Stream>(terms, absorbed_states, mono@, at);
                        }
                    }
                    assert(is_lost::<B::Stream>(terms, before, mono@, at, end, self.view_runs()));
                    assert(in_order(self.view_runs())) by {
                        lemma_without_middle_in_order(before, first as int, last as int);
                    }
                }
            },
        }
        assert(is_folded::<B::Stream>(terms, before, mono@, at, self.view_runs()));
        self.enforce_budget();
    }

    /// Detector-rate mono of every run, with the source frame each begins at.
    pub fn spans(&self) -> (spans: Vec<(u64, &[u32])>)
        ensures
            spans@.len() == self.view_runs().len(),
            forall|i: int|
                0 <= i < spans@.len() ==> {
                    &&& (#[trigger] spans@[i]).0 == self.view_runs()[i].start
                    &&& spans@[i].1@ == self.view_runs()[i].mono
                },
    {
        let mut spans: Vec<(u64, &[u32])> = Vec::new();
        let mut i: usize = 0;
        while i < self.runs.len()
            invariant
                i <= self.runs@.len(),
                spans@.len() == i,
                forall|k: int|
                    0 <= k < i ==> {
                        &&& (#[trigger] spans@[k]).0 == self.view_runs()[k].start
                        &&& spans@[k].1@ == self.view_runs()[k].mono
                    },
            decreases self.runs@.len() - i,
        {
            spans.push((self.runs[i].start, self.runs[i].mono.as_slice()));
            i += 1;
        }
        spans
    }
}

/// What a block at `at` makes of the runs before the budget is looked at. It is
/// lost only where the resampler fails.
pub open spec fn is_folded<S: MonoStream>(
    terms: Terms,
    before: Seq<RunState>,
    block: Seq<u32>,
    at: u64,
    after: Seq<RunState>,
) -> bool {
    let end = FrameRange { start: at, frames: block.len() as u64 }.end_frame() as u64;
    ||| is_placed::<S>(terms, before, block, at, end, after)
    ||| terms.source != terms.target && is_lost::<S>(terms, before, block, at, end, after)
}

/// Whether `after` is `before` with its stream flushed: what the stream still
/// had is appended, and the whole is pinned to the length of its span.
pub open spec fn is_flushed<S: MonoStream>(terms: Terms, before: RunState, after: RunState) -> bool {
    let expected = terms.detector_frames(before.end - before.start);
    &&& after.start == before.start
    &&& after.end == before.end
    &&& after.stream is None
    &&& after.mono == padded(
        appended(before.mono, rest_of::<S>(before.stream), terms.limit),
        expected,
        terms.limit,
    )
    &&& expected <= terms.limit ==> after.mono.len() == expected
}

proof fn lemma_held_is_positive(runs: Seq<RunState>)
    ensures
        held_by(runs) >= 0,
    decreases runs.len(),
{
    if runs.len() > 0 {
        lemma_held_is_positive(runs.drop_last());
    }
}

proof fn lemma_held_by_first(runs: Seq<RunState>)
    requires
        runs.len() > 0,
    ensures
        held_by(runs) == runs[0].mono.len() + held_by(runs.skip(1)),
    decreases runs.len(),
{
    if runs.len() == 1 {
        assert(runs.drop_last() =~= Seq::<RunState>::empty());
        assert(runs.skip(1) =~= Seq::<RunState>::empty());
    } else {
        lemma_held_by_first(runs.drop_last());
        assert(runs.drop_last().skip(1) =~= runs.skip(1).drop_last());
    }
}

/// Runs stay in order where one of them loses source frames at its front, or
/// goes.
proof fn lemma_trimmed_in_order(runs: Seq<RunState>, at: int, left: RunState)
    requires
        in_order(runs),
        0 <= at < runs.len(),
        runs[at].start <= left.start,
        left.end == runs[at].end,
    ensures
        in_order(runs.remove(at)),
        left.start < left.end ==> in_order(runs.update(at, left)),
{
    let updated = runs.update(at, left);
    if left.start < left.end {
        assert forall|i: int, j: int| 0 <= i < j < updated.len() implies (
        #[trigger] updated[i]).end < (#[trigger] updated[j]).start by {
            assert(runs[i].end < runs[j].start);
        }
    }
    let removed = runs.remove(at);
    assert forall|i: int| 0 <= i < removed.len() implies (#[trigger] removed[i]).start
        < removed[i].end by {
        assert(removed[i] == runs[if i < at {
            i
        } else {
            i + 1
        }]);
    }
    assert forall|i: int, j: int| 0 <= i < j < removed.len() implies (#[trigger] removed[i]).end
        < (#[trigger] removed[j]).start by {
        assert(removed[i] == runs[if i < at {
            i
        } else {
            i + 1
        }]);
        assert(removed[j] == runs[if j < at {
            j
        } else {
            j + 1
        }]);
    }
}

proof fn lemma_without_middle_in_order(runs: Seq<RunState>, first: int, last: int)
    requires
        in_order(runs),
        0 <= first <= last <= runs.len(),
    ensures
        in_order(runs.take(first) + runs.skip(last)),
{
    let left = runs.take(first) + runs.skip(last);
    assert forall|i: int, j: int| 0 <= i < j < left.len() implies (#[trigger] left[i]).end < (
    #[trigger] left[j]).start by {
        let k = if i < first {
            i
        } else {
            i - first + last
        };
        let l = if j < first {
            j
        } else {
            j - first + last
        };
        assert(runs[k].end < runs[l].start);
    }
}

/// A block joins what it touches, and only that: afterwards the runs are in
/// order and cover what they did before and the block, so what they cover does
/// not depend on the order in which blocks came.
#[verifier::rlimit(40)]
#[verifier::spinoff_prover]
pub proof fn law_a_block_joins_what_it_touches<S: MonoStream>(
    terms: Terms,
    before: Seq<RunState>,
    block: Seq<u32>,
    at: u64,
    end: u64,
    after: Seq<RunState>,
)
    requires
        in_order(before),
        at < end,
        is_placed::<S>(terms, before, block, at, end, after),
    ensures
        in_order(after),
        is_union(
            layout(before),
            FrameRange { start: at, frames: (end - at) as u64 },
            layout(after),
        ),
{
    let (first, last, merged) = choose|first: int, last: int, merged: RunState|
        {
            &&& #[trigger] splits(before, at, end, first, last)
            &&& #[trigger] is_merge::<S>(
                terms,
                before.subrange(first, last),
                block,
                at,
                end,
                merged,
            )
            &&& after == before.take(first).push(merged) + before.skip(last)
        };
    let range = FrameRange { start: at, frames: (end - at) as u64 };
    let absorbed = before.subrange(first, last);
    let shift = last - first - 1;
    assert(after.len() == before.len() - shift);
    assert forall|i: int| 0 <= i < first implies after[i] == #[trigger] before[i] by {}
    assert forall|i: int| first < i < after.len() implies #[trigger] after[i] == before[i
        + shift] by {}
    assert(after[first] == merged);
    if absorbed.len() > 0 {
        assert(absorbed[0] == before[first]);
        assert(absorbed.last() == before[last - 1]);
    }
    assert forall|i: int, j: int| 0 <= i < j < after.len() implies (#[trigger] after[i]).end < (
    #[trigger] after[j]).start by {
        if i < first && first < j {
            assert(before[i].end < before[j + shift].start);
        } else if i > first {
            assert(before[i + shift].end < before[j + shift].start);
        } else if i < first && j == first {
            if absorbed.len() > 0 {
                assert(before[i].end < before[first].start);
            }
        } else if i == first {
            if absorbed.len() > 0 {
                assert(before[last - 1].end < before[j + shift].start);
            }
        } else {
            assert(before[i].end < before[j].start);
        }
    }
    assert(in_order(after));
    let old_runs = layout(before);
    let new_runs = layout(after);
    assert forall|i: int, j: int| 0 <= i < j < new_runs.len() implies (
    #[trigger] new_runs[i]).end_frame() < (#[trigger] new_runs[j]).start by {
        assert(after[i].end < after[j].start);
    }
    assert forall|i: int| 0 <= i < new_runs.len() implies 0 < (#[trigger] new_runs[i]).frames
        && new_runs[i].start + new_runs[i].frames <= u64::MAX by {
        assert(after[i].start < after[i].end);
    }
    assert(separated(new_runs));
    assert forall|frame: int| #[trigger] covered(new_runs, frame) <==> covered(old_runs, frame)
        || range.has(frame) by {
        if covered(new_runs, frame) {
            let i = choose|i: int| 0 <= i < new_runs.len() && (#[trigger] new_runs[i]).has(frame);
            if i < first {
                assert(old_runs[i].has(frame));
            } else if i > first {
                assert(old_runs[i + shift].has(frame));
            } else if !range.has(frame) {
                if frame < at {
                    assert(old_runs[first].has(frame));
                } else {
                    assert(old_runs[last - 1].has(frame));
                }
            }
        }
        if covered(old_runs, frame) {
            let i = choose|i: int| 0 <= i < old_runs.len() && (#[trigger] old_runs[i]).has(frame);
            assert(before[i].start <= frame < before[i].end);
            if i < first {
                assert(new_runs[i].has(frame));
            } else if i >= last {
                assert(new_runs[i - shift].has(frame));
            } else {
                if first < i {
                    assert(before[first].end < before[i].start);
                    assert(before[first].start < before[first].end);
                }
                if i < last - 1 {
                    assert(before[i].end < before[last - 1].start);
                    assert(before[last - 1].start < before[last - 1].end);
                }
                assert(new_runs[first].has(frame));
            }
        }
        if range.has(frame) {
            assert(new_runs[first].has(frame));
        }
    }
}

/// Whether a run holds `value` for source frame `frame`.
pub open spec fn holds_sample(runs: Seq<RunState>, frame: int, value: u32) -> bool {
    exists|i: int|
        {
            &&& 0 <= i < runs.len()
            &&& (#[trigger] runs[i]).span().has(frame)
            &&& runs[i].mono[frame - runs[i].start] == value
        }
}

/// Where nothing needs resampling, a block adds its own samples where there
/// were none and leaves those that were there: every frame keeps the first
/// sample it was given, whatever the blocks that came after it.
#[verifier::rlimit(60)]
pub proof fn law_a_frame_keeps_its_first_sample<S: MonoStream>(
    terms: Terms,
    before: Seq<RunState>,
    block: Seq<u32>,
    at: u64,
    end: u64,
    after: Seq<RunState>,
    frame: int,
    value: u32,
)
    requires
        in_order(before),
        at < end,
        end == at + block.len(),
        terms.source == terms.target,
        forall|i: int| 0 <= i < before.len() ==> (#[trigger] before[i]).exact(),
        is_placed::<S>(terms, before, block, at, end, after),
        forall|i: int|
            0 <= i < after.len() ==> (#[trigger] after[i]).end - after[i].start <= terms.limit,
    ensures
        forall|i: int| 0 <= i < after.len() ==> (#[trigger] after[i]).exact(),
        holds_sample(before, frame, value) ==> holds_sample(after, frame, value),
        at <= frame < end && !covered(layout(before), frame) ==> holds_sample(
            after,
            frame,
            block[frame - at],
        ),
{
    let (first, last, merged) = choose|first: int, last: int, merged: RunState|
        {
            &&& #[trigger] splits(before, at, end, first, last)
            &&& #[trigger] is_merge::<S>(
                terms,
                before.subrange(first, last),
                block,
                at,
                end,
                merged,
            )
            &&& after == before.take(first).push(merged) + before.skip(last)
        };
    let absorbed = before.subrange(first, last);
    let shift = last - first - 1;
    assert(after[first] == merged);
    assert forall|i: int| 0 <= i < absorbed.len() implies (#[trigger] absorbed[i]).exact() by {
        assert(absorbed[i] == before[first + i]);
    }
    assert(merged.end - merged.start <= terms.limit);
    assert(merged.exact());
    assert(in_order(absorbed)) by {
        assert forall|i: int, j: int| 0 <= i < j < absorbed.len() implies (
        #[trigger] absorbed[i]).end < (#[trigger] absorbed[j]).start by {
            assert(before[first + i].end < before[first + j].start);
        }
        assert forall|i: int| 0 <= i < absorbed.len() implies (#[trigger] absorbed[i]).start
            < absorbed[i].end by {
            assert(before[first + i].start < before[first + i].end);
        }
    }
    if absorbed.len() > 0 {
        assert(absorbed[0] == before[first]);
        assert(absorbed.last() == before[last - 1]);
    }
    if holds_sample(before, frame, value) {
        let i = choose|i: int|
            {
                &&& 0 <= i < before.len()
                &&& (#[trigger] before[i]).span().has(frame)
                &&& before[i].mono[frame - before[i].start] == value
            };
        if i < first {
            assert(after[i] == before[i]);
        } else if i >= last {
            assert(after[i - shift] == before[i]);
        } else {
            let k = i - first;
            assert(absorbed[k] == before[i]);
            lemma_in_one_run(absorbed, k, frame);
            assert(spliced(absorbed, block, at, frame) == value);
            if k > 0 {
                assert(absorbed[0].end < absorbed[k].start);
            }
            if k < absorbed.len() - 1 {
                assert(absorbed[k].end < absorbed[absorbed.len() - 1].start);
            }
            assert(merged.span().has(frame));
            assert(after[first].mono[frame - merged.start] == value);
        }
    }
    if at <= frame < end && !covered(layout(before), frame) {
        assert forall|k: int| 0 <= k < absorbed.len() implies !(#[trigger] absorbed[k]).span().has(
            frame,
        ) by {
            assert(layout(before)[first + k] == absorbed[k].span());
        }
        assert(merged.span().has(frame));
        assert(after[first].mono[frame - merged.start] == block[frame - at]);
    }
}

/// What one step takes from a run that holds mono: at least one source frame and
/// one detector frame, and nothing that the run does not have.
proof fn lemma_shares(run: RunState, over: int, source: int, target: int)
    requires
        run.start < run.end,
        run.mono.len() > 0,
    ensures
        1 <= source_share(run, over, source, target) <= run.end - run.start,
        1 <= detector_share(run, over, source, target) <= run.mono.len(),
        ({
            let left = trimmed(run, over, source, target);
            &&& run.start < left.start <= run.end
            &&& left.end == run.end
            &&& left.mono.len() == run.mono.len() - detector_share(run, over, source, target)
            &&& left.start == run.end ==> left.mono.len() == 0
        }),
{
}

/// What is reclaimed goes from the front, and all of it is reported: the ranges
/// that were reported before stay, what is newly reported and what is left cover
/// together what was there, and no run that is left with any mono lies before
/// anything newly reported.
#[verifier::rlimit(60)]
pub proof fn law_the_budget_goes_from_the_front(
    runs: Seq<RunState>,
    dropped: Seq<(u64, u64)>,
    over: int,
    source: int,
    target: int,
)
    requires
        in_order(runs),
    ensures
        ({
            let (left, reported) = reclaimed(runs, dropped, over, source, target);
            &&& in_order(left)
            &&& dropped.is_prefix_of(reported)
            &&& forall|k: int|
                dropped.len() <= k < reported.len() ==> (#[trigger] reported[k]).0 < reported[k].1
            &&& forall|k: int, i: int|
                dropped.len() <= k < reported.len() && 0 <= i < left.len() && left[i].mono.len()
                    > 0 ==> (#[trigger] reported[k]).1 <= (#[trigger] left[i]).start
            &&& forall|frame: int|
                #[trigger] covered(layout(runs), frame) <==> covered(layout(left), frame)
                    || was_dropped(reported, dropped.len() as int, frame)
        }),
    decreases
            runs.len(),
            if over < 0 {
                0
            } else {
                over
            },
{
    let (left, reported) = reclaimed(runs, dropped, over, source, target);
    if over > 0 && runs.len() > 0 {
        let first = runs[0];
        if first.mono.len() == 0 {
            let behind = runs.skip(1);
            lemma_trimmed_in_order(runs, 0, first);
            assert(runs.remove(0) =~= behind);
            law_the_budget_goes_from_the_front(behind, dropped, over, source, target);
            let rest = reclaimed(behind, dropped, over, source, target).0;
            assert(left == seq![first] + rest);
            lemma_covered_first(runs);
            lemma_covered_first(left);
            assert(left.skip(1) =~= rest);
            assert forall|i: int, j: int| 0 <= i < j < left.len() implies (#[trigger] left[i]).end
                < (#[trigger] left[j]).start by {
                assert(left[j] == rest[j - 1]);
                if i > 0 {
                    assert(left[i] == rest[i - 1]);
                } else {
                    // What is left behind it lies in what was behind it.
                    let frame = rest[j - 1].start as int;
                    assert(rest[j - 1].start < rest[j - 1].end);
                    assert(layout(rest)[j - 1].has(frame));
                    assert(covered(layout(rest), frame));
                    assert(covered(layout(behind), frame));
                    let k = choose|k: int|
                        0 <= k < behind.len() && (#[trigger] layout(behind)[k]).has(frame);
                    assert(runs[k + 1] == behind[k]);
                    assert(runs[0].end < runs[k + 1].start);
                }
            }
            assert forall|i: int| 0 <= i < left.len() implies (#[trigger] left[i]).start
                < left[i].end by {
                if i > 0 {
                    assert(left[i] == rest[i - 1]);
                }
            }
            assert forall|k: int, i: int|
                dropped.len() <= k < reported.len() && 0 <= i < left.len() && left[i].mono.len()
                    > 0 implies (#[trigger] reported[k]).1 <= (#[trigger] left[i]).start by {
                assert(left[i] == rest[i - 1]);
            }
        } else {
            lemma_shares(first, over, source, target);
            let run = trimmed(first, over, source, target);
            let exact = detector_share(first, over, source, target);
            let start = run.start;
            lemma_trimmed_in_order(runs, 0, run);
            assert(runs.remove(0) =~= runs.skip(1));
            let rest = if start < run.end {
                runs.update(0, run)
            } else {
                runs.skip(1)
            };
            let more = dropped.push((first.start, start));
            law_the_budget_goes_from_the_front(rest, more, over - exact, source, target);
            assert(reported[dropped.len() as int] == more[dropped.len() as int]);
            assert(dropped.is_prefix_of(reported)) by {
                assert forall|k: int| 0 <= k < dropped.len() implies reported[k] == dropped[k] by {
                    assert(reported[k] == more[k]);
                }
            }
            lemma_covered_first(runs);
            assert forall|frame: int| #[trigger]
                covered(layout(runs), frame) <==> covered(layout(rest), frame) || first.start
                    <= frame < start by {
                if start < run.end {
                    lemma_covered_first(rest);
                    assert(rest.skip(1) =~= runs.skip(1));
                }
            }
            assert forall|frame: int| #[trigger]
                covered(layout(runs), frame) <==> covered(layout(left), frame) || was_dropped(
                    reported,
                    dropped.len() as int,
                    frame,
                ) by {
                lemma_was_dropped(reported, dropped.len() as int, frame);
            }
            assert forall|k: int, i: int|
                dropped.len() <= k < reported.len() && 0 <= i < left.len() && left[i].mono.len()
                    > 0 implies (#[trigger] reported[k]).1 <= (#[trigger] left[i]).start by {
                if k == dropped.len() {
                    // What is left lies in what the step left.
                    let frame = left[i].start as int;
                    assert(left[i].start < left[i].end);
                    assert(layout(left)[i].has(frame));
                    assert(covered(layout(left), frame));
                    assert(covered(layout(rest), frame));
                    let j = choose|j: int|
                        0 <= j < rest.len() && (#[trigger] layout(rest)[j]).has(frame);
                    assert(rest[j].start <= left[i].start);
                    if start < run.end {
                        if j > 0 {
                            assert(rest[0].end < rest[j].start);
                        }
                    } else {
                        assert(runs[0].end < runs[j + 1].start);
                    }
                }
            }
        }
    }
}

/// What runs cover is what the first covers and what the others do.
proof fn lemma_covered_first(runs: Seq<RunState>)
    requires
        runs.len() > 0,
    ensures
        forall|frame: int|
            #[trigger] covered(layout(runs), frame) <==> runs[0].span().has(frame) || covered(
                layout(runs.skip(1)),
                frame,
            ),
{
    let behind = runs.skip(1);
    assert forall|frame: int| #[trigger]
        covered(layout(runs), frame) <==> runs[0].span().has(frame) || covered(
            layout(behind),
            frame,
        ) by {
        if covered(layout(runs), frame) {
            let i = choose|i: int| 0 <= i < runs.len() && (#[trigger] layout(runs)[i]).has(frame);
            if i > 0 {
                assert(layout(behind)[i - 1].has(frame));
            }
        }
        if runs[0].span().has(frame) {
            assert(layout(runs)[0].has(frame));
        }
        if covered(layout(behind), frame) {
            let i = choose|i: int|
                0 <= i < behind.len() && (#[trigger] layout(behind)[i]).has(frame);
            assert(layout(runs)[i + 1].has(frame));
        }
    }
}

/// Whether one of the ranges from the `from`-th on holds `frame`.
pub open spec fn was_dropped(dropped: Seq<(u64, u64)>, from: int, frame: int) -> bool {
    exists|k: int| from <= k < dropped.len() && (#[trigger] dropped[k]).0 <= frame < dropped[k].1
}

proof fn lemma_was_dropped(dropped: Seq<(u64, u64)>, from: int, frame: int)
    requires
        0 <= from < dropped.len(),
    ensures
        was_dropped(dropped, from, frame) <==> was_dropped(dropped, from + 1, frame)
            || dropped[from].0 <= frame < dropped[from].1,
{
}

proof fn lemma_scaled_positive(frames: int, to: int, from: int)
    requires
        frames >= 0,
        to > 0,
        from > 0,
    ensures
        scaled(frames, to, from) >= 0,
{
    assert(2 * frames * to + from >= 0) by (nonlinear_arith)
        requires
            frames >= 0,
            to > 0,
            from > 0,
    ;
    lemma_div_is_ordered(0, 2 * frames * to + from, 2 * from);
}

/// Sparing detector frames spares as many as were asked for.
proof fn lemma_spared(
    runs: Seq<RunState>,
    dropped: Seq<(u64, u64)>,
    over: int,
    source: int,
    target: int,
)
    requires
        in_order(runs),
        over <= held_by(runs),
    ensures
        held_by(reclaimed(runs, dropped, over, source, target).0) <= held_by(runs),
        held_by(reclaimed(runs, dropped, over, source, target).0) <= held_by(runs) - over,
    decreases
            runs.len(),
            if over < 0 {
                0
            } else {
                over
            },
{
    if over > 0 && runs.len() > 0 {
        let first = runs[0];
        lemma_held_by_first(runs);
        lemma_held_is_positive(runs.skip(1));
        lemma_trimmed_in_order(runs, 0, first);
        assert(runs.remove(0) =~= runs.skip(1));
        if first.mono.len() == 0 {
            lemma_spared(runs.skip(1), dropped, over, source, target);
            let rest = reclaimed(runs.skip(1), dropped, over, source, target).0;
            lemma_held_by_first(seq![first] + rest);
            assert((seq![first] + rest).skip(1) =~= rest);
        } else {
            lemma_shares(first, over, source, target);
            let run = trimmed(first, over, source, target);
            let exact = detector_share(first, over, source, target);
            lemma_trimmed_in_order(runs, 0, run);
            let rest = if run.start < run.end {
                runs.update(0, run)
            } else {
                runs.skip(1)
            };
            if run.start < run.end {
                lemma_held_by_first(rest);
                assert(rest.skip(1) =~= runs.skip(1));
            }
            assert(held_by(rest) == held_by(runs) - exact);
            lemma_spared(
                rest,
                dropped.push((first.start, run.start)),
                over - exact,
                source,
                target,
            );
        }
    }
}

/// What is left fits the budget, always; and where it did before, nothing goes.
pub proof fn law_the_budget_is_kept(
    runs: Seq<RunState>,
    dropped: Seq<(u64, u64)>,
    budget: int,
    source: int,
    target: int,
)
    requires
        in_order(runs),
        budget >= 0,
    ensures
        held_by(reclaimed(runs, dropped, held_by(runs) - budget, source, target).0) <= budget,
        held_by(runs) <= budget ==> reclaimed(
            runs,
            dropped,
            held_by(runs) - budget,
            source,
            target,
        ) == (runs, dropped),
{
    if held_by(runs) > budget {
        lemma_spared(runs, dropped, held_by(runs) - budget, source, target);
    }
}

/// Where nothing needs resampling and every run holds a sample for each frame,
/// the overflow goes and nothing more, and what is left still does.
pub proof fn law_at_one_rate_only_the_overflow_goes(
    runs: Seq<RunState>,
    dropped: Seq<(u64, u64)>,
    over: int,
    rate: int,
)
    requires
        in_order(runs),
        rate > 0,
        0 <= over <= held_by(runs),
        forall|i: int| 0 <= i < runs.len() ==> (#[trigger] runs[i]).exact(),
    ensures
        ({
            let left = reclaimed(runs, dropped, over, rate, rate).0;
            &&& held_by(left) == held_by(runs) - over
            &&& forall|i: int| 0 <= i < left.len() ==> (#[trigger] left[i]).exact()
        }),
    decreases runs.len(), over,
{
    if over > 0 && runs.len() > 0 {
        let first = runs[0];
        assert(first.exact());
        lemma_held_by_first(runs);
        lemma_held_is_positive(runs.skip(1));
        lemma_shares(first, over, rate, rate);
        let run = trimmed(first, over, rate, rate);
        let share = source_share(first, over, rate, rate);
        let exact = detector_share(first, over, rate, rate);
        lemma_scaled_same(
            if over < first.mono.len() {
                over
            } else {
                first.mono.len() as int
            },
            rate,
        );
        lemma_scaled_same(share, rate);
        assert(share == exact && exact <= over);
        lemma_trimmed_in_order(runs, 0, run);
        assert(runs.remove(0) =~= runs.skip(1));
        let rest = if run.start < run.end {
            runs.update(0, run)
        } else {
            runs.skip(1)
        };
        if run.start < run.end {
            lemma_held_by_first(rest);
            assert(rest.skip(1) =~= runs.skip(1));
        }
        assert forall|i: int| 0 <= i < rest.len() implies (#[trigger] rest[i]).exact() by {
            if run.start < run.end {
                if i > 0 {
                    assert(rest[i] == runs[i]);
                }
            } else {
                assert(rest[i] == runs[i + 1]);
            }
        }
        law_at_one_rate_only_the_overflow_goes(
            rest,
            dropped.push((first.start, run.start)),
            over - exact,
            rate,
        );
    }
}

/// Whether runs hold what a pass at one rate holds: a sample for each frame, and
/// no open stream.
spec fn all_exact(runs: Seq<RunState>) -> bool {
    forall|i: int|
        0 <= i < runs.len() ==> (#[trigger] runs[i]).exact() && runs[i].stream is None
}

/// At one rate, the absorbed runs and the block in their gaps come to one sample
/// for each frame, the one it was given first.
proof fn lemma_assembled_exact<S: MonoStream>(
    terms: Terms,
    absorbed: Seq<RunState>,
    block: Seq<u32>,
    at: u64,
    end: u64,
    n: nat,
)
    requires
        terms.source == terms.target,
        terms.source > 0,
        n <= absorbed.len(),
        in_order(absorbed),
        all_exact(absorbed),
        at < end <= at + block.len(),
        forall|i: int|
            0 <= i < absorbed.len() ==> at <= (#[trigger] absorbed[i]).end && absorbed[i].start
                <= end,
        merged_end(absorbed, end) - merged_start(absorbed, at) <= terms.limit,
        merged_end(absorbed, end) - merged_start(absorbed, at) <= usize::MAX,
    ensures
        assembled::<S>(terms, absorbed, block, at, n) matches Some(out) && {
            let base = merged_start(absorbed, at);
            let reach = reach_of(absorbed, at, n as int);
            &&& base <= reach <= merged_end(absorbed, end)
            &&& out.len() == reach - base
            &&& forall|frame: int|
                base <= frame < reach ==> #[trigger] out[frame - base] == spliced(
                    absorbed,
                    block,
                    at,
                    frame,
                )
        },
    decreases n,
{
    if n == 0 {
        lemma_assembled_none::<S>(terms, absorbed, block, at);
    } else {
        let i = n - 1;
        lemma_assembled_exact::<S>(terms, absorbed, block, at, end, i as nat);
        lemma_assembled_step::<S>(terms, absorbed, block, at, i);
        let base = merged_start(absorbed, at);
        let cursor = reach_of(absorbed, at, i);
        let run = absorbed[i];
        let before = assembled::<S>(terms, absorbed, block, at, i as nat)->Some_0;
        assert(i > 0 ==> absorbed[i - 1].end < run.start);
        assert(run.end <= merged_end(absorbed, end)) by {
            if i < absorbed.len() - 1 {
                assert(run.end < absorbed[absorbed.len() - 1].start);
            }
        }
        assert(run.start < run.end);
        assert(base <= run.start) by {
            if i > 0 {
                assert(absorbed[0].end < run.start);
                assert(absorbed[0].start < absorbed[0].end);
            }
        }
        lemma_scaled_same(run.start - base, terms.source);
        lemma_scaled_same(run.end - base, terms.source);
        let filled = if cursor < run.start {
            let piece = block.subrange(cursor - at, run.start - at);
            lemma_appended_one(before, piece, terms.limit);
            assert(seq![piece] + Seq::<Seq<u32>>::empty() =~= seq![piece]);
            assert(gap_before::<S>(terms, absorbed, block, at, i) == Some(seq![piece]));
            let filled = before + piece;
            assert(padded(filled, run.start - base, terms.limit) =~= filled);
            assert forall|frame: int| base <= frame < run.start implies #[trigger] filled[frame
                - base] == spliced(absorbed, block, at, frame) by {
                if frame >= cursor {
                    lemma_in_no_run(absorbed, i, frame);
                }
            }
            filled
        } else {
            before
        };
        let joined = filled + run.mono;
        assert(padded(joined, run.end - base, terms.limit) =~= joined);
        assert forall|frame: int| base <= frame < run.end implies #[trigger] joined[frame - base]
            == spliced(absorbed, block, at, frame) by {
            if frame >= run.start {
                lemma_in_one_run(absorbed, i, frame);
            } else {
                assert(joined[frame - base] == filled[frame - base]);
            }
        }
        assert(assembled::<S>(terms, absorbed, block, at, n) == Some(joined));
    }
}

/// What absorbed runs and a block fold into has what the fold promises.
proof fn lemma_is_merge<S: MonoStream>(
    terms: Terms,
    absorbed: Seq<RunState>,
    block: Seq<u32>,
    at: u64,
    end: u64,
    merged: RunState,
)
    requires
        terms.source > 0,
        terms.target > 0,
        terms.limit <= usize::MAX,
        in_order(absorbed),
        at < end <= at + block.len(),
        absorbed.len() == 0 && at + block.len() <= u64::MAX ==> end == at + block.len(),
        forall|i: int|
            0 <= i < absorbed.len() ==> at <= (#[trigger] absorbed[i]).end && absorbed[i].start
                <= end,
        terms.source == terms.target ==> forall|i: int|
            0 <= i < absorbed.len() ==> (#[trigger] absorbed[i]).stream is None,
        folded_into::<S>(terms, absorbed, block, at, end) == Some(merged),
    ensures
        is_merge::<S>(terms, absorbed, block, at, end, merged),
{
    reveal(folded_into);
    let count = absorbed.len();
    let base = merged_start(absorbed, at);
    let reach = reach_of(absorbed, at, count as int);
    let span = merged.end - merged.start;
    let before = assembled::<S>(terms, absorbed, block, at, count)->Some_0;
    if count > 0 {
        lemma_assembled_step::<S>(terms, absorbed, block, at, count - 1);
        if absorbed.last().end >= end {
            assert(absorbed[0].start < absorbed[0].end);
            if count > 1 {
                assert(absorbed[0].end < absorbed[count - 1].start);
                assert(absorbed[count - 1].start < absorbed[count - 1].end);
            }
            lemma_scaled_positive(span, terms.target, terms.source);
        }
    }
    if terms.source == terms.target && span <= terms.limit && at + block.len() <= u64::MAX && (
    forall|i: int| 0 <= i < absorbed.len() ==> (#[trigger] absorbed[i]).exact()) {
        lemma_assembled_exact::<S>(terms, absorbed, block, at, end, count);
        if reach < end {
            let piece = piece_past(absorbed, block, at, end);
            lemma_appended_one(Seq::empty(), piece, terms.limit);
            assert(Seq::<u32>::empty() + piece =~= piece);
            assert(merged.mono =~= before + piece);
            assert forall|frame: int|
                merged.span().has(frame) implies #[trigger] merged.mono[frame - merged.start]
                == spliced(absorbed, block, at, frame) by {
                if frame < reach {
                    assert(merged.mono[frame - base] == before[frame - base]);
                } else {
                    if count > 0 {
                        lemma_past_all_runs(absorbed, frame);
                    }
                    assert(merged.mono[frame - base] == block[frame - at]);
                }
            }
        } else {
            assert forall|frame: int|
                merged.span().has(frame) implies #[trigger] merged.mono[frame - merged.start]
                == spliced(absorbed, block, at, frame) by {
                assert(merged.mono[frame - base] == before[frame - base]);
            }
        }
    }
}

/// A frame between two runs lies in none.
proof fn lemma_in_no_run(runs: Seq<RunState>, next: int, frame: int)
    requires
        in_order(runs),
        0 <= next < runs.len(),
        frame < runs[next].start,
        next > 0 ==> runs[next - 1].end <= frame,
    ensures
        !(exists|i: int| 0 <= i < runs.len() && (#[trigger] runs[i]).span().has(frame)),
{
    assert forall|i: int| 0 <= i < runs.len() implies !(#[trigger] runs[i]).span().has(frame) by {
        if i > next {
            assert(runs[next].end < runs[i].start);
        }
        if i < next - 1 {
            assert(runs[i].end < runs[next - 1].start);
        }
    }
}

/// A frame past the last run lies in none.
proof fn lemma_past_all_runs(runs: Seq<RunState>, frame: int)
    requires
        in_order(runs),
        runs.len() > 0,
        runs.last().end <= frame,
    ensures
        !(exists|i: int| 0 <= i < runs.len() && (#[trigger] runs[i]).span().has(frame)),
{
    assert forall|i: int| 0 <= i < runs.len() implies !(#[trigger] runs[i]).span().has(frame) by {
        if i < runs.len() - 1 {
            assert(runs[i].end < runs[runs.len() - 1].start);
        }
    }
}

/// A frame of one run lies in no other.
proof fn lemma_in_one_run(runs: Seq<RunState>, at: int, frame: int)
    requires
        in_order(runs),
        0 <= at < runs.len(),
        runs[at].span().has(frame),
    ensures
        forall|i: int|
            0 <= i < runs.len() && (#[trigger] runs[i]).span().has(frame) ==> i == at,
{
    assert forall|i: int|
        0 <= i < runs.len() && (#[trigger] runs[i]).span().has(frame) implies i == at by {
        if i < at {
            assert(runs[i].end < runs[at].start);
        }
        if at < i {
            assert(runs[at].end < runs[i].start);
        }
    }
}

/// Batches that there is room for are appended whole, one behind the other.
pub proof fn lemma_appended_fits(samples: Seq<u32>, batches: Seq<Seq<u32>>, limit: int)
    requires
        samples.len() + batches.flatten().len() <= limit,
    ensures
        appended(samples, batches, limit) == samples + batches.flatten(),
    decreases batches.len(),
{
    batches.lemma_flatten_and_flatten_alt_are_equivalent();
    if batches.len() == 0 {
        assert(samples + batches.flatten() =~= samples);
    } else {
        let front = batches.drop_last();
        front.lemma_flatten_and_flatten_alt_are_equivalent();
        assert(batches.flatten() == front.flatten() + batches.last());
        lemma_appended_fits(samples, front, limit);
        assert(samples + batches.flatten() =~= samples + front.flatten() + batches.last());
    }
}

/// A flush keeps what the stream still had: behind the mono that a run held
/// before, the samples are those of the stream's remainder, one batch behind the
/// other, and only what the span asks for past them is silence.
pub proof fn law_a_flush_keeps_what_the_stream_still_had<S: MonoStream>(
    terms: Terms,
    before: RunState,
    after: RunState,
    j: int,
)
    requires
        is_flushed::<S>(terms, before, after),
        before.stream is Some,
        before.mono.len() + S::remainder(
            before.stream->0.resampler,
            before.stream->0.fed,
        ).0.flatten().len() <= terms.limit,
        terms.detector_frames(before.end - before.start) <= terms.limit,
        0 <= j < terms.detector_frames(before.end - before.start),
    ensures
        after.mono.len() == terms.detector_frames(before.end - before.start),
        after.mono[j] == {
            let rest = S::remainder(
                before.stream->0.resampler,
                before.stream->0.fed,
            ).0.flatten();
            let held = before.mono.len();
            if j < held {
                before.mono[j]
            } else if j - held < rest.len() {
                rest[j - held]
            } else {
                0
            }
        },
        after.stream is None,
{
    lemma_appended_fits(before.mono, rest_of::<S>(before.stream), terms.limit);
}

/// A flush leaves the samples of a run without an open stream as they are, up to
/// the length of its span, and a run that it flushed stays as it is.
pub proof fn law_a_flushed_run_stays_flushed<S: MonoStream>(
    terms: Terms,
    before: RunState,
    after: RunState,
    again: RunState,
)
    requires
        is_flushed::<S>(terms, before, after),
        is_flushed::<S>(terms, after, again),
        0 <= terms.detector_frames(before.end - before.start) <= terms.limit,
    ensures
        again == after,
        before.stream is None && before.mono.len() == terms.detector_frames(
            before.end - before.start,
        ) ==> after == before,
{
    assert(again.mono =~= after.mono);
    if before.stream is None && before.mono.len() == terms.detector_frames(
        before.end - before.start,
    ) {
        assert(after.mono =~= before.mono);
    }
}

/// A count at one rate becomes the nearest count at another: it is off by half a
/// frame at most, and an exact half goes upward.
pub proof fn law_counts_go_to_the_nearest(frames: int, to: int, from: int)
    requires
        frames >= 0,
        to >= 0,
        from > 0,
    ensures
        scaled(frames, to, from) >= 0,
        2 * (scaled(frames, to, from) * from) <= 2 * (frames * to) + from,
        2 * (frames * to) < 2 * (scaled(frames, to, from) * from) + from,
{
    let total = 2 * frames * to + from;
    let count = total / (2 * from);
    assert(2 * frames * to == 2 * (frames * to) && frames * to >= 0) by (nonlinear_arith)
        requires
            frames >= 0,
            to >= 0,
    ;
    lemma_fundamental_div_mod(total, 2 * from);
    lemma_div_pos_is_pos(total, 2 * from);
    assert((2 * from) * count == 2 * (count * from)) by (nonlinear_arith);
}

/// A longer span becomes no fewer detector frames, and none becomes none.
proof fn lemma_detector_ordered(terms: Terms, shorter: int, longer: int)
    requires
        terms.source > 0,
        terms.target >= 0,
        0 <= shorter <= longer,
    ensures
        0 <= terms.detector_frames(shorter) <= terms.detector_frames(longer),
        terms.detector_frames(0) == 0,
{
    let from = terms.source;
    let to = terms.target;
    assert(0 <= 2 * shorter * to <= 2 * longer * to) by (nonlinear_arith)
        requires
            0 <= shorter <= longer,
            0 <= to,
    ;
    assert(2 * 0 * to == 0) by (nonlinear_arith);
    lemma_div_is_ordered(2 * shorter * to + from, 2 * longer * to + from, 2 * from);
    lemma_div_pos_is_pos(2 * shorter * to + from, 2 * from);
    assert(from / (2 * from) == 0) by {
        lemma_basic_div(from, 2 * from);
    }
}

/// Where the n-th absorbed run goes, what fills the gap ahead of it and what
/// stands behind it.
pub open spec fn lies_in_place(
    terms: Terms,
    absorbed: Seq<RunState>,
    at: u64,
    n: int,
    gap: Seq<u32>,
    rest: Seq<u32>,
    out: Seq<u32>,
) -> bool {
    let base = merged_start(absorbed, at);
    let ahead = terms.detector_frames(reach_of(absorbed, at, n) - base);
    let first = terms.detector_frames(absorbed[n].start - base);
    let last = terms.detector_frames(absorbed[n].end - base);
    let whole = absorbed[n].mono + rest;
    &&& 0 <= ahead <= first <= last <= out.len()
    &&& forall|i: int|
        ahead <= i < first ==> #[trigger] out[i] == if i - ahead < gap.len() {
            gap[i - ahead]
        } else {
            0
        }
    &&& forall|i: int|
        first <= i < last ==> #[trigger] out[i] == if i - first < whole.len() {
            whole[i - first]
        } else {
            0
        }
}

/// Whether there is room for the n-th absorbed run and the gap ahead of it.
pub open spec fn has_room(
    terms: Terms,
    absorbed: Seq<RunState>,
    at: u64,
    n: int,
    gap: Seq<u32>,
    rest: Seq<u32>,
) -> bool {
    let base = merged_start(absorbed, at);
    &&& terms.detector_frames(reach_of(absorbed, at, n) - base) + gap.len() <= terms.limit
    &&& terms.detector_frames(absorbed[n].start - base) + absorbed[n].mono.len() + rest.len()
        <= terms.limit
    &&& terms.detector_frames(absorbed[n].end - base) <= terms.limit
}

#[verifier::rlimit(60)]
proof fn lemma_with_run(
    terms: Terms,
    absorbed: Seq<RunState>,
    at: u64,
    n: int,
    before: Seq<u32>,
    gap: Seq<Seq<u32>>,
    rest: Seq<Seq<u32>>,
)
    requires
        terms.source > 0,
        terms.target >= 0,
        in_order(absorbed),
        0 <= n < absorbed.len(),
        before.len() == terms.detector_frames(
            reach_of(absorbed, at, n) - merged_start(absorbed, at),
        ),
        has_room(terms, absorbed, at, n, gap.flatten(), rest.flatten()),
        !(reach_of(absorbed, at, n) < absorbed[n].start) ==> gap.len() == 0,
    ensures
        ({
            let out = with_run(terms, absorbed, at, n, before, gap, rest);
            &&& out.len() == terms.detector_frames(absorbed[n].end - merged_start(absorbed, at))
            &&& before.is_prefix_of(out)
            &&& lies_in_place(terms, absorbed, at, n, gap.flatten(), rest.flatten(), out)
        }),
{
    let base = merged_start(absorbed, at);
    let run = absorbed[n];
    let reach = reach_of(absorbed, at, n);
    assert(absorbed[0].start <= absorbed[n].start) by {
        if n > 0 {
            assert(absorbed[0].end < absorbed[n].start);
        }
    }
    if n > 0 {
        assert(absorbed[n - 1].end < absorbed[n].start);
        assert(absorbed[0].start <= absorbed[n - 1].start) by {
            if n > 1 {
                assert(absorbed[0].end < absorbed[n - 1].start);
            }
        }
    }
    lemma_detector_ordered(terms, reach - base, run.start - base);
    lemma_detector_ordered(terms, run.start - base, run.end - base);
    lemma_appended_fits(run.mono, rest, terms.limit);
    lemma_appended_fits(before, gap, terms.limit);
    let out = with_run(terms, absorbed, at, n, before, gap, rest);
    let first = terms.detector_frames(run.start - base);
    let filled = if reach < run.start {
        padded(appended(before, gap, terms.limit), first, terms.limit)
    } else {
        before
    };
    assert(filled.len() == first);
    assert(before =~= out.take(before.len() as int));
}

/// What the absorbed runs up to the n-th come to holds them and their gaps where
/// their source positions say.
#[verifier::rlimit(60)]
proof fn lemma_assembled_lies_in_place<S: MonoStream>(
    terms: Terms,
    absorbed: Seq<RunState>,
    block: Seq<u32>,
    at: u64,
    count: nat,
    n: int,
)
    requires
        terms.source > 0,
        terms.target >= 0,
        in_order(absorbed),
        count <= absorbed.len(),
        assembled::<S>(terms, absorbed, block, at, count) is Some,
        forall|k: int|
            0 <= k < count ==> #[trigger] has_room(
                terms,
                absorbed,
                at,
                k,
                gap_before::<S>(terms, absorbed, block, at, k)->0.flatten(),
                rest_of::<S>(absorbed[k].stream).flatten(),
            ),
        0 <= n < count,
    ensures
        ({
            let out = assembled::<S>(terms, absorbed, block, at, count)->0;
            &&& out.len() == terms.detector_frames(
                reach_of(absorbed, at, count as int) - merged_start(absorbed, at),
            )
            &&& gap_before::<S>(terms, absorbed, block, at, n) is Some
            &&& lies_in_place(
                terms,
                absorbed,
                at,
                n,
                gap_before::<S>(terms, absorbed, block, at, n)->0.flatten(),
                rest_of::<S>(absorbed[n].stream).flatten(),
                out,
            )
        }),
    decreases count,
{
    let m = (count - 1) as nat;
    lemma_assembled_step::<S>(terms, absorbed, block, at, m as int);
    let before = assembled::<S>(terms, absorbed, block, at, m)->0;
    if m == 0 {
        lemma_assembled_none::<S>(terms, absorbed, block, at);
        lemma_detector_ordered(terms, 0, 0);
    } else {
        lemma_assembled_lies_in_place::<S>(
            terms,
            absorbed,
            block,
            at,
            m,
            if n < m {
                n
            } else {
                0
            },
        );
    }
    let gap = gap_before::<S>(terms, absorbed, block, at, m as int)->0;
    let rest = rest_of::<S>(absorbed[m as int].stream);
    assert(has_room(terms, absorbed, at, m as int, gap.flatten(), rest.flatten()));
    lemma_with_run(terms, absorbed, at, m as int, before, gap, rest);
    let out = assembled::<S>(terms, absorbed, block, at, count)->0;
    assert(forall|i: int| 0 <= i < before.len() ==> #[trigger] out[i] == before[i]);
}

/// A merge puts every absorbed run where its source position says: its own mono
/// and behind that what its stream still had, as far as its span goes.
#[verifier::rlimit(60)]
pub proof fn law_a_merge_keeps_every_run_in_place<S: MonoStream>(
    terms: Terms,
    absorbed: Seq<RunState>,
    block: Seq<u32>,
    at: u64,
    end: u64,
    merged: RunState,
    n: int,
    i: int,
)
    requires
        folded_into::<S>(terms, absorbed, block, at, end) == Some(merged),
        terms.source > 0,
        terms.target >= 0,
        in_order(absorbed),
        forall|k: int|
            0 <= k < absorbed.len() ==> #[trigger] has_room(
                terms,
                absorbed,
                at,
                k,
                gap_before::<S>(terms, absorbed, block, at, k)->0.flatten(),
                rest_of::<S>(absorbed[k].stream).flatten(),
            ),
        0 <= n < absorbed.len(),
        i >= 0,
        terms.detector_frames(absorbed[n].start - merged.start) + i < terms.detector_frames(
            absorbed[n].end - merged.start,
        ),
    ensures
        ({
            let run = absorbed[n];
            let whole = run.mono + match run.stream {
                Some(stream) => S::remainder(stream.resampler, stream.fed).0.flatten(),
                None => Seq::empty(),
            };
            let first = terms.detector_frames(run.start - merged.start);
            &&& first + i < merged.mono.len()
            &&& merged.mono[first + i] == if i < whole.len() {
                whole[i]
            } else {
                0
            }
        }),
{
    reveal(folded_into);
    let count = absorbed.len();
    lemma_assembled_lies_in_place::<S>(terms, absorbed, block, at, count, n);
    let before = assembled::<S>(terms, absorbed, block, at, count)->0;
    assert(before.is_prefix_of(merged.mono));
    assert(rest_of::<S>(None).flatten() =~= Seq::<u32>::empty());
    let first = terms.detector_frames(absorbed[n].start - merged.start);
    assert(before[first + i] == merged.mono[first + i]);
}

/// A merge fills the gap ahead of an absorbed run with what a resampler that is
/// opened for it makes of the block's frames there, flushed, as far as the gap
/// goes.
#[verifier::rlimit(60)]
pub proof fn law_a_merge_fills_a_gap_from_the_block<S: MonoStream>(
    terms: Terms,
    absorbed: Seq<RunState>,
    block: Seq<u32>,
    at: u64,
    end: u64,
    merged: RunState,
    n: int,
    i: int,
)
    requires
        folded_into::<S>(terms, absorbed, block, at, end) == Some(merged),
        terms.source > 0,
        terms.target >= 0,
        terms.source != terms.target,
        in_order(absorbed),
        forall|k: int|
            0 <= k < absorbed.len() ==> #[trigger] has_room(
                terms,
                absorbed,
                at,
                k,
                gap_before::<S>(terms, absorbed, block, at, k)->0.flatten(),
                rest_of::<S>(absorbed[k].stream).flatten(),
            ),
        0 <= n < absorbed.len(),
        reach_of(absorbed, at, n) < absorbed[n].start,
        i >= 0,
        terms.detector_frames(reach_of(absorbed, at, n) - merged.start) + i
            < terms.detector_frames(absorbed[n].start - merged.start),
    ensures
        terms.resampler is Some,
        ({
            let reach = reach_of(absorbed, at, n);
            let piece = block.subrange(reach - at, absorbed[n].start - at);
            let handed = S::handed(terms.resampler->0, Seq::empty(), piece);
            let remainder = S::remainder(terms.resampler->0, seq![piece]);
            let made = handed->0.flatten() + remainder.0.flatten();
            let first = terms.detector_frames(reach - merged.start);
            &&& handed is Some
            &&& remainder.1
            &&& first + i < merged.mono.len()
            &&& merged.mono[first + i] == if i < made.len() {
                made[i]
            } else {
                0
            }
        }),
{
    reveal(folded_into);
    let count = absorbed.len();
    lemma_assembled_lies_in_place::<S>(terms, absorbed, block, at, count, n);
    let before = assembled::<S>(terms, absorbed, block, at, count)->0;
    assert(before.is_prefix_of(merged.mono));
    let reach = reach_of(absorbed, at, n);
    let piece = block.subrange(reach - at, absorbed[n].start - at);
    lemma_flatten_concat(
        S::handed(terms.resampler->0, Seq::empty(), piece)->0,
        S::remainder(terms.resampler->0, seq![piece]).0,
    );
    let first = terms.detector_frames(reach - merged.start);
    assert(before[first + i] == merged.mono[first + i]);
}

/// Behind the absorbed runs a merge holds what a resampler that is opened there
/// hands out for the block's frames past them, and keeps it open with just those
/// fed.
#[verifier::rlimit(60)]
pub proof fn law_a_merge_ends_in_an_open_stream<S: MonoStream>(
    terms: Terms,
    absorbed: Seq<RunState>,
    block: Seq<u32>,
    at: u64,
    end: u64,
    merged: RunState,
)
    requires
        folded_into::<S>(terms, absorbed, block, at, end) == Some(merged),
        terms.source > 0,
        terms.target >= 0,
        terms.source != terms.target,
        in_order(absorbed),
        end == at + block.len(),
        forall|k: int|
            0 <= k < absorbed.len() ==> #[trigger] has_room(
                terms,
                absorbed,
                at,
                k,
                gap_before::<S>(terms, absorbed, block, at, k)->0.flatten(),
                rest_of::<S>(absorbed[k].stream).flatten(),
            ),
        reach_of(absorbed, at, absorbed.len() as int) < end,
    ensures
        terms.resampler is Some,
        ({
            let reach = reach_of(absorbed, at, absorbed.len() as int);
            let piece = block.subrange(reach - at, end - at);
            let handed = S::handed(terms.resampler->0, Seq::empty(), piece);
            let first = terms.detector_frames(reach - merged.start);
            &&& handed is Some
            &&& merged.stream == Some(
                StreamState { resampler: terms.resampler->0, fed: seq![piece] },
            )
            &&& first + handed->0.flatten().len() <= terms.limit ==> {
                &&& merged.mono.len() == first + handed->0.flatten().len()
                &&& merged.mono.skip(first) == handed->0.flatten()
            }
        }),
{
    reveal(folded_into);
    let count = absorbed.len();
    let reach = reach_of(absorbed, at, count as int);
    if count == 0 {
        lemma_assembled_none::<S>(terms, absorbed, block, at);
        lemma_detector_ordered(terms, 0, 0);
        assert(block.subrange(0, block.len() as int) =~= block);
    } else {
        lemma_assembled_lies_in_place::<S>(terms, absorbed, block, at, count, 0);
    }
    let before = assembled::<S>(terms, absorbed, block, at, count)->0;
    let piece = block.subrange(reach - at, end - at);
    let batches = S::handed(terms.resampler->0, Seq::empty(), piece)->0;
    let first = terms.detector_frames(reach - merged.start);
    assert(piece_past(absorbed, block, at, end) == piece);
    assert(before.len() == first);
    if first + batches.flatten().len() <= terms.limit {
        lemma_appended_fits(Seq::empty(), batches, terms.limit);
        assert(Seq::<u32>::empty() + batches.flatten() =~= batches.flatten());
        assert(merged.mono == before + batches.flatten());
        assert(merged.mono.skip(first) =~= batches.flatten());
    }
}

/// Where a resampler fails, exactly the runs that the block touches are gone: the
/// others stay as they are, in their order.
pub proof fn law_a_failure_loses_only_what_the_block_touches<S: MonoStream>(
    terms: Terms,
    before: Seq<RunState>,
    block: Seq<u32>,
    at: u64,
    end: u64,
    after: Seq<RunState>,
    run: RunState,
)
    requires
        is_lost::<S>(terms, before, block, at, end, after),
    ensures
        after.contains(run) <==> before.contains(run) && (run.end < at || end < run.start),
{
    let (first, last) = choose|first: int, last: int|
        {
            &&& #[trigger] splits(before, at, end, first, last)
            &&& folded_into::<S>(terms, before.subrange(first, last), block, at, end) is None
            &&& after == before.take(first) + before.skip(last)
        };
    if after.contains(run) {
        let i = choose|i: int| 0 <= i < after.len() && after[i] == run;
        if i < first {
            assert(before[i] == run);
        } else {
            assert(before[i - first + last] == run);
        }
    }
    if before.contains(run) && (run.end < at || end < run.start) {
        let i = choose|i: int| 0 <= i < before.len() && before[i] == run;
        if i < first {
            assert(after[i] == run);
        } else if last <= i {
            assert(after[i - last + first] == run);
        }
    }
}

/// What goes from the front of a run is what it holds there: the source frames
/// nearest to the detector frames that are to be spared, at least one and at
/// most all of them, and the detector frames nearest to those. What is left
/// keeps its samples, its end and its stream.
#[verifier::rlimit(60)]
pub proof fn law_what_goes_is_the_front(run: RunState, over: int, source: int, target: int)
    requires
        run.start < run.end,
        run.mono.len() > 0,
        over > 0,
        source > 0,
        target > 0,
    ensures
        ({
            let left = trimmed(run, over, source, target);
            let frames = left.start - run.start;
            let samples = run.mono.len() - left.mono.len();
            let wanted = if over < run.mono.len() {
                over
            } else {
                run.mono.len() as int
            };
            &&& 1 <= frames <= run.end - run.start
            &&& 1 <= samples <= run.mono.len()
            &&& left.end == run.end
            &&& left.stream == run.stream
            &&& left.mono == run.mono.skip(samples)
            &&& left.start == left.end ==> left.mono.len() == 0
            &&& frames < run.end - run.start ==> 2 * (wanted * source) < 2 * (frames * target)
                + target
            &&& frames > 1 ==> 2 * (frames * target) <= 2 * (wanted * source) + target
            &&& samples < run.mono.len() ==> 2 * (frames * target) < 2 * (samples * source) + source
            &&& samples > 1 && left.start < left.end && samples < run.mono.len() ==> 2 * (samples
                * source) <= 2 * (frames * target) + source
        }),
{
    let wanted = if over < run.mono.len() {
        over
    } else {
        run.mono.len() as int
    };
    law_counts_go_to_the_nearest(wanted, source, target);
    let share = source_share(run, over, source, target);
    law_counts_go_to_the_nearest(share, target, source);
    let near = scaled(wanted, source, target);
    assert(near <= share ==> near * target <= share * target) by (nonlinear_arith)
        requires
            target > 0,
    ;
    assert(share <= near ==> share * target <= near * target) by (nonlinear_arith)
        requires
            target > 0,
    ;
    let gone = detector_share(run, over, source, target);
    let exact = scaled(share, target, source);
    assert(exact <= gone ==> exact * source <= gone * source) by (nonlinear_arith)
        requires
            source > 0,
    ;
    assert(gone <= exact ==> gone * source <= exact * source) by (nonlinear_arith)
        requires
            source > 0,
    ;
}

/// Where nothing needs resampling, a block is never lost: the runs cover what
/// they did before and the block. Where something does, nothing but those frames
/// is ever covered.
pub proof fn law_a_block_covers_its_own_frames<S: MonoStream>(
    terms: Terms,
    before: Seq<RunState>,
    block: Seq<u32>,
    at: u64,
    after: Seq<RunState>,
    frame: int,
)
    requires
        in_order(before),
        block.len() > 0,
        at + block.len() <= u64::MAX,
        is_folded::<S>(terms, before, block, at, after),
    ensures
        terms.source == terms.target ==> (covered(layout(after), frame) <==> covered(
            layout(before),
            frame,
        ) || at <= frame < at + block.len()),
        covered(layout(after), frame) ==> covered(layout(before), frame) || at <= frame < at
            + block.len(),
{
    let end = (at + block.len()) as u64;
    if is_placed::<S>(terms, before, block, at, end, after) {
        law_a_block_joins_what_it_touches::<S>(terms, before, block, at, end, after);
        let range = FrameRange { start: at, frames: (end - at) as u64 };
        assert(covered(layout(after), frame) <==> covered(layout(before), frame) || range.has(
            frame,
        ));
    } else if covered(layout(after), frame) {
        let i = choose|i: int| 0 <= i < layout(after).len() && (#[trigger] layout(after)[i]).has(
            frame,
        );
        let run = after[i];
        assert(after.contains(run));
        law_a_failure_loses_only_what_the_block_touches::<S>(
            terms,
            before,
            block,
            at,
            end,
            after,
            run,
        );
        let k = choose|k: int| 0 <= k < before.len() && before[k] == run;
        assert(layout(before)[k].has(frame));
    }
}

/// What is fed to a stream is handed on batch by batch, in order: appending the
/// batches of two answers one after the other is appending them all at once.
pub proof fn law_batches_are_appended_in_order(
    samples: Seq<u32>,
    first: Seq<Seq<u32>>,
    second: Seq<Seq<u32>>,
    limit: int,
)
    ensures
        appended(appended(samples, first, limit), second, limit) == appended(
            samples,
            first + second,
            limit,
        ),
        samples.len() + first.flatten().len() <= limit ==> appended(samples, first, limit)
            == samples + first.flatten(),
        samples.is_prefix_of(appended(samples, first, limit)),
    decreases first.len(),
{
    lemma_appended_join(samples, first, second, limit);
    if samples.len() + first.flatten().len() <= limit {
        lemma_appended_fits(samples, first, limit);
    }
    if first.len() > 0 {
        law_batches_are_appended_in_order(samples, first.drop_last(), Seq::empty(), limit);
    }
}

} // verus!
