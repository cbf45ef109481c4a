//! The bounded mono transport between a producer and an analysis pass.
//!
//! Two rings side by side: one carries samples, the other one descriptor per
//! range. Each ring is split into a half that writes and a half that reads,
//! and the halves live on different threads. What one half knows for certain
//! is therefore what went through it; how far the other half has come is not
//! part of any answer.

use crate::buffer::PcmBuf;
use crate::time::frames_in;
use ringbuf::traits::{Consumer, Observer, Producer, Split};
use ringbuf::{HeapCons, HeapProd, HeapRb};
use vstd::prelude::*;

verus! {

/// The writing half of a ring of samples.
#[verifier::external_body]
pub struct SampleTx(HeapProd<u32>);

/// The reading half of a ring of samples.
#[verifier::external_body]
pub struct SampleRx(HeapCons<u32>);

/// The writing half of a ring of range descriptors: where a range starts in
/// the source, and how many samples of it follow in the sample ring.
#[verifier::external_body]
pub struct SpanTx(HeapProd<(u64, usize)>);

/// The reading half of a ring of range descriptors.
#[verifier::external_body]
pub struct SpanRx(HeapCons<(u64, usize)>);

/// Every sample pushed through this half so far.
pub uninterp spec fn samples_sent(tx: SampleTx) -> Seq<u32>;

/// Every sample that passes through the ring over its whole life.
pub uninterp spec fn sample_tape(tx: SampleTx) -> Seq<u32>;

/// How many samples this half has seen taken out, when it last looked.
pub uninterp spec fn samples_seen_read(tx: SampleTx) -> nat;

/// The samples the ring can hold at once.
pub uninterp spec fn sample_capacity(tx: SampleTx) -> nat;

/// Every sample taken out through this half so far.
pub uninterp spec fn samples_received(rx: SampleRx) -> Seq<u32>;

/// Every sample that passes through the ring over its whole life.
pub uninterp spec fn sample_feed(rx: SampleRx) -> Seq<u32>;

/// How many samples the next look at the ring finds in it, as far as the
/// other half has written by then.
pub uninterp spec fn samples_waiting(rx: SampleRx) -> nat;

/// Every descriptor pushed through this half so far.
pub uninterp spec fn spans_sent(tx: SpanTx) -> Seq<(u64, usize)>;

/// Every descriptor that passes through the ring over its whole life.
pub uninterp spec fn span_tape(tx: SpanTx) -> Seq<(u64, usize)>;

/// How many descriptors this half has seen taken out, when it last looked.
pub uninterp spec fn spans_seen_read(tx: SpanTx) -> nat;

/// The descriptors the ring can hold at once.
pub uninterp spec fn span_capacity(tx: SpanTx) -> nat;

/// Every descriptor taken out through this half so far.
pub uninterp spec fn spans_received(rx: SpanRx) -> Seq<(u64, usize)>;

/// Every descriptor that passes through the ring over its whole life.
pub uninterp spec fn span_feed(rx: SpanRx) -> Seq<(u64, usize)>;

/// Whether the next look at the ring finds a descriptor in it, as far as the
/// other half has written by then.
pub uninterp spec fn span_waits(rx: SpanRx) -> bool;

/// The slots for samples that are certainly free: only this half fills any.
pub open spec fn sample_room(tx: SampleTx) -> int {
    sample_capacity(tx) - (samples_sent(tx).len() - samples_seen_read(tx))
}

/// The slots for descriptors that are certainly free.
pub open spec fn span_room(tx: SpanTx) -> int {
    span_capacity(tx) - (spans_sent(tx).len() - spans_seen_read(tx))
}

/// `HeapRb::new` and `split` of `ringbuf`: an empty ring of `capacity` slots,
/// in two halves on the same ring.
#[verifier::external_body]
fn open_samples(capacity: usize) -> (halves: (SampleTx, SampleRx))
    requires
        0 < capacity,
        capacity * 4 <= isize::MAX,
    ensures
        samples_sent(halves.0) == Seq::<u32>::empty(),
        samples_received(halves.1) == Seq::<u32>::empty(),
        sample_tape(halves.0) == sample_feed(halves.1),
        samples_seen_read(halves.0) == 0,
        sample_capacity(halves.0) == capacity,
{
    let (tx, rx) = HeapRb::<u32>::new(capacity).split();
    (SampleTx(tx), SampleRx(rx))
}

/// `HeapRb::new` and `split` of `ringbuf`, for descriptors.
#[verifier::external_body]
fn open_spans(capacity: usize) -> (halves: (SpanTx, SpanRx))
    requires
        0 < capacity,
        capacity * 16 <= isize::MAX,
    ensures
        spans_sent(halves.0) == Seq::<(u64, usize)>::empty(),
        spans_received(halves.1) == Seq::<(u64, usize)>::empty(),
        span_tape(halves.0) == span_feed(halves.1),
        spans_seen_read(halves.0) == 0,
        span_capacity(halves.0) == capacity,
{
    let (tx, rx) = HeapRb::<(u64, usize)>::new(capacity).split();
    (SpanTx(tx), SpanRx(rx))
}

/// `Observer::vacant_len` of `ringbuf`: the slots that are free right now, which
/// are those that what was sent and not yet taken out leaves. How much was taken
/// out rests on how far the other half has read; it never becomes less.
#[verifier::external_body]
fn vacant_samples(tx: &mut SampleTx) -> (vacant: usize)
    ensures
        samples_sent(*final(tx)) == samples_sent(*old(tx)),
        sample_tape(*final(tx)) == sample_tape(*old(tx)),
        sample_capacity(*final(tx)) == sample_capacity(*old(tx)),
        samples_seen_read(*old(tx)) <= samples_seen_read(*final(tx)) <= samples_sent(
            *old(tx),
        ).len(),
        vacant == sample_room(*final(tx)),
{
    tx.0.vacant_len()
}

/// `Producer::try_push` of `ringbuf`: appends the sample where a slot is free,
/// and otherwise changes nothing. Where a slot is known to be free it succeeds,
/// and does not look how far the other half has read.
#[verifier::external_body]
fn push_sample(tx: &mut SampleTx, sample: u32) -> (pushed: bool)
    ensures
        sample_tape(*final(tx)) == sample_tape(*old(tx)),
        sample_capacity(*final(tx)) == sample_capacity(*old(tx)),
        sample_room(*old(tx)) > 0 ==> pushed && samples_seen_read(*final(tx)) == samples_seen_read(
            *old(tx),
        ),
        samples_seen_read(*old(tx)) <= samples_seen_read(*final(tx)),
        pushed ==> samples_sent(*final(tx)) == samples_sent(*old(tx)).push(sample),
        !pushed ==> samples_sent(*final(tx)) == samples_sent(*old(tx)),
        samples_sent(*final(tx)).is_prefix_of(sample_tape(*final(tx))),
{
    tx.0.try_push(sample).is_ok()
}

/// `Consumer::pop_slice` of `ringbuf`: moves the eldest samples, as many as
/// are there and fit, to the front of `out`. How many will be there next time
/// rests on how far the other half has written by then.
#[verifier::external_body]
fn pop_samples(rx: &mut SampleRx, out: &mut Vec<u32>) -> (count: usize)
    ensures
        sample_feed(*final(rx)) == sample_feed(*old(rx)),
        count == lesser(old(out)@.len() as int, samples_waiting(*old(rx)) as int),
        final(out)@.len() == old(out)@.len(),
        final(out)@.skip(count as int) == old(out)@.skip(count as int),
        samples_received(*final(rx)) == samples_received(*old(rx)) + final(out)@.take(count as int),
        samples_received(*final(rx)).is_prefix_of(sample_feed(*final(rx))),
{
    rx.0.pop_slice(out.as_mut_slice())
}

/// `Consumer::skip` of `ringbuf`: drops the eldest samples, as many as are
/// there and at most `count` of them.
#[verifier::external_body]
fn skip_samples(rx: &mut SampleRx, count: usize) -> (skipped: usize)
    ensures
        sample_feed(*final(rx)) == sample_feed(*old(rx)),
        skipped == lesser(count as int, samples_waiting(*old(rx)) as int),
        samples_received(*old(rx)).is_prefix_of(samples_received(*final(rx))),
        samples_received(*final(rx)).len() == samples_received(*old(rx)).len() + skipped,
        samples_received(*final(rx)).is_prefix_of(sample_feed(*final(rx))),
{
    rx.0.skip(count)
}

/// `Observer::is_full` of `ringbuf`, for descriptors: whether no slot is free
/// right now. A slot that is free stays free until this half fills it.
#[verifier::external_body]
fn spans_full(tx: &mut SpanTx) -> (full: bool)
    ensures
        spans_sent(*final(tx)) == spans_sent(*old(tx)),
        span_tape(*final(tx)) == span_tape(*old(tx)),
        span_capacity(*final(tx)) == span_capacity(*old(tx)),
        spans_seen_read(*old(tx)) <= spans_seen_read(*final(tx)) <= spans_sent(*old(tx)).len(),
        span_room(*final(tx)) >= 0,
        full == (span_room(*final(tx)) == 0),
{
    tx.0.is_full()
}

/// `Producer::try_push` of `ringbuf`, for descriptors.
#[verifier::external_body]
fn push_span(tx: &mut SpanTx, span: (u64, usize)) -> (pushed: bool)
    ensures
        span_tape(*final(tx)) == span_tape(*old(tx)),
        span_capacity(*final(tx)) == span_capacity(*old(tx)),
        span_room(*old(tx)) > 0 ==> pushed && spans_seen_read(*final(tx)) == spans_seen_read(
            *old(tx),
        ),
        spans_seen_read(*old(tx)) <= spans_seen_read(*final(tx)),
        pushed ==> spans_sent(*final(tx)) == spans_sent(*old(tx)).push(span),
        !pushed ==> spans_sent(*final(tx)) == spans_sent(*old(tx)),
        spans_sent(*final(tx)).is_prefix_of(span_tape(*final(tx))),
{
    tx.0.try_push(span).is_ok()
}

/// `Consumer::try_pop` of `ringbuf`, for descriptors: the eldest one, if any
/// is there. Whether one will be there next time rests on how far the other
/// half has written by then.
#[verifier::external_body]
fn pop_span(rx: &mut SpanRx) -> (span: Option<(u64, usize)>)
    ensures
        span_feed(*final(rx)) == span_feed(*old(rx)),
        span is Some <==> span_waits(*old(rx)),
        spans_received(*final(rx)) == match span {
            Some(span) => spans_received(*old(rx)).push(span),
            None => spans_received(*old(rx)),
        },
        spans_received(*final(rx)).is_prefix_of(span_feed(*final(rx))),
{
    rx.0.try_pop()
}

/// `Observer::read_is_held` of `ringbuf`: whether the reading half still
/// exists, which its owner decides.
#[verifier::external_body]
fn reader_is_held(tx: &SpanTx) -> bool {
    tx.0.read_is_held()
}

pub open spec fn lesser(a: int, b: int) -> int {
    if a < b {
        a
    } else {
        b
    }
}

/// The samples that the first `count` descriptors name between them.
pub open spec fn span_offset(spans: Seq<(u64, usize)>, count: int) -> int
    decreases count,
{
    if count <= 0 {
        0
    } else {
        span_offset(spans, count - 1) + spans[count - 1].1
    }
}

/// Whether the descriptors name the samples exactly, with none left over.
pub open spec fn aligned(spans: Seq<(u64, usize)>, samples: Seq<u32>) -> bool {
    span_offset(spans, spans.len() as int) == samples.len()
}

/// The ranges that descriptors and samples make up together: the source frame
/// each starts at, and its samples.
pub open spec fn ranges_of(spans: Seq<(u64, usize)>, samples: Seq<u32>) -> Seq<(u64, Seq<u32>)> {
    Seq::new(
        spans.len(),
        |i: int|
            (spans[i].0, samples.subrange(span_offset(spans, i), span_offset(spans, i + 1))),
    )
}

/// Offsets ascend, and one does not look past the descriptors it counts.
proof fn lemma_span_offset(spans: Seq<(u64, usize)>, more: Seq<(u64, usize)>, i: int, j: int)
    requires
        0 <= i <= j <= spans.len(),
        spans.is_prefix_of(more),
    ensures
        0 <= span_offset(spans, i) <= span_offset(spans, j),
        span_offset(spans, j) == span_offset(more, j),
    decreases j,
{
    if j > 0 {
        if i < j {
            lemma_span_offset(spans, more, i, j - 1);
        } else {
            lemma_span_offset(spans, more, j - 1, j - 1);
        }
        assert(more[j - 1] == spans[j - 1]);
    }
}

/// A descriptor whose samples have just been written adds one range.
pub(crate) proof fn lemma_ranges_push(
    spans: Seq<(u64, usize)>,
    samples: Seq<u32>,
    at: u64,
    frames: usize,
    mono: Seq<u32>,
)
    requires
        aligned(spans, samples),
        mono.len() == frames,
    ensures
        aligned(spans.push((at, frames)), samples + mono),
        ranges_of(spans.push((at, frames)), samples + mono) == ranges_of(spans, samples).push(
            (at, mono),
        ),
{
    let more = spans.push((at, frames));
    let all = samples + mono;
    let n = spans.len() as int;
    lemma_span_offset(spans, more, n, n);
    assert(span_offset(more, n + 1) == span_offset(more, n) + frames);
    let got = ranges_of(more, all);
    let want = ranges_of(spans, samples).push((at, mono));
    assert forall|i: int| 0 <= i < got.len() implies got[i] == want[i] by {
        if i < n {
            lemma_span_offset(spans, more, i, i + 1);
            lemma_span_offset(spans, more, i, i);
            lemma_span_offset(spans, more, i + 1, n);
            assert(all.subrange(span_offset(more, i), span_offset(more, i + 1)) =~= samples.subrange(
                span_offset(spans, i),
                span_offset(spans, i + 1),
            ));
        } else {
            assert(all.subrange(span_offset(more, n), span_offset(more, n + 1)) =~= mono);
        }
    }
    assert(got =~= want);
}

/// The producer half. Held by whoever decoded the audio; writes only.
pub struct Writer {
    samples: SampleTx,
    spans: SpanTx,
}

/// The consumer half. Held by the analysis worker; reads only.
pub struct Reader {
    samples: SampleRx,
    spans: SpanRx,
}

/// Whether the two halves belong to one transport.
pub open spec fn connected(writer: Writer, reader: Reader) -> bool {
    &&& writer.sample_stream() == reader.sample_stream()
    &&& writer.span_stream() == reader.span_stream()
}

/// Open a bounded mono transport sized for `frames` of audio and `ranges`
/// outstanding ranges. Both halves are allocated here, at open, so neither
/// side allocates again.
///
/// [`open_for`] is what a pass uses; this is for a caller that must state the
/// capacity itself, such as a test that needs the transport to refuse.
pub fn open(frames: usize, ranges: usize) -> (halves: (Writer, Reader))
    requires
        frames * 4 <= isize::MAX,
        ranges * 16 <= isize::MAX,
    ensures
        halves.0.well_formed(),
        halves.1.well_formed(),
        connected(halves.0, halves.1),
        halves.0.ranges() == Seq::<(u64, Seq<u32>)>::empty(),
        halves.0.room() == if frames == 0 {
            1
        } else {
            frames as int
        },
        halves.0.capacity() == halves.0.room(),
        halves.0.range_capacity() == halves.0.slots(),
        halves.0.sent() == 0,
        halves.0.seen_read() == 0,
        halves.0.ranges_seen_read() == 0,
        halves.0.slots() == if ranges == 0 {
            1
        } else {
            ranges as int
        },
        halves.1.ranges() == Seq::<(u64, Seq<u32>)>::empty(),
        halves.1.whole(),
{
    let (samples_tx, samples_rx) = open_samples(
        if frames == 0 {
            1
        } else {
            frames
        },
    );
    let (spans_tx, spans_rx) = open_spans(
        if ranges == 0 {
            1
        } else {
            ranges
        },
    );
    let writer = Writer { samples: samples_tx, spans: spans_tx };
    let reader = Reader { samples: samples_rx, spans: spans_rx };
    assert(writer.ranges() =~= Seq::<(u64, Seq<u32>)>::empty());
    assert(reader.ranges() =~= Seq::<(u64, Seq<u32>)>::empty());
    (writer, reader)
}

/// Samples a producer may run ahead of the analysis worker: four seconds.
pub open spec fn ahead_frames(rate: u32) -> int {
    if rate * 4 <= u32::MAX {
        rate * 4
    } else {
        u32::MAX as int
    }
}

/// Ranges a producer may run ahead of the analysis worker.
pub const AHEAD_RANGES: usize = 256;

/// Open the transport for a pass on `rate`.
///
/// The sizes are how far a producer may run ahead of the analysis worker
/// before its ranges start being refused. The worker is idle-class work, so
/// this is how long it may be starved without losing what playback already
/// decoded; a decoder chunk is a few thousand frames, so the descriptor side
/// is set well above the sample side.
pub fn open_for(rate: u32) -> (halves: (Writer, Reader))
    requires
        0 < rate,
        ahead_frames(rate) * 4 <= isize::MAX,
    ensures
        halves.0.well_formed(),
        halves.1.well_formed(),
        connected(halves.0, halves.1),
        halves.0.ranges() == Seq::<(u64, Seq<u32>)>::empty(),
        halves.0.room() == ahead_frames(rate),
        halves.0.capacity() == halves.0.room(),
        halves.0.range_capacity() == halves.0.slots(),
        halves.0.sent() == 0,
        halves.0.seen_read() == 0,
        halves.0.ranges_seen_read() == 0,
        halves.0.slots() == AHEAD_RANGES,
        halves.1.ranges() == Seq::<(u64, Seq<u32>)>::empty(),
        halves.1.whole(),
{
    let frames: u32 = if rate <= u32::MAX / 4 {
        rate * 4
    } else {
        u32::MAX
    };
    open(frames as usize, AHEAD_RANGES)
}

impl Writer {
    /// Every sample written belongs to a range that was taken, what has been
    /// written is a beginning of what the transport carries, and no more of it
    /// was seen read than was written.
    pub open spec fn well_formed(self) -> bool {
        &&& aligned(self.spans_written(), self.samples_written())
        &&& self.spans_written().is_prefix_of(self.span_stream())
        &&& self.samples_written().is_prefix_of(self.sample_stream())
        &&& 0 <= self.seen_read() <= self.sent()
        &&& 0 <= self.ranges_seen_read() <= self.ranges().len()
    }

    /// The descriptors written so far.
    pub closed spec fn spans_written(self) -> Seq<(u64, usize)> {
        spans_sent(self.spans)
    }

    /// The samples written so far.
    pub closed spec fn samples_written(self) -> Seq<u32> {
        samples_sent(self.samples)
    }

    /// The ranges taken so far, in the order they were offered.
    pub open spec fn ranges(self) -> Seq<(u64, Seq<u32>)> {
        ranges_of(self.spans_written(), self.samples_written())
    }

    /// How many samples were sent.
    pub open spec fn sent(self) -> int {
        self.samples_written().len() as int
    }

    /// How many of them were seen to have been read, at the last look.
    pub closed spec fn seen_read(self) -> int {
        samples_seen_read(self.samples) as int
    }

    /// How many of the ranges were seen to have been read, at the last look.
    pub closed spec fn ranges_seen_read(self) -> int {
        spans_seen_read(self.spans) as int
    }

    /// The samples there is certainly room for.
    pub open spec fn room(self) -> int {
        self.capacity() - (self.sent() - self.seen_read())
    }

    /// The samples there is ever room for.
    pub closed spec fn capacity(self) -> int {
        sample_capacity(self.samples) as int
    }

    /// The ranges there is ever room for.
    pub closed spec fn range_capacity(self) -> int {
        span_capacity(self.spans) as int
    }

    /// The ranges there is certainly room for.
    pub open spec fn slots(self) -> int {
        self.range_capacity() - (self.ranges().len() - self.ranges_seen_read())
    }

    /// Every sample the transport carries over its life.
    pub closed spec fn sample_stream(self) -> Seq<u32> {
        sample_tape(self.samples)
    }

    /// Every descriptor the transport carries over its life.
    pub closed spec fn span_stream(self) -> Seq<(u64, usize)> {
        span_tape(self.spans)
    }

    /// Whether the pass still holds the reading half. A pass that ended drops
    /// it, and there is then nothing to write for. The answer is the owner's
    /// of that half, so nothing is claimed of it.
    pub fn is_open(&self) -> bool {
        reader_is_held(&self.spans)
    }

    /// Take the `frames` mono samples that `sample` yields, by index, as one
    /// range starting at source frame `at`.
    ///
    /// Returns whether the range was taken. A range that does not fit is
    /// refused whole: nothing is written, so the reader never sees half of
    /// one. The samples are written before the descriptor that names them, so
    /// a descriptor the reader can see always has its samples behind it.
    ///
    /// A range is taken exactly when it is not empty and the ranges that have
    /// not been seen read leave room for it and its descriptor. What is seen
    /// read rests on how far the reader has come; it never becomes less.
    pub fn push<F: Fn(usize) -> u32>(&mut self, at: u64, frames: usize, sample: F) -> (taken: bool)
        requires
            old(self).well_formed(),
            forall|i: usize| i < frames ==> #[trigger] call_requires(sample, (i,)),
        ensures
            final(self).well_formed(),
            final(self).sample_stream() == old(self).sample_stream(),
            final(self).span_stream() == old(self).span_stream(),
            final(self).capacity() == old(self).capacity(),
            final(self).range_capacity() == old(self).range_capacity(),
            old(self).seen_read() <= final(self).seen_read() <= old(self).sent(),
            old(self).ranges_seen_read() <= final(self).ranges_seen_read() <= old(
                self,
            ).ranges().len(),
            taken <==> {
                &&& 0 < frames
                &&& old(self).sent() - final(self).seen_read() + frames <= old(self).capacity()
                &&& old(self).ranges().len() - final(self).ranges_seen_read() + 1 <= old(
                    self,
                ).range_capacity()
            },
            final(self).sent() == old(self).sent() + if taken {
                frames as int
            } else {
                0
            },
            taken ==> exists|mono: Seq<u32>|
                {
                    &&& mono.len() == frames
                    &&& forall|i: int|
                        0 <= i < frames ==> call_ensures(sample, (i as usize,), #[trigger] mono[i])
                    &&& final(self).ranges() == #[trigger] old(self).ranges().push((at, mono))
                },
            !taken ==> final(self).ranges() == old(self).ranges(),
    {
        if frames == 0 {
            return false;
        }
        let vacant: usize = vacant_samples(&mut self.samples);
        if vacant < frames {
            return false;
        }
        let full: bool = spans_full(&mut self.spans);
        if full {
            return false;
        }
        let ghost seen = samples_seen_read(self.samples);
        let ghost spans_seen = spans_seen_read(self.spans);
        let ghost spans = spans_sent(self.spans);
        let ghost samples = samples_sent(self.samples);
        let ghost mut mono = Seq::<u32>::empty();
        let mut i: usize = 0;
        while i < frames
            invariant
                i <= frames,
                mono.len() == i,
                vacant >= frames,
                forall|k: usize| k < frames ==> #[trigger] call_requires(sample, (k,)),
                forall|k: int|
                    0 <= k < i ==> call_ensures(sample, (k as usize,), #[trigger] mono[k]),
                samples_sent(self.samples) == samples + mono,
                samples_sent(self.samples).is_prefix_of(sample_tape(self.samples)),
                sample_room(self.samples) + i == vacant,
                samples_seen_read(self.samples) == seen,
                spans_seen_read(self.spans) == spans_seen,
                span_capacity(self.spans) == old(self).range_capacity(),
                sample_tape(self.samples) == old(self).sample_stream(),
                sample_capacity(self.samples) == old(self).capacity(),
                span_tape(self.spans) == old(self).span_stream(),
                spans_sent(self.spans) == spans,
                span_room(self.spans) > 0,
            decreases frames - i,
        {
            let value: u32 = sample(i);
            let ghost before = mono;
            push_sample(&mut self.samples, value);
            proof {
                mono = mono.push(value);
                assert(samples + mono =~= (samples + before).push(value));
            }
            i += 1;
        }
        let taken: bool = push_span(&mut self.spans, (at, frames));
        proof {
            lemma_ranges_push(spans, samples, at, frames, mono);
            assert(self.ranges() == old(self).ranges().push((at, mono)));
        }
        taken
    }
}

impl Reader {
    /// The ranges read so far, as far as their samples were there.
    pub open spec fn ranges(self) -> Seq<(u64, Seq<u32>)> {
        ranges_of(self.spans_read(), self.samples_read())
    }

    /// Whether every range read so far came with all its samples.
    pub open spec fn whole(self) -> bool {
        aligned(self.spans_read(), self.samples_read())
    }

    /// Every sample the transport carries over its life.
    pub closed spec fn sample_stream(self) -> Seq<u32> {
        sample_feed(self.samples)
    }

    /// Every descriptor the transport carries over its life.
    pub closed spec fn span_stream(self) -> Seq<(u64, usize)> {
        span_feed(self.spans)
    }

    /// The descriptors read so far.
    pub closed spec fn spans_read(self) -> Seq<(u64, usize)> {
        spans_received(self.spans)
    }

    /// The samples taken out so far.
    pub closed spec fn samples_read(self) -> Seq<u32> {
        samples_received(self.samples)
    }

    /// How many samples the next read finds.
    pub closed spec fn waiting(self) -> int {
        samples_waiting(self.samples) as int
    }

    /// Whether the next read finds a range.
    pub closed spec fn has_next(self) -> bool {
        span_waits(self.spans)
    }

    /// The descriptor that comes next in the transport.
    pub open spec fn next_span(self) -> (u64, usize) {
        self.span_stream()[self.spans_read().len() as int]
    }

    /// The samples that come next in the transport: as many of the `frames` of
    /// a range as the next read finds.
    pub open spec fn next_samples(self, frames: usize) -> Seq<u32> {
        let start = self.samples_read().len() as int;
        self.sample_stream().subrange(start, start + lesser(frames as int, self.waiting()))
    }

    /// Whether the next read into a buffer of `limit` samples gives a range.
    pub open spec fn gives(self, limit: int) -> bool {
        self.has_next() && self.next_span().1 <= limit
    }

    /// The range that the next read finds: its start, and the samples of it that
    /// are there.
    pub open spec fn next_range(self) -> (u64, Seq<u32>) {
        (self.next_span().0, self.next_samples(self.next_span().1))
    }

    /// What has been read is a beginning of what the transport carries.
    pub open spec fn well_formed(self) -> bool {
        &&& self.spans_read().is_prefix_of(self.span_stream())
        &&& self.samples_read().is_prefix_of(self.sample_stream())
    }

    /// Read the next range into `out`, returning the source frame it starts
    /// at. `out` is left holding that range's mono samples.
    ///
    /// `None` when no range is waiting, or when `out` has no room for the one
    /// that is; that range is then dropped, with its samples.
    pub fn pop(&mut self, out: &mut PcmBuf) -> (start: Option<u64>)
        requires
            old(self).well_formed(),
        ensures
            final(self).well_formed(),
            is_read(*old(self), *final(self)),
            final(self).spans_read().len() <= final(self).span_stream().len(),
            final(out).limit() == old(out).limit(),
            start == if old(self).gives(old(out).limit() as int) {
                Some(old(self).next_span().0)
            } else {
                None
            },
            !old(self).has_next() ==> final(out)@ == old(out)@,
            old(self).has_next() ==> {
                let (at, frames) = old(self).next_span();
                &&& final(out)@ == if frames <= old(out).limit() {
                    old(self).next_samples(frames)
                } else {
                    Seq::empty()
                }
                &&& old(self).whole() && frames <= old(self).waiting() ==> {
                    &&& final(self).whole()
                    &&& final(self).ranges() == old(self).ranges().push(
                        (at, old(self).next_samples(frames)),
                    )
                }
            },
    {
        let span = pop_span(&mut self.spans);
        let ghost samples = samples_received(self.samples);
        let start = self.read_span(span, out);
        proof {
            if let Some(span) = span {
                let spans = old(self).spans_read();
                assert(self.spans_read()[spans.len() as int] == span);
                assert(span == old(self).next_span());
                if old(self).whole() && span.1 <= old(self).waiting() {
                    lemma_ranges_push(
                        spans,
                        samples,
                        span.0,
                        span.1,
                        old(self).next_samples(span.1),
                    );
                }
            }
        }
        start
    }

    /// Read the range that `span`, the descriptor just taken out of the
    /// transport, names: its start, and into `out` the samples of it that are
    /// there. A range that `out` has no room for is dropped, with its samples;
    /// without a descriptor nothing is read.
    pub fn read_span(&mut self, span: Option<(u64, usize)>, out: &mut PcmBuf) -> (start: Option<
        u64,
    >)
        requires
            old(self).well_formed(),
        ensures
            final(self).well_formed(),
            final(self).sample_stream() == old(self).sample_stream(),
            final(self).span_stream() == old(self).span_stream(),
            final(self).spans_read() == old(self).spans_read(),
            final(out).limit() == old(out).limit(),
            start == match span {
                Some((at, frames)) if frames <= old(out).limit() => Some(at),
                _ => None,
            },
            span matches Some((at, frames)) ==> {
                &&& final(self).samples_read() == old(self).samples_read() + old(
                    self,
                ).next_samples(frames)
                &&& old(self).next_samples(frames).len() == lesser(
                    frames as int,
                    old(self).waiting(),
                )
                &&& final(out)@ == if frames <= old(out).limit() {
                    old(self).next_samples(frames)
                } else {
                    Seq::empty()
                }
            },
            span is None ==> {
                &&& final(self).samples_read() == old(self).samples_read()
                &&& final(out)@ == old(out)@
            },
    {
        let span: (u64, usize) = match span {
            Some(span) => span,
            None => return None,
        };
        out.clear();
        match out.ensure_len(span.1) {
            Ok(()) => {},
            Err(_) => {
                skip_samples(&mut self.samples, span.1);
                assert(self.samples_read() =~= old(self).samples_read() + old(self).next_samples(
                    span.1,
                ));
                return None;
            },
        }
        let ghost samples = samples_received(self.samples);
        let mut room: Vec<u32> = out.take_samples();
        let count: usize = pop_samples(&mut self.samples, &mut room);
        room.truncate(count);
        out.put_samples(room);
        assert(room@ =~= samples_received(self.samples).skip(samples.len() as int));
        assert(room@ =~= old(self).next_samples(span.1));
        Some(span.0)
    }
}

/// Whether one read led from `before` to `after`: the next descriptor that was
/// there is taken out, with the samples of its range that were, and nothing where
/// there was none.
pub open spec fn is_read(before: Reader, after: Reader) -> bool {
    let (at, frames) = before.next_span();
    &&& after.sample_stream() == before.sample_stream()
    &&& after.span_stream() == before.span_stream()
    &&& before.well_formed() ==> after.well_formed()
    &&& if before.has_next() {
        &&& after.spans_read() == before.spans_read().push((at, frames))
        &&& before.next_samples(frames).len() == lesser(frames as int, before.waiting())
        &&& after.samples_read() == before.samples_read() + before.next_samples(frames)
    } else {
        &&& after.spans_read() == before.spans_read()
        &&& after.samples_read() == before.samples_read()
    }
}

/// What comes out is what went in: of the ranges that the reader has drained
/// whole and the writer has been seen to send, the n-th one out is the n-th
/// one in, with its start and its samples.
pub proof fn law_ranges_come_out_as_they_went_in(writer: Writer, reader: Reader, n: int)
    requires
        connected(writer, reader),
        writer.well_formed(),
        reader.well_formed(),
        reader.whole(),
        0 <= n < writer.ranges().len(),
        n < reader.ranges().len(),
    ensures
        reader.ranges()[n] == writer.ranges()[n],
{
    let in_spans = spans_sent(writer.spans);
    let in_samples = samples_sent(writer.samples);
    let out_spans = spans_received(reader.spans);
    let out_samples = samples_received(reader.samples);
    let spans = span_tape(writer.spans);
    let samples = sample_tape(writer.samples);
    lemma_span_offset(in_spans, spans, n, n + 1);
    lemma_span_offset(in_spans, spans, n, n);
    lemma_span_offset(in_spans, spans, n + 1, in_spans.len() as int);
    lemma_span_offset(out_spans, spans, n, n + 1);
    lemma_span_offset(out_spans, spans, n, n);
    lemma_span_offset(out_spans, spans, n + 1, out_spans.len() as int);
    assert(in_spans[n] == spans[n]);
    assert(out_spans[n] == spans[n]);
    let lo = span_offset(spans, n);
    let hi = span_offset(spans, n + 1);
    assert(in_samples.subrange(lo, hi) =~= samples.subrange(lo, hi));
    assert(out_samples.subrange(lo, hi) =~= samples.subrange(lo, hi));
}

/// A producer may run four seconds ahead of the worker at its rate, as far as
/// the transport can count them.
pub proof fn law_a_producer_may_run_four_seconds_ahead(rate: u32)
    ensures
        frames_in(rate as int, 4_000_000_000) <= u32::MAX ==> ahead_frames(rate) == frames_in(
            rate as int,
            4_000_000_000,
        ),
        ahead_frames(rate) <= u32::MAX,
        frames_in(rate as int, 4_000_000_000) > u32::MAX ==> ahead_frames(rate) == u32::MAX,
{
}

/// Ranges lie one behind the other in the samples: the first range is named by
/// the first descriptor, each takes as many samples as its descriptor says, and
/// the next begins where it ends.
pub proof fn law_ranges_lie_one_behind_the_other(
    spans: Seq<(u64, usize)>,
    samples: Seq<u32>,
    n: int,
    i: int,
)
    requires
        aligned(spans, samples),
        0 <= n < spans.len(),
        0 <= i < spans[n].1,
    ensures
        span_offset(spans, 0) == 0,
        span_offset(spans, n + 1) == span_offset(spans, n) + spans[n].1,
        0 <= span_offset(spans, n),
        span_offset(spans, n) + i < samples.len(),
        ({
            let (at, range) = ranges_of(spans, samples)[n];
            &&& at == spans[n].0
            &&& range.len() == spans[n].1
            &&& range[i] == samples[span_offset(spans, n) + i]
        }),
{
    lemma_span_offset(spans, spans, 0, n);
    lemma_span_offset(spans, spans, n + 1, spans.len() as int);
}

/// A read that finds a whole range adds it, and one that finds no range adds
/// none.
#[verifier::rlimit(60)]
pub proof fn law_a_read_adds_the_next_range(before: Reader, after: Reader)
    requires
        is_read(before, after),
        before.well_formed(),
        before.whole(),
    ensures
        before.has_next() && before.next_span().1 <= before.waiting() ==> {
            &&& after.whole()
            &&& after.ranges() == before.ranges().push(before.next_range())
        },
        !before.has_next() ==> after.ranges() == before.ranges(),
{
    if before.has_next() && before.next_span().1 <= before.waiting() {
        let spans = before.spans_read();
        let more = after.spans_read();
        let count = spans.len() as int;
        lemma_span_offset(spans, more, count, count);
        lemma_span_offset(spans, more, 0, count);
        assert(span_offset(more, count + 1) == span_offset(more, count) + more[count].1);
        let samples = before.samples_read();
        let all = after.samples_read();
        assert(all.len() == samples.len() + before.next_span().1);
        assert forall|i: int| 0 <= i < count implies after.ranges()[i] == before.ranges()[i] by {
            lemma_span_offset(spans, more, i, i + 1);
            lemma_span_offset(spans, more, i, i);
            lemma_span_offset(spans, more, i + 1, count);
            assert(all.subrange(span_offset(spans, i), span_offset(spans, i + 1))
                =~= samples.subrange(span_offset(spans, i), span_offset(spans, i + 1)));
        }
        assert(all.subrange(span_offset(more, count), span_offset(more, count + 1))
            =~= before.next_samples(before.next_span().1));
        assert(after.ranges() =~= before.ranges().push(before.next_range()));
    }
}

/// There is room for what the transport can hold without what was sent and not
/// seen read: for all of it where everything sent was seen read.
pub proof fn law_room_is_what_is_not_outstanding(writer: Writer)
    ensures
        writer.room() + writer.sent() == writer.capacity() + writer.seen_read(),
        writer.slots() + writer.ranges().len() == writer.range_capacity()
            + writer.ranges_seen_read(),
        writer.seen_read() == writer.sent() ==> writer.room() == writer.capacity(),
        writer.ranges_seen_read() == writer.ranges().len() ==> writer.slots()
            == writer.range_capacity(),
{
}

} // verus!
