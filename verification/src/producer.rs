//! The producer side of an analysis pass.

use crate::ring::Writer;
use vstd::prelude::*;

verus! {

/// How interleaved PCM is laid out.
#[derive(Clone, Copy, Debug, PartialEq, Eq, Structural)]
pub struct PcmSpec {
    pub channels: u16,
    pub sample_rate: u32,
}

/// What a pass did with an offered range, as far as its producer can tell.
/// Whether the range was already covered is the pass's business and is not
/// reported here: the producer must not wait to find out.
#[derive(Clone, Copy, Debug, PartialEq, Eq, Structural)]
#[non_exhaustive]
pub enum Offer {
    /// Copied into the pass's transport. It joins the coverage when the
    /// analysis worker drains it.
    Taken,
    /// The transport is full, or there is not one whole frame to copy. The range
    /// stays uncovered and so stays missing, which is what makes it eligible to
    /// be produced again.
    Full,
    /// Measured on another sample-rate axis than the pass was opened with.
    ForeignRate,
    /// The pass ended and no longer holds the transport. Nothing was written,
    /// and nothing written from here on could be read: the caller should let
    /// the handle go.
    Closed,
}

/// The channels of a frame; audio without any is read as mono.
pub open spec fn frame_width(channels: u16) -> int {
    if channels == 0 {
        1
    } else {
        channels as int
    }
}

/// Frame `i` of interleaved PCM.
pub open spec fn frame_at<T>(pcm: Seq<T>, width: int, i: int) -> Seq<T> {
    pcm.subrange(i * width, i * width + width)
}

/// Whether `value` is what `mix` makes of one frame.
pub open spec fn mixes_to<T, M: Fn(&[T]) -> u32 + Copy>(mix: M, frame: Seq<T>, value: u32) -> bool {
    exists|slice: &[T]| #[trigger] slice@ == frame && call_ensures(mix, (slice,), value)
}

/// Whether `mono` is `pcm` with every whole frame mixed to one sample.
pub open spec fn is_downmix<T, M: Fn(&[T]) -> u32 + Copy>(
    mix: M,
    pcm: Seq<T>,
    width: int,
    mono: Seq<u32>,
) -> bool {
    &&& mono.len() == pcm.len() as int / width
    &&& forall|i: int|
        0 <= i < mono.len() ==> mixes_to(mix, frame_at(pcm, width, i), #[trigger] mono[i])
}

/// The producer side of one analysis pass.
///
/// The pass is named once, when the handle is made, so offering costs no
/// lookup and two producers never contend for one transport. Holding a handle
/// is the only way in; a track with no open pass has none, which is what makes
/// that case free rather than merely cheap.
pub struct AnalysisProducer {
    ring: Writer,
    /// The axis the pass was opened on. Every range offered here is measured
    /// in it.
    rate: u32,
    token: String,
}

impl AnalysisProducer {
    pub closed spec fn well_formed(&self) -> bool {
        self.ring.well_formed()
    }

    /// The writing half of the pass's transport.
    pub closed spec fn transport(&self) -> Writer {
        self.ring
    }

    /// The axis of the pass.
    pub closed spec fn axis(&self) -> u32 {
        self.rate
    }

    /// The pass this handle feeds.
    pub closed spec fn pass(&self) -> Seq<char> {
        self.token@
    }

    pub fn new(ring: Writer, rate: u32, token: String) -> (producer: Self)
        requires
            ring.well_formed(),
        ensures
            producer.well_formed(),
            producer.transport() == ring,
            producer.axis() == rate,
            producer.pass() == token@,
    {
        AnalysisProducer { ring, rate, token }
    }

    /// The pass this handle feeds.
    pub fn token(&self) -> (token: &str)
        ensures
            token@ == self.pass(),
    {
        self.token.as_str()
    }

    /// Offer one interleaved range starting at source frame `at`.
    ///
    /// Downmixes to mono by `mix`, one frame at a time and whatever its samples
    /// are, and copies it into the pass's transport. Returns without blocking, without allocating, and
    /// without retaining `pcm`, so the caller may recycle its buffer the
    /// moment this returns.
    ///
    /// Whether the pass still listens is its own affair; [`Self::offer_while`]
    /// says what follows from either answer.
    pub fn offer<T, M: Fn(&[T]) -> u32 + Copy>(
        &mut self,
        pcm: &[T],
        spec: PcmSpec,
        at: u64,
        mix: M,
    ) -> (offer: Offer)
        requires
            old(self).well_formed(),
            forall|frame: &[T]|
                frame@.len() == frame_width(spec.channels) ==> #[trigger] call_requires(
                    mix,
                    (frame,),
                ),
        ensures
            final(self).well_formed(),
            final(self).axis() == old(self).axis(),
            final(self).pass() == old(self).pass(),
            offer == Offer::Closed || offered(*old(self), *final(self), pcm@, spec, at, mix, offer),
            same_transport(old(self).transport(), final(self).transport()),
            offer == Offer::Closed ==> final(self).transport() == old(self).transport(),
            offer != Offer::Taken ==> final(self).transport().ranges() == old(
                self).transport().ranges(),
    {
        let open: bool = self.ring.is_open();
        self.offer_while(open, pcm, spec, at, mix)
    }

    /// Offer one range to a pass that listens, or no longer does.
    pub fn offer_while<T, M: Fn(&[T]) -> u32 + Copy>(
        &mut self,
        open: bool,
        pcm: &[T],
        spec: PcmSpec,
        at: u64,
        mix: M,
    ) -> (offer: Offer)
        requires
            old(self).well_formed(),
            forall|frame: &[T]|
                frame@.len() == frame_width(spec.channels) ==> #[trigger] call_requires(
                    mix,
                    (frame,),
                ),
        ensures
            final(self).well_formed(),
            final(self).axis() == old(self).axis(),
            final(self).pass() == old(self).pass(),
            offer == Offer::Closed <==> !open,
            open ==> offered(*old(self), *final(self), pcm@, spec, at, mix, offer),
            same_transport(old(self).transport(), final(self).transport()),
            !open ==> final(self).transport() == old(self).transport(),
            offer != Offer::Taken ==> final(self).transport().ranges() == old(
                self).transport().ranges(),
    {
        if !open {
            return Offer::Closed;
        }
        if spec.sample_rate != self.rate {
            return Offer::ForeignRate;
        }
        let width: usize = if spec.channels == 0 {
            1
        } else {
            spec.channels as usize
        };
        let frames: usize = pcm.len() / width;
        let ghost len = pcm@.len() as int;
        proof {
            vstd::arithmetic::div_mod::lemma_fundamental_div_mod(len, width as int);
        }
        let sample = |i: usize| -> (value: u32)
            requires
                i < frames,
                0 < width,
                pcm@.len() <= usize::MAX,
                frames * width <= pcm@.len(),
                forall|frame: &[T]|
                    frame@.len() == width ==> #[trigger] call_requires(mix, (frame,)),
            ensures
                mixes_to(mix, frame_at(pcm@, width as int, i as int), value),
            {
                proof {
                    assert(i * width + width <= frames * width) by (nonlinear_arith)
                        requires
                            i + 1 <= frames,
                    ;
                    assert(0 <= i * width) by (nonlinear_arith);
                }
                let from: usize = i * width;
                let frame = vstd::slice::slice_subrange(pcm, from, from + width);
                mix(frame)
            };
        proof {
            assert(frames * width <= pcm@.len()) by (nonlinear_arith)
                requires
                    len == width * frames + len % width as int,
                    0 <= len % width as int,
                    len == pcm@.len(),
            ;
        }
        let taken: bool = self.ring.push(at, frames, sample);
        if taken {
            proof {
                let mono = choose|mono: Seq<u32>|
                    {
                        &&& mono.len() == frames
                        &&& forall|i: int|
                            0 <= i < frames ==> call_ensures(sample, (i as usize,), #[trigger] mono[i])
                        &&& self.ring.ranges() == #[trigger] old(self).ring.ranges().push(
                            (at, mono),
                        )
                    };
                assert(is_downmix(mix, pcm@, width as int, mono));
                assert(self.transport().ranges() == old(self).transport().ranges().push(
                    (at, mono),
                ));
            }
            Offer::Taken
        } else {
            Offer::Full
        }
    }
}

/// Whether both are the writing half of one transport.
pub open spec fn same_transport(before: Writer, after: Writer) -> bool {
    &&& after.sample_stream() == before.sample_stream()
    &&& after.span_stream() == before.span_stream()
    &&& after.capacity() == before.capacity()
    &&& after.range_capacity() == before.range_capacity()
}

/// What an offer to a pass that listens comes to: a range on another axis is
/// refused, one that the ranges not yet seen read leave room for is taken, mixed
/// to mono frame by frame, and one that is not taken leaves the transport as it
/// was.
pub open spec fn offered<T, M: Fn(&[T]) -> u32 + Copy>(
    before: AnalysisProducer,
    after: AnalysisProducer,
    pcm: Seq<T>,
    spec: PcmSpec,
    at: u64,
    mix: M,
    offer: Offer,
) -> bool {
    let width = frame_width(spec.channels);
    let frames = pcm.len() as int / width;
    &&& offer == Offer::ForeignRate <==> spec.sample_rate != before.axis()
    &&& offer != Offer::Closed
    &&& offer == Offer::Taken ==> exists|mono: Seq<u32>|
        is_downmix(mix, pcm, width, mono) && after.transport().ranges()
            == #[trigger] before.transport().ranges().push((at, mono))
    &&& offer == Offer::ForeignRate ==> after.transport() == before.transport()
    &&& after.transport().sent() == before.transport().sent() + if offer == Offer::Taken {
        frames
    } else {
        0
    }
    &&& before.transport().seen_read() <= after.transport().seen_read()
        <= before.transport().sent()
    &&& before.transport().ranges_seen_read() <= after.transport().ranges_seen_read()
        <= before.transport().ranges().len()
    &&& spec.sample_rate == before.axis() ==> (offer == Offer::Taken <==> {
        &&& 0 < frames
        &&& before.transport().sent() - after.transport().seen_read() + frames
            <= before.transport().capacity()
        &&& before.transport().ranges().len() - after.transport().ranges_seen_read() + 1
            <= before.transport().range_capacity()
    })
}

/// Frames of interleaved PCM lie one behind the other: sample `channel` of a
/// frame stands that far behind where the frame begins, and what is left over
/// is less than a frame. Audio without channels is read as mono.
pub proof fn law_frames_lie_one_behind_the_other<T>(
    pcm: Seq<T>,
    channels: u16,
    frame: int,
    channel: int,
)
    ensures
        frame_width(channels) >= 1,
        channels > 0 ==> frame_width(channels) == channels,
        frame_width(0) == frame_width(1),
        ({
            let width = frame_width(channels);
            let frames = pcm.len() as int / width;
            &&& frames * width <= pcm.len() < (frames + 1) * width
            &&& 0 <= frame < frames && 0 <= channel < width ==> {
                &&& frame_at(pcm, width, frame).len() == width
                &&& frame_at(pcm, width, frame)[channel] == pcm[frame * width + channel]
            }
        }),
{
    let width = frame_width(channels);
    let frames = pcm.len() as int / width;
    vstd::arithmetic::div_mod::lemma_fundamental_div_mod(pcm.len() as int, width);
    assert(width * frames == frames * width && (frames + 1) * width == frames * width + width)
        by (nonlinear_arith);
    if 0 <= frame < frames {
        assert(0 <= frame * width && frame * width + width <= frames * width) by (nonlinear_arith)
            requires
                0 <= frame < frames,
                width >= 1,
        ;
    }
}

/// What is taken of an offer is one range at the offered position with one
/// sample for each whole frame, mixed from the samples of that frame; anything
/// else leaves what was sent as it was.
pub proof fn law_a_taken_offer_is_one_range<T, M: Fn(&[T]) -> u32 + Copy>(
    before: AnalysisProducer,
    after: AnalysisProducer,
    pcm: Seq<T>,
    spec: PcmSpec,
    at: u64,
    mix: M,
    offer: Offer,
    frame: int,
)
    requires
        offered(before, after, pcm, spec, at, mix, offer),
    ensures
        offer == Offer::Taken ==> {
            let width = frame_width(spec.channels);
            let ranges = after.transport().ranges();
            let (start, mono) = ranges.last();
            &&& ranges.len() == before.transport().ranges().len() + 1
            &&& before.transport().ranges().is_prefix_of(ranges)
            &&& start == at
            &&& mono.len() > 0
            &&& mono.len() * width <= pcm.len() < (mono.len() + 1) * width
            &&& after.transport().sent() == before.transport().sent() + mono.len()
            &&& 0 <= frame < mono.len() ==> mixes_to(
                mix,
                pcm.subrange(frame * width, (frame + 1) * width),
                mono[frame],
            )
        },
        offer != Offer::Taken ==> after.transport().sent() == before.transport().sent(),
        offer == Offer::Taken ==> spec.sample_rate == before.axis(),
        spec.sample_rate == before.axis() ==> offer == Offer::Taken || offer == Offer::Full,
{
    let width = frame_width(spec.channels);
    law_frames_lie_one_behind_the_other(pcm, spec.channels, 0, 0);
    if offer == Offer::Taken {
        let mono = choose|mono: Seq<u32>|
            is_downmix(mix, pcm, width, mono) && after.transport().ranges()
                == #[trigger] before.transport().ranges().push((at, mono));
        assert(after.transport().ranges().last() == (at, mono));
        if 0 <= frame < mono.len() {
            assert((frame + 1) * width == frame * width + width) by (nonlinear_arith);
            assert(mixes_to(mix, frame_at(pcm, width, frame), mono[frame]));
        }
    }
}

} // verus!
