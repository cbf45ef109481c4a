//! On-demand audio signal source.
//!
//! `SignalSource<S>` computes WAV bytes on-the-fly from a `SignalFn`: no
//! internal data buffer, pure computation per read.

use crate::bytes::{sample_bytes, sample_le};
use crate::wav::{
    build_wav_header, header_fits, law_file_length, law_header_length, wav_file, wav_header,
    HEADER_SIZE, SAW_PERIOD,
};
use core::ops::Range;
use vstd::arithmetic::div_mod::lemma_fundamental_div_mod_converse;
use vstd::prelude::*;

verus! {

/// Deterministic audio signal generator.
///
/// Implementations must be pure functions: given the same `frame` and
/// `sample_rate`, they must always return the same sample value.
pub trait SignalFn {
    /// The sample at the given frame index.
    closed spec fn sample_at(&self, frame: u64, sample_rate: u32) -> i16 {
        arbitrary()
    }

    /// Compute one 16-bit PCM sample at the given frame index.
    fn sample(&self, frame: u64, sample_rate: u32) -> (sample: i16)
        ensures
            sample == self.sample_at(frame, sample_rate),
    ;
}

/// Ascending sawtooth wave with period [`SAW_PERIOD`] (65 536 frames).
pub struct Sawtooth;

impl SignalFn for Sawtooth {
    open spec fn sample_at(&self, frame: u64, sample_rate: u32) -> i16 {
        (frame % 65_536 - 32_768) as i16
    }

    fn sample(&self, frame: u64, sample_rate: u32) -> (sample: i16) {
        ((frame % (SAW_PERIOD as u64)) as i32 - 32_768) as i16
    }
}

/// Descending sawtooth wave with period [`SAW_PERIOD`] (65 536 frames).
pub struct SawtoothDescending;

impl SignalFn for SawtoothDescending {
    open spec fn sample_at(&self, frame: u64, sample_rate: u32) -> i16 {
        (32_767 - frame % 65_536) as i16
    }

    fn sample(&self, frame: u64, sample_rate: u32) -> (sample: i16) {
        (32_767 - (frame % (SAW_PERIOD as u64)) as i32) as i16
    }
}

/// Digital silence: all samples are zero.
pub struct Silence;

impl SignalFn for Silence {
    open spec fn sample_at(&self, frame: u64, sample_rate: u32) -> i16 {
        0
    }

    fn sample(&self, frame: u64, sample_rate: u32) -> (sample: i16) {
        0
    }
}

/// What a source could fail with; none of its reads does.
#[derive(Clone, Copy, Debug, PartialEq, Eq, Structural)]
pub struct SignalSourceError;

impl SignalSourceError {
    pub fn message(&self) -> (message: String)
        ensures
            message@ == "signal source error"@,
    {
        String::from_str("signal source error")
    }
}

/// What a read came to.
#[derive(Clone, Copy, Debug, PartialEq, Eq, Structural)]
pub enum ReadOutcome {
    /// So many bytes were written to the buffer.
    Data(usize),
}

/// What waiting for a range came to.
#[derive(Clone, Copy, Debug, PartialEq, Eq, Structural)]
pub enum WaitOutcome {
    Ready,
    Eof,
}

/// Where a range stands.
#[derive(Clone, Copy, Debug, PartialEq, Eq, Structural)]
pub enum SourcePhase {
    Ready,
    Eof,
}

#[derive(Clone, Copy, Debug, PartialEq, Eq, Structural)]
pub enum AudioCodec {
    Pcm,
}

#[derive(Clone, Copy, Debug, PartialEq, Eq, Structural)]
pub enum ContainerFormat {
    Wav,
}

/// What is known of a stream before it is decoded.
#[derive(Clone, Copy, Debug, PartialEq, Eq, Structural)]
pub struct MediaInfo {
    pub channels: Option<u16>,
    pub codec: Option<AudioCodec>,
    pub container: Option<ContainerFormat>,
    pub sample_rate: Option<u32>,
}

/// Byte `i` of 16-bit PCM with the same sample on every channel.
pub open spec fn pcm_byte<S: SignalFn>(signal: S, sample_rate: u32, channels: u16, i: int) -> u8 {
    let width = channels * 2;
    sample_bytes(signal.sample_at((i / width) as u64, sample_rate))[i % width % 2]
}

/// Write PCM bytes into `buf` from `written` up to `count`. The byte at
/// `written` is byte `at` of the PCM.
pub(crate) fn fill_pcm<S: SignalFn>(
    signal: &S,
    sample_rate: u32,
    channels: u16,
    buf: &mut [u8],
    written: usize,
    count: usize,
    at: u64,
)
    requires
        channels > 0,
        written <= count <= old(buf)@.len(),
        at + (count - written) <= u64::MAX,
    ensures
        final(buf)@.len() == old(buf)@.len(),
        forall|k: int|
            0 <= k < old(buf)@.len() ==> #[trigger] final(buf)@[k] == if written <= k < count {
                pcm_byte(*signal, sample_rate, channels, at + (k - written))
            } else {
                old(buf)@[k]
            },
{
    let ghost before = buf@;
    let width: u64 = (channels as u64) * 2;
    let mut done: usize = written;
    let mut pos: u64 = at;
    while done < count
        invariant
            width == channels * 2,
            channels > 0,
            written <= done <= count <= buf@.len(),
            buf@.len() == before.len(),
            pos == at + (done - written),
            at + (count - written) <= u64::MAX,
            forall|k: int|
                0 <= k < before.len() ==> #[trigger] buf@[k] == if written <= k < done {
                    pcm_byte(*signal, sample_rate, channels, at + (k - written))
                } else {
                    before[k]
                },
        decreases count - done,
    {
        let frame: u64 = pos / width;
        let inside: u64 = pos % width;
        let (lo, hi) = sample_le(signal.sample(frame, sample_rate));
        let available: u64 = width - inside;
        let left: u64 = (count - done) as u64;
        let n: u64 = if available < left {
            available
        } else {
            left
        };
        let mut j: u64 = 0;
        let ghost start = done;
        while j < n
            invariant
                width == channels * 2,
                channels > 0,
                j <= n <= count - start,
                n <= width - inside,
                inside < width,
                written <= start <= count <= buf@.len(),
                done == start + j,
                buf@.len() == before.len(),
                pos == at + (start - written),
                at + (count - written) <= u64::MAX,
                frame == pos / width,
                inside == pos % width,
                sample_bytes(signal.sample_at(frame, sample_rate)) == seq![lo, hi],
                forall|k: int|
                    0 <= k < before.len() ==> #[trigger] buf@[k] == if written <= k < done {
                        pcm_byte(*signal, sample_rate, channels, at + (k - written))
                    } else {
                        before[k]
                    },
            decreases n - j,
        {
            proof {
                assert(pos + j == frame * width + (inside + j)) by {
                    vstd::arithmetic::div_mod::lemma_fundamental_div_mod(pos as int, width as int);
                    assert(width * frame == frame * width) by (nonlinear_arith);
                }
                lemma_fundamental_div_mod_converse(
                    pos + j,
                    width as int,
                    frame as int,
                    inside + j,
                );
            }
            buf[done] = if (inside + j) % 2 == 0 {
                lo
            } else {
                hi
            };
            assert(buf@[done as int] == pcm_byte(
                *signal,
                sample_rate,
                channels,
                at + (done - written),
            ));
            done += 1;
            j += 1;
        }
        pos = pos + n;
    }
}

/// Audio source that computes WAV bytes on-the-fly from a [`SignalFn`].
///
/// No internal data buffer: each `read_at` call generates samples by
/// evaluating the signal function at the requested frame positions.
pub struct SignalSource<S: SignalFn> {
    signal: S,
    sample_rate: u32,
    channels: u16,
    header: [u8; 44],
    total_frames: Option<u64>,
}

impl<S: SignalFn> SignalSource<S> {
    #[verifier::type_invariant]
    spec fn well_formed(self) -> bool {
        &&& self.header@.len() == 44
        &&& self.total_frames matches Some(frames) ==> 44 + frames * self.channels * 2 <= u64::MAX
    }

    pub closed spec fn signal_of(&self) -> S {
        self.signal
    }

    pub closed spec fn rate(&self) -> u32 {
        self.sample_rate
    }

    pub closed spec fn channel_count(&self) -> u16 {
        self.channels
    }

    pub closed spec fn header_bytes(&self) -> Seq<u8> {
        self.header@
    }

    /// Total frames, or `None` for infinite sources.
    pub closed spec fn frames(&self) -> Option<u64> {
        self.total_frames
    }

    /// Total bytes, header and PCM, or `None` for infinite sources.
    pub open spec fn byte_len(&self) -> Option<u64> {
        match self.frames() {
            Some(frames) => Some((44 + frames * self.channel_count() * 2) as u64),
            None => None,
        }
    }

    /// Whether a finite source ends at or before `offset`.
    pub open spec fn ends_by(&self, offset: u64) -> bool {
        self.byte_len() matches Some(total) && total <= offset
    }

    /// Byte `pos` of the file.
    pub open spec fn byte_at(&self, pos: int) -> u8 {
        if pos < 44 {
            self.header_bytes()[pos]
        } else {
            pcm_byte(self.signal_of(), self.rate(), self.channel_count(), pos - 44)
        }
    }

    /// How many bytes a read of `len` bytes at `offset` delivers.
    pub open spec fn readable(&self, offset: u64, len: int) -> int {
        match self.byte_len() {
            Some(total) => if total <= offset {
                0
            } else if total - offset < len {
                total - offset
            } else {
                len
            },
            None => len,
        }
    }

    /// Create an infinite source (streaming WAV header, `len() = None`).
    #[must_use]
    pub fn infinite(signal: S, sample_rate: u32, channels: u16) -> (source: Self)
        requires
            header_fits(sample_rate, channels, None),
        ensures
            source.signal_of() == signal,
            source.rate() == sample_rate,
            source.channel_count() == channels,
            source.frames() is None,
            source.header_bytes() == wav_header(sample_rate, channels, None),
    {
        let header = build_wav_header(sample_rate, channels, None);
        SignalSource { signal, sample_rate, channels, header, total_frames: None }
    }

    /// Create a finite source of `total_frames` frames.
    #[must_use]
    pub fn finite(signal: S, sample_rate: u32, channels: u16, total_frames: u64) -> (source: Self)
        requires
            44 + total_frames * channels * 2 <= u64::MAX,
            header_fits(sample_rate, channels, Some((total_frames * channels * 2) as u64)),
        ensures
            source.signal_of() == signal,
            source.rate() == sample_rate,
            source.channel_count() == channels,
            source.frames() == Some(total_frames),
            source.header_bytes() == wav_header(
                sample_rate,
                channels,
                Some((total_frames * channels * 2) as u64),
            ),
    {
        assert(0 <= total_frames * channels <= total_frames * channels * 2) by (nonlinear_arith)
            requires
                total_frames >= 0,
                channels >= 0,
        ;
        let data_bytes: u64 = total_frames * (channels as u64) * 2;
        let header = build_wav_header(sample_rate, channels, Some(data_bytes));
        SignalSource { signal, sample_rate, channels, header, total_frames: Some(total_frames) }
    }

    /// The WAV header that the source begins with.
    pub fn header(&self) -> (header: [u8; 44])
        ensures
            header@ == self.header_bytes(),
    {
        self.header
    }

    /// Total byte length (header + PCM), or `None` for infinite sources.
    pub fn total_byte_len(&self) -> (len: Option<u64>)
        ensures
            len == self.byte_len(),
            len matches Some(len) ==> len >= 44,
    {
        proof {
            use_type_invariant(self);
        }
        match self.total_frames {
            Some(frames) => {
                assert(0 <= frames * self.channels <= frames * self.channels * 2)
                    by (nonlinear_arith)
                    requires
                        frames >= 0,
                        self.channels >= 0,
                ;
                Some(HEADER_SIZE + frames * (self.channels as u64) * 2)
            },
            None => None,
        }
    }

    /// Check whether `offset` is past EOF for finite sources.
    pub fn is_past_eof(&self, offset: u64) -> (past: bool)
        ensures
            past == self.ends_by(offset),
    {
        match self.total_byte_len() {
            Some(total) => offset >= total,
            None => false,
        }
    }

    /// Whether a range has something to read: ready, unless a finite source
    /// has ended.
    pub fn wait_range(&mut self, range: Range<u64>) -> (outcome: Result<
        WaitOutcome,
        SignalSourceError,
    >)
        ensures
            *final(self) == *old(self),
            outcome == Ok::<WaitOutcome, SignalSourceError>(
                if old(self).ends_by(range.start) {
                    WaitOutcome::Eof
                } else {
                    WaitOutcome::Ready
                },
            ),
    {
        if self.is_past_eof(range.start) {
            Ok(WaitOutcome::Eof)
        } else {
            Ok(WaitOutcome::Ready)
        }
    }

    /// Fill `buf` with the bytes of the file from `offset` on, as far as a
    /// finite source reaches. PCM can be read of one to sixteen channels, and
    /// up to the last offset that there is.
    pub fn read_at(&mut self, offset: u64, buf: &mut [u8]) -> (outcome: Result<
        ReadOutcome,
        SignalSourceError,
    >)
        requires
            offset + old(self).readable(offset, old(buf)@.len() as int) <= u64::MAX,
            offset + old(self).readable(offset, old(buf)@.len() as int) > 44 ==> 1 <= old(
                self,
            ).channel_count() <= 16,
        ensures
            *final(self) == *old(self),
            outcome == Ok::<ReadOutcome, SignalSourceError>(
                ReadOutcome::Data(
                    old(self).readable(offset, old(buf)@.len() as int) as usize,
                ),
            ),
            final(buf)@.len() == old(buf)@.len(),
            forall|k: int|
                0 <= k < old(buf)@.len() ==> #[trigger] final(buf)@[k] == if k < old(self).readable(
                    offset,
                    old(buf)@.len() as int,
                ) {
                    old(self).byte_at(offset + k)
                } else {
                    old(buf)@[k]
                },
    {
        let len: usize = buf.len();
        let count: usize = match self.total_byte_len() {
            Some(total) => if total <= offset {
                0
            } else if total - offset < len as u64 {
                (total - offset) as usize
            } else {
                len
            },
            None => len,
        };
        if count == 0 {
            return Ok(ReadOutcome::Data(0));
        }
        proof {
            use_type_invariant(&*self);
        }
        let ghost before = buf@;
        let mut written: usize = 0;
        // Serve bytes from the WAV header.
        while written < count && offset + (written as u64) < HEADER_SIZE
            invariant
                written <= count <= buf@.len(),
                buf@.len() == before.len(),
                self.header@.len() == 44,
                offset + count <= u64::MAX,
                written > 0 ==> offset + written <= 44,
                forall|k: int|
                    0 <= k < before.len() ==> #[trigger] buf@[k] == if k < written {
                        self.byte_at(offset + k)
                    } else {
                        before[k]
                    },
            decreases count - written,
        {
            buf[written] = self.header[(offset + written as u64) as usize];
            written += 1;
        }
        // Generate PCM on-the-fly.
        if written < count {
            let at: u64 = offset + (written as u64) - HEADER_SIZE;
            fill_pcm(
                &self.signal,
                self.sample_rate,
                self.channels,
                buf,
                written,
                count,
                at,
            );
        }
        Ok(ReadOutcome::Data(count))
    }

    /// Where a range stands: ready, unless a finite source has ended.
    pub fn phase_at(&self, range: Range<u64>) -> (phase: SourcePhase)
        ensures
            phase == if self.ends_by(range.start) {
                SourcePhase::Eof
            } else {
                SourcePhase::Ready
            },
    {
        if self.is_past_eof(range.start) {
            SourcePhase::Eof
        } else {
            SourcePhase::Ready
        }
    }

    pub fn len(&self) -> (len: Option<u64>)
        ensures
            len == self.byte_len(),
    {
        self.total_byte_len()
    }

    pub fn media_info(&self) -> (info: Option<MediaInfo>)
        ensures
            info == Some(
                MediaInfo {
                    channels: Some(self.channel_count()),
                    codec: Some(AudioCodec::Pcm),
                    container: Some(ContainerFormat::Wav),
                    sample_rate: Some(self.rate()),
                },
            ),
    {
        Some(
            MediaInfo {
                channels: Some(self.channels),
                codec: Some(AudioCodec::Pcm),
                container: Some(ContainerFormat::Wav),
                sample_rate: Some(self.sample_rate),
            },
        )
    }
}

/// Configuration for a stream over a [`SignalSource`].
pub struct SignalStreamConfig<S: SignalFn> {
    pub source: Option<SignalSource<S>>,
}

impl<S: SignalFn> Default for SignalStreamConfig<S> {
    fn default() -> (config: Self)
        ensures
            config.source is None,
    {
        SignalStreamConfig { source: None }
    }
}

/// Stream marker for [`SignalSource`].
pub struct SignalStream<S: SignalFn>(core::marker::PhantomData<S>);

impl<S: SignalFn> SignalStream<S> {
    /// The source a stream is created over.
    ///
    /// # Errors
    /// A message, where the configuration holds no source.
    pub fn create(config: SignalStreamConfig<S>) -> (source: Result<
        SignalSource<S>,
        String,
    >)
        ensures
            match config.source {
                Some(held) => source == Ok::<SignalSource<S>, String>(held),
                None => source matches Err(message) && message@ == "no source"@,
            },
    {
        match config.source {
            Some(held) => Ok(held),
            None => Err(String::from_str("no source")),
        }
    }
}

/// Two reads that follow one another deliver what one read over both does.
pub proof fn law_reads_join<S: SignalFn>(
    source: SignalSource<S>,
    offset: u64,
    first: int,
    second: int,
)
    requires
        0 <= first,
        0 <= second,
        offset + first <= u64::MAX,
        source.byte_len() matches Some(total) ==> offset + first <= total,
    ensures
        source.readable(offset, first) == first,
        source.readable(offset, first + second) == first + source.readable(
            (offset + first) as u64,
            second,
        ),
{
}

/// Every channel of a frame carries the same sample.
pub proof fn law_channels_carry_the_same_sample<S: SignalFn>(
    source: SignalSource<S>,
    frame: int,
    channel: int,
    half: int,
)
    requires
        0 <= frame <= u64::MAX,
        0 <= channel < source.channel_count(),
        0 <= half < 2,
    ensures
        source.byte_at(44 + frame * (source.channel_count() * 2) + channel * 2 + half)
            == sample_bytes(source.signal_of().sample_at(frame as u64, source.rate()))[half],
{
    let width = source.channel_count() * 2;
    let i = frame * width + (channel * 2 + half);
    lemma_fundamental_div_mod_converse(i, width, frame, channel * 2 + half);
    assert(frame * width >= 0) by (nonlinear_arith)
        requires
            frame >= 0,
            width >= 0,
    ;
}

/// The ascending wave climbs by one a frame from the lowest sample, and falls
/// back to it from the highest, at any rate.
pub proof fn law_the_sawtooth_climbs(frame: u64, rate: u32, other: u32)
    requires
        frame < u64::MAX,
    ensures
        Sawtooth.sample_at(0, rate) == i16::MIN,
        Sawtooth.sample_at((frame + 1) as u64, rate) == if Sawtooth.sample_at(frame, rate)
            == i16::MAX {
            i16::MIN as int
        } else {
            Sawtooth.sample_at(frame, rate) + 1
        },
        Sawtooth.sample_at(frame, other) == Sawtooth.sample_at(frame, rate),
{
}

/// The descending wave is the ascending one turned over: the two add up to the
/// same number on every frame, and it begins with the highest sample.
pub proof fn law_the_descending_wave_mirrors_the_ascending(frame: u64, rate: u32, other: u32)
    requires
        frame < u64::MAX,
    ensures
        SawtoothDescending.sample_at(0, rate) == i16::MAX,
        Sawtooth.sample_at(frame, rate) + SawtoothDescending.sample_at(frame, rate) == i16::MIN
            + i16::MAX,
        SawtoothDescending.sample_at((frame + 1) as u64, rate) == if SawtoothDescending.sample_at(
            frame,
            rate,
        ) == i16::MIN {
            i16::MAX as int
        } else {
            SawtoothDescending.sample_at(frame, rate) - 1
        },
        SawtoothDescending.sample_at(frame, other) == SawtoothDescending.sample_at(frame, rate),
{
}

/// Silence is what it is turned over: every sample is its own opposite.
pub proof fn law_silence_is_its_own_opposite(frame: u64, rate: u32)
    ensures
        Silence.sample_at(frame, rate) == -Silence.sample_at(frame, rate),
{
}

/// A finite source reads as the WAV file of its signal does, byte for byte, and
/// is as long.
pub proof fn law_a_source_reads_as_its_file<S: SignalFn>(
    source: SignalSource<S>,
    frames: u64,
    pos: int,
)
    requires
        source.frames() == Some(frames),
        source.channel_count() > 0,
        44 + frames * source.channel_count() * 2 <= u64::MAX,
        source.header_bytes() == wav_header(
            source.rate(),
            source.channel_count(),
            Some((frames * source.channel_count() * 2) as u64),
        ),
    ensures
        ({
            let file = wav_file(source.signal_of(), source.rate(), source.channel_count(), frames);
            &&& source.byte_len() == Some(file.len() as u64)
            &&& 0 <= pos < file.len() ==> source.byte_at(pos) == file[pos]
        }),
{
    let channels = source.channel_count();
    let width = channels * 2;
    let file = wav_file(source.signal_of(), source.rate(), channels, frames);
    law_file_length(source.signal_of(), source.rate(), channels, frames);
    law_header_length(source.rate(), channels, Some((frames * channels * 2) as u64));
    if 44 <= pos < file.len() {
        let i = pos - 44;
        lemma_even_width(i, channels as int);
    }
}

/// A frame has an even number of bytes, so which of its two bytes a sample's is
/// does not depend on the frame.
proof fn lemma_even_width(i: int, channels: int)
    requires
        channels > 0,
    ensures
        i % (channels * 2) % 2 == i % 2,
{
    let width = channels * 2;
    vstd::arithmetic::div_mod::lemma_fundamental_div_mod(i, width);
    let q = i / width;
    assert(width * q == 2 * (channels * q)) by (nonlinear_arith)
        requires
            width == channels * 2,
    ;
}

/// A read delivers what it asks for as far as the source goes, and never past
/// its end.
pub proof fn law_a_read_stops_at_the_end<S: SignalFn>(
    source: SignalSource<S>,
    offset: u64,
    len: int,
)
    requires
        len >= 0,
    ensures
        0 <= source.readable(offset, len) <= len,
        source.byte_len() is None ==> source.readable(offset, len) == len && !source.ends_by(offset),
        source.byte_len() matches Some(total) ==> {
            &&& source.readable(offset, len) > 0 ==> offset + source.readable(offset, len) <= total
            &&& source.readable(offset, len) < len ==> offset + source.readable(offset, len)
                >= total
            &&& source.ends_by(offset) <==> source.readable(offset, 1) == 0
        },
{
}

} // verus!
