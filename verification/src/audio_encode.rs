//! What an encoder is asked for, and what it is fed.

use crate::bytes::law_a_sample_reads_back;
use crate::hex_text::{hex_number, push_hex};
use crate::signal_pcm::{SignalLength, SignalPcm};
use crate::signal_source::{pcm_byte, SignalFn};
use crate::signal_url::SignalFormat;
use crate::text::{
    after_prefix, before_char, decimal, law_a_prefix_and_the_rest_make_the_text,
    law_decimal_is_parsed_back, lemma_decimal_digits, lemma_position, parsed, push_decimal,
};
use vstd::arithmetic::div_mod::lemma_fundamental_div_mod_converse;
use vstd::prelude::*;
use vstd::string::*;

verus! {

/// The frames that the encoder is fed at a time.
pub const CHUNK_FRAMES: u64 = 1024;

/// An encoded signal.
#[derive(Debug)]
pub struct EncodedAudio {
    pub bytes: Vec<u8>,
    pub content_type: &'static str,
}

/// Why a signal was not encoded.
#[derive(Debug)]
pub enum SignalEncodeError {
    UnsupportedLength(&'static str),
    Init(String),
    MissingOutputCodec(&'static str),
    MissingEncoder(&'static str),
    Io(String),
    Ffmpeg(String),
}

impl SignalEncodeError {
    /// Whether it was the request that could not be met.
    pub fn is_bad_request(&self) -> (bad: bool)
        ensures
            bad == (self is UnsupportedLength),
    {
        match self {
            SignalEncodeError::UnsupportedLength(_) => true,
            _ => false,
        }
    }

    /// The text around what an error names.
    pub open spec fn text(&self) -> Seq<char> {
        match self {
            SignalEncodeError::UnsupportedLength(ext) => {
                "signal length mode is not supported for `"@ + ext@ + "`"@
            },
            SignalEncodeError::Init(reason) => "ffmpeg initialization failed: "@ + reason@,
            SignalEncodeError::MissingOutputCodec(ext) => {
                "no output codec is registered for `"@ + ext@ + "`"@
            },
            SignalEncodeError::MissingEncoder(ext) => {
                "no encoder is available for `"@ + ext@ + "`"@
            },
            SignalEncodeError::Io(reason) => {
                "failed to access encoded signal artifact: "@ + reason@
            },
            SignalEncodeError::Ffmpeg(reason) => "ffmpeg encode failed: "@ + reason@,
        }
    }

    pub fn message(&self) -> (message: String)
        ensures
            message@ == self.text(),
    {
        match self {
            SignalEncodeError::UnsupportedLength(ext) => {
                let mut message = String::from_str("signal length mode is not supported for `");
                message.append(ext);
                message.append("`");
                message
            },
            SignalEncodeError::Init(reason) => {
                let mut message = String::from_str("ffmpeg initialization failed: ");
                message.append(reason.as_str());
                message
            },
            SignalEncodeError::MissingOutputCodec(ext) => {
                let mut message = String::from_str("no output codec is registered for `");
                message.append(ext);
                message.append("`");
                message
            },
            SignalEncodeError::MissingEncoder(ext) => {
                let mut message = String::from_str("no encoder is available for `");
                message.append(ext);
                message.append("`");
                message
            },
            SignalEncodeError::Io(reason) => {
                let mut message = String::from_str("failed to access encoded signal artifact: ");
                message.append(reason.as_str());
                message
            },
            SignalEncodeError::Ffmpeg(reason) => {
                let mut message = String::from_str("ffmpeg encode failed: ");
                message.append(reason.as_str());
                message
            },
        }
    }
}

/// What an encoder is asked for.
#[derive(Debug)]
pub struct EncodeTarget {
    pub ext: &'static str,
    pub mime: &'static str,
    pub bit_rate: Option<usize>,
    pub option_pairs: Vec<(&'static str, &'static str)>,
}

/// The media type of a format.
pub open spec fn mime_of(format: SignalFormat) -> Seq<char> {
    match format {
        SignalFormat::Wav => "audio/wav"@,
        SignalFormat::Mp3 => "audio/mpeg"@,
        SignalFormat::Flac => "audio/flac"@,
        SignalFormat::Aac => "audio/aac"@,
        SignalFormat::M4a => "audio/mp4"@,
    }
}

impl EncodeTarget {
    /// Whether this is what an encoder for `format` is asked for: a lossy one
    /// for 128 kbit/s, the lossless one for its usual compression.
    pub open spec fn is_for(&self, format: SignalFormat) -> bool {
        &&& self.ext@ == format.ext()
        &&& self.mime@ == mime_of(format)
        &&& self.bit_rate == if format == SignalFormat::Flac {
            None
        } else {
            Some(128_000usize)
        }
        &&& self.option_pairs@.len() == 1
        &&& self.option_pairs@[0].0@ == if format == SignalFormat::Flac {
            "compression_level"@
        } else {
            "b"@
        }
        &&& self.option_pairs@[0].1@ == if format == SignalFormat::Flac {
            "5"@
        } else {
            "128k"@
        }
    }

    /// What an encoder for `format` is asked for. WAV needs none.
    pub fn from_format(format: SignalFormat) -> (target: Self)
        requires
            format != SignalFormat::Wav,
        ensures
            target.is_for(format),
    {
        let lossless: bool = format == SignalFormat::Flac;
        let mime: &'static str = match format {
            SignalFormat::Mp3 => "audio/mpeg",
            SignalFormat::Flac => "audio/flac",
            SignalFormat::Aac => "audio/aac",
            _ => "audio/mp4",
        };
        let mut option_pairs: Vec<(&'static str, &'static str)> = Vec::new();
        option_pairs.push(
            if lossless {
                ("compression_level", "5")
            } else {
                ("b", "128k")
            },
        );
        EncodeTarget {
            ext: format.path_ext(),
            mime,
            bit_rate: if lossless {
                None
            } else {
                Some(128_000)
            },
            option_pairs,
        }
    }

    /// What an encoder is asked for to encode a signal of this length.
    ///
    /// # Errors
    /// [`SignalEncodeError::UnsupportedLength`] for a signal without end.
    pub fn for_signal(length: SignalLength, format: SignalFormat) -> (target: Result<
        Self,
        SignalEncodeError,
    >)
        requires
            format != SignalFormat::Wav,
        ensures
            match target {
                Ok(target) => length is Finite && target.is_for(format),
                Err(error) => length is Infinite && (
                error matches SignalEncodeError::UnsupportedLength(ext) && ext@ == format.ext()),
            },
    {
        match length {
            SignalLength::Finite { .. } => Ok(EncodeTarget::from_format(format)),
            SignalLength::Infinite => Err(
                SignalEncodeError::UnsupportedLength(format.path_ext()),
            ),
        }
    }

    /// The name of the file that is encoded into.
    pub fn file_name(&self) -> (name: String)
        ensures
            name@ == "signal."@ + self.ext@,
    {
        let mut name = String::from_str("signal.");
        name.append(self.ext);
        name
    }
}

/// What the encoder is fed at a time.
#[derive(Debug)]
pub struct PcmBlock {
    pub bytes: Vec<u8>,
    pub frames: usize,
    /// The number of its first frame.
    pub pts: u64,
}

impl PcmBlock {
    /// Whether this is the block of a signal from frame `pts` on.
    pub open spec fn is_block_of<S: SignalFn>(&self, pcm: SignalPcm<S>, pts: u64) -> bool {
        &&& self.pts == pts
        &&& self.frames == block_frames(pcm.length_of(), pts as int)
        &&& self.bytes@.len() == self.frames * pcm.channel_count() * 2
        &&& forall|k: int|
            0 <= k < self.bytes@.len() ==> #[trigger] self.bytes@[k] == pcm_byte(
                pcm.signal_of(),
                pcm.rate(),
                pcm.channel_count(),
                pts * pcm.channel_count() * 2 + k,
            )
    }
}

/// How far a signal has been fed.
#[derive(Clone, Copy, Debug, PartialEq, Eq, Structural)]
pub struct FeedCursor {
    pub pts: u64,
}

/// The frames of the block from `pts` on.
pub open spec fn block_frames(length: SignalLength, pts: int) -> int {
    match length {
        SignalLength::Finite { total_frames } => if total_frames <= pts {
            0
        } else if total_frames - pts < 1024 {
            total_frames - pts
        } else {
            1024
        },
        SignalLength::Infinite => 0,
    }
}

impl FeedCursor {
    pub fn new() -> (cursor: Self)
        ensures
            cursor.pts == 0,
    {
        FeedCursor { pts: 0 }
    }

    /// The next block of a finite signal: up to 1024 frames, none once all have
    /// been fed. A signal without end has none.
    pub fn next_block<S: SignalFn>(&mut self, pcm: &SignalPcm<S>) -> (block: Option<PcmBlock>)
        requires
            pcm.channel_count() > 0,
        ensures
            final(self).pts == old(self).pts + block_frames(pcm.length_of(), old(self).pts as int),
            block is Some <==> block_frames(pcm.length_of(), old(self).pts as int) > 0,
            block matches Some(block) ==> block.is_block_of(*pcm, old(self).pts),
    {
        let total: u64 = match pcm.length() {
            SignalLength::Finite { total_frames } => total_frames,
            SignalLength::Infinite => return None,
        };
        let pts: u64 = self.pts;
        if total <= pts {
            return None;
        }
        let frames: u64 = if total - pts < CHUNK_FRAMES {
            total - pts
        } else {
            CHUNK_FRAMES
        };
        let width: u64 = (pcm.channels() as u64) * 2;
        proof {
            let channels = pcm.channel_count() as int;
            assert(total * channels * 2 == total * (width as int) && pts * channels * 2 == pts * (
            width as int) && frames * channels * 2 == frames * (width as int))
                by (nonlinear_arith)
                requires
                    width == channels * 2,
            ;
            assert(0 <= pts * (width as int) && 0 <= frames * (width as int) && pts * (
            width as int) + frames * (width as int) <= total * (width as int)) by (nonlinear_arith)
                requires
                    0 <= pts,
                    0 <= frames,
                    pts + frames <= total,
                    0 <= width,
            ;
            assert(frames * (width as int) <= 1024 * 131_070) by (nonlinear_arith)
                requires
                    0 <= frames <= 1024,
                    0 <= width <= 131_070,
            ;
        }
        let offset: u64 = pts * width;
        let len: usize = (frames * width) as usize;
        let mut bytes: Vec<u8> = Vec::new();
        bytes.resize(len, 0);
        let count: usize = pcm.read_pcm_at(offset, bytes.as_mut_slice());
        self.pts = pts + frames;
        Some(PcmBlock { bytes, frames: frames as usize, pts })
    }
}

/// What an encoder says of itself before it is set up. `F` names a sample
/// format.
pub struct CodecFacts<F> {
    /// Whether there is an encoder for the file's codec.
    pub found: bool,
    /// Whether it takes audio.
    pub takes_audio: bool,
    /// Whether the container wants its headers up front.
    pub global_header: bool,
    /// The layout it likes best for the input, where it names any.
    pub best_layout: Option<u64>,
    /// The first of the formats it takes, where it names any.
    pub first_format: Option<F>,
}

/// What an encoder is set up with.
#[derive(Debug)]
pub struct EncoderSettings<F> {
    pub rate: u32,
    pub layout: u64,
    pub format: F,
    pub bit_rate: Option<usize>,
    pub global_header: bool,
}

/// The bits of a stereo layout: front left and front right.
pub const STEREO_LAYOUT: u64 = 3;

impl<F> EncoderSettings<F> {
    /// Set an encoder up for `target`: in stereo where it names no layout, and
    /// in the first of its formats.
    ///
    /// # Errors
    /// Where there is no encoder, where it does not take audio, or where it
    /// names no format.
    pub fn choose_for(target: &EncodeTarget, sample_rate: u32, facts: CodecFacts<F>) -> (settings:
        Result<Self, SignalEncodeError>)
        ensures
            match settings {
                Ok(settings) => {
                    &&& facts.found && facts.takes_audio
                    &&& facts.first_format == Some(settings.format)
                    &&& settings.rate == sample_rate
                    &&& settings.layout == match facts.best_layout {
                        Some(layout) => layout,
                        None => STEREO_LAYOUT,
                    }
                    &&& settings.bit_rate == target.bit_rate
                    &&& settings.global_header == facts.global_header
                },
                Err(SignalEncodeError::MissingOutputCodec(ext)) => !facts.found && ext@
                    == target.ext@,
                Err(SignalEncodeError::MissingEncoder(ext)) => facts.found && !facts.takes_audio
                    && ext@ == target.ext@,
                Err(SignalEncodeError::Ffmpeg(reason)) => {
                    &&& facts.found && facts.takes_audio && facts.first_format is None
                    &&& reason@ == "Invalid data found when processing input"@
                },
                Err(_) => false,
            },
    {
        if !facts.found {
            return Err(SignalEncodeError::MissingOutputCodec(target.ext));
        }
        if !facts.takes_audio {
            return Err(SignalEncodeError::MissingEncoder(target.ext));
        }
        let format = match facts.first_format {
            Some(format) => format,
            None => return Err(
                SignalEncodeError::Ffmpeg(
                    String::from_str("Invalid data found when processing input"),
                ),
            ),
        };
        Ok(
            EncoderSettings {
                rate: sample_rate,
                layout: match facts.best_layout {
                    Some(layout) => layout,
                    None => STEREO_LAYOUT,
                },
                format,
                bit_rate: target.bit_rate,
                global_header: facts.global_header,
            },
        )
    }
}

/// Whether the sink of a filter graph is told the encoder's frame size: where
/// the codec is known and does not take frames of any size.
pub fn needs_frame_size(takes_any_size: Option<bool>) -> (needed: bool)
    ensures
        needed == (takes_any_size == Some(false)),
{
    match takes_any_size {
        Some(any) => !any,
        None => false,
    }
}

/// What is done next to encode a signal.
#[derive(Debug)]
pub enum EncodeStep {
    WriteHeader,
    /// Send a block through the filter, and what comes out to the encoder.
    Feed(PcmBlock),
    /// Flush the filter, and send what comes out to the encoder.
    FlushFilter,
    /// Tell the encoder that no more follows, and write what it still has.
    EndEncoder,
    WriteTrailer,
    Finished,
}

/// How far the encoding of a signal has come.
#[derive(Clone, Copy, Debug, PartialEq, Eq, Structural)]
pub enum EncodeStage {
    Header,
    Feed,
    Drain,
    Trailer,
    Finished,
}

/// The encoding of a signal, step by step: the header, the signal block by
/// block, what the filter and then the encoder still hold, and the trailer.
#[derive(Clone, Copy, Debug, PartialEq, Eq, Structural)]
pub struct EncodePlan {
    pub stage: EncodeStage,
    pub cursor: FeedCursor,
}

impl EncodePlan {
    pub fn new() -> (plan: Self)
        ensures
            plan == (EncodePlan { stage: EncodeStage::Header, cursor: FeedCursor { pts: 0 } }),
    {
        EncodePlan { stage: EncodeStage::Header, cursor: FeedCursor::new() }
    }

    /// The next step.
    pub fn next_step<S: SignalFn>(&mut self, pcm: &SignalPcm<S>) -> (step: EncodeStep)
        ensures
            match old(self).stage {
                EncodeStage::Header => {
                    &&& step is WriteHeader
                    &&& *final(self) == (EncodePlan { stage: EncodeStage::Feed, ..*old(self) })
                },
                EncodeStage::Feed => {
                    let frames = if pcm.channel_count() == 0 {
                        0
                    } else {
                        block_frames(pcm.length_of(), old(self).cursor.pts as int)
                    };
                    &&& frames == 0 ==> {
                        &&& step is FlushFilter
                        &&& *final(self) == (EncodePlan { stage: EncodeStage::Drain, ..*old(self) })
                    }
                    &&& frames > 0 ==> {
                        &&& final(self).stage == EncodeStage::Feed
                        &&& final(self).cursor.pts == old(self).cursor.pts + frames
                        &&& step matches EncodeStep::Feed(block) && block.is_block_of(
                            *pcm,
                            old(self).cursor.pts,
                        )
                    }
                },
                EncodeStage::Drain => {
                    &&& step is EndEncoder
                    &&& *final(self) == (EncodePlan { stage: EncodeStage::Trailer, ..*old(self) })
                },
                EncodeStage::Trailer => {
                    &&& step is WriteTrailer
                    &&& *final(self) == (EncodePlan { stage: EncodeStage::Finished, ..*old(self) })
                },
                EncodeStage::Finished => step is Finished && *final(self) == *old(self),
            },
    {
        match self.stage {
            EncodeStage::Header => {
                self.stage = EncodeStage::Feed;
                EncodeStep::WriteHeader
            },
            EncodeStage::Feed => {
                if pcm.channels() > 0 {
                    if let Some(block) = self.cursor.next_block(pcm) {
                        return EncodeStep::Feed(block);
                    }
                }
                self.stage = EncodeStage::Drain;
                EncodeStep::FlushFilter
            },
            EncodeStage::Drain => {
                self.stage = EncodeStage::Trailer;
                EncodeStep::EndEncoder
            },
            EncodeStage::Trailer => {
                self.stage = EncodeStage::Finished;
                EncodeStep::WriteTrailer
            },
            EncodeStage::Finished => EncodeStep::Finished,
        }
    }
}

/// What the source of a filter graph is told of its input.
pub open spec fn source_args(sample_rate: nat, sample_fmt: Seq<char>, layout: nat) -> Seq<char> {
    "time_base=1/"@ + decimal(sample_rate) + ":sample_rate="@ + decimal(sample_rate)
        + ":sample_fmt="@ + sample_fmt + ":channel_layout=0x"@ + hex_number(layout)
}

/// What the source of a filter graph is told of its input.
pub fn build_source_args(sample_rate: u32, sample_fmt: &str, layout: u64) -> (args: String)
    ensures
        args@ == source_args(sample_rate as nat, sample_fmt@, layout as nat),
{
    let mut args = String::from_str("time_base=1/");
    push_decimal(&mut args, sample_rate as u64);
    args.append(":sample_rate=");
    push_decimal(&mut args, sample_rate as u64);
    args.append(":sample_fmt=");
    args.append(sample_fmt);
    args.append(":channel_layout=0x");
    push_hex(&mut args, layout);
    args
}

/// What a filter graph converts to: what the encoder takes.
pub open spec fn format_args_of(sample_rate: nat, sample_fmt: Seq<char>, layout: nat) -> Seq<char> {
    "aformat=sample_fmts="@ + sample_fmt + ":sample_rates="@ + decimal(sample_rate)
        + ":channel_layouts=0x"@ + hex_number(layout)
}

/// What a filter graph converts to: what the encoder takes.
pub fn build_format_args(sample_rate: u32, sample_fmt: &str, layout: u64) -> (args: String)
    ensures
        args@ == format_args_of(sample_rate as nat, sample_fmt@, layout as nat),
{
    let mut args = String::from_str("aformat=sample_fmts=");
    args.append(sample_fmt);
    args.append(":sample_rates=");
    push_decimal(&mut args, sample_rate as u64);
    args.append(":channel_layouts=0x");
    push_hex(&mut args, layout);
    args
}

/// The blocks of a finite signal tile it: from any frame that a block begins
/// with, the next one begins where it ends, and there is one until all frames
/// have been fed.
pub proof fn law_blocks_tile_the_signal(total_frames: u64, pts: int)
    requires
        0 <= pts <= total_frames,
    ensures
        block_frames(SignalLength::Finite { total_frames }, pts) == 0 <==> pts == total_frames,
        pts + block_frames(SignalLength::Finite { total_frames }, pts) <= total_frames,
        block_frames(SignalLength::Finite { total_frames }, pts) <= 1024,
{
}

/// Only the last block is short: every other one is as long as the encoder is
/// fed at a time, and a signal without end has none.
pub proof fn law_only_the_last_block_is_short(total_frames: u64, pts: int)
    requires
        0 <= pts < total_frames,
    ensures
        ({
            let frames = block_frames(SignalLength::Finite { total_frames }, pts);
            &&& frames > 0
            &&& pts + frames < total_frames ==> frames == 1024
        }),
        block_frames(SignalLength::Infinite, pts) == 0,
{
}

/// The samples of a block read back: those of the frames from its position on,
/// the same on every channel, with the low byte first.
#[verifier::rlimit(60)]
pub proof fn law_a_block_reads_back<S: SignalFn>(
    block: PcmBlock,
    pcm: SignalPcm<S>,
    pts: u64,
    frame: int,
    channel: int,
)
    requires
        block.is_block_of(pcm, pts),
        0 <= frame < block.frames,
        0 <= channel < pcm.channel_count(),
        pts + frame <= u64::MAX,
    ensures
        ({
            let at = (frame * pcm.channel_count() + channel) * 2;
            let n = block.bytes@[at] + 256 * block.bytes@[at + 1];
            &&& 0 <= at
            &&& at + 1 < block.bytes@.len()
            &&& pcm.signal_of().sample_at((pts + frame) as u64, pcm.rate()) == if n < 0x8000 {
                n
            } else {
                n - 0x1_0000
            }
        }),
{
    let channels = pcm.channel_count() as int;
    let width = channels * 2;
    let at = (frame * channels + channel) * 2;
    let offset = pts * channels * 2;
    assert(at == frame * width + channel * 2 && frame * width >= 0 && frame * width + width
        <= block.frames * channels * 2 && offset + at == (pts + frame) * width + channel * 2)
        by (nonlinear_arith)
        requires
            at == (frame * channels + channel) * 2,
            width == channels * 2,
            offset == pts * channels * 2,
            0 <= frame < block.frames,
            channels > 0,
    ;
    lemma_fundamental_div_mod_converse(offset + at, width, pts + frame, channel * 2);
    lemma_fundamental_div_mod_converse(offset + (at + 1), width, pts + frame, channel * 2 + 1);
    assert((channel * 2) % 2 == 0 && (channel * 2 + 1) % 2 == 1);
    law_a_sample_reads_back(pcm.signal_of().sample_at((pts + frame) as u64, pcm.rate()));
}

/// No two formats share a type, and only the lossless one is asked for without a
/// bit rate.
#[verifier::rlimit(60)]
pub proof fn law_every_format_has_its_own_type(
    format: SignalFormat,
    other: SignalFormat,
    target: EncodeTarget,
)
    ensures
        mime_of(format) == mime_of(other) ==> format == other,
        "audio/"@.is_prefix_of(mime_of(format)),
        target.is_for(format) && target.is_for(other) ==> format == other,
        target.is_for(format) ==> (target.bit_rate is None <==> format == SignalFormat::Flac),
{
    reveal_strlit("audio/");
    reveal_strlit("audio/wav");
    reveal_strlit("audio/mpeg");
    reveal_strlit("audio/flac");
    reveal_strlit("audio/aac");
    reveal_strlit("audio/mp4");
    let mime = mime_of(format);
    assert(mime.subrange(0, 6) =~= "audio/"@);
    if mime == mime_of(other) {
        assert(mime[6] == mime_of(other)[6]);
        assert(mime.len() == mime_of(other).len());
        assert(mime[8] == mime_of(other)[8]);
    }
}

/// The rate that a filter graph is told of its input reads back, as its time
/// base and as its rate; what comes last is the channel layout.
#[verifier::rlimit(60)]
pub proof fn law_a_source_is_told_its_rate(sample_rate: u32, sample_fmt: Seq<char>, layout: nat)
    ensures
        ({
            let args = source_args(sample_rate as nat, sample_fmt, layout);
            let base = "time_base=1/"@;
            let rate = ":sample_rate="@;
            let digits = decimal(sample_rate as nat);
            &&& after_prefix(args, base) matches Some(rest) && {
                &&& parsed(before_char(rest, ':'), u32::MAX as int) == Some(sample_rate as int)
                &&& after_prefix(rest, digits + rate) matches Some(behind) && parsed(
                    before_char(behind, ':'),
                    u32::MAX as int,
                ) == Some(sample_rate as int)
            }
            &&& (":channel_layout=0x"@ + hex_number(layout)).is_suffix_of(args)
        }),
{
    reveal_strlit(":sample_rate=");
    reveal_strlit(":sample_fmt=");
    let args = source_args(sample_rate as nat, sample_fmt, layout);
    let digits = decimal(sample_rate as nat);
    let layouts = ":channel_layout=0x"@ + hex_number(layout);
    let tail = ":sample_fmt="@ + sample_fmt + layouts;
    let behind = digits + tail;
    let next = ":sample_rate="@ + behind;
    let rest = digits + next;
    assert(tail[0] == ':');
    assert(next[0] == ':');
    lemma_leading_number(sample_rate, tail);
    lemma_leading_number(sample_rate, next);
    assert(args =~= "time_base=1/"@ + rest);
    law_a_prefix_and_the_rest_make_the_text("time_base=1/"@, rest, args);
    assert(rest =~= (digits + ":sample_rate="@) + behind);
    law_a_prefix_and_the_rest_make_the_text(digits + ":sample_rate="@, behind, rest);
    assert(args.subrange(args.len() - layouts.len(), args.len() as int) =~= layouts);
}

/// The number that a text begins with, up to a colon.
proof fn lemma_leading_number(n: u32, tail: Seq<char>)
    requires
        tail.len() > 0,
        tail[0] == ':',
    ensures
        parsed(before_char(decimal(n as nat) + tail, ':'), u32::MAX as int) == Some(n as int),
{
    let digits = decimal(n as nat);
    let text = digits + tail;
    lemma_decimal_digits(n as nat);
    assert forall|i: int| 0 <= i < digits.len() implies text[i] != ':' by {
        assert(text[i] == digits[i]);
    }
    lemma_position(text, ':', digits.len() as int);
    assert(before_char(text, ':') =~= digits);
    law_decimal_is_parsed_back(n as nat, u32::MAX as int);
}

/// The rate that a filter graph converts to reads back behind the sample format;
/// what comes last is the channel layout.
#[verifier::rlimit(60)]
pub proof fn law_a_conversion_is_told_its_rate(sample_rate: u32, sample_fmt: Seq<char>, layout: nat)
    ensures
        ({
            let args = format_args_of(sample_rate as nat, sample_fmt, layout);
            &&& after_prefix(
                args,
                "aformat=sample_fmts="@ + sample_fmt + ":sample_rates="@,
            ) matches Some(rest) && parsed(before_char(rest, ':'), u32::MAX as int) == Some(
                sample_rate as int,
            )
            &&& (":channel_layouts=0x"@ + hex_number(layout)).is_suffix_of(args)
        }),
{
    reveal_strlit(":channel_layouts=0x");
    let args = format_args_of(sample_rate as nat, sample_fmt, layout);
    let digits = decimal(sample_rate as nat);
    let layouts = ":channel_layouts=0x"@ + hex_number(layout);
    let head = "aformat=sample_fmts="@ + sample_fmt + ":sample_rates="@;
    let rest = digits + layouts;
    assert(args =~= head + rest);
    law_a_prefix_and_the_rest_make_the_text(head, rest, args);
    assert(layouts[0] == ':');
    lemma_leading_number(sample_rate, layouts);
    assert(args.subrange(args.len() - layouts.len(), args.len() as int) =~= layouts);
}

/// A type is named by the extension, but for the two whose extension is not the
/// name of the format. A lossy format is asked for 128 kbit/s, in both places.
#[verifier::rlimit(60)]
pub proof fn law_a_target_agrees_with_its_format(format: SignalFormat, target: EncodeTarget)
    requires
        target.is_for(format),
    ensures
        target.ext@ == format.ext(),
        match format {
            SignalFormat::Mp3 => target.mime@ == "audio/mpeg"@,
            SignalFormat::M4a => target.mime@ == "audio/mp4"@,
            _ => target.mime@ == "audio/"@ + format.ext(),
        },
        target.bit_rate matches Some(rate) ==> {
            &&& rate == 128_000
            &&& target.option_pairs@[0].0@ == "b"@
            &&& target.option_pairs@[0].1@ == decimal(rate as nat / 1000) + "k"@
        },
        target.bit_rate is None ==> target.option_pairs@[0].0@ == "compression_level"@,
        target.option_pairs@.len() == 1,
{
    reveal_strlit("audio/");
    reveal_strlit("audio/wav");
    reveal_strlit("audio/flac");
    reveal_strlit("audio/aac");
    reveal_strlit("wav");
    reveal_strlit("flac");
    reveal_strlit("aac");
    reveal_strlit("128k");
    reveal_strlit("k");
    reveal_with_fuel(decimal, 4);
    assert(decimal(128) =~= seq!['1', '2', '8']);
    assert("128k"@ =~= decimal(128) + "k"@);
    assert("audio/wav"@ =~= "audio/"@ + "wav"@);
    assert("audio/flac"@ =~= "audio/"@ + "flac"@);
    assert("audio/aac"@ =~= "audio/"@ + "aac"@);
}

} // verus!
