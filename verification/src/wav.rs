//! WAV files of 16-bit PCM.

use crate::bytes::{
    law_a_sample_reads_back, law_bytes_read_back, le_bytes, le_value, lemma_byte_powers, low32, push_u16_le, push_u32_le,
    sample_bytes, sample_le, truncate_to_u32,
};
use crate::signal_source::{SignalFn, Sawtooth};
use vstd::arithmetic::div_mod::lemma_fundamental_div_mod_converse;
use vstd::prelude::*;

verus! {

/// The frames after which a sawtooth repeats.
pub const SAW_PERIOD: usize = 65_536;

/// The bytes of a WAV header.
pub const HEADER_SIZE: u64 = 44;

/// Whether a header can name `rate`, `channels` and the size of the data: the
/// bytes per second, the bytes per frame and the size of the file each fit
/// their field.
pub open spec fn header_fits(sample_rate: u32, channels: u16, data_size: Option<u64>) -> bool {
    &&& sample_rate * channels * 2 <= u32::MAX
    &&& channels * 2 <= u16::MAX
    &&& data_size matches Some(size) ==> low32(size as int) + 36 <= u32::MAX
}

/// A 44-byte PCM WAV header. A stream of no known size has the largest sizes
/// that the fields can hold.
pub open spec fn wav_header(sample_rate: u32, channels: u16, data_size: Option<u64>) -> Seq<u8> {
    let (file, data) = match data_size {
        Some(size) => (low32(size as int) + 36, low32(size as int)),
        None => (0xffff_ffffint, 0xffff_ffffint),
    };
    // "RIFF", "WAVE", "fmt ", "data"
    seq![0x52u8, 0x49, 0x46, 0x46] + le_bytes(file, 4) + seq![0x57u8, 0x41, 0x56, 0x45] + seq![
        0x66u8,
        0x6d,
        0x74,
        0x20,
    ] + le_bytes(16, 4) + le_bytes(1, 2) + le_bytes(channels as int, 2) + le_bytes(
        sample_rate as int,
        4,
    ) + le_bytes(sample_rate * channels * 2, 4) + le_bytes(channels * 2, 2) + le_bytes(16, 2)
        + seq![0x64u8, 0x61, 0x74, 0x61] + le_bytes(data, 4)
}

/// Append four bytes.
fn push_tag(out: &mut Vec<u8>, a: u8, b: u8, c: u8, d: u8)
    ensures
        final(out)@ == old(out)@ + seq![a, b, c, d],
{
    out.push(a);
    out.push(b);
    out.push(c);
    out.push(d);
    assert(out@ =~= old(out)@ + seq![a, b, c, d]);
}

/// Build a 44-byte PCM WAV header.
///
/// - `data_size = None`: streaming header (sizes = `0xFFFFFFFF`).
/// - `data_size = Some(n)`: standard header with real sizes.
#[must_use]
pub fn build_wav_header(sample_rate: u32, channels: u16, data_size: Option<u64>) -> (header: [u8; 44])
    requires
        header_fits(sample_rate, channels, data_size),
    ensures
        header@ == wav_header(sample_rate, channels, data_size),
{
    assert(0 <= sample_rate * channels <= sample_rate * channels * 2) by (nonlinear_arith)
        requires
            sample_rate >= 0,
            channels >= 0,
    ;
    let byte_rate: u32 = sample_rate * (channels as u32) * 2;
    let block_align: u16 = channels * 2;
    let (file_size, data_size_field): (u32, u32) = match data_size {
        Some(size) => {
            let low: u32 = truncate_to_u32(size);
            (low + 36, low)
        },
        None => (0xFFFF_FFFF, 0xFFFF_FFFF),
    };
    let mut buf: Vec<u8> = Vec::new();
    push_tag(&mut buf, 0x52, 0x49, 0x46, 0x46);
    push_u32_le(&mut buf, file_size);
    push_tag(&mut buf, 0x57, 0x41, 0x56, 0x45);
    push_tag(&mut buf, 0x66, 0x6d, 0x74, 0x20);
    push_u32_le(&mut buf, 16);
    push_u16_le(&mut buf, 1);
    push_u16_le(&mut buf, channels);
    push_u32_le(&mut buf, sample_rate);
    push_u32_le(&mut buf, byte_rate);
    push_u16_le(&mut buf, block_align);
    push_u16_le(&mut buf, 16);
    push_tag(&mut buf, 0x64, 0x61, 0x74, 0x61);
    push_u32_le(&mut buf, data_size_field);
    assert(buf@ =~= wav_header(sample_rate, channels, data_size));
    let mut header: [u8; 44] = [0; 44];
    let mut i: usize = 0;
    while i < 44
        invariant
            i <= 44,
            buf@.len() == 44,
            forall|k: int| 0 <= k < i ==> #[trigger] header@[k] == buf@[k],
        decreases 44 - i,
    {
        header[i] = buf[i];
        i += 1;
    }
    assert(header@ =~= buf@);
    header
}

/// One frame of 16-bit PCM with the same sample on every channel.
pub open spec fn pcm_frame(sample: i16, channels: int) -> Seq<u8> {
    Seq::new((channels * 2) as nat, |i: int| sample_bytes(sample)[i % 2])
}

/// The PCM data of the frames below `frames`.
pub open spec fn pcm_data<S: SignalFn>(
    signal: S,
    sample_rate: u32,
    channels: int,
    frames: int,
) -> Seq<u8> {
    Seq::new(
        (frames * channels * 2) as nat,
        |i: int| sample_bytes(signal.sample_at((i / (channels * 2)) as u64, sample_rate))[i % 2],
    )
}

/// Append one frame.
fn push_frame(out: &mut Vec<u8>, sample: i16, channels: u16)
    ensures
        final(out)@ == old(out)@ + pcm_frame(sample, channels as int),
{
    let ghost before = out@;
    let (lo, hi) = sample_le(sample);
    let mut channel: u16 = 0;
    assert(out@ =~= before + pcm_frame(sample, 0));
    while channel < channels
        invariant
            channel <= channels,
            out@ == before + pcm_frame(sample, channel as int),
            sample_bytes(sample) == seq![lo, hi],
        decreases channels - channel,
    {
        out.push(lo);
        out.push(hi);
        assert(out@ =~= before + pcm_frame(sample, channel + 1));
        channel += 1;
    }
}

/// One more frame of PCM.
proof fn lemma_pcm_data_push<S: SignalFn>(signal: S, sample_rate: u32, channels: int, frames: int)
    requires
        0 <= frames <= u64::MAX,
        channels >= 0,
    ensures
        pcm_data(signal, sample_rate, channels, frames + 1) == pcm_data(
            signal,
            sample_rate,
            channels,
            frames,
        ) + pcm_frame(signal.sample_at(frames as u64, sample_rate), channels),
{
    let width = channels * 2;
    let short = pcm_data(signal, sample_rate, channels, frames);
    let long = pcm_data(signal, sample_rate, channels, frames + 1);
    let frame = pcm_frame(signal.sample_at(frames as u64, sample_rate), channels);
    assert((frames + 1) * channels * 2 == frames * channels * 2 + width && frames * channels * 2
        == frames * width && frames * width >= 0) by (nonlinear_arith)
        requires
            width == channels * 2,
            frames >= 0,
            channels >= 0,
    ;
    assert forall|i: int| 0 <= i < long.len() implies long[i] == #[trigger] (short + frame)[i] by {
        if i >= short.len() {
            let j = i - frames * width;
            vstd::arithmetic::div_mod::lemma_fundamental_div_mod_converse(i, width, frames, j);
            assert(frames * width == 2 * (frames * channels)) by (nonlinear_arith)
                requires
                    width == channels * 2,
            ;
            assert(i % 2 == j % 2);
        }
    }
    assert(long =~= short + frame);
}

/// A WAV file of `frames` frames of `signal`.
pub open spec fn wav_file<S: SignalFn>(
    signal: S,
    sample_rate: u32,
    channels: u16,
    frames: u64,
) -> Seq<u8> {
    wav_header(sample_rate, channels, Some((frames * channels * 2) as u64)) + pcm_data(
        signal,
        sample_rate,
        channels as int,
        frames as int,
    )
}

/// Append `frames` frames of `signal`, each with the same sample on every
/// channel.
pub fn push_pcm<S: SignalFn>(
    out: &mut Vec<u8>,
    signal: &S,
    sample_rate: u32,
    channels: u16,
    frames: usize,
)
    ensures
        final(out)@ == old(out)@ + pcm_data(*signal, sample_rate, channels as int, frames as int),
{
    let ghost head = out@;
    let mut i: usize = 0;
    assert(out@ =~= head + pcm_data(*signal, sample_rate, channels as int, 0));
    while i < frames
        invariant
            i <= frames,
            out@ == head + pcm_data(*signal, sample_rate, channels as int, i as int),
        decreases frames - i,
    {
        proof {
            lemma_pcm_data_push(*signal, sample_rate, channels as int, i as int);
        }
        push_frame(out, signal.sample(i as u64, sample_rate), channels);
        assert(out@ =~= head + pcm_data(*signal, sample_rate, channels as int, i + 1));
        i += 1;
    }
}

/// Create a WAV file with `sample_count` frames of `signal`, each with the same
/// sample on every channel.
#[must_use]
pub fn create_test_wav<S: SignalFn>(
    signal: &S,
    sample_count: usize,
    sample_rate: u32,
    channels: u16,
) -> (wav: Vec<u8>)
    requires
        44 + sample_count * channels * 2 <= usize::MAX,
        header_fits(sample_rate, channels, Some((sample_count * channels * 2) as u64)),
    ensures
        wav@ == wav_file(*signal, sample_rate, channels, sample_count as u64),
{
    assert(0 <= sample_count * channels <= sample_count * channels * 2) by (nonlinear_arith)
        requires
            sample_count >= 0,
            channels >= 0,
    ;
    let data_size: usize = sample_count * (channels as usize) * 2;
    let header = build_wav_header(sample_rate, channels, Some(data_size as u64));
    let mut wav: Vec<u8> = Vec::new();
    wav.extend_from_slice(header.as_slice());
    assert(wav@ =~= header@);
    push_pcm(&mut wav, signal, sample_rate, channels, sample_count);
    wav
}

/// A sawtooth WAV of exactly `total_bytes` bytes: as many whole stereo frames
/// as fit, then zeros.
pub open spec fn saw_wav(total_bytes: int) -> Seq<u8> {
    let file = wav_file(Sawtooth, 44_100, 2, ((total_bytes - 44) / 4) as u64);
    file + Seq::new((total_bytes - file.len()) as nat, |i: int| 0u8)
}

/// Create WAV with saw-tooth pattern, sized exactly to `total_bytes`.
///
/// Stereo 44100 Hz, 16-bit PCM. L and R channels get the same value per frame.
#[must_use]
pub fn create_saw_wav(total_bytes: usize) -> (wav: Vec<u8>)
    requires
        total_bytes >= 44,
        header_fits(44_100, 2, Some(((total_bytes - 44) / 4 * 4) as u64)),
    ensures
        wav@ == saw_wav(total_bytes as int),
        wav@.len() == total_bytes,
{
    let frame_count: usize = (total_bytes - 44) / 4;
    let mut wav = create_test_wav(&Sawtooth, frame_count, 44_100, 2);
    let ghost file = wav@;
    assert(file.len() == 44 + frame_count * 4);
    wav.resize(total_bytes, 0);
    assert(wav@ =~= saw_wav(total_bytes as int));
    wav
}

/// Every file starts with the 44 bytes of its header, and then has two bytes
/// for each channel of each frame.
pub proof fn law_file_length<S: SignalFn>(signal: S, sample_rate: u32, channels: u16, frames: u64)
    requires
        frames * channels * 2 <= u64::MAX,
    ensures
        wav_header(sample_rate, channels, None).len() == 44,
        wav_file(signal, sample_rate, channels, frames).len() == 44 + frames * channels * 2,
{
    assert(frames * channels * 2 >= 0) by (nonlinear_arith)
        requires
            frames >= 0,
            channels >= 0,
    ;
}

/// The fields of a header, read back little-endian from where they stand, agree
/// with one another: a frame takes as many bytes as its channels do at the
/// header's sample size, a second as many as its frames do, and the file is what
/// follows the first eight bytes.
#[verifier::rlimit(60)]
pub proof fn law_header_fields_agree(sample_rate: u32, channels: u16, data_size: Option<u64>)
    requires
        sample_rate * channels * 2 <= u32::MAX,
        channels * 2 <= u16::MAX,
        data_size matches Some(size) ==> size % 0x1_0000_0000 + 36 <= u32::MAX,
    ensures
        header_fits(sample_rate, channels, data_size),
        ({
            let header = wav_header(sample_rate, channels, data_size);
            let file = le_value(header.subrange(4, 8));
            let channel_count = le_value(header.subrange(22, 24));
            let rate = le_value(header.subrange(24, 28));
            let byte_rate = le_value(header.subrange(28, 32));
            let block_align = le_value(header.subrange(32, 34));
            let bits = le_value(header.subrange(34, 36));
            let data = le_value(header.subrange(40, 44));
            &&& header.len() == 44
            &&& channel_count == channels
            &&& rate == sample_rate
            &&& bits == 16
            &&& block_align == channel_count * bits / 8
            &&& byte_rate == rate * block_align
            &&& match data_size {
                Some(size) => {
                    &&& size <= u32::MAX ==> data == size
                    &&& (size - data) % 0x1_0000_0000 == 0
                    &&& file == data + (header.len() - 8)
                },
                None => file == u32::MAX && data == u32::MAX,
            }
        }),
{
    let header = wav_header(sample_rate, channels, data_size);
    let (file, data) = match data_size {
        Some(size) => (low32(size as int) + 36, low32(size as int)),
        None => (0xffff_ffffint, 0xffff_ffffint),
    };
    let align = channels * 2;
    assert(0 <= sample_rate * channels * 2 && sample_rate * align == sample_rate * channels * 2)
        by (nonlinear_arith)
        requires
            sample_rate >= 0,
            channels >= 0,
            align == channels * 2,
    ;
    lemma_byte_powers();
    assert(header.subrange(4, 8) =~= le_bytes(file, 4));
    assert(header.subrange(22, 24) =~= le_bytes(channels as int, 2));
    assert(header.subrange(24, 28) =~= le_bytes(sample_rate as int, 4));
    assert(header.subrange(28, 32) =~= le_bytes(sample_rate * channels * 2, 4));
    assert(header.subrange(32, 34) =~= le_bytes(align, 2));
    assert(header.subrange(34, 36) =~= le_bytes(16, 2));
    assert(header.subrange(40, 44) =~= le_bytes(data, 4));
    law_bytes_read_back(file, 4);
    law_bytes_read_back(channels as int, 2);
    law_bytes_read_back(sample_rate as int, 4);
    law_bytes_read_back(sample_rate * channels * 2, 4);
    law_bytes_read_back(align, 2);
    law_bytes_read_back(16, 2);
    law_bytes_read_back(data, 4);
}

/// A header opens a RIFF file of type WAVE. Its format chunk of sixteen bytes
/// says integer PCM, and the data chunk follows straight behind it.
#[verifier::rlimit(60)]
pub proof fn law_header_chunks(sample_rate: u32, channels: u16, data_size: Option<u64>)
    requires
        header_fits(sample_rate, channels, data_size),
    ensures
        ({
            let header = wav_header(sample_rate, channels, data_size);
            let format = le_value(header.subrange(16, 20));
            &&& header.subrange(0, 4) == seq!['R' as u8, 'I' as u8, 'F' as u8, 'F' as u8]
            &&& header.subrange(8, 12) == seq!['W' as u8, 'A' as u8, 'V' as u8, 'E' as u8]
            &&& header.subrange(12, 16) == seq!['f' as u8, 'm' as u8, 't' as u8, ' ' as u8]
            &&& format == 16
            &&& le_value(header.subrange(20, 22)) == 1
            &&& header.subrange(20 + format, 24 + format) == seq![
                'd' as u8,
                'a' as u8,
                't' as u8,
                'a' as u8,
            ]
        }),
{
    let header = wav_header(sample_rate, channels, data_size);
    lemma_byte_powers();
    law_bytes_read_back(16, 4);
    law_bytes_read_back(1, 2);
    assert(header.subrange(16, 20) =~= le_bytes(16, 4));
    assert(header.subrange(20, 22) =~= le_bytes(1, 2));
    assert(header.subrange(0, 4) =~= seq!['R' as u8, 'I' as u8, 'F' as u8, 'F' as u8]);
    assert(header.subrange(8, 12) =~= seq!['W' as u8, 'A' as u8, 'V' as u8, 'E' as u8]);
    assert(header.subrange(12, 16) =~= seq!['f' as u8, 'm' as u8, 't' as u8, ' ' as u8]);
    assert(header.subrange(36, 40) =~= seq!['d' as u8, 'a' as u8, 't' as u8, 'a' as u8]);
}

/// A header has forty-four bytes, whatever it says.
pub proof fn law_header_length(sample_rate: u32, channels: u16, data_size: Option<u64>)
    ensures
        wav_header(sample_rate, channels, data_size).len() == HEADER_SIZE,
{
}

/// The samples of PCM data read back: each channel of a frame has the signal's
/// sample for that frame, in two's complement with the low byte first.
#[verifier::rlimit(60)]
pub proof fn law_pcm_reads_back<S: SignalFn>(
    signal: S,
    sample_rate: u32,
    channels: int,
    frames: int,
    frame: int,
    channel: int,
)
    requires
        0 <= frame < frames,
        frames <= u64::MAX,
        0 <= channel < channels,
    ensures
        ({
            let data = pcm_data(signal, sample_rate, channels, frames);
            let at = (frame * channels + channel) * 2;
            let n = data[at] + 256 * data[at + 1];
            &&& data.len() == frames * channels * 2
            &&& 0 <= at
            &&& at + 1 < data.len()
            &&& signal.sample_at(frame as u64, sample_rate) == if n < 0x8000 {
                n
            } else {
                n - 0x1_0000
            }
        }),
{
    let width = channels * 2;
    let at = (frame * channels + channel) * 2;
    assert(at == frame * width + channel * 2 && frame * width >= 0 && (frame + 1) * width <= frames
        * channels * 2 && (frame + 1) * width == frame * width + width) by (nonlinear_arith)
        requires
            at == (frame * channels + channel) * 2,
            width == channels * 2,
            0 <= frame < frames,
            channels > 0,
    ;
    lemma_fundamental_div_mod_converse(at, width, frame, channel * 2);
    lemma_fundamental_div_mod_converse(at + 1, width, frame, channel * 2 + 1);
    law_a_sample_reads_back(signal.sample_at(frame as u64, sample_rate));
}

/// A file is its header and then its PCM, and its header says how long the PCM
/// is, where that fits the field.
#[verifier::rlimit(60)]
pub proof fn law_a_file_says_how_long_it_is<S: SignalFn>(
    signal: S,
    sample_rate: u32,
    channels: u16,
    frames: u64,
)
    requires
        frames * channels * 2 + 36 <= u32::MAX,
        sample_rate * channels * 2 <= u32::MAX,
        channels * 2 <= u16::MAX,
    ensures
        ({
            let file = wav_file(signal, sample_rate, channels, frames);
            &&& le_value(file.subrange(40, 44)) == file.len() - 44
            &&& le_value(file.subrange(4, 8)) == file.len() - 8
            &&& le_value(file.subrange(22, 24)) == channels
            &&& le_value(file.subrange(24, 28)) == sample_rate
            &&& file.skip(44) == pcm_data(signal, sample_rate, channels as int, frames as int)
        }),
{
    let size = (frames * channels * 2) as u64;
    assert(frames * channels * 2 >= 0) by (nonlinear_arith)
        requires
            frames >= 0,
            channels >= 0,
    ;
    let header = wav_header(sample_rate, channels, Some(size));
    let file = wav_file(signal, sample_rate, channels, frames);
    law_header_fields_agree(sample_rate, channels, Some(size));
    law_file_length(signal, sample_rate, channels, frames);
    assert(file.subrange(40, 44) =~= header.subrange(40, 44));
    assert(file.subrange(4, 8) =~= header.subrange(4, 8));
    assert(file.subrange(22, 24) =~= header.subrange(22, 24));
    assert(file.subrange(24, 28) =~= header.subrange(24, 28));
    assert(file.skip(44) =~= pcm_data(signal, sample_rate, channels as int, frames as int));
}

/// A sawtooth file sized to the byte is stereo at 44 100 Hz. Its data ends less
/// than a frame short of its size, and the bytes behind are zeros.
#[verifier::rlimit(60)]
pub proof fn law_a_saw_file_is_filled_up(total_bytes: int, i: int)
    requires
        44 <= total_bytes,
        total_bytes <= u32::MAX,
    ensures
        ({
            let wav = saw_wav(total_bytes);
            let data = le_value(wav.subrange(40, 44));
            &&& wav.len() == total_bytes
            &&& data % 4 == 0
            &&& 44 + data <= total_bytes < 44 + data + 4
            &&& 44 + data <= i < total_bytes ==> wav[i] == 0
            &&& le_value(wav.subrange(22, 24)) == 2
            &&& le_value(wav.subrange(24, 28)) == 44_100
            &&& wav.subrange(44, 44 + data) == pcm_data(Sawtooth, 44_100, 2, data / 4)
        }),
{
    let frames = (total_bytes - 44) / 4;
    let file = wav_file(Sawtooth, 44_100, 2, frames as u64);
    let wav = saw_wav(total_bytes);
    law_a_file_says_how_long_it_is(Sawtooth, 44_100, 2, frames as u64);
    law_file_length(Sawtooth, 44_100, 2, frames as u64);
    assert(wav.subrange(40, 44) =~= file.subrange(40, 44));
    assert(wav.subrange(22, 24) =~= file.subrange(22, 24));
    assert(wav.subrange(24, 28) =~= file.subrange(24, 28));
    assert(wav.subrange(44, file.len() as int) =~= file.skip(44));
}

} // verus!
