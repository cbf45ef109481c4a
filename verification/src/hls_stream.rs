//! Synthetic HLS streams: playlists, init segments, media segments and keys.

use crate::bytes::{
    be_bytes, be_value, byte_of, law_bytes_read_back, le_value, lemma_byte_powers, lemma_eight_bytes,
    low32, push_u32_be, truncate_to_u32,
};
use crate::hex_text::hex_text;
use crate::hls_spec::{
    DelayRule, PcmPattern, ResolvedDataMode, ResolvedEncryption, ResolvedHlsSpec, ResolvedInitMode,
};
use crate::outside::{aes128_cbc, encrypt_padded, share};
use crate::signal_source::{Sawtooth, SignalFn};
use crate::text::{decimal, law_decimal_is_parsed_back, lemma_decimal_digits, push_decimal};
use crate::wav::{
    build_wav_header, create_test_wav, header_fits, law_header_fields_agree, law_pcm_reads_back,
    pcm_data, push_pcm, wav_file, wav_header,
};
use std::sync::Arc;
use vstd::hash_map::StringHashMap;
use vstd::prelude::*;
use vstd::string::*;
use vstd::utf8::encode_utf8;

verus! {

/// What a test-pattern segment begins with.
pub open spec fn segment_prefix(variant: nat, segment: nat) -> Seq<char> {
    "V"@ + decimal(variant) + "-SEG-"@ + decimal(segment) + ":TEST_SEGMENT_DATA"@
}

/// A test-pattern segment: its prefix, cut or filled up with `0xFF` to `size`
/// bytes.
pub open spec fn test_segment(variant: nat, segment: nat, size: nat) -> Seq<u8> {
    let prefix = encode_utf8(segment_prefix(variant, segment));
    Seq::new(
        size,
        |i: int|
            if i < prefix.len() {
                prefix[i]
            } else {
                0xFFu8
            },
    )
}

/// What a test-pattern segment begins with.
pub fn segment_prefix_text(variant: u64, segment: u64) -> (text: String)
    ensures
        text@ == segment_prefix(variant as nat, segment as nat),
{
    let mut text = String::from_str("V");
    push_decimal(&mut text, variant);
    text.append("-SEG-");
    push_decimal(&mut text, segment);
    text.append(":TEST_SEGMENT_DATA");
    text
}

/// A test-pattern segment of `size` bytes.
pub fn generate_segment(variant: usize, segment: usize, size: usize) -> (data: Vec<u8>)
    ensures
        data@ == test_segment(variant as nat, segment as nat, size as nat),
{
    let text = segment_prefix_text(variant as u64, segment as u64);
    let mut data = vstd::slice::slice_to_vec(text.as_str().as_bytes());
    data.truncate(size);
    data.resize(size, 0xFF);
    assert(data@ =~= test_segment(variant as nat, segment as nat, size as nat));
    data
}

/// The length of an ABR segment: the first one of the last variant is short.
pub open spec fn abr_len(variant: int, segment: int) -> int {
    if variant == 2 && segment == 0 {
        50_000
    } else {
        200_000
    }
}

/// An ABR segment: the low byte of the variant, the segment and the length of
/// what follows, each in four bytes with the most significant first, and then
/// as many `A`s.
pub open spec fn abr_segment(variant: int, segment: int) -> Seq<u8> {
    seq![(variant % 256) as u8] + be_bytes(low32(segment), 4) + be_bytes(
        abr_len(variant, segment) - 9,
        4,
    ) + Seq::new((abr_len(variant, segment) - 9) as nat, |i: int| 0x41u8)
}

/// An ABR segment.
pub fn generate_abr_binary_segment(variant: usize, segment: usize) -> (data: Vec<u8>)
    ensures
        data@ == abr_segment(variant as int, segment as int),
        data@.len() == abr_len(variant as int, segment as int),
{
    let total_len: usize = if variant == 2 && segment == 0 {
        50_000
    } else {
        200_000
    };
    let mut data: Vec<u8> = Vec::new();
    data.push((variant % 256) as u8);
    push_u32_be(&mut data, truncate_to_u32(segment as u64));
    push_u32_be(&mut data, (total_len - 9) as u32);
    assert(data@.len() == 9);
    let ghost head = data@;
    data.resize(total_len, 0x41);
    assert(data@ =~= abr_segment(variant as int, segment as int));
    data
}

/// What the init segment of a test variant holds.
pub open spec fn test_init(variant: nat) -> Seq<char> {
    "V"@ + decimal(variant) + "-INIT:TEST_INIT_DATA"@
}

/// The init segment of a test variant.
pub fn generate_test_init_segment(variant: usize) -> (data: Vec<u8>)
    ensures
        data@ == encode_utf8(test_init(variant as nat)),
{
    let mut text = String::from_str("V");
    push_decimal(&mut text, variant as u64);
    text.append("-INIT:TEST_INIT_DATA");
    vstd::slice::slice_to_vec(text.as_str().as_bytes())
}

/// The frames that fit all segments of a variant.
pub open spec fn frames_of(segments: int, size: int, channels: int) -> int {
    segments * size / (channels * 2)
}

/// Whether the signal that the data mode asks for can be made: there is at
/// least one channel, the segments of a variant fit memory, and so does a file
/// around them.
pub open spec fn data_fits(spec: ResolvedHlsSpec) -> bool {
    match spec.data_mode {
        ResolvedDataMode::SawWav { sample_rate, channels } => {
            let frames = frames_of(
                spec.segments_per_variant as int,
                spec.segment_size as int,
                channels as int,
            );
            &&& channels > 0
            &&& 44 + spec.segments_per_variant * spec.segment_size <= usize::MAX
            &&& header_fits(sample_rate, channels, Some((frames * channels * 2) as u64))
        },
        ResolvedDataMode::PerVariantPcm { sample_rate, channels, .. } => {
            &&& channels > 0
            &&& spec.segments_per_variant * spec.segment_size <= usize::MAX
        },
        _ => true,
    }
}

/// Whether the header that the init mode asks for can be made.
pub open spec fn init_fits(spec: ResolvedHlsSpec) -> bool {
    match spec.init_mode {
        ResolvedInitMode::WavHeader { sample_rate, channels } => header_fits(
            sample_rate,
            channels,
            None,
        ),
        _ => true,
    }
}

/// The wave of a variant: ascending where none is named.
pub open spec fn pattern_of(patterns: Seq<PcmPattern>, variant: int) -> PcmPattern {
    if 0 <= variant < patterns.len() {
        patterns[variant]
    } else {
        PcmPattern::Ascending
    }
}

/// The media bytes of a variant, before they are cut into segments. None for a
/// mode whose segments are made one by one.
pub open spec fn variant_data(spec: ResolvedHlsSpec, variant: int) -> Option<Seq<u8>> {
    match spec.data_mode {
        ResolvedDataMode::TestPattern => None,
        ResolvedDataMode::AbrBinary => None,
        ResolvedDataMode::SharedBytes(bytes) => Some(bytes@),
        ResolvedDataMode::PerVariantBytes(bytes) => if variant < bytes@.len() {
            Some(bytes@[variant]@)
        } else {
            None
        },
        ResolvedDataMode::SawWav { sample_rate, channels } => Some(
            wav_file(
                Sawtooth,
                sample_rate,
                channels,
                frames_of(
                    spec.segments_per_variant as int,
                    spec.segment_size as int,
                    channels as int,
                ) as u64,
            ),
        ),
        ResolvedDataMode::PerVariantPcm { sample_rate, channels, patterns } => Some(
            pcm_data(
                pattern_of(patterns@, variant),
                sample_rate,
                channels as int,
                frames_of(
                    spec.segments_per_variant as int,
                    spec.segment_size as int,
                    channels as int,
                ),
            ),
        ),
    }
}

/// The `size` bytes of `data` from `start` on, as far as there are any.
pub open spec fn cut(data: Seq<u8>, start: int, size: int) -> Seq<u8> {
    let end = if start + size < data.len() {
        start + size
    } else {
        data.len() as int
    };
    if start <= end {
        data.subrange(start, end)
    } else {
        Seq::empty()
    }
}

/// Whether a stream has this segment.
pub open spec fn has_segment(spec: ResolvedHlsSpec, variant: int, segment: int) -> bool {
    &&& variant < spec.variant_count
    &&& segment < spec.segments_per_variant
    &&& segment * spec.segment_size <= usize::MAX
    &&& spec.data_mode matches ResolvedDataMode::PerVariantBytes(bytes) ==> variant < bytes@.len()
}

/// What a segment holds before it is encrypted.
pub open spec fn plaintext_of(spec: ResolvedHlsSpec, variant: int, segment: int) -> Seq<u8> {
    match spec.data_mode {
        ResolvedDataMode::TestPattern => test_segment(
            variant as nat,
            segment as nat,
            spec.segment_size as nat,
        ),
        ResolvedDataMode::AbrBinary => abr_segment(variant, segment),
        _ => cut(
            variant_data(spec, variant)->0,
            segment * spec.segment_size,
            spec.segment_size as int,
        ),
    }
}

/// What the init segment of a variant holds before it is encrypted.
pub open spec fn init_of(spec: ResolvedHlsSpec, variant: int) -> Seq<u8> {
    match spec.init_mode {
        ResolvedInitMode::Absent => Seq::empty(),
        ResolvedInitMode::TestInit => encode_utf8(test_init(variant as nat)),
        ResolvedInitMode::WavHeader { sample_rate, channels } => wav_header(
            sample_rate,
            channels,
            None,
        ),
        ResolvedInitMode::PerVariantBytes(data) => if variant < data@.len() {
            data@[variant]@
        } else {
            Seq::empty()
        },
    }
}

/// Whether a segment leaves room for its padding, where it is encrypted.
pub open spec fn segment_has_room(spec: ResolvedHlsSpec, variant: int, segment: int) -> bool {
    spec.encryption is Some && has_segment(spec, variant, segment) ==> plaintext_of(
        spec,
        variant,
        segment,
    ).len() + 16 <= usize::MAX
}

/// Whether an init segment leaves room for its padding, where it is encrypted.
pub open spec fn init_has_room(spec: ResolvedHlsSpec, variant: int) -> bool {
    spec.encryption is Some && variant < spec.variant_count ==> init_of(spec, variant).len() + 16
        <= usize::MAX
}

/// The initialisation vector of a segment: the stream's, or the segment's number
/// in the last eight bytes.
pub open spec fn iv_of(encryption: ResolvedEncryption, sequence: int) -> Seq<u8> {
    match encryption.iv {
        Some(iv) => iv@,
        None => Seq::new(8, |i: int| 0u8) + be_bytes(sequence, 8),
    }
}

/// What is served for `data`, the payload with number `sequence`.
pub open spec fn served(spec: ResolvedHlsSpec, data: Seq<u8>, sequence: int) -> Seq<u8> {
    match spec.encryption {
        Some(encryption) => aes128_cbc(data, encryption.key@, iv_of(encryption, sequence)),
        None => data,
    }
}

/// How long a segment is as it is served, or as a request for its length alone
/// reports it; none where the stream has no such segment.
pub open spec fn segment_len_of(
    spec: ResolvedHlsSpec,
    variant: int,
    segment: int,
    head: bool,
) -> Option<usize> {
    let plain = plaintext_of(spec, variant, segment).len();
    if !has_segment(spec, variant, segment) {
        None
    } else if head {
        match spec.head_reported_segment_size {
            Some(size) => Some(size),
            None => Some(plain as usize),
        }
    } else if spec.encryption is Some {
        Some(padded_len(plain as int) as usize)
    } else {
        Some(plain as usize)
    }
}

/// How long `len` bytes are once they are padded to whole blocks.
pub open spec fn padded_len(len: int) -> int {
    len + (16 - len % 16)
}

/// The entries of a master playlist for the variants below `count`.
pub open spec fn master_entries(
    bandwidths: Seq<u64>,
    encoded_spec: Seq<char>,
    count: nat,
) -> Seq<char>
    decreases count,
{
    if count == 0 {
        Seq::empty()
    } else {
        let variant = (count - 1) as nat;
        master_entries(bandwidths, encoded_spec, variant) + "#EXT-X-STREAM-INF:BANDWIDTH="@
            + decimal(bandwidths[variant as int] as nat) + "\n"@ + encoded_spec + "/v"@ + decimal(
            variant,
        ) + ".m3u8\n"@
    }
}

/// A master playlist: one entry for each bandwidth.
pub open spec fn master_text(bandwidths: Seq<u64>, encoded_spec: Seq<char>) -> Seq<char> {
    "#EXTM3U\n#EXT-X-VERSION:6\n"@ + master_entries(bandwidths, encoded_spec, bandwidths.len())
}

/// A master playlist for a stream that is served under `encoded_spec`.
pub fn build_master_playlist(spec: &ResolvedHlsSpec, encoded_spec: &str) -> (playlist: String)
    ensures
        playlist@ == master_text(spec.variant_bandwidths@, encoded_spec@),
{
    let ghost bandwidths = spec.variant_bandwidths@;
    let mut playlist = String::from_str("#EXTM3U\n#EXT-X-VERSION:6\n");
    let mut variant: usize = 0;
    assert(playlist@ =~= "#EXTM3U\n#EXT-X-VERSION:6\n"@ + master_entries(
        bandwidths,
        encoded_spec@,
        0,
    ));
    while variant < spec.variant_bandwidths.len()
        invariant
            bandwidths == spec.variant_bandwidths@,
            variant <= bandwidths.len(),
            playlist@ == "#EXTM3U\n#EXT-X-VERSION:6\n"@ + master_entries(
                bandwidths,
                encoded_spec@,
                variant as nat,
            ),
        decreases bandwidths.len() - variant,
    {
        playlist.append("#EXT-X-STREAM-INF:BANDWIDTH=");
        push_decimal(&mut playlist, spec.variant_bandwidths[variant]);
        playlist.append("\n");
        playlist.append(encoded_spec);
        playlist.append("/v");
        push_decimal(&mut playlist, variant as u64);
        playlist.append(".m3u8\n");
        assert(playlist@ =~= "#EXTM3U\n#EXT-X-VERSION:6\n"@ + master_entries(
            bandwidths,
            encoded_spec@,
            (variant + 1) as nat,
        ));
        variant += 1;
    }
    playlist
}

/// The entries of a media playlist for the segments below `count`.
pub open spec fn media_entries(label: Seq<char>, variant: nat, count: nat) -> Seq<char>
    decreases count,
{
    if count == 0 {
        Seq::empty()
    } else {
        let segment = (count - 1) as nat;
        media_entries(label, variant, segment) + "#EXTINF:"@ + label + ",\nseg/v"@ + decimal(
            variant,
        ) + "_"@ + decimal(segment) + ".m4s\n"@
    }
}

/// The line of a media playlist that names the init segment, where there is
/// one.
pub open spec fn map_line(spec: ResolvedHlsSpec, variant: nat) -> Seq<char> {
    if spec.init_mode.present_for(variant as int) {
        "#EXT-X-MAP:URI=\"init/v"@ + decimal(variant) + ".mp4\"\n"@
    } else {
        Seq::empty()
    }
}

/// The line of a media playlist that names the key, where there is one.
pub open spec fn key_line(spec: ResolvedHlsSpec) -> Seq<char> {
    match spec.encryption {
        Some(encryption) => "#EXT-X-KEY:METHOD=AES-128,URI=\"../key.bin\""@ + (
        match encryption.iv {
            Some(iv) => ",IV=0x"@ + hex_text(iv@),
            None => Seq::empty(),
        }) + "\n"@,
        None => Seq::empty(),
    }
}

/// What a media playlist begins with.
pub open spec fn media_head(target_secs: nat) -> Seq<char> {
    "#EXTM3U\n#EXT-X-VERSION:6\n#EXT-X-TARGETDURATION:"@ + decimal(target_secs)
        + "\n#EXT-X-MEDIA-SEQUENCE:0\n#EXT-X-PLAYLIST-TYPE:VOD\n"@
}

/// A media playlist: the init segment and the key where there are any, then
/// one entry for each segment.
pub open spec fn media_text(spec: ResolvedHlsSpec, variant: nat) -> Seq<char> {
    media_head(spec.segment_duration.target_secs as nat) + map_line(spec, variant) + key_line(spec)
        + media_entries(
        spec.segment_duration.label@,
        variant,
        spec.segments_per_variant as nat,
    ) + "#EXT-X-ENDLIST\n"@
}

/// A media playlist.
pub fn build_media_playlist(spec: &ResolvedHlsSpec, variant: usize) -> (playlist: String)
    ensures
        playlist@ == media_text(*spec, variant as nat),
{
    let mut playlist = String::from_str("#EXTM3U\n#EXT-X-VERSION:6\n#EXT-X-TARGETDURATION:");
    push_decimal(&mut playlist, spec.segment_duration.target_secs);
    playlist.append("\n#EXT-X-MEDIA-SEQUENCE:0\n#EXT-X-PLAYLIST-TYPE:VOD\n");
    let ghost head = playlist@;
    if spec.init_mode.is_present_for(variant) {
        playlist.append("#EXT-X-MAP:URI=\"init/v");
        push_decimal(&mut playlist, variant as u64);
        playlist.append(".mp4\"\n");
    }
    assert(playlist@ =~= head + map_line(*spec, variant as nat));
    let ghost mapped = playlist@;
    if let Some(encryption) = &spec.encryption {
        playlist.append("#EXT-X-KEY:METHOD=AES-128,URI=\"../key.bin\"");
        if let Some(iv) = encryption.iv_hex() {
            playlist.append(",IV=0x");
            playlist.append(iv.as_str());
        }
        playlist.append("\n");
    }
    assert(playlist@ =~= mapped + key_line(*spec));
    let ghost keyed = playlist@;
    let mut segment: usize = 0;
    assert(playlist@ =~= keyed + media_entries(
        spec.segment_duration.label@,
        variant as nat,
        0,
    ));
    while segment < spec.segments_per_variant
        invariant
            segment <= spec.segments_per_variant,
            playlist@ == keyed + media_entries(
                spec.segment_duration.label@,
                variant as nat,
                segment as nat,
            ),
        decreases spec.segments_per_variant - segment,
    {
        playlist.append("#EXTINF:");
        playlist.append(spec.segment_duration.label.as_str());
        playlist.append(",\nseg/v");
        push_decimal(&mut playlist, variant as u64);
        playlist.append("_");
        push_decimal(&mut playlist, segment as u64);
        playlist.append(".m4s\n");
        assert(playlist@ =~= keyed + media_entries(
            spec.segment_duration.label@,
            variant as nat,
            (segment + 1) as nat,
        ));
        segment += 1;
    }
    playlist.append("#EXT-X-ENDLIST\n");
    assert(playlist@ =~= media_text(*spec, variant as nat));
    playlist
}

/// The initialisation vector of a segment.
pub fn derive_iv(enc: &ResolvedEncryption, sequence: usize) -> (iv: [u8; 16])
    ensures
        iv@ == iv_of(*enc, sequence as int),
{
    match enc.iv {
        Some(iv) => iv,
        None => {
            let mut iv: [u8; 16] = [0; 16];
            let mut rest: u64 = sequence as u64;
            let mut i: usize = 0;
            assert(iv@ =~= Seq::new(16, |k: int| 0u8));
            while i < 8
                invariant
                    i <= 8,
                    iv@.len() == 16,
                    forall|k: int| 0 <= k < 16 - i ==> #[trigger] iv@[k] == 0,
                    forall|k: int|
                        16 - i <= k < 16 ==> #[trigger] iv@[k] == byte_of(
                            sequence as int,
                            (15 - k) as nat,
                        ),
                    forall|k: nat| #[trigger]
                        byte_of(rest as int, k) == byte_of(sequence as int, (k + i) as nat),
                decreases 8 - i,
            {
                assert(byte_of(rest as int, 0) == byte_of(sequence as int, (0 + i) as nat));
                assert forall|k: nat| #[trigger]
                    byte_of((rest / 256) as int, k) == byte_of(
                        sequence as int,
                        (k + (i + 1)) as nat,
                    ) by {
                    assert(byte_of(rest as int, k + 1) == byte_of(
                        sequence as int,
                        (k + 1 + i) as nat,
                    ));
                }
                iv[15 - i] = (rest % 256) as u8;
                rest = rest / 256;
                i += 1;
            }
            assert(iv@ =~= Seq::new(8, |k: int| 0u8) + be_bytes(sequence as int, 8));
            iv
        },
    }
}

/// Encrypt `data` with AES-128 in CBC mode. The message has to leave room for
/// its padding.
pub fn encrypt_aes128_cbc(data: &[u8], key: &[u8; 16], iv: &[u8; 16]) -> (ciphertext: Vec<u8>)
    requires
        data@.len() + 16 <= usize::MAX,
    ensures
        ciphertext@ == aes128_cbc(data@, key@, iv@),
        ciphertext@.len() == padded_len(data@.len() as int),
{
    let len: usize = data.len();
    let padded: usize = len + (16 - len % 16);
    let mut buf = vstd::slice::slice_to_vec(data);
    buf.resize(padded, 0);
    assert(buf@.take(len as int) =~= data@);
    encrypt_padded(&mut buf, len, key, iv);
    buf
}

/// What the segments of a stream are cut from.
enum MaterializedDataMode {
    TestPattern,
    AbrBinary,
    SharedBytes(Vec<u8>),
    PerVariantBytes(Vec<Vec<u8>>),
}

impl MaterializedDataMode {
    /// Whether this is what `spec` asks for.
    spec fn is_for(self, spec: ResolvedHlsSpec) -> bool {
        match self {
            MaterializedDataMode::TestPattern => spec.data_mode is TestPattern,
            MaterializedDataMode::AbrBinary => spec.data_mode is AbrBinary,
            MaterializedDataMode::SharedBytes(bytes) => {
                &&& spec.data_mode is SharedBytes || spec.data_mode is SawWav
                &&& variant_data(spec, 0) == Some(bytes@)
            },
            MaterializedDataMode::PerVariantBytes(bytes) => {
                &&& spec.data_mode is PerVariantBytes || spec.data_mode is PerVariantPcm
                &&& spec.data_mode matches ResolvedDataMode::PerVariantBytes(held) ==> held@.len()
                    == bytes@.len()
                &&& spec.data_mode is PerVariantPcm ==> bytes@.len() == spec.variant_count
                &&& forall|i: int|
                    0 <= i < bytes@.len() ==> variant_data(spec, i) == Some(
                        (#[trigger] bytes@[i])@,
                    )
            },
        }
    }
}

proof fn lemma_frames_fit(segments: int, size: int, channels: int)
    requires
        channels > 0,
        segments >= 0,
        size >= 0,
    ensures
        0 <= frames_of(segments, size, channels),
        frames_of(segments, size, channels) * channels * 2 <= segments * size,
        frames_of(segments, size, channels) <= segments * size,
        segments * size >= 0,
{
    let total = segments * size;
    assert(total >= 0) by (nonlinear_arith)
        requires
            segments >= 0,
            size >= 0,
            total == segments * size,
    ;
    let width = channels * 2;
    let frames = total / width;
    vstd::arithmetic::div_mod::lemma_fundamental_div_mod(total, width);
    vstd::arithmetic::div_mod::lemma_div_pos_is_pos(total, width);
    assert(frames * channels * 2 == width * frames) by (nonlinear_arith)
        requires
            width == channels * 2,
    ;
    assert(frames <= frames * channels * 2) by (nonlinear_arith)
        requires
            frames >= 0,
            channels > 0,
    ;
}

/// Make what the segments of a stream are cut from.
fn materialize_data_mode(spec: &ResolvedHlsSpec) -> (mode: MaterializedDataMode)
    requires
        data_fits(*spec),
    ensures
        mode.is_for(*spec),
{
    match &spec.data_mode {
        ResolvedDataMode::TestPattern => MaterializedDataMode::TestPattern,
        ResolvedDataMode::AbrBinary => MaterializedDataMode::AbrBinary,
        ResolvedDataMode::SharedBytes(bytes) => MaterializedDataMode::SharedBytes(
            vstd::slice::slice_to_vec(bytes.as_slice()),
        ),
        ResolvedDataMode::PerVariantBytes(data) => {
            let mut bytes: Vec<Vec<u8>> = Vec::new();
            let mut i: usize = 0;
            while i < data.len()
                invariant
                    i <= data@.len(),
                    bytes@.len() == i,
                    forall|k: int| 0 <= k < i ==> (#[trigger] bytes@[k])@ == data@[k]@,
                decreases data@.len() - i,
            {
                bytes.push(vstd::slice::slice_to_vec(data[i].as_slice()));
                i += 1;
            }
            MaterializedDataMode::PerVariantBytes(bytes)
        },
        ResolvedDataMode::SawWav { sample_rate, channels } => {
            proof {
                lemma_frames_fit(
                    spec.segments_per_variant as int,
                    spec.segment_size as int,
                    *channels as int,
                );
            }
            let frames: usize = spec.segments_per_variant * spec.segment_size / (
            *channels as usize * 2);
            MaterializedDataMode::SharedBytes(
                create_test_wav(&Sawtooth, frames, *sample_rate, *channels),
            )
        },
        ResolvedDataMode::PerVariantPcm { sample_rate, channels, patterns } => {
            proof {
                lemma_frames_fit(
                    spec.segments_per_variant as int,
                    spec.segment_size as int,
                    *channels as int,
                );
            }
            let frames: usize = spec.segments_per_variant * spec.segment_size / (
            *channels as usize * 2);
            let mut bytes: Vec<Vec<u8>> = Vec::new();
            let mut variant: usize = 0;
            while variant < spec.variant_count
                invariant
                    variant <= spec.variant_count,
                    bytes@.len() == variant,
                    spec.data_mode == (ResolvedDataMode::PerVariantPcm {
                        sample_rate: *sample_rate,
                        channels: *channels,
                        patterns: *patterns,
                    }),
                    frames == frames_of(
                        spec.segments_per_variant as int,
                        spec.segment_size as int,
                        *channels as int,
                    ),
                    forall|k: int|
                        0 <= k < variant ==> variant_data(*spec, k) == Some(
                            (#[trigger] bytes@[k])@,
                        ),
                decreases spec.variant_count - variant,
            {
                let pattern: PcmPattern = if variant < patterns.len() {
                    patterns[variant]
                } else {
                    PcmPattern::Ascending
                };
                let mut pcm: Vec<u8> = Vec::new();
                push_pcm(&mut pcm, &pattern, *sample_rate, *channels, frames);
                assert(pcm@ =~= pcm_data(pattern, *sample_rate, *channels as int, frames as int));
                bytes.push(pcm);
                variant += 1;
            }
            MaterializedDataMode::PerVariantBytes(bytes)
        },
    }
}

/// Make the init segment of each variant.
fn materialize_init_mode(spec: &ResolvedHlsSpec) -> (segments: Vec<Vec<u8>>)
    requires
        init_fits(*spec),
    ensures
        segments@.len() == spec.variant_count,
        forall|i: int|
            0 <= i < segments@.len() ==> (#[trigger] segments@[i])@ == init_of(*spec, i),
{
    let mut segments: Vec<Vec<u8>> = Vec::new();
    let mut variant: usize = 0;
    while variant < spec.variant_count
        invariant
            init_fits(*spec),
            variant <= spec.variant_count,
            segments@.len() == variant,
            forall|i: int|
                0 <= i < variant ==> (#[trigger] segments@[i])@ == init_of(*spec, i),
        decreases spec.variant_count - variant,
    {
        let data: Vec<u8> = match &spec.init_mode {
            ResolvedInitMode::Absent => Vec::new(),
            ResolvedInitMode::TestInit => generate_test_init_segment(variant),
            ResolvedInitMode::WavHeader { sample_rate, channels } => create_wav_init_header(
                *sample_rate,
                *channels,
            ),
            ResolvedInitMode::PerVariantBytes(data) => if variant < data.len() {
                vstd::slice::slice_to_vec(data[variant].as_slice())
            } else {
                Vec::new()
            },
        };
        assert(data@ =~= init_of(*spec, variant as int));
        segments.push(data);
        variant += 1;
    }
    segments
}

/// The header of a WAV stream of no known length, as an init segment.
pub fn create_wav_init_header(sample_rate: u32, channels: u16) -> (header: Vec<u8>)
    requires
        header_fits(sample_rate, channels, None),
    ensures
        header@ == wav_header(sample_rate, channels, None),
{
    let header = build_wav_header(sample_rate, channels, None);
    vstd::slice::slice_to_vec(header.as_slice())
}

/// A synthetic HLS stream, ready to be served.
pub struct GeneratedHls {
    spec: ResolvedHlsSpec,
    media_playlists: Vec<String>,
    data_mode: MaterializedDataMode,
    init_segments: Vec<Vec<u8>>,
}

impl GeneratedHls {
    #[verifier::type_invariant]
    spec fn well_formed(self) -> bool {
        &&& self.data_mode.is_for(self.spec)
        &&& self.init_segments@.len() == self.spec.variant_count
        &&& forall|i: int|
            0 <= i < self.init_segments@.len() ==> (#[trigger] self.init_segments@[i])@ == init_of(
                self.spec,
                i,
            )
        &&& self.media_playlists@.len() == self.spec.variant_count
        &&& forall|i: int|
            0 <= i < self.media_playlists@.len() ==> (#[trigger] self.media_playlists@[i])@
                == media_text(self.spec, i as nat)
    }

    /// What the stream was generated from.
    pub closed spec fn spec_of(&self) -> ResolvedHlsSpec {
        self.spec
    }

    /// Generate the stream that `spec` describes.
    pub fn new(spec: ResolvedHlsSpec) -> (generated: Self)
        requires
            data_fits(spec),
            init_fits(spec),
        ensures
            generated.spec_of() == spec,
    {
        let data_mode = materialize_data_mode(&spec);
        let init_segments = materialize_init_mode(&spec);
        let mut media_playlists: Vec<String> = Vec::new();
        let mut variant: usize = 0;
        while variant < spec.variant_count
            invariant
                variant <= spec.variant_count,
                media_playlists@.len() == variant,
                forall|i: int|
                    0 <= i < variant ==> (#[trigger] media_playlists@[i])@ == media_text(
                        spec,
                        i as nat,
                    ),
            decreases spec.variant_count - variant,
        {
            media_playlists.push(build_media_playlist(&spec, variant));
            variant += 1;
        }
        GeneratedHls { spec, media_playlists, data_mode, init_segments }
    }

    /// The master playlist of a stream served under `encoded_spec`.
    pub fn master_playlist(&self, encoded_spec: &str) -> (playlist: String)
        ensures
            playlist@ == master_text(self.spec_of().variant_bandwidths@, encoded_spec@),
    {
        build_master_playlist(&self.spec, encoded_spec)
    }

    /// The media playlist of a variant.
    pub fn media_playlist(&self, variant: usize) -> (playlist: Option<&str>)
        ensures
            playlist is Some <==> variant < self.spec_of().variant_count,
            playlist matches Some(playlist) ==> playlist@ == media_text(
                self.spec_of(),
                variant as nat,
            ),
    {
        proof {
            use_type_invariant(self);
        }
        if variant < self.media_playlists.len() {
            Some(self.media_playlists[variant].as_str())
        } else {
            None
        }
    }

    /// The key that the stream serves: the one it was given to serve, or else
    /// the one it encrypts with.
    pub fn key_bytes(&self) -> (key: Option<Vec<u8>>)
        ensures
            match key {
                Some(key) => match (self.spec_of().key_data, self.spec_of().encryption) {
                    (Some(data), _) => key@ == data@,
                    (None, Some(encryption)) => key@ == encryption.key@,
                    (None, None) => false,
                },
                None => self.spec_of().key_data is None && self.spec_of().encryption is None,
            },
    {
        match &self.spec.key_data {
            Some(data) => Some(vstd::slice::slice_to_vec(data.as_slice())),
            None => match &self.spec.encryption {
                Some(encryption) => Some(vstd::slice::slice_to_vec(encryption.key.as_slice())),
                None => None,
            },
        }
    }

    /// The init segment of a variant, encrypted where the stream is.
    pub fn init_bytes(&self, variant: usize) -> (data: Option<Vec<u8>>)
        requires
            init_has_room(self.spec_of(), variant as int),
        ensures
            data is Some <==> variant < self.spec_of().variant_count,
            data matches Some(data) ==> {
                let plain = init_of(self.spec_of(), variant as int);
                &&& data@ == served(self.spec_of(), plain, 0)
                &&& data@.len() == if self.spec_of().encryption is Some {
                    padded_len(plain.len() as int)
                } else {
                    plain.len() as int
                }
            },
    {
        proof {
            use_type_invariant(self);
        }
        if variant < self.init_segments.len() {
            Some(self.encrypt_if_needed(self.init_segments[variant].as_slice(), 0))
        } else {
            None
        }
    }

    /// Whether the init segment of a variant leaves room for its padding.
    pub fn init_leaves_room(&self, variant: usize) -> (room: bool)
        ensures
            room == init_has_room(self.spec_of(), variant as int),
    {
        proof {
            use_type_invariant(self);
        }
        if self.spec.encryption.is_none() || variant >= self.init_segments.len() {
            return true;
        }
        self.init_segments[variant].len() <= usize::MAX - 16
    }

    /// Whether a segment leaves room for its padding.
    pub fn segment_leaves_room(&self, variant: usize, segment: usize) -> (room: bool)
        ensures
            room == segment_has_room(self.spec_of(), variant as int, segment as int),
    {
        if self.spec.encryption.is_none() {
            return true;
        }
        match self.segment_plaintext(variant, segment) {
            Some(plaintext) => plaintext.len() <= usize::MAX - 16,
            None => true,
        }
    }

    /// How long a segment is as it is served, or as a `HEAD` request reports
    /// it.
    pub fn segment_len(
        &self,
        variant: usize,
        segment: usize,
        use_head_override: bool,
    ) -> (len: Option<usize>)
        requires
            use_head_override || segment_has_room(
                self.spec_of(),
                variant as int,
                segment as int,
            ),
        ensures
            len == segment_len_of(
                self.spec_of(),
                variant as int,
                segment as int,
                use_head_override,
            ),
    {
        match self.segment_plaintext(variant, segment) {
            Some(plaintext) => {
                let plain: usize = plaintext.len();
                Some(
                    if use_head_override {
                        match self.spec.head_reported_segment_size {
                            Some(size) => size,
                            None => plain,
                        }
                    } else if self.spec.encryption.is_some() {
                        plain + (16 - plain % 16)
                    } else {
                        plain
                    },
                )
            },
            None => None,
        }
    }

    /// A segment, encrypted where the stream is.
    pub fn segment_bytes(&self, variant: usize, segment: usize) -> (data: Option<Vec<u8>>)
        requires
            segment_has_room(self.spec_of(), variant as int, segment as int),
        ensures
            data is Some <==> has_segment(self.spec_of(), variant as int, segment as int),
            data matches Some(data) ==> {
                let plain = plaintext_of(self.spec_of(), variant as int, segment as int);
                &&& data@ == served(self.spec_of(), plain, segment as int)
                &&& data@.len() == if self.spec_of().encryption is Some {
                    padded_len(plain.len() as int)
                } else {
                    plain.len() as int
                }
                &&& self.spec_of().encryption matches Some(encryption) ==> (encryption.iv is None
                    ==> data@ == aes128_cbc(
                    plain,
                    encryption.key@,
                    Seq::new(8, |i: int| 0u8) + seq![
                        (segment as int / 0x100_0000_0000_0000) as u8,
                        (segment as int / 0x1_0000_0000_0000 % 256) as u8,
                        (segment as int / 0x100_0000_0000 % 256) as u8,
                        (segment as int / 0x1_0000_0000 % 256) as u8,
                        (segment as int / 0x100_0000 % 256) as u8,
                        (segment as int / 0x1_0000 % 256) as u8,
                        (segment as int / 0x100 % 256) as u8,
                        (segment as int % 256) as u8,
                    ],
                ))
            },
            segment_len_of(self.spec_of(), variant as int, segment as int, false) == match data {
                Some(data) => Some(data@.len() as usize),
                None => None,
            },
    {
        proof {
            if self.spec_of().encryption is Some && self.spec_of().encryption->0.iv is None {
                let plain = plaintext_of(self.spec_of(), variant as int, segment as int);
                law_a_segment_is_encrypted_under_its_number(self.spec_of(), plain, segment as int);
                assert(iv_of(self.spec_of().encryption->0, segment as int) =~= Seq::new(
                    8,
                    |i: int| 0u8,
                ) + seq![
                    (segment as int / 0x100_0000_0000_0000) as u8,
                    (segment as int / 0x1_0000_0000_0000 % 256) as u8,
                    (segment as int / 0x100_0000_0000 % 256) as u8,
                    (segment as int / 0x1_0000_0000 % 256) as u8,
                    (segment as int / 0x100_0000 % 256) as u8,
                    (segment as int / 0x1_0000 % 256) as u8,
                    (segment as int / 0x100 % 256) as u8,
                    (segment as int % 256) as u8,
                ]) by {
                    lemma_eight_bytes(segment as int);
                }
            }
        }
        match self.segment_plaintext(variant, segment) {
            Some(plaintext) => Some(self.encrypt_if_needed(plaintext.as_slice(), segment)),
            None => None,
        }
    }

    /// How long the answer to a request for a segment is held back: what the
    /// first rule for it says.
    pub fn segment_delay_ms(&self, variant: usize, segment: usize) -> (delay_ms: u64)
        ensures
            delay_ms == delay_of(self.spec_of().delay_rules@, variant, segment),
    {
        let ghost rules = self.spec.delay_rules@;
        let mut i: usize = 0;
        assert(rules.skip(0) =~= rules);
        while i < self.spec.delay_rules.len()
            invariant
                rules == self.spec.delay_rules@,
                i <= rules.len(),
                delay_of(rules.skip(i as int), variant, segment) == delay_of(
                    rules,
                    variant,
                    segment,
                ),
            decreases rules.len() - i,
        {
            assert(rules.skip(i as int).skip(1) =~= rules.skip(i + 1));
            if let Some(delay_ms) = self.spec.delay_rules[i].matches(variant, segment) {
                return delay_ms;
            }
            i += 1;
        }
        0
    }

    /// What a segment holds before it is encrypted.
    pub fn segment_plaintext(&self, variant: usize, segment: usize) -> (data: Option<Vec<u8>>)
        ensures
            data is Some <==> has_segment(self.spec_of(), variant as int, segment as int),
            data matches Some(data) ==> data@ == plaintext_of(
                self.spec_of(),
                variant as int,
                segment as int,
            ),
    {
        proof {
            use_type_invariant(self);
        }
        if variant >= self.spec.variant_count || segment >= self.spec.segments_per_variant {
            return None;
        }
        let size: usize = self.spec.segment_size;
        let start: usize = match segment.checked_mul(size) {
            Some(start) => start,
            None => return None,
        };
        match &self.data_mode {
            MaterializedDataMode::TestPattern => Some(generate_segment(variant, segment, size)),
            MaterializedDataMode::AbrBinary => Some(
                generate_abr_binary_segment(variant, segment),
            ),
            MaterializedDataMode::SharedBytes(bytes) => Some(
                cut_bytes(bytes.as_slice(), start, size),
            ),
            MaterializedDataMode::PerVariantBytes(bytes) => {
                if variant < bytes.len() {
                    assert(variant_data(self.spec, variant as int) == Some(bytes@[variant as int]@));
                    Some(cut_bytes(bytes[variant].as_slice(), start, size))
                } else {
                    None
                }
            },
        }
    }

    /// `data` as it is served.
    fn encrypt_if_needed(&self, data: &[u8], sequence: usize) -> (out: Vec<u8>)
        requires
            self.spec_of().encryption is Some ==> data@.len() + 16 <= usize::MAX,
        ensures
            out@ == served(self.spec_of(), data@, sequence as int),
            out@.len() == if self.spec_of().encryption is Some {
                padded_len(data@.len() as int)
            } else {
                data@.len() as int
            },
    {
        match &self.spec.encryption {
            Some(enc) => {
                let iv = derive_iv(enc, sequence);
                encrypt_aes128_cbc(data, &enc.key, &iv)
            },
            None => vstd::slice::slice_to_vec(data),
        }
    }
}

/// What the first rule that applies to a segment says, or nothing.
pub open spec fn delay_of(rules: Seq<DelayRule>, variant: usize, segment: usize) -> u64
    decreases rules.len(),
{
    if rules.len() == 0 {
        0
    } else if rules[0].applies(variant, segment) {
        rules[0].delay_ms
    } else {
        delay_of(rules.skip(1), variant, segment)
    }
}

/// The `size` bytes of `data` from `start` on, as far as there are any.
fn cut_bytes(data: &[u8], start: usize, size: usize) -> (part: Vec<u8>)
    ensures
        part@ == cut(data@, start as int, size as int),
{
    let len: usize = data.len();
    if start > len {
        return Vec::new();
    }
    let end: usize = if size < len - start {
        start + size
    } else {
        len
    };
    vstd::slice::slice_to_vec(vstd::slice::slice_subrange(data, start, end))
}

/// The streams generated so far, by the description they were made from.
pub struct GeneratedHlsCache {
    streams: StringHashMap<Arc<GeneratedHls>>,
}

impl GeneratedHlsCache {
    /// The streams, by the name of their description.
    pub closed spec fn held(&self) -> Map<Seq<char>, Arc<GeneratedHls>> {
        self.streams@
    }

    pub fn new() -> (cache: Self)
        ensures
            cache.held() == Map::<Seq<char>, Arc<GeneratedHls>>::empty(),
    {
        GeneratedHlsCache { streams: StringHashMap::new() }
    }

    /// The stream that `spec` describes: the one that was generated first under
    /// its name, or a new one.
    pub fn load_hls(&mut self, spec: ResolvedHlsSpec) -> (stream: Arc<GeneratedHls>)
        requires
            old(self).held().contains_key(spec.cache_key@) || data_fits(spec) && init_fits(spec),
        ensures
            old(self).held().contains_key(spec.cache_key@) ==> {
                &&& stream == old(self).held()[spec.cache_key@]
                &&& final(self).held() == old(self).held()
            },
            !old(self).held().contains_key(spec.cache_key@) ==> {
                &&& stream.spec_of() == spec
                &&& final(self).held() == old(self).held().insert(spec.cache_key@, stream)
            },
    {
        if let Some(existing) = self.streams.get(spec.cache_key.as_str()) {
            return share(existing);
        }
        let key = spec.cache_key.clone();
        let generated = Arc::new(GeneratedHls::new(spec));
        self.streams.insert(key, share(&generated));
        generated
    }
}

/// The segments of a variant tile its data: the byte at any offset stands in
/// the segment that the offset falls into, at what is left of it.
pub proof fn law_segments_tile_the_data(data: Seq<u8>, size: int, offset: int)
    requires
        size > 0,
        0 <= offset < data.len(),
    ensures
        offset % size < cut(data, offset / size * size, size).len(),
        cut(data, offset / size * size, size)[offset % size] == data[offset],
{
    vstd::arithmetic::div_mod::lemma_fundamental_div_mod(offset, size);
    assert(size * (offset / size) == offset / size * size) by (nonlinear_arith);
    vstd::arithmetic::div_mod::lemma_mod_pos_bound(offset, size);
    vstd::arithmetic::div_mod::lemma_div_pos_is_pos(offset, size);
    assert(offset / size * size >= 0) by (nonlinear_arith)
        requires
            offset / size >= 0,
            size > 0,
    ;
}

/// What the first `count` segments of a variant hold, one behind the other,
/// before they are encrypted.
pub open spec fn joined_plaintext(spec: ResolvedHlsSpec, variant: int, count: nat) -> Seq<u8>
    decreases count,
{
    if count == 0 {
        Seq::empty()
    } else {
        joined_plaintext(spec, variant, (count - 1) as nat) + plaintext_of(
            spec,
            variant,
            count - 1,
        )
    }
}

/// Where a variant's segments are cut from data of its own, none is longer than
/// the segment size, and one behind the other they are that data, as far as the
/// segments reach: one wholly past its end is empty.
#[verifier::rlimit(60)]
pub proof fn law_segments_join_to_the_data(spec: ResolvedHlsSpec, variant: int, count: nat)
    requires
        variant_data(spec, variant) is Some,
    ensures
        forall|segment: int|
            0 <= segment ==> (#[trigger] plaintext_of(spec, variant, segment)).len()
                <= spec.segment_size,
        joined_plaintext(spec, variant, count) == cut(
            variant_data(spec, variant)->0,
            0,
            count * spec.segment_size,
        ),
    decreases count,
{
    let data = variant_data(spec, variant)->0;
    let size = spec.segment_size as int;
    assert forall|segment: int| 0 <= segment implies (#[trigger] plaintext_of(
        spec,
        variant,
        segment,
    )).len() <= size by {
        assert(segment * size >= 0) by (nonlinear_arith)
            requires
                segment >= 0,
                size >= 0,
        ;
    }
    if count == 0 {
        assert(cut(data, 0, 0) =~= Seq::<u8>::empty());
        assert(count * size == 0) by (nonlinear_arith)
            requires
                count == 0,
        ;
    } else {
        let n = count - 1;
        law_segments_join_to_the_data(spec, variant, n as nat);
        assert(count * size == n * size + size) by (nonlinear_arith)
            requires
                n == count - 1,
        ;
        assert(n * size >= 0) by (nonlinear_arith)
            requires
                n >= 0,
                size >= 0,
        ;
        assert(plaintext_of(spec, variant, n) == cut(data, n * size, size));
        assert(joined_plaintext(spec, variant, count) == joined_plaintext(spec, variant, n as nat)
            + plaintext_of(spec, variant, n));
        assert(cut(data, 0, count * size) =~= cut(data, 0, n * size) + cut(data, n * size, size));
    }
}

/// A stream of shared bytes has every segment that its description counts, and
/// no other, in every variant, as long as the segments fit memory together; and
/// in each variant they join to the bytes as far as they reach.
pub proof fn law_shared_bytes_are_served_in_full(spec: ResolvedHlsSpec, variant: int)
    requires
        spec.data_mode is SharedBytes,
        spec.segments_per_variant * spec.segment_size <= usize::MAX,
    ensures
        forall|segment: int|
            0 <= segment ==> (#[trigger] has_segment(spec, variant, segment) <==> variant
                < spec.variant_count && segment < spec.segments_per_variant),
        forall|segment: int|
            0 <= segment ==> (#[trigger] plaintext_of(spec, variant, segment)).len()
                <= spec.segment_size,
        ({
            let bytes = spec.data_mode->SharedBytes_0@;
            let reach = spec.segments_per_variant * spec.segment_size;
            joined_plaintext(spec, variant, spec.segments_per_variant as nat) == bytes.take(
                if bytes.len() < reach {
                    bytes.len() as int
                } else {
                    reach
                },
            )
        }),
{
    let size = spec.segment_size as int;
    let count = spec.segments_per_variant as int;
    assert forall|segment: int| 0 <= segment implies (#[trigger] has_segment(
        spec,
        variant,
        segment,
    ) <==> variant < spec.variant_count && segment < count) by {
        if segment < count {
            assert(segment * size <= count * size) by (nonlinear_arith)
                requires
                    segment <= count,
                    size >= 0,
            ;
        }
    }
    law_segments_join_to_the_data(spec, variant, count as nat);
    let bytes = spec.data_mode->SharedBytes_0@;
    assert(count * size >= 0) by (nonlinear_arith)
        requires
            count >= 0,
            size >= 0,
    ;
    let reach = count * size;
    assert(cut(bytes, 0, reach) =~= bytes.take(
        if bytes.len() < reach {
            bytes.len() as int
        } else {
            reach
        },
    ));
}

/// Where a stream is encrypted without a vector of its own, the payload with
/// number `number` is served under sixteen bytes that write the number: eight
/// zeros, then the number with the most significant byte first.
#[verifier::rlimit(60)]
pub proof fn law_a_segment_is_encrypted_under_its_number(
    spec: ResolvedHlsSpec,
    data: Seq<u8>,
    number: int,
)
    requires
        spec.encryption is Some,
        spec.encryption->0.iv is None,
        0 <= number < 0x1_0000_0000_0000_0000,
    ensures
        served(spec, data, number) == aes128_cbc(
            data,
            spec.encryption->0.key@,
            seq![
                0u8,
                0,
                0,
                0,
                0,
                0,
                0,
                0,
                (number / 0x100_0000_0000_0000) as u8,
                (number / 0x1_0000_0000_0000 % 256) as u8,
                (number / 0x100_0000_0000 % 256) as u8,
                (number / 0x1_0000_0000 % 256) as u8,
                (number / 0x100_0000 % 256) as u8,
                (number / 0x1_0000 % 256) as u8,
                (number / 0x100 % 256) as u8,
                (number % 256) as u8,
            ],
        ),
        iv_of(spec.encryption->0, number).len() == 16,
        be_value(iv_of(spec.encryption->0, number).skip(8)) == number,
{
    let vector = iv_of(spec.encryption->0, number);
    lemma_byte_powers();
    law_bytes_read_back(number, 8);
    assert(vector.skip(8) =~= be_bytes(number, 8));
    lemma_eight_bytes(number);
    assert(vector =~= seq![
        0u8,
        0,
        0,
        0,
        0,
        0,
        0,
        0,
        (number / 0x100_0000_0000_0000) as u8,
        (number / 0x1_0000_0000_0000 % 256) as u8,
        (number / 0x100_0000_0000 % 256) as u8,
        (number / 0x1_0000_0000 % 256) as u8,
        (number / 0x100_0000 % 256) as u8,
        (number / 0x1_0000 % 256) as u8,
        (number / 0x100 % 256) as u8,
        (number % 256) as u8,
    ]);
}

/// No two payloads of such a stream share a vector.
pub proof fn law_every_segment_has_its_own_vector(
    encryption: ResolvedEncryption,
    number: int,
    other: int,
)
    requires
        encryption.iv is None,
        0 <= number < 0x1_0000_0000_0000_0000,
        0 <= other < 0x1_0000_0000_0000_0000,
        iv_of(encryption, number) == iv_of(encryption, other),
    ensures
        number == other,
{
    lemma_byte_powers();
    law_bytes_read_back(number, 8);
    law_bytes_read_back(other, 8);
    assert(iv_of(encryption, number).skip(8) =~= be_bytes(number, 8));
    assert(iv_of(encryption, other).skip(8) =~= be_bytes(other, 8));
}

/// A stream with a vector of its own serves every payload under it, whatever
/// its number; one in the clear serves every payload as it is.
pub proof fn law_a_vector_of_its_own_serves_every_segment(
    spec: ResolvedHlsSpec,
    data: Seq<u8>,
    number: int,
)
    ensures
        spec.encryption is None ==> served(spec, data, number) == data,
        spec.encryption matches Some(encryption) ==> (encryption.iv matches Some(iv) ==> served(
            spec,
            data,
            number,
        ) == aes128_cbc(data, encryption.key@, iv@)),
{
}

/// The first rule that applies to a segment decides its delay, whatever the
/// rules behind it say; where none applies, there is no delay.
pub proof fn law_the_first_rule_decides(
    rules: Seq<DelayRule>,
    variant: usize,
    segment: usize,
    first: int,
)
    requires
        0 <= first <= rules.len(),
        forall|i: int| 0 <= i < first ==> !(#[trigger] rules[i]).applies(variant, segment),
        first < rules.len() ==> rules[first].applies(variant, segment),
    ensures
        delay_of(rules, variant, segment) == if first < rules.len() {
            rules[first].delay_ms
        } else {
            0
        },
    decreases rules.len(),
{
    if rules.len() > 0 && first > 0 {
        let rest = rules.skip(1);
        assert(!rules[0].applies(variant, segment));
        assert forall|i: int| 0 <= i < first - 1 implies !(#[trigger] rest[i]).applies(
            variant,
            segment,
        ) by {
            assert(rest[i] == rules[i + 1]);
        }
        law_the_first_rule_decides(rest, variant, segment, first - 1);
    }
}

/// Padding fills up the last block, and adds a block where that is full: what
/// comes out is whole blocks, and between one byte and a block longer.
pub proof fn law_padding_fills_whole_blocks(len: int)
    requires
        len >= 0,
    ensures
        padded_len(len) % 16 == 0,
        len < padded_len(len) <= len + 16,
{
}

/// An ABR segment says of itself which it is and how much follows its head of
/// nine bytes.
#[verifier::rlimit(60)]
pub proof fn law_an_abr_segment_describes_itself(variant: int, segment: int)
    requires
        0 <= variant,
        0 <= segment,
    ensures
        ({
            let data = abr_segment(variant, segment);
            &&& data.len() == abr_len(variant, segment)
            &&& variant < 256 ==> data[0] == variant
            &&& (variant - data[0]) % 256 == 0
            &&& segment < 0x1_0000_0000 ==> be_value(data.subrange(1, 5)) == segment
            &&& (segment - be_value(data.subrange(1, 5))) % 0x1_0000_0000 == 0
            &&& be_value(data.subrange(5, 9)) == data.len() - 9
            &&& forall|i: int| 9 <= i < data.len() ==> #[trigger] data[i] == 'A' as u8
            &&& data.len() == if variant == 2 && segment == 0 {
                50_000
            } else {
                200_000int
            }
        }),
{
    let data = abr_segment(variant, segment);
    lemma_byte_powers();
    law_bytes_read_back(low32(segment), 4);
    law_bytes_read_back(abr_len(variant, segment) - 9, 4);
    assert(data.subrange(1, 5) =~= be_bytes(low32(segment), 4));
    assert(data.subrange(5, 9) =~= be_bytes(abr_len(variant, segment) - 9, 4));
}

/// A test segment is as long as asked for. It begins with the text that names
/// its variant and its number, as far as there is room, and nothing but `0xFF`
/// follows.
pub proof fn law_a_test_segment_names_itself(variant: nat, segment: nat, size: nat, i: int)
    requires
        0 <= i < size,
    ensures
        ({
            let data = test_segment(variant, segment, size);
            let name = encode_utf8(
                "V"@ + decimal(variant) + "-SEG-"@ + decimal(segment) + ":TEST_SEGMENT_DATA"@,
            );
            &&& data.len() == size
            &&& i < name.len() ==> data[i] == name[i]
            &&& name.len() <= i ==> data[i] == 0xFF
        }),
{
}

/// The prefixes of two test segments differ, unless both are the same segment of
/// the same variant.
#[verifier::rlimit(60)]
pub proof fn law_every_test_segment_has_its_own_prefix(
    variant: nat,
    segment: nat,
    other_variant: nat,
    other_segment: nat,
)
    requires
        segment_prefix(variant, segment) == segment_prefix(other_variant, other_segment),
    ensures
        variant == other_variant,
        segment == other_segment,
{
    reveal_strlit("V");
    reveal_strlit("-SEG-");
    reveal_strlit(":TEST_SEGMENT_DATA");
    let v = decimal(variant);
    let w = decimal(other_variant);
    let s = decimal(segment);
    let t = decimal(other_segment);
    let text = segment_prefix(variant, segment);
    lemma_decimal_digits(variant);
    lemma_decimal_digits(other_variant);
    assert(text[1int + v.len()] == '-' && text[1int + w.len()] == '-');
    assert(forall|i: int| 0 <= i < v.len() ==> #[trigger] v[i] == text[i + 1]);
    assert(forall|i: int| 0 <= i < w.len() ==> #[trigger] w[i] == text[i + 1]);
    if v.len() < w.len() {
        assert(w[v.len() as int] == '-');
    }
    if w.len() < v.len() {
        assert(v[w.len() as int] == '-');
    }
    assert(v =~= w);
    assert(text.len() == 24 + v.len() + s.len());
    assert(segment_prefix(other_variant, other_segment).len() == 24 + w.len() + t.len());
    assert(s.len() == t.len());
    assert(s =~= t) by {
        assert forall|i: int| 0 <= i < s.len() implies s[i] == t[i] by {
            assert(text[i + 6 + v.len()] == s[i]);
            assert(text[i + 6 + v.len()] == t[i]);
        }
    }
    law_decimal_is_parsed_back(variant, (variant + other_variant) as int);
    law_decimal_is_parsed_back(other_variant, (variant + other_variant) as int);
    law_decimal_is_parsed_back(segment, (segment + other_segment) as int);
    law_decimal_is_parsed_back(other_segment, (segment + other_segment) as int);
}

/// As many whole frames are made as the segments of a variant hold, and not one
/// more.
pub proof fn law_frames_fill_the_segments(segments: int, size: int, channels: int)
    requires
        segments >= 0,
        size >= 0,
        channels > 0,
    ensures
        frames_of(segments, size, channels) >= 0,
        frames_of(segments, size, channels) * channels * 2 <= segments * size,
        segments * size < (frames_of(segments, size, channels) + 1) * channels * 2,
{
    let total = segments * size;
    let width = channels * 2;
    let frames = total / width;
    assert(total >= 0) by (nonlinear_arith)
        requires
            total == segments * size,
            segments >= 0,
            size >= 0,
    ;
    vstd::arithmetic::div_mod::lemma_fundamental_div_mod(total, width);
    vstd::arithmetic::div_mod::lemma_div_pos_is_pos(total, width);
    assert(frames * channels * 2 == width * frames && (frames + 1) * channels * 2 == width * frames
        + width) by (nonlinear_arith)
        requires
            width == channels * 2,
    ;
}

/// A variant follows the wave that is named for it, and the ascending one where
/// none is: more names leave the earlier variants as they are.
pub proof fn law_a_variant_follows_its_own_wave(
    patterns: Seq<PcmPattern>,
    more: Seq<PcmPattern>,
    variant: int,
)
    requires
        0 <= variant,
    ensures
        variant < patterns.len() ==> pattern_of(patterns + more, variant) == patterns[variant],
        variant >= patterns.len() ==> pattern_of(patterns, variant) == PcmPattern::Ascending,
{
}

/// A variant without an init segment has an empty one. Bytes that were given for
/// the variants make one exactly where they are not empty, and are served as
/// they are.
pub proof fn law_an_absent_init_segment_is_empty(spec: ResolvedHlsSpec, variant: int)
    requires
        variant >= 0,
    ensures
        !spec.init_mode.present_for(variant) ==> init_of(spec, variant).len() == 0,
        spec.init_mode matches ResolvedInitMode::PerVariantBytes(data) ==> {
            &&& spec.init_mode.present_for(variant) <==> init_of(spec, variant).len() > 0
            &&& variant < data@.len() ==> init_of(spec, variant) == data@[variant]@
        },
        spec.init_mode is TestInit ==> spec.init_mode.present_for(variant) && init_of(spec, variant)
            == encode_utf8("V"@ + decimal(variant as nat) + "-INIT:TEST_INIT_DATA"@),
        spec.init_mode matches ResolvedInitMode::WavHeader { sample_rate, channels } ==> {
            &&& spec.init_mode.present_for(variant)
            &&& init_of(spec, variant).len() == 44
            &&& header_fits(sample_rate, channels, None) ==> le_value(
                init_of(spec, variant).subrange(22, 24),
            ) == channels && le_value(init_of(spec, variant).subrange(24, 28)) == sample_rate
                && le_value(init_of(spec, variant).subrange(40, 44)) == u32::MAX
        },
        spec.init_mode is Absent ==> !spec.init_mode.present_for(variant),
{
    if let ResolvedInitMode::WavHeader { sample_rate, channels } = spec.init_mode {
        if header_fits(sample_rate, channels, None) {
            law_header_fields_agree(sample_rate, channels, None);
        }
    }
}

/// A stream of bytes of its own for each variant serves each variant's own: it
/// has the segments of the variants that bytes were given for, and in each they
/// join to its bytes as far as they reach.
#[verifier::rlimit(60)]
pub proof fn law_each_variant_serves_its_own_bytes(spec: ResolvedHlsSpec, variant: int)
    requires
        spec.data_mode is PerVariantBytes,
        0 <= variant < spec.data_mode->PerVariantBytes_0@.len(),
        spec.segments_per_variant * spec.segment_size <= usize::MAX,
    ensures
        forall|segment: int|
            0 <= segment ==> (#[trigger] has_segment(spec, variant, segment) <==> variant
                < spec.variant_count && segment < spec.segments_per_variant),
        ({
            let bytes = spec.data_mode->PerVariantBytes_0@[variant]@;
            let reach = spec.segments_per_variant * spec.segment_size;
            joined_plaintext(spec, variant, spec.segments_per_variant as nat) == bytes.take(
                if bytes.len() < reach {
                    bytes.len() as int
                } else {
                    reach
                },
            )
        }),
{
    let size = spec.segment_size as int;
    let count = spec.segments_per_variant as int;
    assert forall|segment: int| 0 <= segment implies (#[trigger] has_segment(
        spec,
        variant,
        segment,
    ) <==> variant < spec.variant_count && segment < count) by {
        if segment < count {
            assert(segment * size <= count * size) by (nonlinear_arith)
                requires
                    segment <= count,
                    size >= 0,
            ;
        }
    }
    law_segments_join_to_the_data(spec, variant, count as nat);
    let bytes = spec.data_mode->PerVariantBytes_0@[variant]@;
    assert(count * size >= 0) by (nonlinear_arith)
        requires
            count >= 0,
            size >= 0,
    ;
    let reach = count * size;
    assert(cut(bytes, 0, reach) =~= bytes.take(
        if bytes.len() < reach {
            bytes.len() as int
        } else {
            reach
        },
    ));
}

/// A stream of PCM carries its variant's wave: a sample reads back from the
/// joined segments where its frame and channel stand.
#[verifier::rlimit(60)]
pub proof fn law_a_pcm_stream_carries_its_wave(
    spec: ResolvedHlsSpec,
    variant: int,
    frame: int,
    channel: int,
)
    requires
        spec.data_mode is PerVariantPcm,
        spec.data_mode->PerVariantPcm_channels > 0,
        spec.segments_per_variant * spec.segment_size <= usize::MAX,
        0 <= channel < spec.data_mode->PerVariantPcm_channels,
        0 <= frame,
        (frame + 1) * spec.data_mode->PerVariantPcm_channels * 2 <= spec.segments_per_variant
            * spec.segment_size,
    ensures
        ({
            let channels = spec.data_mode->PerVariantPcm_channels as int;
            let patterns = spec.data_mode->PerVariantPcm_patterns@;
            let rate = spec.data_mode->PerVariantPcm_sample_rate;
            let wave = if 0 <= variant < patterns.len() {
                patterns[variant]
            } else {
                PcmPattern::Ascending
            };
            let data = joined_plaintext(spec, variant, spec.segments_per_variant as nat);
            let at = (frame * channels + channel) * 2;
            let n = data[at] + 256 * data[at + 1];
            &&& 0 <= at
            &&& at + 1 < data.len()
            &&& wave.sample_at(frame as u64, rate) == if n < 0x8000 {
                n
            } else {
                n - 0x1_0000
            }
        }),
{
    let channels = spec.data_mode->PerVariantPcm_channels as int;
    let rate = spec.data_mode->PerVariantPcm_sample_rate;
    let wave = pattern_of(spec.data_mode->PerVariantPcm_patterns@, variant);
    let count = spec.segments_per_variant as int;
    let size = spec.segment_size as int;
    let frames = frames_of(count, size, channels);
    law_frames_fill_the_segments(count, size, channels);
    let reach = count * size;
    assert(frame < frames) by (nonlinear_arith)
        requires
            (frame + 1) * channels * 2 <= reach,
            reach < (frames + 1) * channels * 2,
            channels > 0,
    ;
    assert(frames <= reach) by (nonlinear_arith)
        requires
            frames * channels * 2 <= reach,
            channels > 0,
            frames >= 0,
    ;
    let data = pcm_data(wave, rate, channels, frames);
    law_pcm_reads_back(wave, rate, channels, frames, frame, channel);
    law_segments_join_to_the_data(spec, variant, count as nat);
    assert(cut(data, 0, reach) =~= data);
}

/// A sawtooth stream is one WAV file: its joined segments begin with a header
/// that names the rate, the channels and the size of the PCM behind it, as far
/// as the segments reach.
#[verifier::rlimit(60)]
pub proof fn law_a_sawtooth_stream_is_one_file(spec: ResolvedHlsSpec, variant: int, i: int)
    requires
        spec.data_mode is SawWav,
        spec.data_mode->SawWav_channels > 0,
        0 <= i,
        i < spec.segments_per_variant * spec.segment_size,
        spec.segments_per_variant * spec.segment_size <= u32::MAX,
    ensures
        ({
            let channels = spec.data_mode->SawWav_channels;
            let rate = spec.data_mode->SawWav_sample_rate;
            let reach = spec.segments_per_variant * spec.segment_size;
            let frames = reach / (channels * 2);
            let file = wav_file(Sawtooth, rate, channels, frames as u64);
            let data = joined_plaintext(spec, variant, spec.segments_per_variant as nat);
            &&& i < data.len() <==> i < file.len()
            &&& i < file.len() ==> data[i] == file[i]
        }),
{
    let channels = spec.data_mode->SawWav_channels as int;
    let count = spec.segments_per_variant as int;
    let size = spec.segment_size as int;
    law_frames_fill_the_segments(count, size, channels);
    law_segments_join_to_the_data(spec, variant, count as nat);
}

/// A segment that is not there has no length. One that is has the length it is
/// served with: its own in the clear, whole blocks of sixteen bytes above that
/// where it is encrypted. A request for the length alone is told the size that
/// the description reports, or the length in the clear.
pub proof fn law_a_segment_reports_its_length(
    spec: ResolvedHlsSpec,
    variant: int,
    segment: int,
    head: bool,
)
    requires
        plaintext_of(spec, variant, segment).len() + 16 <= usize::MAX,
    ensures
        segment_len_of(spec, variant, segment, head) is Some <==> has_segment(
            spec,
            variant,
            segment,
        ),
        segment_len_of(spec, variant, segment, head) matches Some(len) ==> {
            let plain = plaintext_of(spec, variant, segment).len();
            &&& head && spec.head_reported_segment_size is Some ==> len
                == spec.head_reported_segment_size->0
            &&& head && spec.head_reported_segment_size is None ==> len == plain
            &&& !head && spec.encryption is None ==> len == plain
            &&& !head && spec.encryption is Some ==> len % 16 == 0 && plain < len <= plain + 16
        },
{
}

} // verus!
