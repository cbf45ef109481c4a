//! The description of a synthetic HLS stream, and the form it is generated
//! from once its references are resolved.

use crate::hex_text::{hex_bytes, hex_text, is_hex, law_hex_reads_back};
use crate::hls_blob_store::BlobStore;
use crate::hls_url::HlsSpec;
use crate::outside::{hex_decode, hex_encode};
use crate::signal_source::{
    law_the_descending_wave_mirrors_the_ascending, law_the_sawtooth_climbs, Sawtooth,
    SawtoothDescending, SignalFn,
};
use crate::text::decimal;
use vstd::prelude::*;
use vstd::string::*;

verus! {

/// How long a segment lasts: the bit pattern of the seconds as a 64-bit float,
/// the whole seconds that it does not exceed, and the seconds with one decimal.
#[derive(Debug)]
pub struct SegmentDuration {
    pub bits: u64,
    pub target_secs: u64,
    pub label: String,
}

impl SegmentDuration {
    pub open spec fn is_four_seconds(&self) -> bool {
        &&& self.bits == 0x4010_0000_0000_0000
        &&& self.target_secs == 4
        &&& self.label@ == "4.0"@
    }

    pub open spec fn same(&self, other: &SegmentDuration) -> bool {
        &&& self.bits == other.bits
        &&& self.target_secs == other.target_secs
        &&& self.label@ == other.label@
    }

    pub fn four_seconds() -> (duration: Self)
        ensures
            duration.is_four_seconds(),
    {
        SegmentDuration {
            bits: 0x4010_0000_0000_0000,
            target_secs: 4,
            label: String::from_str("4.0"),
        }
    }

    pub fn duplicate(&self) -> (duration: Self)
        ensures
            duration.same(self),
    {
        SegmentDuration {
            bits: self.bits,
            target_secs: self.target_secs,
            label: self.label.clone(),
        }
    }
}

/// A wave that a variant can carry.
#[derive(Clone, Copy, Debug, PartialEq, Eq, Structural)]
pub enum PcmPattern {
    Ascending,
    Descending,
}

impl SignalFn for PcmPattern {
    open spec fn sample_at(&self, frame: u64, sample_rate: u32) -> i16 {
        match self {
            PcmPattern::Ascending => Sawtooth.sample_at(frame, sample_rate),
            PcmPattern::Descending => SawtoothDescending.sample_at(frame, sample_rate),
        }
    }

    fn sample(&self, frame: u64, sample_rate: u32) -> (sample: i16) {
        match self {
            PcmPattern::Ascending => Sawtooth.sample(frame, sample_rate),
            PcmPattern::Descending => SawtoothDescending.sample(frame, sample_rate),
        }
    }
}

/// What the segments of a stream hold.
#[derive(Debug)]
pub enum DataMode {
    TestPattern,
    AbrBinary,
    SawWav { sample_rate: u32, channels: u16 },
    PerVariantPcm { sample_rate: u32, channels: u16, patterns: Vec<PcmPattern> },
    CustomDataPerVariant(Vec<Vec<u8>>),
    BlobRef(String),
    BlobRefs(Vec<String>),
}

/// What the init segments of a stream hold.
#[derive(Debug)]
pub enum InitMode {
    Absent,
    TestInit,
    WavHeader { sample_rate: u32, channels: u16 },
    Custom(Vec<Vec<u8>>),
    BlobRefs(Vec<String>),
}

/// A delay for some of the segments.
#[derive(Clone, Copy, Debug, PartialEq, Eq, Structural)]
pub struct DelayRule {
    pub variant: Option<usize>,
    pub segment_eq: Option<usize>,
    pub segment_gte: Option<usize>,
    pub delay_ms: u64,
}

impl DelayRule {
    /// Whether the rule is for this segment: each condition that it has, holds.
    pub open spec fn applies(self, variant: usize, segment: usize) -> bool {
        &&& self.variant matches Some(wanted) ==> wanted == variant
        &&& self.segment_eq matches Some(wanted) ==> wanted == segment
        &&& self.segment_gte matches Some(first) ==> first <= segment
    }

    /// The delay, where the rule is for this segment.
    pub fn matches(&self, variant: usize, segment: usize) -> (delay_ms: Option<u64>)
        ensures
            delay_ms == if self.applies(variant, segment) {
                Some(self.delay_ms)
            } else {
                None
            },
    {
        if let Some(wanted) = self.variant {
            if wanted != variant {
                return None;
            }
        }
        if let Some(wanted) = self.segment_eq {
            if wanted != segment {
                return None;
            }
        }
        if let Some(first) = self.segment_gte {
            if segment < first {
                return None;
            }
        }
        Some(self.delay_ms)
    }
}

/// The AES-128 key and initialisation vector a stream asks for, in hexadecimal.
#[derive(Debug)]
pub struct EncryptionRequest {
    pub key_hex: String,
    pub iv_hex: Option<String>,
}

/// An AES-128 key, and the initialisation vector where it is not the segment's
/// number.
#[derive(Debug)]
pub struct ResolvedEncryption {
    pub key: [u8; 16],
    pub iv: Option<[u8; 16]>,
}

impl ResolvedEncryption {
    /// The initialisation vector in hexadecimal.
    pub fn iv_hex(&self) -> (text: Option<String>)
        ensures
            match (self.iv, text) {
                (Some(iv), Some(text)) => text@ == hex_text(iv@),
                (None, None) => true,
                _ => false,
            },
    {
        match &self.iv {
            Some(iv) => Some(hex_encode(iv.as_slice())),
            None => None,
        }
    }
}

/// What the segments of a stream hold, with every reference resolved.
#[derive(Debug)]
pub enum ResolvedDataMode {
    TestPattern,
    AbrBinary,
    SawWav { sample_rate: u32, channels: u16 },
    PerVariantPcm { sample_rate: u32, channels: u16, patterns: Vec<PcmPattern> },
    SharedBytes(Vec<u8>),
    PerVariantBytes(Vec<Vec<u8>>),
}

/// What the init segments of a stream hold, with every reference resolved.
#[derive(Debug)]
pub enum ResolvedInitMode {
    Absent,
    TestInit,
    WavHeader { sample_rate: u32, channels: u16 },
    PerVariantBytes(Vec<Vec<u8>>),
}

impl ResolvedInitMode {
    /// Whether a variant has an init segment.
    pub open spec fn present_for(&self, variant: int) -> bool {
        match self {
            ResolvedInitMode::Absent => false,
            ResolvedInitMode::TestInit => true,
            ResolvedInitMode::WavHeader { .. } => true,
            ResolvedInitMode::PerVariantBytes(data) => variant < data@.len()
                && data@[variant]@.len() > 0,
        }
    }

    /// Whether a variant has an init segment.
    pub fn is_present_for(&self, variant: usize) -> (present: bool)
        ensures
            present == self.present_for(variant as int),
    {
        match self {
            ResolvedInitMode::Absent => false,
            ResolvedInitMode::TestInit => true,
            ResolvedInitMode::WavHeader { .. } => true,
            ResolvedInitMode::PerVariantBytes(data) => variant < data.len() && data[variant].len()
                > 0,
        }
    }
}

/// What a synthetic HLS stream is generated from.
#[derive(Debug)]
pub struct ResolvedHlsSpec {
    pub cache_key: String,
    pub variant_count: usize,
    pub segments_per_variant: usize,
    pub segment_size: usize,
    pub segment_duration: SegmentDuration,
    pub data_mode: ResolvedDataMode,
    pub init_mode: ResolvedInitMode,
    pub variant_bandwidths: Vec<u64>,
    pub delay_rules: Vec<DelayRule>,
    pub encryption: Option<ResolvedEncryption>,
    pub head_reported_segment_size: Option<usize>,
    pub key_data: Option<Vec<u8>>,
}

/// Why a description cannot be generated from.
#[derive(Debug)]
pub enum HlsSpecError {
    /// Nothing is stored under this key.
    MissingBlob(String),
    /// A key is not hexadecimal, or not 16 bytes long where it encrypts.
    InvalidKey,
    /// The initialisation vector is not 16 bytes of hexadecimal.
    InvalidIv,
}

/// The same, as a value.
pub enum Problem {
    MissingBlob(Seq<char>),
    InvalidKey,
    InvalidIv,
}

impl HlsSpecError {
    pub open spec fn problem(&self) -> Problem {
        match self {
            HlsSpecError::MissingBlob(key) => Problem::MissingBlob(key@),
            HlsSpecError::InvalidKey => Problem::InvalidKey,
            HlsSpecError::InvalidIv => Problem::InvalidIv,
        }
    }

    pub fn message(&self) -> (message: String)
        ensures
            message@ == match self.problem() {
                Problem::MissingBlob(key) => "no blob is registered under "@ + key,
                Problem::InvalidKey => "the key is not valid hexadecimal"@,
                Problem::InvalidIv => "the initialisation vector is not valid hexadecimal"@,
            },
    {
        match self {
            HlsSpecError::MissingBlob(key) => {
                let mut message = String::from_str("no blob is registered under ");
                message.append(key.as_str());
                message
            },
            HlsSpecError::InvalidKey => String::from_str("the key is not valid hexadecimal"),
            HlsSpecError::InvalidIv => String::from_str(
                "the initialisation vector is not valid hexadecimal",
            ),
        }
    }
}

/// The bytes of each part.
pub open spec fn all_bytes(parts: Seq<Vec<u8>>) -> Seq<Seq<u8>> {
    Seq::new(parts.len(), |i: int| parts[i]@)
}

/// The blobs stored under `keys`.
pub open spec fn blobs_at(keys: Seq<String>, blobs: Map<Seq<char>, Seq<u8>>) -> Seq<Seq<u8>> {
    Seq::new(keys.len(), |i: int| blobs[keys[i]@])
}

/// The first of `keys` that nothing is stored under.
pub open spec fn first_missing(
    keys: Seq<String>,
    blobs: Map<Seq<char>, Seq<u8>>,
) -> Option<Seq<char>>
    decreases keys.len(),
{
    if keys.len() == 0 {
        None
    } else if !blobs.contains_key(keys[0]@) {
        Some(keys[0]@)
    } else {
        first_missing(keys.skip(1), blobs)
    }
}

/// What is wrong with the references of `keys`.
pub open spec fn keys_problem(
    keys: Seq<String>,
    blobs: Map<Seq<char>, Seq<u8>>,
) -> Option<Problem> {
    match first_missing(keys, blobs) {
        Some(key) => Some(Problem::MissingBlob(key)),
        None => None,
    }
}

/// What is wrong with a data mode.
pub open spec fn data_problem(mode: DataMode, blobs: Map<Seq<char>, Seq<u8>>) -> Option<Problem> {
    match mode {
        DataMode::BlobRef(key) => if blobs.contains_key(key@) {
            None
        } else {
            Some(Problem::MissingBlob(key@))
        },
        DataMode::BlobRefs(keys) => keys_problem(keys@, blobs),
        _ => None,
    }
}

/// What is wrong with an init mode.
pub open spec fn init_problem(mode: InitMode, blobs: Map<Seq<char>, Seq<u8>>) -> Option<Problem> {
    match mode {
        InitMode::BlobRefs(keys) => keys_problem(keys@, blobs),
        _ => None,
    }
}

/// Whether `text` writes 16 bytes.
pub open spec fn is_hex16(text: Seq<char>) -> bool {
    is_hex(text) && text.len() == 32
}

/// What is wrong with a requested encryption.
pub open spec fn encryption_problem(request: Option<EncryptionRequest>) -> Option<Problem> {
    match request {
        Some(request) => if !is_hex16(request.key_hex@) {
            Some(Problem::InvalidKey)
        } else if request.iv_hex matches Some(iv) && !is_hex16(iv@) {
            Some(Problem::InvalidIv)
        } else {
            None
        },
        None => None,
    }
}

/// What is wrong with the key that a stream serves.
pub open spec fn key_problem(
    key_hex: Option<String>,
    key_blob_ref: Option<String>,
    blobs: Map<Seq<char>, Seq<u8>>,
) -> Option<Problem> {
    match (key_hex, key_blob_ref) {
        (Some(text), _) => if is_hex(text@) {
            None
        } else {
            Some(Problem::InvalidKey)
        },
        (None, Some(key)) => if blobs.contains_key(key@) {
            None
        } else {
            Some(Problem::MissingBlob(key@))
        },
        (None, None) => None,
    }
}

/// What is wrong with a description, the first thing first.
pub open spec fn spec_problem(spec: HlsSpec, blobs: Map<Seq<char>, Seq<u8>>) -> Option<Problem> {
    if data_problem(spec.data_mode, blobs) is Some {
        data_problem(spec.data_mode, blobs)
    } else if init_problem(spec.init_mode, blobs) is Some {
        init_problem(spec.init_mode, blobs)
    } else if encryption_problem(spec.encryption) is Some {
        encryption_problem(spec.encryption)
    } else {
        key_problem(spec.key_hex, spec.key_blob_ref, blobs)
    }
}

/// Whether `resolved` is `mode` with its references resolved.
pub open spec fn data_resolves(
    mode: DataMode,
    blobs: Map<Seq<char>, Seq<u8>>,
    resolved: ResolvedDataMode,
) -> bool {
    match mode {
        DataMode::TestPattern => resolved is TestPattern,
        DataMode::AbrBinary => resolved is AbrBinary,
        DataMode::SawWav { sample_rate, channels } => resolved == (ResolvedDataMode::SawWav {
            sample_rate,
            channels,
        }),
        DataMode::PerVariantPcm { sample_rate, channels, patterns } => {
            resolved matches ResolvedDataMode::PerVariantPcm {
                sample_rate: rate,
                channels: width,
                patterns: waves,
            } && rate == sample_rate && width == channels && waves@ == patterns@
        },
        DataMode::CustomDataPerVariant(data) => {
            resolved matches ResolvedDataMode::PerVariantBytes(bytes) && all_bytes(bytes@)
                == all_bytes(data@)
        },
        DataMode::BlobRef(key) => {
            resolved matches ResolvedDataMode::SharedBytes(bytes) && bytes@ == blobs[key@]
        },
        DataMode::BlobRefs(keys) => {
            resolved matches ResolvedDataMode::PerVariantBytes(bytes) && all_bytes(bytes@)
                == blobs_at(keys@, blobs)
        },
    }
}

/// Whether `resolved` is `mode` with its references resolved.
pub open spec fn init_resolves(
    mode: InitMode,
    blobs: Map<Seq<char>, Seq<u8>>,
    resolved: ResolvedInitMode,
) -> bool {
    match mode {
        InitMode::Absent => resolved is Absent,
        InitMode::TestInit => resolved is TestInit,
        InitMode::WavHeader { sample_rate, channels } => resolved == (ResolvedInitMode::WavHeader {
            sample_rate,
            channels,
        }),
        InitMode::Custom(data) => {
            resolved matches ResolvedInitMode::PerVariantBytes(bytes) && all_bytes(bytes@)
                == all_bytes(data@)
        },
        InitMode::BlobRefs(keys) => {
            resolved matches ResolvedInitMode::PerVariantBytes(bytes) && all_bytes(bytes@)
                == blobs_at(keys@, blobs)
        },
    }
}

/// Whether `resolved` is the encryption that `request` writes.
pub open spec fn encryption_resolves(
    request: Option<EncryptionRequest>,
    resolved: Option<ResolvedEncryption>,
) -> bool {
    match (request, resolved) {
        (Some(request), Some(resolved)) => {
            &&& resolved.key@ == hex_bytes(request.key_hex@)
            &&& match (request.iv_hex, resolved.iv) {
                (Some(text), Some(iv)) => iv@ == hex_bytes(text@),
                (None, None) => true,
                _ => false,
            }
        },
        (None, None) => true,
        _ => false,
    }
}

/// Whether `resolved` is the key that a stream serves.
pub open spec fn key_resolves(
    key_hex: Option<String>,
    key_blob_ref: Option<String>,
    blobs: Map<Seq<char>, Seq<u8>>,
    resolved: Option<Vec<u8>>,
) -> bool {
    match (key_hex, key_blob_ref, resolved) {
        (Some(text), _, Some(key)) => key@ == hex_bytes(text@),
        (None, Some(name), Some(key)) => key@ == blobs[name@],
        (None, None, None) => true,
        _ => false,
    }
}

/// The bandwidth of the n-th variant of a stream that names none.
pub open spec fn default_bandwidth(variant: int) -> int {
    if (variant + 1) * 1_280_000 <= u64::MAX {
        (variant + 1) * 1_280_000
    } else {
        u64::MAX as int
    }
}

/// Whether `resolved` is what `spec` describes.
pub open spec fn spec_resolves(
    spec: HlsSpec,
    blobs: Map<Seq<char>, Seq<u8>>,
    cache_key: Seq<char>,
    resolved: ResolvedHlsSpec,
) -> bool {
    &&& resolved.cache_key@ == cache_key
    &&& resolved.variant_count == spec.variant_count
    &&& resolved.segments_per_variant == spec.segments_per_variant
    &&& resolved.segment_size == spec.segment_size
    &&& resolved.segment_duration.same(&spec.segment_duration)
    &&& data_resolves(spec.data_mode, blobs, resolved.data_mode)
    &&& init_resolves(spec.init_mode, blobs, resolved.init_mode)
    &&& match spec.variant_bandwidths {
        Some(bandwidths) => resolved.variant_bandwidths@ == bandwidths@,
        None => {
            &&& resolved.variant_bandwidths@.len() == spec.variant_count
            &&& forall|i: int|
                0 <= i < spec.variant_count ==> #[trigger] resolved.variant_bandwidths@[i]
                    == default_bandwidth(i)
        },
    }
    &&& resolved.delay_rules@ == spec.delay_rules@
    &&& encryption_resolves(spec.encryption, resolved.encryption)
    &&& resolved.head_reported_segment_size == spec.head_reported_segment_size
    &&& key_resolves(spec.key_hex, spec.key_blob_ref, blobs, resolved.key_data)
}

/// The blobs stored under `keys`.
fn resolve_blobs(keys: &Vec<String>, blobs: &BlobStore) -> (resolved: Result<
    Vec<Vec<u8>>,
    HlsSpecError,
>)
    ensures
        match resolved {
            Ok(data) => {
                &&& keys_problem(keys@, blobs.contents()) is None
                &&& all_bytes(data@) == blobs_at(keys@, blobs.contents())
            },
            Err(error) => keys_problem(keys@, blobs.contents()) == Some(error.problem()),
        },
{
    let mut data: Vec<Vec<u8>> = Vec::new();
    let mut i: usize = 0;
    assert(keys@.skip(0) =~= keys@);
    while i < keys.len()
        invariant
            i <= keys@.len(),
            data@.len() == i,
            first_missing(keys@, blobs.contents()) == first_missing(
                keys@.skip(i as int),
                blobs.contents(),
            ),
            forall|k: int| 0 <= k < i ==> (#[trigger] data@[k])@ == blobs.contents()[keys@[k]@],
        decreases keys@.len() - i,
    {
        assert(keys@.skip(i as int).skip(1) =~= keys@.skip(i + 1));
        match blobs.resolve_hls_blob(keys[i].as_str()) {
            Some(blob) => data.push(blob),
            None => return Err(HlsSpecError::MissingBlob(keys[i].clone())),
        }
        i += 1;
    }
    assert(all_bytes(data@) =~= blobs_at(keys@, blobs.contents()));
    Ok(data)
}

fn resolve_data(mode: DataMode, blobs: &BlobStore) -> (resolved: Result<
    ResolvedDataMode,
    HlsSpecError,
>)
    ensures
        match resolved {
            Ok(resolved) => {
                &&& data_problem(mode, blobs.contents()) is None
                &&& data_resolves(mode, blobs.contents(), resolved)
            },
            Err(error) => data_problem(mode, blobs.contents()) == Some(error.problem()),
        },
{
    match mode {
        DataMode::TestPattern => Ok(ResolvedDataMode::TestPattern),
        DataMode::AbrBinary => Ok(ResolvedDataMode::AbrBinary),
        DataMode::SawWav { sample_rate, channels } => Ok(
            ResolvedDataMode::SawWav { sample_rate, channels },
        ),
        DataMode::PerVariantPcm { sample_rate, channels, patterns } => Ok(
            ResolvedDataMode::PerVariantPcm { sample_rate, channels, patterns },
        ),
        DataMode::CustomDataPerVariant(data) => Ok(ResolvedDataMode::PerVariantBytes(data)),
        DataMode::BlobRef(key) => match blobs.resolve_hls_blob(key.as_str()) {
            Some(blob) => Ok(ResolvedDataMode::SharedBytes(blob)),
            None => Err(HlsSpecError::MissingBlob(key)),
        },
        DataMode::BlobRefs(keys) => match resolve_blobs(&keys, blobs) {
            Ok(data) => Ok(ResolvedDataMode::PerVariantBytes(data)),
            Err(error) => Err(error),
        },
    }
}

fn resolve_init(mode: InitMode, blobs: &BlobStore) -> (resolved: Result<
    ResolvedInitMode,
    HlsSpecError,
>)
    ensures
        match resolved {
            Ok(resolved) => {
                &&& init_problem(mode, blobs.contents()) is None
                &&& init_resolves(mode, blobs.contents(), resolved)
            },
            Err(error) => init_problem(mode, blobs.contents()) == Some(error.problem()),
        },
{
    match mode {
        InitMode::Absent => Ok(ResolvedInitMode::Absent),
        InitMode::TestInit => Ok(ResolvedInitMode::TestInit),
        InitMode::WavHeader { sample_rate, channels } => Ok(
            ResolvedInitMode::WavHeader { sample_rate, channels },
        ),
        InitMode::Custom(data) => Ok(ResolvedInitMode::PerVariantBytes(data)),
        InitMode::BlobRefs(keys) => match resolve_blobs(&keys, blobs) {
            Ok(data) => Ok(ResolvedInitMode::PerVariantBytes(data)),
            Err(error) => Err(error),
        },
    }
}

/// Sixteen bytes of hexadecimal.
fn decode_hex16(text: &str) -> (bytes: Option<[u8; 16]>)
    ensures
        bytes is Some <==> is_hex16(text@),
        bytes matches Some(bytes) ==> bytes@ == hex_bytes(text@),
{
    match hex_decode(text) {
        Some(data) => {
            if data.len() != 16 {
                return None;
            }
            let mut bytes: [u8; 16] = [0; 16];
            let mut i: usize = 0;
            while i < 16
                invariant
                    i <= 16,
                    data@.len() == 16,
                    forall|k: int| 0 <= k < i ==> #[trigger] bytes@[k] == data@[k],
                decreases 16 - i,
            {
                bytes[i] = data[i];
                i += 1;
            }
            assert(bytes@ =~= data@);
            Some(bytes)
        },
        None => None,
    }
}

fn resolve_encryption(request: Option<EncryptionRequest>) -> (resolved: Result<
    Option<ResolvedEncryption>,
    HlsSpecError,
>)
    ensures
        match resolved {
            Ok(resolved) => {
                &&& encryption_problem(request) is None
                &&& encryption_resolves(request, resolved)
            },
            Err(error) => encryption_problem(request) == Some(error.problem()),
        },
{
    match request {
        Some(request) => {
            let key = match decode_hex16(request.key_hex.as_str()) {
                Some(key) => key,
                None => return Err(HlsSpecError::InvalidKey),
            };
            let iv = match &request.iv_hex {
                Some(text) => match decode_hex16(text.as_str()) {
                    Some(iv) => Some(iv),
                    None => return Err(HlsSpecError::InvalidIv),
                },
                None => None,
            };
            Ok(Some(ResolvedEncryption { key, iv }))
        },
        None => Ok(None),
    }
}

fn resolve_key(
    key_hex: Option<String>,
    key_blob_ref: Option<String>,
    blobs: &BlobStore,
) -> (resolved: Result<Option<Vec<u8>>, HlsSpecError>)
    ensures
        match resolved {
            Ok(resolved) => {
                &&& key_problem(key_hex, key_blob_ref, blobs.contents()) is None
                &&& key_resolves(key_hex, key_blob_ref, blobs.contents(), resolved)
            },
            Err(error) => key_problem(key_hex, key_blob_ref, blobs.contents()) == Some(
                error.problem(),
            ),
        },
{
    match key_hex {
        Some(text) => match hex_decode(text.as_str()) {
            Some(key) => Ok(Some(key)),
            None => Err(HlsSpecError::InvalidKey),
        },
        None => match key_blob_ref {
            Some(name) => match blobs.resolve_hls_blob(name.as_str()) {
                Some(key) => Ok(Some(key)),
                None => Err(HlsSpecError::MissingBlob(name)),
            },
            None => Ok(None),
        },
    }
}

/// The bandwidths of a stream that names none.
fn default_bandwidths(count: usize) -> (bandwidths: Vec<u64>)
    ensures
        bandwidths@.len() == count,
        forall|i: int| 0 <= i < count ==> #[trigger] bandwidths@[i] == default_bandwidth(i),
{
    let mut bandwidths: Vec<u64> = Vec::new();
    let mut i: usize = 0;
    while i < count
        invariant
            i <= count,
            bandwidths@.len() == i,
            forall|k: int| 0 <= k < i ==> #[trigger] bandwidths@[k] == default_bandwidth(k),
        decreases count - i,
    {
        let wide: u128 = (i as u128 + 1) * 1_280_000;
        bandwidths.push(
            if wide <= u64::MAX as u128 {
                wide as u64
            } else {
                u64::MAX
            },
        );
        i += 1;
    }
    bandwidths
}

/// Resolve what a description refers to, so that a stream can be generated
/// from it. `cache_key` names the description.
///
/// # Errors
/// What is wrong with the description: a key that nothing is stored under, or
/// a key or an initialisation vector that is not written as it has to be.
pub fn resolve_hls_spec(spec: HlsSpec, blobs: &BlobStore, cache_key: String) -> (resolved: Result<
    ResolvedHlsSpec,
    HlsSpecError,
>)
    ensures
        match resolved {
            Ok(resolved) => {
                &&& spec_problem(spec, blobs.contents()) is None
                &&& spec_resolves(spec, blobs.contents(), cache_key@, resolved)
            },
            Err(error) => spec_problem(spec, blobs.contents()) == Some(error.problem()),
        },
{
    let data_mode = match resolve_data(spec.data_mode, blobs) {
        Ok(mode) => mode,
        Err(error) => return Err(error),
    };
    let init_mode = match resolve_init(spec.init_mode, blobs) {
        Ok(mode) => mode,
        Err(error) => return Err(error),
    };
    let encryption = match resolve_encryption(spec.encryption) {
        Ok(encryption) => encryption,
        Err(error) => return Err(error),
    };
    let key_data = match resolve_key(spec.key_hex, spec.key_blob_ref, blobs) {
        Ok(key) => key,
        Err(error) => return Err(error),
    };
    let variant_bandwidths = match spec.variant_bandwidths {
        Some(bandwidths) => bandwidths,
        None => default_bandwidths(spec.variant_count),
    };
    Ok(
        ResolvedHlsSpec {
            cache_key,
            variant_count: spec.variant_count,
            segments_per_variant: spec.segments_per_variant,
            segment_size: spec.segment_size,
            segment_duration: spec.segment_duration,
            data_mode,
            init_mode,
            variant_bandwidths,
            delay_rules: spec.delay_rules,
            encryption,
            head_reported_segment_size: spec.head_reported_segment_size,
            key_data,
        },
    )
}

/// A rule whose only condition on the segment is the first one it is for
/// applies to that segment and every later one, and to none before it.
pub proof fn law_a_rule_holds_from_its_first_segment_on(
    rule: DelayRule,
    variant: usize,
    first: usize,
    segment: usize,
    later: usize,
)
    requires
        rule.segment_eq is None,
    ensures
        rule.variant is None && rule.segment_gte == Some(first) ==> (rule.applies(variant, segment)
            <==> !(segment < first)),
        rule.applies(variant, segment) && segment <= later ==> rule.applies(variant, later),
        rule.segment_gte is None ==> rule.applies(variant, segment) == rule.applies(variant, later),
{
}

/// A rule for one segment applies to that one and no other.
pub proof fn law_a_rule_for_one_segment_is_for_no_other(
    rule: DelayRule,
    variant: usize,
    only: usize,
    segment: usize,
)
    requires
        rule.segment_eq == Some(only),
    ensures
        rule.applies(variant, segment) ==> segment == only,
        rule.variant is None && rule.segment_gte is None ==> rule.applies(variant, only),
{
}

/// A rule for one variant applies to no other, and one for no variant in
/// particular to each alike. A rule without conditions applies everywhere.
pub proof fn law_a_rule_for_one_variant_is_for_no_other(
    rule: DelayRule,
    variant: usize,
    other: usize,
    segment: usize,
)
    ensures
        rule.variant is None ==> rule.applies(variant, segment) == rule.applies(other, segment),
        rule.variant == Some(variant) && other != variant ==> !rule.applies(other, segment),
        rule.segment_eq is None && rule.segment_gte is None && (rule.variant is None
            || rule.variant == Some(variant)) ==> rule.applies(variant, segment),
{
}

/// Conditions only narrow: a rule applies exactly where each of its conditions,
/// taken alone, does.
pub proof fn law_conditions_of_a_rule_narrow(rule: DelayRule, variant: usize, segment: usize)
    ensures
        rule.applies(variant, segment) <==> {
            &&& (DelayRule { segment_eq: None, segment_gte: None, ..rule }).applies(
                variant,
                segment,
            )
            &&& (DelayRule { variant: None, segment_gte: None, ..rule }).applies(variant, segment)
            &&& (DelayRule { variant: None, segment_eq: None, ..rule }).applies(variant, segment)
        },
        forall|delay_ms: u64|
            (#[trigger] (DelayRule { delay_ms, ..rule }).applies(variant, segment))
                == rule.applies(variant, segment),
{
}

/// The ascending pattern climbs by one a frame and the descending one falls by
/// one, each from its end of the range and back to it.
pub proof fn law_patterns_climb_and_fall(frame: u64, rate: u32)
    requires
        frame < u64::MAX,
    ensures
        PcmPattern::Ascending.sample_at(0, rate) == i16::MIN,
        PcmPattern::Descending.sample_at(0, rate) == i16::MAX,
        PcmPattern::Ascending.sample_at(frame, rate) < i16::MAX ==> PcmPattern::Ascending.sample_at(
            (frame + 1) as u64,
            rate,
        ) == PcmPattern::Ascending.sample_at(frame, rate) + 1,
        PcmPattern::Descending.sample_at(frame, rate) > i16::MIN
            ==> PcmPattern::Descending.sample_at((frame + 1) as u64, rate)
            == PcmPattern::Descending.sample_at(frame, rate) - 1,
{
    law_the_sawtooth_climbs(frame, rate, rate);
    law_the_descending_wave_mirrors_the_ascending(frame, rate, rate);
}

/// The missing blob that is reported is the first one: all before it are there.
/// Where none is missing, none is reported.
pub proof fn law_the_first_missing_blob_is_reported(
    keys: Seq<String>,
    blobs: Map<Seq<char>, Seq<u8>>,
    first: int,
)
    requires
        0 <= first <= keys.len(),
        forall|i: int| 0 <= i < first ==> blobs.contains_key((#[trigger] keys[i])@),
        first < keys.len() ==> !blobs.contains_key(keys[first]@),
    ensures
        first_missing(keys, blobs) == if first < keys.len() {
            Some(keys[first]@)
        } else {
            None
        },
        keys_problem(keys, blobs) is None <==> first == keys.len(),
        keys_problem(keys, blobs) matches Some(problem) ==> problem == Problem::MissingBlob(
            keys[first]@,
        ),
    decreases keys.len(),
{
    if keys.len() > 0 && first > 0 {
        let rest = keys.skip(1);
        assert(blobs.contains_key(keys[0]@));
        assert forall|i: int| 0 <= i < first - 1 implies blobs.contains_key((#[trigger] rest[i])@) by {
            assert(rest[i] == keys[i + 1]);
        }
        law_the_first_missing_blob_is_reported(rest, blobs, first - 1);
    }
}

/// Whether a blob is stored under every one of `keys`.
proof fn lemma_none_missing(keys: Seq<String>, blobs: Map<Seq<char>, Seq<u8>>)
    ensures
        first_missing(keys, blobs) is None <==> forall|i: int|
            0 <= i < keys.len() ==> blobs.contains_key((#[trigger] keys[i])@),
    decreases keys.len(),
{
    if keys.len() > 0 {
        let rest = keys.skip(1);
        lemma_none_missing(rest, blobs);
        if forall|i: int| 0 <= i < keys.len() ==> blobs.contains_key((#[trigger] keys[i])@) {
            assert(blobs.contains_key(keys[0]@));
            assert forall|i: int| 0 <= i < rest.len() implies blobs.contains_key(
                (#[trigger] rest[i])@,
            ) by {
                assert(rest[i] == keys[i + 1]);
            }
        }
        if first_missing(keys, blobs) is None {
            assert forall|i: int| 0 <= i < keys.len() implies blobs.contains_key(
                (#[trigger] keys[i])@,
            ) by {
                if i > 0 {
                    assert(rest[i - 1] == keys[i]);
                }
            }
        }
    }
}

/// A description is sound exactly when every blob it refers to is stored, its
/// encryption is written in sixteen whole bytes, and its own key in whole bytes.
#[verifier::rlimit(60)]
pub proof fn law_a_sound_description_lacks_nothing(spec: HlsSpec, blobs: Map<Seq<char>, Seq<u8>>)
    ensures
        spec_problem(spec, blobs) is None <==> {
            &&& spec.data_mode matches DataMode::BlobRef(key) ==> blobs.contains_key(key@)
            &&& spec.data_mode matches DataMode::BlobRefs(keys) ==> forall|i: int|
                0 <= i < keys@.len() ==> blobs.contains_key((#[trigger] keys@[i])@)
            &&& spec.init_mode matches InitMode::BlobRefs(keys) ==> forall|i: int|
                0 <= i < keys@.len() ==> blobs.contains_key((#[trigger] keys@[i])@)
            &&& spec.encryption matches Some(request) ==> {
                &&& is_hex(request.key_hex@)
                &&& hex_bytes(request.key_hex@).len() == 16
                &&& request.iv_hex matches Some(iv) ==> is_hex(iv@) && hex_bytes(iv@).len() == 16
            }
            &&& spec.key_hex matches Some(text) ==> is_hex(text@)
            &&& spec.key_hex is None ==> (spec.key_blob_ref matches Some(key)
                ==> blobs.contains_key(key@))
        },
{
    if let DataMode::BlobRefs(keys) = spec.data_mode {
        lemma_none_missing(keys@, blobs);
    }
    if let InitMode::BlobRefs(keys) = spec.init_mode {
        lemma_none_missing(keys@, blobs);
    }
}

/// A key and a vector that were written out in hexadecimal resolve to what they
/// were; a stream without a request is not encrypted.
pub proof fn law_encryption_reads_back(
    request: EncryptionRequest,
    key: Seq<u8>,
    iv: Option<Seq<u8>>,
    resolved: Option<ResolvedEncryption>,
)
    requires
        key.len() == 16,
        request.key_hex@ == hex_text(key),
        iv is Some <==> request.iv_hex is Some,
        iv matches Some(iv) ==> iv.len() == 16 && request.iv_hex->0@ == hex_text(iv),
    ensures
        encryption_problem(Some(request)) is None,
        encryption_resolves(Some(request), resolved) ==> (resolved matches Some(encryption) && {
            &&& encryption.key@ == key
            &&& encryption.iv is Some <==> iv is Some
            &&& iv matches Some(iv) ==> encryption.iv->0@ == iv
        }),
        encryption_resolves(None, resolved) ==> resolved is None,
{
    law_hex_reads_back(key);
    if iv is Some {
        law_hex_reads_back(iv->0);
    }
}

/// A key that was written out in hexadecimal is served as it was, whatever blob
/// is named beside it; otherwise the named blob is, and where neither is given
/// there is none.
pub proof fn law_a_key_reads_back(
    text: String,
    blob: Option<String>,
    key: Seq<u8>,
    blobs: Map<Seq<char>, Seq<u8>>,
    resolved: Option<Vec<u8>>,
)
    requires
        text@ == hex_text(key),
    ensures
        key_problem(Some(text), blob, blobs) is None,
        key_resolves(Some(text), blob, blobs, resolved) ==> (resolved matches Some(served)
            && served@ == key),
        key_resolves(None, blob, blobs, resolved) ==> (resolved is Some <==> blob is Some),
        key_resolves(None, blob, blobs, resolved) ==> (blob matches Some(name)
            ==> resolved->0@ == blobs[name@]),
{
    law_hex_reads_back(key);
}

/// The bandwidths of a stream that names none climb by the first one's, as far as
/// a number can.
pub proof fn law_default_bandwidths_climb(variant: int)
    requires
        variant >= 0,
    ensures
        default_bandwidth(0) == 1_280_000,
        default_bandwidth(variant) + default_bandwidth(0) <= u64::MAX ==> default_bandwidth(
            variant + 1,
        ) == default_bandwidth(variant) + default_bandwidth(0),
        default_bandwidth(variant) <= default_bandwidth(variant + 1) <= u64::MAX,
{
}

/// What a description asks for, it resolves to: its counts and sizes, its rules,
/// the bytes it gives or refers to for each variant, and one bandwidth for each
/// variant where it names none.
#[verifier::rlimit(60)]
pub proof fn law_a_description_resolves_to_what_it_asks_for(
    spec: HlsSpec,
    blobs: Map<Seq<char>, Seq<u8>>,
    cache_key: Seq<char>,
    resolved: ResolvedHlsSpec,
    i: int,
)
    requires
        spec_resolves(spec, blobs, cache_key, resolved),
        i >= 0,
    ensures
        resolved.cache_key@ == cache_key,
        resolved.variant_count == spec.variant_count,
        resolved.segments_per_variant == spec.segments_per_variant,
        resolved.segment_size == spec.segment_size,
        resolved.segment_duration.bits == spec.segment_duration.bits,
        resolved.segment_duration.target_secs == spec.segment_duration.target_secs,
        resolved.segment_duration.label@ == spec.segment_duration.label@,
        resolved.delay_rules@ == spec.delay_rules@,
        resolved.head_reported_segment_size == spec.head_reported_segment_size,
        resolved.encryption is Some <==> spec.encryption is Some,
        resolved.key_data is Some <==> spec.key_hex is Some || spec.key_blob_ref is Some,
        spec.variant_bandwidths matches Some(named) ==> resolved.variant_bandwidths@ == named@,
        spec.variant_bandwidths is None ==> resolved.variant_bandwidths@.len()
            == spec.variant_count,
        spec.data_mode matches DataMode::BlobRef(key) ==> (
        resolved.data_mode matches ResolvedDataMode::SharedBytes(bytes) && bytes@ == blobs[key@]),
        spec.data_mode matches DataMode::BlobRefs(keys) ==> (
        resolved.data_mode matches ResolvedDataMode::PerVariantBytes(bytes) && bytes@.len()
            == keys@.len() && (i < keys@.len() ==> bytes@[i]@ == blobs[keys@[i]@])),
        spec.data_mode matches DataMode::CustomDataPerVariant(data) ==> (
        resolved.data_mode matches ResolvedDataMode::PerVariantBytes(bytes) && bytes@.len()
            == data@.len() && (i < data@.len() ==> bytes@[i]@ == data@[i]@)),
        spec.init_mode matches InitMode::BlobRefs(keys) ==> (
        resolved.init_mode matches ResolvedInitMode::PerVariantBytes(bytes) && bytes@.len()
            == keys@.len() && (i < keys@.len() ==> bytes@[i]@ == blobs[keys@[i]@])),
        spec.init_mode matches InitMode::Custom(data) ==> (
        resolved.init_mode matches ResolvedInitMode::PerVariantBytes(bytes) && bytes@.len()
            == data@.len() && (i < data@.len() ==> bytes@[i]@ == data@[i]@)),
{
    if let DataMode::BlobRefs(keys) = spec.data_mode {
        let bytes = resolved.data_mode->PerVariantBytes_0;
        assert(all_bytes(bytes@).len() == keys@.len());
        assert(i < keys@.len() ==> all_bytes(bytes@)[i] == blobs_at(keys@, blobs)[i]);
    }
    if let DataMode::CustomDataPerVariant(data) = spec.data_mode {
        let bytes = resolved.data_mode->PerVariantBytes_0;
        assert(all_bytes(bytes@).len() == all_bytes(data@).len());
        assert(i < data@.len() ==> all_bytes(bytes@)[i] == all_bytes(data@)[i]);
    }
    if let InitMode::BlobRefs(keys) = spec.init_mode {
        let bytes = resolved.init_mode->PerVariantBytes_0;
        assert(all_bytes(bytes@).len() == keys@.len());
        assert(i < keys@.len() ==> all_bytes(bytes@)[i] == blobs_at(keys@, blobs)[i]);
    }
    if let InitMode::Custom(data) = spec.init_mode {
        let bytes = resolved.init_mode->PerVariantBytes_0;
        assert(all_bytes(bytes@).len() == all_bytes(data@).len());
        assert(i < data@.len() ==> all_bytes(bytes@)[i] == all_bytes(data@)[i]);
    }
}

/// What lasts four seconds says so in each of its three forms: as whole seconds,
/// as a float of no fraction whose exponent stands for four, and in words with
/// one decimal.
pub proof fn law_four_seconds_agree(duration: SegmentDuration)
    requires
        duration.is_four_seconds(),
    ensures
        duration.target_secs == 4,
        duration.bits == (1023 + 2) * 0x10_0000_0000_0000,
        duration.label@ == decimal(duration.target_secs as nat) + ".0"@,
{
    reveal_strlit("4.0");
    reveal_strlit(".0");
    assert(decimal(4) =~= seq!['4']);
    assert("4.0"@ =~= decimal(4) + ".0"@);
}

} // verus!
