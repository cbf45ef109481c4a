//! Where the parts of a synthetic HLS stream are served, and the description
//! such a stream is made from.

use crate::hls_spec::{DataMode, DelayRule, EncryptionRequest, InitMode, SegmentDuration};
use crate::text::{
    after_prefix, before_suffix, decimal, law_a_prefix_and_the_rest_make_the_text, push_decimal,
    strip_suffix,
};
use vstd::prelude::*;
use vstd::string::*;

verus! {

/// What a synthetic HLS stream is made from.
#[derive(Debug)]
pub struct HlsSpec {
    pub variant_count: usize,
    pub segments_per_variant: usize,
    pub segment_size: usize,
    pub segment_duration: SegmentDuration,
    pub data_mode: DataMode,
    pub init_mode: InitMode,
    pub variant_bandwidths: Option<Vec<u64>>,
    pub delay_rules: Vec<DelayRule>,
    pub encryption: Option<EncryptionRequest>,
    pub head_reported_segment_size: Option<usize>,
    pub key_hex: Option<String>,
    pub key_blob_ref: Option<String>,
}

impl HlsSpec {
    /// One variant of three segments of 200 000 bytes, each of four seconds,
    /// of the test pattern, in the clear.
    pub open spec fn is_default(&self) -> bool {
        &&& self.variant_count == 1
        &&& self.is_default_but_variants()
    }

    /// The same, whatever the number of variants.
    pub open spec fn is_default_but_variants(&self) -> bool {
        &&& self.segments_per_variant == 3
        &&& self.segment_size == 200_000
        &&& self.segment_duration.is_four_seconds()
        &&& self.data_mode is TestPattern
        &&& self.init_mode is Absent
        &&& self.variant_bandwidths is None
        &&& self.delay_rules@.len() == 0
        &&& self.encryption is None
        &&& self.head_reported_segment_size is None
        &&& self.key_hex is None
        &&& self.key_blob_ref is None
    }
}

impl Default for HlsSpec {
    fn default() -> (spec: Self)
        ensures
            spec.is_default(),
    {
        HlsSpec {
            variant_count: 1,
            segments_per_variant: 3,
            segment_size: 200_000,
            segment_duration: SegmentDuration::four_seconds(),
            data_mode: DataMode::TestPattern,
            init_mode: InitMode::Absent,
            variant_bandwidths: None,
            delay_rules: Vec::new(),
            encryption: None,
            head_reported_segment_size: None,
            key_hex: None,
            key_blob_ref: None,
        }
    }
}

/// Where the master playlist of a stream is served.
pub open spec fn master_path(token: Seq<char>) -> Seq<char> {
    "/stream/"@ + token + ".m3u8"@
}

/// Where the media playlist of a variant is served.
pub open spec fn media_path(token: Seq<char>, variant: nat) -> Seq<char> {
    "/stream/"@ + token + "/v"@ + decimal(variant) + ".m3u8"@
}

/// Where the init segment of a variant is served.
pub open spec fn init_path(token: Seq<char>, variant: nat) -> Seq<char> {
    "/stream/"@ + token + "/init/v"@ + decimal(variant) + ".mp4"@
}

/// Where a media segment is served.
pub open spec fn segment_path(token: Seq<char>, variant: nat, segment: nat) -> Seq<char> {
    "/stream/"@ + token + "/seg/v"@ + decimal(variant) + "_"@ + decimal(segment) + ".m4s"@
}

/// Where the key of a stream is served.
pub open spec fn key_path(token: Seq<char>) -> Seq<char> {
    "/stream/"@ + token + "/key.bin"@
}

/// The beginning that every path of a stream has.
fn stream_path(token: &str) -> (path: String)
    ensures
        path@ == "/stream/"@ + token@,
{
    let mut path = String::from_str("/stream/");
    path.append(token);
    path
}

/// Where the master playlist of a stream is served.
pub fn hls_master_path_from_ref(token: &str) -> (path: String)
    ensures
        path@ == master_path(token@),
{
    let mut path = stream_path(token);
    path.append(".m3u8");
    path
}

/// Where the media playlist of a variant is served.
pub fn hls_media_path_from_ref(token: &str, variant: usize) -> (path: String)
    ensures
        path@ == media_path(token@, variant as nat),
{
    let mut path = stream_path(token);
    path.append("/v");
    push_decimal(&mut path, variant as u64);
    path.append(".m3u8");
    path
}

/// Where the init segment of a variant is served.
pub fn hls_init_path_from_ref(token: &str, variant: usize) -> (path: String)
    ensures
        path@ == init_path(token@, variant as nat),
{
    let mut path = stream_path(token);
    path.append("/init/v");
    push_decimal(&mut path, variant as u64);
    path.append(".mp4");
    path
}

/// Where a media segment is served.
pub fn hls_segment_path_from_ref(token: &str, variant: usize, segment: usize) -> (path: String)
    ensures
        path@ == segment_path(token@, variant as nat, segment as nat),
{
    let mut path = stream_path(token);
    path.append("/seg/v");
    push_decimal(&mut path, variant as u64);
    path.append("_");
    push_decimal(&mut path, segment as u64);
    path.append(".m4s");
    path
}

/// Where the key of a stream is served.
pub fn hls_key_path_from_ref(token: &str) -> (path: String)
    ensures
        path@ == key_path(token@),
{
    let mut path = stream_path(token);
    path.append("/key.bin");
    path
}

/// The description that a master playlist is asked for by: the last part of
/// its path, without the extension where it has one.
pub fn spec_of_master_path(part: &str) -> (spec: String)
    ensures
        spec@ == match before_suffix(part@, ".m3u8"@) {
            Some(name) => name,
            None => part@,
        },
{
    match strip_suffix(part, ".m3u8") {
        Some(name) => name,
        None => String::from_str(part),
    }
}

/// The path of a master playlist names its stream: without the extension, its
/// last part is what the stream is served under.
pub proof fn law_a_master_path_names_its_stream(token: Seq<char>)
    ensures
        after_prefix(master_path(token), "/stream/"@) matches Some(part) && before_suffix(
            part,
            ".m3u8"@,
        ) == Some(token),
{
    let part = token + ".m3u8"@;
    assert(master_path(token) =~= "/stream/"@ + part);
    law_a_prefix_and_the_rest_make_the_text("/stream/"@, part, master_path(token));
    law_a_prefix_and_the_rest_make_the_text(".m3u8"@, token, part);
}

} // verus!
