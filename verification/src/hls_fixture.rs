//! HLS fixtures backed by the unified `/stream/*` routes.

use crate::hex_text::{hex_text, law_hex_reads_back};
use crate::hls_blob_store::{blob_address, BlobStore};
use crate::hls_spec::{
    all_bytes, blobs_at, spec_resolves, DataMode, DelayRule, EncryptionRequest, InitMode,
    ResolvedHlsSpec, SegmentDuration,
};
use crate::hls_stream::{
    has_segment, init_of, plaintext_of, segment_prefix, segment_prefix_text, test_segment,
    variant_data,
};
use crate::hls_url::{
    hls_init_path_from_ref, hls_key_path_from_ref, hls_master_path_from_ref,
    hls_media_path_from_ref, hls_segment_path_from_ref, init_path, key_path, master_path,
    media_path, segment_path, HlsSpec,
};
use crate::outside::hex_encode;
use crate::test_server::{leads_to, TestServerHelper};
use crate::text::{
    after_prefix, before_char, before_suffix, decimal, digit_char,
    law_a_prefix_and_the_rest_make_the_text, law_decimal_is_parsed_back, lemma_decimal_digits,
    lemma_position, lines, lines_of, parse_u64, parse_usize, parsed, position, push_decimal,
    same_text, split_at_char, split_once, strip_prefix, strip_suffix, up_to,
};
use crate::time::Duration;
use std::sync::Arc;
use vstd::prelude::*;
use vstd::string::*;
use vstd::utf8::encode_utf8;

verus! {

/// One of the streams that a fixture serves.
#[derive(Clone, Copy, Debug, PartialEq, Eq, Structural)]
pub enum Stream {
    Plain,
    Init,
    Encrypted,
}

/// What a fixture's short path stands for.
#[derive(Clone, Copy, Debug, PartialEq, Eq, Structural)]
pub enum Route {
    Master(Stream),
    Media(Stream, usize),
    Segment(Stream, usize, usize),
    InitSegment(Stream, usize),
    Key(Stream),
    /// Nothing of the fixture's own: the path is the server's.
    Elsewhere,
}

/// The full path behind `path`, where its route is `route` and the stream is
/// served under `token`.
pub open spec fn full_path(route: Route, token: Seq<char>, path: Seq<char>) -> Seq<char> {
    match route {
        Route::Master(_) => master_path(token),
        Route::Media(_, variant) => media_path(token, variant as nat),
        Route::Segment(_, variant, segment) => segment_path(
            token,
            variant as nat,
            segment as nat,
        ),
        Route::InitSegment(_, variant) => init_path(token, variant as nat),
        Route::Key(_) => key_path(token),
        Route::Elsewhere => path,
    }
}

/// The full path behind `path`, where its route is `route` and the stream is
/// served under `token`.
fn full_path_text(route: &Route, token: &str, path: &str) -> (full: String)
    ensures
        full@ == full_path(*route, token@, path@),
{
    match *route {
        Route::Master(_) => hls_master_path_from_ref(token),
        Route::Media(_, variant) => hls_media_path_from_ref(token, variant),
        Route::Segment(_, variant, segment) => hls_segment_path_from_ref(token, variant, segment),
        Route::InitSegment(_, variant) => hls_init_path_from_ref(token, variant),
        Route::Key(_) => hls_key_path_from_ref(token),
        Route::Elsewhere => String::from_str(path),
    }
}

/// What the short paths of a [`TestServer`] stand for.
pub open spec fn test_route(path: Seq<char>) -> Route {
    if path == "/master.m3u8"@ {
        Route::Master(Stream::Plain)
    } else if path == "/master-init.m3u8"@ {
        Route::Master(Stream::Init)
    } else if path == "/master-encrypted.m3u8"@ {
        Route::Master(Stream::Encrypted)
    } else if path == "/v0.m3u8"@ {
        Route::Media(Stream::Plain, 0)
    } else if path == "/v1.m3u8"@ || path == "/video/480p/playlist.m3u8"@ {
        Route::Media(Stream::Plain, 1)
    } else if path == "/v2.m3u8"@ {
        Route::Media(Stream::Plain, 2)
    } else if path == "/v0-init.m3u8"@ {
        Route::Media(Stream::Init, 0)
    } else if path == "/v1-init.m3u8"@ {
        Route::Media(Stream::Init, 1)
    } else if path == "/v2-init.m3u8"@ {
        Route::Media(Stream::Init, 2)
    } else if path == "/v0-encrypted.m3u8"@ {
        Route::Media(Stream::Encrypted, 0)
    } else if path == "/seg/v0_0.bin"@ {
        Route::Segment(Stream::Plain, 0, 0)
    } else if path == "/seg/v0_1.bin"@ {
        Route::Segment(Stream::Plain, 0, 1)
    } else if path == "/seg/v0_2.bin"@ {
        Route::Segment(Stream::Plain, 0, 2)
    } else if path == "/seg/v1_0.bin"@ {
        Route::Segment(Stream::Plain, 1, 0)
    } else if path == "/seg/v1_1.bin"@ {
        Route::Segment(Stream::Plain, 1, 1)
    } else if path == "/seg/v1_2.bin"@ {
        Route::Segment(Stream::Plain, 1, 2)
    } else if path == "/seg/v2_0.bin"@ {
        Route::Segment(Stream::Plain, 2, 0)
    } else if path == "/seg/v2_1.bin"@ {
        Route::Segment(Stream::Plain, 2, 1)
    } else if path == "/seg/v2_2.bin"@ {
        Route::Segment(Stream::Plain, 2, 2)
    } else if path == "/init/v0.bin"@ {
        Route::InitSegment(Stream::Init, 0)
    } else if path == "/init/v1.bin"@ {
        Route::InitSegment(Stream::Init, 1)
    } else if path == "/init/v2.bin"@ {
        Route::InitSegment(Stream::Init, 2)
    } else if path == "/key.bin"@ {
        Route::Key(Stream::Plain)
    } else if path == "/aes/key.bin"@ {
        Route::Key(Stream::Encrypted)
    } else if path == "/aes/seg0.bin"@ {
        Route::Segment(Stream::Encrypted, 0, 0)
    } else {
        Route::Elsewhere
    }
}

/// What a short path of a [`TestServer`] stands for.
pub fn test_route_of(path: &str) -> (route: Route)
    ensures
        route == test_route(path@),
{
    if same_text(path, "/master.m3u8") {
        Route::Master(Stream::Plain)
    } else if same_text(path, "/master-init.m3u8") {
        Route::Master(Stream::Init)
    } else if same_text(path, "/master-encrypted.m3u8") {
        Route::Master(Stream::Encrypted)
    } else if same_text(path, "/v0.m3u8") {
        Route::Media(Stream::Plain, 0)
    } else if same_text(path, "/v1.m3u8") || same_text(path, "/video/480p/playlist.m3u8") {
        Route::Media(Stream::Plain, 1)
    } else if same_text(path, "/v2.m3u8") {
        Route::Media(Stream::Plain, 2)
    } else if same_text(path, "/v0-init.m3u8") {
        Route::Media(Stream::Init, 0)
    } else if same_text(path, "/v1-init.m3u8") {
        Route::Media(Stream::Init, 1)
    } else if same_text(path, "/v2-init.m3u8") {
        Route::Media(Stream::Init, 2)
    } else if same_text(path, "/v0-encrypted.m3u8") {
        Route::Media(Stream::Encrypted, 0)
    } else if same_text(path, "/seg/v0_0.bin") {
        Route::Segment(Stream::Plain, 0, 0)
    } else if same_text(path, "/seg/v0_1.bin") {
        Route::Segment(Stream::Plain, 0, 1)
    } else if same_text(path, "/seg/v0_2.bin") {
        Route::Segment(Stream::Plain, 0, 2)
    } else if same_text(path, "/seg/v1_0.bin") {
        Route::Segment(Stream::Plain, 1, 0)
    } else if same_text(path, "/seg/v1_1.bin") {
        Route::Segment(Stream::Plain, 1, 1)
    } else if same_text(path, "/seg/v1_2.bin") {
        Route::Segment(Stream::Plain, 1, 2)
    } else if same_text(path, "/seg/v2_0.bin") {
        Route::Segment(Stream::Plain, 2, 0)
    } else if same_text(path, "/seg/v2_1.bin") {
        Route::Segment(Stream::Plain, 2, 1)
    } else if same_text(path, "/seg/v2_2.bin") {
        Route::Segment(Stream::Plain, 2, 2)
    } else if same_text(path, "/init/v0.bin") {
        Route::InitSegment(Stream::Init, 0)
    } else if same_text(path, "/init/v1.bin") {
        Route::InitSegment(Stream::Init, 1)
    } else if same_text(path, "/init/v2.bin") {
        Route::InitSegment(Stream::Init, 2)
    } else if same_text(path, "/key.bin") {
        Route::Key(Stream::Plain)
    } else if same_text(path, "/aes/key.bin") {
        Route::Key(Stream::Encrypted)
    } else if same_text(path, "/aes/seg0.bin") {
        Route::Segment(Stream::Encrypted, 0, 0)
    } else {
        Route::Elsewhere
    }
}

/// The stream that a route leads to.
pub open spec fn stream_of(route: Route) -> Option<Stream> {
    match route {
        Route::Master(stream) => Some(stream),
        Route::Media(stream, _) => Some(stream),
        Route::Segment(stream, _, _) => Some(stream),
        Route::InitSegment(stream, _) => Some(stream),
        Route::Key(stream) => Some(stream),
        Route::Elsewhere => None,
    }
}

impl Route {
    /// The stream that the route leads to.
    pub fn stream(&self) -> (stream: Option<Stream>)
        ensures
            stream == stream_of(*self),
    {
        match *self {
            Route::Master(stream) => Some(stream),
            Route::Media(stream, _) => Some(stream),
            Route::Segment(stream, _, _) => Some(stream),
            Route::InitSegment(stream, _) => Some(stream),
            Route::Key(stream) => Some(stream),
            Route::Elsewhere => None,
        }
    }
}

/// Fixed three-variant HLS fixture used by many integration tests.
pub struct TestServer {
    helper: TestServerHelper,
    plain_token: String,
    init_token: String,
    encrypted_token: String,
}

impl TestServer {
    pub closed spec fn base(&self) -> Seq<char> {
        self.helper.base()
    }

    /// The token that a stream is served under.
    pub closed spec fn token(&self, stream: Option<Stream>) -> Seq<char> {
        match stream {
            Some(Stream::Init) => self.init_token@,
            Some(Stream::Encrypted) => self.encrypted_token@,
            _ => self.plain_token@,
        }
    }

    /// The full path behind a short one.
    pub open spec fn path_of(&self, path: Seq<char>) -> Seq<char> {
        full_path(test_route(path), self.token(stream_of(test_route(path))), path)
    }

    /// A fixture on `helper`'s server, with its three streams registered under
    /// these tokens.
    pub fn new(
        helper: TestServerHelper,
        plain_token: String,
        init_token: String,
        encrypted_token: String,
    ) -> (server: Self)
        ensures
            server.base() == helper.base(),
            server.token(Some(Stream::Plain)) == plain_token@,
            server.token(Some(Stream::Init)) == init_token@,
            server.token(Some(Stream::Encrypted)) == encrypted_token@,
    {
        TestServer { helper, plain_token, init_token, encrypted_token }
    }

    /// The full path behind a short one.
    pub fn path_for(&self, path: &str) -> (full: String)
        ensures
            full@ == self.path_of(path@),
    {
        let route = test_route_of(path);
        let token: &str = match route.stream() {
            Some(Stream::Init) => self.init_token.as_str(),
            Some(Stream::Encrypted) => self.encrypted_token.as_str(),
            _ => self.plain_token.as_str(),
        };
        full_path_text(&route, token, path)
    }

    /// The URL behind a short path.
    #[must_use]
    pub fn url(&self, path: &str) -> (url: Option<String>)
        ensures
            leads_to(self.base(), self.path_of(path@), url),
    {
        self.helper.url(self.path_for(path).as_str())
    }
}

/// The master playlist of the fixture's plain stream.
#[must_use]
pub fn test_master_playlist() -> (playlist: &'static str)
    ensures
        playlist@
            == "#EXTM3U\n#EXT-X-VERSION:6\n#EXT-X-STREAM-INF:BANDWIDTH=1280000,RESOLUTION=854x480,CODECS=\"avc1.42c01e,mp4a.40.2\"\nv0.m3u8\n#EXT-X-STREAM-INF:BANDWIDTH=2560000,RESOLUTION=1280x720,CODECS=\"avc1.42c01e,mp4a.40.2\"\nv1.m3u8\n#EXT-X-STREAM-INF:BANDWIDTH=5120000,RESOLUTION=1920x1080,CODECS=\"avc1.42c01e,mp4a.40.2\"\nv2.m3u8\n"@,
{
    "#EXTM3U\n#EXT-X-VERSION:6\n#EXT-X-STREAM-INF:BANDWIDTH=1280000,RESOLUTION=854x480,CODECS=\"avc1.42c01e,mp4a.40.2\"\nv0.m3u8\n#EXT-X-STREAM-INF:BANDWIDTH=2560000,RESOLUTION=1280x720,CODECS=\"avc1.42c01e,mp4a.40.2\"\nv1.m3u8\n#EXT-X-STREAM-INF:BANDWIDTH=5120000,RESOLUTION=1920x1080,CODECS=\"avc1.42c01e,mp4a.40.2\"\nv2.m3u8\n"
}

/// The master playlist of the fixture's stream with init segments.
#[must_use]
pub fn test_master_playlist_with_init() -> (playlist: &'static str)
    ensures
        playlist@
            == "#EXTM3U\n#EXT-X-VERSION:6\n#EXT-X-STREAM-INF:BANDWIDTH=1280000,RESOLUTION=854x480,CODECS=\"avc1.42c01e,mp4a.40.2\"\nv0-init.m3u8\n#EXT-X-STREAM-INF:BANDWIDTH=2560000,RESOLUTION=1280x720,CODECS=\"avc1.42c01e,mp4a.40.2\"\nv1-init.m3u8\n#EXT-X-STREAM-INF:BANDWIDTH=5120000,RESOLUTION=1920x1080,CODECS=\"avc1.42c01e,mp4a.40.2\"\nv2-init.m3u8\n"@,
{
    "#EXTM3U\n#EXT-X-VERSION:6\n#EXT-X-STREAM-INF:BANDWIDTH=1280000,RESOLUTION=854x480,CODECS=\"avc1.42c01e,mp4a.40.2\"\nv0-init.m3u8\n#EXT-X-STREAM-INF:BANDWIDTH=2560000,RESOLUTION=1280x720,CODECS=\"avc1.42c01e,mp4a.40.2\"\nv1-init.m3u8\n#EXT-X-STREAM-INF:BANDWIDTH=5120000,RESOLUTION=1920x1080,CODECS=\"avc1.42c01e,mp4a.40.2\"\nv2-init.m3u8\n"
}

/// The master playlist of the fixture's encrypted stream.
#[must_use]
pub fn test_master_playlist_encrypted() -> (playlist: &'static str)
    ensures
        playlist@
            == "#EXTM3U\n#EXT-X-VERSION:6\n#EXT-X-STREAM-INF:BANDWIDTH=1280000,RESOLUTION=854x480,CODECS=\"avc1.42c01e,mp4a.40.2\"\nv0-encrypted.m3u8\n"@,
{
    "#EXTM3U\n#EXT-X-VERSION:6\n#EXT-X-STREAM-INF:BANDWIDTH=1280000,RESOLUTION=854x480,CODECS=\"avc1.42c01e,mp4a.40.2\"\nv0-encrypted.m3u8\n"
}

/// The entries for three segments of four seconds.
pub open spec fn three_entries(variant: nat) -> Seq<char> {
    "#EXTINF:4.0,\nseg/v"@ + decimal(variant) + "_0.bin\n#EXTINF:4.0,\nseg/v"@ + decimal(variant)
        + "_1.bin\n#EXTINF:4.0,\nseg/v"@ + decimal(variant) + "_2.bin\n#EXT-X-ENDLIST\n"@
}

fn push_three_entries(out: &mut String, variant: usize)
    ensures
        final(out)@ == old(out)@ + three_entries(variant as nat),
{
    out.append("#EXTINF:4.0,\nseg/v");
    push_decimal(out, variant as u64);
    out.append("_0.bin\n#EXTINF:4.0,\nseg/v");
    push_decimal(out, variant as u64);
    out.append("_1.bin\n#EXTINF:4.0,\nseg/v");
    push_decimal(out, variant as u64);
    out.append("_2.bin\n#EXT-X-ENDLIST\n");
    assert(out@ =~= old(out)@ + three_entries(variant as nat));
}

/// The media playlist of a variant.
pub open spec fn plain_media(variant: nat) -> Seq<char> {
    "#EXTM3U\n#EXT-X-VERSION:6\n#EXT-X-TARGETDURATION:4\n#EXT-X-MEDIA-SEQUENCE:0\n#EXT-X-PLAYLIST-TYPE:VOD\n"@
        + three_entries(variant)
}

/// The media playlist of a variant with an init segment.
pub open spec fn media_with_init(variant: nat) -> Seq<char> {
    "#EXTM3U\n#EXT-X-VERSION:6\n#EXT-X-TARGETDURATION:4\n#EXT-X-MEDIA-SEQUENCE:0\n#EXT-X-PLAYLIST-TYPE:VOD\n#EXT-X-MAP:URI=\"init/v"@
        + decimal(variant) + ".bin\"\n"@ + three_entries(variant)
}

/// The media playlist of a variant.
#[must_use]
pub fn test_media_playlist(variant: usize) -> (playlist: String)
    ensures
        playlist@ == plain_media(variant as nat),
{
    let mut playlist = String::from_str(
        "#EXTM3U\n#EXT-X-VERSION:6\n#EXT-X-TARGETDURATION:4\n#EXT-X-MEDIA-SEQUENCE:0\n#EXT-X-PLAYLIST-TYPE:VOD\n",
    );
    push_three_entries(&mut playlist, variant);
    playlist
}

/// The media playlist of a variant with an init segment.
#[must_use]
pub fn test_media_playlist_with_init(variant: usize) -> (playlist: String)
    ensures
        playlist@ == media_with_init(variant as nat),
{
    let mut playlist = String::from_str(
        "#EXTM3U\n#EXT-X-VERSION:6\n#EXT-X-TARGETDURATION:4\n#EXT-X-MEDIA-SEQUENCE:0\n#EXT-X-PLAYLIST-TYPE:VOD\n#EXT-X-MAP:URI=\"init/v",
    );
    push_decimal(&mut playlist, variant as u64);
    playlist.append(".bin\"\n");
    push_three_entries(&mut playlist, variant);
    playlist
}

/// The media playlist of the encrypted stream, the same for every variant.
#[must_use]
pub fn test_media_playlist_encrypted(_variant: usize) -> (playlist: String)
    ensures
        playlist@
            == "#EXTM3U\n#EXT-X-VERSION:6\n#EXT-X-TARGETDURATION:4\n#EXT-X-MEDIA-SEQUENCE:0\n#EXT-X-PLAYLIST-TYPE:VOD\n#EXT-X-KEY:METHOD=AES-128,URI=\"../aes/key.bin\",IV=0x00000000000000000000000000000000\n#EXTINF:4.0,\n../aes/seg0.bin\n#EXT-X-ENDLIST\n"@,
{
    String::from_str(
        "#EXTM3U\n#EXT-X-VERSION:6\n#EXT-X-TARGETDURATION:4\n#EXT-X-MEDIA-SEQUENCE:0\n#EXT-X-PLAYLIST-TYPE:VOD\n#EXT-X-KEY:METHOD=AES-128,URI=\"../aes/key.bin\",IV=0x00000000000000000000000000000000\n#EXTINF:4.0,\n../aes/seg0.bin\n#EXT-X-ENDLIST\n",
    )
}

/// What a segment of the fixture holds: its prefix, filled up with `0xFF` to
/// 200 000 bytes.
pub open spec fn segment_data(variant: nat, segment: nat) -> Seq<u8> {
    let prefix = encode_utf8(segment_prefix(variant, segment));
    if prefix.len() < 200_000 {
        prefix + Seq::new((200_000 - prefix.len()) as nat, |i: int| 0xFFu8)
    } else {
        prefix
    }
}

/// What a segment of the fixture holds.
#[must_use]
pub fn test_segment_data(variant: usize, segment: usize) -> (data: Vec<u8>)
    ensures
        data@ == segment_data(variant as nat, segment as nat),
{
    let text = segment_prefix_text(variant as u64, segment as u64);
    let mut data = vstd::slice::slice_to_vec(text.as_str().as_bytes());
    if data.len() < 200_000 {
        data.resize(200_000, 0xFF);
    }
    assert(data@ =~= segment_data(variant as nat, segment as nat));
    data
}

/// AES-128 encryption configuration for configurable HLS fixtures.
#[derive(Debug)]
pub struct EncryptionConfig {
    pub key: [u8; 16],
    pub iv: Option<[u8; 16]>,
}

/// Configuration for [`HlsTestServer`].
#[derive(Debug)]
pub struct HlsTestServerConfig {
    pub variant_count: usize,
    pub segments_per_variant: usize,
    pub segment_size: usize,
    pub segment_duration: SegmentDuration,
    pub custom_data: Option<Arc<Vec<u8>>>,
    pub custom_data_per_variant: Option<Vec<Arc<Vec<u8>>>>,
    pub init_data_per_variant: Option<Vec<Arc<Vec<u8>>>>,
    pub variant_bandwidths: Option<Vec<u64>>,
    pub delay_rules: Vec<DelayRule>,
    pub encryption: Option<EncryptionConfig>,
    pub head_reported_segment_size: Option<usize>,
}

impl Default for HlsTestServerConfig {
    fn default() -> (config: Self)
        ensures
            config.variant_count == 1,
            config.segments_per_variant == 3,
            config.segment_size == 200_000,
            config.segment_duration.is_four_seconds(),
            config.custom_data is None,
            config.custom_data_per_variant is None,
            config.init_data_per_variant is None,
            config.variant_bandwidths is None,
            config.delay_rules@.len() == 0,
            config.encryption is None,
            config.head_reported_segment_size is None,
    {
        HlsTestServerConfig {
            variant_count: 1,
            segments_per_variant: 3,
            segment_size: 200_000,
            segment_duration: SegmentDuration::four_seconds(),
            custom_data: None,
            custom_data_per_variant: None,
            init_data_per_variant: None,
            variant_bandwidths: None,
            delay_rules: Vec::new(),
            encryption: None,
            head_reported_segment_size: None,
        }
    }
}

/// The number in `path` between `prefix` and `suffix`.
pub open spec fn variant_in(path: Seq<char>, prefix: Seq<char>, suffix: Seq<char>) -> Option<int> {
    match after_prefix(path, prefix) {
        Some(rest) => match before_suffix(rest, suffix) {
            Some(number) => parsed(number, usize::MAX as int),
            None => None,
        },
        None => None,
    }
}

/// The number in `path` between `prefix` and `suffix`.
pub fn parse_variant(path: &str, prefix: &str, suffix: &str) -> (variant: Option<usize>)
    ensures
        variant matches Some(variant) ==> variant_in(path@, prefix@, suffix@) == Some(
            variant as int,
        ),
        variant is None ==> variant_in(path@, prefix@, suffix@) is None,
{
    let rest = match strip_prefix(path, prefix) {
        Some(rest) => rest,
        None => return None,
    };
    let number = match strip_suffix(rest.as_str(), suffix) {
        Some(number) => number,
        None => return None,
    };
    parse_usize(number.as_str())
}

/// The two numbers in `path` between `prefix` and `suffix`, with an underscore
/// between them.
pub open spec fn pair_in(
    path: Seq<char>,
    prefix: Seq<char>,
    suffix: Seq<char>,
) -> Option<(int, int)> {
    match after_prefix(path, prefix) {
        Some(rest) => match before_suffix(rest, suffix) {
            Some(pair) => match split_at_char(pair, '_') {
                Some((variant, segment)) => match (
                    parsed(variant, usize::MAX as int),
                    parsed(segment, usize::MAX as int),
                ) {
                    (Some(variant), Some(segment)) => Some((variant, segment)),
                    _ => None,
                },
                None => None,
            },
            None => None,
        },
        None => None,
    }
}

/// The two numbers in `path` between `prefix` and `suffix`, with an underscore
/// between them.
pub fn parse_pair(path: &str, prefix: &str, suffix: &str) -> (pair: Option<(usize, usize)>)
    ensures
        pair matches Some((variant, segment)) ==> pair_in(path@, prefix@, suffix@) == Some(
            (variant as int, segment as int),
        ),
        pair is None ==> pair_in(path@, prefix@, suffix@) is None,
{
    let rest = match strip_prefix(path, prefix) {
        Some(rest) => rest,
        None => return None,
    };
    let pair = match strip_suffix(rest.as_str(), suffix) {
        Some(pair) => pair,
        None => return None,
    };
    let (variant, segment) = match split_once(pair.as_str(), '_') {
        Some(parts) => parts,
        None => return None,
    };
    match (parse_usize(variant.as_str()), parse_usize(segment.as_str())) {
        (Some(variant), Some(segment)) => Some((variant, segment)),
        _ => None,
    }
}

/// The variant and the segment that a segment's path names.
pub open spec fn segment_in(path: Seq<char>) -> Option<(int, int)> {
    pair_in(path, "/seg/v"@, ".bin"@)
}

/// The variant and the segment that a segment's path names.
pub fn parse_segment(path: &str) -> (pair: Option<(usize, usize)>)
    ensures
        pair matches Some((variant, segment)) ==> segment_in(path@) == Some(
            (variant as int, segment as int),
        ),
        pair is None ==> segment_in(path@) is None,
{
    parse_pair(path, "/seg/v", ".bin")
}

/// Whether `path` begins with `prefix` and ends with `suffix`.
pub open spec fn framed(path: Seq<char>, prefix: Seq<char>, suffix: Seq<char>) -> bool {
    prefix.is_prefix_of(path) && suffix.is_suffix_of(path)
}

fn is_framed(path: &str, prefix: &str, suffix: &str) -> (framed_so: bool)
    ensures
        framed_so == framed(path@, prefix@, suffix@),
{
    strip_prefix(path, prefix).is_some() && strip_suffix(path, suffix).is_some()
}

/// A number that was found, or zero.
pub open spec fn or_zero(n: Option<int>) -> usize {
    match n {
        Some(n) => n as usize,
        None => 0,
    }
}

/// What a short path of an [`HlsTestServer`] stands for. A number that is not
/// one counts as zero.
pub open spec fn config_route(path: Seq<char>) -> Route {
    if path == "/master.m3u8"@ {
        Route::Master(Stream::Plain)
    } else if path == "/key.bin"@ {
        Route::Key(Stream::Plain)
    } else if framed(path, "/playlist/v"@, ".m3u8"@) {
        Route::Media(Stream::Plain, or_zero(variant_in(path, "/playlist/v"@, ".m3u8"@)))
    } else if framed(path, "/seg/v"@, ".bin"@) {
        match segment_in(path) {
            Some((variant, segment)) => Route::Segment(
                Stream::Plain,
                variant as usize,
                segment as usize,
            ),
            None => Route::Segment(Stream::Plain, 0, 0),
        }
    } else if framed(path, "/init/v"@, "_init.bin"@) {
        Route::InitSegment(Stream::Plain, or_zero(variant_in(path, "/init/v"@, "_init.bin"@)))
    } else {
        Route::Elsewhere
    }
}

/// What a short path of an [`HlsTestServer`] stands for.
pub fn config_route_of(path: &str) -> (route: Route)
    ensures
        route == config_route(path@),
{
    if same_text(path, "/master.m3u8") {
        Route::Master(Stream::Plain)
    } else if same_text(path, "/key.bin") {
        Route::Key(Stream::Plain)
    } else if is_framed(path, "/playlist/v", ".m3u8") {
        let variant: usize = match parse_variant(path, "/playlist/v", ".m3u8") {
            Some(variant) => variant,
            None => 0,
        };
        Route::Media(Stream::Plain, variant)
    } else if is_framed(path, "/seg/v", ".bin") {
        match parse_segment(path) {
            Some((variant, segment)) => Route::Segment(Stream::Plain, variant, segment),
            None => Route::Segment(Stream::Plain, 0, 0),
        }
    } else if is_framed(path, "/init/v", "_init.bin") {
        let variant: usize = match parse_variant(path, "/init/v", "_init.bin") {
            Some(variant) => variant,
            None => 0,
        };
        Route::InitSegment(Stream::Plain, variant)
    } else {
        Route::Elsewhere
    }
}

/// The bytes of one of a list of blobs, none where the list is shorter.
pub open spec fn part_of(parts: Option<Vec<Arc<Vec<u8>>>>, i: int) -> Option<Seq<u8>> {
    match parts {
        Some(parts) if 0 <= i < parts@.len() => Some(parts@[i]@),
        _ => None,
    }
}

/// A byte of `data`, zero past its end.
pub open spec fn byte_or_zero(data: Seq<u8>, i: int) -> u8 {
    if 0 <= i < data.len() {
        data[i]
    } else {
        0
    }
}

fn get_or_zero(data: &Vec<u8>, i: u64) -> (byte: u8)
    ensures
        byte == byte_or_zero(data@, i as int),
{
    if i < data.len() as u64 {
        data[i as usize]
    } else {
        0
    }
}

impl HlsTestServerConfig {
    /// The init bytes of a variant, empty where it has none.
    pub open spec fn init_bytes(&self, variant: int) -> Seq<u8> {
        match part_of(self.init_data_per_variant, variant) {
            Some(data) => data,
            None => Seq::empty(),
        }
    }

    /// The media bytes that were given for a variant.
    pub open spec fn media_bytes(&self, variant: int) -> Option<Seq<u8>> {
        match part_of(self.custom_data_per_variant, variant) {
            Some(data) => Some(data),
            None => match self.custom_data {
                Some(data) => Some(data@),
                None => None,
            },
        }
    }

    /// The byte at `offset` of a variant: its init bytes, then the bytes that
    /// were given for it, or the test pattern where none were.
    pub open spec fn byte_at(&self, variant: int, offset: int) -> u8 {
        let init = self.init_bytes(variant);
        let media = offset - init.len();
        if offset < init.len() {
            init[offset]
        } else {
            match self.media_bytes(variant) {
                Some(data) => byte_or_zero(data, media),
                None => {
                    let prefix = encode_utf8(
                        segment_prefix(
                            variant as nat,
                            (media / (self.segment_size as int)) as nat,
                        ),
                    );
                    if media % (self.segment_size as int) < prefix.len() {
                        prefix[media % (self.segment_size as int)]
                    } else {
                        0xFF
                    }
                },
            }
        }
    }
}

/// Configurable HLS fixture backed by the unified synthetic stream routes.
pub struct HlsTestServer {
    config: HlsTestServerConfig,
    helper: TestServerHelper,
    token: String,
}

impl HlsTestServer {
    pub closed spec fn base(&self) -> Seq<char> {
        self.helper.base()
    }

    pub closed spec fn token_of(&self) -> Seq<char> {
        self.token@
    }

    pub closed spec fn config_of(&self) -> HlsTestServerConfig {
        self.config
    }

    /// The full path behind a short one.
    pub open spec fn path_of(&self, path: Seq<char>) -> Seq<char> {
        full_path(config_route(path), self.token_of(), path)
    }

    /// A fixture on `helper`'s server, with the stream that `config` describes
    /// registered under `token`.
    pub fn new(config: HlsTestServerConfig, helper: TestServerHelper, token: String) -> (server:
        Self)
        ensures
            server.config_of() == config,
            server.base() == helper.base(),
            server.token_of() == token@,
    {
        HlsTestServer { config, helper, token }
    }

    /// The full path behind a short one.
    pub fn path_for(&self, path: &str) -> (full: String)
        ensures
            full@ == self.path_of(path@),
    {
        let route = config_route_of(path);
        full_path_text(&route, self.token.as_str(), path)
    }

    /// The URL behind a short path.
    #[must_use]
    pub fn url(&self, path: &str) -> (url: Option<String>)
        ensures
            leads_to(self.base(), self.path_of(path@), url),
    {
        self.helper.url(self.path_for(path).as_str())
    }

    #[must_use]
    pub fn config(&self) -> (config: &HlsTestServerConfig)
        ensures
            *config == self.config_of(),
    {
        &self.config
    }

    /// The bytes of the first variant's init segment.
    #[must_use]
    pub fn init_len(&self) -> (len: u64)
        ensures
            len == self.config_of().init_bytes(0).len(),
    {
        match &self.config.init_data_per_variant {
            Some(parts) => if parts.len() > 0 {
                parts[0].len() as u64
            } else {
                0
            },
            None => 0,
        }
    }

    /// The bytes of the first variant's init segment and of all its segments.
    #[must_use]
    pub fn total_bytes(&self) -> (bytes: u64)
        requires
            self.config_of().init_bytes(0).len() + self.config_of().segments_per_variant
                * self.config_of().segment_size <= u64::MAX,
        ensures
            bytes == self.config_of().init_bytes(0).len() + self.config_of().segments_per_variant
                * self.config_of().segment_size,
    {
        assert(self.config.segments_per_variant * self.config.segment_size >= 0)
            by (nonlinear_arith)
            requires
                self.config.segments_per_variant >= 0,
                self.config.segment_size >= 0,
        ;
        self.init_len() + (self.config.segments_per_variant as u64) * (
        self.config.segment_size as u64)
    }

    /// The byte at `offset` of a variant. The test pattern needs segments that
    /// are not empty.
    #[must_use]
    pub fn expected_byte_at(&self, variant: usize, offset: u64) -> (byte: u8)
        requires
            self.config_of().media_bytes(variant as int) is None && offset
                >= self.config_of().init_bytes(variant as int).len()
                ==> self.config_of().segment_size > 0,
        ensures
            byte == self.config_of().byte_at(variant as int, offset as int),
    {
        let mut init_len: u64 = 0;
        if let Some(parts) = &self.config.init_data_per_variant {
            if variant < parts.len() {
                init_len = parts[variant].len() as u64;
                if offset < init_len {
                    return get_or_zero(&parts[variant], offset);
                }
            }
        }
        let media_offset: u64 = offset - init_len;
        if let Some(parts) = &self.config.custom_data_per_variant {
            if variant < parts.len() {
                return get_or_zero(&parts[variant], media_offset);
            }
        }
        if let Some(data) = &self.config.custom_data {
            return get_or_zero(data, media_offset);
        }
        let size: u64 = self.config.segment_size as u64;
        let segment: u64 = media_offset / size;
        let inside: u64 = media_offset % size;
        let prefix = segment_prefix_text(variant as u64, segment);
        let bytes: &[u8] = prefix.as_str().as_bytes();
        if inside < bytes.len() as u64 {
            bytes[inside as usize]
        } else {
            0xFF
        }
    }
}

/// What a short path of an [`AbrTestServer`] stands for.
pub open spec fn abr_route(path: Seq<char>) -> Route {
    if path == "/master.m3u8"@ {
        Route::Master(Stream::Plain)
    } else if path == "/v0.m3u8"@ {
        Route::Media(Stream::Plain, 0)
    } else if path == "/v1.m3u8"@ {
        Route::Media(Stream::Plain, 1)
    } else if path == "/v2.m3u8"@ {
        Route::Media(Stream::Plain, 2)
    } else if path == "/seg/v0_0.bin"@ {
        Route::Segment(Stream::Plain, 0, 0)
    } else if path == "/seg/v0_1.bin"@ {
        Route::Segment(Stream::Plain, 0, 1)
    } else if path == "/seg/v0_2.bin"@ {
        Route::Segment(Stream::Plain, 0, 2)
    } else if path == "/seg/v1_0.bin"@ {
        Route::Segment(Stream::Plain, 1, 0)
    } else if path == "/seg/v1_1.bin"@ {
        Route::Segment(Stream::Plain, 1, 1)
    } else if path == "/seg/v1_2.bin"@ {
        Route::Segment(Stream::Plain, 1, 2)
    } else if path == "/seg/v2_0.bin"@ {
        Route::Segment(Stream::Plain, 2, 0)
    } else if path == "/seg/v2_1.bin"@ {
        Route::Segment(Stream::Plain, 2, 1)
    } else if path == "/seg/v2_2.bin"@ {
        Route::Segment(Stream::Plain, 2, 2)
    } else if path == "/init/v0.bin"@ {
        Route::InitSegment(Stream::Plain, 0)
    } else if path == "/init/v1.bin"@ {
        Route::InitSegment(Stream::Plain, 1)
    } else if path == "/init/v2.bin"@ {
        Route::InitSegment(Stream::Plain, 2)
    } else {
        Route::Elsewhere
    }
}

/// What a short path of an [`AbrTestServer`] stands for.
pub fn abr_route_of(path: &str) -> (route: Route)
    ensures
        route == abr_route(path@),
{
    if same_text(path, "/master.m3u8") {
        Route::Master(Stream::Plain)
    } else if same_text(path, "/v0.m3u8") {
        Route::Media(Stream::Plain, 0)
    } else if same_text(path, "/v1.m3u8") {
        Route::Media(Stream::Plain, 1)
    } else if same_text(path, "/v2.m3u8") {
        Route::Media(Stream::Plain, 2)
    } else if same_text(path, "/seg/v0_0.bin") {
        Route::Segment(Stream::Plain, 0, 0)
    } else if same_text(path, "/seg/v0_1.bin") {
        Route::Segment(Stream::Plain, 0, 1)
    } else if same_text(path, "/seg/v0_2.bin") {
        Route::Segment(Stream::Plain, 0, 2)
    } else if same_text(path, "/seg/v1_0.bin") {
        Route::Segment(Stream::Plain, 1, 0)
    } else if same_text(path, "/seg/v1_1.bin") {
        Route::Segment(Stream::Plain, 1, 1)
    } else if same_text(path, "/seg/v1_2.bin") {
        Route::Segment(Stream::Plain, 1, 2)
    } else if same_text(path, "/seg/v2_0.bin") {
        Route::Segment(Stream::Plain, 2, 0)
    } else if same_text(path, "/seg/v2_1.bin") {
        Route::Segment(Stream::Plain, 2, 1)
    } else if same_text(path, "/seg/v2_2.bin") {
        Route::Segment(Stream::Plain, 2, 2)
    } else if same_text(path, "/init/v0.bin") {
        Route::InitSegment(Stream::Plain, 0)
    } else if same_text(path, "/init/v1.bin") {
        Route::InitSegment(Stream::Plain, 1)
    } else if same_text(path, "/init/v2.bin") {
        Route::InitSegment(Stream::Plain, 2)
    } else {
        Route::Elsewhere
    }
}

/// ABR fixture backed by the unified synthetic stream routes.
pub struct AbrTestServer {
    helper: TestServerHelper,
    token: String,
}

impl AbrTestServer {
    pub closed spec fn base(&self) -> Seq<char> {
        self.helper.base()
    }

    pub closed spec fn token_of(&self) -> Seq<char> {
        self.token@
    }

    /// The full path behind a short one.
    pub open spec fn path_of(&self, path: Seq<char>) -> Seq<char> {
        full_path(abr_route(path), self.token_of(), path)
    }

    /// A fixture on `helper`'s server, with its stream registered under
    /// `token`.
    pub fn new(helper: TestServerHelper, token: String) -> (server: Self)
        ensures
            server.base() == helper.base(),
            server.token_of() == token@,
    {
        AbrTestServer { helper, token }
    }

    /// The full path behind a short one.
    pub fn path_for(&self, path: &str) -> (full: String)
        ensures
            full@ == self.path_of(path@),
    {
        let route = abr_route_of(path);
        full_path_text(&route, self.token.as_str(), path)
    }

    /// The URL behind a short path.
    #[must_use]
    pub fn url(&self, path: &str) -> (url: Option<String>)
        ensures
            leads_to(self.base(), self.path_of(path@), url),
    {
        self.helper.url(self.path_for(path).as_str())
    }
}

/// The entry of a master playlist for one variant.
pub open spec fn abr_entry(variant: nat, bandwidth: nat) -> Seq<char> {
    "#EXT-X-STREAM-INF:BANDWIDTH="@ + decimal(bandwidth) + "\nv"@ + decimal(variant) + ".m3u8\n"@
}

fn push_abr_entry(out: &mut String, variant: u64, bandwidth: u64)
    ensures
        final(out)@ == old(out)@ + abr_entry(variant as nat, bandwidth as nat),
{
    out.append("#EXT-X-STREAM-INF:BANDWIDTH=");
    push_decimal(out, bandwidth);
    out.append("\nv");
    push_decimal(out, variant);
    out.append(".m3u8\n");
    assert(out@ =~= old(out)@ + abr_entry(variant as nat, bandwidth as nat));
}

/// A master playlist of three variants.
#[must_use]
pub fn master_playlist(v0_bw: u64, v1_bw: u64, v2_bw: u64) -> (playlist: String)
    ensures
        playlist@ == "#EXTM3U\n#EXT-X-VERSION:6\n"@ + abr_entry(0, v0_bw as nat) + abr_entry(
            1,
            v1_bw as nat,
        ) + abr_entry(2, v2_bw as nat),
{
    let mut playlist = String::from_str("#EXTM3U\n#EXT-X-VERSION:6\n");
    push_abr_entry(&mut playlist, 0, v0_bw);
    push_abr_entry(&mut playlist, 1, v1_bw);
    push_abr_entry(&mut playlist, 2, v2_bw);
    playlist
}

/// The bandwidth that a line of a master playlist names.
pub open spec fn bandwidth_in(line: Seq<char>) -> Option<int> {
    match after_prefix(line, "#EXT-X-STREAM-INF:BANDWIDTH="@) {
        Some(value) => parsed(before_char(value, ','), u64::MAX as int),
        None => None,
    }
}

/// The bandwidths that lines of a master playlist name, in order.
pub open spec fn bandwidths_in(lines: Seq<Seq<char>>) -> Seq<u64>
    decreases lines.len(),
{
    if lines.len() == 0 {
        Seq::empty()
    } else {
        match bandwidth_in(lines.last()) {
            Some(bandwidth) => bandwidths_in(lines.drop_last()).push(bandwidth as u64),
            None => bandwidths_in(lines.drop_last()),
        }
    }
}

/// The bandwidths that a master playlist names, in order.
pub fn parse_master_bandwidths(master_playlist: &str) -> (bandwidths: Vec<u64>)
    ensures
        bandwidths@ == bandwidths_in(lines_of(master_playlist@)),
{
    let all = lines(master_playlist);
    let ghost texts = lines_of(master_playlist@);
    let mut bandwidths: Vec<u64> = Vec::new();
    let mut i: usize = 0;
    assert(texts.take(0) =~= Seq::<Seq<char>>::empty());
    while i < all.len()
        invariant
            i <= all@.len(),
            all@.len() == texts.len(),
            forall|k: int| 0 <= k < all@.len() ==> (#[trigger] all@[k])@ == texts[k],
            bandwidths@ == bandwidths_in(texts.take(i as int)),
        decreases all@.len() - i,
    {
        proof {
            assert(texts.take(i + 1).drop_last() =~= texts.take(i as int));
            assert(texts.take(i + 1).last() == all@[i as int]@);
        }
        if let Some(value) = strip_prefix(all[i].as_str(), "#EXT-X-STREAM-INF:BANDWIDTH=") {
            let number = up_to(value.as_str(), ',');
            if let Some(bandwidth) = parse_u64(number.as_str()) {
                bandwidths.push(bandwidth);
            }
        }
        i += 1;
    }
    assert(texts.take(texts.len() as int) =~= texts);
    bandwidths
}

/// What an ABR variant's init segment holds.
pub open spec fn abr_init(variant: nat) -> Seq<u8> {
    encode_utf8("V"@ + decimal(variant) + "-INIT:"@)
}

/// What an ABR variant's init segment holds.
pub fn abr_init_data(variant: usize) -> (data: Vec<u8>)
    ensures
        data@ == abr_init(variant as nat),
{
    let mut text = String::from_str("V");
    push_decimal(&mut text, variant as u64);
    text.append("-INIT:");
    vstd::slice::slice_to_vec(text.as_str().as_bytes())
}

/// The AES-128 key of the encrypted stream.
pub fn aes128_key_bytes() -> (key: Vec<u8>)
    ensures
        key@ == encode_utf8("0123456789abcdef"@),
{
    vstd::slice::slice_to_vec("0123456789abcdef".as_bytes())
}

/// The initialisation vector of the encrypted stream.
pub fn aes128_iv() -> (iv: [u8; 16])
    ensures
        iv@ == Seq::new(16, |i: int| 0u8),
{
    let iv: [u8; 16] = [0; 16];
    assert(iv@ =~= Seq::new(16, |i: int| 0u8));
    iv
}

/// What the encrypted stream holds.
pub fn aes128_plaintext_segment() -> (data: Vec<u8>)
    ensures
        data@ == encode_utf8("V0-SEG-0:DRM-PLAINTEXT"@),
{
    vstd::slice::slice_to_vec("V0-SEG-0:DRM-PLAINTEXT".as_bytes())
}

/// The key that the plain stream serves.
pub fn test_key_data() -> (key: Vec<u8>)
    ensures
        key@ == encode_utf8("TEST_KEY_DATA_123456"@),
{
    vstd::slice::slice_to_vec("TEST_KEY_DATA_123456".as_bytes())
}

/// What the fixture's plain stream is made from: three variants of the test
/// pattern, and a key to serve.
pub fn fixed_plain_spec() -> (spec: HlsSpec)
    ensures
        spec.variant_count == 3,
        spec.key_hex matches Some(text) && text@ == hex_text(encode_utf8("TEST_KEY_DATA_123456"@)),
        (HlsSpec { key_hex: None, ..spec }).is_default_but_variants(),
{
    let key = test_key_data();
    let mut spec = HlsSpec::default();
    spec.variant_count = 3;
    spec.key_hex = Some(hex_encode(key.as_slice()));
    spec
}

/// What the fixture's stream with init segments is made from: the plain one,
/// with init segments.
pub fn fixed_init_spec() -> (spec: HlsSpec)
    ensures
        spec.variant_count == 3,
        spec.init_mode is TestInit,
        spec.key_hex matches Some(text) && text@ == hex_text(encode_utf8("TEST_KEY_DATA_123456"@)),
        (HlsSpec { key_hex: None, init_mode: InitMode::Absent, ..spec }).is_default_but_variants(),
{
    let mut spec = fixed_plain_spec();
    spec.init_mode = InitMode::TestInit;
    spec
}

/// What the fixture's encrypted stream is made from: one variant of one
/// encrypted segment, whose length is reported as it is in the clear.
pub fn fixed_encrypted_spec() -> (spec: HlsSpec)
    ensures
        spec.variant_count == 1,
        spec.segments_per_variant == 1,
        spec.segment_size == encode_utf8("V0-SEG-0:DRM-PLAINTEXT"@).len(),
        spec.data_mode matches DataMode::CustomDataPerVariant(data) && all_bytes(data@) == seq![
            encode_utf8("V0-SEG-0:DRM-PLAINTEXT"@),
        ],
        spec.encryption matches Some(request) && request.key_hex@ == hex_text(
            encode_utf8("0123456789abcdef"@),
        ) && (request.iv_hex matches Some(iv) && iv@ == hex_text(Seq::new(16, |i: int| 0u8))),
        spec.head_reported_segment_size == Some(spec.segment_size),
        spec.segment_duration.is_four_seconds(),
        spec.init_mode is Absent,
        spec.variant_bandwidths is None,
        spec.delay_rules@.len() == 0,
        spec.key_hex is None,
        spec.key_blob_ref is None,
{
    let plaintext = aes128_plaintext_segment();
    let size: usize = plaintext.len();
    let key = aes128_key_bytes();
    let iv = aes128_iv();
    let mut data: Vec<Vec<u8>> = Vec::new();
    data.push(plaintext);
    assert(all_bytes(data@) =~= seq![encode_utf8("V0-SEG-0:DRM-PLAINTEXT"@)]);
    HlsSpec {
        variant_count: 1,
        segments_per_variant: 1,
        segment_size: size,
        segment_duration: SegmentDuration::four_seconds(),
        data_mode: DataMode::CustomDataPerVariant(data),
        init_mode: InitMode::Absent,
        variant_bandwidths: None,
        delay_rules: Vec::new(),
        encryption: Some(
            EncryptionRequest {
                key_hex: hex_encode(key.as_slice()),
                iv_hex: Some(hex_encode(iv.as_slice())),
            },
        ),
        head_reported_segment_size: Some(size),
        key_hex: None,
        key_blob_ref: None,
    }
}

/// The blobs once `data` was registered too.
pub open spec fn with_blob(
    blobs: Map<Seq<char>, Seq<u8>>,
    data: Seq<u8>,
) -> Map<Seq<char>, Seq<u8>> {
    if blobs.contains_key(blob_address(data)) {
        blobs
    } else {
        blobs.insert(blob_address(data), data)
    }
}

/// The blobs once each of `parts` was registered in turn.
pub open spec fn with_blobs(
    blobs: Map<Seq<char>, Seq<u8>>,
    parts: Seq<Arc<Vec<u8>>>,
) -> Map<Seq<char>, Seq<u8>>
    decreases parts.len(),
{
    if parts.len() == 0 {
        blobs
    } else {
        with_blob(with_blobs(blobs, parts.drop_last()), parts.last()@)
    }
}

/// Whether `keys` are the addresses of `parts`.
pub open spec fn addresses(keys: Seq<String>, parts: Seq<Arc<Vec<u8>>>) -> bool {
    &&& keys.len() == parts.len()
    &&& forall|i: int| 0 <= i < keys.len() ==> (#[trigger] keys[i])@ == blob_address(parts[i]@)
}

/// Register each of `parts`.
fn register_all(parts: &Vec<Arc<Vec<u8>>>, blobs: &mut BlobStore) -> (keys: Vec<String>)
    ensures
        addresses(keys@, parts@),
        final(blobs).contents() == with_blobs(old(blobs).contents(), parts@),
        old(blobs).well_formed() ==> final(blobs).well_formed(),
{
    let ghost before = blobs.contents();
    let ghost sound = blobs.well_formed();
    let mut keys: Vec<String> = Vec::new();
    let mut i: usize = 0;
    assert(parts@.take(0) =~= Seq::<Arc<Vec<u8>>>::empty());
    while i < parts.len()
        invariant
            i <= parts@.len(),
            keys@.len() == i,
            forall|k: int| 0 <= k < i ==> (#[trigger] keys@[k])@ == blob_address(parts@[k]@),
            blobs.contents() == with_blobs(before, parts@.take(i as int)),
            sound ==> blobs.well_formed(),
        decreases parts@.len() - i,
    {
        assert(parts@.take(i + 1).drop_last() =~= parts@.take(i as int));
        keys.push(blobs.register_hls_blob(parts[i].as_slice()));
        i += 1;
    }
    assert(parts@.take(parts@.len() as int) =~= parts@);
    keys
}

/// The blobs once the media bytes of a configuration were registered.
pub open spec fn with_media(
    blobs: Map<Seq<char>, Seq<u8>>,
    config: HlsTestServerConfig,
) -> Map<Seq<char>, Seq<u8>> {
    match (config.custom_data_per_variant, config.custom_data) {
        (Some(parts), _) => with_blobs(blobs, parts@),
        (None, Some(data)) => with_blob(blobs, data@),
        (None, None) => blobs,
    }
}

/// The blobs once all bytes of a configuration were registered.
pub open spec fn with_config(
    blobs: Map<Seq<char>, Seq<u8>>,
    config: HlsTestServerConfig,
) -> Map<Seq<char>, Seq<u8>> {
    match config.init_data_per_variant {
        Some(parts) => with_blobs(with_media(blobs, config), parts@),
        None => with_media(blobs, config),
    }
}

/// Whether `spec` describes what `config` does, with its bytes as blobs.
pub open spec fn spec_is_for(config: HlsTestServerConfig, spec: HlsSpec) -> bool {
    &&& spec.variant_count == config.variant_count
    &&& spec.segments_per_variant == config.segments_per_variant
    &&& spec.segment_size == config.segment_size
    &&& spec.segment_duration.same(&config.segment_duration)
    &&& match (config.custom_data_per_variant, config.custom_data) {
        (Some(parts), _) => spec.data_mode matches DataMode::BlobRefs(keys) && addresses(
            keys@,
            parts@,
        ),
        (None, Some(data)) => spec.data_mode matches DataMode::BlobRef(key) && key@ == blob_address(
            data@,
        ),
        (None, None) => spec.data_mode is TestPattern,
    }
    &&& match config.init_data_per_variant {
        Some(parts) => spec.init_mode matches InitMode::BlobRefs(keys) && addresses(keys@, parts@),
        None => spec.init_mode is Absent,
    }
    &&& match (config.variant_bandwidths, spec.variant_bandwidths) {
        (Some(wanted), Some(given)) => given@ == wanted@,
        (None, None) => true,
        _ => false,
    }
    &&& spec.delay_rules@ == config.delay_rules@
    &&& match (config.encryption, spec.encryption) {
        (Some(encryption), Some(request)) => {
            &&& request.key_hex@ == hex_text(encryption.key@)
            &&& match (encryption.iv, request.iv_hex) {
                (Some(iv), Some(text)) => text@ == hex_text(iv@),
                (None, None) => true,
                _ => false,
            }
        },
        (None, None) => true,
        _ => false,
    }
    &&& spec.head_reported_segment_size == match config.head_reported_segment_size {
        Some(size) => Some(size),
        None => if config.encryption is Some {
            Some(config.segment_size)
        } else {
            None
        },
    }
    &&& spec.key_hex is None
    &&& spec.key_blob_ref is None
}

/// What a configured fixture's stream is made from. Its bytes are registered
/// as blobs. An encrypted segment's length is reported as it is in the clear,
/// unless the configuration says otherwise.
pub fn spec_from_config(config: &HlsTestServerConfig, blobs: &mut BlobStore) -> (spec: HlsSpec)
    ensures
        spec_is_for(*config, spec),
        final(blobs).contents() == with_config(old(blobs).contents(), *config),
        old(blobs).well_formed() ==> final(blobs).well_formed(),
{
    let data_mode = match &config.custom_data_per_variant {
        Some(parts) => DataMode::BlobRefs(register_all(parts, blobs)),
        None => match &config.custom_data {
            Some(data) => DataMode::BlobRef(blobs.register_hls_blob(data.as_slice())),
            None => DataMode::TestPattern,
        },
    };
    let init_mode = match &config.init_data_per_variant {
        Some(parts) => InitMode::BlobRefs(register_all(parts, blobs)),
        None => InitMode::Absent,
    };
    let encryption = match &config.encryption {
        Some(encryption) => Some(
            EncryptionRequest {
                key_hex: hex_encode(encryption.key.as_slice()),
                iv_hex: match &encryption.iv {
                    Some(iv) => Some(hex_encode(iv.as_slice())),
                    None => None,
                },
            },
        ),
        None => None,
    };
    let head_reported_segment_size: Option<usize> = match config.head_reported_segment_size {
        Some(size) => Some(size),
        None => if config.encryption.is_some() {
            Some(config.segment_size)
        } else {
            None
        },
    };
    let variant_bandwidths = match &config.variant_bandwidths {
        Some(bandwidths) => Some(vstd::slice::slice_to_vec(bandwidths.as_slice())),
        None => None,
    };
    HlsSpec {
        variant_count: config.variant_count,
        segments_per_variant: config.segments_per_variant,
        segment_size: config.segment_size,
        segment_duration: config.segment_duration.duplicate(),
        data_mode,
        init_mode,
        variant_bandwidths,
        delay_rules: vstd::slice::slice_to_vec(config.delay_rules.as_slice()),
        encryption,
        head_reported_segment_size,
        key_hex: None,
        key_blob_ref: None,
    }
}

/// What the ABR fixture's stream is made from: a variant for each bandwidth
/// that the playlist names, and a delay for the first segment of the last
/// variant.
pub fn abr_spec(master_playlist: &str, init: bool, segment0_delay: Duration) -> (spec: HlsSpec)
    ensures
        ({
            let bandwidths = bandwidths_in(lines_of(master_playlist@));
            &&& spec.variant_count == if bandwidths.len() == 0 {
                1
            } else {
                bandwidths.len() as int
            }
            &&& spec.variant_bandwidths matches Some(given) && given@ == bandwidths
        }),
        spec.data_mode is AbrBinary,
        init ==> (spec.init_mode matches InitMode::Custom(data) && all_bytes(data@) == seq![
            abr_init(0),
            abr_init(1),
            abr_init(2),
        ]),
        !init ==> spec.init_mode is Absent,
        spec.delay_rules@ == seq![
            DelayRule {
                variant: Some(2),
                segment_eq: Some(0),
                segment_gte: None,
                delay_ms: (segment0_delay.nanoseconds() / 1_000_000 % 0x1_0000_0000_0000_0000) as u64,
            },
        ],
        spec.head_reported_segment_size == Some(200_000usize),
        spec.segments_per_variant == 3,
        spec.segment_size == 200_000,
        spec.segment_duration.is_four_seconds(),
        spec.encryption is None,
        spec.key_hex is None,
        spec.key_blob_ref is None,
{
    let variant_bandwidths = parse_master_bandwidths(master_playlist);
    let init_mode = if init {
        let mut data: Vec<Vec<u8>> = Vec::new();
        data.push(abr_init_data(0));
        data.push(abr_init_data(1));
        data.push(abr_init_data(2));
        assert(all_bytes(data@) =~= seq![abr_init(0), abr_init(1), abr_init(2)]);
        InitMode::Custom(data)
    } else {
        InitMode::Absent
    };
    let mut delay_rules: Vec<DelayRule> = Vec::new();
    delay_rules.push(
        DelayRule {
            variant: Some(2),
            segment_eq: Some(0),
            segment_gte: None,
            delay_ms: (segment0_delay.as_millis() % 0x1_0000_0000_0000_0000) as u64,
        },
    );
    HlsSpec {
        variant_count: if variant_bandwidths.len() == 0 {
            1
        } else {
            variant_bandwidths.len()
        },
        segments_per_variant: 3,
        segment_size: 200_000,
        segment_duration: SegmentDuration::four_seconds(),
        data_mode: DataMode::AbrBinary,
        init_mode,
        variant_bandwidths: Some(variant_bandwidths),
        delay_rules,
        encryption: None,
        head_reported_segment_size: Some(200_000),
        key_hex: None,
        key_blob_ref: None,
    }
}

/// Whether `blobs` holds exactly `data` under its address.
pub open spec fn is_kept(blobs: Map<Seq<char>, Seq<u8>>, data: Seq<u8>) -> bool {
    blobs.contains_key(blob_address(data)) && blobs[blob_address(data)] == data
}

/// Whether `blobs` holds all bytes that a configuration asks for under their
/// addresses.
pub open spec fn holds_config(
    blobs: Map<Seq<char>, Seq<u8>>,
    config: HlsTestServerConfig,
) -> bool {
    &&& config.custom_data_per_variant is None ==> (config.custom_data matches Some(data)
        ==> is_kept(blobs, data@))
    &&& config.custom_data_per_variant matches Some(parts) ==> forall|i: int|
        0 <= i < parts@.len() ==> is_kept(blobs, (#[trigger] parts@[i])@)
    &&& config.init_data_per_variant matches Some(parts) ==> forall|i: int|
        0 <= i < parts@.len() ==> is_kept(blobs, (#[trigger] parts@[i])@)
}

/// Whether `data` is among `parts`.
pub open spec fn is_part(parts: Option<Vec<Arc<Vec<u8>>>>, data: Seq<u8>) -> bool {
    parts matches Some(parts) && exists|i: int|
        0 <= i < parts@.len() && (#[trigger] parts@[i])@ == data
}

/// Whether `data` is stored, or among the bytes of a configuration.
pub open spec fn is_known(
    blobs: Map<Seq<char>, Seq<u8>>,
    config: HlsTestServerConfig,
    data: Seq<u8>,
) -> bool {
    ||| exists|key: Seq<char>| #[trigger] blobs.contains_key(key) && blobs[key] == data
    ||| config.custom_data matches Some(given) && given@ == data
    ||| is_part(config.custom_data_per_variant, data)
    ||| is_part(config.init_data_per_variant, data)
}

/// Whether no two different blobs, stored or of a configuration, have one
/// address.
pub open spec fn no_collision(
    blobs: Map<Seq<char>, Seq<u8>>,
    config: HlsTestServerConfig,
) -> bool {
    forall|a: Seq<u8>, b: Seq<u8>|
        #![trigger is_known(blobs, config, a), is_known(blobs, config, b)]
        is_known(blobs, config, a) && is_known(blobs, config, b) && blob_address(a)
            == blob_address(b) ==> a == b
}

/// Every blob of `now` stands under its own address, and is known.
spec fn in_place(
    now: Map<Seq<char>, Seq<u8>>,
    blobs: Map<Seq<char>, Seq<u8>>,
    config: HlsTestServerConfig,
) -> bool {
    forall|key: Seq<char>| #[trigger]
        now.contains_key(key) ==> key == blob_address(now[key]) && is_known(
            blobs,
            config,
            now[key],
        )
}

proof fn lemma_blob_is_kept(
    now: Map<Seq<char>, Seq<u8>>,
    blobs: Map<Seq<char>, Seq<u8>>,
    config: HlsTestServerConfig,
    data: Seq<u8>,
)
    requires
        no_collision(blobs, config),
        in_place(now, blobs, config),
        is_known(blobs, config, data),
    ensures
        in_place(with_blob(now, data), blobs, config),
        is_kept(with_blob(now, data), data),
        forall|other: Seq<u8>| #[trigger]
            is_kept(now, other) ==> is_kept(with_blob(now, data), other),
{
    if now.contains_key(blob_address(data)) {
        assert(is_known(blobs, config, now[blob_address(data)]));
    }
}

proof fn lemma_blobs_are_kept(
    now: Map<Seq<char>, Seq<u8>>,
    blobs: Map<Seq<char>, Seq<u8>>,
    config: HlsTestServerConfig,
    parts: Seq<Arc<Vec<u8>>>,
)
    requires
        no_collision(blobs, config),
        in_place(now, blobs, config),
        forall|i: int| 0 <= i < parts.len() ==> is_known(blobs, config, (#[trigger] parts[i])@),
    ensures
        in_place(with_blobs(now, parts), blobs, config),
        forall|i: int|
            0 <= i < parts.len() ==> is_kept(with_blobs(now, parts), (#[trigger] parts[i])@),
        forall|other: Seq<u8>| #[trigger]
            is_kept(now, other) ==> is_kept(with_blobs(now, parts), other),
    decreases parts.len(),
{
    if parts.len() > 0 {
        let rest = parts.drop_last();
        assert forall|i: int| 0 <= i < rest.len() implies is_known(
            blobs,
            config,
            (#[trigger] rest[i])@,
        ) by {
            assert(rest[i] == parts[i]);
        }
        lemma_blobs_are_kept(now, blobs, config, rest);
        let last = parts[parts.len() - 1];
        lemma_blob_is_kept(with_blobs(now, rest), blobs, config, last@);
        assert forall|i: int| 0 <= i < parts.len() implies is_kept(
            with_blobs(now, parts),
            (#[trigger] parts[i])@,
        ) by {
            if i < rest.len() {
                assert(is_kept(with_blobs(now, rest), rest[i]@));
            }
        }
        assert forall|other: Seq<u8>| #[trigger] is_kept(now, other) implies is_kept(
            with_blobs(now, parts),
            other,
        ) by {
            assert(is_kept(with_blobs(now, rest), other));
        }
    }
}

/// The bytes of a configuration are kept under their addresses once its
/// description was made, as long as no two different blobs have one address.
pub proof fn law_configured_bytes_are_kept(
    blobs: Map<Seq<char>, Seq<u8>>,
    config: HlsTestServerConfig,
)
    requires
        forall|key: Seq<char>| #[trigger]
            blobs.contains_key(key) ==> key == blob_address(blobs[key]),
        no_collision(blobs, config),
    ensures
        holds_config(with_config(blobs, config), config),
{
    assert(in_place(blobs, blobs, config));
    if config.custom_data_per_variant is Some {
        let parts = config.custom_data_per_variant->0@;
        assert forall|i: int| 0 <= i < parts.len() implies is_known(
            blobs,
            config,
            (#[trigger] parts[i])@,
        ) by {
            assert(is_part(config.custom_data_per_variant, parts[i]@));
        }
        lemma_blobs_are_kept(blobs, blobs, config, parts);
    } else if config.custom_data is Some {
        assert(is_known(blobs, config, config.custom_data->0@));
        lemma_blob_is_kept(blobs, blobs, config, config.custom_data->0@);
    }
    if config.init_data_per_variant is Some {
        let parts = config.init_data_per_variant->0@;
        assert forall|i: int| 0 <= i < parts.len() implies is_known(
            blobs,
            config,
            (#[trigger] parts[i])@,
        ) by {
            assert(is_part(config.init_data_per_variant, parts[i]@));
        }
        lemma_blobs_are_kept(with_media(blobs, config), blobs, config, parts);
    }
}

/// What a configured fixture expects is what its stream holds: byte for byte,
/// the init segment and then the segments in their order.
pub proof fn law_the_fixture_expects_what_the_stream_holds(
    config: HlsTestServerConfig,
    spec: HlsSpec,
    blobs: Map<Seq<char>, Seq<u8>>,
    name: Seq<char>,
    resolved: ResolvedHlsSpec,
    variant: int,
    segment: int,
    i: int,
)
    requires
        spec_is_for(config, spec),
        holds_config(blobs, config),
        spec_resolves(spec, blobs, name, resolved),
        0 <= variant,
        0 <= segment,
        0 <= i,
    ensures
        config.init_bytes(variant) == init_of(resolved, variant),
        i < init_of(resolved, variant).len() ==> config.byte_at(variant, i) == init_of(
            resolved,
            variant,
        )[i],
        has_segment(resolved, variant, segment) && i < plaintext_of(
            resolved,
            variant,
            segment,
        ).len() ==> config.byte_at(
            variant,
            config.init_bytes(variant).len() + segment * config.segment_size + i,
        ) == plaintext_of(resolved, variant, segment)[i],
{
    let size = config.segment_size as int;
    if config.init_data_per_variant is Some {
        let parts = config.init_data_per_variant->0;
        let keys = spec.init_mode->BlobRefs_0;
        let bytes = resolved.init_mode->PerVariantBytes_0;
        assert(all_bytes(bytes@).len() == bytes@.len());
        assert(bytes@.len() == parts@.len());
        if variant < parts@.len() {
            assert(all_bytes(bytes@)[variant] == bytes@[variant]@);
            assert(blobs_at(keys@, blobs)[variant] == blobs[keys@[variant]@]);
            assert(is_kept(blobs, parts@[variant]@));
        }
        assert(config.init_bytes(variant) =~= init_of(resolved, variant));
    }
    if has_segment(resolved, variant, segment) && i < plaintext_of(
        resolved,
        variant,
        segment,
    ).len() {
        let media = segment * size + i;
        assert(segment * size >= 0) by (nonlinear_arith)
            requires
                segment >= 0,
                size >= 0,
        ;
        if config.custom_data_per_variant is Some {
            let parts = config.custom_data_per_variant->0;
            let keys = spec.data_mode->BlobRefs_0;
            let bytes = resolved.data_mode->PerVariantBytes_0;
            assert(all_bytes(bytes@).len() == bytes@.len());
            assert(all_bytes(bytes@)[variant] == bytes@[variant]@);
            assert(blobs_at(keys@, blobs)[variant] == blobs[keys@[variant]@]);
            assert(is_kept(blobs, parts@[variant]@));
            assert(variant_data(resolved, variant) == Some(parts@[variant]@));
        } else if config.custom_data is Some {
            assert(variant_data(resolved, variant) == Some(config.custom_data->0@));
        } else {
            assert(i < size);
            vstd::arithmetic::div_mod::lemma_fundamental_div_mod_converse(media, size, segment, i);
        }
    }
}

/// A line that ends in a line feed, and what follows it.
#[verifier::rlimit(60)]
pub proof fn lemma_line(line: Seq<char>, rest: Seq<char>)
    requires
        forall|i: int| 0 <= i < line.len() ==> line[i] != '\n',
        line.len() > 0 ==> line.last() != '\r',
    ensures
        lines_of(line + "\n"@ + rest) == seq![line] + lines_of(rest),
{
    reveal_strlit("\n");
    let text = line + "\n"@ + rest;
    lemma_position(text, '\n', line.len() as int);
    assert(text.take(line.len() as int) =~= line);
    assert(text.skip(line.len() + 1int) =~= rest);
}

/// A row of decimal digits has no character that is none.
pub proof fn lemma_no_such_digit(n: nat, c: char)
    requires
        c < '0' || c > '9',
    ensures
        position(decimal(n), c) == decimal(n).len(),
        forall|i: int| 0 <= i < decimal(n).len() ==> decimal(n)[i] != c,
        decimal(n).len() > 0,
{
    lemma_decimal_digits(n);
    lemma_position(decimal(n), c, decimal(n).len() as int);
}

/// The two lines of an entry, and what follows it.
#[verifier::rlimit(60)]
proof fn lemma_entry(variant: nat, bandwidth: nat, rest: Seq<char>)
    requires
        bandwidth <= u64::MAX,
    ensures
        bandwidths_of(abr_entry(variant, bandwidth) + rest) == seq![bandwidth as u64]
            + bandwidths_of(rest),
{
    reveal_strlit("#EXT-X-STREAM-INF:BANDWIDTH=");
    reveal_strlit("\nv");
    reveal_strlit(".m3u8\n");
    reveal_strlit("\n");
    lemma_no_such_digit(bandwidth, '\n');
    lemma_no_such_digit(bandwidth, '\r');
    lemma_no_such_digit(bandwidth, ',');
    lemma_no_such_digit(variant, '\n');
    let prefix = "#EXT-X-STREAM-INF:BANDWIDTH="@;
    let first = prefix + decimal(bandwidth);
    let second = seq!['v'] + decimal(variant) + seq!['.', 'm', '3', 'u', '8'];
    let after = second + "\n"@ + rest;
    assert(abr_entry(variant, bandwidth) + rest =~= first + "\n"@ + after);
    lemma_line(first, after);
    lemma_line(second, rest);
    assert(first.skip(prefix.len() as int) =~= decimal(bandwidth));
    assert(decimal(bandwidth).take(decimal(bandwidth).len() as int) =~= decimal(bandwidth));
    law_decimal_is_parsed_back(bandwidth, u64::MAX as int);
    assert(bandwidth_in(first) == Some(bandwidth as int));
    assert(second[0] == 'v' && prefix[0] == '#');
    assert(bandwidth_in(second) is None);
    let others = lines_of(rest);
    assert(lines_of(first + "\n"@ + after) =~= seq![first, second] + others);
    lemma_bandwidths_join(seq![first, second], others);
    assert(bandwidths_in(seq![first, second]) =~= seq![bandwidth as u64]) by {
        reveal_with_fuel(bandwidths_in, 3);
        assert(seq![first, second].drop_last() =~= seq![first]);
        assert(seq![first].drop_last() =~= Seq::<Seq<char>>::empty());
    }
}

pub proof fn lemma_bandwidths_join(a: Seq<Seq<char>>, b: Seq<Seq<char>>)
    ensures
        bandwidths_in(a + b) == bandwidths_in(a) + bandwidths_in(b),
    decreases b.len(),
{
    if b.len() == 0 {
        assert(a + b =~= a);
    } else {
        assert((a + b).drop_last() =~= a + b.drop_last());
        lemma_bandwidths_join(a, b.drop_last());
    }
}

/// The bandwidths that a master playlist names, in order.
pub open spec fn bandwidths_of(playlist: Seq<char>) -> Seq<u64> {
    bandwidths_in(lines_of(playlist))
}

/// The bandwidths that a master playlist was made with are the ones that are
/// read out of it.
pub proof fn law_master_playlist_names_its_bandwidths(v0_bw: u64, v1_bw: u64, v2_bw: u64)
    ensures
        bandwidths_of(
            "#EXTM3U\n#EXT-X-VERSION:6\n"@ + abr_entry(0, v0_bw as nat) + abr_entry(
                1,
                v1_bw as nat,
            ) + abr_entry(2, v2_bw as nat),
        ) == seq![v0_bw, v1_bw, v2_bw],
{
    let e0 = abr_entry(0, v0_bw as nat);
    let e1 = abr_entry(1, v1_bw as nat);
    let e2 = abr_entry(2, v2_bw as nat);
    let entries = e0 + (e1 + (e2 + Seq::<char>::empty()));
    let head = "#EXTM3U\n#EXT-X-VERSION:6\n"@;
    assert(head + e0 + e1 + e2 =~= head + entries);
    lemma_head_names_no_bandwidth(entries);
    lemma_entry(2, v2_bw as nat, Seq::empty());
    lemma_entry(1, v1_bw as nat, e2 + Seq::<char>::empty());
    lemma_entry(0, v0_bw as nat, e1 + (e2 + Seq::<char>::empty()));
    assert(lines_of(Seq::<char>::empty()) =~= Seq::<Seq<char>>::empty());
    assert(bandwidths_of(Seq::<char>::empty()) =~= Seq::<u64>::empty());
}

/// The path of a segment names that segment.
#[verifier::rlimit(60)]
proof fn lemma_segment_path(variant: usize, segment: usize)
    ensures
        segment_in(
            "/seg/v"@ + decimal(variant as nat) + "_"@ + decimal(segment as nat) + ".bin"@,
        ) == Some((variant as int, segment as int)),
{
    reveal_strlit("/seg/v");
    reveal_strlit(".bin");
    reveal_strlit("_");
    let v = decimal(variant as nat);
    let s = decimal(segment as nat);
    let path = "/seg/v"@ + v + "_"@ + s + ".bin"@;
    let rest = v + "_"@ + s + ".bin"@;
    let pair = v + "_"@ + s;
    assert(path.skip(6) =~= rest);
    assert("/seg/v"@.is_prefix_of(path)) by {
        assert(path.subrange(0, 6) =~= "/seg/v"@);
    }
    assert(".bin"@.is_suffix_of(rest)) by {
        assert(rest.subrange(rest.len() - 4, rest.len() as int) =~= ".bin"@);
    }
    assert(rest.take(rest.len() - 4) =~= pair);
    lemma_no_such_digit(variant as nat, '_');
    lemma_position(pair, '_', v.len() as int);
    assert(pair.take(v.len() as int) =~= v);
    assert(pair.skip(v.len() + 1int) =~= s);
    law_decimal_is_parsed_back(variant as nat, usize::MAX as int);
    law_decimal_is_parsed_back(segment as nat, usize::MAX as int);
}

/// The path of a segment leads to that segment.
#[verifier::rlimit(60)]
pub proof fn law_a_segment_path_leads_to_its_segment(variant: usize, segment: usize)
    ensures
        config_route(
            "/seg/v"@ + decimal(variant as nat) + "_"@ + decimal(segment as nat) + ".bin"@,
        ) == Route::Segment(Stream::Plain, variant, segment),
{
    reveal_strlit("/master.m3u8");
    reveal_strlit("/key.bin");
    reveal_strlit("/playlist/v");
    reveal_strlit("/seg/v");
    reveal_strlit(".bin");
    let path = "/seg/v"@ + decimal(variant as nat) + "_"@ + decimal(segment as nat) + ".bin"@;
    assert(path[1] == 's');
    assert("/master.m3u8"@[1] == 'm');
    assert("/key.bin"@[1] == 'k');
    assert("/playlist/v"@[1] == 'p');
    assert("/seg/v"@.is_prefix_of(path)) by {
        assert(path.subrange(0, 6) =~= "/seg/v"@);
    }
    assert(".bin"@.is_suffix_of(path)) by {
        assert(path.subrange(path.len() - 4, path.len() as int) =~= ".bin"@);
    }
    lemma_segment_path(variant, segment);
}

/// What stands before the entries of a master playlist names no bandwidth.
#[verifier::rlimit(60)]
proof fn lemma_head_names_no_bandwidth(rest: Seq<char>)
    ensures
        bandwidths_of("#EXTM3U\n#EXT-X-VERSION:6\n"@ + rest) == bandwidths_of(rest),
{
    reveal_strlit("#EXTM3U\n#EXT-X-VERSION:6\n");
    reveal_strlit("#EXT-X-STREAM-INF:BANDWIDTH=");
    reveal_strlit("\n");
    reveal_strlit("#EXTM3U");
    reveal_strlit("#EXT-X-VERSION:6");
    let first = "#EXTM3U"@;
    let second = "#EXT-X-VERSION:6"@;
    let after = second + "\n"@ + rest;
    assert("#EXTM3U\n#EXT-X-VERSION:6\n"@ + rest =~= first + "\n"@ + after);
    lemma_line(first, after);
    lemma_line(second, rest);
    let prefix = "#EXT-X-STREAM-INF:BANDWIDTH="@;
    assert(bandwidth_in(first) is None) by {
        assert(first.len() < prefix.len());
    }
    assert(bandwidth_in(second) is None) by {
        assert(second.len() < prefix.len());
    }
    assert(lines_of(first + "\n"@ + after) =~= seq![first, second] + lines_of(rest));
    lemma_bandwidths_join(seq![first, second], lines_of(rest));
    assert(bandwidths_in(seq![first, second]) =~= Seq::<u64>::empty()) by {
        reveal_with_fuel(bandwidths_in, 3);
        assert(seq![first, second].drop_last() =~= seq![first]);
        assert(seq![first].drop_last() =~= Seq::<Seq<char>>::empty());
    }
    assert(Seq::<u64>::empty() + bandwidths_of(rest) =~= bandwidths_of(rest));
}

/// An entry that names further attributes behind a comma names the bandwidth
/// before it.
#[verifier::rlimit(60)]
proof fn lemma_entry_with_attributes(
    bandwidth: nat,
    attributes: Seq<char>,
    uri: Seq<char>,
    rest: Seq<char>,
)
    requires
        bandwidth <= u64::MAX,
        forall|i: int| 0 <= i < attributes.len() ==> attributes[i] != '\n',
        attributes.len() > 0,
        attributes[0] == ',',
        attributes.last() != '\r',
        forall|i: int| 0 <= i < uri.len() ==> uri[i] != '\n',
        uri.len() > 0,
        uri[0] != '#',
        uri.last() != '\r',
    ensures
        bandwidths_of(
            "#EXT-X-STREAM-INF:BANDWIDTH="@ + decimal(bandwidth) + attributes + "\n"@ + uri
                + "\n"@ + rest,
        ) == seq![bandwidth as u64] + bandwidths_of(rest),
{
    reveal_strlit("#EXT-X-STREAM-INF:BANDWIDTH=");
    reveal_strlit("\n");
    lemma_no_such_digit(bandwidth, '\n');
    lemma_no_such_digit(bandwidth, ',');
    let prefix = "#EXT-X-STREAM-INF:BANDWIDTH="@;
    let value = decimal(bandwidth) + attributes;
    let first = prefix + decimal(bandwidth) + attributes;
    let after = uri + "\n"@ + rest;
    assert(prefix + decimal(bandwidth) + attributes + "\n"@ + uri + "\n"@ + rest =~= first + "\n"@
        + after);
    lemma_line(first, after);
    lemma_line(uri, rest);
    assert(prefix.is_prefix_of(first)) by {
        assert(first.subrange(0, prefix.len() as int) =~= prefix);
    }
    assert(first.skip(prefix.len() as int) =~= value);
    lemma_position(value, ',', decimal(bandwidth).len() as int);
    assert(value.take(decimal(bandwidth).len() as int) =~= decimal(bandwidth));
    law_decimal_is_parsed_back(bandwidth, u64::MAX as int);
    assert(bandwidth_in(first) == Some(bandwidth as int));
    assert(bandwidth_in(uri) is None) by {
        assert(prefix[0] == '#');
    }
    assert(lines_of(first + "\n"@ + after) =~= seq![first, uri] + lines_of(rest));
    lemma_bandwidths_join(seq![first, uri], lines_of(rest));
    assert(bandwidths_in(seq![first, uri]) =~= seq![bandwidth as u64]) by {
        reveal_with_fuel(bandwidths_in, 3);
        assert(seq![first, uri].drop_last() =~= seq![first]);
        assert(seq![first].drop_last() =~= Seq::<Seq<char>>::empty());
    }
}

/// Whether an entry with this bandwidth, these attributes and this URI stands in
/// `text` from `at` on.
spec fn entry_at(
    text: Seq<char>,
    at: int,
    bandwidth: nat,
    attributes: Seq<char>,
    uri: Seq<char>,
) -> bool {
    let digits = at + 28;
    let behind = digits + decimal(bandwidth).len();
    let feed = behind + attributes.len();
    let last = feed + 1 + uri.len();
    &&& 0 <= at && last < text.len()
    &&& text.subrange(at, digits) == "#EXT-X-STREAM-INF:BANDWIDTH="@
    &&& text.subrange(digits, behind) == decimal(bandwidth)
    &&& text.subrange(behind, feed) == attributes
    &&& text[feed] == '\n'
    &&& text.subrange(feed + 1, last) == uri
    &&& text[last] == '\n'
}

/// An entry in a text names its bandwidth, and what follows it the others.
#[verifier::rlimit(60)]
proof fn lemma_entry_at(
    text: Seq<char>,
    at: int,
    bandwidth: nat,
    attributes: Seq<char>,
    uri: Seq<char>,
)
    requires
        bandwidth <= u64::MAX,
        entry_at(text, at, bandwidth, attributes, uri),
        forall|i: int| 0 <= i < attributes.len() ==> attributes[i] != '\n',
        attributes.len() > 0,
        attributes[0] == ',',
        attributes.last() != '\r',
        forall|i: int| 0 <= i < uri.len() ==> uri[i] != '\n',
        uri.len() > 0,
        uri[0] != '#',
        uri.last() != '\r',
    ensures
        bandwidths_of(text.skip(at)) == seq![bandwidth as u64] + bandwidths_of(
            text.skip(at + 30 + decimal(bandwidth).len() + attributes.len() + uri.len()),
        ),
{
    reveal_strlit("#EXT-X-STREAM-INF:BANDWIDTH=");
    reveal_strlit("\n");
    let digits = at + 28;
    let behind = digits + decimal(bandwidth).len();
    let feed = behind + attributes.len();
    let last = feed + 1 + uri.len();
    let rest = text.skip(last + 1);
    assert(text.subrange(feed, feed + 1) =~= "\n"@);
    assert(text.subrange(last, last + 1) =~= "\n"@);
    assert(text.skip(at) =~= text.subrange(at, digits) + text.subrange(digits, behind)
        + text.subrange(behind, feed) + text.subrange(feed, feed + 1) + text.subrange(
        feed + 1,
        last,
    ) + text.subrange(last, last + 1) + rest);
    lemma_entry_with_attributes(bandwidth, attributes, uri, rest);
}

/// What is read out of the fixture's own master playlist: the three bandwidths,
/// whatever attributes stand behind them.
#[verifier::rlimit(60)]
pub proof fn law_the_fixed_master_playlist_names_its_bandwidths()
    ensures
        bandwidths_of(
            "#EXTM3U\n#EXT-X-VERSION:6\n#EXT-X-STREAM-INF:BANDWIDTH=1280000,RESOLUTION=854x480,CODECS=\"avc1.42c01e,mp4a.40.2\"\nv0.m3u8\n#EXT-X-STREAM-INF:BANDWIDTH=2560000,RESOLUTION=1280x720,CODECS=\"avc1.42c01e,mp4a.40.2\"\nv1.m3u8\n#EXT-X-STREAM-INF:BANDWIDTH=5120000,RESOLUTION=1920x1080,CODECS=\"avc1.42c01e,mp4a.40.2\"\nv2.m3u8\n"@,
        ) == seq![1_280_000u64, 2_560_000, 5_120_000],
{
    reveal_strlit(
        "#EXTM3U\n#EXT-X-VERSION:6\n#EXT-X-STREAM-INF:BANDWIDTH=1280000,RESOLUTION=854x480,CODECS=\"avc1.42c01e,mp4a.40.2\"\nv0.m3u8\n#EXT-X-STREAM-INF:BANDWIDTH=2560000,RESOLUTION=1280x720,CODECS=\"avc1.42c01e,mp4a.40.2\"\nv1.m3u8\n#EXT-X-STREAM-INF:BANDWIDTH=5120000,RESOLUTION=1920x1080,CODECS=\"avc1.42c01e,mp4a.40.2\"\nv2.m3u8\n",
    );
    reveal_strlit("#EXTM3U\n#EXT-X-VERSION:6\n");
    reveal_strlit("#EXT-X-STREAM-INF:BANDWIDTH=");
    reveal_strlit(",RESOLUTION=854x480,CODECS=\"avc1.42c01e,mp4a.40.2\"");
    reveal_strlit("v0.m3u8");
    reveal_strlit(",RESOLUTION=1280x720,CODECS=\"avc1.42c01e,mp4a.40.2\"");
    reveal_strlit("v1.m3u8");
    reveal_strlit(",RESOLUTION=1920x1080,CODECS=\"avc1.42c01e,mp4a.40.2\"");
    reveal_strlit("v2.m3u8");
    let text =
        "#EXTM3U\n#EXT-X-VERSION:6\n#EXT-X-STREAM-INF:BANDWIDTH=1280000,RESOLUTION=854x480,CODECS=\"avc1.42c01e,mp4a.40.2\"\nv0.m3u8\n#EXT-X-STREAM-INF:BANDWIDTH=2560000,RESOLUTION=1280x720,CODECS=\"avc1.42c01e,mp4a.40.2\"\nv1.m3u8\n#EXT-X-STREAM-INF:BANDWIDTH=5120000,RESOLUTION=1920x1080,CODECS=\"avc1.42c01e,mp4a.40.2\"\nv2.m3u8\n"@;
    let prefix = "#EXT-X-STREAM-INF:BANDWIDTH="@;
    assert(decimal(1280000) =~= seq!['1', '2', '8', '0', '0', '0', '0']) by {
        reveal_with_fuel(decimal, 8);
    }
    assert(text.subrange(25, 53) =~= prefix);
    assert(text.subrange(53, 60) =~= decimal(1280000));
    assert(text.subrange(60, 110) =~= ",RESOLUTION=854x480,CODECS=\"avc1.42c01e,mp4a.40.2\""@);
    assert(text.subrange(111, 118) =~= "v0.m3u8"@);
    lemma_entry_at(
        text,
        25,
        1280000,
        ",RESOLUTION=854x480,CODECS=\"avc1.42c01e,mp4a.40.2\""@,
        "v0.m3u8"@,
    );
    assert(decimal(2560000) =~= seq!['2', '5', '6', '0', '0', '0', '0']) by {
        reveal_with_fuel(decimal, 8);
    }
    assert(text.subrange(119, 147) =~= prefix);
    assert(text.subrange(147, 154) =~= decimal(2560000));
    assert(text.subrange(154, 205) =~= ",RESOLUTION=1280x720,CODECS=\"avc1.42c01e,mp4a.40.2\""@);
    assert(text.subrange(206, 213) =~= "v1.m3u8"@);
    lemma_entry_at(
        text,
        119,
        2560000,
        ",RESOLUTION=1280x720,CODECS=\"avc1.42c01e,mp4a.40.2\""@,
        "v1.m3u8"@,
    );
    assert(decimal(5120000) =~= seq!['5', '1', '2', '0', '0', '0', '0']) by {
        reveal_with_fuel(decimal, 8);
    }
    assert(text.subrange(214, 242) =~= prefix);
    assert(text.subrange(242, 249) =~= decimal(5120000));
    assert(text.subrange(249, 301) =~= ",RESOLUTION=1920x1080,CODECS=\"avc1.42c01e,mp4a.40.2\""@);
    assert(text.subrange(302, 309) =~= "v2.m3u8"@);
    lemma_entry_at(
        text,
        214,
        5120000,
        ",RESOLUTION=1920x1080,CODECS=\"avc1.42c01e,mp4a.40.2\""@,
        "v2.m3u8"@,
    );
    let head = "#EXTM3U\n#EXT-X-VERSION:6\n"@;
    assert(text.subrange(0, 25) =~= head);
    assert(text =~= text.subrange(0, 25) + text.skip(25));
    lemma_head_names_no_bandwidth(text.skip(25));
    let none = text.skip(310);
    assert(none =~= Seq::<char>::empty());
    assert(lines_of(none) =~= Seq::<Seq<char>>::empty());
    assert(bandwidths_of(none) =~= Seq::<u64>::empty());
}

/// The URI of a segment, as a media playlist names it.
pub open spec fn segment_uri(variant: nat, segment: nat) -> Seq<char> {
    "seg/v"@ + decimal(variant) + "_"@ + decimal(segment) + ".bin"@
}

/// The lines of a playlist that name something to fetch, in order: those that do
/// not begin with a hash sign.
pub open spec fn uris_in(lines: Seq<Seq<char>>) -> Seq<Seq<char>>
    decreases lines.len(),
{
    if lines.len() == 0 {
        Seq::empty()
    } else if lines.last().len() > 0 && lines.last()[0] == '#' {
        uris_in(lines.drop_last())
    } else {
        uris_in(lines.drop_last()).push(lines.last())
    }
}

pub proof fn lemma_uris_join(a: Seq<Seq<char>>, b: Seq<Seq<char>>)
    ensures
        uris_in(a + b) == uris_in(a) + uris_in(b),
    decreases b.len(),
{
    if b.len() == 0 {
        assert(a + b =~= a);
    } else {
        assert((a + b).drop_last() =~= a + b.drop_last());
        lemma_uris_join(a, b.drop_last());
    }
}

/// The lines of one segment's entry.
pub open spec fn entry_lines(variant: nat, segment: nat) -> Seq<Seq<char>> {
    seq!["#EXTINF:4.0,"@, segment_uri(variant, segment)]
}

/// The two lines of a segment's entry, and what follows it.
#[verifier::rlimit(60)]
proof fn lemma_segment_entry(variant: nat, segment: nat, rest: Seq<char>)
    ensures
        lines_of("#EXTINF:4.0,"@ + "\n"@ + segment_uri(variant, segment) + "\n"@ + rest)
            == entry_lines(variant, segment) + lines_of(rest),
        uris_in(entry_lines(variant, segment)) == seq![segment_uri(variant, segment)],
{
    reveal_strlit("#EXTINF:4.0,");
    reveal_strlit("\n");
    reveal_strlit("seg/v");
    reveal_strlit("_");
    reveal_strlit(".bin");
    lemma_no_such_digit(variant, '\n');
    lemma_no_such_digit(segment, '\n');
    let tag = "#EXTINF:4.0,"@;
    let uri = segment_uri(variant, segment);
    let after = uri + "\n"@ + rest;
    assert(tag + "\n"@ + uri + "\n"@ + rest =~= tag + "\n"@ + after);
    assert(uri[0] == 's');
    lemma_line(tag, after);
    lemma_line(uri, rest);
    assert(seq![tag] + (seq![uri] + lines_of(rest)) =~= seq![tag, uri] + lines_of(rest));
    assert(uris_in(seq![tag, uri]) =~= seq![uri]) by {
        reveal_with_fuel(uris_in, 3);
        assert(seq![tag, uri].drop_last() =~= seq![tag]);
        assert(seq![tag].drop_last() =~= Seq::<Seq<char>>::empty());
    }
}

/// Three entries, one behind the other, and the line that ends the list.
#[verifier::rlimit(60)]
proof fn lemma_three_entries(variant: nat)
    ensures
        lines_of(three_entries(variant)) == entry_lines(variant, 0) + entry_lines(variant, 1)
            + entry_lines(variant, 2) + seq!["#EXT-X-ENDLIST"@],
        uris_in(lines_of(three_entries(variant))) == seq![
            segment_uri(variant, 0),
            segment_uri(variant, 1),
            segment_uri(variant, 2),
        ],
        "#EXT-X-ENDLIST\n"@.is_suffix_of(three_entries(variant)),
{
    reveal_strlit("#EXTINF:4.0,\nseg/v");
    reveal_strlit("_0.bin\n#EXTINF:4.0,\nseg/v");
    reveal_strlit("_1.bin\n#EXTINF:4.0,\nseg/v");
    reveal_strlit("_2.bin\n#EXT-X-ENDLIST\n");
    reveal_strlit("#EXT-X-ENDLIST\n");
    reveal_strlit("#EXT-X-ENDLIST");
    reveal_strlit("#EXTINF:4.0,");
    reveal_strlit("\n");
    reveal_strlit("seg/v");
    reveal_strlit("_");
    reveal_strlit(".bin");
    assert(decimal(0) =~= seq!['0']) by {
        reveal_with_fuel(decimal, 2);
    }
    assert(decimal(1) =~= seq!['1']) by {
        reveal_with_fuel(decimal, 2);
    }
    assert(decimal(2) =~= seq!['2']) by {
        reveal_with_fuel(decimal, 2);
    }
    let v = decimal(variant);
    let tag = "#EXTINF:4.0,"@;
    let feed = "\n"@;
    let none = Seq::<char>::empty();
    let last = "#EXT-X-ENDLIST"@;
    let ending = last + feed + none;
    let third = tag + feed + segment_uri(variant, 2) + feed + ending;
    let second = tag + feed + segment_uri(variant, 1) + feed + third;
    let first = tag + feed + segment_uri(variant, 0) + feed + second;
    assert("#EXTINF:4.0,\nseg/v"@ =~= tag + feed + "seg/v"@);
    assert("_0.bin\n#EXTINF:4.0,\nseg/v"@ =~= "_"@ + decimal(0) + ".bin"@ + feed + (tag + feed
        + "seg/v"@));
    assert("_1.bin\n#EXTINF:4.0,\nseg/v"@ =~= "_"@ + decimal(1) + ".bin"@ + feed + (tag + feed
        + "seg/v"@));
    assert("_2.bin\n#EXT-X-ENDLIST\n"@ =~= "_"@ + decimal(2) + ".bin"@ + feed + last + feed);
    assert(three_entries(variant) =~= first);
    lemma_segment_entry(variant, 0, second);
    lemma_segment_entry(variant, 1, third);
    lemma_segment_entry(variant, 2, ending);
    lemma_line(last, none);
    assert(lines_of(none) =~= Seq::<Seq<char>>::empty());
    assert(lines_of(ending) =~= seq![last]);
    let e0 = entry_lines(variant, 0);
    let e1 = entry_lines(variant, 1);
    let e2 = entry_lines(variant, 2);
    assert(lines_of(first) =~= e0 + e1 + e2 + seq![last]);
    lemma_uris_join(e0 + e1 + e2, seq![last]);
    lemma_uris_join(e0 + e1, e2);
    lemma_uris_join(e0, e1);
    assert(uris_in(seq![last]) =~= Seq::<Seq<char>>::empty()) by {
        reveal_with_fuel(uris_in, 2);
        assert(seq![last].drop_last() =~= Seq::<Seq<char>>::empty());
        assert(last[0] == '#');
    }
    assert(uris_in(lines_of(first)) =~= seq![
        segment_uri(variant, 0),
        segment_uri(variant, 1),
        segment_uri(variant, 2),
    ]);
    assert(first.subrange(first.len() - 15, first.len() as int) =~= "#EXT-X-ENDLIST\n"@);
}

/// The lines that a media playlist of the fixture begins with.
pub open spec fn media_head_lines() -> Seq<Seq<char>> {
    seq![
        "#EXTM3U"@,
        "#EXT-X-VERSION:6"@,
        "#EXT-X-TARGETDURATION:4"@,
        "#EXT-X-MEDIA-SEQUENCE:0"@,
        "#EXT-X-PLAYLIST-TYPE:VOD"@,
    ]
}

#[verifier::rlimit(60)]
proof fn lemma_media_head(rest: Seq<char>)
    ensures
        lines_of(
            "#EXTM3U\n#EXT-X-VERSION:6\n#EXT-X-TARGETDURATION:4\n#EXT-X-MEDIA-SEQUENCE:0\n#EXT-X-PLAYLIST-TYPE:VOD\n"@
                + rest,
        ) == media_head_lines() + lines_of(rest),
        uris_in(media_head_lines()) == Seq::<Seq<char>>::empty(),
        "#EXTM3U\n"@.is_prefix_of(
            "#EXTM3U\n#EXT-X-VERSION:6\n#EXT-X-TARGETDURATION:4\n#EXT-X-MEDIA-SEQUENCE:0\n#EXT-X-PLAYLIST-TYPE:VOD\n"@,
        ),
{
    reveal_strlit(
        "#EXTM3U\n#EXT-X-VERSION:6\n#EXT-X-TARGETDURATION:4\n#EXT-X-MEDIA-SEQUENCE:0\n#EXT-X-PLAYLIST-TYPE:VOD\n",
    );
    reveal_strlit("#EXTM3U");
    reveal_strlit("#EXT-X-VERSION:6");
    reveal_strlit("#EXT-X-TARGETDURATION:4");
    reveal_strlit("#EXT-X-MEDIA-SEQUENCE:0");
    reveal_strlit("#EXT-X-PLAYLIST-TYPE:VOD");
    reveal_strlit("#EXTM3U\n");
    reveal_strlit("\n");
    let head =
        "#EXTM3U\n#EXT-X-VERSION:6\n#EXT-X-TARGETDURATION:4\n#EXT-X-MEDIA-SEQUENCE:0\n#EXT-X-PLAYLIST-TYPE:VOD\n"@;
    let feed = "\n"@;
    let l0 = "#EXTM3U"@;
    let l1 = "#EXT-X-VERSION:6"@;
    let l2 = "#EXT-X-TARGETDURATION:4"@;
    let l3 = "#EXT-X-MEDIA-SEQUENCE:0"@;
    let l4 = "#EXT-X-PLAYLIST-TYPE:VOD"@;
    assert(head.subrange(0, 8) =~= l0 + feed);
    assert(head.subrange(8, 25) =~= l1 + feed);
    assert(head.subrange(25, 49) =~= l2 + feed);
    assert(head.subrange(49, 73) =~= l3 + feed);
    assert(head.subrange(73, 98) =~= l4 + feed);
    let r5 = rest;
    let r4 = l4 + feed + r5;
    let r3 = l3 + feed + r4;
    let r2 = l2 + feed + r3;
    let r1 = l1 + feed + r2;
    assert(head =~= head.subrange(0, 8) + head.subrange(8, 25) + head.subrange(25, 49) + head.subrange(49, 73) + head.subrange(73, 98));
    assert(head + rest =~= l0 + feed + r1);
    lemma_line(l4, r5);
    lemma_line(l3, r4);
    lemma_line(l2, r3);
    lemma_line(l1, r2);
    lemma_line(l0, r1);
    assert(lines_of(head + rest) =~= media_head_lines() + lines_of(rest));
    assert(uris_in(media_head_lines()) =~= Seq::<Seq<char>>::empty()) by {
        let all = media_head_lines();
        assert(l0[0] == '#' && l1[0] == '#' && l2[0] == '#' && l3[0] == '#' && l4[0] == '#');
        reveal_with_fuel(uris_in, 6);
        assert(all.drop_last() =~= seq![l0, l1, l2, l3]);
        assert(seq![l0, l1, l2, l3].drop_last() =~= seq![l0, l1, l2]);
        assert(seq![l0, l1, l2].drop_last() =~= seq![l0, l1]);
        assert(seq![l0, l1].drop_last() =~= seq![l0]);
        assert(seq![l0].drop_last() =~= Seq::<Seq<char>>::empty());
    }
    assert(head.subrange(0, 8) =~= "#EXTM3U\n"@);
}

/// A media playlist of the fixture begins and ends as a playlist does, and what
/// it names to fetch are the three segments of its variant, in order, each right
/// behind the tag with its length; each is read back as that segment's path.
#[verifier::rlimit(60)]
pub proof fn law_a_media_playlist_lists_its_segments(variant: usize)
    ensures
        "#EXTM3U\n"@.is_prefix_of(plain_media(variant as nat)),
        "#EXT-X-ENDLIST\n"@.is_suffix_of(plain_media(variant as nat)),
        lines_of(plain_media(variant as nat)) == media_head_lines() + entry_lines(
            variant as nat,
            0,
        ) + entry_lines(variant as nat, 1) + entry_lines(variant as nat, 2) + seq![
            "#EXT-X-ENDLIST"@,
        ],
        uris_in(lines_of(plain_media(variant as nat))) == seq![
            segment_uri(variant as nat, 0),
            segment_uri(variant as nat, 1),
            segment_uri(variant as nat, 2),
        ],
        forall|segment: usize| #[trigger]
            segment_in("/"@ + segment_uri(variant as nat, segment as nat)) == Some(
                (variant as int, segment as int),
            ),
{
    let v = variant as nat;
    let head =
        "#EXTM3U\n#EXT-X-VERSION:6\n#EXT-X-TARGETDURATION:4\n#EXT-X-MEDIA-SEQUENCE:0\n#EXT-X-PLAYLIST-TYPE:VOD\n"@;
    let entries = three_entries(v);
    lemma_media_head(entries);
    lemma_three_entries(v);
    reveal_strlit("#EXTM3U\n");
    reveal_strlit("#EXT-X-ENDLIST\n");
    let text = plain_media(v);
    assert(text.subrange(0, 8) =~= head.subrange(0, 8));
    assert(text.subrange(text.len() - 15, text.len() as int) =~= entries.subrange(
        entries.len() - 15,
        entries.len() as int,
    ));
    assert(lines_of(text) =~= media_head_lines() + entry_lines(v, 0) + entry_lines(v, 1)
        + entry_lines(v, 2) + seq!["#EXT-X-ENDLIST"@]);
    lemma_uris_join(media_head_lines(), lines_of(entries));
    assert(Seq::<Seq<char>>::empty() + uris_in(lines_of(entries)) =~= uris_in(lines_of(entries)));
    assert forall|segment: usize| #[trigger]
        segment_in("/"@ + segment_uri(variant as nat, segment as nat)) == Some(
            (variant as int, segment as int),
        ) by {
        lemma_segment_path(variant, segment);
        reveal_strlit("/");
        reveal_strlit("seg/v");
        reveal_strlit("/seg/v");
        assert("/"@ + "seg/v"@ =~= "/seg/v"@);
        assert("/"@ + segment_uri(v, segment as nat) =~= "/seg/v"@ + decimal(v) + "_"@ + decimal(
            segment as nat,
        ) + ".bin"@);
    }
}

/// Whether `part` stands in `text` from `at` on.
pub open spec fn stands_at(text: Seq<char>, part: Seq<char>, at: int) -> bool {
    0 <= at && at + part.len() <= text.len() && text.subrange(at, at + part.len()) == part
}

/// Whether `at` is the first place where `part` stands in `text`.
pub open spec fn stands_first_at(text: Seq<char>, part: Seq<char>, at: int) -> bool {
    &&& stands_at(text, part, at)
    &&& forall|other: int| 0 <= other < at ==> !#[trigger] stands_at(text, part, other)
}

/// `text` with `new` in place of the first `part`, as `str::replacen` has it for
/// one replacement.
pub open spec fn with_first_replaced(text: Seq<char>, part: Seq<char>, new: Seq<char>) -> Seq<
    char,
> {
    if exists|at: int| stands_first_at(text, part, at) {
        let at = choose|at: int| stands_first_at(text, part, at);
        text.take(at) + new + text.skip(at + part.len())
    } else {
        text
    }
}

/// The playlist with an init segment is the plain one with one line more: the
/// map, right before the first segment's tag.
#[verifier::rlimit(60)]
pub proof fn law_an_init_segment_adds_one_line(variant: nat)
    ensures
        media_with_init(variant) == with_first_replaced(
            plain_media(variant),
            "#EXTINF"@,
            "#EXT-X-MAP:URI=\"init/v"@ + decimal(variant) + ".bin\"\n#EXTINF"@,
        ),
{
    reveal_strlit(
        "#EXTM3U\n#EXT-X-VERSION:6\n#EXT-X-TARGETDURATION:4\n#EXT-X-MEDIA-SEQUENCE:0\n#EXT-X-PLAYLIST-TYPE:VOD\n",
    );
    reveal_strlit(
        "#EXTM3U\n#EXT-X-VERSION:6\n#EXT-X-TARGETDURATION:4\n#EXT-X-MEDIA-SEQUENCE:0\n#EXT-X-PLAYLIST-TYPE:VOD\n#EXT-X-MAP:URI=\"init/v",
    );
    reveal_strlit("#EXTINF:4.0,\nseg/v");
    reveal_strlit("#EXTINF");
    reveal_strlit("#EXT-X-MAP:URI=\"init/v");
    reveal_strlit(".bin\"\n");
    reveal_strlit(".bin\"\n#EXTINF");
    let head =
        "#EXTM3U\n#EXT-X-VERSION:6\n#EXT-X-TARGETDURATION:4\n#EXT-X-MEDIA-SEQUENCE:0\n#EXT-X-PLAYLIST-TYPE:VOD\n"@;
    let longer =
        "#EXTM3U\n#EXT-X-VERSION:6\n#EXT-X-TARGETDURATION:4\n#EXT-X-MEDIA-SEQUENCE:0\n#EXT-X-PLAYLIST-TYPE:VOD\n#EXT-X-MAP:URI=\"init/v"@;
    let map = "#EXT-X-MAP:URI=\"init/v"@;
    let tag = "#EXTINF"@;
    let text = plain_media(variant);
    let new = map + decimal(variant) + ".bin\"\n#EXTINF"@;
    assert(longer.subrange(0, 98) =~= head);
    assert(longer.subrange(98, longer.len() as int) =~= map);
    assert(longer =~= longer.subrange(0, 98) + longer.subrange(98, longer.len() as int));
    assert(".bin\"\n#EXTINF"@ =~= ".bin\"\n"@ + tag);
    assert(text.subrange(98, 105) =~= tag);
    assert forall|i: int| 0 <= i < 98 implies !(#[trigger] text[i] == '#' && text[i + 4] == 'I') by {
        assert(text[i] == head[i]);
        if i + 4 < 98 {
            assert(text[i + 4] == head[i + 4]);
        }
    }
    assert forall|other: int| 0 <= other < 98 implies !#[trigger] stands_at(text, tag, other) by {
        if stands_at(text, tag, other) {
            assert(text.subrange(other, other + 7)[0] == tag[0]);
            assert(text.subrange(other, other + 7)[4] == tag[4]);
            assert(text[other] == '#' && text[other + 4] == 'I');
        }
    }
    assert(stands_first_at(text, tag, 98));
    let at = choose|at: int| stands_first_at(text, tag, at);
    assert(at == 98) by {
        if at < 98 {
            assert(stands_at(text, tag, at));
        } else if at > 98 {
            assert(stands_at(text, tag, 98));
        }
    }
    assert(text.take(98) =~= head);
    assert(three_entries(variant).subrange(0, 7) =~= tag);
    assert(text.skip(105) =~= three_entries(variant).skip(7));
    assert(three_entries(variant) =~= tag + three_entries(variant).skip(7));
    assert(media_with_init(variant) =~= head + new + text.skip(105));
}

/// The short paths of a configured fixture that name a number lead to the part
/// with that number, and the ones for the master playlist and the key to those.
#[verifier::rlimit(60)]
pub proof fn law_a_configured_path_leads_to_its_part(variant: usize)
    ensures
        config_route("/playlist/v"@ + decimal(variant as nat) + ".m3u8"@) == Route::Media(
            Stream::Plain,
            variant,
        ),
        config_route("/init/v"@ + decimal(variant as nat) + "_init.bin"@) == Route::InitSegment(
            Stream::Plain,
            variant,
        ),
        config_route("/master.m3u8"@) == Route::Master(Stream::Plain),
        config_route("/key.bin"@) == Route::Key(Stream::Plain),
{
    reveal_strlit("/master.m3u8");
    reveal_strlit("/key.bin");
    reveal_strlit("/playlist/v");
    reveal_strlit("/seg/v");
    reveal_strlit("/init/v");
    assert("/master.m3u8"@[1] == 'm');
    assert("/key.bin"@[1] == 'k');
    assert("/playlist/v"@[1] == 'p');
    assert("/seg/v"@[1] == 's');
    assert("/init/v"@[1] == 'i');
    lemma_numbered_path("/playlist/v"@, variant, ".m3u8"@);
    lemma_numbered_path("/init/v"@, variant, "_init.bin"@);
    let media = "/playlist/v"@ + decimal(variant as nat) + ".m3u8"@;
    let init = "/init/v"@ + decimal(variant as nat) + "_init.bin"@;
    assert(media[1] == 'p');
    assert(init[1] == 'i');
    assert(!"/playlist/v"@.is_prefix_of(init)) by {
        if "/playlist/v"@.is_prefix_of(init) {
            assert(init.subrange(0, 11)[1] == 'p');
        }
    }
    assert(!"/seg/v"@.is_prefix_of(init)) by {
        if "/seg/v"@.is_prefix_of(init) {
            assert(init.subrange(0, 6)[1] == 's');
        }
    }
}

/// A path of a prefix, a number and a suffix names that number.
proof fn lemma_numbered_path(prefix: Seq<char>, n: usize, suffix: Seq<char>)
    ensures
        framed(prefix + decimal(n as nat) + suffix, prefix, suffix),
        variant_in(prefix + decimal(n as nat) + suffix, prefix, suffix) == Some(n as int),
{
    let number = decimal(n as nat);
    let path = prefix + number + suffix;
    let rest = number + suffix;
    assert(path =~= prefix + rest);
    law_a_prefix_and_the_rest_make_the_text(prefix, rest, path);
    law_a_prefix_and_the_rest_make_the_text(suffix, number, rest);
    law_a_prefix_and_the_rest_make_the_text(suffix, prefix + number, path);
    law_decimal_is_parsed_back(n as nat, usize::MAX as int);
}

/// What a configured stream is encrypted with is what its configuration holds:
/// the key and the vector that its description writes out resolve to them. Its
/// segments' length is reported in the clear, unless the configuration says
/// otherwise.
pub proof fn law_a_configured_key_comes_back(
    config: HlsTestServerConfig,
    spec: HlsSpec,
    blobs: Map<Seq<char>, Seq<u8>>,
    cache_key: Seq<char>,
    resolved: ResolvedHlsSpec,
)
    requires
        spec_is_for(config, spec),
        spec_resolves(spec, blobs, cache_key, resolved),
    ensures
        config.encryption is None <==> resolved.encryption is None,
        config.encryption matches Some(encryption) ==> {
            &&& resolved.encryption->0.key@ == encryption.key@
            &&& encryption.iv is None <==> resolved.encryption->0.iv is None
            &&& encryption.iv matches Some(iv) ==> resolved.encryption->0.iv->0@ == iv@
            &&& config.head_reported_segment_size is None ==> resolved.head_reported_segment_size
                == Some(config.segment_size)
        },
        config.head_reported_segment_size matches Some(size) ==> resolved.head_reported_segment_size
            == Some(size),
        config.encryption is None && config.head_reported_segment_size is None
            ==> resolved.head_reported_segment_size is None,
        resolved.variant_count == config.variant_count,
        resolved.segments_per_variant == config.segments_per_variant,
        resolved.segment_size == config.segment_size,
        resolved.delay_rules@ == config.delay_rules@,
        config.variant_bandwidths matches Some(wanted) ==> resolved.variant_bandwidths@ == wanted@,
        resolved.key_data is None,
{
    if let Some(encryption) = config.encryption {
        law_hex_reads_back(encryption.key@);
        if let Some(iv) = encryption.iv {
            law_hex_reads_back(iv@);
        }
    }
}

/// A path that ends neither as a playlist nor as a binary part does is none of
/// the fixtures' own: it is left as it is.
#[verifier::rlimit(100)]
pub proof fn law_other_paths_lead_elsewhere(path: Seq<char>, token: Seq<char>)
    requires
        !".bin"@.is_suffix_of(path),
        !".m3u8"@.is_suffix_of(path),
    ensures
        test_route(path) == Route::Elsewhere,
        abr_route(path) == Route::Elsewhere,
        config_route(path) == Route::Elsewhere,
        full_path(Route::Elsewhere, token, path) == path,
        stream_of(Route::Elsewhere) is None,
{
    reveal_strlit(".bin");
    reveal_strlit(".m3u8");
    reveal_strlit("_init.bin");
    reveal_strlit("/aes/key.bin");
    reveal_strlit("/aes/seg0.bin");
    reveal_strlit("/init/v0.bin");
    reveal_strlit("/init/v1.bin");
    reveal_strlit("/init/v2.bin");
    reveal_strlit("/key.bin");
    reveal_strlit("/master-encrypted.m3u8");
    reveal_strlit("/master-init.m3u8");
    reveal_strlit("/master.m3u8");
    reveal_strlit("/seg/v0_0.bin");
    reveal_strlit("/seg/v0_1.bin");
    reveal_strlit("/seg/v0_2.bin");
    reveal_strlit("/seg/v1_0.bin");
    reveal_strlit("/seg/v1_1.bin");
    reveal_strlit("/seg/v1_2.bin");
    reveal_strlit("/seg/v2_0.bin");
    reveal_strlit("/seg/v2_1.bin");
    reveal_strlit("/seg/v2_2.bin");
    reveal_strlit("/v0-encrypted.m3u8");
    reveal_strlit("/v0-init.m3u8");
    reveal_strlit("/v0.m3u8");
    reveal_strlit("/v1-init.m3u8");
    reveal_strlit("/v1.m3u8");
    reveal_strlit("/v2-init.m3u8");
    reveal_strlit("/v2.m3u8");
    reveal_strlit("/video/480p/playlist.m3u8");
    assert("/aes/key.bin"@.subrange(8, 12) =~= ".bin"@);
    assert("/aes/seg0.bin"@.subrange(9, 13) =~= ".bin"@);
    assert("/init/v0.bin"@.subrange(8, 12) =~= ".bin"@);
    assert("/init/v1.bin"@.subrange(8, 12) =~= ".bin"@);
    assert("/init/v2.bin"@.subrange(8, 12) =~= ".bin"@);
    assert("/key.bin"@.subrange(4, 8) =~= ".bin"@);
    assert("/master-encrypted.m3u8"@.subrange(17, 22) =~= ".m3u8"@);
    assert("/master-init.m3u8"@.subrange(12, 17) =~= ".m3u8"@);
    assert("/master.m3u8"@.subrange(7, 12) =~= ".m3u8"@);
    assert("/seg/v0_0.bin"@.subrange(9, 13) =~= ".bin"@);
    assert("/seg/v0_1.bin"@.subrange(9, 13) =~= ".bin"@);
    assert("/seg/v0_2.bin"@.subrange(9, 13) =~= ".bin"@);
    assert("/seg/v1_0.bin"@.subrange(9, 13) =~= ".bin"@);
    assert("/seg/v1_1.bin"@.subrange(9, 13) =~= ".bin"@);
    assert("/seg/v1_2.bin"@.subrange(9, 13) =~= ".bin"@);
    assert("/seg/v2_0.bin"@.subrange(9, 13) =~= ".bin"@);
    assert("/seg/v2_1.bin"@.subrange(9, 13) =~= ".bin"@);
    assert("/seg/v2_2.bin"@.subrange(9, 13) =~= ".bin"@);
    assert("/v0-encrypted.m3u8"@.subrange(13, 18) =~= ".m3u8"@);
    assert("/v0-init.m3u8"@.subrange(8, 13) =~= ".m3u8"@);
    assert("/v0.m3u8"@.subrange(3, 8) =~= ".m3u8"@);
    assert("/v1-init.m3u8"@.subrange(8, 13) =~= ".m3u8"@);
    assert("/v1.m3u8"@.subrange(3, 8) =~= ".m3u8"@);
    assert("/v2-init.m3u8"@.subrange(8, 13) =~= ".m3u8"@);
    assert("/v2.m3u8"@.subrange(3, 8) =~= ".m3u8"@);
    assert("/video/480p/playlist.m3u8"@.subrange(20, 25) =~= ".m3u8"@);
    if "_init.bin"@.is_suffix_of(path) {
        assert(path.subrange(path.len() - 4, path.len() as int) =~= path.subrange(
            path.len() - 9,
            path.len() as int,
        ).subrange(5, 9));
        assert("_init.bin"@.subrange(5, 9) =~= ".bin"@);
    }
}

/// The fixture's own segments are test segments of 200 000 bytes, as long as
/// their prefix fits.
pub proof fn law_the_fixture_serves_test_segments(variant: nat, segment: nat)
    requires
        encode_utf8(segment_prefix(variant, segment)).len() <= 200_000,
    ensures
        segment_data(variant, segment) == test_segment(variant, segment, 200_000),
{
    assert(segment_data(variant, segment) =~= test_segment(variant, segment, 200_000));
}

/// The short path of a segment of the fixed fixtures leads to that segment.
#[verifier::rlimit(100)]
#[verifier::spinoff_prover]
pub proof fn law_a_short_segment_path_leads_to_its_segment(variant: usize, segment: usize)
    requires
        variant < 3,
        segment < 3,
    ensures
        ({
            let path = "/seg/v"@ + decimal(variant as nat) + "_"@ + decimal(segment as nat)
                + ".bin"@;
            &&& test_route(path) == Route::Segment(Stream::Plain, variant, segment)
            &&& abr_route(path) == Route::Segment(Stream::Plain, variant, segment)
        }),
{
    reveal_strlit("/seg/v");
    reveal_strlit("_");
    reveal_strlit(".bin");
    reveal_strlit("/aes/key.bin");
    reveal_strlit("/aes/seg0.bin");
    reveal_strlit("/init/v0.bin");
    reveal_strlit("/init/v1.bin");
    reveal_strlit("/init/v2.bin");
    reveal_strlit("/key.bin");
    reveal_strlit("/master-encrypted.m3u8");
    reveal_strlit("/master-init.m3u8");
    reveal_strlit("/master.m3u8");
    reveal_strlit("/seg/v0_0.bin");
    reveal_strlit("/seg/v0_1.bin");
    reveal_strlit("/seg/v0_2.bin");
    reveal_strlit("/seg/v1_0.bin");
    reveal_strlit("/seg/v1_1.bin");
    reveal_strlit("/seg/v1_2.bin");
    reveal_strlit("/seg/v2_0.bin");
    reveal_strlit("/seg/v2_1.bin");
    reveal_strlit("/seg/v2_2.bin");
    reveal_strlit("/v0-encrypted.m3u8");
    reveal_strlit("/v0-init.m3u8");
    reveal_strlit("/v0.m3u8");
    reveal_strlit("/v1-init.m3u8");
    reveal_strlit("/v1.m3u8");
    reveal_strlit("/v2-init.m3u8");
    reveal_strlit("/v2.m3u8");
    reveal_strlit("/video/480p/playlist.m3u8");
    let path = "/seg/v"@ + decimal(variant as nat) + "_"@ + decimal(segment as nat) + ".bin"@;
    assert(decimal(variant as nat) =~= seq![digit_char(variant as int)]);
    assert(decimal(segment as nat) =~= seq![digit_char(segment as int)]);
    assert(path.len() == 13 && path[1] == 's' && path[6] == digit_char(variant as int) && path[8]
        == digit_char(segment as int));
    assert("/aes/key.bin"@[1] == 'a' && "/aes/key.bin"@[6] == 'e' && "/aes/key.bin"@[8] == '.');
    assert("/aes/seg0.bin"@[1] == 'a' && "/aes/seg0.bin"@[6] == 'e' && "/aes/seg0.bin"@[8] == '0');
    assert("/init/v0.bin"@[1] == 'i' && "/init/v0.bin"@[6] == 'v' && "/init/v0.bin"@[8] == '.');
    assert("/init/v1.bin"@[1] == 'i' && "/init/v1.bin"@[6] == 'v' && "/init/v1.bin"@[8] == '.');
    assert("/init/v2.bin"@[1] == 'i' && "/init/v2.bin"@[6] == 'v' && "/init/v2.bin"@[8] == '.');
    assert("/key.bin"@[1] == 'k' && "/key.bin"@[6] == 'i');
    assert("/master-encrypted.m3u8"@[1] == 'm' && "/master-encrypted.m3u8"@[6] == 'r' && "/master-encrypted.m3u8"@[8] == 'e');
    assert("/master-init.m3u8"@[1] == 'm' && "/master-init.m3u8"@[6] == 'r' && "/master-init.m3u8"@[8] == 'i');
    assert("/master.m3u8"@[1] == 'm' && "/master.m3u8"@[6] == 'r' && "/master.m3u8"@[8] == 'm');
    assert("/seg/v0_0.bin"@[1] == 's' && "/seg/v0_0.bin"@[6] == '0' && "/seg/v0_0.bin"@[8] == '0');
    assert("/seg/v0_1.bin"@[1] == 's' && "/seg/v0_1.bin"@[6] == '0' && "/seg/v0_1.bin"@[8] == '1');
    assert("/seg/v0_2.bin"@[1] == 's' && "/seg/v0_2.bin"@[6] == '0' && "/seg/v0_2.bin"@[8] == '2');
    assert("/seg/v1_0.bin"@[1] == 's' && "/seg/v1_0.bin"@[6] == '1' && "/seg/v1_0.bin"@[8] == '0');
    assert("/seg/v1_1.bin"@[1] == 's' && "/seg/v1_1.bin"@[6] == '1' && "/seg/v1_1.bin"@[8] == '1');
    assert("/seg/v1_2.bin"@[1] == 's' && "/seg/v1_2.bin"@[6] == '1' && "/seg/v1_2.bin"@[8] == '2');
    assert("/seg/v2_0.bin"@[1] == 's' && "/seg/v2_0.bin"@[6] == '2' && "/seg/v2_0.bin"@[8] == '0');
    assert("/seg/v2_1.bin"@[1] == 's' && "/seg/v2_1.bin"@[6] == '2' && "/seg/v2_1.bin"@[8] == '1');
    assert("/seg/v2_2.bin"@[1] == 's' && "/seg/v2_2.bin"@[6] == '2' && "/seg/v2_2.bin"@[8] == '2');
    assert("/v0-encrypted.m3u8"@[1] == 'v' && "/v0-encrypted.m3u8"@[6] == 'c' && "/v0-encrypted.m3u8"@[8] == 'y');
    assert("/v0-init.m3u8"@[1] == 'v' && "/v0-init.m3u8"@[6] == 'i' && "/v0-init.m3u8"@[8] == '.');
    assert("/v0.m3u8"@[1] == 'v' && "/v0.m3u8"@[6] == 'u');
    assert("/v1-init.m3u8"@[1] == 'v' && "/v1-init.m3u8"@[6] == 'i' && "/v1-init.m3u8"@[8] == '.');
    assert("/v1.m3u8"@[1] == 'v' && "/v1.m3u8"@[6] == 'u');
    assert("/v2-init.m3u8"@[1] == 'v' && "/v2-init.m3u8"@[6] == 'i' && "/v2-init.m3u8"@[8] == '.');
    assert("/v2.m3u8"@[1] == 'v' && "/v2.m3u8"@[6] == 'u');
    assert("/video/480p/playlist.m3u8"@[1] == 'v' && "/video/480p/playlist.m3u8"@[6] == '/' && "/video/480p/playlist.m3u8"@[8] == '8');
    if variant == 0 && segment == 0 {
        assert(path =~= "/seg/v0_0.bin"@);
    }
    if variant == 0 && segment == 1 {
        assert(path =~= "/seg/v0_1.bin"@);
    }
    if variant == 0 && segment == 2 {
        assert(path =~= "/seg/v0_2.bin"@);
    }
    if variant == 1 && segment == 0 {
        assert(path =~= "/seg/v1_0.bin"@);
    }
    if variant == 1 && segment == 1 {
        assert(path =~= "/seg/v1_1.bin"@);
    }
    if variant == 1 && segment == 2 {
        assert(path =~= "/seg/v1_2.bin"@);
    }
    if variant == 2 && segment == 0 {
        assert(path =~= "/seg/v2_0.bin"@);
    }
    if variant == 2 && segment == 1 {
        assert(path =~= "/seg/v2_1.bin"@);
    }
    if variant == 2 && segment == 2 {
        assert(path =~= "/seg/v2_2.bin"@);
    }
}

/// The short paths of a playlist and of an init segment of the fixed fixtures
/// lead to that variant's, in the stream that has them.
#[verifier::rlimit(100)]
#[verifier::spinoff_prover]
pub proof fn law_a_short_variant_path_leads_to_its_variant(variant: usize)
    requires
        variant < 3,
    ensures
        ({
            let media = "/v"@ + decimal(variant as nat) + ".m3u8"@;
            let with_init = "/v"@ + decimal(variant as nat) + "-init.m3u8"@;
            let init = "/init/v"@ + decimal(variant as nat) + ".bin"@;
            &&& test_route(media) == Route::Media(Stream::Plain, variant)
            &&& abr_route(media) == Route::Media(Stream::Plain, variant)
            &&& test_route(with_init) == Route::Media(Stream::Init, variant)
            &&& test_route(init) == Route::InitSegment(Stream::Init, variant)
            &&& abr_route(init) == Route::InitSegment(Stream::Plain, variant)
        }),
{
    reveal_strlit("/v");
    reveal_strlit("/init/v");
    reveal_strlit(".m3u8");
    reveal_strlit("-init.m3u8");
    reveal_strlit(".bin");
    reveal_strlit("/aes/key.bin");
    reveal_strlit("/aes/seg0.bin");
    reveal_strlit("/init/v0.bin");
    reveal_strlit("/init/v1.bin");
    reveal_strlit("/init/v2.bin");
    reveal_strlit("/key.bin");
    reveal_strlit("/master-encrypted.m3u8");
    reveal_strlit("/master-init.m3u8");
    reveal_strlit("/master.m3u8");
    reveal_strlit("/seg/v0_0.bin");
    reveal_strlit("/seg/v0_1.bin");
    reveal_strlit("/seg/v0_2.bin");
    reveal_strlit("/seg/v1_0.bin");
    reveal_strlit("/seg/v1_1.bin");
    reveal_strlit("/seg/v1_2.bin");
    reveal_strlit("/seg/v2_0.bin");
    reveal_strlit("/seg/v2_1.bin");
    reveal_strlit("/seg/v2_2.bin");
    reveal_strlit("/v0-encrypted.m3u8");
    reveal_strlit("/v0-init.m3u8");
    reveal_strlit("/v0.m3u8");
    reveal_strlit("/v1-init.m3u8");
    reveal_strlit("/v1.m3u8");
    reveal_strlit("/v2-init.m3u8");
    reveal_strlit("/v2.m3u8");
    reveal_strlit("/video/480p/playlist.m3u8");
    let media = "/v"@ + decimal(variant as nat) + ".m3u8"@;
    let with_init = "/v"@ + decimal(variant as nat) + "-init.m3u8"@;
    let init = "/init/v"@ + decimal(variant as nat) + ".bin"@;
    assert(decimal(variant as nat) =~= seq![digit_char(variant as int)]);
    assert(media.len() == 8 && media[1] == 'v' && media[2] == digit_char(variant as int));
    assert(with_init.len() == 13 && with_init[1] == 'v' && with_init[2] == digit_char(
        variant as int,
    ));
    assert(init.len() == 12 && init[1] == 'i' && init[7] == digit_char(variant as int));
    assert("/aes/key.bin"@[1] == 'a' && "/aes/key.bin"@[2] == 'e' && "/aes/key.bin"@[7] == 'y');
    assert("/aes/seg0.bin"@[1] == 'a' && "/aes/seg0.bin"@[2] == 'e' && "/aes/seg0.bin"@[7] == 'g');
    assert("/init/v0.bin"@[1] == 'i' && "/init/v0.bin"@[2] == 'n' && "/init/v0.bin"@[7] == '0');
    assert("/init/v1.bin"@[1] == 'i' && "/init/v1.bin"@[2] == 'n' && "/init/v1.bin"@[7] == '1');
    assert("/init/v2.bin"@[1] == 'i' && "/init/v2.bin"@[2] == 'n' && "/init/v2.bin"@[7] == '2');
    assert("/key.bin"@[1] == 'k' && "/key.bin"@[2] == 'e' && "/key.bin"@[7] == 'n');
    assert("/master-encrypted.m3u8"@[1] == 'm' && "/master-encrypted.m3u8"@[2] == 'a' && "/master-encrypted.m3u8"@[7] == '-');
    assert("/master-init.m3u8"@[1] == 'm' && "/master-init.m3u8"@[2] == 'a' && "/master-init.m3u8"@[7] == '-');
    assert("/master.m3u8"@[1] == 'm' && "/master.m3u8"@[2] == 'a' && "/master.m3u8"@[7] == '.');
    assert("/seg/v0_0.bin"@[1] == 's' && "/seg/v0_0.bin"@[2] == 'e' && "/seg/v0_0.bin"@[7] == '_');
    assert("/seg/v0_1.bin"@[1] == 's' && "/seg/v0_1.bin"@[2] == 'e' && "/seg/v0_1.bin"@[7] == '_');
    assert("/seg/v0_2.bin"@[1] == 's' && "/seg/v0_2.bin"@[2] == 'e' && "/seg/v0_2.bin"@[7] == '_');
    assert("/seg/v1_0.bin"@[1] == 's' && "/seg/v1_0.bin"@[2] == 'e' && "/seg/v1_0.bin"@[7] == '_');
    assert("/seg/v1_1.bin"@[1] == 's' && "/seg/v1_1.bin"@[2] == 'e' && "/seg/v1_1.bin"@[7] == '_');
    assert("/seg/v1_2.bin"@[1] == 's' && "/seg/v1_2.bin"@[2] == 'e' && "/seg/v1_2.bin"@[7] == '_');
    assert("/seg/v2_0.bin"@[1] == 's' && "/seg/v2_0.bin"@[2] == 'e' && "/seg/v2_0.bin"@[7] == '_');
    assert("/seg/v2_1.bin"@[1] == 's' && "/seg/v2_1.bin"@[2] == 'e' && "/seg/v2_1.bin"@[7] == '_');
    assert("/seg/v2_2.bin"@[1] == 's' && "/seg/v2_2.bin"@[2] == 'e' && "/seg/v2_2.bin"@[7] == '_');
    assert("/v0-encrypted.m3u8"@[1] == 'v' && "/v0-encrypted.m3u8"@[2] == '0' && "/v0-encrypted.m3u8"@[7] == 'r');
    assert("/v0-init.m3u8"@[1] == 'v' && "/v0-init.m3u8"@[2] == '0' && "/v0-init.m3u8"@[7] == 't');
    assert("/v0.m3u8"@[1] == 'v' && "/v0.m3u8"@[2] == '0' && "/v0.m3u8"@[7] == '8');
    assert("/v1-init.m3u8"@[1] == 'v' && "/v1-init.m3u8"@[2] == '1' && "/v1-init.m3u8"@[7] == 't');
    assert("/v1.m3u8"@[1] == 'v' && "/v1.m3u8"@[2] == '1' && "/v1.m3u8"@[7] == '8');
    assert("/v2-init.m3u8"@[1] == 'v' && "/v2-init.m3u8"@[2] == '2' && "/v2-init.m3u8"@[7] == 't');
    assert("/v2.m3u8"@[1] == 'v' && "/v2.m3u8"@[2] == '2' && "/v2.m3u8"@[7] == '8');
    assert("/video/480p/playlist.m3u8"@[1] == 'v' && "/video/480p/playlist.m3u8"@[2] == 'i' && "/video/480p/playlist.m3u8"@[7] == '4');
    if variant == 0 {
        assert(media =~= "/v0.m3u8"@);
        assert(with_init =~= "/v0-init.m3u8"@);
        assert(init =~= "/init/v0.bin"@);
    }
    if variant == 1 {
        assert(media =~= "/v1.m3u8"@);
        assert(with_init =~= "/v1-init.m3u8"@);
        assert(init =~= "/init/v1.bin"@);
    }
    if variant == 2 {
        assert(media =~= "/v2.m3u8"@);
        assert(with_init =~= "/v2-init.m3u8"@);
        assert(init =~= "/init/v2.bin"@);
    }
}

/// The full path behind a route leads to the part that the route names, in the
/// stream's own paths.
pub proof fn law_a_route_leads_to_its_part(
    stream: Stream,
    token: Seq<char>,
    path: Seq<char>,
    variant: usize,
    segment: usize,
)
    ensures
        full_path(Route::Master(stream), token, path) == master_path(token),
        full_path(Route::Media(stream, variant), token, path) == media_path(token, variant as nat),
        full_path(Route::Segment(stream, variant, segment), token, path) == segment_path(
            token,
            variant as nat,
            segment as nat,
        ),
        full_path(Route::InitSegment(stream, variant), token, path) == init_path(
            token,
            variant as nat,
        ),
        full_path(Route::Key(stream), token, path) == key_path(token),
        stream_of(Route::Master(stream)) == Some(stream),
        stream_of(Route::Media(stream, variant)) == Some(stream),
        stream_of(Route::Segment(stream, variant, segment)) == Some(stream),
        stream_of(Route::InitSegment(stream, variant)) == Some(stream),
        stream_of(Route::Key(stream)) == Some(stream),
{
}

/// A short path of a configured fixture that names no number where one belongs
/// leads to the first part of its kind.
pub proof fn law_a_number_that_is_none_counts_as_zero(path: Seq<char>)
    ensures
        framed(path, "/playlist/v"@, ".m3u8"@) && variant_in(path, "/playlist/v"@, ".m3u8"@) is None
            ==> config_route(path) == Route::Media(Stream::Plain, 0),
        framed(path, "/seg/v"@, ".bin"@) && segment_in(path) is None ==> config_route(path)
            == Route::Segment(Stream::Plain, 0, 0),
        framed(path, "/init/v"@, "_init.bin"@) && variant_in(
            path,
            "/init/v"@,
            "_init.bin"@,
        ) is None ==> config_route(path) == Route::InitSegment(Stream::Plain, 0),
{
    reveal_strlit("/master.m3u8");
    reveal_strlit("/key.bin");
    reveal_strlit("/playlist/v");
    reveal_strlit("/seg/v");
    reveal_strlit("/init/v");
    assert("/master.m3u8"@[1] == 'm');
    assert("/key.bin"@[1] == 'k');
    assert("/playlist/v"@[1] == 'p');
    assert("/seg/v"@[1] == 's');
    assert("/init/v"@[1] == 'i');
    if "/playlist/v"@.is_prefix_of(path) {
        assert(path.subrange(0, 11)[1] == 'p');
    }
    if "/seg/v"@.is_prefix_of(path) {
        assert(path.subrange(0, 6)[1] == 's');
    }
    if "/init/v"@.is_prefix_of(path) {
        assert(path.subrange(0, 7)[1] == 'i');
    }
}

} // verus!
