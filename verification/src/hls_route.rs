//! What is asked of a synthetic HLS stream, and what is answered.
//!
//! - `/stream/{hls_spec}.m3u8`: master playlist
//! - `/stream/{hls_spec}/v{variant}.m3u8`: media playlist
//! - `/stream/{hls_spec}/init/v{variant}.mp4`: init segment
//! - `/stream/{hls_spec}/seg/v{variant}_{seg}.m4s`: media fragment, or its size
//! - `/stream/{hls_spec}/key.bin`: key

use crate::hex_text::{hex_text, hex_value, law_hex_reads_back};
use crate::hls_fixture::{
    bandwidth_in, bandwidths_in, lemma_bandwidths_join, lemma_line, lemma_no_such_digit,
    lemma_uris_join, pair_in, parse_pair, parse_variant, uris_in, variant_in,
};
use crate::hls_spec::ResolvedHlsSpec;
use crate::hls_stream::{
    delay_of, has_segment, init_has_room, init_of, iv_of, key_line, law_the_first_rule_decides,
    map_line, master_entries, master_text, media_entries, media_head, media_text, plaintext_of,
    segment_has_room, served, GeneratedHls,
};
use crate::hls_url::{init_path, key_path, media_path, segment_path};
use crate::outside::aes128_cbc;
use crate::text::{
    before_char, decimal, law_a_prefix_and_the_rest_make_the_text, law_decimal_is_parsed_back,
    law_lines_of_texts_join, lemma_decimal_digits, lemma_position, lines_of, same_text,
};
use vstd::prelude::*;
use vstd::string::*;
use vstd::utf8::encode_utf8;

verus! {

/// What is asked of a stream.
#[derive(Clone, Copy, Debug, PartialEq, Eq, Structural)]
pub enum StreamRequest {
    Master,
    Media { variant: usize },
    Init { variant: usize },
    Segment { variant: usize, segment: usize },
    Key,
}

/// What the last part of a path directly below a stream asks for.
pub open spec fn child_of(part: Seq<char>) -> Option<StreamRequest> {
    if part == "key.bin"@ {
        Some(StreamRequest::Key)
    } else {
        match variant_in(part, "v"@, ".m3u8"@) {
            Some(variant) => Some(StreamRequest::Media { variant: variant as usize }),
            None => None,
        }
    }
}

/// What the last part of a path directly below a stream asks for.
pub fn child_request(part: &str) -> (request: Option<StreamRequest>)
    ensures
        request == child_of(part@),
{
    if same_text(part, "key.bin") {
        return Some(StreamRequest::Key);
    }
    match parse_variant(part, "v", ".m3u8") {
        Some(variant) => Some(StreamRequest::Media { variant }),
        None => None,
    }
}

/// What the last part of a path below a stream's init segments asks for.
pub open spec fn init_request_of(part: Seq<char>) -> Option<StreamRequest> {
    match variant_in(part, "v"@, ".mp4"@) {
        Some(variant) => Some(StreamRequest::Init { variant: variant as usize }),
        None => None,
    }
}

/// What the last part of a path below a stream's init segments asks for.
pub fn init_request(part: &str) -> (request: Option<StreamRequest>)
    ensures
        request == init_request_of(part@),
{
    match parse_variant(part, "v", ".mp4") {
        Some(variant) => Some(StreamRequest::Init { variant }),
        None => None,
    }
}

/// What the last part of a path below a stream's segments asks for.
pub open spec fn segment_request_of(part: Seq<char>) -> Option<StreamRequest> {
    match pair_in(part, "v"@, ".m4s"@) {
        Some((variant, segment)) => Some(
            StreamRequest::Segment { variant: variant as usize, segment: segment as usize },
        ),
        None => None,
    }
}

/// What the last part of a path below a stream's segments asks for.
pub fn segment_request(part: &str) -> (request: Option<StreamRequest>)
    ensures
        request == segment_request_of(part@),
{
    match parse_pair(part, "v", ".m4s") {
        Some((variant, segment)) => Some(StreamRequest::Segment { variant, segment }),
        None => None,
    }
}

/// What a stream answers.
#[derive(Debug)]
pub struct StreamAnswer {
    pub content_type: &'static str,
    /// The reported length.
    pub len: usize,
    /// What is sent, none where only the length was asked for.
    pub body: Option<Vec<u8>>,
    /// How long the answer is held back.
    pub delay_ms: u64,
}

/// Whether what a request asks for leaves room for its padding, where it is
/// encrypted. A length alone needs none.
pub open spec fn leaves_room(spec: ResolvedHlsSpec, request: StreamRequest, head: bool) -> bool {
    match request {
        StreamRequest::Init { variant } => init_has_room(spec, variant as int),
        StreamRequest::Segment { variant, segment } => head || segment_has_room(
            spec,
            variant as int,
            segment as int,
        ),
        _ => true,
    }
}

/// Whether what a request asks for leaves room for its padding.
pub fn has_room(stream: &GeneratedHls, request: StreamRequest, head: bool) -> (room: bool)
    ensures
        room == leaves_room(stream.spec_of(), request, head),
{
    match request {
        StreamRequest::Init { variant } => stream.init_leaves_room(variant),
        StreamRequest::Segment { variant, segment } => head || stream.segment_leaves_room(
            variant,
            segment,
        ),
        _ => true,
    }
}

/// What a stream that is served under `name` sends for a request, none where it
/// has no such part.
pub open spec fn body_for(
    spec: ResolvedHlsSpec,
    name: Seq<char>,
    request: StreamRequest,
) -> Option<Seq<u8>> {
    match request {
        StreamRequest::Master => Some(encode_utf8(master_text(spec.variant_bandwidths@, name))),
        StreamRequest::Media { variant } => if variant < spec.variant_count {
            Some(encode_utf8(media_text(spec, variant as nat)))
        } else {
            None
        },
        StreamRequest::Init { variant } => if variant < spec.variant_count {
            Some(served(spec, init_of(spec, variant as int), 0))
        } else {
            None
        },
        StreamRequest::Segment { variant, segment } => if has_segment(
            spec,
            variant as int,
            segment as int,
        ) {
            Some(
                served(spec, plaintext_of(spec, variant as int, segment as int), segment as int),
            )
        } else {
            None
        },
        StreamRequest::Key => match (spec.key_data, spec.encryption) {
            (Some(key), _) => Some(key@),
            (None, Some(encryption)) => Some(encryption.key@),
            (None, None) => None,
        },
    }
}

/// The length that is reported of a segment whose length alone was asked for.
pub open spec fn head_len(spec: ResolvedHlsSpec, variant: int, segment: int) -> usize {
    match spec.head_reported_segment_size {
        Some(size) => size,
        None => plaintext_of(spec, variant, segment).len() as usize,
    }
}

/// Whether `answer` is what a stream served under `name` answers to a request.
/// A request for a length alone is answered so only for a segment.
pub open spec fn is_answer(
    spec: ResolvedHlsSpec,
    name: Seq<char>,
    request: StreamRequest,
    head: bool,
    answer: StreamAnswer,
) -> bool {
    &&& body_for(spec, name, request) is Some
    &&& answer.content_type@ == match request {
        StreamRequest::Master => "application/vnd.apple.mpegurl"@,
        StreamRequest::Media { .. } => "application/vnd.apple.mpegurl"@,
        StreamRequest::Init { .. } => "video/mp4"@,
        StreamRequest::Segment { .. } => "video/mp4"@,
        StreamRequest::Key => "application/octet-stream"@,
    }
    &&& answer.delay_ms == match request {
        StreamRequest::Segment { variant, segment } => delay_of(
            spec.delay_rules@,
            variant,
            segment,
        ),
        _ => 0,
    }
    &&& if head && request is Segment {
        &&& answer.body is None
        &&& answer.len == head_len(
            spec,
            request->Segment_variant as int,
            request->Segment_segment as int,
        )
    } else {
        &&& answer.body matches Some(body) && Some(body@) == body_for(spec, name, request)
            && answer.len == body@.len()
    }
}

/// An answer that sends `body`.
fn sent(content_type: &'static str, body: Vec<u8>, delay_ms: u64) -> (answer: StreamAnswer)
    ensures
        answer.content_type@ == content_type@,
        answer.body == Some(body),
        answer.len == body@.len(),
        answer.delay_ms == delay_ms,
{
    StreamAnswer { content_type, len: body.len(), body: Some(body), delay_ms }
}

/// What `stream`, served under `name`, answers to a request; none where it has
/// no such part. `head` asks for the length alone.
pub fn answer(stream: &GeneratedHls, name: &str, request: StreamRequest, head: bool) -> (answer:
    Option<StreamAnswer>)
    requires
        leaves_room(stream.spec_of(), request, head),
    ensures
        answer is Some <==> body_for(stream.spec_of(), name@, request) is Some,
        answer matches Some(answer) ==> is_answer(stream.spec_of(), name@, request, head, answer),
{
    match request {
        StreamRequest::Master => {
            let playlist = stream.master_playlist(name);
            let body = vstd::slice::slice_to_vec(playlist.as_str().as_bytes());
            Some(sent("application/vnd.apple.mpegurl", body, 0))
        },
        StreamRequest::Media { variant } => match stream.media_playlist(variant) {
            Some(playlist) => {
                let body = vstd::slice::slice_to_vec(playlist.as_bytes());
                Some(sent("application/vnd.apple.mpegurl", body, 0))
            },
            None => None,
        },
        StreamRequest::Init { variant } => match stream.init_bytes(variant) {
            Some(body) => Some(sent("video/mp4", body, 0)),
            None => None,
        },
        StreamRequest::Segment { variant, segment } => {
            let delay_ms: u64 = stream.segment_delay_ms(variant, segment);
            if head {
                match stream.segment_len(variant, segment, true) {
                    Some(len) => Some(
                        StreamAnswer { content_type: "video/mp4", len, body: None, delay_ms },
                    ),
                    None => None,
                }
            } else {
                match stream.segment_bytes(variant, segment) {
                    Some(body) => Some(sent("video/mp4", body, delay_ms)),
                    None => None,
                }
            }
        },
        StreamRequest::Key => match stream.key_bytes() {
            Some(body) => Some(sent("application/octet-stream", body, 0)),
            None => None,
        },
    }
}

/// The number that a part of a path names is the one it was written with.
proof fn lemma_numbered_part(prefix: Seq<char>, n: usize, suffix: Seq<char>)
    ensures
        variant_in(prefix + decimal(n as nat) + suffix, prefix, suffix) == Some(n as int),
{
    let number = decimal(n as nat);
    let part = prefix + number + suffix;
    assert(prefix.is_prefix_of(part)) by {
        assert(part.subrange(0, prefix.len() as int) =~= prefix);
    }
    let rest = number + suffix;
    assert(part.skip(prefix.len() as int) =~= rest);
    assert(suffix.is_suffix_of(rest)) by {
        assert(rest.subrange(rest.len() - suffix.len(), rest.len() as int) =~= suffix);
    }
    assert(rest.take(rest.len() - suffix.len()) =~= number);
    law_decimal_is_parsed_back(n as nat, usize::MAX as int);
}

/// Every path that a stream's parts are served under asks for that part: what
/// stands behind the stream's own path is read back as it was written.
#[verifier::rlimit(60)]
pub proof fn law_paths_ask_for_what_they_name(token: Seq<char>, variant: usize, segment: usize)
    ensures
        media_path(token, variant as nat) == "/stream/"@ + token + "/"@ + ("v"@ + decimal(
            variant as nat,
        ) + ".m3u8"@),
        child_of("v"@ + decimal(variant as nat) + ".m3u8"@) == Some(
            StreamRequest::Media { variant },
        ),
        init_path(token, variant as nat) == "/stream/"@ + token + "/init/"@ + ("v"@ + decimal(
            variant as nat,
        ) + ".mp4"@),
        init_request_of("v"@ + decimal(variant as nat) + ".mp4"@) == Some(
            StreamRequest::Init { variant },
        ),
        segment_path(token, variant as nat, segment as nat) == "/stream/"@ + token + "/seg/"@ + (
        "v"@ + decimal(variant as nat) + "_"@ + decimal(segment as nat) + ".m4s"@),
        segment_request_of(
            "v"@ + decimal(variant as nat) + "_"@ + decimal(segment as nat) + ".m4s"@,
        ) == Some(StreamRequest::Segment { variant, segment }),
        key_path(token) == "/stream/"@ + token + "/"@ + "key.bin"@,
        child_of("key.bin"@) == Some(StreamRequest::Key),
{
    reveal_strlit("/v");
    reveal_strlit("/init/v");
    reveal_strlit("/seg/v");
    reveal_strlit("/key.bin");
    reveal_strlit("key.bin");
    reveal_strlit("/");
    reveal_strlit("/init/");
    reveal_strlit("/seg/");
    reveal_strlit("v");
    reveal_strlit("_");
    reveal_strlit(".m4s");
    let v = decimal(variant as nat);
    let s = decimal(segment as nat);
    assert(media_path(token, variant as nat) =~= "/stream/"@ + token + "/"@ + ("v"@ + v
        + ".m3u8"@));
    assert(init_path(token, variant as nat) =~= "/stream/"@ + token + "/init/"@ + ("v"@ + v
        + ".mp4"@));
    assert(segment_path(token, variant as nat, segment as nat) =~= "/stream/"@ + token + "/seg/"@
        + ("v"@ + v + "_"@ + s + ".m4s"@));
    assert(key_path(token) =~= "/stream/"@ + token + "/"@ + "key.bin"@);
    lemma_numbered_part("v"@, variant, ".m3u8"@);
    lemma_numbered_part("v"@, variant, ".mp4"@);
    assert(("v"@ + v + ".m3u8"@)[0] == 'v');
    assert("key.bin"@[0] == 'k');
    let part = "v"@ + v + "_"@ + s + ".m4s"@;
    let rest = v + "_"@ + s + ".m4s"@;
    let pair = v + "_"@ + s;
    assert("v"@.is_prefix_of(part)) by {
        assert(part.subrange(0, 1) =~= "v"@);
    }
    assert(part.skip(1) =~= rest);
    assert(".m4s"@.is_suffix_of(rest)) by {
        assert(rest.subrange(rest.len() - 4, rest.len() as int) =~= ".m4s"@);
    }
    assert(rest.take(rest.len() - 4) =~= pair);
    lemma_decimal_digits(variant as nat);
    lemma_position(pair, '_', v.len() as int);
    assert(pair.take(v.len() as int) =~= v);
    assert(pair.skip(v.len() + 1int) =~= s);
    law_decimal_is_parsed_back(variant as nat, usize::MAX as int);
    law_decimal_is_parsed_back(segment as nat, usize::MAX as int);
}

/// The two lines of a variant's entry in a master playlist.
#[verifier::rlimit(60)]
proof fn lemma_master_entry(bandwidth: u64, name: Seq<char>, variant: nat)
    requires
        !name.contains('\n'),
        name.len() > 0,
        name[0] != '#',
    ensures
        ({
            let tag = "#EXT-X-STREAM-INF:BANDWIDTH="@ + decimal(bandwidth as nat);
            let uri = name + "/v"@ + decimal(variant) + ".m3u8"@;
            let entry = "#EXT-X-STREAM-INF:BANDWIDTH="@ + decimal(bandwidth as nat) + "\n"@ + name
                + "/v"@ + decimal(variant) + ".m3u8\n"@;
            &&& entry.last() == '\n'
            &&& lines_of(entry) == seq![tag, uri]
            &&& uris_in(seq![tag, uri]) == seq![uri]
            &&& bandwidths_in(seq![tag, uri]) == seq![bandwidth]
        }),
{
    reveal_strlit("#EXT-X-STREAM-INF:BANDWIDTH=");
    reveal_strlit("\n");
    reveal_strlit("/v");
    reveal_strlit(".m3u8");
    reveal_strlit(".m3u8\n");
    let prefix = "#EXT-X-STREAM-INF:BANDWIDTH="@;
    let digits = decimal(bandwidth as nat);
    let tag = prefix + digits;
    let uri = name + "/v"@ + decimal(variant) + ".m3u8"@;
    let entry = prefix + digits + "\n"@ + name + "/v"@ + decimal(variant) + ".m3u8\n"@;
    lemma_no_such_digit(bandwidth as nat, '\n');
    lemma_no_such_digit(bandwidth as nat, '\r');
    lemma_no_such_digit(bandwidth as nat, ',');
    lemma_no_such_digit(variant, '\n');
    assert forall|i: int| 0 <= i < name.len() implies name[i] != '\n' by {
        assert(name.contains(name[i]));
    }
    let after = uri + "\n"@ + Seq::<char>::empty();
    assert(entry =~= tag + "\n"@ + after);
    assert forall|i: int| 0 <= i < tag.len() implies tag[i] != '\n' by {
        if i >= prefix.len() {
            assert(tag[i] == digits[i - prefix.len()]);
        }
    }
    assert(tag.last() == digits.last());
    lemma_line(tag, after);
    lemma_line(uri, Seq::empty());
    assert(lines_of(entry) =~= seq![tag, uri]);
    reveal_with_fuel(uris_in, 3);
    let both = seq![tag, uri];
    assert(tag[0] == '#' && uri[0] == name[0]);
    assert(both.drop_last() =~= seq![tag]);
    assert(seq![tag].drop_last() =~= Seq::<Seq<char>>::empty());
    assert(uris_in(both) =~= seq![uri]);
    reveal_with_fuel(bandwidths_in, 3);
    law_a_prefix_and_the_rest_make_the_text(prefix, digits, tag);
    assert(before_char(digits, ',') =~= digits);
    law_decimal_is_parsed_back(bandwidth as nat, u64::MAX as int);
    assert(bandwidth_in(uri) is None) by {
        if prefix.is_prefix_of(uri) {
            assert(uri[0] == prefix[0]);
        }
    }
    assert(bandwidths_in(both) =~= seq![bandwidth]);
}

#[verifier::rlimit(60)]
proof fn lemma_master_entries(bandwidths: Seq<u64>, name: Seq<char>, count: nat)
    requires
        !name.contains('\n'),
        name.len() > 0,
        name[0] != '#',
        count <= bandwidths.len(),
    ensures
        ({
            let entries = master_entries(bandwidths, name, count);
            &&& entries.len() > 0 ==> entries.last() == '\n'
            &&& uris_in(lines_of(entries)) == Seq::new(
                count,
                |i: int| name + "/v"@ + decimal(i as nat) + ".m3u8"@,
            )
            &&& bandwidths_in(lines_of(entries)) == bandwidths.take(count as int)
        }),
    decreases count,
{
    let entries = master_entries(bandwidths, name, count);
    if count == 0 {
        assert(lines_of(entries) =~= Seq::<Seq<char>>::empty());
        assert(uris_in(lines_of(entries)) =~= Seq::new(
            0,
            |i: int| name + "/v"@ + decimal(i as nat) + ".m3u8"@,
        ));
        assert(bandwidths_in(lines_of(entries)) =~= bandwidths.take(0));
    } else {
        let variant = (count - 1) as nat;
        lemma_master_entries(bandwidths, name, variant);
        let before = master_entries(bandwidths, name, variant);
        let bandwidth = bandwidths[variant as int];
        let entry = "#EXT-X-STREAM-INF:BANDWIDTH="@ + decimal(bandwidth as nat) + "\n"@ + name
            + "/v"@ + decimal(variant) + ".m3u8\n"@;
        lemma_master_entry(bandwidth, name, variant);
        assert(entries =~= before + entry);
        law_lines_of_texts_join(before, entry);
        lemma_uris_join(lines_of(before), lines_of(entry));
        lemma_bandwidths_join(lines_of(before), lines_of(entry));
        assert(uris_in(lines_of(entries)) =~= Seq::new(
            count,
            |i: int| name + "/v"@ + decimal(i as nat) + ".m3u8"@,
        ));
        assert(bandwidths_in(lines_of(entries)) =~= bandwidths.take(count as int));
    }
}

/// A master playlist names one media playlist for each bandwidth, in order, and
/// each name leads from the streams to where that media playlist is served. The
/// bandwidths read back as they were.
#[verifier::rlimit(60)]
pub proof fn law_a_master_playlist_leads_to_every_variant(
    bandwidths: Seq<u64>,
    name: Seq<char>,
    variant: int,
)
    requires
        !name.contains('\n'),
        name.len() > 0,
        name[0] != '#',
    ensures
        ({
            let lines = lines_of(master_text(bandwidths, name));
            let uris = uris_in(lines);
            &&& lines.len() > 0
            &&& lines[0] == "#EXTM3U"@
            &&& uris.len() == bandwidths.len()
            &&& 0 <= variant < bandwidths.len() ==> "/stream/"@ + uris[variant] == media_path(
                name,
                variant as nat,
            )
            &&& bandwidths_in(lines) == bandwidths
        }),
{
    reveal_strlit("#EXTM3U\n#EXT-X-VERSION:6\n");
    reveal_strlit("#EXTM3U");
    reveal_strlit("#EXT-X-VERSION:6");
    reveal_strlit("\n");
    reveal_strlit("#EXT-X-STREAM-INF:BANDWIDTH=");
    let head = "#EXTM3U\n#EXT-X-VERSION:6\n"@;
    let first = "#EXTM3U"@;
    let second = "#EXT-X-VERSION:6"@;
    let entries = master_entries(bandwidths, name, bandwidths.len());
    lemma_master_entries(bandwidths, name, bandwidths.len());
    assert(head =~= first + "\n"@ + (second + "\n"@ + Seq::<char>::empty()));
    lemma_line(first, second + "\n"@ + Seq::<char>::empty());
    lemma_line(second, Seq::empty());
    let lines = seq![first, second];
    assert(lines_of(head) =~= lines);
    law_lines_of_texts_join(head, entries);
    lemma_uris_join(lines, lines_of(entries));
    lemma_bandwidths_join(lines, lines_of(entries));
    reveal_with_fuel(uris_in, 3);
    reveal_with_fuel(bandwidths_in, 3);
    assert(first[0] == '#' && second[0] == '#');
    assert(lines.drop_last() =~= seq![first]);
    assert(seq![first].drop_last() =~= Seq::<Seq<char>>::empty());
    assert(uris_in(lines) =~= Seq::<Seq<char>>::empty());
    let prefix = "#EXT-X-STREAM-INF:BANDWIDTH="@;
    assert(!prefix.is_prefix_of(first)) by {
        assert(first.len() < prefix.len());
    }
    assert(!prefix.is_prefix_of(second)) by {
        assert(second.len() < prefix.len());
    }
    assert(bandwidths_in(lines) =~= Seq::<u64>::empty());
    let uris = uris_in(lines_of(master_text(bandwidths, name)));
    assert(uris =~= uris_in(lines_of(entries)));
    assert(bandwidths_in(lines_of(master_text(bandwidths, name))) =~= bandwidths);
    if 0 <= variant < bandwidths.len() {
        assert("/stream/"@ + uris[variant] =~= media_path(name, variant as nat));
    }
}

/// A line and the line feed behind it.
#[verifier::rlimit(60)]
proof fn lemma_one_line(line: Seq<char>)
    requires
        forall|i: int| 0 <= i < line.len() ==> line[i] != '\n',
        line.len() > 0,
        line.last() != '\r',
    ensures
        lines_of(line + "\n"@) == seq![line],
        (line + "\n"@).last() == '\n',
        uris_in(seq![line]) == if line[0] == '#' {
            Seq::<Seq<char>>::empty()
        } else {
            seq![line]
        },
{
    reveal_strlit("\n");
    assert(line + "\n"@ =~= line + "\n"@ + Seq::<char>::empty());
    lemma_line(line, Seq::empty());
    assert(lines_of(Seq::<char>::empty()) =~= Seq::<Seq<char>>::empty());
    assert(lines_of(line + "\n"@) =~= seq![line]);
    reveal_with_fuel(uris_in, 2);
    assert(seq![line].drop_last() =~= Seq::<Seq<char>>::empty());
    assert(uris_in(seq![line]) =~= if line[0] == '#' {
        Seq::<Seq<char>>::empty()
    } else {
        seq![line]
    });
}

#[verifier::rlimit(60)]
proof fn lemma_media_entries(label: Seq<char>, variant: nat, count: nat)
    requires
        !label.contains('\n'),
    ensures
        ({
            let entries = media_entries(label, variant, count);
            let lines = lines_of(entries);
            &&& entries.len() > 0 ==> entries.last() == '\n'
            &&& lines.len() == 2 * count
            &&& forall|i: int|
                0 <= i < count ==> #[trigger] lines[2 * i] == "#EXTINF:"@ + label + ","@
            &&& uris_in(lines) == Seq::new(
                count,
                |i: int| "seg/v"@ + decimal(variant) + "_"@ + decimal(i as nat) + ".m4s"@,
            )
        }),
    decreases count,
{
    let entries = media_entries(label, variant, count);
    if count == 0 {
        assert(lines_of(entries) =~= Seq::<Seq<char>>::empty());
        assert(uris_in(lines_of(entries)) =~= Seq::new(
            0,
            |i: int| "seg/v"@ + decimal(variant) + "_"@ + decimal(i as nat) + ".m4s"@,
        ));
    } else {
        reveal_strlit("#EXTINF:");
        reveal_strlit(",");
        reveal_strlit(",\nseg/v");
        reveal_strlit("seg/v");
        reveal_strlit("_");
        reveal_strlit(".m4s\n");
        reveal_strlit(".m4s");
        reveal_strlit("\n");
        let segment = (count - 1) as nat;
        lemma_media_entries(label, variant, segment);
        let before = media_entries(label, variant, segment);
        let tag = "#EXTINF:"@ + label + ","@;
        let uri = "seg/v"@ + decimal(variant) + "_"@ + decimal(segment) + ".m4s"@;
        lemma_no_such_digit(variant, '\n');
        lemma_no_such_digit(segment, '\n');
        assert forall|i: int| 0 <= i < label.len() implies label[i] != '\n' by {
            assert(label.contains(label[i]));
        }
        assert(entries =~= before + (tag + "\n"@) + (uri + "\n"@));
        lemma_one_line(tag);
        lemma_one_line(uri);
        law_lines_of_texts_join(before, tag + "\n"@);
        law_lines_of_texts_join(before + (tag + "\n"@), uri + "\n"@);
        lemma_uris_join(lines_of(before), seq![tag]);
        lemma_uris_join(lines_of(before) + seq![tag], seq![uri]);
        let lines = lines_of(entries);
        assert(lines == lines_of(before) + seq![tag] + seq![uri]);
        assert forall|i: int| 0 <= i < count implies #[trigger] lines[2 * i] == tag by {
            if i < segment {
                assert(lines[2 * i] == lines_of(before)[2 * i]);
            }
        }
        assert(uris_in(lines) =~= Seq::new(
            count,
            |i: int| "seg/v"@ + decimal(variant) + "_"@ + decimal(i as nat) + ".m4s"@,
        ));
    }
}

/// A media playlist reads back: a head that names the longest duration, the init
/// segment where there is one, the key where there is one, an entry for each
/// segment with the stream's duration, and an end.
#[verifier::rlimit(60)]
pub proof fn law_a_media_playlist_reads_back(spec: ResolvedHlsSpec, variant: nat, segment: int)
    requires
        !spec.segment_duration.label@.contains('\n'),
    ensures
        ({
            let lines = lines_of(media_text(spec, variant));
            let count = spec.segments_per_variant as int;
            let mapped: int = if spec.init_mode.present_for(variant as int) {
                1
            } else {
                0
            };
            let keyed: int = if spec.encryption is Some {
                1
            } else {
                0
            };
            &&& lines.len() == 6 + mapped + keyed + 2 * count
            &&& lines[0] == "#EXTM3U"@
            &&& lines[2] == "#EXT-X-TARGETDURATION:"@ + decimal(
                spec.segment_duration.target_secs as nat,
            )
            &&& lines[1] == "#EXT-X-VERSION:6"@
            &&& lines[3] == "#EXT-X-MEDIA-SEQUENCE:0"@
            &&& lines[4] == "#EXT-X-PLAYLIST-TYPE:VOD"@
            &&& mapped == 1 ==> lines[5] == "#EXT-X-MAP:URI=\"init/v"@ + decimal(variant)
                + ".mp4\""@
            &&& spec.encryption matches Some(encryption) ==> lines[5 + mapped]
                == "#EXT-X-KEY:METHOD=AES-128,URI=\"../key.bin\""@ + match encryption.iv {
                Some(iv) => ",IV=0x"@ + hex_text(iv@),
                None => Seq::empty(),
            }
            &&& 0 <= segment < count ==> lines[5 + mapped + keyed + 2 * segment] == "#EXTINF:"@
                + spec.segment_duration.label@ + ","@
            &&& lines.last() == "#EXT-X-ENDLIST"@
        }),
{
    lemma_media_lines(spec, variant);
    lemma_media_entries(
        spec.segment_duration.label@,
        variant,
        spec.segments_per_variant as nat,
    );
    let entries = lines_of(
        media_entries(
            spec.segment_duration.label@,
            variant,
            spec.segments_per_variant as nat,
        ),
    );
    if 0 <= segment < spec.segments_per_variant {
        assert(entries[2 * segment] == "#EXTINF:"@ + spec.segment_duration.label@ + ","@);
    }
}

/// The lines of a media playlist, part by part.
#[verifier::rlimit(60)]
proof fn lemma_media_lines(spec: ResolvedHlsSpec, variant: nat)
    requires
        !spec.segment_duration.label@.contains('\n'),
    ensures
        ({
            let head = seq![
                "#EXTM3U"@,
                "#EXT-X-VERSION:6"@,
                "#EXT-X-TARGETDURATION:"@ + decimal(spec.segment_duration.target_secs as nat),
                "#EXT-X-MEDIA-SEQUENCE:0"@,
                "#EXT-X-PLAYLIST-TYPE:VOD"@,
            ];
            let map = if spec.init_mode.present_for(variant as int) {
                seq!["#EXT-X-MAP:URI=\"init/v"@ + decimal(variant) + ".mp4\""@]
            } else {
                Seq::empty()
            };
            let key = match spec.encryption {
                Some(encryption) => seq![
                    "#EXT-X-KEY:METHOD=AES-128,URI=\"../key.bin\""@ + match encryption.iv {
                        Some(iv) => ",IV=0x"@ + hex_text(iv@),
                        None => Seq::empty(),
                    },
                ],
                None => Seq::empty(),
            };
            let entries = lines_of(
                media_entries(
                    spec.segment_duration.label@,
                    variant,
                    spec.segments_per_variant as nat,
                ),
            );
            let lines = lines_of(media_text(spec, variant));
            &&& lines == head + map + key + entries + seq!["#EXT-X-ENDLIST"@]
            &&& uris_in(lines) == uris_in(entries)
        }),
{
    reveal_strlit("#EXTM3U\n#EXT-X-VERSION:6\n#EXT-X-TARGETDURATION:");
    reveal_strlit("\n#EXT-X-MEDIA-SEQUENCE:0\n#EXT-X-PLAYLIST-TYPE:VOD\n");
    reveal_strlit("#EXTM3U");
    reveal_strlit("#EXT-X-VERSION:6");
    reveal_strlit("#EXT-X-TARGETDURATION:");
    reveal_strlit("#EXT-X-MEDIA-SEQUENCE:0");
    reveal_strlit("#EXT-X-PLAYLIST-TYPE:VOD");
    reveal_strlit("#EXT-X-ENDLIST");
    reveal_strlit("#EXT-X-ENDLIST\n");
    reveal_strlit("\n");
    let secs = spec.segment_duration.target_secs as nat;
    let l0 = "#EXTM3U"@;
    let l1 = "#EXT-X-VERSION:6"@;
    let l2 = "#EXT-X-TARGETDURATION:"@ + decimal(secs);
    let l3 = "#EXT-X-MEDIA-SEQUENCE:0"@;
    let l4 = "#EXT-X-PLAYLIST-TYPE:VOD"@;
    let nl = "\n"@;
    let a0 = l0 + nl;
    let a1 = a0 + (l1 + nl);
    let a2 = a1 + (l2 + nl);
    let a3 = a2 + (l3 + nl);
    let a4 = a3 + (l4 + nl);
    lemma_no_such_digit(secs, '\n');
    lemma_no_such_digit(secs, '\r');
    assert(l2.last() == decimal(secs).last());
    assert(media_head(secs) =~= a4);
    lemma_one_line(l0);
    lemma_one_line(l1);
    lemma_one_line(l2);
    lemma_one_line(l3);
    lemma_one_line(l4);
    law_lines_of_texts_join(a0, l1 + nl);
    law_lines_of_texts_join(a1, l2 + nl);
    law_lines_of_texts_join(a2, l3 + nl);
    law_lines_of_texts_join(a3, l4 + nl);
    lemma_uris_join(seq![l0], seq![l1]);
    lemma_uris_join(seq![l0] + seq![l1], seq![l2]);
    lemma_uris_join(seq![l0] + seq![l1] + seq![l2], seq![l3]);
    lemma_uris_join(seq![l0] + seq![l1] + seq![l2] + seq![l3], seq![l4]);
    let head = seq![l0, l1, l2, l3, l4];
    assert(head =~= seq![l0] + seq![l1] + seq![l2] + seq![l3] + seq![l4]);
    assert(lines_of(a4) == head);
    assert(uris_in(head) =~= Seq::<Seq<char>>::empty());
    let map = if spec.init_mode.present_for(variant as int) {
        seq!["#EXT-X-MAP:URI=\"init/v"@ + decimal(variant) + ".mp4\""@]
    } else {
        Seq::empty()
    };
    lemma_map_line(spec, variant);
    let key = match spec.encryption {
        Some(encryption) => seq![
            "#EXT-X-KEY:METHOD=AES-128,URI=\"../key.bin\""@ + match encryption.iv {
                Some(iv) => ",IV=0x"@ + hex_text(iv@),
                None => Seq::empty(),
            },
        ],
        None => Seq::empty(),
    };
    lemma_key_line(spec);
    let b1 = a4 + map_line(spec, variant);
    let b2 = b1 + key_line(spec);
    law_lines_of_texts_join(a4, map_line(spec, variant));
    law_lines_of_texts_join(b1, key_line(spec));
    lemma_uris_join(head, map);
    lemma_uris_join(head + map, key);
    let entries = media_entries(
        spec.segment_duration.label@,
        variant,
        spec.segments_per_variant as nat,
    );
    lemma_media_entries(
        spec.segment_duration.label@,
        variant,
        spec.segments_per_variant as nat,
    );
    let b3 = b2 + entries;
    law_lines_of_texts_join(b2, entries);
    lemma_uris_join(head + map + key, lines_of(entries));
    let end = "#EXT-X-ENDLIST"@;
    lemma_one_line(end);
    assert("#EXT-X-ENDLIST\n"@ =~= end + nl);
    law_lines_of_texts_join(b3, end + nl);
    lemma_uris_join(head + map + key + lines_of(entries), seq![end]);
    assert(media_text(spec, variant) =~= b3 + (end + nl));
    assert(uris_in(lines_of(media_text(spec, variant))) =~= uris_in(lines_of(entries)));
}

#[verifier::rlimit(60)]
proof fn lemma_map_line(spec: ResolvedHlsSpec, variant: nat)
    ensures
        ({
            let map = if spec.init_mode.present_for(variant as int) {
                seq!["#EXT-X-MAP:URI=\"init/v"@ + decimal(variant) + ".mp4\""@]
            } else {
                Seq::empty()
            };
            let text = map_line(spec, variant);
            &&& text.len() > 0 ==> text.last() == '\n'
            &&& lines_of(text) == map
            &&& uris_in(map) == Seq::<Seq<char>>::empty()
        }),
{
    reveal_strlit("#EXT-X-MAP:URI=\"init/v");
    reveal_strlit(".mp4\"");
    reveal_strlit(".mp4\"\n");
    reveal_strlit("\n");
    if spec.init_mode.present_for(variant as int) {
        let line = "#EXT-X-MAP:URI=\"init/v"@ + decimal(variant) + ".mp4\""@;
        lemma_no_such_digit(variant, '\n');
        lemma_one_line(line);
        assert(map_line(spec, variant) =~= line + "\n"@);
    } else {
        assert(lines_of(map_line(spec, variant)) =~= Seq::<Seq<char>>::empty());
    }
}

#[verifier::rlimit(60)]
proof fn lemma_key_line(spec: ResolvedHlsSpec)
    ensures
        ({
            let key = match spec.encryption {
                Some(encryption) => seq![
                    "#EXT-X-KEY:METHOD=AES-128,URI=\"../key.bin\""@ + match encryption.iv {
                        Some(iv) => ",IV=0x"@ + hex_text(iv@),
                        None => Seq::empty(),
                    },
                ],
                None => Seq::empty(),
            };
            let text = key_line(spec);
            &&& text.len() > 0 ==> text.last() == '\n'
            &&& lines_of(text) == key
            &&& uris_in(key) == Seq::<Seq<char>>::empty()
        }),
{
    reveal_strlit("#EXT-X-KEY:METHOD=AES-128,URI=\"../key.bin\"");
    reveal_strlit(",IV=0x");
    reveal_strlit("\n");
    if spec.encryption is Some {
        let encryption = spec.encryption->0;
        let start = "#EXT-X-KEY:METHOD=AES-128,URI=\"../key.bin\""@;
        let vector = match encryption.iv {
            Some(iv) => ",IV=0x"@ + hex_text(iv@),
            None => Seq::empty(),
        };
        let line = start + vector;
        if encryption.iv is Some {
            let iv = encryption.iv->0@;
            law_hex_reads_back(iv);
            assert forall|i: int| 0 <= i < hex_text(iv).len() implies #[trigger] hex_text(iv)[i]
                != '\n' && hex_text(iv)[i] != '\r' by {
                assert(hex_value(hex_text(iv)[i]) is Some);
            }
            assert(line.last() != '\r') by {
                if hex_text(iv).len() > 0 {
                    assert(line.last() == hex_text(iv)[hex_text(iv).len() - 1]);
                }
            }
            assert forall|i: int| 0 <= i < line.len() implies line[i] != '\n' by {
                if i >= start.len() + 6 {
                    assert(line[i] == hex_text(iv)[i - start.len() - 6]);
                }
            }
        } else {
            assert(line =~= start);
        }
        lemma_one_line(line);
        assert(key_line(spec) =~= line + "\n"@);
    } else {
        assert(lines_of(key_line(spec)) =~= Seq::<Seq<char>>::empty());
    }
}

/// A media playlist names every segment of its variant, in order and no others,
/// and each name leads from the stream to where that segment is served.
#[verifier::rlimit(60)]
pub proof fn law_a_media_playlist_leads_to_every_segment(
    spec: ResolvedHlsSpec,
    token: Seq<char>,
    variant: nat,
    segment: int,
)
    requires
        !spec.segment_duration.label@.contains('\n'),
    ensures
        ({
            let uris = uris_in(lines_of(media_text(spec, variant)));
            &&& uris.len() == spec.segments_per_variant
            &&& 0 <= segment < uris.len() ==> "/stream/"@ + token + "/"@ + uris[segment]
                == segment_path(token, variant, segment as nat)
        }),
{
    lemma_media_lines(spec, variant);
    lemma_media_entries(
        spec.segment_duration.label@,
        variant,
        spec.segments_per_variant as nat,
    );
    reveal_strlit("/");
    reveal_strlit("seg/v");
    reveal_strlit("/seg/v");
    let uris = uris_in(lines_of(media_text(spec, variant)));
    if 0 <= segment < uris.len() {
        assert("/stream/"@ + token + "/"@ + uris[segment] =~= segment_path(
            token,
            variant,
            segment as nat,
        ));
    }
}

/// The key that is served opens what is served: where the stream is encrypted
/// and no other key was asked for, every part is encrypted under that key.
pub proof fn law_the_key_served_opens_the_stream(
    spec: ResolvedHlsSpec,
    name: Seq<char>,
    variant: usize,
    segment: usize,
)
    requires
        spec.encryption is Some,
        spec.key_data is None,
    ensures
        body_for(spec, name, StreamRequest::Key) is Some,
        has_segment(spec, variant as int, segment as int) ==> body_for(
            spec,
            name,
            StreamRequest::Segment { variant, segment },
        ) == Some(
            aes128_cbc(
                plaintext_of(spec, variant as int, segment as int),
                body_for(spec, name, StreamRequest::Key)->0,
                iv_of(spec.encryption->0, segment as int),
            ),
        ),
        variant < spec.variant_count ==> body_for(spec, name, StreamRequest::Init { variant })
            == Some(
            aes128_cbc(
                init_of(spec, variant as int),
                body_for(spec, name, StreamRequest::Key)->0,
                iv_of(spec.encryption->0, 0),
            ),
        ),
{
}

/// A key that was asked for is served as it is; a stream that neither asks for
/// one nor is encrypted has none.
pub proof fn law_a_key_asked_for_is_served(spec: ResolvedHlsSpec, name: Seq<char>)
    ensures
        spec.key_data matches Some(key) ==> body_for(spec, name, StreamRequest::Key) == Some(key@),
        body_for(spec, name, StreamRequest::Key) is None <==> spec.key_data is None
            && spec.encryption is None,
{
}

/// Every variant that the stream counts has a media playlist and an init
/// segment, and no other has; a segment is there only in such a variant, below
/// the number of segments.
pub proof fn law_a_stream_has_the_parts_it_counts(
    spec: ResolvedHlsSpec,
    name: Seq<char>,
    variant: usize,
    segment: usize,
)
    ensures
        body_for(spec, name, StreamRequest::Master) is Some,
        body_for(spec, name, StreamRequest::Media { variant }) is Some <==> variant
            < spec.variant_count,
        body_for(spec, name, StreamRequest::Init { variant }) is Some <==> body_for(
            spec,
            name,
            StreamRequest::Media { variant },
        ) is Some,
        body_for(spec, name, StreamRequest::Segment { variant, segment }) is Some ==> variant
            < spec.variant_count && segment < spec.segments_per_variant,
        !(spec.data_mode is PerVariantBytes) && variant < spec.variant_count && segment
            < spec.segments_per_variant && segment * spec.segment_size <= usize::MAX ==> body_for(
            spec,
            name,
            StreamRequest::Segment { variant, segment },
        ) is Some,
{
}

/// An answer with a body reports that body's length. Only the length of a
/// segment is answered without one: the length the description reports, or
/// that of the segment in the clear, which is what is sent where it is not
/// encrypted. Only a segment is held back. Playlists, media and keys each have
/// their own type.
pub proof fn law_an_answer_reports_what_it_sends(
    spec: ResolvedHlsSpec,
    name: Seq<char>,
    request: StreamRequest,
    head: bool,
    answer: StreamAnswer,
)
    requires
        is_answer(spec, name, request, head, answer),
    ensures
        answer.body matches Some(body) ==> answer.len == body@.len() && Some(body@) == body_for(
            spec,
            name,
            request,
        ),
        answer.body is None ==> head && request is Segment,
        head && request is Segment ==> answer.body is None,
        answer.body is None ==> (spec.head_reported_segment_size matches Some(size) ==> answer.len
            == size),
        answer.body is None && spec.head_reported_segment_size is None && spec.encryption is None
            && body_for(spec, name, request)->0.len() <= usize::MAX ==> answer.len == body_for(
            spec,
            name,
            request,
        )->0.len(),
        !(request is Segment) ==> answer.delay_ms == 0,
        request is Master || request is Media ==> answer.content_type@
            == "application/vnd.apple.mpegurl"@,
        request is Init || request is Segment ==> answer.content_type@ == "video/mp4"@,
        request is Key ==> answer.content_type@ == "application/octet-stream"@,
        request matches StreamRequest::Segment { variant, segment } ==> (forall|i: int|
            0 <= i < spec.delay_rules@.len() ==> !(#[trigger] spec.delay_rules@[i]).applies(
                variant,
                segment,
            )) ==> answer.delay_ms == 0,
{
    if let StreamRequest::Segment { variant, segment } = request {
        if forall|i: int|
            0 <= i < spec.delay_rules@.len() ==> !(#[trigger] spec.delay_rules@[i]).applies(
                variant,
                segment,
            ) {
            law_the_first_rule_decides(
                spec.delay_rules@,
                variant,
                segment,
                spec.delay_rules@.len() as int,
            );
        }
    }
}

} // verus!
