use kithara::hls_blob_store::BlobStore;
use kithara::hls_route::{
    answer, child_request, has_room, init_request, segment_request, StreamAnswer, StreamRequest,
};
use kithara::hls_spec::{resolve_hls_spec, DelayRule, EncryptionRequest, InitMode};
use kithara::hls_stream::GeneratedHls;
use kithara::hls_url::HlsSpec;

fn stream(spec: HlsSpec) -> GeneratedHls {
    GeneratedHls::new(resolve_hls_spec(spec, &BlobStore::new(), "s".into()).unwrap())
}

fn get(stream: &GeneratedHls, request: StreamRequest) -> Option<StreamAnswer> {
    assert!(has_room(stream, request, false));
    answer(stream, "token", request, false)
}

#[test]
fn paths_ask_for_what_they_name() {
    assert_eq!(
        child_request("v12.m3u8"),
        Some(StreamRequest::Media { variant: 12 })
    );
    assert_eq!(child_request("key.bin"), Some(StreamRequest::Key));
    assert_eq!(child_request("v.m3u8"), None);
    assert_eq!(
        init_request("v0.mp4"),
        Some(StreamRequest::Init { variant: 0 })
    );
    assert_eq!(init_request("v0.m4s"), None);
    assert_eq!(
        segment_request("v3_40.m4s"),
        Some(StreamRequest::Segment {
            variant: 3,
            segment: 40
        })
    );
    assert_eq!(segment_request("v3.m4s"), None);
}

#[test]
fn playlists_are_answered_as_playlists() {
    let stream = stream(HlsSpec::default());
    let master = get(&stream, StreamRequest::Master).unwrap();
    assert_eq!(master.content_type, "application/vnd.apple.mpegurl");
    assert_eq!(
        master.body,
        Some(stream.master_playlist("token").into_bytes())
    );
    let media = get(&stream, StreamRequest::Media { variant: 0 }).unwrap();
    assert_eq!(media.content_type, "application/vnd.apple.mpegurl");
    assert_eq!(media.len, stream.media_playlist(0).unwrap().len());
    assert!(get(&stream, StreamRequest::Media { variant: 1 }).is_none());
    assert!(get(&stream, StreamRequest::Key).is_none());
}

#[test]
fn segments_are_answered_after_their_delay() {
    let stream = stream(HlsSpec {
        segment_size: 20,
        head_reported_segment_size: Some(7),
        init_mode: InitMode::TestInit,
        delay_rules: vec![DelayRule {
            variant: None,
            segment_eq: Some(1),
            segment_gte: None,
            delay_ms: 30,
        }],
        encryption: Some(EncryptionRequest {
            key_hex: "0f".repeat(16),
            iv_hex: None,
        }),
        ..HlsSpec::default()
    });
    let request = StreamRequest::Segment {
        variant: 0,
        segment: 1,
    };
    let whole = get(&stream, request).unwrap();
    assert_eq!(whole.body, stream.segment_bytes(0, 1));
    assert_eq!(whole.len, 32);
    assert_eq!(whole.delay_ms, 30);
    assert_eq!(whole.content_type, "video/mp4");
    let head = answer(&stream, "token", request, true).unwrap();
    assert_eq!(head.len, 7);
    assert!(head.body.is_none());

    let init = get(&stream, StreamRequest::Init { variant: 0 }).unwrap();
    assert_eq!(init.body, stream.init_bytes(0));
    let key = get(&stream, StreamRequest::Key).unwrap();
    assert_eq!(key.body, Some(vec![0x0f; 16]));
    let past = StreamRequest::Segment {
        variant: 0,
        segment: 3,
    };
    assert!(get(&stream, past).is_none());
    assert!(answer(&stream, "token", past, true).is_none());
}
