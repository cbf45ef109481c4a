use kithara::hls_blob_store::BlobStore;
use kithara::hls_spec::resolve_hls_spec;
use kithara::hls_stream::GeneratedHlsCache;
use kithara::hls_url::{spec_of_master_path, HlsSpec};
use kithara::signal_url::{format_of_ext, kind_of_segment, SignalFormat, SignalKind};
use kithara::test_server::{hls_token_request, signal_token_request, TestServerHelper};
use kithara::token_store::{is_token, SignalRequest, TokenRoute, TokenStore};
use url::Url;

fn helper() -> TestServerHelper {
    TestServerHelper::new("http://127.0.0.1:3444/".to_string())
}

fn path_of(url: Option<String>) -> String {
    Url::parse(&url.unwrap()).unwrap().path().to_string()
}

#[test]
fn signal_helper_builds_expected_url() {
    let url = helper().sine("token", &SignalFormat::Wav, 440.0f64.to_bits());
    let path = path_of(url);

    assert!(path.starts_with("/signal/sine/"));
    assert!(path.ends_with(".wav"));
}

#[test]
fn test_test_server_helper_serves_audio_fixture_urls() {
    let server = helper();

    let wav_url = server.sawtooth("token", &SignalFormat::Wav).unwrap();
    let mp3_url = server.asset("test.mp3").unwrap();

    assert!(wav_url.starts_with("http://127.0.0.1:"));
    assert!(mp3_url.starts_with("http://127.0.0.1:"));
    let wav_path = path_of(Some(wav_url));
    assert!(wav_path.starts_with("/signal/sawtooth/"));
    assert!(wav_path.ends_with(".wav"));
    assert!(path_of(Some(mp3_url)).ends_with("test.mp3"));
}

#[test]
fn every_kind_and_format_has_its_path() {
    for (kind, segment) in [
        (SignalKind::Sawtooth, "sawtooth"),
        (SignalKind::SawtoothDescending, "sawtooth-desc"),
        (SignalKind::Sine { freq_bits: 0 }, "sine"),
        (SignalKind::Silence, "silence"),
    ] {
        for (format, ext) in [
            (SignalFormat::Wav, "wav"),
            (SignalFormat::Mp3, "mp3"),
            (SignalFormat::Flac, "flac"),
            (SignalFormat::Aac, "aac"),
            (SignalFormat::M4a, "m4a"),
        ] {
            assert_eq!(
                helper().signal(&kind, "t", &format),
                Some(format!("http://127.0.0.1:3444/signal/{segment}/t.{ext}"))
            );
        }
    }
}

#[test]
fn each_signal_has_its_own_address() {
    let server = helper();
    let base = "http://127.0.0.1:3444/signal";
    assert_eq!(
        server.sawtooth_descending("t", &SignalFormat::Mp3),
        Some(format!("{base}/sawtooth-desc/t.mp3"))
    );
    assert_eq!(
        server.silence("t", &SignalFormat::Flac),
        Some(format!("{base}/silence/t.flac"))
    );
}

#[test]
fn slashes_before_an_asset_do_not_count() {
    assert_eq!(
        helper().asset("//hls/master.m3u8"),
        Some("http://127.0.0.1:3444/assets/hls/master.m3u8".to_string())
    );
}

#[test]
fn stream_urls_name_the_token() {
    let server = helper();
    let base = "http://127.0.0.1:3444/stream/t";
    assert_eq!(server.hls("t"), Some(format!("{base}.m3u8")));
    assert_eq!(server.hls_media("t", 2), Some(format!("{base}/v2.m3u8")));
    assert_eq!(server.hls_init("t", 2), Some(format!("{base}/init/v2.mp4")));
    assert_eq!(
        server.hls_segment("t", 2, 10),
        Some(format!("{base}/seg/v2_10.m4s"))
    );
    assert_eq!(server.hls_key("t"), Some(format!("{base}/key.bin")));
    assert_eq!(server.base_url(), "http://127.0.0.1:3444/");
}

#[test]
fn a_path_is_resolved_against_the_base() {
    let server = TestServerHelper::new("http://h/a/b".to_string());
    assert_eq!(server.url("c"), Some("http://h/a/c".to_string()));
    assert_eq!(server.url("../../d"), Some("http://h/d".to_string()));
    assert_eq!(server.url("http://["), None);
    assert_eq!(TestServerHelper::new("nowhere".to_string()).url("/x"), None);
}

#[test]
fn a_registration_asks_for_one_thing() {
    let request = signal_token_request(&SignalKind::Silence, "/signal/silence/abc.wav").unwrap();
    assert_eq!(request.route, TokenRoute::Signal);
    assert_eq!(request.signal_kind, Some("silence".to_string()));
    assert_eq!(request.signal_spec_with_ext, Some("abc.wav".to_string()));
    assert!(request.hls_spec.is_none());
    assert!(signal_token_request(&SignalKind::Silence, "/signal/sine/abc.wav").is_none());

    let request = hls_token_request(HlsSpec::default());
    assert_eq!(request.route, TokenRoute::Hls);
    assert_eq!(request.signal_kind, None);
    assert_eq!(request.hls_spec.unwrap().segment_size, 200_000);
}

#[test]
fn a_token_stands_for_what_it_was_given_for() {
    let mut store = TokenStore::new();
    let mut cache = GeneratedHlsCache::new();
    let request = SignalRequest {
        kind: SignalKind::Sawtooth,
        sample_rate: 44_100,
        channels: 2,
        total_frames: Some(44_100),
        format: SignalFormat::Wav,
    };
    let signal = store.insert_signal(request);
    let spec = resolve_hls_spec(HlsSpec::default(), &BlobStore::new(), "k".into()).unwrap();
    let hls = store.insert_hls(&mut cache, spec);

    assert_ne!(signal, hls);
    assert!(is_token(&signal));
    assert!(is_token(&hls));
    assert!(!is_token("v0.m3u8"));
    assert_eq!(store.get_signal(&signal), Some(request));
    assert_eq!(store.get_signal(&hls), None);
    assert!(store.get_hls(&signal).is_none());
    assert!(store
        .get_hls(&hls)
        .unwrap()
        .media_playlist(0)
        .unwrap()
        .contains("seg/v0_2.m4s"));
    assert!(store.get_hls("unknown").is_none());
}

#[test]
fn a_master_path_names_its_description() {
    assert_eq!(spec_of_master_path("abc.m3u8"), "abc");
    assert_eq!(spec_of_master_path("abc"), "abc");
}

#[test]
fn a_token_is_a_uuid_in_one_of_its_four_forms() {
    for token in [
        "67e5504410b1426f9247bb680e5fe0c8",
        "67e55044-10b1-426f-9247-bb680e5fe0c8",
        "F9168C5E-CEB2-4faa-B6BF-329BF39FA1E4",
        "{67e55044-10b1-426f-9247-bb680e5fe0c8}",
        "urn:uuid:67e55044-10b1-426f-9247-bb680e5fe0c8",
        "URN:Uuid:67e55044-10b1-426f-9247-bb680e5fe0c8",
    ] {
        assert!(is_token(token), "{token}");
    }
    for other in [
        "",
        "67e5504410b1426f9247bb680e5fe0c",
        "67e5504410b1426f9247bb680e5fe0cg",
        "67e55044-10b1-426f-9247bb680e5f-e0c8",
        "{67e5504410b1426f9247bb680e5fe0c8}",
        "(67e55044-10b1-426f-9247-bb680e5fe0c8)",
        "urn-uuid:67e55044-10b1-426f-9247-bb680e5fe0c8",
        "67e55044-10b1-426f-9247-bb680e5fe0\u{e9}",
    ] {
        assert!(!is_token(other), "{other}");
    }
}

#[test]
fn kinds_and_formats_are_read_back_from_their_names() {
    for kind in [
        SignalKind::Sawtooth,
        SignalKind::SawtoothDescending,
        SignalKind::Sine { freq_bits: 7 },
        SignalKind::Silence,
    ] {
        assert_eq!(kind_of_segment(kind.path_segment(), 7), Some(kind));
    }
    assert_eq!(kind_of_segment("square", 7), None);
    for format in [
        SignalFormat::Wav,
        SignalFormat::Mp3,
        SignalFormat::Flac,
        SignalFormat::Aac,
        SignalFormat::M4a,
    ] {
        assert_eq!(format_of_ext(format.path_ext()), Some(format));
    }
    assert_eq!(format_of_ext("ogg"), None);
}
