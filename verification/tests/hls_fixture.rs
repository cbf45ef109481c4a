use kithara::hls_blob_store::BlobStore;
use kithara::hls_fixture::{
    abr_spec, fixed_encrypted_spec, fixed_init_spec, fixed_plain_spec, master_playlist,
    parse_master_bandwidths, parse_segment, parse_variant, spec_from_config, test_master_playlist,
    test_master_playlist_encrypted, test_master_playlist_with_init, test_media_playlist,
    test_media_playlist_encrypted, test_media_playlist_with_init, test_segment_data, AbrTestServer,
    EncryptionConfig, HlsTestServer, HlsTestServerConfig, TestServer,
};
use kithara::hls_spec::{resolve_hls_spec, DataMode, DelayRule, InitMode};
use kithara::hls_stream::GeneratedHls;
use kithara::test_server::TestServerHelper;
use kithara::time::Duration;
use std::sync::Arc;

const BASE: &str = "http://127.0.0.1:3444";

fn helper() -> TestServerHelper {
    TestServerHelper::new(BASE.to_string())
}

fn test_server() -> TestServer {
    TestServer::new(helper(), "plain".into(), "init".into(), "enc".into())
}

#[test]
fn every_short_path_leads_to_its_stream() {
    let server = test_server();
    for (path, wanted) in [
        ("/master.m3u8", "/stream/plain.m3u8"),
        ("/master-init.m3u8", "/stream/init.m3u8"),
        ("/master-encrypted.m3u8", "/stream/enc.m3u8"),
        ("/v0.m3u8", "/stream/plain/v0.m3u8"),
        ("/v1.m3u8", "/stream/plain/v1.m3u8"),
        ("/video/480p/playlist.m3u8", "/stream/plain/v1.m3u8"),
        ("/v2.m3u8", "/stream/plain/v2.m3u8"),
        ("/v0-init.m3u8", "/stream/init/v0.m3u8"),
        ("/v1-init.m3u8", "/stream/init/v1.m3u8"),
        ("/v2-init.m3u8", "/stream/init/v2.m3u8"),
        ("/v0-encrypted.m3u8", "/stream/enc/v0.m3u8"),
        ("/seg/v0_0.bin", "/stream/plain/seg/v0_0.m4s"),
        ("/seg/v1_2.bin", "/stream/plain/seg/v1_2.m4s"),
        ("/seg/v2_1.bin", "/stream/plain/seg/v2_1.m4s"),
        ("/init/v2.bin", "/stream/init/init/v2.mp4"),
        ("/key.bin", "/stream/plain/key.bin"),
        ("/aes/key.bin", "/stream/enc/key.bin"),
        ("/aes/seg0.bin", "/stream/enc/seg/v0_0.m4s"),
        ("/seg/v3_0.bin", "/seg/v3_0.bin"),
    ] {
        assert_eq!(server.path_for(path), wanted);
        assert_eq!(server.url(path), Some(format!("{BASE}{wanted}")));
    }
}

#[test]
fn a_configured_fixture_reads_numbers_out_of_its_paths() {
    let server = HlsTestServer::new(HlsTestServerConfig::default(), helper(), "t".into());
    for (path, wanted) in [
        ("/master.m3u8", "/stream/t.m3u8"),
        ("/key.bin", "/stream/t/key.bin"),
        ("/playlist/v12.m3u8", "/stream/t/v12.m3u8"),
        ("/playlist/vx.m3u8", "/stream/t/v0.m3u8"),
        ("/seg/v3_40.bin", "/stream/t/seg/v3_40.m4s"),
        ("/seg/v3.bin", "/stream/t/seg/v0_0.m4s"),
        ("/init/v2_init.bin", "/stream/t/init/v2.mp4"),
        ("/init/v2.bin", "/init/v2.bin"),
    ] {
        assert_eq!(server.path_for(path), wanted);
        assert_eq!(server.url(path), Some(format!("{BASE}{wanted}")));
    }
}

#[test]
fn an_abr_fixture_knows_its_paths() {
    let server = AbrTestServer::new(helper(), "t".into());
    for (path, wanted) in [
        ("/master.m3u8", "/stream/t.m3u8"),
        ("/v2.m3u8", "/stream/t/v2.m3u8"),
        ("/seg/v2_2.bin", "/stream/t/seg/v2_2.m4s"),
        ("/init/v1.bin", "/stream/t/init/v1.mp4"),
        ("/key.bin", "/key.bin"),
    ] {
        assert_eq!(server.path_for(path), wanted);
        assert_eq!(server.url(path), Some(format!("{BASE}{wanted}")));
    }
}

#[test]
fn numbers_in_paths_are_read_as_numbers() {
    assert_eq!(parse_variant("/a12b", "/a", "b"), Some(12));
    assert_eq!(parse_variant("/a+7b", "/a", "b"), Some(7));
    assert_eq!(parse_variant("/ab", "/a", "b"), None);
    assert_eq!(parse_variant("/a-1b", "/a", "b"), None);
    assert_eq!(
        parse_variant("/a99999999999999999999b", "/a", "b"),
        None
    );
    assert_eq!(parse_segment("/seg/v1_2.bin"), Some((1, 2)));
    assert_eq!(parse_segment("/seg/v1_2_3.bin"), None);
    assert_eq!(parse_segment("/seg/v_2.bin"), None);
    assert_eq!(parse_segment("/seg/v1_2.m4s"), None);
}

#[test]
fn the_fixed_playlists_are_these() {
    assert!(test_master_playlist().starts_with("#EXTM3U\n#EXT-X-VERSION:6\n"));
    assert!(test_master_playlist().ends_with(
        "#EXT-X-STREAM-INF:BANDWIDTH=5120000,RESOLUTION=1920x1080,CODECS=\"avc1.42c01e,mp4a.40.2\"\nv2.m3u8\n"
    ));
    assert_eq!(
        parse_master_bandwidths(test_master_playlist()),
        vec![1_280_000, 2_560_000, 5_120_000]
    );
    assert!(test_master_playlist_with_init().contains("\nv1-init.m3u8\n"));
    assert!(test_master_playlist_encrypted().ends_with("\nv0-encrypted.m3u8\n"));
    assert_eq!(
        test_media_playlist(7),
        "#EXTM3U\n#EXT-X-VERSION:6\n#EXT-X-TARGETDURATION:4\n#EXT-X-MEDIA-SEQUENCE:0\n\
         #EXT-X-PLAYLIST-TYPE:VOD\n#EXTINF:4.0,\nseg/v7_0.bin\n#EXTINF:4.0,\nseg/v7_1.bin\n\
         #EXTINF:4.0,\nseg/v7_2.bin\n#EXT-X-ENDLIST\n"
    );
    assert!(test_media_playlist_with_init(3)
        .contains("VOD\n#EXT-X-MAP:URI=\"init/v3.bin\"\n#EXTINF:4.0,\nseg/v3_0.bin\n"));
    assert_eq!(
        test_media_playlist_encrypted(0),
        test_media_playlist_encrypted(1)
    );
    assert!(test_media_playlist_encrypted(0).contains("IV=0x00000000000000000000000000000000\n"));
}

#[test]
fn fixture_segments_are_filled_up() {
    let data = test_segment_data(1, 2);
    assert_eq!(data.len(), 200_000);
    assert_eq!(&data[..26], b"V1-SEG-2:TEST_SEGMENT_DATA");
    assert!(data[26..].iter().all(|byte| *byte == 0xFF));
}

#[test]
fn a_master_playlist_names_its_bandwidths() {
    let playlist = master_playlist(1, 22, 333);
    assert_eq!(
        playlist,
        "#EXTM3U\n#EXT-X-VERSION:6\n#EXT-X-STREAM-INF:BANDWIDTH=1\nv0.m3u8\n\
         #EXT-X-STREAM-INF:BANDWIDTH=22\nv1.m3u8\n#EXT-X-STREAM-INF:BANDWIDTH=333\nv2.m3u8\n"
    );
    assert_eq!(parse_master_bandwidths(&playlist), vec![1, 22, 333]);
    assert_eq!(
        parse_master_bandwidths("#EXT-X-STREAM-INF:BANDWIDTH=5,X\r\nq\n#EXT-X-STREAM-INF:BANDWIDTH=x"),
        vec![5]
    );
}

#[test]
fn the_fixed_streams_are_made_from_these() {
    let blobs = BlobStore::new();
    let plain = fixed_plain_spec();
    assert_eq!(plain.variant_count, 3);
    let plain = GeneratedHls::new(resolve_hls_spec(plain, &blobs, "p".into()).unwrap());
    assert_eq!(plain.key_bytes(), Some(b"TEST_KEY_DATA_123456".to_vec()));
    assert_eq!(plain.segment_bytes(2, 2), Some(test_segment_data(2, 2)));

    let init = fixed_init_spec();
    let init = GeneratedHls::new(resolve_hls_spec(init, &blobs, "i".into()).unwrap());
    assert_eq!(init.init_bytes(2), Some(b"V2-INIT:TEST_INIT_DATA".to_vec()));

    let encrypted = fixed_encrypted_spec();
    let encrypted = GeneratedHls::new(resolve_hls_spec(encrypted, &blobs, "e".into()).unwrap());
    assert_eq!(encrypted.key_bytes(), Some(b"0123456789abcdef".to_vec()));
    assert_eq!(encrypted.segment_len(0, 0, true), Some(22));
    assert_eq!(encrypted.segment_len(0, 0, false), Some(32));
    assert_ne!(
        encrypted.segment_bytes(0, 0).unwrap()[..22],
        b"V0-SEG-0:DRM-PLAINTEXT"[..]
    );
}

#[test]
fn an_abr_stream_has_a_variant_for_each_bandwidth() {
    let spec = abr_spec(&master_playlist(1, 2, 3), true, Duration::from_millis(1_500));
    assert_eq!(spec.variant_count, 3);
    assert_eq!(spec.variant_bandwidths, Some(vec![1, 2, 3]));
    assert_eq!(
        spec.delay_rules,
        vec![DelayRule {
            variant: Some(2),
            segment_eq: Some(0),
            segment_gte: None,
            delay_ms: 1_500
        }]
    );
    assert_eq!(spec.head_reported_segment_size, Some(200_000));
    assert!(
        matches!(&spec.init_mode, InitMode::Custom(data) if data[1] == b"V1-INIT:".to_vec() && data.len() == 3)
    );
    let none = abr_spec("nothing", false, Duration::from_secs(0));
    assert_eq!(none.variant_count, 1);
    assert!(matches!(none.init_mode, InitMode::Absent));
}

fn served(config: &HlsTestServerConfig, variant: usize) -> Vec<u8> {
    let mut blobs = BlobStore::new();
    let spec = spec_from_config(config, &mut blobs);
    let stream = GeneratedHls::new(resolve_hls_spec(spec, &blobs, "c".into()).unwrap());
    let mut all = stream.init_bytes(variant).unwrap();
    for segment in 0..config.segments_per_variant {
        all.extend(stream.segment_bytes(variant, segment).unwrap());
    }
    all
}

#[test]
fn a_fixture_expects_what_its_stream_serves() {
    let bytes = |from: u8, n: u8| Arc::new((from..from + n).collect::<Vec<u8>>());
    let configs = vec![
        HlsTestServerConfig {
            segment_size: 40,
            ..HlsTestServerConfig::default()
        },
        HlsTestServerConfig {
            segment_size: 7,
            custom_data: Some(bytes(0, 21)),
            init_data_per_variant: Some(vec![bytes(100, 5), bytes(200, 3)]),
            variant_count: 2,
            ..HlsTestServerConfig::default()
        },
        HlsTestServerConfig {
            segment_size: 7,
            custom_data_per_variant: Some(vec![bytes(0, 21), bytes(50, 21)]),
            variant_count: 2,
            ..HlsTestServerConfig::default()
        },
    ];
    for config in configs {
        let all: Vec<Vec<u8>> = (0..config.variant_count)
            .map(|variant| served(&config, variant))
            .collect();
        let server = HlsTestServer::new(config, helper(), "t".into());
        assert_eq!(server.total_bytes(), all[0].len() as u64);
        for (variant, data) in all.iter().enumerate() {
            for (offset, byte) in data.iter().enumerate() {
                assert_eq!(server.expected_byte_at(variant, offset as u64), *byte);
            }
        }
    }
}

#[test]
fn bytes_past_what_was_given_are_zero() {
    let server = HlsTestServer::new(
        HlsTestServerConfig {
            custom_data: Some(Arc::new(vec![1, 2])),
            ..HlsTestServerConfig::default()
        },
        helper(),
        "t".into(),
    );
    assert_eq!(server.expected_byte_at(0, 1), 2);
    assert_eq!(server.expected_byte_at(0, 2), 0);
    assert_eq!(server.init_len(), 0);
    assert_eq!(server.config().segment_size, 200_000);
}

#[test]
fn a_configured_stream_reports_encrypted_segments_in_the_clear() {
    let mut blobs = BlobStore::new();
    let config = HlsTestServerConfig {
        encryption: Some(EncryptionConfig {
            key: [0xAB; 16],
            iv: Some([1; 16]),
        }),
        ..HlsTestServerConfig::default()
    };
    let spec = spec_from_config(&config, &mut blobs);
    assert_eq!(spec.head_reported_segment_size, Some(200_000));
    let request = spec.encryption.unwrap();
    assert_eq!(request.key_hex, "ab".repeat(16));
    assert_eq!(request.iv_hex, Some("01".repeat(16)));
    assert!(matches!(spec.data_mode, DataMode::TestPattern));
}

#[test]
fn the_fixed_master_playlist_names_three_bandwidths() {
    assert_eq!(
        parse_master_bandwidths(test_master_playlist()),
        vec![1_280_000, 2_560_000, 5_120_000]
    );
}

#[test]
fn a_media_playlist_lists_the_segments_of_its_variant() {
    for variant in [0usize, 2, 17] {
        let playlist = test_media_playlist(variant);
        assert!(playlist.starts_with("#EXTM3U\n"));
        assert!(playlist.ends_with("#EXT-X-ENDLIST\n"));
        let lines: Vec<&str> = playlist.lines().collect();
        let mut found = Vec::new();
        for (i, line) in lines.iter().enumerate() {
            if !line.starts_with('#') {
                assert_eq!(lines[i - 1], "#EXTINF:4.0,");
                found.push(parse_segment(&format!("/{line}")));
            }
        }
        assert_eq!(
            found,
            vec![Some((variant, 0)), Some((variant, 1)), Some((variant, 2))]
        );
    }
}

#[test]
fn an_init_segment_adds_one_line_to_the_playlist() {
    for variant in [0usize, 5] {
        let map = format!("#EXT-X-MAP:URI=\"init/v{variant}.bin\"\n#EXTINF");
        assert_eq!(
            test_media_playlist_with_init(variant),
            test_media_playlist(variant).replacen("#EXTINF", &map, 1)
        );
    }
}
