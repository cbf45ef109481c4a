use kithara::hls_blob_store::BlobStore;
use kithara::hls_spec::{
    resolve_hls_spec, DataMode, DelayRule, EncryptionRequest, HlsSpecError, InitMode, PcmPattern,
    ResolvedEncryption, ResolvedHlsSpec,
};
use kithara::hls_stream::{
    derive_iv, encrypt_aes128_cbc, generate_abr_binary_segment, generate_segment, GeneratedHls,
    GeneratedHlsCache,
};
use kithara::hls_url::HlsSpec;
use kithara::wav::build_wav_header;
use std::sync::Arc;

fn resolved(spec: HlsSpec) -> ResolvedHlsSpec {
    resolve_hls_spec(spec, &BlobStore::new(), "spec".to_string()).unwrap()
}

#[test]
fn builds_master_and_media_playlist() {
    let generated = GeneratedHls::new(resolved(HlsSpec::default()));
    assert!(generated
        .master_playlist("{encoded}")
        .contains("{encoded}/v0.m3u8"));
    assert!(generated
        .media_playlist(0)
        .unwrap()
        .contains("seg/v0_0.m4s"));
}

#[test]
fn encrypts_segment_payload() {
    let spec = resolved(HlsSpec {
        segments_per_variant: 1,
        segment_size: 32,
        data_mode: DataMode::TestPattern,
        encryption: Some(EncryptionRequest {
            key_hex: "30313233343536373839616263646566".to_string(),
            iv_hex: Some("00000000000000000000000000000000".to_string()),
        }),
        ..HlsSpec::default()
    });
    let generated = GeneratedHls::new(spec);
    let bytes = generated.segment_bytes(0, 0).unwrap();
    assert_ne!(bytes, generate_segment(0, 0, 32));
}

#[test]
fn a_default_stream_has_exactly_these_playlists() {
    let generated = GeneratedHls::new(resolved(HlsSpec::default()));
    assert_eq!(
        generated.master_playlist("x"),
        "#EXTM3U\n#EXT-X-VERSION:6\n#EXT-X-STREAM-INF:BANDWIDTH=1280000\nx/v0.m3u8\n"
    );
    assert_eq!(
        generated.media_playlist(0),
        Some(
            "#EXTM3U\n#EXT-X-VERSION:6\n#EXT-X-TARGETDURATION:4\n#EXT-X-MEDIA-SEQUENCE:0\n\
             #EXT-X-PLAYLIST-TYPE:VOD\n#EXTINF:4.0,\nseg/v0_0.m4s\n#EXTINF:4.0,\nseg/v0_1.m4s\n\
             #EXTINF:4.0,\nseg/v0_2.m4s\n#EXT-X-ENDLIST\n"
        )
    );
    assert_eq!(generated.media_playlist(1), None);
    assert_eq!(generated.key_bytes(), None);
    assert_eq!(generated.init_bytes(0), Some(Vec::new()));
    assert_eq!(generated.init_bytes(1), None);
}

#[test]
fn an_encrypted_stream_names_its_key_and_its_init_segment() {
    let generated = GeneratedHls::new(resolved(HlsSpec {
        segments_per_variant: 1,
        init_mode: InitMode::TestInit,
        variant_bandwidths: Some(vec![7, 9]),
        variant_count: 2,
        encryption: Some(EncryptionRequest {
            key_hex: "000102030405060708090A0B0C0D0E0F".to_string(),
            iv_hex: Some("000000000000000000000000000000ff".to_string()),
        }),
        ..HlsSpec::default()
    }));
    assert_eq!(
        generated.media_playlist(1),
        Some(
            "#EXTM3U\n#EXT-X-VERSION:6\n#EXT-X-TARGETDURATION:4\n#EXT-X-MEDIA-SEQUENCE:0\n\
             #EXT-X-PLAYLIST-TYPE:VOD\n#EXT-X-MAP:URI=\"init/v1.mp4\"\n\
             #EXT-X-KEY:METHOD=AES-128,URI=\"../key.bin\",IV=0x000000000000000000000000000000ff\n\
             #EXTINF:4.0,\nseg/v1_0.m4s\n#EXT-X-ENDLIST\n"
        )
    );
    assert_eq!(
        generated.master_playlist("s"),
        "#EXTM3U\n#EXT-X-VERSION:6\n#EXT-X-STREAM-INF:BANDWIDTH=7\ns/v0.m3u8\n\
         #EXT-X-STREAM-INF:BANDWIDTH=9\ns/v1.m3u8\n"
    );
    assert_eq!(generated.key_bytes(), Some((0u8..16).collect()));
    // "V1-INIT:TEST_INIT_DATA" is 22 bytes, padded to two blocks.
    assert_eq!(generated.init_bytes(1).unwrap().len(), 32);
}

#[test]
fn aes128_cbc_meets_a_published_vector() {
    // NIST SP 800-38A, F.2.1, first block; the padding block follows it.
    let key = [
        0x2b, 0x7e, 0x15, 0x16, 0x28, 0xae, 0xd2, 0xa6, 0xab, 0xf7, 0x15, 0x88, 0x09, 0xcf, 0x4f,
        0x3c,
    ];
    let iv: [u8; 16] = [0, 1, 2, 3, 4, 5, 6, 7, 8, 9, 10, 11, 12, 13, 14, 15];
    let plain = [
        0x6b, 0xc1, 0xbe, 0xe2, 0x2e, 0x40, 0x9f, 0x96, 0xe9, 0x3d, 0x7e, 0x11, 0x73, 0x93, 0x17,
        0x2a,
    ];
    let cipher = encrypt_aes128_cbc(&plain, &key, &iv);
    assert_eq!(cipher.len(), 32);
    assert_eq!(
        cipher[..16],
        [
            0x76, 0x49, 0xab, 0xac, 0x81, 0x19, 0xb2, 0x46, 0xce, 0xe9, 0x8e, 0x9b, 0x12, 0xe9,
            0x19, 0x7d
        ]
    );
}

#[test]
fn the_reported_length_is_the_served_one() {
    for (encryption, size, wanted) in [
        (None, 100usize, 100usize),
        (Some("00112233445566778899aabbccddeeff"), 100, 112),
        (Some("00112233445566778899aabbccddeeff"), 96, 112),
    ] {
        let generated = GeneratedHls::new(resolved(HlsSpec {
            segment_size: size,
            encryption: encryption.map(|key| EncryptionRequest {
                key_hex: key.to_string(),
                iv_hex: None,
            }),
            head_reported_segment_size: Some(5),
            ..HlsSpec::default()
        }));
        assert_eq!(generated.segment_len(0, 1, false), Some(wanted));
        assert_eq!(generated.segment_bytes(0, 1).unwrap().len(), wanted);
        assert_eq!(generated.segment_len(0, 1, true), Some(5));
        assert_eq!(generated.segment_len(0, 3, true), None);
        assert_eq!(generated.segment_bytes(1, 0), None);
    }
}

#[test]
fn the_vector_of_a_segment_is_its_number_unless_one_is_given() {
    let numbered = ResolvedEncryption {
        key: [0; 16],
        iv: None,
    };
    let mut wanted = [0u8; 16];
    wanted[14] = 1;
    wanted[15] = 2;
    assert_eq!(derive_iv(&numbered, 258), wanted);
    let given = ResolvedEncryption {
        key: [0; 16],
        iv: Some([9; 16]),
    };
    assert_eq!(derive_iv(&given, 258), [9; 16]);
    assert_eq!(given.iv_hex(), Some("09".repeat(16)));
    assert_eq!(numbered.iv_hex(), None);
}

#[test]
fn a_test_segment_is_its_prefix_filled_up() {
    let data = generate_segment(1, 12, 40);
    assert_eq!(&data[..27], b"V1-SEG-12:TEST_SEGMENT_DATA");
    assert!(data[27..].iter().all(|byte| *byte == 0xFF));
    assert_eq!(data.len(), 40);
    assert_eq!(generate_segment(1, 12, 4), b"V1-S");
}

#[test]
fn an_abr_segment_is_framed() {
    let data = generate_abr_binary_segment(1, 0x0102);
    assert_eq!(data.len(), 200_000);
    assert_eq!(data[..9], [1, 0, 0, 1, 2, 0, 3, 0x0d, 0x37]);
    assert!(data[9..].iter().all(|byte| *byte == b'A'));
    assert_eq!(generate_abr_binary_segment(2, 0).len(), 50_000);
    assert_eq!(generate_abr_binary_segment(2, 1).len(), 200_000);
}

#[test]
fn shared_bytes_are_cut_into_segments() {
    let mut blobs = BlobStore::new();
    let data: Vec<u8> = (0..10).collect();
    let key = blobs.register_hls_blob(&data);
    let spec = HlsSpec {
        segment_size: 4,
        segments_per_variant: 4,
        data_mode: DataMode::BlobRef(key),
        ..HlsSpec::default()
    };
    let generated = GeneratedHls::new(resolve_hls_spec(spec, &blobs, "s".into()).unwrap());
    assert_eq!(generated.segment_bytes(0, 0), Some(vec![0, 1, 2, 3]));
    assert_eq!(generated.segment_bytes(0, 2), Some(vec![8, 9]));
    assert_eq!(generated.segment_bytes(0, 3), Some(Vec::new()));
}

#[test]
fn a_variant_without_bytes_has_no_segments() {
    let generated = GeneratedHls::new(resolved(HlsSpec {
        variant_count: 2,
        segment_size: 2,
        data_mode: DataMode::CustomDataPerVariant(vec![vec![1, 2, 3]]),
        init_mode: InitMode::Custom(vec![vec![5]]),
        ..HlsSpec::default()
    }));
    assert_eq!(generated.segment_bytes(0, 1), Some(vec![3]));
    assert_eq!(generated.segment_bytes(1, 0), None);
    assert_eq!(generated.init_bytes(0), Some(vec![5]));
    assert_eq!(generated.init_bytes(1), Some(Vec::new()));
    assert!(generated.media_playlist(0).unwrap().contains("EXT-X-MAP"));
    assert!(!generated.media_playlist(1).unwrap().contains("EXT-X-MAP"));
}

#[test]
fn generated_waves_fill_the_segments() {
    let wav = GeneratedHls::new(resolved(HlsSpec {
        segment_size: 48,
        segments_per_variant: 2,
        data_mode: DataMode::SawWav {
            sample_rate: 8_000,
            channels: 1,
        },
        init_mode: InitMode::WavHeader {
            sample_rate: 8_000,
            channels: 1,
        },
        ..HlsSpec::default()
    }));
    let first = wav.segment_bytes(0, 0).unwrap();
    assert_eq!(first[..44], build_wav_header(8_000, 1, Some(96)));
    assert_eq!(first[44..], [0x00, 0x80, 0x01, 0x80]);
    assert_eq!(
        wav.init_bytes(0).unwrap(),
        build_wav_header(8_000, 1, None).to_vec()
    );

    let pcm = GeneratedHls::new(resolved(HlsSpec {
        variant_count: 2,
        segment_size: 4,
        segments_per_variant: 1,
        data_mode: DataMode::PerVariantPcm {
            sample_rate: 8_000,
            channels: 1,
            patterns: vec![PcmPattern::Descending],
        },
        ..HlsSpec::default()
    }));
    assert_eq!(pcm.segment_bytes(0, 0), Some(vec![0xFF, 0x7F, 0xFE, 0x7F]));
    assert_eq!(pcm.segment_bytes(1, 0), Some(vec![0x00, 0x80, 0x01, 0x80]));
}

#[test]
fn the_first_rule_for_a_segment_delays_it() {
    let rule = |variant, segment_eq, segment_gte, delay_ms| DelayRule {
        variant,
        segment_eq,
        segment_gte,
        delay_ms,
    };
    let generated = GeneratedHls::new(resolved(HlsSpec {
        delay_rules: vec![
            rule(Some(2), Some(0), None, 50),
            rule(None, None, Some(3), 7),
            rule(Some(2), None, None, 9),
        ],
        ..HlsSpec::default()
    }));
    assert_eq!(generated.segment_delay_ms(2, 0), 50);
    assert_eq!(generated.segment_delay_ms(2, 3), 7);
    assert_eq!(generated.segment_delay_ms(2, 1), 9);
    assert_eq!(generated.segment_delay_ms(1, 1), 0);
}

#[test]
fn a_description_that_cannot_be_resolved_says_why() {
    let blobs = BlobStore::new();
    let refuse = |spec: HlsSpec| {
        resolve_hls_spec(spec, &blobs, String::new())
            .err()
            .unwrap()
            .message()
    };
    assert_eq!(
        refuse(HlsSpec {
            data_mode: DataMode::BlobRefs(vec!["sha256:nope".into()]),
            ..HlsSpec::default()
        }),
        "no blob is registered under sha256:nope"
    );
    assert_eq!(
        refuse(HlsSpec {
            encryption: Some(EncryptionRequest {
                key_hex: "00".into(),
                iv_hex: None
            }),
            ..HlsSpec::default()
        }),
        "the key is not valid hexadecimal"
    );
    assert_eq!(
        refuse(HlsSpec {
            encryption: Some(EncryptionRequest {
                key_hex: "00".repeat(16),
                iv_hex: Some("0g".repeat(16))
            }),
            ..HlsSpec::default()
        }),
        "the initialisation vector is not valid hexadecimal"
    );
    assert!(matches!(
        resolve_hls_spec(
            HlsSpec {
                key_hex: Some("abc".into()),
                ..HlsSpec::default()
            },
            &blobs,
            String::new()
        ),
        Err(HlsSpecError::InvalidKey)
    ));
    assert!(matches!(
        resolve_hls_spec(
            HlsSpec {
                key_blob_ref: Some("missing".into()),
                ..HlsSpec::default()
            },
            &blobs,
            String::new()
        ),
        Err(HlsSpecError::MissingBlob(key)) if key == "missing"
    ));
}

#[test]
fn a_key_to_serve_comes_before_the_one_that_encrypts() {
    let generated = GeneratedHls::new(resolved(HlsSpec {
        key_hex: Some("0aFF".into()),
        encryption: Some(EncryptionRequest {
            key_hex: "11".repeat(16),
            iv_hex: None,
        }),
        ..HlsSpec::default()
    }));
    assert_eq!(generated.key_bytes(), Some(vec![0x0a, 0xff]));
    assert!(generated
        .media_playlist(0)
        .unwrap()
        .contains("#EXT-X-KEY:METHOD=AES-128,URI=\"../key.bin\"\n"));
}

#[test]
fn a_cached_stream_is_generated_once() {
    let mut cache = GeneratedHlsCache::new();
    let first = cache.load_hls(resolved(HlsSpec::default()));
    let second = cache.load_hls(resolved(HlsSpec {
        variant_count: 5,
        ..HlsSpec::default()
    }));
    assert!(Arc::ptr_eq(&first, &second));
    assert_eq!(second.media_playlist(4), None);
}

fn shared_stream(bytes: Vec<u8>, segments: usize, size: usize, encrypted: bool) -> GeneratedHls {
    let mut blobs = BlobStore::new();
    let key = blobs.register_hls_blob(&bytes);
    let spec = HlsSpec {
        variant_count: 2,
        segments_per_variant: segments,
        segment_size: size,
        data_mode: DataMode::BlobRef(key),
        encryption: if encrypted {
            Some(EncryptionRequest {
                key_hex: "30313233343536373839616263646566".to_string(),
                iv_hex: None,
            })
        } else {
            None
        },
        ..HlsSpec::default()
    };
    GeneratedHls::new(resolve_hls_spec(spec, &blobs, "shared".to_string()).unwrap())
}

#[test]
fn segments_join_to_the_shared_bytes() {
    let bytes: Vec<u8> = (1..=23).collect();
    for (segments, size, reach) in [(3usize, 10usize, 23usize), (2, 10, 20), (4, 10, 23)] {
        let stream = shared_stream(bytes.clone(), segments, size, false);
        for variant in 0..2 {
            let mut joined = Vec::new();
            for segment in 0..segments {
                let part = stream.segment_plaintext(variant, segment).unwrap();
                assert_eq!(stream.segment_bytes(variant, segment), Some(part.clone()));
                assert!(part.len() <= size);
                joined.extend(part);
            }
            assert_eq!(joined, bytes[..reach].to_vec());
            assert_eq!(stream.segment_bytes(variant, segments), None);
        }
        assert_eq!(stream.segment_bytes(2, 0), None);
    }
    let long = shared_stream(bytes, 4, 10, false);
    assert_eq!(long.segment_bytes(0, 3), Some(Vec::new()));
}

#[test]
fn a_short_payload_leaves_room_whatever_the_segment_size() {
    let stream = shared_stream(vec![1, 2, 3], 1, usize::MAX, true);
    assert!(stream.segment_leaves_room(0, 0));
    assert!(stream.init_leaves_room(0));
    assert_eq!(stream.segment_len(0, 0, false), Some(16));
    assert_eq!(stream.segment_len(0, 0, true), Some(3));
    assert_eq!(stream.segment_bytes(0, 0).map(|bytes| bytes.len()), Some(16));
    assert!(stream.segment_leaves_room(0, 7), "there is no such segment");
}

#[test]
fn an_encrypted_init_segment_is_padded_to_whole_blocks() {
    let generated = GeneratedHls::new(resolved(HlsSpec {
        init_mode: InitMode::Custom(vec![vec![7; 16]]),
        encryption: Some(EncryptionRequest {
            key_hex: "30313233343536373839616263646566".to_string(),
            iv_hex: None,
        }),
        ..HlsSpec::default()
    }));
    assert_eq!(generated.init_bytes(0).map(|bytes| bytes.len()), Some(32));
}

#[test]
fn a_blob_is_addressed_by_its_digest() {
    let key = BlobStore::new().register_hls_blob(b"");
    assert_eq!(
        key,
        "sha256:e3b0c44298fc1c149afbf4c8996fb92427ae41e4649b934ca495991b7852b855"
    );
    assert_eq!(key.len(), 71);
}
