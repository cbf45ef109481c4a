use kithara::audio_encode::{
    build_format_args, build_source_args, needs_frame_size, CodecFacts, EncodePlan, EncodeStep,
    EncodeTarget, EncoderSettings, FeedCursor, SignalEncodeError,
};
use kithara::signal_pcm::{SignalLength, SignalPcm};
use kithara::signal_source::{Sawtooth, Silence};
use kithara::signal_url::SignalFormat;

#[test]
fn signal_format_mapping_matches_runtime_contract() {
    let cases = [
        (SignalFormat::Mp3, "mp3", "audio/mpeg", Some(128_000)),
        (SignalFormat::Flac, "flac", "audio/flac", None),
        (SignalFormat::Aac, "aac", "audio/aac", Some(128_000)),
        (SignalFormat::M4a, "m4a", "audio/mp4", Some(128_000)),
    ];

    for (format, ext, mime, bit_rate) in cases {
        let target = EncodeTarget::from_format(format);

        assert_eq!(target.ext, ext);
        assert_eq!(target.mime, mime);
        assert_eq!(target.bit_rate, bit_rate);
        assert!(!target.option_pairs.is_empty());
    }
}

#[test]
fn a_target_has_the_options_of_its_format() {
    let mp3 = EncodeTarget::from_format(SignalFormat::Mp3);
    assert_eq!(mp3.option_pairs, vec![("b", "128k")]);
    assert_eq!(mp3.file_name(), "signal.mp3");
    let flac = EncodeTarget::from_format(SignalFormat::Flac);
    assert_eq!(flac.option_pairs, vec![("compression_level", "5")]);
}

#[test]
fn a_signal_without_end_cannot_be_encoded() {
    let error = EncodeTarget::for_signal(SignalLength::Infinite, SignalFormat::Aac)
        .err()
        .unwrap();
    assert!(error.is_bad_request());
    assert_eq!(
        error.message(),
        "signal length mode is not supported for `aac`"
    );
    let finite = SignalLength::Finite { total_frames: 1 };
    assert_eq!(
        EncodeTarget::for_signal(finite, SignalFormat::M4a)
            .unwrap()
            .mime,
        "audio/mp4"
    );
}

#[test]
fn errors_say_what_failed() {
    for (error, text) in [
        (
            SignalEncodeError::Init("x".into()),
            "ffmpeg initialization failed: x",
        ),
        (
            SignalEncodeError::MissingOutputCodec("mp3"),
            "no output codec is registered for `mp3`",
        ),
        (
            SignalEncodeError::MissingEncoder("aac"),
            "no encoder is available for `aac`",
        ),
        (
            SignalEncodeError::Io("gone".into()),
            "failed to access encoded signal artifact: gone",
        ),
        (
            SignalEncodeError::Ffmpeg("bug".into()),
            "ffmpeg encode failed: bug",
        ),
    ] {
        assert!(!error.is_bad_request());
        assert_eq!(error.message(), text);
    }
}

#[test]
fn a_signal_is_fed_in_blocks_that_tile_it() {
    let pcm = SignalPcm::new(
        Sawtooth,
        44_100,
        2,
        SignalLength::Finite { total_frames: 2_500 },
    );
    let mut cursor = FeedCursor::new();
    let mut frames = Vec::new();
    let mut all = Vec::new();
    while let Some(block) = cursor.next_block(&pcm) {
        frames.push((block.pts, block.frames));
        all.extend(block.bytes);
    }
    assert_eq!(frames, vec![(0, 1024), (1024, 1024), (2048, 452)]);
    assert_eq!(Some(all.len() as u64), pcm.total_byte_len());
    let mut whole = vec![0u8; all.len()];
    assert_eq!(pcm.read_pcm_at(0, &mut whole), all.len());
    assert_eq!(whole, all);
    assert_eq!(all[4..8], [0x01, 0x80, 0x01, 0x80]);
    assert_eq!(pcm.sample_rate(), 44_100);
    assert_eq!(pcm.channels(), 2);
}

#[test]
fn a_signal_without_end_is_not_fed() {
    let pcm = SignalPcm::new(Silence, 44_100, 1, SignalLength::Infinite);
    assert!(FeedCursor::new().next_block(&pcm).is_none());
    assert_eq!(pcm.total_byte_len(), None);
    assert_eq!(pcm.length(), SignalLength::Infinite);
}

#[test]
fn a_filter_graph_is_told_both_ends() {
    assert_eq!(
        build_source_args(44_100, "s16", 3),
        "time_base=1/44100:sample_rate=44100:sample_fmt=s16:channel_layout=0x3"
    );
    assert_eq!(
        build_format_args(48_000, "fltp", 0x60f),
        "aformat=sample_fmts=fltp:sample_rates=48000:channel_layouts=0x60f"
    );
}

fn facts() -> CodecFacts<&'static str> {
    CodecFacts {
        found: true,
        takes_audio: true,
        global_header: true,
        best_layout: None,
        first_format: Some("fltp"),
    }
}

#[test]
fn an_encoder_is_set_up_from_what_it_says_of_itself() {
    let target = EncodeTarget::from_format(SignalFormat::Aac);
    let settings = EncoderSettings::choose_for(&target, 44_100, facts()).unwrap();
    assert_eq!(settings.rate, 44_100);
    assert_eq!(settings.layout, 3, "stereo where none is named");
    assert_eq!(settings.format, "fltp");
    assert_eq!(settings.bit_rate, Some(128_000));
    assert!(settings.global_header);
    let named = CodecFacts {
        best_layout: Some(4),
        ..facts()
    };
    let settings = EncoderSettings::choose_for(&target, 44_100, named).unwrap();
    assert_eq!(settings.layout, 4);
}

#[test]
fn an_encoder_that_cannot_be_set_up_says_why() {
    let target = EncodeTarget::from_format(SignalFormat::Mp3);
    let refuse = |facts: CodecFacts<&'static str>| {
        EncoderSettings::choose_for(&target, 44_100, facts)
            .err()
            .unwrap()
            .message()
    };
    assert_eq!(
        refuse(CodecFacts {
            found: false,
            takes_audio: false,
            ..facts()
        }),
        "no output codec is registered for `mp3`"
    );
    assert_eq!(
        refuse(CodecFacts {
            takes_audio: false,
            ..facts()
        }),
        "no encoder is available for `mp3`"
    );
    assert_eq!(
        refuse(CodecFacts {
            first_format: None,
            ..facts()
        }),
        "ffmpeg encode failed: Invalid data found when processing input"
    );
}

#[test]
fn a_sink_is_told_a_frame_size_where_the_codec_wants_one() {
    assert!(needs_frame_size(Some(false)));
    assert!(!needs_frame_size(Some(true)));
    assert!(!needs_frame_size(None));
}

#[test]
fn an_encoding_goes_from_header_to_trailer() {
    let pcm = SignalPcm::new(
        Silence,
        8_000,
        1,
        SignalLength::Finite { total_frames: 1_025 },
    );
    let mut plan = EncodePlan::new();
    let mut steps = Vec::new();
    loop {
        steps.push(match plan.next_step(&pcm) {
            EncodeStep::WriteHeader => "header".to_string(),
            EncodeStep::Feed(block) => format!("{}@{}", block.frames, block.pts),
            EncodeStep::FlushFilter => "flush".to_string(),
            EncodeStep::EndEncoder => "end".to_string(),
            EncodeStep::WriteTrailer => "trailer".to_string(),
            EncodeStep::Finished => break,
        });
    }
    assert_eq!(
        steps,
        vec!["header", "1024@0", "1@1024", "flush", "end", "trailer"]
    );
}
