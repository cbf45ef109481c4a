use kithara::android::AndroidBackendError;
use kithara::buffer::{BudgetExhausted, PcmPool};
use kithara::bytes::{push_u16_le, push_u32_be, push_u32_le, sample_le};
use kithara::detector::BeatDetectError;
use kithara::hls_blob_store::{address_of_digest, BlobStore};
use kithara::item::TrackId;
use kithara::player::{settle, AudioPlayer, FfiError, FfiTransition, Queue, QueuedTrack};
use kithara::signal_source::{Sawtooth, SignalFn};
use kithara::text::{
    lines, parse_u64, parse_usize, push_decimal, split_once, strip_prefix, strip_suffix,
    trim_start, up_to,
};
use kithara::wav::{build_wav_header, create_saw_wav, create_test_wav};

struct ScriptedQueue {
    accepts: bool,
    asked: Vec<(TrackId, FfiTransition)>,
}

impl Queue for ScriptedQueue {
    fn select(&mut self, id: TrackId, transition: FfiTransition) -> bool {
        self.asked.push((id, transition));
        self.accepts
    }
}

fn player() -> AudioPlayer {
    let track = |id, loaded| QueuedTrack {
        id: TrackId(id),
        loaded,
    };
    AudioPlayer {
        tracks: vec![track(10, true), track(20, false)],
    }
}

#[test]
fn a_selection_is_refused_before_the_queue_is_asked() {
    let mut queue = ScriptedQueue {
        accepts: true,
        asked: Vec::new(),
    };
    let player = player();
    assert_eq!(
        player.select_item(&mut queue, 2, FfiTransition::Cut),
        Err(FfiError::InvalidArgument)
    );
    assert_eq!(
        player.select_item(&mut queue, 1, FfiTransition::Cut),
        Err(FfiError::NotReady)
    );
    assert_eq!(
        player.select(&mut queue, TrackId(20), FfiTransition::Cut),
        Err(FfiError::NotReady)
    );
    assert!(queue.asked.is_empty());
}

#[test]
fn the_queue_decides_what_is_ready() {
    let mut queue = ScriptedQueue {
        accepts: true,
        asked: Vec::new(),
    };
    let player = player();
    assert_eq!(
        player.select_item(&mut queue, 0, FfiTransition::Crossfade),
        Ok(())
    );
    queue.accepts = false;
    assert_eq!(
        player.select(&mut queue, TrackId(10), FfiTransition::Cut),
        Err(FfiError::Internal)
    );
    assert_eq!(
        queue.asked,
        vec![
            (TrackId(10), FfiTransition::Crossfade),
            (TrackId(10), FfiTransition::Cut)
        ]
    );
    assert_eq!(player.target_at_index(0), Ok(TrackId(10)));
    assert_eq!(player.target_of_track(TrackId(99)), Ok(TrackId(99)));
    assert_eq!(settle(Ok(TrackId(1)), false), Err(FfiError::Internal));
}

#[test]
fn android_errors_say_what_failed() {
    assert_eq!(
        AndroidBackendError::NotInitialized.message(),
        "android runtime was not initialized"
    );
    assert_eq!(
        AndroidBackendError::operation("attach", "no vm").message(),
        "android backend failed during attach: no vm"
    );
}

#[test]
fn detector_errors_say_what_failed() {
    assert_eq!(
        BeatDetectError::Buffer.message(),
        "beat analysis buffer budget exhausted"
    );
    assert_eq!(
        BeatDetectError::Init { reason: "x".into() }.message(),
        "beat detector init failed: x"
    );
    assert_eq!(
        BeatDetectError::Detect { reason: "y".into() }.message(),
        "beat detection failed: y"
    );
}

#[test]
fn a_blob_is_found_by_what_it_holds() {
    let mut blobs = BlobStore::new();
    let key = blobs.register_hls_blob(b"abc");
    assert_eq!(
        key,
        "sha256:ba7816bf8f01cfea414140de5dae2223b00361a396177a9cb410ff61f20015ad"
    );
    assert_eq!(blobs.register_hls_blob(b"abc"), key);
    assert_eq!(blobs.resolve_hls_blob(&key), Some(b"abc".to_vec()));
    assert_eq!(blobs.resolve_hls_blob("sha256:"), None);
    assert_eq!(address_of_digest(&[0x0f, 0xa0]), "sha256:0fa0");
}

#[test]
fn a_buffer_stays_inside_its_budget() {
    let mut buf = PcmPool::new(4).get();
    assert_eq!(buf.ensure_len(5), Err(BudgetExhausted));
    buf.append(&[1, 2, 3]);
    buf.append(&[4, 5]);
    assert_eq!(buf.as_slice(), &[1, 2, 3]);
    buf.pad(4);
    assert_eq!(buf.as_slice(), &[1, 2, 3, 0]);
    buf.pad(2);
    assert_eq!(buf.as_slice(), &[1, 2]);
    buf.drop_front(1);
    assert_eq!(buf.as_slice(), &[2]);
    buf.truncate(9);
    assert_eq!(buf.len(), 1);
    buf.clear();
    assert_eq!(buf.len(), 0);
}

#[test]
fn numbers_become_bytes() {
    let mut out = Vec::new();
    push_u16_le(&mut out, 0x0102);
    push_u32_le(&mut out, 0x0304_0506);
    push_u32_be(&mut out, 0x0708_090A);
    assert_eq!(out, vec![2, 1, 6, 5, 4, 3, 7, 8, 9, 10]);
    assert_eq!(sample_le(-2), (0xFE, 0xFF));
}

#[test]
fn a_header_has_every_field_in_its_place() {
    let header = build_wav_header(44_100, 2, Some(1_000));
    let mut wanted = Vec::new();
    wanted.extend_from_slice(b"RIFF");
    wanted.extend_from_slice(&1_036u32.to_le_bytes());
    wanted.extend_from_slice(b"WAVEfmt ");
    wanted.extend_from_slice(&16u32.to_le_bytes());
    wanted.extend_from_slice(&1u16.to_le_bytes());
    wanted.extend_from_slice(&2u16.to_le_bytes());
    wanted.extend_from_slice(&44_100u32.to_le_bytes());
    wanted.extend_from_slice(&176_400u32.to_le_bytes());
    wanted.extend_from_slice(&4u16.to_le_bytes());
    wanted.extend_from_slice(&16u16.to_le_bytes());
    wanted.extend_from_slice(b"data");
    wanted.extend_from_slice(&1_000u32.to_le_bytes());
    assert_eq!(header.to_vec(), wanted);
}

struct Sines;

impl SignalFn for Sines {
    fn sample(&self, frame: u64, _sample_rate: u32) -> i16 {
        ((frame as f32 * 0.1).sin() * 32767.0) as i16
    }
}

#[test]
fn a_test_wav_is_its_header_and_its_frames() {
    let wav = create_test_wav(&Sines, 3, 8_000, 2);
    assert_eq!(wav.len(), 44 + 12);
    assert_eq!(wav[..44], build_wav_header(8_000, 2, Some(12)));
    let second = ((0.1f32).sin() * 32767.0) as i16;
    assert_eq!(wav[48..50], second.to_le_bytes());
    assert_eq!(wav[50..52], second.to_le_bytes());
}

#[test]
fn a_saw_wav_has_exactly_the_size_asked_for() {
    for total in [44, 45, 48, 51, 1_000] {
        let wav = create_saw_wav(total);
        assert_eq!(wav.len(), total);
        let frames = (total - 44) / 4;
        assert_eq!(
            wav[..44],
            build_wav_header(44_100, 2, Some(frames as u64 * 4))
        );
        for frame in 0..frames {
            let wanted = Sawtooth.sample(frame as u64, 44_100).to_le_bytes();
            assert_eq!(wav[44 + frame * 4..46 + frame * 4], wanted);
            assert_eq!(wav[46 + frame * 4..48 + frame * 4], wanted);
        }
        assert!(wav[44 + frames * 4..].iter().all(|byte| *byte == 0));
    }
}

#[test]
fn text_is_taken_apart_as_std_does() {
    for text in ["", "a", "a\n", "a\r\nb", "\n\n", "a\nb\r", "\r\n", "x\n\r\ny"] {
        let wanted: Vec<&str> = text.lines().collect();
        assert_eq!(lines(text), wanted);
    }
    for text in ["", "0", "007", "+5", "+", "-1", "18446744073709551615",
        "18446744073709551616", "1 ", "++1", "12a"] {
        assert_eq!(parse_u64(text), text.parse::<u64>().ok());
        assert_eq!(parse_usize(text), text.parse::<usize>().ok());
    }
    assert_eq!(
        split_once("a_b_c", '_'),
        Some(("a".to_string(), "b_c".to_string()))
    );
    assert_eq!(split_once("abc", '_'), None);
    assert_eq!(up_to("1,2,3", ','), "1");
    assert_eq!(up_to("123", ','), "123");
    assert_eq!(trim_start("//a/", '/'), "a/");
    assert_eq!(strip_prefix("abc", "ab"), Some("c".to_string()));
    assert_eq!(strip_prefix("abc", "b"), None);
    assert_eq!(strip_suffix("abc", "bc"), Some("a".to_string()));
    assert_eq!(strip_suffix("abc", "abcd"), None);
    for n in [0, 9, 10, 1_234_567_890, u64::MAX] {
        let mut text = String::new();
        push_decimal(&mut text, n);
        assert_eq!(text, n.to_string());
        assert_eq!(parse_u64(&text), Some(n));
    }
}
