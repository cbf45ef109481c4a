use kithara::signal_source::{
    AudioCodec, ContainerFormat, ReadOutcome, Sawtooth, SawtoothDescending, SignalFn, SignalSource,
    SignalSourceError, SignalStream, SignalStreamConfig, Silence, SourcePhase, WaitOutcome,
};
use std::f64::consts::PI;
use std::time::Duration;

/// Pure sine wave at the given frequency in Hz.
struct SineWave(f64);

impl SignalFn for SineWave {
    fn sample(&self, frame: u64, sample_rate: u32) -> i16 {
        let t = frame as f64 / sample_rate as f64;
        (f64::sin(2.0 * PI * self.0 * t) * 32767.0) as i16
    }
}

fn duration_to_frames(duration: Duration, sample_rate: u32) -> u64 {
    (duration.as_secs_f64() * sample_rate as f64) as u64
}

fn finite<S: SignalFn>(
    signal: S,
    sample_rate: u32,
    channels: u16,
    duration: Duration,
) -> SignalSource<S> {
    SignalSource::finite(
        signal,
        sample_rate,
        channels,
        duration_to_frames(duration, sample_rate),
    )
}

#[test]
fn infinite_len_is_none() {
    let src = SignalSource::infinite(Silence, 44100, 2);
    assert_eq!(src.len(), None);
}

#[test]
fn finite_len() {
    let src = finite(Silence, 44100, 2, Duration::from_secs(1));
    // 44100 frames * 2 channels * 2 bytes + 44 header
    assert_eq!(src.len(), Some(44 + 44100 * 2 * 2));
}

#[test]
fn wav_header_magic() {
    let mut src = SignalSource::infinite(Silence, 44100, 2);
    let mut buf = [0u8; 44];
    let result = src.read_at(0, &mut buf).unwrap();
    assert_eq!(result, ReadOutcome::Data(44));
    assert_eq!(&buf[0..4], b"RIFF");
    assert_eq!(&buf[8..12], b"WAVE");
    assert_eq!(&buf[36..40], b"data");
}

#[test]
fn wav_header_sample_rate() {
    let mut src = SignalSource::infinite(Silence, 48000, 1);
    let mut buf = [0u8; 44];
    src.read_at(0, &mut buf).unwrap();
    let rate = u32::from_le_bytes([buf[24], buf[25], buf[26], buf[27]]);
    assert_eq!(rate, 48000);
}

#[test]
fn wav_header_channels() {
    let mut src = SignalSource::infinite(Silence, 44100, 2);
    let mut buf = [0u8; 44];
    src.read_at(0, &mut buf).unwrap();
    let ch = u16::from_le_bytes([buf[22], buf[23]]);
    assert_eq!(ch, 2);
}

#[test]
fn finite_header_has_real_sizes() {
    let src = finite(Silence, 44100, 2, Duration::from_secs(1));
    let data_size = 44100u64 * 2 * 2;
    let file_size = 36 + data_size;
    let h = src.header();
    assert_eq!(
        u32::from_le_bytes([h[4], h[5], h[6], h[7]]),
        file_size as u32
    );
    assert_eq!(
        u32::from_le_bytes([h[40], h[41], h[42], h[43]]),
        data_size as u32
    );
}

#[test]
fn infinite_header_has_streaming_sizes() {
    let src = SignalSource::infinite(Silence, 44100, 2);
    let h = src.header();
    assert_eq!(u32::from_le_bytes([h[4], h[5], h[6], h[7]]), 0xFFFF_FFFF);
    assert_eq!(
        u32::from_le_bytes([h[40], h[41], h[42], h[43]]),
        0xFFFF_FFFF
    );
}

#[test]
fn sawtooth_on_demand() {
    let mut src = SignalSource::infinite(Sawtooth, 44100, 1);
    // Read first 4 PCM bytes (2 frames, mono)
    let mut buf = [0u8; 4];
    src.read_at(44, &mut buf).unwrap();

    // Frame 0: (0 % 65536) - 32768 = -32768
    let s0 = i16::from_le_bytes([buf[0], buf[1]]);
    assert_eq!(s0, -32768);

    // Frame 1: (1 % 65536) - 32768 = -32767
    let s1 = i16::from_le_bytes([buf[2], buf[3]]);
    assert_eq!(s1, -32767);
}

#[test]
fn sawtooth_descending() {
    let mut src = SignalSource::infinite(SawtoothDescending, 44100, 1);
    let mut buf = [0u8; 2];
    src.read_at(44, &mut buf).unwrap();
    let s0 = i16::from_le_bytes([buf[0], buf[1]]);
    assert_eq!(s0, 32767);
}

#[test]
fn sine_first_sample_is_zero() {
    let mut src = SignalSource::infinite(SineWave(440.0), 44100, 1);
    let mut buf = [0u8; 2];
    src.read_at(44, &mut buf).unwrap();
    let s0 = i16::from_le_bytes([buf[0], buf[1]]);
    // sin(0) = 0
    assert_eq!(s0, 0);
}

#[test]
fn silence_all_zeros() {
    let mut src = finite(Silence, 44100, 2, Duration::from_millis(10));
    let pcm_bytes = 44100 * 2 * 2 / 100; // 10ms
    let mut buf = vec![0xFFu8; pcm_bytes as usize];
    src.read_at(44, &mut buf).unwrap();
    assert!(buf.iter().all(|&b| b == 0));
}

#[test]
fn finite_eof() {
    let mut src = finite(Silence, 44100, 1, Duration::from_millis(1));
    let total = src.len().unwrap();
    let mut buf = [0u8; 16];
    let result = src.read_at(total, &mut buf).unwrap();
    assert_eq!(result, ReadOutcome::Data(0));
}

#[test]
fn infinite_always_ready() {
    let src = SignalSource::infinite(Silence, 44100, 2);
    assert_eq!(src.phase_at(0..1), SourcePhase::Ready);
    assert_eq!(src.phase_at(u64::MAX - 1..u64::MAX), SourcePhase::Ready);
}

#[test]
fn finite_phase_eof_past_end() {
    let src = finite(Silence, 44100, 1, Duration::from_secs(1));
    let total = src.len().unwrap();
    assert_eq!(src.phase_at(0..1), SourcePhase::Ready);
    assert_eq!(src.phase_at(total..total + 1), SourcePhase::Eof);
}

#[test]
fn media_info_correct() {
    let src = SignalSource::infinite(Silence, 48000, 2);
    let info = src.media_info().unwrap();
    assert_eq!(info.codec, Some(AudioCodec::Pcm));
    assert_eq!(info.container, Some(ContainerFormat::Wav));
    assert_eq!(info.sample_rate, Some(48000));
    assert_eq!(info.channels, Some(2));
}

#[test]
fn partial_frame_read() {
    let mut src = SignalSource::infinite(Sawtooth, 44100, 2);
    // Read 1 byte at offset 45 (middle of first frame, stereo = 4 bytes/frame)
    let mut buf = [0u8; 1];
    let result = src.read_at(45, &mut buf).unwrap();
    assert_eq!(result, ReadOutcome::Data(1));
    // Frame 0, byte 1 of LE i16 (-32768 = 0x8000 LE = [0x00, 0x80])
    assert_eq!(buf[0], 0x80);
}

#[test]
fn stereo_duplicates_channels() {
    let mut src = SignalSource::infinite(Sawtooth, 44100, 2);
    // One stereo frame = 4 bytes (L_lo, L_hi, R_lo, R_hi)
    let mut buf = [0u8; 4];
    src.read_at(44, &mut buf).unwrap();
    // Both channels should be the same sample
    assert_eq!(buf[0], buf[2]); // lo bytes
    assert_eq!(buf[1], buf[3]); // hi bytes
}

#[test]
fn read_spanning_header_and_pcm() {
    let mut src = SignalSource::infinite(Silence, 44100, 1);
    // Read 48 bytes starting at offset 40 (4 header + 4 PCM)
    let mut buf = [0xFFu8; 8];
    let result = src.read_at(40, &mut buf).unwrap();
    assert_eq!(result, ReadOutcome::Data(8));
    // Last 4 bytes of header (data chunk size 0xFFFFFFFF)
    assert_eq!(&buf[0..4], &0xFFFF_FFFFu32.to_le_bytes());
    // First 4 bytes of PCM (silence = 0)
    assert_eq!(&buf[4..8], &[0, 0, 0, 0]);
}

#[test]
fn signal_stream_creates_stream() {
    let src = SignalSource::infinite(SineWave(440.0), 44100, 2);
    let stream = SignalStream::create(SignalStreamConfig { source: Some(src) }).unwrap();
    assert_eq!(stream.len(), None);
}

#[test]
fn custom_signal_fn() {
    struct Constant(i16);
    impl SignalFn for Constant {
        fn sample(&self, _frame: u64, _sample_rate: u32) -> i16 {
            self.0
        }
    }

    let mut src = SignalSource::infinite(Constant(1000), 44100, 1);
    let mut buf = [0u8; 2];
    src.read_at(44, &mut buf).unwrap();
    assert_eq!(i16::from_le_bytes(buf), 1000);
}

#[test]
fn a_stream_without_a_source_is_refused() {
    let config = SignalStreamConfig::<Silence>::default();
    let error = SignalStream::create(config).err();
    assert_eq!(error, Some("no source".to_string()));
    assert_eq!(SignalSourceError.message(), "signal source error");
}

#[test]
fn reads_that_follow_one_another_join() {
    let mut src = SignalSource::finite(Sawtooth, 8_000, 3, 7);
    let mut whole = vec![0u8; 200];
    let ReadOutcome::Data(total) = src.read_at(0, &mut whole).unwrap();
    assert_eq!(total, 44 + 7 * 3 * 2);

    let mut parts = Vec::new();
    let mut buf = [0u8; 5];
    loop {
        let ReadOutcome::Data(n) = src.read_at(parts.len() as u64, &mut buf).unwrap();
        if n == 0 {
            break;
        }
        parts.extend_from_slice(&buf[..n]);
    }
    assert_eq!(parts, whole[..total]);
}

#[test]
fn a_short_read_leaves_the_rest_of_the_buffer() {
    let mut src = SignalSource::finite(Silence, 8_000, 1, 1);
    let mut buf = [7u8; 6];
    assert_eq!(src.read_at(44, &mut buf).unwrap(), ReadOutcome::Data(2));
    assert_eq!(buf, [0, 0, 7, 7, 7, 7]);
    assert_eq!(src.wait_range(45..46).unwrap(), WaitOutcome::Ready);
    assert_eq!(src.wait_range(46..47).unwrap(), WaitOutcome::Eof);
}

#[test]
fn a_sawtooth_repeats_after_its_period() {
    assert_eq!(Sawtooth.sample(65_535, 1), 32_767);
    assert_eq!(Sawtooth.sample(65_536, 1), -32_768);
    assert_eq!(SawtoothDescending.sample(65_535, 1), -32_768);
    assert_eq!(SawtoothDescending.sample(65_536, 1), 32_767);
}
