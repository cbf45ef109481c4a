use kithara::buffer::PcmPool;
use kithara::producer::{AnalysisProducer, Offer, PcmSpec};
use kithara::ring;

fn spec(rate: u32, channels: u16) -> PcmSpec {
    PcmSpec {
        channels,
        sample_rate: rate,
    }
}

fn producer(frames: usize, ranges: usize) -> (AnalysisProducer, ring::Reader) {
    let (tx, rx) = ring::open(frames, ranges);
    (AnalysisProducer::new(tx, 44_100, "track-a".into()), rx)
}

fn bits(samples: &[f32]) -> Vec<u32> {
    samples.iter().map(|sample| sample.to_bits()).collect()
}

fn mean(frame: &[u32]) -> u32 {
    let sum: f32 = frame.iter().map(|sample| f32::from_bits(*sample)).sum();
    (sum * (1.0 / frame.len() as f32)).to_bits()
}

#[test]
fn the_mono_written_is_the_channel_mean() {
    let (mut producer, mut reader) = producer(64, 4);
    let mut out = PcmPool::new(1024).get();

    // Interleaved stereo: L, R, L, R.
    let pcm = bits(&[1.0, 3.0, -2.0, 0.0]);
    assert_eq!(
        producer.offer(&pcm, spec(44_100, 2), 512, mean),
        Offer::Taken,
        "the pass axis matches"
    );

    assert_eq!(reader.pop(&mut out), Some(512));
    assert_eq!(
        out.as_slice(),
        &bits(&[2.0, -1.0])[..],
        "each frame is the mean of its channels"
    );
}

#[test]
fn a_foreign_axis_is_refused_without_writing() {
    let (mut producer, mut reader) = producer(64, 4);
    let mut out = PcmPool::new(1024).get();

    assert_eq!(
        producer.offer(&bits(&[1.0, 1.0]), spec(48_000, 2), 0, mean),
        Offer::ForeignRate
    );
    assert_eq!(reader.pop(&mut out), None, "nothing reached the transport");
}

#[test]
fn a_full_transport_reports_the_range_untaken() {
    let (mut producer, _reader) = producer(2, 4);

    assert_eq!(
        producer.offer(&bits(&[1.0, 1.0]), spec(44_100, 2), 0, mean),
        Offer::Taken
    );
    assert_eq!(
        producer.offer(&bits(&[1.0, 1.0, 1.0, 1.0]), spec(44_100, 2), 1, mean),
        Offer::Full,
        "a range that does not fit is refused whole"
    );
}

#[test]
fn an_offered_range_survives_its_source_buffer() {
    let (mut producer, mut reader) = producer(64, 4);
    let pool = PcmPool::new(1024);

    let mut chunk = pool.get();
    chunk.ensure_len(16).expect("the test pool grows to 16");
    assert_eq!(
        producer.offer(chunk.as_slice(), spec(44_100, 2), 0, mean),
        Offer::Taken
    );

    // The caller is free to recycle the moment the call returns.
    drop(chunk);
    let mut out = pool.get();
    assert_eq!(reader.pop(&mut out), Some(0));
    assert_eq!(
        out.len(),
        8,
        "two channels of sixteen samples is eight frames"
    );
}

#[test]
fn a_pass_that_ended_refuses_as_closed() {
    let (mut producer, reader) = producer(64, 4);
    assert_eq!(
        producer.offer(&bits(&[1.0, 1.0]), spec(44_100, 2), 0, mean),
        Offer::Taken
    );

    drop(reader);
    assert_eq!(
        producer.offer(&bits(&[1.0, 1.0]), spec(44_100, 2), 1, mean),
        Offer::Closed,
        "a pass that dropped its half cannot be written to"
    );
}

#[test]
fn a_mono_source_passes_through_unchanged() {
    let (mut producer, mut reader) = producer(64, 4);
    let mut out = PcmPool::new(1024).get();

    let pcm = bits(&[0.25, -0.5, 0.75]);
    assert_eq!(producer.offer(&pcm, spec(44_100, 1), 0, mean), Offer::Taken);

    assert_eq!(reader.pop(&mut out), Some(0));
    assert_eq!(
        out.as_slice(),
        &pcm[..],
        "the mean of one channel is the channel itself"
    );
}

#[test]
fn a_source_of_no_channels_counts_as_mono() {
    let (mut producer, mut reader) = producer(64, 4);
    let mut out = PcmPool::new(1024).get();
    let pcm = bits(&[0.25, -0.5]);
    assert_eq!(producer.offer(&pcm, spec(44_100, 0), 7, mean), Offer::Taken);
    assert_eq!(reader.pop(&mut out), Some(7));
    assert_eq!(out.as_slice(), &pcm[..]);
    assert_eq!(producer.token(), "track-a");
}

#[test]
fn an_empty_range_is_not_taken() {
    let (mut producer, _reader) = producer(64, 4);
    assert_eq!(producer.offer(&[], spec(44_100, 2), 0, mean), Offer::Full);
    assert_eq!(
        producer.offer_while(false, &[], spec(44_100, 2), 0, mean),
        Offer::Closed
    );
}
