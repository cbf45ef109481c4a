use kithara::buffer::{PcmBuf, PcmPool};
use kithara::ring::{open, open_for};

fn buf() -> PcmBuf {
    PcmPool::new(1024).get()
}

fn bits(samples: &[f32]) -> Vec<u32> {
    samples.iter().map(|sample| sample.to_bits()).collect()
}

#[test]
fn a_range_comes_out_the_way_it_went_in() {
    let (mut tx, mut rx) = open(64, 4);
    let mut out = buf();
    let first = bits(&[1.0, 2.0, 3.0, 4.0]);
    let second = bits(&[5.0, 6.0]);

    assert!(tx.push(100, 4, |i| first[i]));
    assert!(tx.push(200, 2, |i| second[i]));

    assert_eq!(rx.pop(&mut out), Some(100));
    assert_eq!(out.as_slice(), &first[..]);
    assert_eq!(rx.pop(&mut out), Some(200));
    assert_eq!(out.as_slice(), &second[..]);
    assert_eq!(rx.pop(&mut out), None, "the ring is drained");
}

#[test]
fn a_full_ring_refuses_whole_ranges() {
    let (mut tx, mut rx) = open(8, 4);
    let mut out = buf();

    assert!(tx.push(0, 8, |_| 1.0f32.to_bits()));
    assert!(
        !tx.push(8, 1, |_| 2.0f32.to_bits()),
        "no room left for a single frame"
    );

    assert_eq!(rx.pop(&mut out), Some(0));
    assert_eq!(out.len(), 8, "the refused range left the first one intact");
    assert_eq!(rx.pop(&mut out), None, "the refusal wrote nothing");
}

#[test]
fn a_full_descriptor_ring_refuses_even_with_room_for_samples() {
    let (mut tx, mut rx) = open(64, 2);
    let mut out = buf();

    assert!(tx.push(0, 1, |_| 1.0f32.to_bits()));
    assert!(tx.push(1, 1, |_| 2.0f32.to_bits()));
    assert!(
        !tx.push(2, 1, |_| 3.0f32.to_bits()),
        "there are only two range slots"
    );

    assert_eq!(rx.pop(&mut out), Some(0));
    assert_eq!(rx.pop(&mut out), Some(1));
    assert_eq!(rx.pop(&mut out), None);
}

#[test]
fn draining_frees_the_room_it_read() {
    let (mut tx, mut rx) = open(8, 4);
    let mut out = buf();

    assert!(tx.push(0, 8, |_| 1.0f32.to_bits()));
    assert!(!tx.push(8, 4, |_| 2.0f32.to_bits()));
    assert_eq!(rx.pop(&mut out), Some(0));
    assert!(
        tx.push(8, 4, |_| 2.0f32.to_bits()),
        "a drained ring takes the range it refused"
    );

    assert_eq!(rx.pop(&mut out), Some(8));
    assert_eq!(out.as_slice(), &bits(&[2.0, 2.0, 2.0, 2.0])[..]);
}

#[test]
fn a_range_that_outgrows_the_buffer_is_dropped_with_its_samples() {
    let (mut tx, mut rx) = open(64, 4);
    let mut small = PcmPool::new(2).get();
    let mono = [1, 2, 3, 4, 5];
    assert!(tx.push(10, 3, |i| mono[i]));
    assert!(tx.push(20, 2, |i| mono[3 + i]));
    assert_eq!(rx.pop(&mut small), None);
    assert_eq!(rx.pop(&mut small), Some(20));
    assert_eq!(small.as_slice(), &[4, 5]);
}

#[test]
fn a_transport_for_a_rate_holds_four_seconds() {
    let (mut tx, _rx) = open_for(10);
    assert!(tx.is_open());
    assert!(!tx.push(0, 41, |_| 0));
    assert!(tx.push(0, 40, |_| 0));
    assert!(!tx.push(40, 1, |_| 0));
}

#[test]
fn a_dropped_reader_closes_the_transport() {
    let (tx, rx) = open(4, 4);
    assert!(tx.is_open());
    drop(rx);
    assert!(!tx.is_open());
}

#[test]
fn a_descriptor_says_what_is_read() {
    let (mut tx, mut rx) = open(64, 4);
    let mono = [1, 2, 3, 4, 5];
    assert!(tx.push(0, 5, |i| mono[i]));
    let mut out = PcmPool::new(3).get();
    out.append(&[9]);
    assert_eq!(rx.read_span(None, &mut out), None);
    assert_eq!(out.as_slice(), &[9]);
    assert_eq!(rx.read_span(Some((70, 2)), &mut out), Some(70));
    assert_eq!(out.as_slice(), &[1, 2]);
    assert_eq!(rx.read_span(Some((80, 4)), &mut out), None, "no room for four");
    assert_eq!(out.len(), 0);
}

#[test]
fn room_comes_back_once_a_range_is_read() {
    let (mut tx, mut rx) = open(8, 2);
    let mut out = buf();
    assert!(tx.push(0, 6, |i| i as u32 + 1));
    assert!(!tx.push(6, 3, |_| 9), "three frames more than wait would fit");
    assert!(tx.push(6, 2, |i| i as u32 + 7));
    assert_eq!(rx.pop(&mut out), Some(0));
    assert_eq!(out.as_slice(), &[1, 2, 3, 4, 5, 6]);
    assert!(tx.push(8, 6, |i| i as u32 + 9), "what was read has room again");
    assert_eq!(rx.pop(&mut out), Some(6));
    assert_eq!(out.as_slice(), &[7, 8]);
    assert_eq!(rx.pop(&mut out), Some(8));
    assert_eq!(out.as_slice(), &[9, 10, 11, 12, 13, 14]);
}

#[test]
fn a_range_longer_than_the_ring_is_refused() {
    let (mut tx, mut rx) = open(8, 4);
    let mut out = buf();
    assert!(!tx.push(0, 9, |_| 1));
    assert!(tx.push(0, 8, |_| 1));
    assert_eq!(rx.pop(&mut out), Some(0));
    assert_eq!(out.len(), 8);
}
