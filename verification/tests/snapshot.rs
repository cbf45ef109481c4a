use kithara::coverage::FrameRange;
use kithara::snapshot::{BeatGrid, BeatSnapshot, GridState};

fn mean(confidences: &Vec<u32>) -> u32 {
    let mut sum = 0.0f64;
    for bits in confidences {
        sum += f64::from(f32::from_bits(*bits));
    }
    let mean = sum / confidences.len() as f64;
    (mean as f32).to_bits()
}

fn grid(beats: Vec<(u64, Option<f32>)>, downbeats: Vec<(u64, Option<f32>)>) -> BeatGrid {
    BeatGrid {
        beats: beats.iter().map(|(at, _)| *at).collect(),
        beat_confidence: beats.iter().map(|(_, c)| c.map(f32::to_bits)).collect(),
        downbeats: downbeats.iter().map(|(at, _)| *at).collect(),
        downbeat_confidence: downbeats.iter().map(|(_, c)| c.map(f32::to_bits)).collect(),
    }
}

fn snapshot(beats: Vec<(u64, Option<f32>)>, state: GridState) -> BeatSnapshot {
    BeatSnapshot::new(grid(beats, Vec::new()), state, Vec::new(), mean)
}

fn confidence(snapshot: &BeatSnapshot) -> Option<f32> {
    snapshot.confidence().map(f32::from_bits)
}

#[test]
fn a_grid_reports_the_mean_of_what_was_detected() {
    let snapshot = snapshot(
        vec![(0, Some(0.4)), (100, Some(0.8)), (200, None)],
        GridState::Provisional,
    );

    let confidence = confidence(&snapshot).expect("detected markers average");
    assert!(
        (confidence - 0.6).abs() < 1e-6,
        "the extrapolated marker is not averaged in: {confidence}"
    );
}

#[test]
fn a_grid_with_nothing_detected_reports_nothing() {
    assert_eq!(
        snapshot(vec![(0, None), (100, None)], GridState::Provisional).confidence(),
        None,
        "a grid built entirely by extrapolation claims nothing"
    );
    assert_eq!(
        snapshot(Vec::new(), GridState::Final).confidence(),
        None,
        "an empty grid claims nothing"
    );
}

#[test]
fn a_final_grid_of_weak_markers_is_less_sure_than_a_provisional_strong_one() {
    let weak = snapshot(vec![(0, Some(0.2)), (100, Some(0.3))], GridState::Final);
    let strong = snapshot(
        vec![(0, Some(0.9)), (100, Some(0.95))],
        GridState::Provisional,
    );

    assert_eq!(weak.state(), GridState::Final);
    assert_eq!(strong.state(), GridState::Provisional);
    assert!(
        confidence(&weak) < confidence(&strong),
        "confidence follows the markers, not the state"
    );
}

#[test]
fn detected_confidences_are_the_beats_and_then_the_downbeats() {
    let grid = grid(
        vec![(0, Some(0.5)), (10, None), (20, Some(0.25))],
        vec![(0, None), (20, Some(0.75))],
    );
    let bits: Vec<u32> = [0.5f32, 0.25, 0.75].iter().map(|c| c.to_bits()).collect();
    assert_eq!(grid.detected_confidences(), bits);
}

#[test]
fn a_snapshot_keeps_what_it_was_made_with() {
    let snapshot = BeatSnapshot::new(
        grid(vec![(7, Some(1.0))], vec![(9, Some(0.5))]),
        GridState::Provisional,
        vec![FrameRange::new(3, 4)],
        mean,
    );
    assert_eq!(snapshot.grid().beats, vec![7]);
    assert_eq!(snapshot.grid().downbeats, vec![9]);
    assert_eq!(snapshot.unanalysed(), &[FrameRange::new(3, 4)]);
    assert_eq!(confidence(&snapshot), Some(0.75));
}
