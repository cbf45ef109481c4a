use kithara::coverage::{Coverage, FrameRange};
use kithara::schedule::{extent_frames, middle, Extent, Schedule};
use kithara::time::Duration;

const EXTENT: u64 = 1000;
const RATE: u32 = 44_100;

fn coverage(runs: &[(u64, u64)]) -> Coverage {
    let mut out = Coverage::default();
    for (start, frames) in runs {
        out.insert(FrameRange::new(*start, *frames));
    }
    out
}

#[test]
fn an_uncovered_track_is_split_in_the_middle() {
    let schedule = Schedule::default();
    assert_eq!(
        schedule.next(&Coverage::default(), Some(EXTENT)),
        Some(500),
        "the largest uncovered range of an untouched track is the track"
    );
}

#[test]
fn a_hole_is_taken_from_its_middle() {
    let schedule = Schedule::default();
    assert_eq!(
        schedule.next(&coverage(&[(0, 200), (400, 600)]), Some(EXTENT)),
        Some(300)
    );
}

#[test]
fn the_wider_of_two_holes_goes_first() {
    let schedule = Schedule::default();
    // Holes of 100 and 300 frames; the second one is the wider.
    let covered = coverage(&[(0, 100), (200, 200), (700, 300)]);
    assert_eq!(covered.gaps(EXTENT).len(), 2, "two holes to choose between");
    assert_eq!(schedule.next(&covered, Some(EXTENT)), Some(550));
}

#[test]
fn a_covered_extent_schedules_nothing() {
    let schedule = Schedule::default();
    assert_eq!(schedule.next(&coverage(&[(0, EXTENT)]), Some(EXTENT)), None);
}

#[test]
fn nothing_is_scheduled_without_an_extent() {
    let schedule = Schedule::default();
    assert_eq!(
        schedule.next(&coverage(&[(0, 200)]), None),
        None,
        "a source that reports no duration has no middle to seek to"
    );
}

#[test]
fn a_position_that_added_nothing_is_not_chosen_again() {
    let mut schedule = Schedule::default();
    let covered = coverage(&[(0, 100), (200, 200), (700, 300)]);
    assert_eq!(schedule.next(&covered, Some(EXTENT)), Some(550));

    // The seek to 550 snapped back into covered audio and added nothing.
    schedule.barren(550);
    assert_eq!(
        schedule.next(&covered, Some(EXTENT)),
        Some(150),
        "the next choice comes from what is still uncovered"
    );

    schedule.barren(150);
    assert_eq!(
        schedule.next(&covered, Some(EXTENT)),
        None,
        "a pass with nowhere left to reach is finished, not spinning"
    );
}

#[test]
fn an_extent_is_measured_on_the_pass_axis() {
    let mut extent = Extent::default();
    assert_eq!(extent.frames(), None, "nothing is reported yet");

    extent.report(Some(Duration::from_secs(2)), RATE);
    assert_eq!(extent.frames(), Some(88_200));

    extent.report(None, RATE);
    assert_eq!(
        extent.frames(),
        Some(88_200),
        "a live source reports no duration, which retracts nothing"
    );
    extent.report(Some(Duration::from_secs(0)), RATE);
    assert_eq!(extent.frames(), Some(88_200));
}

#[test]
fn a_reported_length_grows_and_a_proved_one_bounds_it() {
    let mut extent = Extent::default();
    extent.report(Some(Duration::from_secs(2)), RATE);
    extent.report(Some(Duration::from_secs(4)), RATE);
    assert_eq!(
        extent.frames(),
        Some(176_400),
        "the decode path refines a duration upward as it learns more"
    );

    extent.unreachable(100_000);
    assert_eq!(
        extent.frames(),
        Some(100_000),
        "what the source proved it can reach bounds what it claims"
    );
    extent.report(Some(Duration::from_secs(8)), RATE);
    assert_eq!(
        extent.frames(),
        Some(100_000),
        "a larger claim does not undo what the source already proved"
    );
}

#[test]
fn of_two_equal_holes_the_earlier_goes_first() {
    let schedule = Schedule::new();
    let covered = coverage(&[(100, 100), (300, 700)]);
    assert_eq!(schedule.next(&covered, Some(EXTENT)), Some(50));
}

#[test]
fn the_middle_of_a_range_is_rounded_down() {
    assert_eq!(middle(FrameRange::new(10, 5)), 12);
    assert_eq!(middle(FrameRange::new(u64::MAX, 10)), u64::MAX);
}

#[test]
fn a_duration_outside_the_frame_axis_names_no_extent() {
    assert_eq!(extent_frames(Some(Duration::from_secs(u64::MAX)), RATE), None);
    assert_eq!(extent_frames(Some(Duration::from_millis(10)), RATE), Some(441));
    assert_eq!(extent_frames(None, RATE), None);
}

#[test]
fn the_lower_of_the_largest_report_and_the_smallest_bound_is_planned() {
    let mut extent = Extent::default();
    extent.unreachable(90_000);
    assert_eq!(extent.frames(), None, "a bound alone names no length");
    extent.report(Some(Duration::from_secs(1)), RATE);
    assert_eq!(extent.frames(), Some(44_100));
    extent.report(Some(Duration::from_secs(3)), RATE);
    extent.report(Some(Duration::from_secs(2)), RATE);
    assert_eq!(extent.frames(), Some(90_000));
    extent.unreachable(100_000);
    assert_eq!(extent.frames(), Some(90_000), "a looser bound changes nothing");
    extent.unreachable(50_000);
    assert_eq!(extent.frames(), Some(50_000));
}
