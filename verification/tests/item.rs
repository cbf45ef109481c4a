use kithara::item::{
    derived_uuid_i64, handle_of_uuid, AudioPlayerItem, FfiAbrMode, FfiItemConfig, FfiItemEvent,
    FfiItemLoadResult, FfiItemStatus, FfiTimeRange, ItemView, TrackId, TrackIds,
};
use kithara::observer_set::ObserverSet;
use std::collections::HashMap;
use std::sync::{Arc, Mutex};
use uuid::Uuid;

fn config_with_url(url: String) -> FfiItemConfig {
    FfiItemConfig {
        url,
        headers: None,
        audio_id: None,
        uuid_i64: None,
        preferred_peak_bitrate: 0.0f64.to_bits(),
        preferred_peak_bitrate_expensive: 0.0f64.to_bits(),
        abr_mode: None,
        is_live_stream: false,
    }
}

#[derive(Default)]
struct CountingObserver {
    seen: Mutex<Vec<String>>,
}

impl CountingObserver {
    fn seen(&self) -> Vec<String> {
        self.seen.lock().unwrap().clone()
    }

    fn on_event(&self, event: FfiItemEvent) {
        self.seen.lock().unwrap().push(format!("{event:?}"));
    }
}

type Item = AudioPlayerItem<CountingObserver>;

fn item_for(ids: &mut TrackIds, url: &str) -> Item {
    AudioPlayerItem::new(config_with_url(url.to_string()), ids.allocate())
}

fn item_with(config: FfiItemConfig) -> Item {
    AudioPlayerItem::new(config, TrackIds::new().allocate())
}

fn notify(item: &Item, event: FfiItemEvent) {
    for observer in item.observers() {
        observer.on_event(event);
    }
}

fn is_playable(item: &Item, progress: f64, ranges: &Vec<FfiTimeRange>) -> bool {
    item.is_playable(ranges, |range: &FfiTimeRange| {
        let start = f64::from_bits(range.start_seconds);
        let duration = f64::from_bits(range.duration_seconds);
        progress >= start && progress < start + duration
    })
}

fn duration(view: &ItemView) -> f64 {
    f64::from_bits(view.duration_sec())
}

#[test]
fn every_registered_observer_sees_the_event_until_it_unsubscribes() {
    let mut item = item_for(&mut TrackIds::new(), "https://example.com/a.mp3");
    let first = Arc::new(CountingObserver::default());
    let second = Arc::new(CountingObserver::default());
    let first_id = item.add_observer(Arc::clone(&first));
    item.add_observer(Arc::clone(&second));

    notify(
        &item,
        FfiItemEvent::DurationChanged {
            seconds: 1.0f64.to_bits(),
        },
    );
    assert_eq!(first.seen().len(), 1);
    assert_eq!(second.seen().len(), 1);

    item.remove_observer(first_id);
    notify(
        &item,
        FfiItemEvent::DurationChanged {
            seconds: 2.0f64.to_bits(),
        },
    );
    assert_eq!(first.seen().len(), 1);
    assert_eq!(second.seen().len(), 2);
}

#[test]
fn audio_id_is_monotonic_across_new_items() {
    let mut ids = TrackIds::new();
    let a = item_for(&mut ids, "https://example.com/a.mp3");
    let b = item_for(&mut ids, "https://example.com/b.mp3");
    assert!(a.audio_id() < b.audio_id());
}

#[test]
fn audio_id_is_distinct_for_two_items_of_same_url() {
    let mut ids = TrackIds::new();
    let a = item_for(&mut ids, "https://example.com/track.mp3");
    let b = item_for(&mut ids, "https://example.com/track.mp3");
    assert_ne!(a.audio_id(), b.audio_id());
}

#[test]
fn uuid_is_distinct_for_two_items_of_same_url() {
    let mut ids = TrackIds::new();
    let a = item_for(&mut ids, "https://example.com/track.mp3");
    let b = item_for(&mut ids, "https://example.com/track.mp3");
    assert_ne!(a.uuid_i64(), b.uuid_i64());
}

#[test]
fn uuid_i64_matches_uuid_v5_of_url_and_audio_id() {
    let url = "https://example.com/song.mp3";
    let item = item_for(&mut TrackIds::new(), url);
    let key = format!("{}:{}", url, item.track_id().as_u64());
    let expected = Uuid::new_v5(&Uuid::NAMESPACE_URL, key.as_bytes());
    let mut buf = [0u8; 8];
    buf.copy_from_slice(&expected.as_bytes()[0..8]);
    assert_eq!(item.uuid_i64(), i64::from_be_bytes(buf));
}

#[test]
fn caller_audio_id_is_exposed_without_becoming_queue_id() {
    let config = FfiItemConfig {
        audio_id: Some(TrackId(42)),
        ..config_with_url("https://example.com/song.mp3".to_string())
    };
    let item = item_with(config);
    assert_eq!(item.audio_id(), TrackId(42));
    assert_ne!(item.track_id(), TrackId(42));
}

#[test]
fn caller_uuid_i64_is_exposed() {
    let config = FfiItemConfig {
        uuid_i64: Some(123_456),
        ..config_with_url("https://example.com/song.mp3".to_string())
    };
    let item = item_with(config);
    assert_eq!(item.uuid_i64(), 123_456);
}

#[test]
fn audio_id_and_uuid_work_for_local_path() {
    let path = "/Users/me/Music/song.flac";
    let mut ids = TrackIds::new();
    let a = item_for(&mut ids, path);
    let b = item_for(&mut ids, path);
    assert_ne!(a.audio_id(), b.audio_id());
    assert_ne!(a.uuid_i64(), b.uuid_i64());
}

#[test]
fn url_preserved() {
    let item = item_for(&mut TrackIds::new(), "https://example.com/song.mp3");
    assert_eq!(item.url(), "https://example.com/song.mp3");
}

#[test]
fn preferred_peak_bitrate_from_config() {
    let config = FfiItemConfig {
        preferred_peak_bitrate: 256_000.0f64.to_bits(),
        ..config_with_url("https://example.com/a.mp3".to_string())
    };
    let item = item_with(config);
    assert_eq!(f64::from_bits(item.preferred_peak_bitrate()), 256_000.0);
}

#[test]
fn inserted_flag_initially_false() {
    let item = item_for(&mut TrackIds::new(), "https://example.com/a.mp3");
    assert!(!item.inserted);
}

#[test]
fn headers_roundtrip() {
    let mut headers = HashMap::new();
    headers.insert("Authorization".to_string(), "Bearer token".to_string());
    let config = FfiItemConfig {
        headers: Some(headers),
        ..config_with_url("https://example.com/a.mp3".to_string())
    };
    let item = item_with(config);
    let returned = item
        .headers()
        .as_ref()
        .expect("BUG: headers were just set on the config above");
    assert_eq!(returned.get("Authorization"), Some(&"Bearer token".into()));
}

#[test]
fn uuid_i64_is_stable_for_same_audio_id() {
    let item = item_for(&mut TrackIds::new(), "https://example.com/a.mp3");
    let first = item.uuid_i64();
    let second = item.uuid_i64();
    assert_eq!(first, second);
}

#[test]
fn is_live_stream_defaults_false() {
    let item = item_for(&mut TrackIds::new(), "https://example.com/song.mp3");
    assert!(!item.is_live_stream());
}

#[test]
fn is_live_stream_from_config() {
    let config = FfiItemConfig {
        is_live_stream: true,
        ..config_with_url("https://example.com/live.m3u8".to_string())
    };
    let item = item_with(config);
    assert!(item.is_live_stream());
}

#[test]
fn is_playable_live_stream_always_true() {
    let config = FfiItemConfig {
        is_live_stream: true,
        ..config_with_url("https://example.com/live.m3u8".to_string())
    };
    let item = item_with(config);
    assert!(is_playable(&item, 0.0, &vec![]));
    assert!(is_playable(&item, 9999.0, &vec![]));
}

#[test]
fn item_view_pending_is_not_ready_and_zero_duration() {
    let view = ItemView::new(false);
    assert!(!view.is_ready());
    assert_eq!(duration(&view), 0.0);
}

#[test]
fn item_view_resolve_duration_sets_ready() {
    let mut view = ItemView::new(false);
    view.resolve_duration(42.0f64.to_bits());
    assert!(view.is_ready());
    assert_eq!(duration(&view), 42.0);
}

#[test]
fn item_view_mark_failed_is_not_ready_and_zero_duration() {
    let mut view = ItemView::new(false);
    view.resolve_duration(42.0f64.to_bits());
    view.mark_failed("test failure".to_owned());
    assert!(!view.is_ready());
    assert_eq!(duration(&view), 0.0);
}

#[test]
fn item_view_mark_failed_reports_only_the_first_transition() {
    let mut view = ItemView::new(false);
    assert!(view.mark_failed("test failure".to_owned()));
    assert!(!view.mark_failed("test failure".to_owned()));
}

#[test]
fn item_view_failure_is_sticky_over_resolve_duration() {
    let mut view = ItemView::new(false);
    view.mark_failed("test failure".to_owned());
    view.resolve_duration(42.0f64.to_bits());
    assert!(
        !view.is_ready(),
        "resolve_duration must not un-fail a Failed item"
    );
    assert_eq!(duration(&view), 0.0);
}

#[test]
fn item_view_live_flag_preserved_across_transitions() {
    let mut view = ItemView::new(true);
    assert!(view.is_live_stream);
    view.resolve_duration(10.0f64.to_bits());
    assert!(view.is_live_stream);
    view.mark_failed("test failure".to_owned());
    assert!(view.is_live_stream);
}

#[test]
fn is_playable_within_ranges() {
    let item = item_for(&mut TrackIds::new(), "https://example.com/song.mp3");
    let ranges = vec![FfiTimeRange {
        start_seconds: 0.0f64.to_bits(),
        duration_seconds: 30.0f64.to_bits(),
    }];
    assert!(is_playable(&item, 0.0, &ranges));
    assert!(is_playable(&item, 15.0, &ranges));
    assert!(!is_playable(&item, 30.0, &ranges));
    assert!(!is_playable(&item, 45.0, &ranges));
}

#[test]
fn a_failed_view_keeps_its_first_reason() {
    let mut view = ItemView::new(false);
    view.mark_failed("first".to_owned());
    view.mark_failed("second".to_owned());
    view.mark_ready();
    assert_eq!(view.error, Some("first".to_owned()));
    assert_eq!(view.status(), FfiItemStatus::Failed);
}

#[test]
fn a_pending_view_becomes_ready_without_a_duration() {
    let mut view = ItemView::new(false);
    assert_eq!(view.status(), FfiItemStatus::Unknown);
    view.mark_ready();
    assert_eq!(view.status(), FfiItemStatus::ReadyToPlay);
    assert_eq!(duration(&view), 0.0);
    view.resolve_duration(7.0f64.to_bits());
    view.mark_ready();
    assert_eq!(duration(&view), 7.0);
}

#[test]
fn a_late_observer_is_told_the_settled_state() {
    let mut view = ItemView::new(false);
    assert_eq!(view.prime(), vec![]);
    view.mark_ready();
    let ready = FfiItemEvent::StatusChanged {
        status: FfiItemStatus::ReadyToPlay,
    };
    assert_eq!(view.prime(), vec![ready]);
    for (seconds, told) in [
        (3.5, true),
        (f64::INFINITY, true),
        (f64::MIN_POSITIVE, true),
        (0.0, false),
        (-0.0, false),
        (-1.0, false),
        (f64::NAN, false),
    ] {
        view.resolve_duration(seconds.to_bits());
        assert_eq!(view.prime().len(), if told { 2 } else { 1 });
    }
    view.mark_failed("x".into());
    assert_eq!(
        view.prime(),
        vec![FfiItemEvent::StatusChanged {
            status: FfiItemStatus::Failed
        }]
    );
}

#[test]
fn an_item_answers_its_load_status_once_it_is_queued() {
    let mut item = item_for(&mut TrackIds::new(), "u");
    item.view.mark_ready();
    item.view.has_protected_content = true;
    assert_eq!(
        item.load(),
        FfiItemLoadResult {
            has_protected_content: false,
            is_playable: false
        }
    );
    item.inserted = true;
    assert_eq!(
        item.load(),
        FfiItemLoadResult {
            has_protected_content: true,
            is_playable: true
        }
    );
    item.view.mark_failed("gone".into());
    assert!(!item.load().is_playable);
}

#[test]
fn a_snapshot_of_an_item_is_consistent() {
    let mut item = item_with(FfiItemConfig {
        abr_mode: Some(FfiAbrMode::Manual { variant_index: 3 }),
        preferred_peak_bitrate_expensive: 5,
        ..config_with_url("u".into())
    });
    let range = FfiTimeRange {
        start_seconds: 1,
        duration_seconds: 2,
    };
    item.view.replace_loaded_ranges(vec![range]);
    item.view.resolve_duration(9);
    let state = item.state();
    assert_eq!(state.status, FfiItemStatus::ReadyToPlay);
    assert_eq!(state.duration_seconds, 9);
    assert_eq!(state.error, None);
    assert_eq!(state.loaded_ranges, vec![range]);
    assert_eq!(item.duration_sec(), 9);
    assert_eq!(item.abr_mode(), Some(FfiAbrMode::Manual { variant_index: 3 }));
    assert_eq!(item.preferred_peak_bitrate_for_expensive_networks(), 5);
    assert_eq!(item.queue_id(), item.track_id());
    item.view.mark_failed("why".into());
    assert_eq!(item.state().error, Some("why".to_string()));
}

#[test]
fn a_handle_is_the_first_eight_bytes_of_a_uuid() {
    let mut uuid = [0u8; 16];
    uuid[6] = 1;
    uuid[7] = 2;
    uuid[8] = 0xFF;
    assert_eq!(handle_of_uuid(&uuid), 258);
    assert_eq!(handle_of_uuid(&[0xFF; 16]), -1);
    uuid = [0; 16];
    uuid[0] = 0x80;
    assert_eq!(handle_of_uuid(&uuid), i64::MIN);
    assert_ne!(
        derived_uuid_i64("u", TrackId(1)),
        derived_uuid_i64("u", TrackId(2))
    );
}

#[test]
fn an_unknown_handle_unsubscribes_nobody() {
    let mut set = ObserverSet::new();
    let a = set.add(Arc::new(1u8));
    let b = set.add(Arc::new(2u8));
    assert!(a < b);
    set.remove(99);
    assert_eq!(set.snapshot(), vec![Arc::new(1), Arc::new(2)]);
    set.remove(a);
    assert_eq!(set.snapshot(), vec![Arc::new(2)]);
    let c = set.add(Arc::new(3));
    assert!(b < c, "a handle is not given twice");
}
