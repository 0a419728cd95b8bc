use presence_stats::builder::{last_online_timestamp, BuildError, PresenceEvent};
use presence_stats::interval_set::OnlineIntervals;

fn ev(timestamp: i64, online: bool) -> PresenceEvent {
    PresenceEvent { timestamp, online }
}

#[test]
fn round_trip_alternating_pairs() {
    let events = vec![ev(100, true), ev(200, false), ev(300, true), ev(400, false)];
    let set = OnlineIntervals::build(&events).unwrap();
    assert_eq!(set.to_vec(), vec![(100, 200), (300, 400)]);
}

#[test]
fn duplicate_online_events_not_double_counted() {
    let events = vec![ev(100, true), ev(150, true), ev(200, false)];
    let set = OnlineIntervals::build(&events).unwrap();
    assert_eq!(set.to_vec(), vec![(100, 200)]);
}

#[test]
fn offline_only_stream_yields_nothing() {
    let events = vec![ev(100, false), ev(200, false), ev(300, false)];
    let set = OnlineIntervals::build(&events).unwrap();
    assert_eq!(set.to_vec(), vec![]);
}

#[test]
fn offline_then_online_then_offline() {
    let events = vec![ev(100, false), ev(200, true), ev(300, false)];
    let set = OnlineIntervals::build(&events).unwrap();
    assert_eq!(set.to_vec(), vec![(200, 300)]);
}

#[test]
fn stream_ending_online_drops_open_period() {
    let events = vec![ev(100, true), ev(200, false), ev(300, true)];
    let set = OnlineIntervals::build(&events).unwrap();
    assert_eq!(set.to_vec(), vec![(100, 200)]);
}

#[test]
fn empty_and_single_event_yield_empty_set() {
    let set = OnlineIntervals::build(&vec![]).unwrap();
    assert_eq!(set.to_vec(), vec![]);
    let set = OnlineIntervals::build(&vec![ev(100, true)]).unwrap();
    assert_eq!(set.to_vec(), vec![]);
    let set = OnlineIntervals::build(&vec![ev(100, false)]).unwrap();
    assert_eq!(set.to_vec(), vec![]);
}

#[test]
fn unsorted_input_is_rejected() {
    let events = vec![ev(200, true), ev(100, false)];
    assert!(matches!(OnlineIntervals::build(&events), Err(BuildError::UnsortedInput)));
}

#[test]
fn duplicated_timestamp_is_rejected() {
    let events = vec![ev(100, true), ev(100, false)];
    assert!(matches!(OnlineIntervals::build(&events), Err(BuildError::UnsortedInput)));
}

#[test]
fn built_intervals_are_sorted_and_disjoint() {
    let events = vec![
        ev(10, true),
        ev(20, false),
        ev(21, true),
        ev(40, false),
        ev(40000, true),
        ev(90000, false),
        ev(90001, true),
        ev(90002, false),
    ];
    let set = OnlineIntervals::build(&events).unwrap();
    let ivs = set.to_vec();
    assert_eq!(ivs.len(), 4);
    for w in ivs.windows(2) {
        assert!(w[0].1 < w[1].0);
    }
    for iv in &ivs {
        assert!(iv.0 < iv.1);
    }
}

#[test]
fn query_returns_only_overlapping_intervals() {
    let events = vec![ev(100, true), ev(200, false), ev(300, true), ev(400, false)];
    let set = OnlineIntervals::build(&events).unwrap();
    assert_eq!(set.query(0, 250), vec![(100, 200)]);
    assert_eq!(set.query(150, 350), vec![(100, 200), (300, 400)]);
    assert_eq!(set.query(200, 300), vec![]);
    assert_eq!(set.len(), 2);
}

#[test]
fn last_online_picks_latest_online_event() {
    let events = vec![ev(100, true), ev(200, false), ev(300, true), ev(400, false)];
    assert_eq!(last_online_timestamp(&events), Some(300));
    let offline = vec![ev(100, false), ev(200, false)];
    assert_eq!(last_online_timestamp(&offline), None);
    assert_eq!(last_online_timestamp(&vec![]), None);
}
