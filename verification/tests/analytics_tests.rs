use presence_stats::builder::PresenceEvent;
use presence_stats::days::{
    daily_online_seconds, online_time_per_day, DayRecord, DEFAULT_MIN_DAILY_SECONDS,
};
use presence_stats::gaps::{long_offline_gaps, OfflineGap, DEFAULT_GAP_THRESHOLD_SECONDS};
use presence_stats::interval_set::OnlineIntervals;
use presence_stats::median::calculate_median_time_per_day;

fn ev(timestamp: i64, online: bool) -> PresenceEvent {
    PresenceEvent { timestamp, online }
}

fn set_of(events: Vec<PresenceEvent>) -> OnlineIntervals {
    OnlineIntervals::build(&events).unwrap()
}

fn rec(day_start: i64, seconds: u64) -> DayRecord {
    DayRecord { day_start, seconds }
}

// 2024-01-01 00:00:00 UTC.
const JAN1: i64 = 1704067200;
// 2024-01-02 00:00:00 UTC.
const JAN2: i64 = 1704153600;

#[test]
fn interval_spanning_midnight_splits_into_two_days() {
    // Online 2024-01-01 23:00:00 to 2024-01-02 01:00:00 (UTC zone).
    let set = set_of(vec![ev(JAN1 + 23 * 3600, true), ev(JAN2 + 3600, false)]);
    let days = online_time_per_day(&set, 0, DEFAULT_MIN_DAILY_SECONDS);
    assert_eq!(days, vec![rec(JAN1, 3600), rec(JAN2, 3600)]);
}

#[test]
fn day_totals_sum_to_interval_totals() {
    let set = set_of(vec![
        ev(JAN1 + 23 * 3600, true),
        ev(JAN2 + 3600, false),
        ev(JAN2 + 7200, true),
        ev(JAN2 + 7300, false),
    ]);
    let days = daily_online_seconds(&set, 0);
    let day_total: u64 = days.iter().map(|d| d.seconds).sum();
    let interval_total: u64 = set
        .to_vec()
        .iter()
        .map(|iv| (iv.1 - iv.0) as u64)
        .sum();
    assert_eq!(day_total, interval_total);
    assert_eq!(day_total, 7200 + 100);
}

#[test]
fn aggregation_twice_gives_identical_records() {
    let set = set_of(vec![
        ev(JAN1 + 10, true),
        ev(JAN1 + 500, false),
        ev(JAN2 + 20, true),
        ev(JAN2 + 120, false),
    ]);
    let once = online_time_per_day(&set, 0, DEFAULT_MIN_DAILY_SECONDS);
    let twice = online_time_per_day(&set, 0, DEFAULT_MIN_DAILY_SECONDS);
    assert_eq!(once, twice);
}

#[test]
fn day_with_one_second_is_not_reported() {
    let set = set_of(vec![ev(JAN1 + 100, true), ev(JAN1 + 101, false)]);
    assert_eq!(daily_online_seconds(&set, 0), vec![rec(JAN1, 1)]);
    assert_eq!(online_time_per_day(&set, 0, DEFAULT_MIN_DAILY_SECONDS), vec![]);
}

#[test]
fn gap_day_in_the_middle_gets_no_report() {
    // Online on day one and day three only.
    let set = set_of(vec![
        ev(JAN1 + 100, true),
        ev(JAN1 + 200, false),
        ev(JAN1 + 2 * 86400 + 100, true),
        ev(JAN1 + 2 * 86400 + 300, false),
    ]);
    let all = daily_online_seconds(&set, 0);
    assert_eq!(all, vec![rec(JAN1, 100), rec(JAN2, 0), rec(JAN1 + 2 * 86400, 200)]);
    let reported = online_time_per_day(&set, 0, DEFAULT_MIN_DAILY_SECONDS);
    assert_eq!(reported, vec![rec(JAN1, 100), rec(JAN1 + 2 * 86400, 200)]);
}

#[test]
fn positive_zone_offset_moves_the_day_boundary() {
    // 23:30 to 23:45 UTC is 00:30 to 00:45 the next day at UTC+1.
    let set = set_of(vec![ev(84600, true), ev(85500, false)]);
    assert_eq!(daily_online_seconds(&set, 3600), vec![rec(82800, 900)]);
    assert_eq!(daily_online_seconds(&set, 0), vec![rec(0, 900)]);
}

#[test]
fn four_hour_gap_is_reported_with_three_hour_threshold() {
    let set = set_of(vec![
        ev(0, true),
        ev(100, false),
        ev(14500, true),
        ev(14600, false),
    ]);
    let gaps = long_offline_gaps(&set, DEFAULT_GAP_THRESHOLD_SECONDS);
    assert_eq!(gaps, vec![OfflineGap { start: 100, end: 14500 }]);
    assert_eq!(gaps[0].end - gaps[0].start, 14400);
}

#[test]
fn short_gap_is_not_reported() {
    let set = set_of(vec![
        ev(0, true),
        ev(100, false),
        ev(5000, true),
        ev(5100, false),
    ]);
    assert_eq!(long_offline_gaps(&set, DEFAULT_GAP_THRESHOLD_SECONDS), vec![]);
}

#[test]
fn gap_equal_to_threshold_is_not_reported() {
    let set = set_of(vec![
        ev(0, true),
        ev(100, false),
        ev(10900, true),
        ev(11000, false),
    ]);
    assert_eq!(long_offline_gaps(&set, DEFAULT_GAP_THRESHOLD_SECONDS), vec![]);
}

#[test]
fn multiple_gaps_come_in_order() {
    let set = set_of(vec![
        ev(0, true),
        ev(100, false),
        ev(20000, true),
        ev(20100, false),
        ev(40000, true),
        ev(40100, false),
    ]);
    let gaps = long_offline_gaps(&set, DEFAULT_GAP_THRESHOLD_SECONDS);
    assert_eq!(
        gaps,
        vec![
            OfflineGap { start: 100, end: 20000 },
            OfflineGap { start: 20100, end: 40000 },
        ]
    );
}

#[test]
fn median_of_odd_count_is_middle_element() {
    let records = vec![rec(0, 10), rec(86400, 20), rec(172800, 30)];
    assert_eq!(calculate_median_time_per_day(&records), Some(20));
}

#[test]
fn median_of_even_count_is_floor_mean_of_middles() {
    let records = vec![rec(0, 10), rec(86400, 20), rec(172800, 30), rec(259200, 40)];
    assert_eq!(calculate_median_time_per_day(&records), Some(25));
}

#[test]
fn median_sorts_before_picking() {
    let records = vec![rec(0, 30), rec(86400, 10), rec(172800, 20)];
    assert_eq!(calculate_median_time_per_day(&records), Some(20));
}

#[test]
fn median_of_zero_durations_is_zero_not_none() {
    let records = vec![rec(0, 0)];
    assert_eq!(calculate_median_time_per_day(&records), Some(0));
}

#[test]
fn empty_input_yields_empty_everything() {
    let set = set_of(vec![]);
    assert_eq!(set.to_vec(), vec![]);
    let days = online_time_per_day(&set, 0, DEFAULT_MIN_DAILY_SECONDS);
    assert_eq!(days, vec![]);
    assert_eq!(long_offline_gaps(&set, DEFAULT_GAP_THRESHOLD_SECONDS), vec![]);
    assert_eq!(calculate_median_time_per_day(&days), None);
}

#[test]
fn negative_timestamps_floor_to_the_earlier_day() {
    // One hour online just before the epoch.
    let set = set_of(vec![ev(-3600, true), ev(-1, false)]);
    assert_eq!(daily_online_seconds(&set, 0), vec![rec(-86400, 3599)]);
}

#[test]
fn local_zone_day_totals_preserve_the_interval_total() {
    let set = set_of(vec![
        ev(JAN1 + 23 * 3600, true),
        ev(JAN2 + 3600, false),
        ev(JAN2 + 50000, true),
        ev(JAN2 + 50900, false),
    ]);
    let days = presence_stats::days::daily_online_seconds_local(&set);
    let day_total: u64 = days.iter().map(|d| d.seconds).sum();
    assert_eq!(day_total, 7200 + 900);
}
