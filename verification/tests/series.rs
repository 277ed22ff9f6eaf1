use observation::{Count, Counted, Health, HealthRecord, History, Snapshot, DEFAULT_CAPACITY};

fn health(scope: &str, now: i64) -> HealthRecord {
    HealthRecord {
        scope: scope.to_string(),
        health: Health::Fine,
        severity: 0,
        evidence: String::new(),
        observed_unix_nanos: now,
    }
}

fn count(scope: &str, counted: Counted, value: u64, now: i64) -> Count {
    Count {
        scope: scope.to_string(),
        counted,
        value,
        window_start_unix_nanos: now,
        window_end_unix_nanos: now,
        observed_unix_nanos: now,
    }
}

#[test]
fn a_capacity_of_zero_keeps_one_point() {
    let mut history = History::with_capacity(0);
    for tick in 0..3 {
        let mut snapshot = Snapshot::new();
        snapshot.record_health(health("xmip:///n", tick));
        history.record(&snapshot);
    }
    let series = history.health_series("xmip:///n");
    assert_eq!(series.len(), 1);
    assert_eq!(series[0].observed_unix_nanos, 2);
}

#[test]
fn every_series_stays_within_capacity_and_ends_with_the_newest() {
    let mut history = History::with_capacity(3);
    for tick in 0..10 {
        let mut snapshot = Snapshot::new();
        snapshot.record_health(health("xmip:///n/a", tick));
        snapshot.record_count(count("xmip:///n/a", Counted::Streams, 100 + u64::try_from(tick).unwrap_or(0), tick));
        history.record(&snapshot);
        let series = history.health_series("xmip:///n/a");
        assert!(series.len() <= 3);
        assert_eq!(series.last().map(|r| r.observed_unix_nanos), Some(tick));
    }
    let observed: Vec<i64> = history.health_series("xmip:///n/a").iter().map(|r| r.observed_unix_nanos).collect();
    assert_eq!(observed, vec![7, 8, 9]);
    let values: Vec<u64> = history.count_series("xmip:///n/a", Counted::Streams).iter().map(|c| c.value).collect();
    assert_eq!(values, vec![107, 108, 109]);
}

#[test]
fn series_are_kept_per_scope_and_per_kind() {
    let mut history = History::default();
    let mut snapshot = Snapshot::new();
    snapshot.record_health(health("xmip:///n/a", 1));
    snapshot.record_health(health("xmip:///n/b", 1));
    snapshot.record_count(count("xmip:///n/a", Counted::Streams, 5, 1));
    snapshot.record_count(count("xmip:///n/a", Counted::Bytes, 500, 1));
    history.record(&snapshot);
    let mut second = Snapshot::new();
    second.record_health(health("xmip:///n/b", 2));
    second.record_count(count("xmip:///n/a", Counted::Bytes, 600, 2));
    history.record(&second);

    assert_eq!(history.health_series("xmip:///n/a").len(), 1);
    assert_eq!(history.health_series("xmip:///n/b").len(), 2);
    assert_eq!(history.count_series("xmip:///n/a", Counted::Streams).len(), 1);
    let bytes: Vec<u64> = history.count_series("xmip:///n/a", Counted::Bytes).iter().map(|c| c.value).collect();
    assert_eq!(bytes, vec![500, 600]);
    assert!(history.count_series("xmip:///n/a", Counted::Messages).is_empty());
    assert!(history.health_series("xmip:///n").is_empty());
}

#[test]
fn a_count_range_query_keeps_only_recent_points() {
    let mut history = History::default();
    for tick in 0..6 {
        let mut snapshot = Snapshot::new();
        snapshot.record_count(count("xmip:///n", Counted::Journeys, u64::try_from(tick).unwrap_or(0), tick * 10));
        history.record(&snapshot);
    }
    let recent: Vec<u64> = history.count_since("xmip:///n", Counted::Journeys, 25).iter().map(|c| c.value).collect();
    assert_eq!(recent, vec![3, 4, 5]);
    assert!(history.count_since("xmip:///n", Counted::Journeys, 100).is_empty());
    assert_eq!(history.health_since("xmip:///n", 0).len(), 0);
}

#[test]
fn the_default_history_keeps_the_default_capacity() {
    let mut history = History::default();
    for tick in 0..(DEFAULT_CAPACITY as i64 + 5) {
        let mut snapshot = Snapshot::new();
        snapshot.record_health(health("xmip:///n", tick));
        history.record(&snapshot);
    }
    let series = history.health_series("xmip:///n");
    assert_eq!(series.len(), DEFAULT_CAPACITY);
    assert_eq!(series[0].observed_unix_nanos, 5);
}

#[test]
fn a_paused_scope_is_recorded_as_paused() {
    let mut history = History::default();
    let mut snapshot = Snapshot::new();
    snapshot.record_health(health("xmip:///n/a", 1));
    history.record(&snapshot);
    snapshot.pause("xmip:///n", "ilian", 2);
    history.record(&snapshot);
    let series = history.health_series("xmip:///n/a");
    assert_eq!(series.len(), 2);
    assert_eq!(series[1].health, Health::Stressed);
}
