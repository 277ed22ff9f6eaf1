use observation::{Count, Counted, Health, HealthRecord, History, Snapshot};

fn health(scope: &str, health: Health, now: i64) -> HealthRecord {
    HealthRecord {
        scope: scope.to_string(),
        health,
        severity: 0,
        evidence: String::new(),
        observed_unix_nanos: now,
    }
}

fn count(scope: &str, value: u64, now: i64) -> Count {
    Count {
        scope: scope.to_string(),
        counted: Counted::Bytes,
        value,
        window_start_unix_nanos: now,
        window_end_unix_nanos: now,
        observed_unix_nanos: now,
    }
}

#[test]
fn a_series_accumulates_over_ticks_oldest_first() {
    let mut history = History::default();

    for tick in 0..3 {
        let mut snapshot = Snapshot::new();
        snapshot.record_health(health("xmip:///n/receive/a", Health::Fine, tick));
        snapshot.record_count(count("xmip:///n", u64::try_from(tick).unwrap_or(0), tick));
        history.record(&snapshot);
    }

    let series = history.health_series("xmip:///n/receive/a");
    assert_eq!(series.len(), 3);
    assert_eq!(series.first().map(|r| r.observed_unix_nanos), Some(0));
    assert_eq!(series.last().map(|r| r.observed_unix_nanos), Some(2));

    let throughput = history.count_series("xmip:///n", Counted::Bytes);
    assert_eq!(throughput.len(), 3);
    assert_eq!(throughput.last().map(|c| c.value), Some(2));
}

#[test]
fn the_series_is_bounded_and_drops_the_oldest() {
    let mut history = History::with_capacity(2);

    for tick in 0..5 {
        let mut snapshot = Snapshot::new();
        snapshot.record_health(health("xmip:///n/receive/a", Health::Fine, tick));
        history.record(&snapshot);
    }

    let series = history.health_series("xmip:///n/receive/a");
    assert_eq!(series.len(), 2, "capacity is two");
    assert_eq!(series.first().map(|r| r.observed_unix_nanos), Some(3));
    assert_eq!(series.last().map(|r| r.observed_unix_nanos), Some(4));
}

#[test]
fn a_range_query_returns_only_points_at_or_after_the_bound() {
    let mut history = History::default();

    for tick in 0..5 {
        let mut snapshot = Snapshot::new();
        snapshot.record_health(health("xmip:///n/send/b", Health::Fine, tick));
        history.record(&snapshot);
    }

    let recent = history.health_since("xmip:///n/send/b", 3);
    assert_eq!(recent.len(), 2);
    assert!(recent.iter().all(|r| r.observed_unix_nanos >= 3));
}

#[test]
fn an_unknown_scope_has_an_empty_series() {
    let history = History::default();
    assert!(history.health_series("xmip:///nothing").is_empty());
    assert!(
        history
            .count_series("xmip:///nothing", Counted::Streams)
            .is_empty()
    );
}
