use observation::snapshot::PAUSED_SEVERITY;
use observation::{Count, Counted, Health, HealthRecord, Snapshot};

fn health(scope: &str, health: Health, severity: u8) -> HealthRecord {
    HealthRecord {
        scope: scope.to_string(),
        health,
        severity,
        evidence: String::new(),
        observed_unix_nanos: 1_000,
    }
}

fn count(scope: &str, value: u64) -> Count {
    Count {
        scope: scope.to_string(),
        counted: Counted::Streams,
        value,
        window_start_unix_nanos: 0,
        window_end_unix_nanos: 60,
        observed_unix_nanos: 60,
    }
}

#[test]
fn a_done_leaf_carries_its_mood_but_rolls_up_as_holding() {
    let mut snapshot = Snapshot::new();
    snapshot.record_health(health("xmip:///edge-01/receive/a", Health::Fine, 0));
    snapshot.record_health(health("xmip:///edge-01/receive/b", Health::Done, 90));

    assert_eq!(
        snapshot.worst("xmip:///edge-01"),
        Some(Health::Holding),
        "a done leaf leaves the parent holding, not done"
    );
    assert_eq!(
        snapshot.worst("xmip:///edge-01/receive/b"),
        Some(Health::Done),
        "the leaf that owns the trouble keeps its mood"
    );
}

#[test]
fn any_non_fine_leaf_rolls_up_as_holding() {
    let mut snapshot = Snapshot::new();
    snapshot.record_health(health("xmip:///edge-01/receive/a", Health::Fine, 0));
    snapshot.record_health(health("xmip:///edge-01/receive/b", Health::Working, 20));

    assert_eq!(snapshot.worst("xmip:///edge-01"), Some(Health::Holding));
    assert_eq!(
        snapshot.worst("xmip:///edge-01/receive/b"),
        Some(Health::Working)
    );
}

#[test]
fn within_a_state_the_more_severe_comes_first() {
    let mut snapshot = Snapshot::new();
    snapshot.record_health(health("xmip:///n/receive/mild", Health::Stressed, 40));
    snapshot.record_health(health("xmip:///n/receive/severe", Health::Stressed, 85));

    let ordered = snapshot.health("xmip:///n");
    assert_eq!(ordered[0].scope, "xmip:///n/receive/severe");
    assert_eq!(ordered[0].severity, 85);
}

#[test]
fn a_scope_with_nothing_beneath_it_has_no_health() {
    assert_eq!(Snapshot::new().worst("xmip:///edge-01"), None);
}

#[test]
fn pausing_holds_a_scope_stressed_and_stops_its_counts() {
    let mut snapshot = Snapshot::new();
    snapshot.record_health(health("xmip:///edge-01/receive/orders", Health::Fine, 0));
    snapshot.record_count(count("xmip:///edge-01/receive/orders", 40));

    let paused = snapshot.pause("xmip:///edge-01/receive/orders", "ilian", 2_000);

    assert_eq!(paused, 1);
    let record = &snapshot.health("xmip:///edge-01/receive/orders")[0];
    assert_eq!(record.health, Health::Stressed);
    assert_eq!(record.severity, PAUSED_SEVERITY);
    assert!(record.evidence.contains("ilian"));
    assert!(
        snapshot
            .measure("xmip:///edge-01/receive/orders", Counted::Streams)
            .is_none()
    );
    snapshot.record_count(count("xmip:///edge-01/receive/orders", 99));
    assert!(
        snapshot
            .measure("xmip:///edge-01/receive/orders", Counted::Streams)
            .is_none()
    );
}

#[test]
fn resume_puts_back_exactly_what_was_there() {
    let mut snapshot = Snapshot::new();
    snapshot.record_health(health("xmip:///n/receive/a", Health::Done, 70));

    snapshot.pause("xmip:///n/receive/a", "ilian", 2_000);
    assert_eq!(
        snapshot.worst("xmip:///n/receive/a"),
        Some(Health::Stressed)
    );

    let resumed = snapshot.resume("xmip:///n/receive/a");
    assert_eq!(resumed, 1);
    let record = &snapshot.health("xmip:///n/receive/a")[0];
    assert_eq!(record.health, Health::Done);
    assert_eq!(record.severity, 70);
}

#[test]
fn pausing_a_stage_pauses_every_location_in_it() {
    let mut snapshot = Snapshot::new();
    snapshot.record_health(health("xmip:///n/receive/a", Health::Fine, 0));
    snapshot.record_health(health("xmip:///n/receive/b", Health::Fine, 0));
    snapshot.record_health(health("xmip:///n/send/c", Health::Fine, 0));

    let paused = snapshot.pause("xmip:///n/receive", "ilian", 2_000);

    assert_eq!(paused, 2, "both receive locations, not the send one");
    assert!(snapshot.is_paused("xmip:///n/receive/a"));
    assert!(!snapshot.is_paused("xmip:///n/send/c"));
}

#[test]
fn a_paused_scope_stays_paused_when_the_node_republishes_it() {
    let mut snapshot = Snapshot::new();
    snapshot.record_health(health("xmip:///n/receive/a", Health::Fine, 0));
    snapshot.pause("xmip:///n/receive/a", "ilian", 2_000);

    snapshot.record_health(health("xmip:///n/receive/a", Health::Fine, 0));

    assert_eq!(
        snapshot.worst("xmip:///n/receive/a"),
        Some(Health::Stressed)
    );
}
