use observation::scope::{is_beneath, scope_less};
use observation::snapshot::PAUSED_SEVERITY;
use observation::{Count, Counted, Health, HealthRecord, Snapshot};

fn health(scope: &str, health: Health, severity: u8) -> HealthRecord {
    HealthRecord {
        scope: scope.to_string(),
        health,
        severity,
        evidence: String::new(),
        observed_unix_nanos: 1_000,
    }
}

fn count(scope: &str, counted: Counted, value: u64, start: i64, end: i64, observed: i64) -> Count {
    Count {
        scope: scope.to_string(),
        counted,
        value,
        window_start_unix_nanos: start,
        window_end_unix_nanos: end,
        observed_unix_nanos: observed,
    }
}

#[test]
fn a_prefix_of_characters_is_not_a_prefix_of_segments() {
    assert!(!is_beneath("xmip:///ab", "xmip:///a"));
    assert!(is_beneath("xmip:///a/b", "xmip:///a"));
    assert!(is_beneath("xmip:///a", "xmip:///a"));
    assert!(!is_beneath("xmip:///a", "xmip:///a/b"));
}

#[test]
fn trailing_slashes_of_the_scope_are_ignored() {
    assert!(is_beneath("xmip:///a", "xmip:///a/"));
    assert!(is_beneath("xmip:///a/b", "xmip:///a//"));
    assert!(is_beneath("xmip:///a/", "xmip:///a"));
    assert!(!is_beneath("xmip:///ab", "xmip:///a/"));
}

#[test]
fn every_scope_is_beneath_itself() {
    for scope in ["xmip:///n", "xmip:///n/", "", "/", "xmip:///edge-01/receive/a"] {
        assert!(is_beneath(scope, scope), "{scope}");
    }
}

#[test]
fn beneath_carries_up_the_tree() {
    let ftp = "xmip:///edge-01/transport/ftp";
    let transport = "xmip:///edge-01/transport";
    let edge = "xmip:///edge-01";
    assert!(is_beneath(ftp, transport));
    assert!(is_beneath(transport, edge));
    assert!(is_beneath(ftp, edge));
}

#[test]
fn scopes_order_by_code_point() {
    assert!(scope_less("a", "b"));
    assert!(scope_less("a", "ab"));
    assert!(!scope_less("ab", "a"));
    assert!(!scope_less("a", "a"));
    assert!(scope_less("", "a"));
    assert!(scope_less("z", "\u{e9}"));
    assert_eq!(scope_less("z", "\u{e9}"), "z" < "\u{e9}");
}

#[test]
fn recording_health_again_replaces_it() {
    let mut snapshot = Snapshot::new();
    snapshot.record_health(health("xmip:///n/a", Health::Fine, 0));
    snapshot.record_health(health("xmip:///n/a", Health::Exhausted, 55));
    let records = snapshot.health_records();
    assert_eq!(records.len(), 1);
    assert_eq!(records[0].health, Health::Exhausted);
    assert_eq!(records[0].severity, 55);
}

#[test]
fn health_records_come_out_in_scope_order() {
    let mut snapshot = Snapshot::new();
    snapshot.record_health(health("xmip:///n/c", Health::Fine, 0));
    snapshot.record_health(health("xmip:///n/a", Health::Done, 10));
    snapshot.record_health(health("xmip:///n/b", Health::Working, 5));
    let scopes: Vec<String> = snapshot.health_records().into_iter().map(|r| r.scope).collect();
    assert_eq!(scopes, vec!["xmip:///n/a", "xmip:///n/b", "xmip:///n/c"]);
}

#[test]
fn counts_come_out_by_scope_then_kind() {
    let mut snapshot = Snapshot::new();
    snapshot.record_count(count("xmip:///n/b", Counted::Streams, 1, 0, 1, 1));
    snapshot.record_count(count("xmip:///n/a", Counted::Bytes, 2, 0, 1, 1));
    snapshot.record_count(count("xmip:///n/a", Counted::Messages, 3, 0, 1, 1));
    snapshot.record_count(count("xmip:///n/a", Counted::Messages, 4, 0, 1, 1));
    let counts = snapshot.all_counts();
    assert_eq!(counts.len(), 3);
    assert_eq!((counts[0].scope.as_str(), counts[0].counted, counts[0].value), ("xmip:///n/a", Counted::Messages, 4));
    assert_eq!((counts[1].scope.as_str(), counts[1].counted, counts[1].value), ("xmip:///n/a", Counted::Bytes, 2));
    assert_eq!((counts[2].scope.as_str(), counts[2].counted, counts[2].value), ("xmip:///n/b", Counted::Streams, 1));
}

#[test]
fn a_measure_sums_the_parts_and_spans_their_windows() {
    let mut snapshot = Snapshot::new();
    snapshot.record_count(count("xmip:///n/receive/a", Counted::Messages, 10, 5, 50, 40));
    snapshot.record_count(count("xmip:///n/receive/b", Counted::Messages, 7, 2, 45, 30));
    snapshot.record_count(count("xmip:///n/send/c", Counted::Messages, 3, 8, 70, 60));
    snapshot.record_count(count("xmip:///n/send/c", Counted::Bytes, 900, 0, 100, 1));
    snapshot.record_count(count("xmip:///nx", Counted::Messages, 1000, -5, 500, -9));

    let total = snapshot.measure("xmip:///n", Counted::Messages).unwrap();
    assert_eq!(total.scope, "xmip:///n");
    assert_eq!(total.counted, Counted::Messages);
    assert_eq!(total.value, 20);
    assert_eq!(total.window_start_unix_nanos, 2);
    assert_eq!(total.window_end_unix_nanos, 70);
    assert_eq!(total.observed_unix_nanos, 30);

    let receive = snapshot.measure("xmip:///n/receive", Counted::Messages).unwrap();
    assert_eq!(receive.value, 17);
    assert!(snapshot.measure("xmip:///n", Counted::Journeys).is_none());
    assert!(snapshot.measure("xmip:///m", Counted::Messages).is_none());
}

#[test]
fn health_reads_out_worst_mood_first_then_severity_then_scope() {
    let mut snapshot = Snapshot::new();
    snapshot.record_health(health("xmip:///n/a", Health::Fine, 0));
    snapshot.record_health(health("xmip:///n/b", Health::Stressed, 10));
    snapshot.record_health(health("xmip:///n/c", Health::Done, 60));
    snapshot.record_health(health("xmip:///n/d", Health::Done, 90));
    snapshot.record_health(health("xmip:///n/f", Health::Stressed, 10));
    snapshot.record_health(health("xmip:///n/e", Health::Stressed, 10));
    snapshot.record_health(health("xmip:///m/z", Health::Done, 100));
    let scopes: Vec<String> = snapshot.health("xmip:///n").into_iter().map(|r| r.scope).collect();
    assert_eq!(
        scopes,
        vec!["xmip:///n/d", "xmip:///n/c", "xmip:///n/b", "xmip:///n/e", "xmip:///n/f", "xmip:///n/a"]
    );
}

#[test]
fn fine_up_the_tree_means_every_leaf_is_fine() {
    let mut snapshot = Snapshot::new();
    snapshot.record_health(health("xmip:///n/a", Health::Fine, 0));
    snapshot.record_health(health("xmip:///n/b", Health::Fine, 40));
    assert_eq!(snapshot.worst("xmip:///n"), Some(Health::Fine));
    snapshot.record_health(health("xmip:///n/b/deep", Health::Working, 1));
    assert_eq!(snapshot.worst("xmip:///n"), Some(Health::Holding));
    assert_eq!(snapshot.worst("xmip:///n/b"), Some(Health::Holding));
    assert_eq!(snapshot.worst("xmip:///n/a"), Some(Health::Fine));
}

#[test]
fn a_scope_with_trouble_beneath_it_is_holding_whatever_its_own_mood() {
    let mut snapshot = Snapshot::new();
    snapshot.record_health(health("xmip:///n", Health::Exhausted, 80));
    snapshot.record_health(health("xmip:///n/a", Health::Working, 10));
    assert_eq!(snapshot.worst("xmip:///n"), Some(Health::Holding));
    assert_eq!(snapshot.worst("xmip:///n/"), Some(Health::Holding));
}

#[test]
fn a_scope_with_only_fine_beneath_it_reports_its_own_mood() {
    let mut snapshot = Snapshot::new();
    snapshot.record_health(health("xmip:///n", Health::Exhausted, 80));
    snapshot.record_health(health("xmip:///n/a", Health::Fine, 10));
    assert_eq!(snapshot.worst("xmip:///n"), Some(Health::Exhausted));
    assert_eq!(snapshot.worst("xmip:///n/a"), Some(Health::Fine));
}

#[test]
fn the_rollup_does_not_depend_on_severity() {
    for (own, child) in [(90, 10), (10, 90)] {
        let mut snapshot = Snapshot::new();
        snapshot.record_health(health("xmip:///n", Health::Done, own));
        snapshot.record_health(health("xmip:///n/a", Health::Done, child));
        assert_eq!(snapshot.worst("xmip:///n"), Some(Health::Holding));
    }
}

#[test]
fn pausing_nothing_pauses_nothing() {
    let mut snapshot = Snapshot::new();
    snapshot.record_health(health("xmip:///n/a", Health::Fine, 0));
    assert_eq!(snapshot.pause("xmip:///m", "ilian", 5), 0);
    assert!(!snapshot.is_paused("xmip:///n/a"));
    assert_eq!(snapshot.resume("xmip:///n"), 0);
}

#[test]
fn pausing_names_who_and_when() {
    let mut snapshot = Snapshot::new();
    snapshot.record_health(health("xmip:///n/a", Health::Done, 99));
    snapshot.pause("xmip:///n", "ilian", 2_000);
    let record = &snapshot.health("xmip:///n/a")[0];
    assert_eq!(record.evidence, "paused by ilian");
    assert_eq!(record.observed_unix_nanos, 2_000);
    assert_eq!(record.severity, PAUSED_SEVERITY);
    assert_eq!(record.health, Health::Stressed);
}

#[test]
fn a_paused_ancestor_drops_the_counts_of_everything_beneath_it() {
    let mut snapshot = Snapshot::new();
    snapshot.record_health(health("xmip:///n/receive", Health::Fine, 0));
    snapshot.pause("xmip:///n/receive", "ilian", 2_000);
    assert!(snapshot.is_paused("xmip:///n/receive/a"));
    assert!(!snapshot.is_paused("xmip:///n"));
    snapshot.record_count(count("xmip:///n/receive/a", Counted::Streams, 5, 0, 1, 1));
    assert!(snapshot.measure("xmip:///n", Counted::Streams).is_none());
    snapshot.record_count(count("xmip:///n/send", Counted::Streams, 5, 0, 1, 1));
    assert_eq!(snapshot.measure("xmip:///n", Counted::Streams).map(|c| c.value), Some(5));
}

#[test]
fn a_new_scope_beneath_a_paused_one_is_kept_for_resume() {
    let mut snapshot = Snapshot::new();
    snapshot.record_health(health("xmip:///n/receive", Health::Fine, 0));
    snapshot.pause("xmip:///n/receive", "ilian", 2_000);
    let published = snapshot.health_records();
    snapshot.record_health(health("xmip:///n/receive/new", Health::Done, 50));
    assert_eq!(snapshot.health_records(), published);
    assert_eq!(snapshot.worst("xmip:///n/receive/new"), None);
    assert!(snapshot.is_paused("xmip:///n/receive/new"));
    assert_eq!(snapshot.resume("xmip:///n/receive"), 2);
    assert_eq!(snapshot.worst("xmip:///n/receive/new"), Some(Health::Done));
    assert_eq!(snapshot.worst("xmip:///n/receive"), Some(Health::Holding));
    assert!(!snapshot.is_paused("xmip:///n/receive/new"));
}

#[test]
fn a_republished_paused_scope_resumes_to_its_latest_record() {
    let mut snapshot = Snapshot::new();
    snapshot.record_health(health("xmip:///n/a", Health::Fine, 0));
    snapshot.pause("xmip:///n/a", "ilian", 2_000);
    snapshot.record_health(health("xmip:///n/a", Health::Exhausted, 66));
    assert_eq!(snapshot.worst("xmip:///n/a"), Some(Health::Stressed));
    assert_eq!(snapshot.resume("xmip:///n"), 1);
    assert_eq!(snapshot.worst("xmip:///n/a"), Some(Health::Exhausted));
    assert!(!snapshot.is_paused("xmip:///n/a"));
}

#[test]
fn pause_then_resume_restores_health_but_not_counts() {
    let mut snapshot = Snapshot::new();
    snapshot.record_health(health("xmip:///n/a", Health::Working, 12));
    snapshot.record_health(health("xmip:///n/b", Health::Done, 70));
    snapshot.record_health(health("xmip:///m/c", Health::Fine, 0));
    snapshot.record_count(count("xmip:///n/a", Counted::Journeys, 8, 0, 1, 1));
    let before: Vec<HealthRecord> = snapshot.health_records();
    assert_eq!(snapshot.pause("xmip:///n", "ilian", 2_000), 2);
    assert_eq!(snapshot.resume("xmip:///n"), 2);
    assert_eq!(snapshot.health_records(), before);
    assert!(snapshot.measure("xmip:///n", Counted::Journeys).is_none());
}

#[test]
fn pausing_twice_keeps_the_state_from_before_the_first_pause() {
    let mut snapshot = Snapshot::new();
    snapshot.record_health(health("xmip:///n/a", Health::Done, 70));
    snapshot.pause("xmip:///n/a", "ilian", 2_000);
    assert_eq!(snapshot.pause("xmip:///n/a", "ilian", 3_000), 1);
    assert_eq!(snapshot.health("xmip:///n/a")[0].observed_unix_nanos, 3_000);
    assert_eq!(snapshot.resume("xmip:///n/a"), 1);
    assert_eq!(snapshot.health("xmip:///n/a"), vec![health("xmip:///n/a", Health::Done, 70)]);
    assert!(!snapshot.is_paused("xmip:///n/a"));
}

#[test]
fn a_resume_beneath_which_nothing_is_kept_changes_nothing() {
    let mut snapshot = Snapshot::new();
    snapshot.record_health(health("xmip:///n/a", Health::Done, 70));
    snapshot.record_health(health("xmip:///n/b", Health::Fine, 0));
    snapshot.pause("xmip:///n/b", "ilian", 2_000);
    let published = snapshot.health_records();
    assert_eq!(snapshot.resume("xmip:///n/a"), 0);
    assert_eq!(snapshot.health_records(), published);
    assert!(snapshot.is_paused("xmip:///n/b"));
}

#[test]
fn a_count_of_a_scope_without_health_survives_a_pause() {
    let mut snapshot = Snapshot::new();
    snapshot.record_health(health("xmip:///n/a", Health::Fine, 0));
    snapshot.record_count(count("xmip:///n/a", Counted::Bytes, 3, 0, 1, 1));
    snapshot.record_count(count("xmip:///n/b", Counted::Bytes, 4, 0, 1, 1));
    snapshot.pause("xmip:///n", "ilian", 2_000);
    assert_eq!(snapshot.measure("xmip:///n", Counted::Bytes).map(|c| c.value), Some(4));
}

#[test]
fn a_copy_and_a_default_snapshot() {
    let mut snapshot = Snapshot::default();
    assert!(snapshot.health_records().is_empty());
    assert!(snapshot.all_counts().is_empty());
    snapshot.record_health(health("xmip:///n/a", Health::Working, 3));
    let copy = snapshot.clone();
    assert_eq!(copy.health_records(), snapshot.health_records());
}

#[test]
fn a_parent_measures_its_two_children_put_together() {
    let mut snapshot = Snapshot::new();
    snapshot.record_count(count("xmip:///p/a", Counted::Streams, 4, 10, 20, 15));
    snapshot.record_count(count("xmip:///p/a/x", Counted::Streams, 1, 12, 22, 14));
    snapshot.record_count(count("xmip:///p/b", Counted::Streams, 6, 5, 18, 19));
    let a = snapshot.measure("xmip:///p/a", Counted::Streams).unwrap();
    let b = snapshot.measure("xmip:///p/b", Counted::Streams).unwrap();
    let p = snapshot.measure("xmip:///p", Counted::Streams).unwrap();
    assert_eq!(p.value, a.value + b.value);
    assert_eq!(p.window_start_unix_nanos, a.window_start_unix_nanos.min(b.window_start_unix_nanos));
    assert_eq!(p.window_end_unix_nanos, a.window_end_unix_nanos.max(b.window_end_unix_nanos));
    assert_eq!(p.observed_unix_nanos, a.observed_unix_nanos.min(b.observed_unix_nanos));
    assert_eq!((p.value, p.window_start_unix_nanos, p.window_end_unix_nanos, p.observed_unix_nanos), (11, 5, 22, 14));
}
