use payload_pulverizer::telemetry::AggregateRow;
use payload_pulverizer::telemetry::TelemetryLog;

fn row_for<'a>(rows: &'a [AggregateRow], endpoint: &str) -> Option<&'a AggregateRow> {
    rows.iter().find(|row| row.endpoint == endpoint)
}

#[test]
fn three_records_aggregate_exactly() {
    let mut log = TelemetryLog::new();
    log.record("alpha".to_string(), 100, 50);
    log.record("alpha".to_string(), 100, 50);
    log.record("alpha".to_string(), 100, 50);
    let rows = log.query();
    assert_eq!(rows.len(), 1);
    let row = row_for(&rows, "alpha").expect("alpha must be aggregated");
    assert_eq!(row.count, 3);
    assert_eq!(row.total_bytes, 300);
    assert_eq!(row.total_runtime_us, 150);
    let avg_payload_size = row.total_bytes as f64 / row.count as f64;
    assert_eq!(avg_payload_size, 100.0);
}

#[test]
fn unrecorded_endpoint_is_absent() {
    let mut log = TelemetryLog::new();
    log.record("alpha".to_string(), 10, 5);
    let rows = log.query();
    assert!(row_for(&rows, "beta").is_none());
}

#[test]
fn empty_log_aggregates_to_nothing() {
    let log = TelemetryLog::new();
    assert!(log.query().is_empty());
}

#[test]
fn endpoints_grouped_in_first_occurrence_order() {
    let mut log = TelemetryLog::new();
    log.record("shred".to_string(), 10, 1);
    log.record("burn".to_string(), 20, 2);
    log.record("shred".to_string(), 30, 3);
    log.record("blackhole".to_string(), 40, 4);
    let rows = log.query();
    assert_eq!(rows.len(), 3);
    assert_eq!(rows[0].endpoint, "shred");
    assert_eq!(rows[1].endpoint, "burn");
    assert_eq!(rows[2].endpoint, "blackhole");
    assert_eq!(rows[0].count, 2);
    assert_eq!(rows[0].total_bytes, 40);
    assert_eq!(rows[0].total_runtime_us, 4);
    assert_eq!(rows[1].count, 1);
    assert_eq!(rows[2].count, 1);
}

#[test]
fn averages_follow_from_totals() {
    let mut log = TelemetryLog::new();
    log.record("pulverize".to_string(), 100, 10);
    log.record("pulverize".to_string(), 50, 30);
    let rows = log.query();
    let row = row_for(&rows, "pulverize").expect("pulverize must be aggregated");
    assert_eq!(row.count, 2);
    assert_eq!(row.total_bytes, 150);
    assert_eq!(row.total_runtime_us, 40);
    let avg_payload_size = row.total_bytes as f64 / row.count as f64;
    let avg_runtime_us = row.total_runtime_us as f64 / row.count as f64;
    assert_eq!(avg_payload_size, 75.0);
    assert_eq!(avg_runtime_us, 20.0);
}

#[test]
fn queries_do_not_change_the_log() {
    let mut log = TelemetryLog::new();
    log.record("burn".to_string(), 7, 3);
    let first = log.query();
    let second = log.query();
    assert_eq!(first.len(), second.len());
    assert_eq!(first[0].endpoint, second[0].endpoint);
    assert_eq!(first[0].count, second[0].count);
    assert_eq!(first[0].total_bytes, second[0].total_bytes);
    assert_eq!(first[0].total_runtime_us, second[0].total_runtime_us);
}

#[test]
fn large_values_do_not_overflow_totals() {
    let mut log = TelemetryLog::new();
    log.record("blackhole".to_string(), u64::MAX, u64::MAX);
    log.record("blackhole".to_string(), u64::MAX, u64::MAX);
    let rows = log.query();
    let row = row_for(&rows, "blackhole").expect("blackhole must be aggregated");
    assert_eq!(row.count, 2);
    assert_eq!(row.total_bytes, 2 * (u64::MAX as u128));
    assert_eq!(row.total_runtime_us, 2 * (u64::MAX as u128));
}
