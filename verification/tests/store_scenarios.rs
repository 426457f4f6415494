use r_station::fetch_all_measurements;
use r_station::fetch_measurements_by_sensor;
use r_station::fetch_measurements_by_ts;
use r_station::insert_measurements;
use r_station::prune::prune_measurements;
use r_station::DbState;
use r_station::Measurement;
use r_station::TsBound;

fn m(sensor: &str, timestamp_us: u64, value: f64) -> Measurement {
    Measurement {
        sensor: sensor.as_bytes().to_vec(),
        timestamp_us,
        value_bits: value.to_bits(),
    }
}

fn fresh_db() -> (sled::Db, DbState) {
    let db = sled::Config::new().temporary(true).open().unwrap();
    let state = DbState::new(&db).unwrap();
    (db, state)
}

fn timestamps(ms: &[Measurement]) -> Vec<u64> {
    ms.iter().map(|m| m.timestamp_us).collect()
}

#[test]
fn time_range_scan_returns_inclusive_window() {
    let (_db, mut state) = fresh_db();
    insert_measurements(vec![m("a", 100, 1.0), m("a", 200, 2.0), m("a", 300, 3.0)], &mut state)
        .unwrap();
    let got = fetch_measurements_by_ts(
        &state,
        &TsBound::Included(100),
        &TsBound::Included(200),
    )
    .unwrap();
    assert_eq!(timestamps(&got), vec![100, 200]);
    assert_eq!(got[0].value_bits, 1.0f64.to_bits());
    assert_eq!(got[1].value_bits, 2.0f64.to_bits());
}

#[test]
fn inclusive_upper_bound_keeps_sensor_suffixed_keys() {
    let (_db, mut state) = fresh_db();
    insert_measurements(vec![m("a", 200, 1.0), m("b", 200, 2.0), m("a", 201, 3.0)], &mut state)
        .unwrap();
    let got = fetch_measurements_by_ts(
        &state,
        &TsBound::Unbounded,
        &TsBound::Included(200),
    )
    .unwrap();
    assert_eq!(timestamps(&got), vec![200, 200]);
}

#[test]
fn prefix_scan_matches_prefixed_sensors() {
    let (_db, mut state) = fresh_db();
    insert_measurements(vec![m("temp-1", 10, 1.0), m("temp-10", 20, 2.0)], &mut state).unwrap();
    let got = fetch_measurements_by_sensor(&state, &b"temp-1".to_vec()).unwrap();
    assert_eq!(got.len(), 2);
    assert_eq!(got[0].sensor, b"temp-1".to_vec());
    assert_eq!(got[1].sensor, b"temp-10".to_vec());
}

#[test]
fn prefix_scan_skips_other_sensors() {
    let (_db, mut state) = fresh_db();
    insert_measurements(
        vec![m("temp-1", 10, 1.0), m("temp-2", 20, 2.0), m("hum-1", 30, 3.0)],
        &mut state,
    )
    .unwrap();
    let got = fetch_measurements_by_sensor(&state, &b"temp-1".to_vec()).unwrap();
    assert_eq!(got.len(), 1);
    assert_eq!(got[0].sensor, b"temp-1".to_vec());
}

#[test]
fn zero_timestamp_records_are_dropped() {
    let (_db, mut state) = fresh_db();
    insert_measurements(vec![m("a", 0, 9.0), m("a", 50, 1.0)], &mut state).unwrap();
    let got = fetch_all_measurements(&state).unwrap();
    assert_eq!(timestamps(&got), vec![50]);
    let by_sensor = fetch_measurements_by_sensor(&state, &b"a".to_vec()).unwrap();
    assert_eq!(timestamps(&by_sensor), vec![50]);
}

#[test]
fn corrupted_key_is_skipped_not_fatal() {
    let db = sled::Config::new().temporary(true).open().unwrap();
    let raw = db.open_tree("measurements-timestamp-prefixed").unwrap();
    raw.insert(&[1u8, 2, 3, 4][..], &[][..]).unwrap();
    let mut state = DbState::new(&db).unwrap();
    insert_measurements(vec![m("a", 77, 1.5)], &mut state).unwrap();
    let got = fetch_all_measurements(&state).unwrap();
    assert_eq!(timestamps(&got), vec![77]);
}

#[test]
fn scan_order_is_time_then_sensor() {
    let (_db, mut state) = fresh_db();
    insert_measurements(
        vec![m("b", 300, 1.0), m("a", 100, 2.0), m("c", 200, 3.0), m("a", 200, 4.0)],
        &mut state,
    )
    .unwrap();
    let got = fetch_all_measurements(&state).unwrap();
    assert_eq!(timestamps(&got), vec![100, 200, 200, 300]);
    assert_eq!(got[1].sensor, b"a".to_vec());
    assert_eq!(got[2].sensor, b"c".to_vec());
}

#[test]
fn pruner_keeps_spaced_points_and_recent_data() {
    let (_db, mut state) = fresh_db();
    insert_measurements(
        vec![
            m("a", 1000, 1.0),
            m("a", 1001, 2.0),
            m("a", 1002, 3.0),
            m("a", 2000, 4.0),
            m("a", 2999, 5.0),
            m("a", 5000, 6.0),
        ],
        &mut state,
    )
    .unwrap();
    prune_measurements(&mut state, 3000, 500, 2).unwrap();
    let got = fetch_all_measurements(&state).unwrap();
    assert_eq!(timestamps(&got), vec![1000, 2000, 2999, 5000]);
    let by_sensor = fetch_measurements_by_sensor(&state, &b"a".to_vec()).unwrap();
    assert_eq!(timestamps(&by_sensor), vec![1000, 2000, 2999, 5000]);
}

#[test]
fn pruner_is_idempotent() {
    let (_db, mut state) = fresh_db();
    insert_measurements(
        vec![m("a", 100, 1.0), m("a", 150, 2.0), m("a", 800, 3.0)],
        &mut state,
    )
    .unwrap();
    prune_measurements(&mut state, 1000, 200, 16).unwrap();
    let first = timestamps(&fetch_all_measurements(&state).unwrap());
    prune_measurements(&mut state, 1000, 200, 16).unwrap();
    let second = timestamps(&fetch_all_measurements(&state).unwrap());
    assert_eq!(first, vec![100, 800]);
    assert_eq!(first, second);
}

#[test]
fn pruner_handles_multiple_sensors_independently() {
    let (_db, mut state) = fresh_db();
    insert_measurements(
        vec![m("a", 100, 1.0), m("b", 110, 2.0), m("a", 120, 3.0), m("b", 400, 4.0)],
        &mut state,
    )
    .unwrap();
    prune_measurements(&mut state, 1000, 100, 8).unwrap();
    let got = fetch_all_measurements(&state).unwrap();
    assert_eq!(timestamps(&got), vec![100, 110, 400]);
}
