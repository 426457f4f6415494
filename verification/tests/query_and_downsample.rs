use r_station::downsample::prune_measurements;
use r_station::fetch_measurements;
use r_station::insert_measurements;
use r_station::DbState;
use r_station::Measurement;
use r_station::MeasurementQuery;

fn m(sensor: &str, timestamp_us: u64, value: f64) -> Measurement {
    Measurement {
        sensor: sensor.as_bytes().to_vec(),
        timestamp_us,
        value_bits: value.to_bits(),
    }
}

fn timestamps(ms: &[Measurement]) -> Vec<u64> {
    ms.iter().map(|m| m.timestamp_us).collect()
}

#[test]
fn downsample_is_noop_when_under_limit() {
    let input: Vec<Measurement> = (1..=5).map(|i| m("a", i, i as f64)).collect();
    let expected = timestamps(&input);
    let out = prune_measurements(input, 5);
    assert_eq!(timestamps(&out), expected);
}

#[test]
fn downsample_large_uniform_input_hits_limit() {
    let input: Vec<Measurement> = (1..=10_000).map(|i| m("a", i, 0.0)).collect();
    let out = prune_measurements(input, 100);
    assert_eq!(out.len(), 100);
    assert_eq!(out[0].timestamp_us, 1);
    assert_eq!(out[1].timestamp_us, 101);
}

#[test]
fn downsample_applies_literal_stride_rule() {
    // 11 points, limit 10: stride 2, primary keeps local indices
    // 0,2,4,6,8,10, and the half-stride offset keeps 3,5,7,9 in the tail
    // window starting at index 3.
    let input: Vec<Measurement> = (0..11).map(|i| m("a", i + 1, 0.0)).collect();
    let out = prune_measurements(input, 10);
    assert_eq!(timestamps(&out), vec![1, 3, 4, 5, 6, 7, 8, 9, 10, 11]);
}

#[test]
fn downsample_groups_by_first_appearance() {
    let input = vec![
        m("b", 10, 0.0),
        m("a", 20, 0.0),
        m("b", 30, 0.0),
        m("a", 40, 0.0),
    ];
    let out = prune_measurements(input, 2);
    // stride 2: each group keeps its local index 0; groups come in
    // first-appearance order.
    assert_eq!(timestamps(&out), vec![10, 20]);
    assert_eq!(out[0].sensor, b"b".to_vec());
    assert_eq!(out[1].sensor, b"a".to_vec());
}

fn fresh() -> (sled::Db, DbState) {
    let db = sled::Config::new().temporary(true).open().unwrap();
    let state = DbState::new(&db).unwrap();
    (db, state)
}

#[test]
fn query_with_time_window_and_prefix_filters_in_memory() {
    let (_db, mut state) = fresh();
    insert_measurements(
        vec![m("temp-1", 100, 1.0), m("hum-1", 150, 2.0), m("temp-1", 400, 3.0)],
        &mut state,
    )
    .unwrap();
    let q = MeasurementQuery {
        sensor: Some(b"temp".to_vec()),
        from: Some(50),
        to: Some(200),
        max_num_points: None,
    };
    let got = fetch_measurements(&state, &q).unwrap();
    assert_eq!(timestamps(&got), vec![100]);
    assert_eq!(got[0].sensor, b"temp-1".to_vec());
}

#[test]
fn query_without_constraints_returns_everything() {
    let (_db, mut state) = fresh();
    insert_measurements(vec![m("x", 5, 1.0), m("y", 9, 2.0)], &mut state).unwrap();
    let q = MeasurementQuery { sensor: None, from: None, to: None, max_num_points: None };
    let got = fetch_measurements(&state, &q).unwrap();
    assert_eq!(timestamps(&got), vec![5, 9]);
}

#[test]
fn query_with_sensor_only_uses_prefix_scan() {
    let (_db, mut state) = fresh();
    insert_measurements(vec![m("x", 5, 1.0), m("y", 9, 2.0)], &mut state).unwrap();
    let q = MeasurementQuery {
        sensor: Some(b"y".to_vec()),
        from: None,
        to: None,
        max_num_points: None,
    };
    let got = fetch_measurements(&state, &q).unwrap();
    assert_eq!(timestamps(&got), vec![9]);
}

#[test]
fn query_with_point_ceiling_downsamples() {
    let (_db, mut state) = fresh();
    let batch: Vec<Measurement> = (1..=40).map(|i| m("a", i, 0.0)).collect();
    insert_measurements(batch, &mut state).unwrap();
    let q = MeasurementQuery {
        sensor: None,
        from: None,
        to: None,
        max_num_points: Some(10),
    };
    let got = fetch_measurements(&state, &q).unwrap();
    assert!(got.len() <= 10);
    assert_eq!(got[0].timestamp_us, 1);
}
