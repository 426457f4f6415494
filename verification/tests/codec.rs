use r_station::decode_sensor_prefixed_key;
use r_station::decode_ts_prefixed_key;
use r_station::get_sensor_prefixed_key;
use r_station::get_ts_prefixed_key;
use r_station::payload::decode_payload;
use r_station::payload::encode_payload;
use r_station::ts_bound_to_key;
use r_station::KeyBound;
use r_station::Measurement;
use r_station::TsBound;

fn m(sensor: &str, timestamp_us: u64, value: f64) -> Measurement {
    Measurement {
        sensor: sensor.as_bytes().to_vec(),
        timestamp_us,
        value_bits: value.to_bits(),
    }
}

#[test]
fn ts_prefixed_key() {
    let m = m("sensor", 123456789098u64, 1.233242);
    let key = get_ts_prefixed_key(&m);
    let (ts, sensor) = decode_ts_prefixed_key(&key).unwrap();
    assert_eq!(m.timestamp_us, ts);
    assert_eq!(m.sensor, sensor);
}

#[test]
fn sensor_prefixed_key() {
    let m = m("sensor", 123456789098u64, 1.233242);
    let key = get_sensor_prefixed_key(&m);
    let (ts, sensor) = decode_sensor_prefixed_key(&key).unwrap();
    assert_eq!(m.timestamp_us, ts);
    assert_eq!(m.sensor, sensor);
}

#[test]
fn ts_key_layout_is_big_endian_then_sensor() {
    let m = m("ab", 0x0102030405060708u64, 0.0);
    let key = get_ts_prefixed_key(&m);
    assert_eq!(key, vec![1, 2, 3, 4, 5, 6, 7, 8, b'a', b'b']);
}

#[test]
fn sensor_key_layout_has_zero_separator() {
    let m = m("ab", 0x0102030405060708u64, 0.0);
    let key = get_sensor_prefixed_key(&m);
    assert_eq!(key, vec![b'a', b'b', 0, 1, 2, 3, 4, 5, 6, 7, 8]);
}

#[test]
fn ts_keys_order_by_timestamp() {
    let a = get_ts_prefixed_key(&m("zzz", 100, 0.0));
    let b = get_ts_prefixed_key(&m("aaa", 200, 0.0));
    assert!(a < b);
}

#[test]
fn sensor_keys_group_by_sensor_then_time() {
    let a1 = get_sensor_prefixed_key(&m("a", 500, 0.0));
    let a2 = get_sensor_prefixed_key(&m("a", 900, 0.0));
    let b1 = get_sensor_prefixed_key(&m("b", 100, 0.0));
    assert!(a1 < a2);
    assert!(a2 < b1);
}

#[test]
fn empty_sensor_round_trips() {
    let m = m("", 42, 0.0);
    let key = get_ts_prefixed_key(&m);
    let (ts, sensor) = decode_ts_prefixed_key(&key).unwrap();
    assert_eq!(ts, 42);
    assert!(sensor.is_empty());
    let key = get_sensor_prefixed_key(&m);
    let (ts, sensor) = decode_sensor_prefixed_key(&key).unwrap();
    assert_eq!(ts, 42);
    assert!(sensor.is_empty());
}

#[test]
fn short_ts_key_is_rejected() {
    assert!(decode_ts_prefixed_key(&vec![1, 2, 3, 4]).is_err());
}

#[test]
fn sensor_key_without_separator_is_rejected() {
    assert!(decode_sensor_prefixed_key(&vec![b'a', b'b', b'c']).is_err());
}

#[test]
fn sensor_key_with_short_timestamp_is_rejected() {
    assert!(decode_sensor_prefixed_key(&vec![b'a', 0, 1, 2, 3]).is_err());
}

#[test]
fn payload_round_trips() {
    let bits = 1.233242f64.to_bits();
    let payload = encode_payload(bits);
    assert_eq!(decode_payload(&payload), Some(bits));
}

#[test]
fn empty_payload_is_zero() {
    assert_eq!(decode_payload(&Vec::new()), Some(0));
}

#[test]
fn garbled_payload_is_rejected() {
    assert_eq!(decode_payload(&vec![1, 2, 3]), None);
}

#[test]
fn inclusive_upper_bound_becomes_exclusive_successor() {
    let b = ts_bound_to_key(&TsBound::Included(100), true);
    match b {
        KeyBound::Excluded(key) => assert_eq!(key, vec![0, 0, 0, 0, 0, 0, 0, 101]),
        _ => panic!("expected an exclusive key bound"),
    }
}

#[test]
fn max_timestamp_upper_bound_becomes_unbounded() {
    let b = ts_bound_to_key(&TsBound::Included(u64::MAX), true);
    assert!(matches!(b, KeyBound::Unbounded));
}

#[test]
fn inclusive_lower_bound_stays_inclusive() {
    let b = ts_bound_to_key(&TsBound::Included(7), false);
    match b {
        KeyBound::Included(key) => assert_eq!(key, vec![0, 0, 0, 0, 0, 0, 0, 7]),
        _ => panic!("expected an inclusive key bound"),
    }
}

#[test]
fn ts_key_with_invalid_text_is_rejected() {
    let mut key = vec![0, 0, 0, 0, 0, 0, 0, 1];
    key.push(0xFF);
    assert!(decode_ts_prefixed_key(&key).is_err());
}

#[test]
fn sensor_key_with_invalid_text_is_rejected() {
    let mut key = vec![0xFF, 0x00];
    key.extend_from_slice(&[0, 0, 0, 0, 0, 0, 0, 1]);
    assert!(decode_sensor_prefixed_key(&key).is_err());
}

#[test]
fn multi_byte_text_sensor_round_trips() {
    let m = m("température-α", 987654321, 2.5);
    let key = get_ts_prefixed_key(&m);
    let (ts, sensor) = decode_ts_prefixed_key(&key).unwrap();
    assert_eq!(ts, 987654321);
    assert_eq!(sensor, m.sensor);
    let key = get_sensor_prefixed_key(&m);
    let (ts, sensor) = decode_sensor_prefixed_key(&key).unwrap();
    assert_eq!(ts, 987654321);
    assert_eq!(sensor, m.sensor);
}

#[test]
fn truncated_multi_byte_text_is_rejected() {
    // a two-byte sequence cut after its lead byte
    let mut key = vec![0, 0, 0, 0, 0, 0, 0, 1];
    key.push(0xC3);
    assert!(decode_ts_prefixed_key(&key).is_err());
}
