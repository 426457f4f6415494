use r_station::DeviceLogs;

#[test]
fn new_ring_has_no_lines() {
    let logs = DeviceLogs::new();
    assert!(logs.get_logs().is_empty());
}

#[test]
fn lines_come_back_in_write_order() {
    let mut logs = DeviceLogs::new();
    logs.add_log("first".to_owned());
    logs.add_log("second".to_owned());
    logs.add_log("third".to_owned());
    let got = logs.get_logs();
    assert_eq!(got, vec!["first".to_owned(), "second".to_owned(), "third".to_owned()]);
}

#[test]
fn ring_overwrites_oldest_lines() {
    let mut logs = DeviceLogs::new();
    for i in 1..=300u32 {
        logs.add_log(format!("line{}", i));
    }
    let got = logs.get_logs();
    assert_eq!(got.len(), 256);
    assert_eq!(got[0], "line45".to_owned());
    assert_eq!(got[255], "line300".to_owned());
}
