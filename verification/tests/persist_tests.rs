use serial_monitor::data::DataContainer;
use serial_monitor::data::Packet;
use serial_monitor::data::SerialDirection;
use serial_monitor::persist::LoadError;
use serial_monitor::persist::extension_of;
use serial_monitor::persist::open_from_csv;
use serial_monitor::persist::save_raw_csv;
use serial_monitor::persist::save_to_csv;

fn dataset(times: Vec<u64>, cols: Vec<Vec<&str>>) -> DataContainer {
    let mut d = DataContainer::default();
    d.absolute_time = times.iter().map(|t| t + 5000).collect();
    d.time = times;
    d.dataset = cols
        .into_iter()
        .map(|c| c.into_iter().map(|v| v.to_string()).collect())
        .collect();
    d
}

#[test]
fn round_trip_preserves_times_values_and_names() {
    let d = dataset(vec![0, 100], vec![vec!["1.0", "2.0"], vec!["3.0", "4.0"]]);
    let names = vec!["A".to_string(), "B".to_string()];
    let text = save_to_csv(&d, false, &names);
    assert_eq!(text, "Time [ms],A,B\n0,1.0,3.0\n100,2.0,4.0\n");
    let loaded = open_from_csv(&text).expect("round trip must load");
    assert_eq!(loaded.names, names);
    assert_eq!(loaded.time, vec![0, 100]);
    assert_eq!(
        loaded.dataset,
        vec![
            vec!["1.0".to_string(), "2.0".to_string()],
            vec!["3.0".to_string(), "4.0".to_string()],
        ]
    );
}

#[test]
fn absolute_time_axis_is_selectable() {
    let d = dataset(vec![0, 100], vec![vec!["1", "2"]]);
    let text = save_to_csv(&d, true, &vec!["A".to_string()]);
    assert_eq!(text, "Time [ms],A\n5000,1\n5100,2\n");
}

#[test]
fn names_with_commas_and_quotes_round_trip() {
    let d = dataset(vec![7], vec![vec!["1.5"], vec!["2.5"]]);
    let names = vec!["a,b".to_string(), "c\"d".to_string()];
    let text = save_to_csv(&d, false, &names);
    assert_eq!(text, "Time [ms],\"a,b\",\"c\"\"d\"\n7,1.5,2.5\n");
    let loaded = open_from_csv(&text).expect("quoted names must load");
    assert_eq!(loaded.names, names);
    assert_eq!(loaded.time, vec![7]);
}

#[test]
fn varying_row_widths_fail_to_load() {
    let text = "Time [ms],A\n0,1.0\n5,2.0,3.0\n";
    assert!(matches!(open_from_csv(text), Err(LoadError::WidthMismatch)));
}

#[test]
fn empty_artifact_fails_to_load() {
    assert!(matches!(open_from_csv(""), Err(LoadError::EmptyFile)));
}

#[test]
fn bad_timestamp_fails_to_load() {
    let text = "Time [ms],A\nx,1.0\n";
    assert!(matches!(open_from_csv(text), Err(LoadError::BadTime)));
    let text = "Time [ms],A\n-3,1.0\n";
    assert!(matches!(open_from_csv(text), Err(LoadError::BadTime)));
}

#[test]
fn non_numeric_value_fails_to_load() {
    let text = "Time [ms],A\n0,abc\n";
    assert!(matches!(open_from_csv(text), Err(LoadError::BadValue)));
}

#[test]
fn unclosed_quote_fails_to_load() {
    let text = "Time [ms],A\n0,\"1.0\n";
    assert!(matches!(open_from_csv(text), Err(LoadError::BadQuoting)));
    let text = "\"Time [ms,A\n0,1.0\n";
    assert!(matches!(open_from_csv(text), Err(LoadError::BadHeader)));
}

#[test]
fn crlf_artifacts_load_like_lf_artifacts() {
    let text = "Time [ms],A\r\n0,1.0\r\n";
    let loaded = open_from_csv(text).expect("crlf must load");
    assert_eq!(loaded.names, vec!["A".to_string()]);
    assert_eq!(loaded.time, vec![0]);
    assert_eq!(loaded.dataset, vec![vec!["1.0".to_string()]]);
}

#[test]
fn header_only_artifact_loads_empty_columns() {
    let loaded = open_from_csv("Time [ms],A,B\n").expect("header alone must load");
    assert_eq!(loaded.names, vec!["A".to_string(), "B".to_string()]);
    assert!(loaded.time.is_empty());
    assert_eq!(loaded.dataset, vec![Vec::<String>::new(), Vec::<String>::new()]);
}

#[test]
fn raw_artifact_quotes_awkward_payloads() {
    let mut d = DataContainer::default();
    d.raw_traffic.push(Packet {
        direction: SerialDirection::Send,
        payload: "go,now".to_string(),
        relative_time: 3,
        absolute_time: 1003,
    });
    d.raw_traffic.push(Packet {
        direction: SerialDirection::Receive,
        payload: "ok".to_string(),
        relative_time: 9,
        absolute_time: 1009,
    });
    let text = save_raw_csv(&d, false);
    assert_eq!(
        text,
        "Direction,Time [ms],Payload\nSEND,3,\"go,now\"\nRECV,9,ok\n"
    );
}

#[test]
fn extension_is_the_suffix_of_the_last_segment() {
    assert_eq!(extension_of("capture.csv"), Some("csv".to_string()));
    assert_eq!(extension_of("dir.d/file.txt"), Some("txt".to_string()));
    assert_eq!(extension_of("dir.d/file"), None);
    assert_eq!(extension_of("noext"), None);
    assert_eq!(extension_of("trailing."), Some("".to_string()));
}
