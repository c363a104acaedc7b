use serial_monitor::aggregator::AggregatorState;
use serial_monitor::aggregator::ThreadMsg;
use serial_monitor::aggregator::clear;
use serial_monitor::aggregator::ingest;
use serial_monitor::aggregator::main_thread;
use serial_monitor::aggregator::split;
use serial_monitor::data::DataContainer;
use serial_monitor::data::Packet;
use serial_monitor::data::SerialDirection;
use serial_monitor::persist::FileOptions;
use serial_monitor::persist::LoadError;

fn fresh() -> AggregatorState {
    AggregatorState {
        data: DataContainer::default(),
        failed_format_counter: 0,
        file_opened: false,
    }
}

fn received(payload: &str, rel: u64) -> Packet {
    Packet {
        direction: SerialDirection::Receive,
        payload: payload.to_string(),
        relative_time: rel,
        absolute_time: rel + 1000,
    }
}

#[test]
fn split_keeps_numeric_tokens_in_order() {
    assert_eq!(split("1.0,2.5:3e2"), vec!["1.0", "2.5", "3e2"]);
}

#[test]
fn split_trims_and_discards_bad_tokens() {
    assert_eq!(split(" 1.0 , x, 2"), vec!["1.0", "2"]);
    assert!(split("hello world").is_empty());
    assert!(split("").is_empty());
}

#[test]
fn split_accepts_special_floats() {
    assert_eq!(split("nan,inf,-INF,Infinity"), vec!["nan", "inf", "-INF", "Infinity"]);
}

#[test]
fn first_frame_fixes_the_epoch_width() {
    let mut s = fresh();
    ingest(&mut s, received("1,2", 0));
    assert_eq!(s.data.dataset.len(), 2);
    assert!(s.data.dataset[0].is_empty());
    assert!(s.data.time.is_empty());
}

#[test]
fn matching_frames_append_one_value_per_column() {
    let mut s = fresh();
    ingest(&mut s, received("1,2", 0));
    ingest(&mut s, received("3,4", 10));
    ingest(&mut s, received("5,6", 20));
    assert_eq!(s.data.dataset, vec![vec!["3", "5"], vec!["4", "6"]]);
    assert_eq!(s.data.time, vec![10, 20]);
    assert_eq!(s.data.absolute_time, vec![1010, 1020]);
    assert_eq!(s.failed_format_counter, 0);
    assert_eq!(s.data.raw_traffic.len(), 3);
}

#[test]
fn tokenless_first_frame_still_opens_one_column() {
    let mut s = fresh();
    ingest(&mut s, received("bogus", 0));
    assert_eq!(s.data.dataset.len(), 1);
}

#[test]
fn ten_malformed_frames_are_tolerated_without_data_loss() {
    let mut s = fresh();
    ingest(&mut s, received("1,2", 0));
    ingest(&mut s, received("3,4", 10));
    for k in 0..10u64 {
        ingest(&mut s, received("9", 20 + k));
    }
    assert_eq!(s.failed_format_counter, 10);
    assert_eq!(s.data.dataset, vec![vec!["3"], vec!["4"]]);
    assert_eq!(s.data.time, vec![10]);
}

#[test]
fn eleventh_malformed_frame_forces_a_reset_on_the_next_frame() {
    let mut s = fresh();
    ingest(&mut s, received("1,2", 0));
    for k in 0..11u64 {
        ingest(&mut s, received("9", 10 + k));
    }
    assert_eq!(s.failed_format_counter, 11);
    ingest(&mut s, received("7,8,9", 50));
    assert_eq!(s.data.dataset.len(), 3);
    assert!(s.data.time.is_empty());
    assert_eq!(s.failed_format_counter, 0);
}

#[test]
fn sent_events_are_logged_but_never_parsed() {
    let mut s = fresh();
    let sent = Packet {
        direction: SerialDirection::Send,
        payload: "1,2\r\n".to_string(),
        relative_time: 0,
        absolute_time: 0,
    };
    ingest(&mut s, sent);
    assert!(s.data.dataset.is_empty());
    assert_eq!(s.data.raw_traffic.len(), 1);
}

#[test]
fn empty_payloads_only_reach_the_raw_log() {
    let mut s = fresh();
    ingest(&mut s, received("", 0));
    assert!(s.data.dataset.is_empty());
    assert_eq!(s.data.raw_traffic.len(), 1);
}

#[test]
fn clear_resets_everything() {
    let mut s = fresh();
    ingest(&mut s, received("1,2", 0));
    ingest(&mut s, received("3,4", 10));
    ingest(&mut s, received("9", 20));
    clear(&mut s);
    assert!(s.data.time.is_empty());
    assert!(s.data.dataset.is_empty());
    assert!(s.data.raw_traffic.is_empty());
    assert_eq!(s.failed_format_counter, 0);
    assert!(!s.data.loaded_from_file);
    assert!(!s.file_opened);
}

#[test]
fn main_thread_clear_only_acts_on_true() {
    let mut s = fresh();
    ingest(&mut s, received("1", 0));
    ingest(&mut s, received("2", 5));
    let out = main_thread(&mut s, ThreadMsg::Clear(false));
    assert!(!out.sync);
    assert_eq!(s.data.raw_traffic.len(), 2);
    main_thread(&mut s, ThreadMsg::Clear(true));
    assert!(s.data.raw_traffic.is_empty());
}

#[test]
fn main_thread_reports_sync_for_nonempty_payloads() {
    let mut s = fresh();
    let out = main_thread(&mut s, ThreadMsg::Data(received("1,2", 0)));
    assert!(out.sync);
    let out = main_thread(&mut s, ThreadMsg::Data(received("", 1)));
    assert!(!out.sync);
}

#[test]
fn loaded_file_suspends_live_ingestion_until_cleared() {
    let mut s = fresh();
    let out = main_thread(
        &mut s,
        ThreadMsg::LoadFile {
            path: "capture.csv".to_string(),
            content: "Time [ms],A\n0,1.5\n".to_string(),
        },
    );
    assert_eq!(out.loaded_names, Some(vec!["A".to_string()]));
    assert!(out.error.is_none());
    assert!(s.file_opened);
    assert!(s.data.loaded_from_file);
    assert_eq!(s.data.time, vec![0]);
    assert_eq!(s.data.dataset, vec![vec!["1.5"]]);

    let out = main_thread(&mut s, ThreadMsg::Data(received("9,9", 0)));
    assert!(!out.sync);
    assert_eq!(s.data.dataset, vec![vec!["1.5"]]);

    main_thread(&mut s, ThreadMsg::Clear(true));
    assert!(!s.file_opened);
    let out = main_thread(&mut s, ThreadMsg::Data(received("9,9", 0)));
    assert!(out.sync);
    assert_eq!(s.data.dataset.len(), 2);
}

#[test]
fn close_file_resumes_live_mode_without_clearing() {
    let mut s = fresh();
    main_thread(
        &mut s,
        ThreadMsg::LoadFile {
            path: "d.csv".to_string(),
            content: "Time [ms],A\n3,2.5\n".to_string(),
        },
    );
    main_thread(&mut s, ThreadMsg::CloseFile);
    assert!(!s.file_opened);
    assert_eq!(s.data.time, vec![3]);
}

#[test]
fn unsupported_extension_is_rejected_before_parsing() {
    let mut s = fresh();
    let out = main_thread(
        &mut s,
        ThreadMsg::LoadFile {
            path: "notes.txt".to_string(),
            content: "Time [ms],A\n0,1.0\n".to_string(),
        },
    );
    assert_eq!(out.error, Some(LoadError::UnsupportedExtension));
    assert!(out.loaded_names.is_none());
    assert!(!s.file_opened);
    assert!(s.data.time.is_empty());
}

#[test]
fn failed_load_reports_and_leaves_data_alone() {
    let mut s = fresh();
    ingest(&mut s, received("1,2", 0));
    ingest(&mut s, received("3,4", 10));
    let out = main_thread(
        &mut s,
        ThreadMsg::LoadFile {
            path: "bad.csv".to_string(),
            content: "Time [ms],A\n0,1.0\n5,2.0,3.0\n".to_string(),
        },
    );
    assert_eq!(out.error, Some(LoadError::WidthMismatch));
    assert!(!s.file_opened);
    assert_eq!(s.data.time, vec![10]);
}

#[test]
fn save_renders_both_artifacts_on_request() {
    let mut s = fresh();
    ingest(&mut s, received("1.5", 0));
    ingest(&mut s, received("2.5", 10));
    let opts = FileOptions {
        file_path: "out.csv".to_string(),
        save_absolute_time: false,
        save_raw_traffic: true,
        names: vec!["A".to_string()],
    };
    let out = main_thread(&mut s, ThreadMsg::SaveFile(opts));
    let arts = out.artifacts.expect("save must render artifacts");
    assert_eq!(arts.data_csv, "Time [ms],A\n10,2.5\n");
    let raw = arts.raw_csv.expect("raw artifact was requested");
    assert_eq!(
        raw,
        "Direction,Time [ms],Payload\nRECV,0,1.5\nRECV,10,2.5\n"
    );
}
