use guise::devtools::state::{
    format_bytes, format_duration, format_timestamp, DevToolsState, Limits, LogLevel, LogRecord,
    NetworkRecord, RequestState, SourceRef, StorageDomain, StorageEntry, Timings,
};
use guise::time::Duration;

#[test]
fn identical_log_lines_coalesce() {
    let mut state = DevToolsState::new();
    state.push_log(LogRecord::new(LogLevel::Warning, "slow frame"));
    state.push_log(LogRecord::new(LogLevel::Warning, "slow frame"));
    state.push_log(LogRecord::new(LogLevel::Warning, "slow frame"));

    assert_eq!(state.logs().len(), 1);
    assert_eq!(state.logs()[0].count, 3);
    assert_eq!(state.log_issues(), (3, 0));
}

#[test]
fn a_different_line_breaks_the_run() {
    let mut state = DevToolsState::new();
    state.push_log(LogRecord::new(LogLevel::Log, "a"));
    state.push_log(LogRecord::new(LogLevel::Log, "b"));
    state.push_log(LogRecord::new(LogLevel::Log, "a"));

    assert_eq!(state.logs().len(), 3);
    assert!(state.logs().iter().all(|r| r.count == 1));
}

#[test]
fn logs_evict_oldest_past_the_limit() {
    let mut state = DevToolsState::new().limits(Limits {
        logs: 3,
        ..Limits::default()
    });
    for i in 0..6 {
        state.push_log(LogRecord::new(LogLevel::Log, &format!("line {i}")));
    }

    assert_eq!(state.logs().len(), 3);
    assert_eq!(state.logs()[0].message.as_str(), "line 3");
    assert_eq!(state.logs()[2].message.as_str(), "line 5");
}

#[test]
fn a_request_settles_by_id() {
    let mut state = DevToolsState::new();
    let id = state.push_network(NetworkRecord::new(
        "GET",
        "https://api.example.com/v1/users",
    ));
    assert_eq!(state.network()[0].state, RequestState::Pending);

    state.update_network(id, |mut record| {
        record.state = RequestState::Finished;
        record.status = Some(200);
        record
    });

    assert_eq!(state.network()[0].state, RequestState::Finished);
    assert_eq!(state.network()[0].status, Some(200));
}

#[test]
fn settling_an_evicted_request_is_a_no_op() {
    let mut state = DevToolsState::new().limits(Limits {
        network: 1,
        ..Limits::default()
    });
    let first = state.push_network(NetworkRecord::new("GET", "https://example.com/a"));
    state.push_network(NetworkRecord::new("GET", "https://example.com/b"));

    state.update_network(first, |mut record| {
        record.status = Some(500);
        record
    });

    assert_eq!(state.network().len(), 1);
    assert_eq!(state.network()[0].status, None);
}

#[test]
fn url_splits_into_name_domain_and_scheme() {
    let record = NetworkRecord::new("GET", "https://api.example.com/v1/users?page=2");
    assert_eq!(record.name(), "users");
    assert_eq!(record.domain(), "api.example.com");
    assert_eq!(record.scheme(), "https");

    let root = NetworkRecord::new("GET", "https://example.com/");
    assert_eq!(root.domain(), "example.com");

    let bare = NetworkRecord::new("GET", "https://example.com");
    assert_eq!(bare.name(), "example.com");
}

#[test]
fn errors_are_status_or_transport() {
    assert!(NetworkRecord::new("GET", "/a")
        .status(404, "Not Found")
        .is_error());
    assert!(NetworkRecord::new("GET", "/a")
        .status(500, "Server Error")
        .is_error());
    assert!(!NetworkRecord::new("GET", "/a")
        .status(304, "Not Modified")
        .is_error());
    assert!(NetworkRecord::new("GET", "/a").failed("offline").is_error());
}

#[test]
fn timings_sum_and_drop_empty_phases() {
    let timings = Timings {
        dns: Duration::from_millis(4),
        connect: Duration::from_millis(11),
        response: Duration::from_millis(35),
        ..Timings::default()
    };

    assert_eq!(timings.total(), Duration::from_millis(50));
    assert_eq!(
        timings.phases().iter().map(|(n, _)| *n).collect::<Vec<_>>(),
        vec!["DNS", "Connect", "Response"]
    );
}

#[test]
fn registering_a_storage_domain_twice_replaces_it() {
    let mut state = DevToolsState::new();
    state.set_storage(StorageDomain::new("prefs", "Preferences").entry(StorageEntry::new("a", "1")));
    state.set_storage(
        StorageDomain::new("prefs", "Preferences")
            .entry(StorageEntry::new("a", "2"))
            .entry(StorageEntry::new("b", "3")),
    );

    assert_eq!(state.storage().len(), 1);
    assert_eq!(state.storage()[0].entries.len(), 2);
    assert_eq!(state.storage()[0].entries[0].value.as_str(), "2");
}

#[test]
fn network_span_covers_every_row() {
    let mut state = DevToolsState::new();
    let mut first = NetworkRecord::new("GET", "/a");
    first.start = Duration::from_millis(100);
    first.timings.response = Duration::from_millis(50);
    let mut second = NetworkRecord::new("GET", "/b");
    second.start = Duration::from_millis(20);
    second.timings.response = Duration::from_millis(10);
    state.push_network(first);
    state.push_network(second);

    let (start, end) = state.network_span();
    assert_eq!(start, Duration::from_millis(20));
    assert_eq!(end, Duration::from_millis(150));
}

#[test]
fn byte_and_duration_formats_match_the_columns() {
    assert_eq!(format_bytes(512), "512 B");
    assert_eq!(format_bytes(2048), "2.0 KB");
    assert_eq!(format_bytes(5 * 1024 * 1024), "5.00 MB");

    assert_eq!(format_duration(Duration::from_micros(250)), "0.25 ms");
    assert_eq!(format_duration(Duration::from_millis(42)), "42 ms");
    assert_eq!(format_duration(Duration::from_millis(1500)), "1.50 s");

    assert_eq!(format_timestamp(Duration::from_millis(63_042)), "01:03.042");
}

#[test]
fn source_refs_shorten_to_basename() {
    let source = SourceRef::new("crates/guise/src/button.rs", 42, 9);
    assert_eq!(source.basename(), "button.rs");
    assert_eq!(source.short(), "button.rs:42:9");
}

/// The float rendering the byte column is defined by, for comparison.
fn float_bytes(bytes: u64) -> String {
    const KB: f64 = 1024.0;
    let bytes = bytes as f64;
    if bytes < KB {
        format!("{} B", bytes as u64)
    } else if bytes < KB * KB {
        format!("{:.1} KB", bytes / KB)
    } else if bytes < KB * KB * KB {
        format!("{:.2} MB", bytes / (KB * KB))
    } else {
        format!("{:.2} GB", bytes / (KB * KB * KB))
    }
}

#[test]
fn byte_formatting_agrees_with_float_rendering_at_ties_and_extremes() {
    let mut samples: Vec<u64> = vec![
        0, 1, 1023, 1024, 1280, 1331, 1126, 1177, 1536, 1024 * 1024 - 1, 1024 * 1024,
        1024 * 1024 + 5242, 1024 * 1024 * 1024 - 1, 1024 * 1024 * 1024,
        (1u64 << 53) - 1, 1u64 << 53, (1u64 << 53) + 1, (1u64 << 53) + 3,
        (1u64 << 60) + 12345, u64::MAX, u64::MAX - 2048, u64::MAX / 3,
    ];
    let mut x: u64 = 0x9e37_79b9_7f4a_7c15;
    for _ in 0..5000 {
        x ^= x << 13;
        x ^= x >> 7;
        x ^= x << 17;
        samples.push(x >> (x % 60));
    }
    for b in 1024..(1024 * 8) {
        samples.push(b);
    }
    for b in samples {
        assert_eq!(format_bytes(b), float_bytes(b), "{b}");
    }
}

#[test]
fn formats_of_ties_round_to_even() {
    // 1280 bytes is exactly 1.25 KB.
    assert_eq!(format_bytes(1280), "1.2 KB");
    assert_eq!(format_bytes(1024 + 1024 * 3 / 4), "1.8 KB");
    assert_eq!(format_duration(Duration::from_millis(999)), "999 ms");
    assert_eq!(format_duration(Duration::from_nanos(999_600_000)), "1000 ms");
    assert_eq!(format_duration(Duration::from_nanos(0)), "0.00 ms");
    assert_eq!(format_timestamp(Duration::from_secs(3600)), "60:00.000");
}

#[test]
fn a_frame_ticks_the_generation() {
    let mut state = DevToolsState::new();
    let g0 = state.generation();
    state.record_frame_at(Duration::from_millis(10));
    assert!(state.frames().is_empty());
    assert_eq!(state.generation(), g0 + 1);
    state.record_frame_at(Duration::from_millis(26));
    assert_eq!(state.frames().len(), 1);
    assert_eq!(state.frames()[0], Duration::from_millis(16));
    assert_eq!(state.generation(), g0 + 2);
    state.stop_frames();
    assert_eq!(state.generation(), g0 + 3);
    state.record_frame_at(Duration::from_millis(5000));
    assert_eq!(state.frames().len(), 1);
}

#[test]
fn durations_round_as_their_doubles_do() {
    assert_eq!(format_duration(Duration::from_micros(5)), "0.01 ms");
    assert_eq!(format_duration(Duration::from_micros(25)), "0.03 ms");
    assert_eq!(format_duration(Duration::from_nanos(1_500_000)), "2 ms");
    assert_eq!(format_duration(Duration::from_nanos(2_500_000)), "2 ms");
    assert_eq!(format_duration(Duration::from_nanos(999_999_999)), "1000 ms");
    assert_eq!(format_duration(Duration::from_nanos(2_005_000_000)), "2.00 s");
    assert_eq!(format_duration(Duration::from_total_nanos(12_345_000_006_789)), "12345.00 s");
    assert_eq!(
        format_duration(Duration::from_total_nanos(1_099_511_627_776 * 1_000_000_000 + 999_999_999)),
        "1099511627777.00 s"
    );
}

#[test]
fn a_run_of_logging_keeps_lines_distinct_and_capped() {
    let mut state = DevToolsState::new().limits(Limits { logs: 3, ..Limits::default() });
    for i in 0..6 {
        let line = format!("line {i}");
        state.push_log(LogRecord::new(LogLevel::Log, &line));
        state.push_log(LogRecord::new(LogLevel::Log, &line));
    }
    let messages: Vec<&str> = state.logs().iter().map(|r| r.message.as_str()).collect();
    assert_eq!(messages, ["line 3", "line 4", "line 5"]);
    assert!(state.logs().iter().all(|r| r.count == 2));
    state.clear_logs();
    assert!(state.logs().is_empty());
}
