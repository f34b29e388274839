use guise::devtools::logs::{any_contains, LevelFilter, LogsPanel};
use guise::devtools::state::{LogLevel, LogRecord, SourceRef};
use std::collections::VecDeque;

fn record(level: LogLevel, message: &str) -> LogRecord {
    LogRecord::new(level, message)
}

#[test]
fn the_all_filter_admits_every_level() {
    for level in [
        LogLevel::Log,
        LogLevel::Debug,
        LogLevel::Info,
        LogLevel::Warning,
        LogLevel::Error,
    ] {
        assert!(LevelFilter::All.admits(level));
    }
}

#[test]
fn warnings_include_errors_but_not_the_reverse() {
    assert!(LevelFilter::Warnings.admits(LogLevel::Error));
    assert!(LevelFilter::Warnings.admits(LogLevel::Warning));
    assert!(!LevelFilter::Warnings.admits(LogLevel::Log));
    assert!(!LevelFilter::Errors.admits(LogLevel::Warning));
}

#[test]
fn logs_exclude_the_issue_levels() {
    assert!(LevelFilter::Logs.admits(LogLevel::Log));
    assert!(LevelFilter::Logs.admits(LogLevel::Info));
    assert!(!LevelFilter::Logs.admits(LogLevel::Warning));
    assert!(!LevelFilter::Logs.admits(LogLevel::Error));
}

#[test]
fn search_is_case_insensitive_over_the_message() {
    let record = record(LogLevel::Log, "Cache MISS for user 42");
    assert!(guise::devtools::logs::matches(&record, LevelFilter::All, "cache"));
    assert!(guise::devtools::logs::matches(&record, LevelFilter::All, "MISS"));
    assert!(!guise::devtools::logs::matches(&record, LevelFilter::All, "hit"));
}

#[test]
fn search_also_covers_detail_rows_and_the_source() {
    let record = record(LogLevel::Log, "request")
        .detail("status", "503")
        .source(SourceRef::new("net/pool.rs", 8, 1));

    assert!(guise::devtools::logs::matches(&record, LevelFilter::All, "503"));
    assert!(guise::devtools::logs::matches(&record, LevelFilter::All, "status"));
    assert!(guise::devtools::logs::matches(&record, LevelFilter::All, "pool.rs"));
    assert!(!guise::devtools::logs::matches(&record, LevelFilter::All, "absent"));
}

#[test]
fn the_level_filter_and_the_search_both_have_to_pass() {
    let record = record(LogLevel::Log, "cache miss");
    assert!(!guise::devtools::logs::matches(&record, LevelFilter::Errors, "cache"));
    assert!(!guise::devtools::logs::matches(&record, LevelFilter::All, "nope"));
    assert!(guise::devtools::logs::matches(&record, LevelFilter::Logs, "cache"));
}

#[test]
fn an_empty_query_filters_nothing_out() {
    let record = record(LogLevel::Error, "boom");
    assert!(guise::devtools::logs::matches(&record, LevelFilter::All, ""));
    assert!(guise::devtools::logs::matches(&record, LevelFilter::Errors, ""));
}

#[test]
fn filter_labels_and_default() {
    assert_eq!(LevelFilter::default(), LevelFilter::All);
    assert_eq!(LevelFilter::All.label(), "All");
    assert_eq!(LevelFilter::Errors.label(), "Errors");
    assert_eq!(LevelFilter::Warnings.label(), "Warnings");
    assert_eq!(LevelFilter::Logs.label(), "Logs");
}

#[test]
fn any_contains_searches_every_haystack() {
    let hays = vec!["alpha".to_owned(), "beta".to_owned()];
    assert!(any_contains(&hays, "et"));
    assert!(any_contains(&hays, "alpha"));
    assert!(!any_contains(&hays, "gamma"));
    assert!(!any_contains(&Vec::new(), "a"));
}

#[test]
fn unicode_search_lowercases_both_sides() {
    let record = record(LogLevel::Log, "ÉCOLE fermée");
    assert!(guise::devtools::logs::matches(&record, LevelFilter::All, "école"));
    assert!(guise::devtools::logs::matches(&record, LevelFilter::All, "FERMÉE"));
}

#[test]
fn the_panel_lists_what_passes_its_filters() {
    let mut panel = LogsPanel::new();
    let mut logs = VecDeque::new();
    logs.push_back(record(LogLevel::Log, "cache miss"));
    logs.push_back(record(LogLevel::Error, "disk full"));
    logs.push_back(record(LogLevel::Warning, "cache slow"));

    assert_eq!(panel.visible(&logs).len(), 3);
    panel.set_level(LevelFilter::Warnings);
    let shown: Vec<String> = panel.visible(&logs).into_iter().map(|r| r.message).collect();
    assert_eq!(shown, vec!["disk full", "cache slow"]);
    panel.set_query("CACHE");
    assert_eq!(panel.query(), "CACHE");
    let shown: Vec<String> = panel.visible(&logs).into_iter().map(|r| r.message).collect();
    assert_eq!(shown, vec!["cache slow"]);
    assert_eq!(panel.level(), LevelFilter::Warnings);
}

#[test]
fn panel_toggles_flip_their_state() {
    let mut panel = LogsPanel::default();
    assert!(!panel.timestamps());
    panel.toggle_timestamps();
    assert!(panel.timestamps());
    assert!(!panel.is_expanded(4));
    panel.toggle_expanded(4);
    assert!(panel.is_expanded(4));
    panel.toggle_expanded(4);
    assert!(!panel.is_expanded(4));
}
