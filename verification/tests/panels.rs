use guise::about::BuildKind;
use guise::devtools::shell::elide;
use guise::devtools::state::{DevToolsState, StorageDomain, StorageEntry, StorageKind, TimelineEvent, TimelineKind};
use guise::devtools::storage::StoragePanel;
use guise::devtools::timelines::{frame_budget, TimelinesPanel};
use guise::time::Duration;

#[test]
fn elide_keeps_both_ends() {
    assert_eq!(elide("short", 10), "short");
    assert_eq!(elide("abcdefghij", 10), "abcdefghij");
    assert_eq!(elide("abcdefghijk", 7), "abc…ijk");
    assert_eq!(elide("abcdefghijk", 6), "ab…ijk".to_string());
}

#[test]
fn elide_counts_characters_not_bytes() {
    // A byte-based split would panic or cut a code point in half here.
    assert_eq!(elide("ααααααααααα", 7).chars().count(), 7);
}

#[test]
fn elide_leaves_tiny_limits_alone() {
    assert_eq!(elide("abcdefghijk", 3), "abcdefghijk");
    assert_eq!(elide("abcdefghijk", 4), "a…jk");
}

fn domain(id: &str, kind: StorageKind) -> StorageDomain {
    StorageDomain::new(id, id).kind(kind)
}

#[test]
fn groups_follow_safaris_order_not_registration_order() {
    let domains = vec![
        domain("cache", StorageKind::Cache),
        domain("prefs", StorageKind::Local),
        domain("cookies", StorageKind::Cookies),
    ];

    let kinds: Vec<StorageKind> = StoragePanel::grouped(&domains)
        .into_iter()
        .map(|(kind, _)| kind)
        .collect();
    assert_eq!(
        kinds,
        vec![StorageKind::Local, StorageKind::Cookies, StorageKind::Cache]
    );
}

#[test]
fn domains_keep_registration_order_within_a_group() {
    let domains = vec![
        domain("b", StorageKind::Local),
        domain("a", StorageKind::Local),
    ];
    let (_, group) = StoragePanel::grouped(&domains).remove(0);
    assert_eq!(group[0].id, "b");
    assert_eq!(group[1].id, "a");
}

#[test]
fn an_empty_kind_produces_no_heading() {
    let domains = vec![domain("prefs", StorageKind::Local)];
    assert_eq!(StoragePanel::grouped(&domains).len(), 1);
}

#[test]
fn size_counts_keys_and_values() {
    let domain = StorageDomain::new("prefs", "Preferences")
        .entry(StorageEntry::new("ab", "cde"))
        .entry(StorageEntry::new("f", "g"));
    assert_eq!(domain.size(), 7);
}

#[test]
fn the_table_shows_the_selection_or_the_first_domain() {
    let domains = vec![domain("a", StorageKind::Local), domain("b", StorageKind::Cache)];
    let mut panel = StoragePanel::default();
    assert_eq!(panel.shown(&domains), Some(0));
    panel.select("b");
    assert_eq!(panel.shown(&domains), Some(1));
    panel.select("gone");
    assert_eq!(panel.shown(&domains), Some(0));
    assert_eq!(panel.shown(&[]), None);
}

fn event(kind: TimelineKind, start_ms: u64, duration_ms: u64) -> TimelineEvent {
    let mut event = TimelineEvent::new(kind, "work", Duration::from_millis(duration_ms));
    event.start = Duration::from_millis(start_ms);
    event
}

#[test]
fn the_span_covers_every_event() {
    let events = vec![
        event(TimelineKind::Script, 100, 40),
        event(TimelineKind::Layout, 20, 10),
        event(TimelineKind::Paint, 60, 5),
    ];

    let (start, end) = TimelinesPanel::span(&events);
    assert_eq!(start, Duration::from_millis(20));
    assert_eq!(end, Duration::from_millis(140));
}

#[test]
fn an_empty_timeline_has_a_zero_span() {
    assert_eq!(TimelinesPanel::span(&[]), (Duration::zero(), Duration::zero()));
}

#[test]
fn a_single_instant_event_does_not_invert_the_span() {
    let events = vec![event(TimelineKind::Script, 50, 0)];
    let (start, end) = TimelinesPanel::span(&events);
    assert_eq!(start, Duration::from_millis(50));
    assert_eq!(end, Duration::from_millis(50));
}

#[test]
fn the_frame_budget_is_sixty_hertz() {
    assert!(frame_budget() < Duration::from_millis(17));
    assert!(frame_budget() > Duration::from_millis(16));
}

#[test]
fn the_band_filter_and_the_recorder_switch() {
    let mut panel = TimelinesPanel::default();
    assert!(panel.shows(TimelineKind::Paint));
    panel.set_band(Some(TimelineKind::Script));
    assert_eq!(panel.band(), Some(TimelineKind::Script));
    assert!(panel.shows(TimelineKind::Script));
    assert!(!panel.shows(TimelineKind::Paint));

    let mut state = DevToolsState::new();
    assert!(!panel.is_recording());
    panel.toggle_recording(&mut state);
    assert!(panel.is_recording());
    panel.toggle_recording(&mut state);
    assert!(!panel.is_recording());
}

#[test]
fn only_a_released_build_may_call_its_date_a_release_date() {
    assert_eq!(BuildKind::Released.line("2026-08-18"), "Released 2026-08-18");
    assert_eq!(
        BuildKind::Development.line("2026-08-18"),
        "Development build · 2026-08-18"
    );
}

#[test]
fn an_unknown_date_reads_as_the_build_kind_alone() {
    assert_eq!(BuildKind::Development.line("unknown"), "Development build");
    assert_eq!(BuildKind::Development.line(""), "Development build");
    assert_eq!(BuildKind::Released.line("unknown"), "Released build");
}

#[test]
fn whitespace_is_not_a_date() {
    assert_eq!(BuildKind::Development.line("   "), "Development build");
    assert_eq!(BuildKind::Released.line("  2026-01-02\n"), "Released 2026-01-02");
}

#[test]
fn a_build_is_a_development_build_until_proven_otherwise() {
    assert_eq!(BuildKind::default(), BuildKind::Development);
}
