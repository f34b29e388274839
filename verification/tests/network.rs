use guise::devtools::network::summary;
use guise::devtools::state::Timings;
use guise::time::Duration;
use guise::devtools::network::{
    parse_cookies, status_tone, NetworkPanel, RequestDetail, StatusTone,
};
use guise::devtools::state::{NetworkRecord, ResourceKind};
use std::collections::VecDeque;

fn record() -> NetworkRecord {
    NetworkRecord::new("GET", "https://api.example.com/v1/users?page=2")
        .kind(ResourceKind::Fetch)
        .status(200, "OK")
}

fn hit(record: &NetworkRecord, kind: Option<ResourceKind>, query: &str) -> bool {
    guise::devtools::network::matches(record, kind, query)
}

#[test]
fn the_type_filter_is_exact() {
    assert!(hit(&record(), Some(ResourceKind::Fetch), ""));
    assert!(!hit(&record(), Some(ResourceKind::Image), ""));
    assert!(hit(&record(), None, ""));
}

#[test]
fn search_covers_url_method_and_status() {
    assert!(hit(&record(), None, "users"));
    assert!(hit(&record(), None, "GET"));
    assert!(hit(&record(), None, "200"));
    assert!(!hit(&record(), None, "404"));
}

#[test]
fn search_is_case_insensitive() {
    assert!(hit(&record(), None, "USERS"));
    assert!(hit(&record(), None, "get"));
}

#[test]
fn the_type_filter_and_the_search_both_have_to_pass() {
    assert!(!hit(&record(), Some(ResourceKind::Image), "users"));
    assert!(!hit(&record(), Some(ResourceKind::Fetch), "absent"));
    assert!(hit(&record(), Some(ResourceKind::Fetch), "users"));
}

#[test]
fn cookies_split_on_semicolons() {
    let cookies = parse_cookies("session=abc123; theme=dark; region=us-east");
    assert_eq!(
        cookies,
        vec![
            ("session".to_string(), "abc123".to_string()),
            ("theme".to_string(), "dark".to_string()),
            ("region".to_string(), "us-east".to_string()),
        ]
    );
}

#[test]
fn a_set_cookie_keeps_its_attributes_as_pairs_and_drops_bare_flags() {
    let cookies = parse_cookies("session=abc; Path=/; HttpOnly; Max-Age=3600");
    assert_eq!(cookies.len(), 3);
    assert_eq!(cookies[1], ("Path".to_string(), "/".to_string()));
    assert!(!cookies.iter().any(|(name, _)| name == "HttpOnly"));
}

#[test]
fn an_empty_cookie_header_yields_nothing() {
    assert!(parse_cookies("").is_empty());
    assert!(parse_cookies("   ; ;  ").is_empty());
}

#[test]
fn a_cookie_splits_at_its_first_equals_and_trims_both_sides() {
    let cookies = parse_cookies(" token = a=b=c ;\tlang= en\u{a0}");
    assert_eq!(
        cookies,
        vec![
            ("token".to_string(), "a=b=c".to_string()),
            ("lang".to_string(), "en".to_string()),
        ]
    );
    assert_eq!(parse_cookies("=empty"), vec![(String::new(), "empty".to_string())]);
}

#[test]
fn tones_follow_the_outcome() {
    assert_eq!(status_tone(&record().finished()), StatusTone::Success);
    assert_eq!(status_tone(&record().status(304, "Not Modified").finished()), StatusTone::Warning);
    assert_eq!(status_tone(&record().status(404, "Not Found").finished()), StatusTone::Danger);
    assert_eq!(status_tone(&record().status(503, "Unavailable").finished()), StatusTone::Danger);
    assert_eq!(status_tone(&record()), StatusTone::Dim);
    assert_eq!(status_tone(&record().failed("reset")), StatusTone::Danger);
    let pending = NetworkRecord::new("GET", "https://example.com/");
    assert_eq!(status_tone(&pending), StatusTone::Dim);
}

#[test]
fn detail_tabs_are_labelled() {
    assert_eq!(RequestDetail::default(), RequestDetail::Headers);
    assert_eq!(RequestDetail::Headers.label(), "Headers");
    assert_eq!(RequestDetail::Cookies.label(), "Cookies");
    assert_eq!(RequestDetail::Sizes.label(), "Sizes");
    assert_eq!(RequestDetail::Timing.label(), "Timing");
    assert_eq!(RequestDetail::Preview.label(), "Preview");
}

#[test]
fn the_network_panel_lists_what_passes_its_filters() {
    let mut panel = NetworkPanel::new();
    let mut records = VecDeque::new();
    records.push_back(record());
    records.push_back(NetworkRecord::new("GET", "https://cdn.example.com/logo.png").kind(ResourceKind::Image));
    records.push_back(NetworkRecord::new("POST", "https://api.example.com/v1/login").kind(ResourceKind::Fetch));

    assert_eq!(panel.visible(&records), vec![0, 1, 2]);
    panel.set_kind(Some(ResourceKind::Fetch));
    assert_eq!(panel.visible(&records), vec![0, 2]);
    panel.set_query("post");
    assert_eq!(panel.visible(&records), vec![2]);
    assert_eq!(panel.kind(), Some(ResourceKind::Fetch));
    assert_eq!(panel.query(), "post");

    assert_eq!(panel.selected(), None);
    panel.select(7);
    assert_eq!(panel.selected(), Some(7));
    panel.set_detail(RequestDetail::Timing);
    assert_eq!(panel.detail(), RequestDetail::Timing);
}

#[test]
fn the_summary_counts_what_is_shown() {
    let mut records = VecDeque::new();
    records.push_back(record().sizes(1024, 4096).timings(Timings {
        request: Duration::from_millis(30),
        ..Timings::default()
    }));
    records.push_back(record().sizes(512, 512).timings(Timings {
        response: Duration::from_millis(250),
        ..Timings::default()
    }));
    records.push_back(record().sizes(1, 1));
    assert_eq!(
        summary(&records, &vec![0, 1]),
        vec!["2 requests", "1.5 KB transferred", "4.5 KB resources", "slowest 250 ms"]
    );
    assert_eq!(
        summary(&records, &Vec::new()),
        vec!["0 requests", "0 B transferred", "0 B resources", "slowest 0.00 ms"]
    );
}
