use guise::devtools::audit::{count, depth_rule, listing, sort_findings, AuditPanel, Finding, Severity};
use guise::devtools::probe::ProbeNode;

fn finding(severity: Severity, rule: &'static str, node: &str) -> Finding {
    Finding {
        severity,
        rule,
        message: format!("{rule} at {node}"),
        node: node.to_owned(),
        source: None,
    }
}

fn node_at_depth(depth: usize) -> ProbeNode {
    ProbeNode {
        name: "Stack".to_owned(),
        attrs: Vec::new(),
        element_id: None,
        source: None,
        parent: None,
        children: Vec::new(),
        depth,
        key: "Stack[0]".to_owned(),
    }
}

#[test]
fn severities_are_labelled_and_ordered() {
    assert_eq!(Severity::Info.label(), "Info");
    assert_eq!(Severity::Warning.label(), "Warning");
    assert_eq!(Severity::Error.label(), "Error");
    assert!(Severity::Error > Severity::Warning);
    assert!(Severity::Warning > Severity::Info);
}

#[test]
fn deep_nesting_is_reported_as_info() {
    let mut out = Vec::new();
    depth_rule(&node_at_depth(24), &mut out);
    assert!(out.is_empty());
    depth_rule(&node_at_depth(25), &mut out);
    assert_eq!(out.len(), 1);
    assert_eq!(out[0].severity, Severity::Info);
    assert_eq!(out[0].rule, "Nesting depth");
    assert_eq!(out[0].message, "Nested 25 levels deep");
    assert_eq!(out[0].node, "Stack[0]");
}

#[test]
fn findings_come_back_worst_first_then_by_rule() {
    let findings = vec![
        finding(Severity::Info, "Nesting depth", "a"),
        finding(Severity::Warning, "Text size", "b"),
        finding(Severity::Error, "Text contrast", "c"),
        finding(Severity::Warning, "Hit target size", "d"),
        finding(Severity::Warning, "Text size", "e"),
    ];
    assert_eq!(listing(&findings), vec![2, 3, 1, 4, 0]);
    let sorted = sort_findings(&findings);
    let nodes: Vec<&str> = sorted.iter().map(|f| f.node.as_str()).collect();
    assert_eq!(nodes, vec!["c", "d", "b", "e", "a"]);
    assert!(sorted.windows(2).all(|pair| pair[0].severity >= pair[1].severity));
    assert!(sort_findings(&Vec::new()).is_empty());
}

#[test]
fn the_severity_filter_and_counts() {
    let findings = vec![
        finding(Severity::Warning, "Text size", "b"),
        finding(Severity::Error, "Text contrast", "c"),
        finding(Severity::Warning, "Hit target size", "d"),
    ];
    assert_eq!(count(&findings, Severity::Warning), 2);
    assert_eq!(count(&findings, Severity::Error), 1);
    assert_eq!(count(&findings, Severity::Info), 0);

    let mut panel = AuditPanel::default();
    assert!(panel.shows(Severity::Info));
    panel.set_severity(Some(Severity::Error));
    assert_eq!(panel.severity(), Some(Severity::Error));
    assert!(panel.shows(Severity::Error));
    assert!(!panel.shows(Severity::Warning));
}
