use guise::devtools::probe::{ProbeNode, ProbeTree};
use guise::devtools::sources::{files, fits, lines, Loaded, Opened, SourcesPanel, MAX_BYTES};
use guise::devtools::state::SourceRef;

fn node(key: &str, source: Option<SourceRef>) -> ProbeNode {
    ProbeNode {
        name: "Root".to_owned(),
        attrs: Vec::new(),
        element_id: None,
        source,
        parent: None,
        children: Vec::new(),
        depth: 0,
        key: key.to_owned(),
    }
}

fn tree_of(nodes: Vec<ProbeNode>) -> ProbeTree {
    let roots = (0..nodes.len()).collect();
    ProbeTree { nodes, roots }
}

#[test]
fn a_path_splits_into_directory_and_name() {
    assert_eq!(
        SourcesPanel::split("crates/guise/src/button.rs"),
        ("crates/guise/src", "button.rs")
    );
    assert_eq!(SourcesPanel::split("main.rs"), ("", "main.rs"));
}

#[test]
fn files_are_deduplicated_to_their_lowest_line() {
    let tree = tree_of(vec![
        node("Root[0]", Some(SourceRef::new("a.rs", 40, 1))),
        node("Root[1]", Some(SourceRef::new("a.rs", 12, 1))),
    ]);

    let files = files(&tree);
    assert_eq!(files.len(), 1);
    assert_eq!(files[0], ("a.rs".to_owned(), 12));
}

#[test]
fn files_group_by_directory_then_name() {
    // `src/b.rs` sorts after `src/sub/a.rs` by full path; grouping has to
    // keep the two `src` files together regardless.
    let nodes = ["src/sub/a.rs", "src/b.rs", "src/a.rs"]
        .into_iter()
        .enumerate()
        .map(|(index, path)| node(&format!("Node[{index}]"), Some(SourceRef::new(path, 1, 1))))
        .collect();
    let tree = tree_of(nodes);

    let files = files(&tree);
    let paths: Vec<&str> = files.iter().map(|(path, _)| path.as_str()).collect();
    assert_eq!(paths, vec!["src/a.rs", "src/b.rs", "src/sub/a.rs"]);
}

#[test]
fn nodes_without_a_source_add_no_file() {
    let tree = tree_of(vec![
        node("Root[0]", None),
        node("Root[1]", Some(SourceRef::new("z/y.rs", 7, 2))),
        node("Root[2]", None),
        node("Root[3]", Some(SourceRef::new("b.rs", 9, 2))),
        node("Root[4]", Some(SourceRef::new("z/y.rs", 3, 2))),
    ]);
    assert_eq!(
        files(&tree),
        vec![("b.rs".to_owned(), 9), ("z/y.rs".to_owned(), 3)]
    );
    assert!(files(&tree_of(Vec::new())).is_empty());
}

#[test]
fn paths_that_split_alike_keep_path_order() {
    // "/a.rs" and "a.rs" both split into ("", "a.rs"); the whole path
    // breaks the tie.
    let tree = tree_of(vec![
        node("Root[0]", Some(SourceRef::new("a.rs", 1, 1))),
        node("Root[1]", Some(SourceRef::new("/a.rs", 2, 1))),
    ]);
    let paths: Vec<String> = files(&tree).into_iter().map(|(p, _)| p).collect();
    assert_eq!(paths, vec!["/a.rs", "a.rs"]);
}

#[test]
fn revealing_points_the_panel_at_a_location() {
    let mut panel = SourcesPanel::default();
    assert!(panel.selected().is_none());
    panel.reveal_at(SourceRef::new("src/a.rs", 3, 4));
    assert_eq!(panel.selected().map(|s| s.short()), Some("a.rs:3:4".to_owned()));
}

#[test]
fn a_missing_file_reports_rather_than_panicking() {
    let mut panel = SourcesPanel::new();
    panel.reveal_at(SourceRef::new("/definitely/not/here.rs", 3, 1));
    let path = panel.wanted().expect("a selected file is wanted");
    assert_eq!(path, "/definitely/not/here.rs");
    panel.store(&path, Opened::NotFound);
    match panel.cached() {
        Some((held, Loaded::Failed(message))) => {
            assert_eq!(held, "/definitely/not/here.rs");
            assert!(message.contains("Cannot open"));
            assert_eq!(message, "Cannot open /definitely/not/here.rs");
        }
        _ => panic!("a missing file should load as a failure"),
    }
}

#[test]
fn an_existing_file_loads_its_lines() {
    let mut panel = SourcesPanel::new();
    panel.reveal_at(SourceRef::new("src/sources.rs", 12, 1));
    let path = panel.wanted().unwrap();
    panel.store(&path, Opened::Text("use x;\r\npub struct SourcesPanel;\n\nfn f() {}\n".to_string()));
    match panel.cached() {
        Some((_, Loaded::Lines(lines))) => {
            assert!(!lines.is_empty());
            assert!(lines.iter().any(|line| line.contains("SourcesPanel")));
            assert_eq!(lines, &["use x;", "pub struct SourcesPanel;", "", "fn f() {}"]);
        }
        _ => panic!("a read file should load as lines"),
    }
}

#[test]
fn loading_twice_does_not_reread_the_same_file() {
    let mut panel = SourcesPanel::new();
    panel.reveal_at(SourceRef::new("src/a.rs", 1, 1));
    let path = panel.wanted().unwrap();
    panel.store(&path, Opened::Text("one\ntwo".to_string()));
    // Another line of the same file reuses what is held.
    panel.reveal_at(SourceRef::new("src/a.rs", 99, 1));
    assert!(panel.wanted().is_none());
    // Another file is read afresh.
    panel.reveal_at(SourceRef::new("src/b.rs", 1, 1));
    assert_eq!(panel.wanted().as_deref(), Some("src/b.rs"));
}

#[test]
fn oversized_and_unreadable_files_say_why() {
    assert!(fits(MAX_BYTES));
    assert!(!fits(MAX_BYTES + 1));
    assert_eq!(MAX_BYTES, 2 * 1024 * 1024);
    let mut panel = SourcesPanel::new();
    panel.store("big.rs", Opened::TooLarge);
    match panel.cached() {
        Some((_, Loaded::Failed(m))) => assert_eq!(m, "big.rs is too large to display"),
        _ => panic!("expected a failure"),
    }
    panel.store("x.rs", Opened::Unreadable("denied".to_string()));
    match panel.cached() {
        Some((_, Loaded::Failed(m))) => assert_eq!(m, "Cannot read x.rs: denied"),
        _ => panic!("expected a failure"),
    }
    panel.store("y.rs", Opened::NoMetadata("gone".to_string()));
    match panel.cached() {
        Some((_, Loaded::Failed(m))) => assert_eq!(m, "Cannot open y.rs: gone"),
        _ => panic!("expected a failure"),
    }
}

#[test]
fn lines_split_as_str_lines_does() {
    assert!(lines("").is_empty());
    assert_eq!(lines("a"), ["a"]);
    assert_eq!(lines("a\n"), ["a"]);
    assert_eq!(lines("a\n\nb"), ["a", "", "b"]);
    assert_eq!(lines("a\r\nb\r"), ["a", "b\r"]);
    assert_eq!(lines("\n"), [""]);
    let text = "x\r\ny\n\nz\r";
    let expected: Vec<&str> = text.lines().collect();
    assert_eq!(lines(text), expected);
}
