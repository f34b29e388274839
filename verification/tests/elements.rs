use guise::devtools::elements::{ElementsPanel, ElementsSidebar};
use guise::devtools::probe::{
    begin_frame_unclaimed, pop, push, set_enabled, tree, ProbeMeta, ProbeTree, Registry,
};

/// A recorder of its own for each tree a test builds.
fn tree_of(build: impl FnOnce(&mut Registry)) -> ProbeTree {
    let mut registry = Registry::new();
    set_enabled(&mut registry, false);
    set_enabled(&mut registry, true);
    build(&mut registry);
    begin_frame_unclaimed(&mut registry);
    tree(&registry)
}

/// Drives the recorder the way an element's prepaint does.
fn node(registry: &mut Registry, name: &str, children: impl FnOnce(&mut Registry)) {
    let meta = ProbeMeta {
        name: name.to_owned(),
        attrs: Vec::new(),
        source: None,
    };
    let index = push(registry, &meta, None);
    children(registry);
    if let Some(index) = index {
        pop(registry, index, None);
    }
}

#[test]
fn a_leaf_produces_one_row_and_a_parent_produces_two() {
    let panel = ElementsPanel::default();
    let tree = tree_of(|r| {
        node(r, "Stack", |r| {
            node(r, "Button", |_| {});
        });
    });

    let rows = panel.rows(&tree);
    // Stack open, Button (leaf), Stack close.
    assert_eq!(rows.len(), 3);
    assert_eq!(rows[0], (0, false));
    assert_eq!(rows[1], (1, false));
    assert_eq!(rows[2], (0, true));
}

#[test]
fn collapsing_hides_children_and_the_closing_tag() {
    let mut panel = ElementsPanel::default();
    let tree = tree_of(|r| {
        node(r, "Stack", |r| {
            node(r, "Button", |_| {});
            node(r, "Badge", |_| {});
        });
    });

    panel.toggle(&tree.nodes[0].key.clone());
    let rows = panel.rows(&tree);
    assert_eq!(rows, vec![(0, false)]);
}

#[test]
fn toggling_twice_restores_the_children() {
    let mut panel = ElementsPanel::default();
    let tree = tree_of(|r| node(r, "Stack", |r| node(r, "Button", |_| {})));
    let key = tree.nodes[0].key.clone();

    panel.toggle(&key);
    panel.toggle(&key);
    assert_eq!(panel.rows(&tree).len(), 3);
}

#[test]
fn revealing_expands_every_ancestor() {
    let mut panel = ElementsPanel::default();
    let tree = tree_of(|r| {
        node(r, "AppShell", |r| node(r, "Stack", |r| node(r, "Button", |_| {})))
    });
    let leaf = tree.nodes[2].key.clone();

    panel.toggle(&tree.nodes[0].key.clone());
    panel.toggle(&tree.nodes[1].key.clone());
    panel.reveal_in(&tree, &leaf);

    assert_eq!(panel.selected.as_ref(), Some(&leaf));
    assert!(panel.rows(&tree).iter().any(|(index, _)| *index == 2));
}

#[test]
fn a_selection_that_left_the_tree_resolves_to_nothing() {
    let mut panel = ElementsPanel::default();
    let tree = tree_of(|r| node(r, "Stack", |r| node(r, "Menu", |_| {})));
    panel.select(&tree.nodes[1].key.clone());
    assert!(panel.selected_node(&tree).is_some());

    let without_menu = tree_of(|r| node(r, "Stack", |_| {}));
    assert!(panel.selected_node(&without_menu).is_none());
}

#[test]
fn folds_are_remembered_by_key() {
    let mut panel = ElementsPanel::new();
    assert!(!panel.is_collapsed("Stack[0]"));
    panel.toggle("Stack[0]");
    assert!(panel.is_collapsed("Stack[0]"));
    assert!(!panel.is_collapsed("Stack[1]"));
    panel.toggle("Stack[0]");
    assert!(!panel.is_collapsed("Stack[0]"));
}

#[test]
fn revealing_a_missing_key_only_selects_it() {
    let mut panel = ElementsPanel::new();
    let tree = tree_of(|r| node(r, "Stack", |r| node(r, "Button", |_| {})));
    panel.toggle("Stack[0]");
    panel.reveal_in(&tree, "Gone[0]");
    assert_eq!(panel.selected.as_deref(), Some("Gone[0]"));
    assert!(panel.is_collapsed("Stack[0]"));
    assert_eq!(panel.rows(&tree), vec![(0, false)]);
}

#[test]
fn rows_cover_every_root_in_order() {
    let panel = ElementsPanel::new();
    let tree = tree_of(|r| {
        node(r, "AppShell", |r| node(r, "Button", |_| {}));
        node(r, "Modal", |_| {});
    });
    assert_eq!(panel.rows(&tree), vec![(0, false), (1, false), (0, true), (2, false)]);
}

#[test]
fn sidebar_tabs_are_labelled() {
    assert_eq!(ElementsSidebar::default(), ElementsSidebar::Styles);
    assert_eq!(ElementsSidebar::Styles.label(), "Styles");
    assert_eq!(ElementsSidebar::Computed.label(), "Computed");
    assert_eq!(ElementsSidebar::Node.label(), "Node");
}
