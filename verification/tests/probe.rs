use guise::devtools::probe::{
    begin_frame, begin_frame_unclaimed, is_enabled, pop, push, release, retain, set_enabled, tree,
    Probe, ProbeMeta, ProbeTree, Registry,
};
use guise::devtools::state::SourceRef;

/// Each test drives its own recorder, starting from a known state.
fn reset(registry: &mut Registry) {
    set_enabled(registry, false);
    set_enabled(registry, true);
}

fn meta(name: &str) -> ProbeMeta {
    ProbeMeta {
        name: name.to_owned(),
        attrs: Vec::new(),
        source: None,
    }
}

fn record(registry: &mut Registry, name: &str, children: impl FnOnce(&mut Registry)) {
    let index = push(registry, &meta(name), None);
    children(registry);
    if let Some(index) = index {
        pop(registry, index, None);
    }
}

fn names(tree: &ProbeTree, chain: &[usize]) -> Vec<String> {
    chain.iter().map(|&i| tree.nodes[i].name.clone()).collect()
}

#[test]
fn nesting_follows_the_push_pop_pairs() {
    let mut registry = Registry::new();
    reset(&mut registry);
    record(&mut registry, "Stack", |r| {
        record(r, "Button", |_| {});
        record(r, "Badge", |_| {});
    });
    begin_frame_unclaimed(&mut registry);

    let tree = tree(&registry);
    assert_eq!(tree.roots, vec![0]);
    assert_eq!(tree.nodes[0].name, "Stack");
    assert_eq!(tree.nodes[0].children, vec![1, 2]);
    assert_eq!(tree.nodes[1].parent, Some(0));
    assert_eq!(tree.nodes[1].depth, 1);
    assert_eq!(tree.nodes[2].name, "Badge");
}

#[test]
fn keys_are_path_plus_sibling_ordinal() {
    let mut registry = Registry::new();
    reset(&mut registry);
    record(&mut registry, "Stack", |r| {
        record(r, "Button", |_| {});
        record(r, "Button", |_| {});
    });
    begin_frame_unclaimed(&mut registry);

    let tree = tree(&registry);
    assert_eq!(tree.nodes[0].key, "Stack[0]");
    assert_eq!(tree.nodes[1].key, "Stack[0]/Button[0]");
    assert_eq!(tree.nodes[2].key, "Stack[0]/Button[1]");
    assert_eq!(tree.find("Stack[0]/Button[1]"), Some(2));
}

#[test]
fn a_key_survives_the_next_frame() {
    let mut registry = Registry::new();
    reset(&mut registry);
    record(&mut registry, "Stack", |r| record(r, "Button", |_| {}));
    begin_frame_unclaimed(&mut registry);
    let before = tree(&registry).find("Stack[0]/Button[0]");

    record(&mut registry, "Stack", |r| record(r, "Button", |_| {}));
    begin_frame_unclaimed(&mut registry);
    let after = tree(&registry).find("Stack[0]/Button[0]");

    assert_eq!(before, after);
    assert!(after.is_some());
}

#[test]
fn ancestry_runs_root_first() {
    let mut registry = Registry::new();
    reset(&mut registry);
    record(&mut registry, "AppShell", |r| {
        record(r, "Stack", |r| record(r, "Button", |_| {}))
    });
    begin_frame_unclaimed(&mut registry);

    let tree = tree(&registry);
    let button = tree.find("AppShell[0]/Stack[0]/Button[0]").unwrap();
    let chain = tree.ancestry(button);
    assert_eq!(names(&tree, &chain), vec!["AppShell", "Stack", "Button"]);
}

#[test]
fn multiple_roots_are_kept_in_order() {
    let mut registry = Registry::new();
    reset(&mut registry);
    record(&mut registry, "AppShell", |_| {});
    record(&mut registry, "Modal", |_| {});
    begin_frame_unclaimed(&mut registry);

    let tree = tree(&registry);
    assert_eq!(tree.roots, vec![0, 1]);
    assert_eq!(tree.nodes[1].key, "Modal[1]");
}

#[test]
fn overlapping_inspectors_keep_recording_until_the_last_one_goes() {
    let mut registry = Registry::new();
    set_enabled(&mut registry, false);
    assert!(!is_enabled(&registry));

    retain(&mut registry);
    assert!(is_enabled(&registry));

    // Replacing an inspector constructs the new one before dropping the
    // old; a flag would have the old one's drop switch recording off
    // underneath its replacement.
    retain(&mut registry);
    release(&mut registry);
    assert!(is_enabled(&registry));

    release(&mut registry);
    assert!(!is_enabled(&registry));
}

#[test]
fn an_unbalanced_release_cannot_underflow() {
    let mut registry = Registry::new();
    set_enabled(&mut registry, false);
    release(&mut registry);
    release(&mut registry);
    retain(&mut registry);
    assert!(is_enabled(&registry));
    release(&mut registry);
    assert!(!is_enabled(&registry));
}

#[test]
fn the_recorded_tree_is_released_with_the_last_inspector() {
    let mut registry = Registry::new();
    reset(&mut registry);
    record(&mut registry, "Stack", |_| {});
    begin_frame_unclaimed(&mut registry);
    assert!(!tree(&registry).is_empty());

    release(&mut registry);
    assert!(tree(&registry).is_empty());
}

#[test]
fn nothing_records_while_disabled() {
    let mut registry = Registry::new();
    reset(&mut registry);
    set_enabled(&mut registry, false);
    record(&mut registry, "Stack", |r| record(r, "Button", |_| {}));
    begin_frame_unclaimed(&mut registry);

    assert!(tree(&registry).is_empty());
}

/// A rectangle in logical pixels, as the layout pass hands out bounds.
struct Rect {
    x: f32,
    y: f32,
    w: f32,
    h: f32,
}

impl Rect {
    fn contains(&self, px: f32, py: f32) -> bool {
        px >= self.x && px < self.x + self.w && py >= self.y && py < self.y + self.h
    }
}

#[test]
fn hit_testing_picks_the_deepest_containing_node() {
    let mut registry = Registry::new();
    reset(&mut registry);
    let outer = push(&mut registry, &meta("Stack"), None).unwrap();
    let inner = push(&mut registry, &meta("Button"), None).unwrap();
    pop(&mut registry, inner, None);
    pop(&mut registry, outer, None);
    begin_frame_unclaimed(&mut registry);

    // Bounds by arena index: the Stack, then the Button inside it.
    let bounds = [
        Rect { x: 0.0, y: 0.0, w: 200.0, h: 100.0 },
        Rect { x: 10.0, y: 10.0, w: 50.0, h: 20.0 },
    ];
    let inside = |px: f32, py: f32| -> Vec<bool> {
        bounds.iter().map(|b| b.contains(px, py)).collect()
    };

    let tree = tree(&registry);
    let hit = tree.hit(&inside(20.0, 15.0)).unwrap();
    assert_eq!(tree.nodes[hit].name, "Button");

    let outside = tree.hit(&inside(150.0, 80.0)).unwrap();
    assert_eq!(tree.nodes[outside].name, "Stack");

    assert!(tree.hit(&inside(400.0, 400.0)).is_none());
}

#[test]
fn an_unbalanced_stack_does_not_leak_into_the_next_frame() {
    let mut registry = Registry::new();
    reset(&mut registry);
    // Push without popping, as a panicking prepaint would leave things.
    push(&mut registry, &meta("Orphan"), None);
    begin_frame_unclaimed(&mut registry);
    record(&mut registry, "Stack", |_| {});
    begin_frame_unclaimed(&mut registry);

    let tree = tree(&registry);
    assert_eq!(tree.roots.len(), 1);
    assert_eq!(tree.nodes[tree.roots[0]].name, "Stack");
    assert_eq!(tree.nodes[tree.roots[0]].depth, 0);
}

#[test]
fn a_claimed_frame_skips_other_windows() {
    let mut registry = Registry::new();
    reset(&mut registry);
    begin_frame(&mut registry, 7);
    assert_eq!(push(&mut registry, &meta("Elsewhere"), Some(8)), None);
    assert_eq!(push(&mut registry, &meta("Unowned"), None), None);
    let here = push(&mut registry, &meta("Here"), Some(7)).unwrap();
    pop(&mut registry, here, Some("root".to_owned()));
    begin_frame(&mut registry, 7);

    let tree = tree(&registry);
    assert_eq!(tree.len(), 1);
    assert_eq!(tree.nodes[0].name, "Here");
    assert_eq!(tree.nodes[0].element_id.as_deref(), Some("root"));
}

#[test]
fn a_tree_built_before_the_claim_is_dropped() {
    let mut registry = Registry::new();
    reset(&mut registry);
    record(&mut registry, "Stack", |_| {});
    // The claim changes hands: the unclaimed tree is not shown.
    begin_frame(&mut registry, 3);
    assert!(tree(&registry).is_empty());
}

#[test]
fn an_empty_frame_keeps_the_last_tree() {
    let mut registry = Registry::new();
    reset(&mut registry);
    record(&mut registry, "Stack", |_| {});
    begin_frame_unclaimed(&mut registry);
    begin_frame_unclaimed(&mut registry);
    assert_eq!(tree(&registry).len(), 1);
}

#[test]
fn a_pop_unwinds_children_that_never_closed() {
    let mut registry = Registry::new();
    reset(&mut registry);
    let outer = push(&mut registry, &meta("Stack"), None).unwrap();
    push(&mut registry, &meta("Lost"), None);
    pop(&mut registry, outer, None);
    record(&mut registry, "Next", |_| {});
    begin_frame_unclaimed(&mut registry);

    let tree = tree(&registry);
    assert_eq!(tree.roots, vec![0, 2]);
    assert_eq!(tree.nodes[2].key, "Next[1]");
    assert_eq!(tree.nodes[2].depth, 0);
}

#[test]
fn leaves_have_no_children() {
    let mut registry = Registry::new();
    reset(&mut registry);
    record(&mut registry, "Stack", |r| record(r, "Button", |_| {}));
    begin_frame_unclaimed(&mut registry);
    let tree = tree(&registry);
    assert!(!tree.nodes[0].is_leaf());
    assert!(tree.nodes[1].is_leaf());
    assert!(tree.get(1).is_some());
    assert!(tree.get(2).is_none());
    assert_eq!(tree.find("Nope[0]"), None);
}

#[test]
fn attributes_are_kept_only_while_recording() {
    let mut registry = Registry::new();
    let here = SourceRef::new("src/button.rs", 12, 5);

    let off = Probe::new(&registry, (), "Button", here.clone())
        .attr("variant", "primary")
        .attr_with("size", || "lg".to_owned())
        .attr_if("disabled", true);
    assert!(!off.is_recording());
    assert!(off.meta().attrs.is_empty());
    assert!(off.meta().source.is_none());

    reset(&mut registry);
    let on = Probe::new(&registry, (), "Button", here)
        .attr("variant", "primary")
        .attr_with("size", || "lg".to_owned())
        .attr_opt("label", Some("Save"))
        .attr_opt("icon", None)
        .attr_if("disabled", true)
        .attr_if("loading", false);
    assert!(on.is_recording());
    let (_, meta) = on.into_parts();
    assert_eq!(meta.name, "Button");
    assert_eq!(
        meta.source.as_ref().map(|s| s.short()),
        Some("button.rs:12:5".to_owned())
    );
    let attrs: Vec<(&str, &str)> = meta
        .attrs
        .iter()
        .map(|(k, v)| (k.as_str(), v.as_str()))
        .collect();
    assert_eq!(
        attrs,
        vec![
            ("variant", "primary"),
            ("size", "lg"),
            ("label", "Save"),
            ("disabled", "")
        ]
    );
}
