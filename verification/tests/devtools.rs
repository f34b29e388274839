use guise::devtools::elements::ElementsSidebar;
use guise::devtools::probe::{is_enabled, pop, push, ProbeMeta, Registry};
use guise::devtools::state::SourceRef;
use guise::devtools::{DevTools, DevToolsEvent, DevToolsTab, Dock};

fn meta(name: &str) -> ProbeMeta {
    ProbeMeta {
        name: name.to_owned(),
        attrs: Vec::new(),
        source: None,
    }
}

/// One frame of a window whose tree is a Stack holding a Button.
fn frame(registry: &mut Registry, window: u64) {
    let stack = push(registry, &meta("Stack"), Some(window)).unwrap();
    let button = push(registry, &meta("Button"), Some(window)).unwrap();
    pop(registry, button, None);
    pop(registry, stack, None);
}

#[test]
fn tabs_are_labelled_in_order() {
    let labels: Vec<&str> = [
        DevToolsTab::Elements,
        DevToolsTab::Network,
        DevToolsTab::Sources,
        DevToolsTab::Timelines,
        DevToolsTab::Storage,
        DevToolsTab::Layers,
        DevToolsTab::Logs,
        DevToolsTab::Audit,
    ]
    .into_iter()
    .map(DevToolsTab::label)
    .collect();
    assert_eq!(
        labels,
        vec!["Elements", "Network", "Sources", "Timelines", "Storage", "Layers", "Logs", "Audit"]
    );
    assert_eq!(DevToolsTab::default(), DevToolsTab::Elements);
    assert_eq!(Dock::default(), Dock::Right);
}

#[test]
fn an_open_inspector_keeps_the_recorder_running() {
    let mut registry = Registry::new();
    let tools = DevTools::new(&mut registry);
    assert!(is_enabled(&registry));
    tools.close(&mut registry);
    assert!(!is_enabled(&registry));
}

#[test]
fn the_builders_set_the_opening_state() {
    let mut registry = Registry::new();
    let tools = DevTools::new(&mut registry)
        .tab(DevToolsTab::Network)
        .dock(Dock::Bottom)
        .elements_sidebar(ElementsSidebar::Node)
        .drawer(true);
    assert_eq!(tools.active_tab(), DevToolsTab::Network);
    assert_eq!(tools.docked(), Dock::Bottom);
    assert_eq!(tools.elements.sidebar, ElementsSidebar::Node);
    assert!(tools.shows_drawer());
    let on_logs = tools.tab(DevToolsTab::Logs);
    assert!(!on_logs.shows_drawer());
}

#[test]
fn a_refresh_selects_the_first_root_once() {
    let mut registry = Registry::new();
    let mut tools = DevTools::new(&mut registry);
    tools.refresh(&mut registry, 1);
    frame(&mut registry, 1);
    tools.refresh(&mut registry, 1);
    assert_eq!(tools.tree().len(), 2);
    assert_eq!(tools.elements.selected.as_deref(), Some("Stack[0]"));

    tools.elements.select("Stack[0]/Button[0]");
    frame(&mut registry, 1);
    tools.refresh(&mut registry, 1);
    assert_eq!(tools.elements.selected.as_deref(), Some("Stack[0]/Button[0]"));
}

#[test]
fn picking_reveals_the_topmost_element() {
    let mut registry = Registry::new();
    let mut tools = DevTools::new(&mut registry);
    tools.refresh(&mut registry, 1);
    frame(&mut registry, 1);
    tools.refresh(&mut registry, 1);
    tools.elements.toggle("Stack[0]");
    tools.set_tab(DevToolsTab::Logs);
    assert!(matches!(tools.set_picking(true), DevToolsEvent::Picking(true)));
    assert!(tools.is_picking());

    assert!(!tools.pick_at(&vec![false, false]));
    assert!(tools.is_picking());

    assert!(tools.pick_at(&vec![true, true]));
    assert!(!tools.is_picking());
    assert_eq!(tools.active_tab(), DevToolsTab::Elements);
    assert_eq!(tools.elements.selected.as_deref(), Some("Stack[0]/Button[0]"));
    assert!(!tools.elements.is_collapsed("Stack[0]"));
}

#[test]
fn revealing_a_source_switches_to_sources() {
    let mut registry = Registry::new();
    let mut tools = DevTools::new(&mut registry);
    let event = tools.reveal_source(SourceRef::new("src/app.rs", 4, 2));
    match event {
        DevToolsEvent::RevealSource(source) => assert_eq!(source.short(), "app.rs:4:2"),
        other => panic!("unexpected event {other:?}"),
    }
    assert_eq!(tools.active_tab(), DevToolsTab::Sources);
    assert_eq!(tools.sources.selected().map(|s| s.line), Some(4));
    tools.toggle_drawer();
    assert!(tools.shows_drawer());
}
