//! The inspector: its tools and the state it keeps between frames — which
//! tool is showing, where it is docked, the tree the last frame recorded,
//! the element picker, and each panel's own state.
//!
//! Everything it can do alone it does alone; what needs the host comes back
//! as a `DevToolsEvent`.

pub mod audit;
pub mod elements;
pub mod logs;
pub mod network;
pub mod probe;
pub mod shell;
pub mod sources;
pub mod state;
pub mod storage;
pub mod styles;
pub mod timelines;

use vstd::prelude::*;

use self::audit::AuditPanel;
use self::elements::{keys_of, ElementsPanel, ElementsSidebar, ElementsView};
use self::logs::LogsPanel;
use self::network::NetworkPanel;
use self::probe::{
    ancestry_of, begin_frame, empty_tree, promotes, find_key, is_topmost, lemma_find_key_present, release, released, retain, retained, rotated, tree,
    well_formed, ProbeTree, Registry, TreeView,
};
use self::sources::SourcesPanel;
use self::state::SourceRef;
use self::storage::StoragePanel;
use self::timelines::TimelinesPanel;

verus! {

/// The tools along the top, in Safari's order.
#[derive(Debug, Clone, Copy, PartialEq, Eq, Structural, Hash)]
pub enum DevToolsTab {
    Elements,
    Network,
    Sources,
    Timelines,
    Storage,
    Layers,
    Logs,
    Audit,
}

impl Default for DevToolsTab {
    fn default() -> (r: DevToolsTab)
        ensures
            r == DevToolsTab::Elements,
    {
        DevToolsTab::Elements
    }
}

impl DevToolsTab {
    pub fn label(self) -> (r: &'static str)
        ensures
            r@ == match self {
                DevToolsTab::Elements => "Elements"@,
                DevToolsTab::Network => "Network"@,
                DevToolsTab::Sources => "Sources"@,
                DevToolsTab::Timelines => "Timelines"@,
                DevToolsTab::Storage => "Storage"@,
                DevToolsTab::Layers => "Layers"@,
                DevToolsTab::Logs => "Logs"@,
                DevToolsTab::Audit => "Audit"@,
            },
    {
        match self {
            DevToolsTab::Elements => "Elements",
            DevToolsTab::Network => "Network",
            DevToolsTab::Sources => "Sources",
            DevToolsTab::Timelines => "Timelines",
            DevToolsTab::Storage => "Storage",
            DevToolsTab::Layers => "Layers",
            DevToolsTab::Logs => "Logs",
            DevToolsTab::Audit => "Audit",
        }
    }
}

/// Where the host has put the inspector. The inspector cannot move a panel
/// it does not own, so this only sets which dock button reads as pressed.
#[derive(Debug, Clone, Copy, PartialEq, Eq, Structural)]
pub enum Dock {
    Right,
    Bottom,
    /// Its own window.
    Detached,
}

impl Default for Dock {
    fn default() -> (r: Dock)
        ensures
            r == Dock::Right,
    {
        Dock::Right
    }
}

/// What the inspector asks the host to do.
#[derive(Debug)]
pub enum DevToolsEvent {
    /// The close button was pressed.
    Close,
    /// A dock button was pressed.
    Dock(Dock),
    /// A source location was clicked. The host opens it in its editor; the
    /// Sources panel has already switched to it.
    RevealSource(SourceRef),
    /// The element picker was armed or disarmed.
    Picking(bool),
}

/// The tree the last frame recorded, which is always well formed.
pub struct Snapshot {
    tree: ProbeTree,
}

impl Snapshot {
    /// The tree, by value.
    pub closed spec fn tree_view(self) -> TreeView {
        self.tree@
    }

    #[verifier::type_invariant]
    spec fn consistent(self) -> bool {
        well_formed(self.tree@)
    }
}

/// The inspector's own state, by value.
pub struct DevToolsView {
    pub tab: DevToolsTab,
    pub dock: Dock,
    pub tree: TreeView,
    pub drawer_open: bool,
    pub picking: bool,
}

/// The inspector: which tool shows, where it is docked, the tree the
/// previous frame recorded, the logs drawer, the element picker, and each
/// panel's state.
pub struct DevTools {
    pub tab: DevToolsTab,
    pub dock: Dock,
    /// The tree the previous frame finished, refreshed at the top of every
    /// frame.
    pub snapshot: Snapshot,
    /// The logs drawer, dropped over any tool but Logs.
    pub drawer_open: bool,
    pub picking: bool,
    pub elements: ElementsPanel,
    pub logs: LogsPanel,
    pub network: NetworkPanel,
    pub storage: StoragePanel,
    pub timelines: TimelinesPanel,
    pub sources: SourcesPanel,
    pub audit: AuditPanel,
}

/// Every panel of `b` is as it was in `a`.
pub open spec fn keeps_panels(a: DevTools, b: DevTools) -> bool {
    &&& b.elements == a.elements
    &&& keeps_panels_but_elements(a, b)
}

/// Every panel of `b` but Elements is as it was in `a`.
pub open spec fn keeps_panels_but_elements(a: DevTools, b: DevTools) -> bool {
    &&& b.sources == a.sources
    &&& keeps_panels_but_elements_and_sources(a, b)
}

/// Every panel of `b` but Sources is as it was in `a`.
pub open spec fn keeps_panels_but_sources(a: DevTools, b: DevTools) -> bool {
    &&& b.elements == a.elements
    &&& keeps_panels_but_elements_and_sources(a, b)
}

/// The panels of `b` other than Elements and Sources are as they were in `a`.
pub open spec fn keeps_panels_but_elements_and_sources(a: DevTools, b: DevTools) -> bool {
    &&& b.logs == a.logs
    &&& b.network == a.network
    &&& b.storage == a.storage
    &&& b.timelines == a.timelines
    &&& b.audit == a.audit
}

impl View for DevTools {
    type V = DevToolsView;

    open spec fn view(&self) -> DevToolsView {
        DevToolsView {
            tab: self.tab,
            dock: self.dock,
            tree: self.snapshot.tree_view(),
            drawer_open: self.drawer_open,
            picking: self.picking,
        }
    }
}

impl DevTools {
    /// An inspector on the Elements tool, docked right, with no tree yet.
    /// Recording is a property of an inspector being alive, so this
    /// registers one with the recorder.
    pub fn new(registry: &mut Registry) -> (r: DevTools)
        requires
            old(registry)@.recorders < usize::MAX,
        ensures
            final(registry)@ == retained(old(registry)@),
            r@ == (DevToolsView {
                tab: DevToolsTab::Elements,
                dock: Dock::Right,
                tree: empty_tree(),
                drawer_open: false,
                picking: false,
            }),
            r.elements@.selected is None,
            r.elements@.collapsed == Set::<Seq<char>>::empty(),
    {
        retain(registry);
        DevTools {
            tab: DevToolsTab::Elements,
            dock: Dock::Right,
            snapshot: Snapshot { tree: ProbeTree::new() },
            drawer_open: false,
            picking: false,
            elements: ElementsPanel::new(),
            logs: LogsPanel::new(),
            network: NetworkPanel::new(),
            storage: StoragePanel::new(),
            timelines: TimelinesPanel::new(),
            sources: SourcesPanel::new(),
            audit: AuditPanel::new(),
        }
    }

    /// Close the inspector: the last one to close stops the recording.
    pub fn close(self, registry: &mut Registry)
        ensures
            final(registry)@ == released(old(registry)@),
    {
        release(registry);
    }

    /// Open on a particular tool.
    pub fn tab(self, tab: DevToolsTab) -> (r: DevTools)
        ensures
            r@ == (DevToolsView { tab, ..self@ }),
            keeps_panels(self, r),
    {
        let mut r = self;
        r.tab = tab;
        r
    }

    /// Set which dock button reads as pressed.
    pub fn dock(self, dock: Dock) -> (r: DevTools)
        ensures
            r@ == (DevToolsView { dock, ..self@ }),
            keeps_panels(self, r),
    {
        let mut r = self;
        r.dock = dock;
        r
    }

    /// Open the Elements sidebar on a particular pane.
    pub fn elements_sidebar(self, sidebar: ElementsSidebar) -> (r: DevTools)
        ensures
            r@ == self@,
            r.elements@ == (ElementsView { sidebar, ..self.elements@ }),
            keeps_panels_but_elements(self, r),
    {
        let mut r = self;
        r.elements.set_sidebar(sidebar);
        r
    }

    /// Start with the logs drawer down.
    pub fn drawer(self, open: bool) -> (r: DevTools)
        ensures
            r@ == (DevToolsView { drawer_open: open, ..self@ }),
            keeps_panels(self, r),
    {
        let mut r = self;
        r.drawer_open = open;
        r
    }

    pub fn active_tab(&self) -> (r: DevToolsTab)
        ensures
            r == self@.tab,
    {
        self.tab
    }

    pub fn docked(&self) -> (r: Dock)
        ensures
            r == self@.dock,
    {
        self.dock
    }

    pub fn set_tab(&mut self, tab: DevToolsTab)
        ensures
            final(self)@ == (DevToolsView { tab, ..old(self)@ }),
            keeps_panels(*old(self), *final(self)),
    {
        self.tab = tab;
    }

    /// Whether the element picker is armed.
    pub fn is_picking(&self) -> (r: bool)
        ensures
            r == self@.picking,
    {
        self.picking
    }

    /// Arm or disarm the picker; the host is told, because the hit testing
    /// happens in the window.
    pub fn set_picking(&mut self, picking: bool) -> (r: DevToolsEvent)
        ensures
            final(self)@ == (DevToolsView { picking, ..old(self)@ }),
            keeps_panels(*old(self), *final(self)),
            r == DevToolsEvent::Picking(picking),
    {
        self.picking = picking;
        DevToolsEvent::Picking(picking)
    }

    /// Select the topmost element among those `inside[i]` marks as under
    /// the pointer, reveal it in Elements, switch to Elements and disarm the
    /// picker. Returns whether anything was under the pointer; nothing
    /// changes when nothing was.
    pub fn pick_at(&mut self, inside: &Vec<bool>) -> (r: bool)
        requires
            inside@.len() == old(self)@.tree.nodes.len(),
        ensures
            r == exists|i: int| 0 <= i < inside@.len() && inside@[i],
            r ==> final(self)@ == (DevToolsView {
                tab: DevToolsTab::Elements,
                picking: false,
                ..old(self)@
            }),
            r ==> exists|i: int|
                is_topmost(old(self)@.tree, inside@, i) && final(self).elements@ == (ElementsView {
                    selected: Some(old(self)@.tree.nodes[i].key),
                    collapsed: old(self).elements@.collapsed.difference(
                        keys_of(
                            old(self)@.tree,
                            ancestry_of(old(self)@.tree, find_key(old(self)@.tree.nodes, old(self)@.tree.nodes[i].key) as usize),
                        ),
                    ),
                    ..old(self).elements@
                }),
            r ==> keeps_panels_but_elements(*old(self), *final(self)),
            !r ==> final(self)@ == old(self)@ && keeps_panels(*old(self), *final(self)),
    {
        proof {
            use_type_invariant(&self.snapshot);
        }
        match self.snapshot.tree.hit(inside) {
            None => false,
            Some(index) => {
                assert(self.snapshot.tree@.nodes[index as int] == self.snapshot.tree.nodes@[index as int]@);
                let key = self.snapshot.tree.nodes[index].key.clone();
                proof {
                    lemma_find_key_present(self.snapshot.tree@.nodes, index as int);
                }
                self.elements.reveal_in(&self.snapshot.tree, key.as_str());
                self.tab = DevToolsTab::Elements;
                self.picking = false;
                true
            },
        }
    }

    /// The tree as of the last rendered frame.
    pub fn tree(&self) -> (r: &ProbeTree)
        ensures
            r@ == self@.tree,
            well_formed(r@),
    {
        proof {
            use_type_invariant(&self.snapshot);
        }
        &self.snapshot.tree
    }

    /// Switch to Sources on `source`, and tell the host in case it would
    /// rather open the file in a real editor.
    pub fn reveal_source(&mut self, source: SourceRef) -> (r: DevToolsEvent)
        ensures
            final(self)@ == (DevToolsView { tab: DevToolsTab::Sources, ..old(self)@ }),
            final(self).sources.selection() == Some(source),
            keeps_panels_but_sources(*old(self), *final(self)),
            r == DevToolsEvent::RevealSource(source),
    {
        let copy = source.clone();
        self.sources.reveal_at(source);
        self.tab = DevToolsTab::Sources;
        DevToolsEvent::RevealSource(copy)
    }

    /// Toggle the logs drawer.
    pub fn toggle_drawer(&mut self)
        ensures
            final(self)@ == (DevToolsView { drawer_open: !old(self)@.drawer_open, ..old(self)@ }),
            keeps_panels(*old(self), *final(self)),
    {
        self.drawer_open = !self.drawer_open;
    }

    /// Whether the logs drawer shows: it is the log under another tool, so
    /// never while Logs is the tool.
    pub fn shows_drawer(&self) -> (r: bool)
        ensures
            r == (self@.drawer_open && self@.tab != DevToolsTab::Logs),
    {
        self.drawer_open && self.tab != DevToolsTab::Logs
    }

    /// The start of a frame: rotate the recorder under this window's claim,
    /// take the tree the previous frame finished, and, when nothing is
    /// selected, select the first root the way the Web Inspector starts on
    /// `<body>`. Returns whether the previous frame's tree was promoted.
    pub fn refresh(&mut self, registry: &mut Registry, window: u64) -> (promoted: bool)
        ensures
            promoted == promotes(old(registry)@, Some(window)),
            final(registry)@ == rotated(old(registry)@, Some(window)),
            final(self)@ == (DevToolsView { tree: final(registry)@.current, ..old(self)@ }),
            final(self).elements@ == (ElementsView {
                selected: if old(self).elements@.selected is None && final(registry)@.current.roots.len() > 0 {
                    Some(
                        final(registry)@.current.nodes[final(registry)@.current.roots[0] as int].key,
                    )
                } else {
                    old(self).elements@.selected
                },
                ..old(self).elements@
            }),
            keeps_panels_but_elements(*old(self), *final(self)),
    {
        let promoted = begin_frame(registry, window);
        let fresh = tree(registry);
        self.snapshot = Snapshot { tree: fresh };
        let none_selected = !self.elements.has_selection();
        if none_selected && self.snapshot.tree.roots.len() > 0 {
            let root = self.snapshot.tree.roots[0];
            assert(root < self.snapshot.tree@.nodes.len());
            assert(self.snapshot.tree@.nodes[root as int] == self.snapshot.tree.nodes@[root as int]@);
            let key = self.snapshot.tree.nodes[root].key.clone();
            self.elements.select(key.as_str());
        }
        promoted
    }
}

} // verus!
