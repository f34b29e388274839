//! The element-tree recorder behind the Elements panel.
//!
//! A component wraps its root element in a probe that pushes a node on the
//! way into `prepaint` and pops it on the way out. Prepaint runs depth-first,
//! so the push/pop pairs nest exactly like the element tree does, and the
//! arena that falls out is the tree the panel renders.
//!
//! The recorder is off unless an inspector is alive, and an inspector claims
//! the window it renders in so elements prepainting in other windows are
//! skipped. It runs one frame behind: [`begin_frame`] promotes the tree the
//! previous frame built.

use vstd::prelude::*;

use super::state::{clone_pairs, pairs_view, SourceRef};
use crate::text::{decimal, push_decimal};

verus! {

broadcast use vstd::string::group_string_axioms;

/// A source location by its parts.
pub open spec fn source_view(s: Option<SourceRef>) -> Option<(Seq<char>, u32, u32)> {
    match s {
        Some(r) => Some((r.file@, r.line, r.column)),
        None => None,
    }
}

/// One recorded element, by value.
pub struct NodeView {
    pub name: Seq<char>,
    pub attrs: Seq<(Seq<char>, Seq<char>)>,
    pub element_id: Option<Seq<char>>,
    pub source: Option<(Seq<char>, u32, u32)>,
    pub parent: Option<usize>,
    pub children: Seq<usize>,
    pub depth: nat,
    pub key: Seq<char>,
}

/// A recorded tree, by value.
pub struct TreeView {
    pub nodes: Seq<NodeView>,
    pub roots: Seq<usize>,
}

/// One recorded element: a row in the Elements tree.
#[derive(Debug)]
pub struct ProbeNode {
    /// The component name, rendered as the tag: `Button` shows as `<Button>`.
    pub name: String,
    /// Attributes shown inline after the tag, in declaration order.
    pub attrs: Vec<(String, String)>,
    /// The element id, when the element has one.
    pub element_id: Option<String>,
    /// Where the component was constructed.
    pub source: Option<SourceRef>,
    /// Index of the parent in the arena, or `None` for a root.
    pub parent: Option<usize>,
    /// Indices of the children, in paint order.
    pub children: Vec<usize>,
    /// Nesting depth, precomputed for the tree's indentation.
    pub depth: usize,
    /// A path key that survives across frames: parent path + tag + sibling
    /// ordinal.
    pub key: String,
}

impl View for ProbeNode {
    type V = NodeView;

    open spec fn view(&self) -> NodeView {
        NodeView {
            name: self.name@,
            attrs: pairs_view(self.attrs@),
            element_id: match self.element_id {
                Some(e) => Some(e@),
                None => None,
            },
            source: source_view(self.source),
            parent: self.parent,
            children: self.children@,
            depth: self.depth as nat,
            key: self.key@,
        }
    }
}

fn clone_text(s: &Option<String>) -> (r: Option<String>)
    ensures
        r == *s,
{
    match s {
        Some(t) => Some(t.clone()),
        None => None,
    }
}

fn clone_source(s: &Option<SourceRef>) -> (r: Option<SourceRef>)
    ensures
        r == *s,
{
    match s {
        Some(t) => Some(t.clone()),
        None => None,
    }
}

impl Clone for ProbeNode {
    fn clone(&self) -> (r: Self)
        ensures
            r@ == self@,
    {
        ProbeNode {
            name: self.name.clone(),
            attrs: clone_pairs(&self.attrs),
            element_id: clone_text(&self.element_id),
            source: clone_source(&self.source),
            parent: self.parent,
            children: self.children.clone(),
            depth: self.depth,
            key: self.key.clone(),
        }
    }
}

impl ProbeNode {
    /// Whether the node has no children — a leaf renders as `<Tag />`.
    pub fn is_leaf(&self) -> (r: bool)
        ensures
            r == (self@.children.len() == 0),
    {
        self.children.len() == 0
    }
}

/// A recorded tree: a flat arena plus its roots, in the order they
/// prepainted.
#[derive(Debug)]
pub struct ProbeTree {
    pub nodes: Vec<ProbeNode>,
    pub roots: Vec<usize>,
}

impl View for ProbeTree {
    type V = TreeView;

    open spec fn view(&self) -> TreeView {
        TreeView { nodes: self.nodes@.map_values(|n: ProbeNode| n@), roots: self.roots@ }
    }
}

/// The empty tree.
pub open spec fn empty_tree() -> TreeView {
    TreeView { nodes: Seq::empty(), roots: Seq::empty() }
}

/// Every link in the arena is consistent: a parent precedes its children and
/// lists them, a child sits one level below its parent, and every node
/// without a parent is a root at depth zero.
pub open spec fn well_formed(t: TreeView) -> bool {
    &&& forall|i: int|
        0 <= i < t.nodes.len() ==> match #[trigger] t.nodes[i].parent {
            Some(p) => {
                &&& p < i
                &&& t.nodes[p as int].children.contains(i as usize)
                &&& t.nodes[i].depth == t.nodes[p as int].depth + 1
            },
            None => t.roots.contains(i as usize) && t.nodes[i].depth == 0,
        }
    &&& forall|i: int, k: int|
        0 <= i < t.nodes.len() && 0 <= k < t.nodes[i].children.len() ==> {
            let c = #[trigger] t.nodes[i].children[k];
            &&& i < c < t.nodes.len()
            &&& t.nodes[c as int].parent == Some(i as usize)
        }
    &&& forall|k: int|
        0 <= k < t.roots.len() ==> {
            let r = #[trigger] t.roots[k];
            &&& r < t.nodes.len()
            &&& t.nodes[r as int].parent is None
        }
}

/// The position of the first node whose key reads `key`, or `-1`.
pub open spec fn find_key(nodes: Seq<NodeView>, key: Seq<char>) -> int
    decreases nodes.len(),
{
    if nodes.len() == 0 {
        -1
    } else if nodes[0].key == key {
        0
    } else {
        let r = find_key(nodes.drop_first(), key);
        if r < 0 { -1 } else { r + 1 }
    }
}

proof fn lemma_find_key(nodes: Seq<NodeView>, key: Seq<char>, i: int)
    requires
        0 <= i <= nodes.len(),
        forall|j: int| 0 <= j < i ==> #[trigger] nodes[j].key != key,
        i < nodes.len() ==> nodes[i].key == key,
    ensures
        find_key(nodes, key) == if i < nodes.len() { i } else { -1 },
    decreases i,
{
    if i > 0 {
        let t = nodes.drop_first();
        assert forall|j: int| 0 <= j < i - 1 implies #[trigger] t[j].key != key by {
            assert(t[j] == nodes[j + 1]);
        }
        assert(nodes[0].key != key);
        lemma_find_key(t, key, i - 1);
    }
}

/// A key some node carries is found, at or before that node.
pub proof fn lemma_find_key_present(nodes: Seq<NodeView>, i: int)
    requires
        0 <= i < nodes.len(),
    ensures
        0 <= find_key(nodes, nodes[i].key) <= i,
    decreases i,
{
    if i > 0 && nodes[0].key != nodes[i].key {
        lemma_find_key_present(nodes.drop_first(), i - 1);
        assert(nodes.drop_first()[i - 1] == nodes[i]);
    }
}

/// The chain from a root down to `index`, following parent links; an index
/// outside the arena ends the chain at itself.
pub open spec fn ancestry_of(t: TreeView, index: usize) -> Seq<usize>
    decreases index,
{
    if index < t.nodes.len() {
        match t.nodes[index as int].parent {
            Some(p) => if p < index { ancestry_of(t, p).push(index) } else { seq![index] },
            None => seq![index],
        }
    } else {
        seq![index]
    }
}

/// Whether `best` is the node `hit` picks among those marked in `inside`: the
/// deepest one, and among equally deep ones the last in paint order.
pub open spec fn is_topmost(t: TreeView, inside: Seq<bool>, best: int) -> bool {
    &&& 0 <= best < t.nodes.len()
    &&& inside[best]
    &&& forall|j: int| 0 <= j < t.nodes.len() && #[trigger] inside[j] ==> t.nodes[j].depth <= t.nodes[best].depth
    &&& forall|j: int| best < j < t.nodes.len() && #[trigger] inside[j] ==> t.nodes[j].depth < t.nodes[best].depth
}

impl ProbeTree {
    pub fn new() -> (r: ProbeTree)
        ensures
            r@ == empty_tree(),
    {
        let r = ProbeTree { nodes: Vec::new(), roots: Vec::new() };
        assert(r@.nodes =~= Seq::<NodeView>::empty());
        r
    }

    pub fn is_empty(&self) -> (r: bool)
        ensures
            r == (self@.nodes.len() == 0),
    {
        self.nodes.len() == 0
    }

    pub fn len(&self) -> (r: usize)
        ensures
            r == self@.nodes.len(),
    {
        self.nodes.len()
    }

    pub fn get(&self, index: usize) -> (r: Option<&ProbeNode>)
        ensures
            match r {
                Some(n) => index < self@.nodes.len() && n@ == self@.nodes[index as int],
                None => index >= self@.nodes.len(),
            },
    {
        if index < self.nodes.len() {
            Some(&self.nodes[index])
        } else {
            None
        }
    }

    /// Find a node by the stable key a previous frame handed out.
    pub fn find(&self, key: &str) -> (r: Option<usize>)
        ensures
            match r {
                Some(i) => i == find_key(self@.nodes, key@) && i < self@.nodes.len(),
                None => find_key(self@.nodes, key@) < 0,
            },
    {
        let target = key.to_owned();
        let mut i: usize = 0;
        while i < self.nodes.len()
            invariant
                i <= self@.nodes.len(),
                target@ == key@,
                forall|j: int| 0 <= j < i ==> #[trigger] self@.nodes[j].key != key@,
            decreases self@.nodes.len() - i,
        {
            assert(self@.nodes[i as int] == self.nodes@[i as int]@);
            if self.nodes[i].key == target {
                proof {
                    lemma_find_key(self@.nodes, key@, i as int);
                }
                return Some(i);
            }
            i = i + 1;
        }
        proof {
            lemma_find_key(self@.nodes, key@, i as int);
        }
        None
    }

    /// The chain from the root down to `index`, which is what the Elements
    /// panel's breadcrumb bar shows.
    pub fn ancestry(&self, index: usize) -> (r: Vec<usize>)
        requires
            well_formed(self@),
        ensures
            r@ == ancestry_of(self@, index),
    {
        // Walk up from `index`, collecting the chain leaf first.
        let mut up: Vec<usize> = Vec::new();
        let mut cursor = index;
        loop
            invariant_except_break
                ancestry_of(self@, index) == ancestry_of(self@, cursor) + up@.reverse(),
            invariant
                well_formed(self@),
            ensures
                ancestry_of(self@, index) == up@.reverse(),
            decreases cursor,
        {
            let ghost before = up@;
            up.push(cursor);
            assert(up@.reverse() =~= seq![cursor] + before.reverse());
            if cursor < self.nodes.len() {
                assert(self@.nodes[cursor as int] == self.nodes@[cursor as int]@);
                match self.nodes[cursor].parent {
                    Some(p) => {
                        assert(p < cursor);
                        assert(ancestry_of(self@, cursor) == ancestry_of(self@, p).push(cursor));
                        assert(ancestry_of(self@, p).push(cursor) + before.reverse() =~= ancestry_of(self@, p) + up@.reverse());
                        cursor = p;
                    },
                    None => {
                        assert(ancestry_of(self@, cursor) =~= seq![cursor]);
                        assert(ancestry_of(self@, cursor) + before.reverse() =~= up@.reverse());
                        break;
                    },
                }
            } else {
                assert(ancestry_of(self@, cursor) =~= seq![cursor]);
                assert(ancestry_of(self@, cursor) + before.reverse() =~= up@.reverse());
                break;
            }
        }
        // Reverse into root-first order.
        let mut chain: Vec<usize> = Vec::new();
        let mut i = up.len();
        while i > 0
            invariant
                i <= up@.len(),
                chain@ == up@.reverse().subrange(0, (up@.len() - i) as int),
            decreases i,
        {
            i = i - 1;
            chain.push(up[i]);
            assert(up@.reverse().subrange(0, (up@.len() - i) as int) =~= up@.reverse().subrange(
                0,
                (up@.len() - i - 1) as int,
            ).push(up@[i as int]));
        }
        assert(up@.reverse().subrange(0, up@.len() as int) =~= up@.reverse());
        chain
    }

    /// The deepest node among those whose bounds contain the point, searched
    /// so the topmost element wins — the same rule as hit testing.
    /// `inside[i]` says whether node `i`'s bounds contain the point.
    pub fn hit(&self, inside: &Vec<bool>) -> (r: Option<usize>)
        requires
            inside@.len() == self@.nodes.len(),
        ensures
            match r {
                Some(i) => is_topmost(self@, inside@, i as int),
                None => forall|j: int| 0 <= j < inside@.len() ==> !#[trigger] inside@[j],
            },
    {
        let mut best: Option<usize> = None;
        let mut i: usize = 0;
        while i < self.nodes.len()
            invariant
                inside@.len() == self@.nodes.len(),
                i <= self@.nodes.len(),
                match best {
                    Some(b) => b < i && inside@[b as int] && (forall|j: int|
                        0 <= j < i && #[trigger] inside@[j] ==> self@.nodes[j].depth <= self@.nodes[b as int].depth) && (
                    forall|j: int|
                        b < j < i && #[trigger] inside@[j] ==> self@.nodes[j].depth < self@.nodes[b as int].depth),
                    None => forall|j: int| 0 <= j < i ==> !#[trigger] inside@[j],
                },
            decreases self@.nodes.len() - i,
        {
            assert(self@.nodes[i as int] == self.nodes@[i as int]@);
            if inside[i] {
                let deeper = match best {
                    None => true,
                    Some(b) => {
                        assert(self@.nodes[b as int] == self.nodes@[b as int]@);
                        self.nodes[i].depth >= self.nodes[b].depth
                    },
                };
                if deeper {
                    best = Some(i);
                }
            }
            i = i + 1;
        }
        best
    }
}

/// What a probe knows about the element it wraps, before it becomes a node.
#[derive(Debug)]
pub struct ProbeMeta {
    pub name: String,
    pub attrs: Vec<(String, String)>,
    pub source: Option<SourceRef>,
}

/// The key of the `ordinal`-th child named `name` under a node keyed
/// `parent`: `Stack[0]/Button[1]`.
pub open spec fn child_key(parent: Seq<char>, name: Seq<char>, ordinal: nat) -> Seq<char> {
    parent + seq!['/'] + name + seq!['['] + decimal(ordinal) + seq![']']
}

/// The key of the `ordinal`-th root named `name`: `Modal[1]`.
pub open spec fn root_key(name: Seq<char>, ordinal: nat) -> Seq<char> {
    name + seq!['['] + decimal(ordinal) + seq![']']
}

/// `t` with a node for `meta` appended under the innermost open ancestor on
/// `stack`, or as a new root when nothing is open.
pub open spec fn with_node(t: TreeView, stack: Seq<usize>, meta: ProbeMeta) -> TreeView {
    let index = t.nodes.len() as usize;
    if stack.len() > 0 {
        let p = stack.last();
        let parent = t.nodes[p as int];
        let node = NodeView {
            name: meta.name@,
            attrs: pairs_view(meta.attrs@),
            element_id: None,
            source: source_view(meta.source),
            parent: Some(p),
            children: Seq::empty(),
            depth: stack.len(),
            key: child_key(parent.key, meta.name@, parent.children.len()),
        };
        TreeView {
            nodes: t.nodes.push(node).update(p as int, NodeView { children: parent.children.push(index), ..parent }),
            roots: t.roots,
        }
    } else {
        let node = NodeView {
            name: meta.name@,
            attrs: pairs_view(meta.attrs@),
            element_id: None,
            source: source_view(meta.source),
            parent: None,
            children: Seq::empty(),
            depth: 0,
            key: root_key(meta.name@, t.roots.len()),
        };
        TreeView { nodes: t.nodes.push(node), roots: t.roots.push(index) }
    }
}

/// The recorder's state, by value.
pub struct RegistryView {
    /// How many inspectors are alive.
    pub recorders: nat,
    /// The tree the current frame is prepainting into.
    pub building: TreeView,
    /// The last completed tree — what panels read.
    pub current: TreeView,
    /// Open ancestors, innermost last.
    pub stack: Seq<usize>,
    /// The window whose inspector claimed this frame, if one did.
    pub window: Option<u64>,
}

/// The recorder's consistency: both trees are well formed, and the open
/// ancestors are a path down from a root of the tree being built, one level
/// per entry.
pub open spec fn registry_wf(r: RegistryView) -> bool {
    &&& well_formed(r.building)
    &&& well_formed(r.current)
    &&& forall|j: int|
        0 <= j < r.stack.len() ==> {
            let n = #[trigger] r.stack[j];
            &&& n < r.building.nodes.len()
            &&& r.building.nodes[n as int].depth == j
            &&& j == 0 ==> r.building.nodes[n as int].parent is None
            &&& j > 0 ==> r.building.nodes[n as int].parent == Some(r.stack[j - 1])
        }
}

/// Whether a push from `window` records a node.
pub open spec fn records(r: RegistryView, window: Option<u64>) -> bool {
    r.recorders > 0 && (r.window is None || r.window == window)
}

/// The recorder after a push from `window`: a node for `meta` joins the tree
/// being built and opens, unless recording is off or another window holds
/// the claim.
pub open spec fn pushed(r: RegistryView, meta: ProbeMeta, window: Option<u64>) -> RegistryView {
    if records(r, window) {
        RegistryView {
            building: with_node(r.building, r.stack, meta),
            stack: r.stack.push(r.building.nodes.len() as usize),
            ..r
        }
    } else {
        r
    }
}

/// `stack` with everything from the last `index` on closed; all of it when
/// `index` is not open.
pub open spec fn unwind(stack: Seq<usize>, index: usize) -> Seq<usize>
    decreases stack.len(),
{
    if stack.len() == 0 {
        stack
    } else if stack.last() == index {
        stack.drop_last()
    } else {
        unwind(stack.drop_last(), index)
    }
}

/// The recorder after the node at `index` closes, carrying `element_id`.
pub open spec fn popped(r: RegistryView, index: usize, element_id: Option<Seq<char>>) -> RegistryView {
    let building = if index < r.building.nodes.len() {
        TreeView {
            nodes: r.building.nodes.update(
                index as int,
                NodeView { element_id, ..r.building.nodes[index as int] },
            ),
            ..r.building
        }
    } else {
        r.building
    };
    RegistryView { building, stack: unwind(r.stack, index), ..r }
}

/// The recorder with both trees, the stack and the claim dropped.
pub open spec fn cleared(r: RegistryView) -> RegistryView {
    RegistryView { building: empty_tree(), current: empty_tree(), stack: Seq::empty(), window: None, ..r }
}

/// The recorder after a frame begins under `claim`: the tree the last frame
/// built is promoted when the same claim held it and it is not empty, and a
/// fresh tree starts.
pub open spec fn rotated(r: RegistryView, claim: Option<u64>) -> RegistryView {
    if r.recorders == 0 {
        r
    } else {
        RegistryView {
            window: claim,
            stack: Seq::empty(),
            building: empty_tree(),
            current: if r.window == claim && r.building.nodes.len() > 0 { r.building } else { r.current },
            ..r
        }
    }
}

/// The trees and the open ancestors, which change together.
struct Recording {
    building: ProbeTree,
    current: ProbeTree,
    stack: Vec<usize>,
    window: Option<u64>,
}

impl Recording {
    fn empty() -> (r: Recording)
        ensures
            r.building@ == empty_tree(),
            r.current@ == empty_tree(),
            r.stack@ == Seq::<usize>::empty(),
            r.window is None,
    {
        let r = Recording { building: ProbeTree::new(), current: ProbeTree::new(), stack: Vec::new(), window: None };
        assert(r.stack@ =~= Seq::<usize>::empty());
        r
    }
}

/// Recording state: how many inspectors are alive, the tree being built, the
/// last complete one, the open ancestors, and the claimed window. Its trees
/// are always consistent; see `registry_wf`.
pub struct Registry {
    recorders: usize,
    rec: Recording,
}

impl View for Registry {
    type V = RegistryView;

    closed spec fn view(&self) -> RegistryView {
        RegistryView {
            recorders: self.recorders as nat,
            building: self.rec.building@,
            current: self.rec.current@,
            stack: self.rec.stack@,
            window: self.rec.window,
        }
    }
}

impl Registry {
    #[verifier::type_invariant]
    spec fn consistent(self) -> bool {
        registry_wf(self@)
    }

    /// A recorder with no inspector alive and nothing recorded.
    pub fn new() -> (r: Registry)
        ensures
            r@.recorders == 0,
            r@ == cleared(r@),
            registry_wf(r@),
    {
        Registry { recorders: 0, rec: Recording::empty() }
    }

    fn clear(&mut self)
        ensures
            final(self)@ == cleared(old(self)@),
    {
        self.rec = Recording::empty();
    }
}

impl Default for Registry {
    fn default() -> (r: Registry)
        ensures
            r@.recorders == 0,
            r@ == cleared(r@),
            registry_wf(r@),
    {
        Registry::new()
    }
}

/// The recorder after recording is switched on or off outright.
pub open spec fn enabled_set(r: RegistryView, enabled: bool) -> RegistryView {
    if enabled {
        RegistryView { recorders: 1, ..r }
    } else {
        cleared(RegistryView { recorders: 0, ..r })
    }
}

/// The recorder with one more inspector alive.
pub open spec fn retained(r: RegistryView) -> RegistryView {
    RegistryView { recorders: r.recorders + 1, ..r }
}

/// The recorder with one inspector fewer: the count never goes below zero,
/// and when it reaches zero everything recorded is dropped.
pub open spec fn released(r: RegistryView) -> RegistryView {
    let left: nat = if r.recorders > 0 { (r.recorders - 1) as nat } else { 0 };
    let counted = RegistryView { recorders: left, ..r };
    if left == 0 { cleared(counted) } else { counted }
}

/// Turn recording on or off outright, ignoring how many inspectors are
/// alive; turning it off drops everything recorded.
pub fn set_enabled(registry: &mut Registry, enabled: bool)
    ensures
        final(registry)@ == enabled_set(old(registry)@, enabled),
{
    proof {
        use_type_invariant(&*registry);
    }
    registry.recorders = if enabled { 1 } else { 0 };
    if !enabled {
        registry.clear();
    }
}

/// Register an inspector. Recording starts on the first one.
pub fn retain(registry: &mut Registry)
    requires
        old(registry)@.recorders < usize::MAX,
    ensures
        final(registry)@ == retained(old(registry)@),
{
    proof {
        use_type_invariant(&*registry);
    }
    registry.recorders = registry.recorders + 1;
}

/// Drop an inspector. Recording stops, and the recorded tree is released,
/// when the last one goes; a release with none alive changes nothing but
/// the trees.
pub fn release(registry: &mut Registry)
    ensures
        final(registry)@ == released(old(registry)@),
{
    proof {
        use_type_invariant(&*registry);
    }
    if registry.recorders > 0 {
        registry.recorders = registry.recorders - 1;
    }
    if registry.recorders == 0 {
        registry.clear();
    }
}

/// How many inspectors are alive.
pub fn inspector_count(registry: &Registry) -> (r: usize)
    ensures
        r == registry@.recorders,
{
    registry.recorders
}

pub fn is_enabled(registry: &Registry) -> (r: bool)
    ensures
        r == (registry@.recorders > 0),
{
    registry.recorders > 0
}

/// Whether starting a frame under `claim` promotes the tree being built.
pub open spec fn promotes(r: RegistryView, claim: Option<u64>) -> bool {
    r.recorders > 0 && r.window == claim && r.building.nodes.len() > 0
}

/// Promote the tree the last frame recorded and start a fresh one, claiming
/// this frame for `window`. Returns whether the last frame's tree became
/// the current one.
pub fn begin_frame(registry: &mut Registry, window: u64) -> (promoted: bool)
    ensures
        final(registry)@ == rotated(old(registry)@, Some(window)),
        registry_wf(final(registry)@),
        promoted == promotes(old(registry)@, Some(window)),
{
    rotate(registry, Some(window))
}

/// Rotate with no window claimed, so every window records. Returns whether
/// the last frame's tree became the current one.
pub fn begin_frame_unclaimed(registry: &mut Registry) -> (promoted: bool)
    ensures
        final(registry)@ == rotated(old(registry)@, None),
        registry_wf(final(registry)@),
        promoted == promotes(old(registry)@, None),
{
    rotate(registry, None)
}

fn rotate(registry: &mut Registry, claim: Option<u64>) -> (promoted: bool)
    ensures
        final(registry)@ == rotated(old(registry)@, claim),
        registry_wf(final(registry)@),
        promoted == promotes(old(registry)@, claim),
{
    proof {
        use_type_invariant(&*registry);
    }
    if registry.recorders == 0 {
        return false;
    }
    let mut rec = Recording::empty();
    std::mem::swap(&mut rec, &mut registry.rec);
    let previous = rec.window;
    rec.window = claim;
    rec.stack = Vec::new();
    let mut built = ProbeTree::new();
    std::mem::swap(&mut built, &mut rec.building);
    let same = match (previous, claim) {
        (Some(a), Some(b)) => a == b,
        (None, None) => true,
        _ => false,
    };
    let promoted = same && built.nodes.len() > 0;
    if promoted {
        rec.current = built;
    }
    assert(rec.stack@ =~= Seq::<usize>::empty());
    registry.rec = rec;
    promoted
}

/// A copy of the most recently completed tree.
pub fn tree(registry: &Registry) -> (r: ProbeTree)
    ensures
        r@ == registry@.current,
        well_formed(r@),
{
    proof {
        use_type_invariant(registry);
    }
    clone_tree(&registry.rec.current)
}

/// Run `f` against the current tree without copying it.
pub fn with_tree<R, F: FnOnce(&ProbeTree) -> R>(registry: &Registry, f: F) -> (r: R)
    requires
        forall|t: &ProbeTree| t@ == registry@.current ==> #[trigger] f.requires((t,)),
    ensures
        exists|t: &ProbeTree| t@ == registry@.current && #[trigger] f.ensures((t,), r),
{
    f(&registry.rec.current)
}

/// Append `child` to the children of the node at `p`, leaving every other
/// node as it was.
fn add_child(nodes: &mut Vec<ProbeNode>, p: usize, child: usize)
    requires
        p < old(nodes)@.len(),
    ensures
        final(nodes)@.len() == old(nodes)@.len(),
        forall|i: int| 0 <= i < old(nodes)@.len() && i != p ==> #[trigger] final(nodes)@[i] == old(nodes)@[i],
        final(nodes)@[p as int]@ == (NodeView {
            children: old(nodes)@[p as int]@.children.push(child),
            ..old(nodes)@[p as int]@
        }),
{
    let mut opened = nodes.remove(p);
    opened.children.push(child);
    nodes.insert(p, opened);
}

/// The key a node for `meta` gets under the open ancestor `parent`, or as
/// the `ordinal`-th root.
fn node_key(meta: &ProbeMeta, parent_key: Option<&String>, ordinal: usize) -> (r: String)
    ensures
        r@ == match parent_key {
            Some(k) => child_key(k@, meta.name@, ordinal as nat),
            None => root_key(meta.name@, ordinal as nat),
        },
{
    let mut key = String::new();
    match parent_key {
        Some(k) => {
            key.append(k.as_str());
            key.push('/');
        },
        None => {},
    }
    key.append(meta.name.as_str());
    key.push('[');
    push_decimal(&mut key, ordinal as u128);
    key.push(']');
    proof {
        match parent_key {
            Some(k) => {
                assert(key@ =~= child_key(k@, meta.name@, ordinal as nat));
            },
            None => {
                assert(key@ =~= root_key(meta.name@, ordinal as nat));
            },
        }
    }
    key
}

/// Open a node for `meta`, pushed from `window`. Returns its index, or
/// `None` when recording is off or another window holds the claim.
pub fn push(registry: &mut Registry, meta: &ProbeMeta, window: Option<u64>) -> (r: Option<usize>)
    ensures
        final(registry)@ == pushed(old(registry)@, *meta, window),
        registry_wf(final(registry)@),
        r == if records(old(registry)@, window) {
            Some(old(registry)@.building.nodes.len() as usize)
        } else {
            None
        },
{
    proof {
        use_type_invariant(&*registry);
    }
    if registry.recorders == 0 {
        return None;
    }
    let claimed_elsewhere = match (registry.rec.window, window) {
        (Some(a), Some(b)) => a != b,
        (Some(_), None) => true,
        (None, _) => false,
    };
    if claimed_elsewhere {
        return None;
    }
    let ghost before = registry@;
    let mut rec = Recording::empty();
    std::mem::swap(&mut rec, &mut registry.rec);
    let depth = rec.stack.len();
    let index = rec.building.nodes.len();
    let parent: Option<usize> = if depth > 0 {
        Some(rec.stack[depth - 1])
    } else {
        None
    };
    let key = match parent {
        Some(p) => {
            assert(rec.stack@[depth - 1] == before.stack.last());
            node_key(meta, Some(&rec.building.nodes[p].key), rec.building.nodes[p].children.len())
        },
        None => node_key(meta, None, rec.building.roots.len()),
    };
    let node = ProbeNode {
        name: meta.name.clone(),
        attrs: clone_pairs(&meta.attrs),
        element_id: None,
        source: clone_source(&meta.source),
        parent,
        children: Vec::new(),
        depth,
        key,
    };
    let ghost expected = with_node(before.building, before.stack, *meta);
    proof {
        if depth > 0 {
            let p = before.stack.last();
            assert(before.building.nodes[p as int] == rec.building.nodes@[p as int]@);
            assert(node@ == expected.nodes[index as int]);
        } else {
            assert(node@ == expected.nodes[index as int]);
        }
    }
    rec.building.nodes.push(node);
    match parent {
        Some(p) => {
            add_child(&mut rec.building.nodes, p, index);
        },
        None => rec.building.roots.push(index),
    }
    rec.stack.push(index);
    proof {
        assert forall|i: int| 0 <= i < expected.nodes.len() implies #[trigger] rec.building@.nodes[i]
            == expected.nodes[i] by {
            if depth > 0 && i == before.stack.last() {
            } else if i < index {
                assert(before.building.nodes[i] == expected.nodes[i]);
            }
        }
        assert(rec.building@.nodes =~= expected.nodes);
        assert(rec.building@.roots =~= expected.roots);
        lemma_with_node_wf(before, *meta);
    }
    registry.rec = rec;
    Some(index)
}

/// What appending a node under the open ancestors changes in the arena:
/// the new node, the children of its parent, and nothing else.
proof fn lemma_with_node_shape(t: TreeView, stack: Seq<usize>, meta: ProbeMeta)
    requires
        stack.len() > 0 ==> stack.last() < t.nodes.len(),
    ensures
        with_node(t, stack, meta).nodes.len() == t.nodes.len() + 1,
        forall|i: int|
            0 <= i < t.nodes.len() && !(stack.len() > 0 && i == stack.last()) ==> #[trigger] with_node(
                t,
                stack,
                meta,
            ).nodes[i] == t.nodes[i],
        stack.len() > 0 ==> with_node(t, stack, meta).nodes[stack.last() as int] == (NodeView {
            children: t.nodes[stack.last() as int].children.push(t.nodes.len() as usize),
            ..t.nodes[stack.last() as int]
        }),
        with_node(t, stack, meta).nodes[t.nodes.len() as int].parent == if stack.len() > 0 {
            Some(stack.last())
        } else {
            None::<usize>
        },
        with_node(t, stack, meta).nodes[t.nodes.len() as int].depth == stack.len(),
        with_node(t, stack, meta).nodes[t.nodes.len() as int].children.len() == 0,
        with_node(t, stack, meta).roots == if stack.len() > 0 {
            t.roots
        } else {
            t.roots.push(t.nodes.len() as usize)
        },
{
}

/// The nodes that were already in the arena keep their parent and depth
/// when a node is appended.
proof fn lemma_with_node_keeps(t: TreeView, s: Seq<usize>, meta: ProbeMeta)
    requires
        s.len() > 0 ==> s.last() < t.nodes.len(),
    ensures
        forall|i: int|
            0 <= i < t.nodes.len() ==> #[trigger] with_node(t, s, meta).nodes[i].parent == t.nodes[i].parent
                && with_node(t, s, meta).nodes[i].depth == t.nodes[i].depth,
{
    lemma_with_node_shape(t, s, meta);
    let t2 = with_node(t, s, meta);
    assert forall|i: int| 0 <= i < t.nodes.len() implies #[trigger] t2.nodes[i].parent == t.nodes[i].parent
        && t2.nodes[i].depth == t.nodes[i].depth by {
        if s.len() > 0 && i == s.last() {
        } else {
            assert(t2.nodes[i] == t.nodes[i]);
        }
    }
}

proof fn lemma_with_node_parents(r: RegistryView, meta: ProbeMeta)
    requires
        registry_wf(r),
        r.building.nodes.len() <= usize::MAX,
    ensures
        forall|i: int|
            0 <= i < with_node(r.building, r.stack, meta).nodes.len() ==> match #[trigger] with_node(
                r.building,
                r.stack,
                meta,
            ).nodes[i].parent {
                Some(p) => {
                    &&& p < i
                    &&& with_node(r.building, r.stack, meta).nodes[p as int].children.contains(i as usize)
                    &&& with_node(r.building, r.stack, meta).nodes[i].depth == with_node(
                        r.building,
                        r.stack,
                        meta,
                    ).nodes[p as int].depth + 1
                },
                None => with_node(r.building, r.stack, meta).roots.contains(i as usize) && with_node(
                    r.building,
                    r.stack,
                    meta,
                ).nodes[i].depth == 0,
            },
{
    let t = r.building;
    let s = r.stack;
    let n = t.nodes.len();
    if s.len() > 0 {
        assert(s[s.len() - 1] == s.last());
    }
    lemma_with_node_shape(t, s, meta);
    lemma_with_node_keeps(t, s, meta);
    let t2 = with_node(t, s, meta);
    assert forall|i: int|
        0 <= i < t2.nodes.len() implies match #[trigger] t2.nodes[i].parent {
            Some(p) => {
                &&& p < i
                &&& t2.nodes[p as int].children.contains(i as usize)
                &&& t2.nodes[i].depth == t2.nodes[p as int].depth + 1
            },
            None => t2.roots.contains(i as usize) && t2.nodes[i].depth == 0,
        } by {
        if i < n {
            assert(t2.nodes[i].parent == t.nodes[i].parent);
            match t.nodes[i].parent {
                Some(p) => {
                    assert(t.nodes[i].parent == Some(p));
                    assert(t.nodes[p as int].children.contains(i as usize));
                    let k = choose|k: int|
                        0 <= k < t.nodes[p as int].children.len() && t.nodes[p as int].children[k] == i as usize;
                    assert(t2.nodes[p as int].parent == t.nodes[p as int].parent);
                    if s.len() > 0 && p == s.last() {
                        assert(t2.nodes[p as int].children[k] == i as usize);
                    } else {
                        assert(t2.nodes[p as int] == t.nodes[p as int]);
                    }
                    assert(t2.nodes[p as int].children.contains(i as usize));
                },
                None => {
                    assert(t.roots.contains(i as usize));
                    let k = choose|k: int| 0 <= k < t.roots.len() && t.roots[k] == i as usize;
                    assert(t2.roots[k] == i as usize);
                },
            }
        } else {
            if s.len() > 0 {
                let p = s.last();
                let last = s.len() - 1;
                assert(s[last] == p);
                assert(t2.nodes[p as int].parent == t.nodes[p as int].parent);
                assert(t2.nodes[p as int].children[t.nodes[p as int].children.len() as int] == n as usize);
                assert(t2.nodes[p as int].children.contains(n as usize));
            } else {
                assert(t2.roots[t.roots.len() as int] == n as usize);
            }
        }
    }
}

#[verifier::spinoff_prover]
#[verifier::rlimit(40)]
proof fn lemma_with_node_wf(r: RegistryView, meta: ProbeMeta)
    requires
        registry_wf(r),
        r.building.nodes.len() <= usize::MAX,
    ensures
        registry_wf(RegistryView {
            building: with_node(r.building, r.stack, meta),
            stack: r.stack.push(r.building.nodes.len() as usize),
            ..r
        }),
{
    let t = r.building;
    let s = r.stack;
    let n = t.nodes.len();
    if s.len() > 0 {
        assert(s[s.len() - 1] == s.last());
    }
    lemma_with_node_shape(t, s, meta);
    lemma_with_node_keeps(t, s, meta);
    lemma_with_node_parents(r, meta);
    let t2 = with_node(t, s, meta);
    let s2 = s.push(n as usize);
    assert forall|i: int, k: int|
        0 <= i < t2.nodes.len() && 0 <= k < t2.nodes[i].children.len() implies {
            let c = #[trigger] t2.nodes[i].children[k];
            &&& i < c < t2.nodes.len()
            &&& t2.nodes[c as int].parent == Some(i as usize)
        } by {
        if i < n {
            if s.len() > 0 && i == s.last() && k == t.nodes[i].children.len() {
                assert(t2.nodes[i].children[k] == n as usize);
            } else {
                assert(t2.nodes[i].children[k] == t.nodes[i].children[k]);
                let c = t.nodes[i].children[k];
                assert(t2.nodes[c as int].parent == t.nodes[c as int].parent);
            }
        }
    }
    assert forall|k: int| 0 <= k < t2.roots.len() implies {
        let x = #[trigger] t2.roots[k];
        &&& x < t2.nodes.len()
        &&& t2.nodes[x as int].parent is None
    } by {
        if k < t.roots.len() {
            assert(t2.roots[k] == t.roots[k]);
            let x = t.roots[k];
            assert(t2.nodes[x as int].parent == t.nodes[x as int].parent);
        }
    }
    assert forall|j: int| 0 <= j < s2.len() implies {
        let x = #[trigger] s2[j];
        &&& x < t2.nodes.len()
        &&& t2.nodes[x as int].depth == j
        &&& j == 0 ==> t2.nodes[x as int].parent is None
        &&& j > 0 ==> t2.nodes[x as int].parent == Some(s2[j - 1])
    } by {
        if j < s.len() {
            assert(s2[j] == s[j]);
            let x = s[j];
            assert(t2.nodes[x as int].parent == t.nodes[x as int].parent);
            if j > 0 {
                assert(s2[j - 1] == s[j - 1]);
            }
        } else {
            if j > 0 {
                assert(s2[j - 1] == s.last());
            }
        }
    }
}

/// Close the node at `index`, recording its element id, and pop back to
/// its own frame — a child that failed to pop does not leave the stack
/// permanently deeper.
pub fn pop(registry: &mut Registry, index: usize, element_id: Option<String>)
    ensures
        final(registry)@ == popped(
            old(registry)@,
            index,
            match element_id {
                Some(e) => Some(e@),
                None => None,
            },
        ),
        registry_wf(final(registry)@),
{
    proof {
        use_type_invariant(&*registry);
    }
    let ghost before = registry@;
    let mut rec = Recording::empty();
    std::mem::swap(&mut rec, &mut registry.rec);
    let ghost id_view = match &element_id {
        Some(e) => Some(e@),
        None => None,
    };
    if index < rec.building.nodes.len() {
        set_element_id(&mut rec.building.nodes, index, element_id);
        assert(rec.building@.nodes =~= before.building.nodes.update(
            index as int,
            NodeView { element_id: id_view, ..before.building.nodes[index as int] },
        ));
    }
    unwind_stack(&mut rec.stack, index);
    proof {
        lemma_popped_wf(before, index, id_view);
    }
    registry.rec = rec;
}

/// Record `element_id` on the node at `index`, leaving every other node as
/// it was.
fn set_element_id(nodes: &mut Vec<ProbeNode>, index: usize, element_id: Option<String>)
    requires
        index < old(nodes)@.len(),
    ensures
        final(nodes)@.len() == old(nodes)@.len(),
        forall|i: int| 0 <= i < old(nodes)@.len() && i != index ==> #[trigger] final(nodes)@[i] == old(nodes)@[i],
        final(nodes)@[index as int]@ == (NodeView {
            element_id: match element_id {
                Some(e) => Some(e@),
                None => None,
            },
            ..old(nodes)@[index as int]@
        }),
{
    let mut node = nodes.remove(index);
    node.element_id = element_id;
    nodes.insert(index, node);
}

proof fn lemma_popped_wf(r: RegistryView, index: usize, element_id: Option<Seq<char>>)
    requires
        registry_wf(r),
    ensures
        registry_wf(popped(r, index, element_id)),
{
    let r2 = popped(r, index, element_id);
    let t = r.building;
    let t2 = r2.building;
    assert forall|i: int| 0 <= i < t.nodes.len() implies #[trigger] t2.nodes[i].parent == t.nodes[i].parent
        && t2.nodes[i].depth == t.nodes[i].depth && t2.nodes[i].children == t.nodes[i].children by {}
    lemma_unwind_prefix(r.stack, index);
    let s2 = r2.stack;
    assert forall|j: int| 0 <= j < s2.len() implies #[trigger] s2[j] == r.stack[j] by {}
    assert forall|j: int| 0 <= j < s2.len() implies {
        let n = #[trigger] s2[j];
        &&& n < t2.nodes.len()
        &&& t2.nodes[n as int].depth == j
        &&& j == 0 ==> t2.nodes[n as int].parent is None
        &&& j > 0 ==> t2.nodes[n as int].parent == Some(s2[j - 1])
    } by {
        assert(s2[j] == r.stack[j]);
        if j > 0 {
            assert(s2[j - 1] == r.stack[j - 1]);
        }
        let n = r.stack[j];
        assert(t2.nodes[n as int].parent == t.nodes[n as int].parent);
    }
    assert forall|i: int|
        0 <= i < t2.nodes.len() implies match #[trigger] t2.nodes[i].parent {
            Some(p) => {
                &&& p < i
                &&& t2.nodes[p as int].children.contains(i as usize)
                &&& t2.nodes[i].depth == t2.nodes[p as int].depth + 1
            },
            None => t2.roots.contains(i as usize) && t2.nodes[i].depth == 0,
        } by {
        assert(t2.nodes[i].parent == t.nodes[i].parent);
        match t.nodes[i].parent {
            Some(p) => {
                assert(t2.nodes[p as int].children == t.nodes[p as int].children);
                assert(t2.nodes[p as int].depth == t.nodes[p as int].depth);
            },
            None => {},
        }
    }
    assert forall|i: int, k: int|
        0 <= i < t2.nodes.len() && 0 <= k < t2.nodes[i].children.len() implies {
            let c = #[trigger] t2.nodes[i].children[k];
            &&& i < c < t2.nodes.len()
            &&& t2.nodes[c as int].parent == Some(i as usize)
        } by {
        assert(t2.nodes[i].children == t.nodes[i].children);
        let c = t.nodes[i].children[k];
        assert(t2.nodes[c as int].parent == t.nodes[c as int].parent);
    }
    assert forall|k: int| 0 <= k < t2.roots.len() implies {
        let x = #[trigger] t2.roots[k];
        &&& x < t2.nodes.len()
        &&& t2.nodes[x as int].parent is None
    } by {
        let x = t.roots[k];
        assert(t2.nodes[x as int].parent == t.nodes[x as int].parent);
    }
}

/// Pop `stack` back past the last `index`; empty it when `index` is not on
/// it.
fn unwind_stack(stack: &mut Vec<usize>, index: usize)
    ensures
        final(stack)@ == unwind(old(stack)@, index),
{
    loop
        invariant_except_break
            unwind(old(stack)@, index) == unwind(stack@, index),
        ensures
            stack@ == unwind(old(stack)@, index),
        decreases stack@.len(),
    {
        let ghost s = stack@;
        match stack.pop() {
            Some(top) => {
                if top == index {
                    break;
                }
            },
            None => {
                break;
            },
        }
    }
}

proof fn lemma_unwind_prefix(stack: Seq<usize>, index: usize)
    ensures
        unwind(stack, index).len() <= stack.len(),
        unwind(stack, index) == stack.subrange(0, unwind(stack, index).len() as int),
    decreases stack.len(),
{
    if stack.len() > 0 && stack.last() != index {
        lemma_unwind_prefix(stack.drop_last(), index);
    }
}

/// A component's root element, tagged for the Elements panel: the wrapped
/// element, what the panel will show of it, and whether the recorder was on
/// when it was tagged.
pub struct Probe<E> {
    inner: E,
    meta: ProbeMeta,
    /// Sampled once at construction so the attribute setters can skip their
    /// allocations entirely while the inspector is closed.
    recording: bool,
}

/// The attributes of `meta`, by value.
pub open spec fn attrs_of(meta: ProbeMeta) -> Seq<(Seq<char>, Seq<char>)> {
    pairs_view(meta.attrs@)
}

impl<E> Probe<E> {
    /// The wrapped element.
    pub closed spec fn wrapped(self) -> E {
        self.inner
    }

    /// What the probe will record.
    pub closed spec fn tagged(self) -> ProbeMeta {
        self.meta
    }

    /// Whether the recorder was on when the probe was made.
    pub closed spec fn records(self) -> bool {
        self.recording
    }

    /// Wrap `inner` in a probe named `name`, constructed at `caller`. The
    /// source is kept only while recording; nothing else is allocated then.
    pub fn new(registry: &Registry, inner: E, name: &str, caller: SourceRef) -> (r: Probe<E>)
        ensures
            r.wrapped() == inner,
            r.records() == (registry@.recorders > 0),
            r.tagged().name@ == name@,
            attrs_of(r.tagged()) == Seq::<(Seq<char>, Seq<char>)>::empty(),
            r.tagged().source == if registry@.recorders > 0 { Some(caller) } else { None },
    {
        let recording = is_enabled(registry);
        let source = if recording { Some(caller) } else { None };
        let r = Probe {
            inner,
            meta: ProbeMeta { name: name.to_string(), attrs: Vec::new(), source },
            recording,
        };
        assert(attrs_of(r.meta) =~= Seq::<(Seq<char>, Seq<char>)>::empty());
        r
    }

    /// What the probe will record.
    pub fn meta(&self) -> (r: &ProbeMeta)
        ensures
            *r == self.tagged(),
    {
        &self.meta
    }

    /// Whether the recorder was on when the probe was made.
    pub fn is_recording(&self) -> (r: bool)
        ensures
            r == self.records(),
    {
        self.recording
    }

    /// The wrapped element and what to record for it, for the element that
    /// brackets its prepaint.
    pub fn into_parts(self) -> (r: (E, ProbeMeta))
        ensures
            r.0 == self.wrapped(),
            r.1 == self.tagged(),
    {
        (self.inner, self.meta)
    }

    /// Add an attribute, shown inline after the tag name. Dropped without
    /// allocating when the inspector is closed.
    pub fn attr(self, name: &str, value: &str) -> (r: Probe<E>)
        ensures
            r.wrapped() == self.wrapped(),
            r.records() == self.records(),
            r.tagged().name == self.tagged().name,
            r.tagged().source == self.tagged().source,
            attrs_of(r.tagged()) == if self.records() {
                attrs_of(self.tagged()).push((name@, value@))
            } else {
                attrs_of(self.tagged())
            },
    {
        let mut r = self;
        if r.recording {
            let ghost before = r.meta.attrs@;
            r.meta.attrs.push((name.to_string(), value.to_string()));
            assert(pairs_view(r.meta.attrs@) =~= pairs_view(before).push((name@, value@)));
        }
        r
    }

    /// Add an attribute whose value costs something to build. `value` runs
    /// only while the inspector is recording.
    pub fn attr_with<F: FnOnce() -> String>(self, name: &str, value: F) -> (r: Probe<E>)
        requires
            self.records() ==> value.requires(()),
        ensures
            r.wrapped() == self.wrapped(),
            r.records() == self.records(),
            r.tagged().name == self.tagged().name,
            r.tagged().source == self.tagged().source,
            !self.records() ==> attrs_of(r.tagged()) == attrs_of(self.tagged()),
            self.records() ==> exists|v: String|
                #[trigger] value.ensures((), v) && attrs_of(r.tagged()) == attrs_of(self.tagged()).push(
                    (name@, v@),
                ),
    {
        let mut r = self;
        if r.recording {
            let ghost before = r.meta.attrs@;
            let v = value();
            let ghost seen = v;
            r.meta.attrs.push((name.to_string(), v));
            assert(pairs_view(r.meta.attrs@) =~= pairs_view(before).push((name@, seen@)));
        }
        r
    }

    /// Add an attribute only when `value` is set — the usual shape for a
    /// component's optional props.
    pub fn attr_opt(self, name: &str, value: Option<&str>) -> (r: Probe<E>)
        ensures
            r.wrapped() == self.wrapped(),
            r.records() == self.records(),
            r.tagged().name == self.tagged().name,
            r.tagged().source == self.tagged().source,
            attrs_of(r.tagged()) == match value {
                Some(v) => if self.records() {
                    attrs_of(self.tagged()).push((name@, v@))
                } else {
                    attrs_of(self.tagged())
                },
                None => attrs_of(self.tagged()),
            },
    {
        match value {
            Some(v) => self.attr(name, v),
            None => self,
        }
    }

    /// Add an attribute only when `present`, the way a boolean HTML
    /// attribute either appears bare or not at all.
    pub fn attr_if(self, name: &str, present: bool) -> (r: Probe<E>)
        ensures
            r.wrapped() == self.wrapped(),
            r.records() == self.records(),
            r.tagged().name == self.tagged().name,
            r.tagged().source == self.tagged().source,
            attrs_of(r.tagged()) == if present && self.records() {
                attrs_of(self.tagged()).push((name@, Seq::<char>::empty()))
            } else {
                attrs_of(self.tagged())
            },
    {
        if present {
            proof {
                reveal_strlit("");
                assert(""@ =~= Seq::<char>::empty());
            }
            self.attr(name, "")
        } else {
            self
        }
    }
}

/// A copy of `t`.
pub fn clone_tree(t: &ProbeTree) -> (r: ProbeTree)
    ensures
        r@ == t@,
{
    let mut nodes: Vec<ProbeNode> = Vec::new();
    let mut i: usize = 0;
    while i < t.nodes.len()
        invariant
            i <= t.nodes@.len(),
            nodes@.len() == i,
            forall|j: int| 0 <= j < i ==> #[trigger] nodes@[j]@ == t.nodes@[j]@,
        decreases t.nodes@.len() - i,
    {
        nodes.push(t.nodes[i].clone());
        i = i + 1;
    }
    let r = ProbeTree { nodes, roots: t.roots.clone() };
    assert(r@.nodes =~= t@.nodes);
    r
}

/// An inspector that opens and closes while another is alive leaves the
/// recorder exactly as it found it, still recording.
pub proof fn law_overlapping_inspectors(r: RegistryView)
    requires
        r.recorders > 0,
    ensures
        released(retained(r)) == r,
        released(retained(r)).recorders > 0,
{
}

/// A release with no inspector alive cannot drive the count below zero: the
/// next inspector still turns recording on.
pub proof fn law_release_never_underflows(r: RegistryView)
    ensures
        released(r).recorders <= r.recorders,
        r.recorders == 0 ==> retained(released(r)).recorders == 1,
{
}

/// When the last inspector goes, the recorded trees go with it.
pub proof fn law_last_release_drops_trees(r: RegistryView)
    requires
        r.recorders <= 1,
    ensures
        released(r).recorders == 0,
        released(r).building == empty_tree(),
        released(r).current == empty_tree(),
        released(r).stack.len() == 0,
{
}

/// Nothing records while no inspector is alive: a push changes nothing and
/// starting a frame changes nothing.
pub proof fn law_disabled_records_nothing(r: RegistryView, meta: ProbeMeta, window: Option<u64>, claim: Option<u64>)
    requires
        r.recorders == 0,
    ensures
        pushed(r, meta, window) == r,
        rotated(r, claim) == r,
{
}

/// Push/pop pairs nest: closing the node a push just opened returns the open
/// ancestors to what they were before the push.
pub proof fn law_push_pop_nests(r: RegistryView, meta: ProbeMeta, window: Option<u64>, element_id: Option<Seq<char>>)
    requires
        records(r, window),
    ensures
        popped(pushed(r, meta, window), r.building.nodes.len() as usize, element_id).stack == r.stack,
{
    let s = r.stack;
    let n = r.building.nodes.len() as usize;
    assert(s.push(n).drop_last() =~= s);
}

/// A frame that begins drops whatever was left open, so an unbalanced push
/// never nests the next frame under it.
pub proof fn law_frames_start_unnested(r: RegistryView, claim: Option<u64>)
    requires
        r.recorders > 0,
    ensures
        rotated(r, claim).stack.len() == 0,
        rotated(r, claim).building == empty_tree(),
        rotated(r, claim).window == claim,
{
}

/// The ancestry of a node runs root first: it starts at a root, ends at the
/// node, steps from parent to child, and is one longer than the node's depth.
pub proof fn law_ancestry_root_first(t: TreeView, index: usize)
    requires
        well_formed(t),
        index < t.nodes.len(),
    ensures
        ancestry_of(t, index).len() == t.nodes[index as int].depth + 1,
        ancestry_of(t, index).last() == index,
        t.nodes[ancestry_of(t, index)[0] as int].parent is None,
        forall|k: int|
            0 <= k < ancestry_of(t, index).len() - 1 ==> t.nodes[#[trigger] ancestry_of(t, index)[k + 1] as int].parent
                == Some(ancestry_of(t, index)[k]),
        forall|k: int| 0 <= k < ancestry_of(t, index).len() ==> #[trigger] ancestry_of(t, index)[k] < t.nodes.len(),
    decreases index,
{
    let a = ancestry_of(t, index);
    assert(t.nodes[index as int].parent == t.nodes[index as int].parent);
    match t.nodes[index as int].parent {
        Some(p) => {
            assert(p < index);
            law_ancestry_root_first(t, p);
            let b = ancestry_of(t, p);
            assert(a == b.push(index));
            assert(a[0] == b[0]);
            assert forall|k: int| 0 <= k < a.len() - 1 implies t.nodes[#[trigger] a[k + 1] as int].parent == Some(a[k]) by {
                if k + 1 < b.len() {
                    assert(a[k + 1] == b[k + 1]);
                    assert(a[k] == b[k]);
                } else {
                    assert(a[k + 1] == index);
                    assert(a[k] == b.last());
                }
            }
            assert forall|k: int| 0 <= k < a.len() implies #[trigger] a[k] < t.nodes.len() by {
                if k < b.len() {
                    assert(a[k] == b[k]);
                }
            }
        },
        None => {
            assert(a =~= seq![index]);
        },
    }
}

} // verus!
