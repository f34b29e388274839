//! The Elements panel's state: what is selected, which subtrees are folded,
//! which sidebar tab shows, and the rows the tree flattens into.
//!
//! Folds are stored as the exception, so a node that appears for the first
//! time is expanded, the way Safari reveals new DOM.

use vstd::prelude::*;

use super::probe::{
    ancestry_of, find_key, law_ancestry_root_first, well_formed, NodeView, ProbeNode,
    ProbeTree, TreeView,
};

verus! {

/// The sidebar tabs, in Safari's order.
#[derive(Debug, Clone, Copy, PartialEq, Eq, Structural)]
pub enum ElementsSidebar {
    Styles,
    Computed,
    Node,
}

impl ElementsSidebar {
    pub fn label(self) -> (r: &'static str)
        ensures
            r@ == match self {
                ElementsSidebar::Styles => "Styles"@,
                ElementsSidebar::Computed => "Computed"@,
                ElementsSidebar::Node => "Node"@,
            },
    {
        match self {
            ElementsSidebar::Styles => "Styles",
            ElementsSidebar::Computed => "Computed",
            ElementsSidebar::Node => "Node",
        }
    }
}

impl Default for ElementsSidebar {
    fn default() -> (r: ElementsSidebar)
        ensures
            r == ElementsSidebar::Styles,
    {
        ElementsSidebar::Styles
    }
}

/// The set of keys a list of folded keys holds.
pub open spec fn folds_of(v: Seq<String>) -> Set<Seq<char>> {
    Set::new(|k: Seq<char>| exists|i: int| 0 <= i < v.len() && #[trigger] v[i]@ == k)
}

/// The panel's state, by value.
pub struct ElementsView {
    pub selected: Option<Seq<char>>,
    pub collapsed: Set<Seq<char>>,
    pub sidebar: ElementsSidebar,
}

/// Panel state: what is selected, what is folded, which sidebar is showing.
pub struct ElementsPanel {
    /// The selected node's stable key, which is what survives a re-render.
    pub selected: Option<String>,
    /// Folded subtrees, by key.
    collapsed: Vec<String>,
    pub sidebar: ElementsSidebar,
}

impl View for ElementsPanel {
    type V = ElementsView;

    closed spec fn view(&self) -> ElementsView {
        ElementsView {
            selected: match self.selected {
                Some(k) => Some(k@),
                None => None,
            },
            collapsed: folds_of(self.collapsed@),
            sidebar: self.sidebar,
        }
    }
}

/// `collapsed` with `key` folded if it was expanded, expanded if it was
/// folded.
pub open spec fn toggled(collapsed: Set<Seq<char>>, key: Seq<char>) -> Set<Seq<char>> {
    if collapsed.contains(key) {
        collapsed.remove(key)
    } else {
        collapsed.insert(key)
    }
}

/// The keys of the nodes on `chain`.
pub open spec fn keys_of(t: TreeView, chain: Seq<usize>) -> Set<Seq<char>> {
    Set::new(
        |k: Seq<char>|
            exists|j: int| 0 <= j < chain.len() && chain[j] < t.nodes.len() && #[trigger] t.nodes[chain[j] as int].key == k,
    )
}

/// The rows of the subtree at `index`, honouring folds: the opening row,
/// then, for an expanded node with children, their rows and a closing row.
pub open spec fn subtree_rows(t: TreeView, collapsed: Set<Seq<char>>, index: int) -> Seq<(usize, bool)>
    decreases t.nodes.len() - index, t.nodes[index].children.len() + 1,
    when 0 <= index
{
    if index < t.nodes.len() {
        let node = t.nodes[index];
        if node.children.len() == 0 || collapsed.contains(node.key) {
            seq![(index as usize, false)]
        } else {
            seq![(index as usize, false)] + children_rows(t, collapsed, index, 0) + seq![
                (index as usize, true),
            ]
        }
    } else {
        Seq::empty()
    }
}

/// The rows of the children of `index` from the `k`-th on. A child that does
/// not come after its parent inside the arena, which no well-formed tree
/// has, adds nothing.
pub open spec fn children_rows(t: TreeView, collapsed: Set<Seq<char>>, index: int, k: int) -> Seq<
    (usize, bool),
>
    decreases t.nodes.len() - index, t.nodes[index].children.len() - k,
    when 0 <= index < t.nodes.len() && 0 <= k
{
    let children = t.nodes[index].children;
    if k < children.len() {
        let c = children[k] as int;
        let head = if index < c < t.nodes.len() {
            subtree_rows(t, collapsed, c)
        } else {
            Seq::empty()
        };
        head + children_rows(t, collapsed, index, k + 1)
    } else {
        Seq::empty()
    }
}

/// The rows of the whole tree from the `k`-th root on.
pub open spec fn forest_rows(t: TreeView, collapsed: Set<Seq<char>>, k: int) -> Seq<(usize, bool)>
    decreases t.roots.len() - k,
    when 0 <= k
{
    if k < t.roots.len() {
        subtree_rows(t, collapsed, t.roots[k] as int) + forest_rows(t, collapsed, k + 1)
    } else {
        Seq::empty()
    }
}

/// The node a selection names, when it is still in `t`.
pub open spec fn selected_in(t: TreeView, selected: Option<Seq<char>>) -> Option<NodeView> {
    match selected {
        Some(k) => if find_key(t.nodes, k) >= 0 {
            Some(t.nodes[find_key(t.nodes, k)])
        } else {
            None
        },
        None => None,
    }
}

proof fn lemma_folds_push(s: Seq<String>, x: String)
    ensures
        folds_of(s.push(x)) == folds_of(s).insert(x@),
{
    let t = s.push(x);
    assert forall|k: Seq<char>| folds_of(t).contains(k) implies folds_of(s).insert(x@).contains(k) by {
        let j = choose|j: int| 0 <= j < t.len() && #[trigger] t[j]@ == k;
        if j < s.len() {
            assert(s[j] == t[j]);
        }
    }
    assert forall|k: Seq<char>| folds_of(s).insert(x@).contains(k) implies folds_of(t).contains(k) by {
        if k == x@ {
            assert(t[s.len() as int]@ == k);
        } else {
            let j = choose|j: int| 0 <= j < s.len() && #[trigger] s[j]@ == k;
            assert(t[j] == s[j]);
        }
    }
    assert(folds_of(t) =~= folds_of(s).insert(x@));
}

/// `v` without any entry reading `key`; whether there was one.
fn remove_key(v: &mut Vec<String>, key: &String) -> (found: bool)
    ensures
        folds_of(final(v)@) == folds_of(old(v)@).remove(key@),
        found == folds_of(old(v)@).contains(key@),
{
    let mut kept: Vec<String> = Vec::new();
    let mut found = false;
    let mut i: usize = 0;
    assert(folds_of(v@.take(0)) =~= Set::<Seq<char>>::empty());
    assert(folds_of(kept@) =~= Set::<Seq<char>>::empty());
    while i < v.len()
        invariant
            i <= v@.len(),
            found == folds_of(v@.take(i as int)).contains(key@),
            folds_of(kept@) == folds_of(v@.take(i as int)).remove(key@),
        decreases v@.len() - i,
    {
        let ghost before = kept@;
        proof {
            assert(v@.take(i + 1) == v@.take(i as int).push(v@[i as int]));
            lemma_folds_push(v@.take(i as int), v@[i as int]);
        }
        if v[i] == *key {
            found = true;
            assert(folds_of(kept@) =~= folds_of(v@.take(i + 1)).remove(key@));
        } else {
            let copy = v[i].clone();
            kept.push(copy);
            proof {
                lemma_folds_push(before, copy);
                assert(folds_of(kept@) =~= folds_of(v@.take(i + 1)).remove(key@));
            }
        }
        i = i + 1;
    }
    assert(v@.take(v@.len() as int) =~= v@);
    *v = kept;
    found
}

proof fn lemma_keys_push(t: TreeView, chain: Seq<usize>, a: usize)
    requires
        a < t.nodes.len(),
    ensures
        keys_of(t, chain.push(a)) == keys_of(t, chain).insert(t.nodes[a as int].key),
{
    let c2 = chain.push(a);
    assert forall|k: Seq<char>| keys_of(t, c2).contains(k) implies keys_of(t, chain).insert(
        t.nodes[a as int].key,
    ).contains(k) by {
        let j = choose|j: int| 0 <= j < c2.len() && c2[j] < t.nodes.len() && #[trigger] t.nodes[c2[j] as int].key == k;
        if j < chain.len() {
            assert(chain[j] == c2[j]);
        }
    }
    assert forall|k: Seq<char>| keys_of(t, chain).insert(t.nodes[a as int].key).contains(k) implies keys_of(
        t,
        c2,
    ).contains(k) by {
        if k == t.nodes[a as int].key {
            assert(c2[chain.len() as int] == a);
        } else {
            let j = choose|j: int|
                0 <= j < chain.len() && chain[j] < t.nodes.len() && #[trigger] t.nodes[chain[j] as int].key == k;
            assert(c2[j] == chain[j]);
        }
    }
    assert(keys_of(t, c2) =~= keys_of(t, chain).insert(t.nodes[a as int].key));
}

impl ElementsPanel {
    /// A panel with nothing selected, nothing folded, on the Styles tab.
    pub fn new() -> (r: ElementsPanel)
        ensures
            r@.selected is None,
            r@.collapsed == Set::<Seq<char>>::empty(),
            r@.sidebar == ElementsSidebar::Styles,
    {
        let r = ElementsPanel { selected: None, collapsed: Vec::new(), sidebar: ElementsSidebar::Styles };
        assert(folds_of(r.collapsed@) =~= Set::<Seq<char>>::empty());
        r
    }

    /// Show `sidebar` next to the tree.
    pub fn set_sidebar(&mut self, sidebar: ElementsSidebar)
        ensures
            final(self)@ == (ElementsView { sidebar, ..old(self)@ }),
    {
        self.sidebar = sidebar;
    }

    /// Whether a node is selected.
    pub fn has_selection(&self) -> (r: bool)
        ensures
            r == self@.selected is Some,
    {
        match &self.selected {
            Some(_) => true,
            None => false,
        }
    }

    pub fn select(&mut self, key: &str)
        ensures
            final(self)@ == (ElementsView { selected: Some(key@), ..old(self)@ }),
    {
        self.selected = Some(key.to_string());
    }

    /// Fold an expanded node, or expand a folded one.
    pub fn toggle(&mut self, key: &str)
        ensures
            final(self)@ == (ElementsView { collapsed: toggled(old(self)@.collapsed, key@), ..old(self)@ }),
    {
        let owned = key.to_string();
        let found = remove_key(&mut self.collapsed, &owned);
        if !found {
            let ghost before = self.collapsed@;
            let ghost pushed_key = owned;
            self.collapsed.push(owned);
            proof {
                lemma_folds_push(before, pushed_key);
                assert(old(self)@.collapsed.remove(key@) =~= old(self)@.collapsed);
            }
        }
    }

    pub fn is_collapsed(&self, key: &str) -> (r: bool)
        ensures
            r == self@.collapsed.contains(key@),
    {
        let target = key.to_string();
        let mut i: usize = 0;
        while i < self.collapsed.len()
            invariant
                target@ == key@,
                i <= self.collapsed@.len(),
                forall|j: int| 0 <= j < i ==> #[trigger] self.collapsed@[j]@ != key@,
            decreases self.collapsed@.len() - i,
        {
            if self.collapsed[i] == target {
                return true;
            }
            i = i + 1;
        }
        false
    }

    /// Expand every ancestor of `key` so a selection made elsewhere — the
    /// element picker, a Console source link — is actually on screen, and
    /// select it.
    pub fn reveal_in(&mut self, tree: &ProbeTree, key: &str)
        requires
            well_formed(tree@),
        ensures
            final(self)@ == (ElementsView {
                selected: Some(key@),
                collapsed: if find_key(tree@.nodes, key@) >= 0 {
                    old(self)@.collapsed.difference(
                        keys_of(tree@, ancestry_of(tree@, find_key(tree@.nodes, key@) as usize)),
                    )
                } else {
                    old(self)@.collapsed
                },
                ..old(self)@
            }),
    {
        let ghost start = self@.collapsed;
        let ghost side = self.sidebar;
        match tree.find(key) {
            Some(index) => {
                let chain = tree.ancestry(index);
                proof {
                    super::probe::law_ancestry_root_first(tree@, index);
                }
                let mut i: usize = 0;
                assert(keys_of(tree@, chain@.take(0)) =~= Set::<Seq<char>>::empty());
                assert(start.difference(Set::<Seq<char>>::empty()) =~= start);
                while i < chain.len()
                    invariant
                        self.sidebar == side,
                        i <= chain@.len(),
                        chain@ == ancestry_of(tree@, index),
                        index < tree@.nodes.len(),
                        well_formed(tree@),
                        forall|k: int| 0 <= k < chain@.len() ==> #[trigger] chain@[k] < tree@.nodes.len(),
                        folds_of(self.collapsed@) == start.difference(keys_of(tree@, chain@.take(i as int))),
                    decreases chain@.len() - i,
                {
                    let a = chain[i];
                    assert(tree@.nodes[a as int] == tree.nodes@[a as int]@);
                    let ghost before = folds_of(self.collapsed@);
                    remove_key(&mut self.collapsed, &tree.nodes[a].key);
                    proof {
                        lemma_keys_push(tree@, chain@.take(i as int), a);
                        assert(chain@.take(i + 1) == chain@.take(i as int).push(a));
                        assert(folds_of(self.collapsed@) =~= start.difference(keys_of(tree@, chain@.take(i + 1))));
                    }
                    i = i + 1;
                }
                assert(chain@.take(chain@.len() as int) =~= chain@);
            },
            None => {},
        }
        self.selected = Some(key.to_string());
    }

    /// The selected node, if it is still in the current tree. A node can
    /// vanish between frames and the panel then shows nothing rather than a
    /// stale copy.
    pub fn selected_node<'a>(&self, tree: &'a ProbeTree) -> (r: Option<&'a ProbeNode>)
        ensures
            match r {
                Some(n) => selected_in(tree@, self@.selected) == Some(n@),
                None => selected_in(tree@, self@.selected) is None,
            },
    {
        match &self.selected {
            Some(key) => match tree.find(key.as_str()) {
                Some(index) => tree.get(index),
                None => None,
            },
            None => None,
        }
    }

    /// Flatten the tree into rows, honouring folds. Each row is
    /// `(index, is_closing_tag)`; a closing tag is the `</Stack>` line shown
    /// under an expanded node's children.
    pub fn rows(&self, tree: &ProbeTree) -> (r: Vec<(usize, bool)>)
        requires
            well_formed(tree@),
        ensures
            r@ == forest_rows(tree@, self@.collapsed, 0),
    {
        let mut rows: Vec<(usize, bool)> = Vec::new();
        let mut k: usize = 0;
        while k < tree.roots.len()
            invariant
                well_formed(tree@),
                k <= tree@.roots.len(),
                rows@ + forest_rows(tree@, self@.collapsed, k as int) == forest_rows(tree@, self@.collapsed, 0),
            decreases tree@.roots.len() - k,
        {
            let ghost before = rows@;
            self.push_rows(tree, tree.roots[k], &mut rows);
            assert(before + forest_rows(tree@, self@.collapsed, k as int) =~= rows@ + forest_rows(
                tree@,
                self@.collapsed,
                k + 1,
            ));
            k = k + 1;
        }
        assert(rows@ + forest_rows(tree@, self@.collapsed, k as int) =~= rows@);
        rows
    }

    fn push_rows(&self, tree: &ProbeTree, index: usize, rows: &mut Vec<(usize, bool)>)
        requires
            well_formed(tree@),
        ensures
            final(rows)@ == old(rows)@ + subtree_rows(tree@, self@.collapsed, index as int),
        decreases tree@.nodes.len() - index,
    {
        let node = match tree.get(index) {
            Some(n) => n,
            None => {
                assert(old(rows)@ + subtree_rows(tree@, self@.collapsed, index as int) =~= old(rows)@);
                return;
            },
        };
        let ghost start = rows@;
        rows.push((index, false));
        if node.is_leaf() || self.is_collapsed(node.key.as_str()) {
            assert(rows@ =~= start + subtree_rows(tree@, self@.collapsed, index as int));
            return;
        }
        let ghost children = tree@.nodes[index as int].children;
        let mut k: usize = 0;
        while k < node.children.len()
            invariant
                well_formed(tree@),
                index < tree@.nodes.len(),
                node@ == tree@.nodes[index as int],
                children == node.children@,
                k <= children.len(),
                rows@ + children_rows(tree@, self@.collapsed, index as int, k as int) == start + seq![
                    (index, false),
                ] + children_rows(tree@, self@.collapsed, index as int, 0),
            decreases children.len() - k,
        {
            let c = node.children[k];
            assert(index < c) by {
                assert(tree@.nodes[index as int].children[k as int] == c);
            }
            let ghost before = rows@;
            self.push_rows(tree, c, rows);
            assert(before + children_rows(tree@, self@.collapsed, index as int, k as int) =~= rows@
                + children_rows(tree@, self@.collapsed, index as int, k + 1));
            k = k + 1;
        }
        rows.push((index, true));
        assert(rows@ =~= start + subtree_rows(tree@, self@.collapsed, index as int));
    }
}

impl Default for ElementsPanel {
    fn default() -> (r: ElementsPanel)
        ensures
            r@.selected is None,
            r@.collapsed == Set::<Seq<char>>::empty(),
            r@.sidebar == ElementsSidebar::Styles,
    {
        ElementsPanel::new()
    }
}

/// Toggling a node twice leaves the folds as they were.
pub proof fn law_toggle_twice_restores(collapsed: Set<Seq<char>>, key: Seq<char>)
    ensures
        toggled(toggled(collapsed, key), key) == collapsed,
{
    assert(toggled(toggled(collapsed, key), key) =~= collapsed);
}

/// A folded node, or a leaf, is one row: its children and its closing tag
/// are hidden.
pub proof fn law_folded_node_is_one_row(t: TreeView, collapsed: Set<Seq<char>>, index: int)
    requires
        0 <= index < t.nodes.len(),
        collapsed.contains(t.nodes[index].key) || t.nodes[index].children.len() == 0,
    ensures
        subtree_rows(t, collapsed, index) == seq![(index as usize, false)],
{
}

proof fn lemma_contains_left(a: Seq<(usize, bool)>, b: Seq<(usize, bool)>, x: (usize, bool))
    requires
        a.contains(x),
    ensures
        (a + b).contains(x),
{
    let k = choose|k: int| 0 <= k < a.len() && a[k] == x;
    assert((a + b)[k] == x);
}

proof fn lemma_contains_right(a: Seq<(usize, bool)>, b: Seq<(usize, bool)>, x: (usize, bool))
    requires
        b.contains(x),
    ensures
        (a + b).contains(x),
{
    let k = choose|k: int| 0 <= k < b.len() && b[k] == x;
    assert((a + b)[a.len() + k] == x);
}

/// The rows of the children of `p` from the `k0`-th on hold every row of
/// the subtree of each of those children.
proof fn lemma_children_rows_hold(t: TreeView, collapsed: Set<Seq<char>>, p: int, k0: int, k: int, x: (usize, bool))
    requires
        well_formed(t),
        0 <= p < t.nodes.len(),
        0 <= k0 <= k < t.nodes[p].children.len(),
        subtree_rows(t, collapsed, t.nodes[p].children[k] as int).contains(x),
    ensures
        children_rows(t, collapsed, p, k0).contains(x),
    decreases k - k0,
{
    let c = t.nodes[p].children[k0] as int;
    assert(p < c < t.nodes.len());
    let head = subtree_rows(t, collapsed, c);
    let tail = children_rows(t, collapsed, p, k0 + 1);
    assert(children_rows(t, collapsed, p, k0) == head + tail);
    if k == k0 {
        lemma_contains_left(head, tail, x);
    } else {
        lemma_children_rows_hold(t, collapsed, p, k0 + 1, k, x);
        lemma_contains_right(head, tail, x);
    }
}

/// The rows from the `k0`-th root on hold every row of each of those roots'
/// subtrees.
proof fn lemma_forest_rows_hold(t: TreeView, collapsed: Set<Seq<char>>, k0: int, k: int, x: (usize, bool))
    requires
        0 <= k0 <= k < t.roots.len(),
        subtree_rows(t, collapsed, t.roots[k] as int).contains(x),
    ensures
        forest_rows(t, collapsed, k0).contains(x),
    decreases k - k0,
{
    let head = subtree_rows(t, collapsed, t.roots[k0] as int);
    let tail = forest_rows(t, collapsed, k0 + 1);
    if k == k0 {
        lemma_contains_left(head, tail, x);
    } else {
        lemma_forest_rows_hold(t, collapsed, k0 + 1, k, x);
        lemma_contains_right(head, tail, x);
    }
}

/// Whether no node above `index` on its chain from the root is folded.
pub open spec fn unfolded_above(t: TreeView, collapsed: Set<Seq<char>>, index: usize) -> bool {
    forall|j: int|
        0 <= j < ancestry_of(t, index).len() - 1 ==> !collapsed.contains(
            t.nodes[#[trigger] ancestry_of(t, index)[j] as int].key,
        )
}

/// The subtree of the `j`-th node on `index`'s chain holds `index`'s row.
proof fn lemma_row_in_chain(t: TreeView, collapsed: Set<Seq<char>>, index: usize, j: int)
    requires
        well_formed(t),
        index < t.nodes.len(),
        unfolded_above(t, collapsed, index),
        0 <= j < ancestry_of(t, index).len(),
    ensures
        subtree_rows(t, collapsed, ancestry_of(t, index)[j] as int).contains((index, false)),
    decreases ancestry_of(t, index).len() - j,
{
    law_ancestry_root_first(t, index);
    let chain = ancestry_of(t, index);
    let a = chain[j] as int;
    if j == chain.len() - 1 {
        assert(a == index);
        assert(subtree_rows(t, collapsed, a)[0] == (index, false));
    } else {
        lemma_row_in_chain(t, collapsed, index, j + 1);
        let c = chain[j + 1];
        assert(t.nodes[c as int].parent == Some(chain[j]));
        assert(t.nodes[a].children.contains(c));
        let k = choose|k: int| 0 <= k < t.nodes[a].children.len() && t.nodes[a].children[k] == c;
        assert(!collapsed.contains(t.nodes[a].key));
        lemma_children_rows_hold(t, collapsed, a, 0, k, (index, false));
        let rows = subtree_rows(t, collapsed, a);
        let inner = children_rows(t, collapsed, a, 0);
        assert(rows == seq![(a as usize, false)] + inner + seq![(a as usize, true)]);
        lemma_contains_right(seq![(a as usize, false)], inner, (index, false));
        lemma_contains_left(seq![(a as usize, false)] + inner, seq![(a as usize, true)], (index, false));
    }
}

/// A node whose ancestors are all unfolded has a row in the Elements tree.
pub proof fn law_unfolded_node_is_shown(t: TreeView, collapsed: Set<Seq<char>>, index: usize)
    requires
        well_formed(t),
        index < t.nodes.len(),
        unfolded_above(t, collapsed, index),
    ensures
        forest_rows(t, collapsed, 0).contains((index, false)),
{
    law_ancestry_root_first(t, index);
    lemma_row_in_chain(t, collapsed, index, 0);
    let root = ancestry_of(t, index)[0];
    assert(t.nodes[root as int].parent is None);
    assert(t.roots.contains(root));
    let k = choose|k: int| 0 <= k < t.roots.len() && t.roots[k] == root;
    lemma_forest_rows_hold(t, collapsed, 0, k, (index, false));
}

/// Revealing a key puts its node on screen: after the ancestors' folds are
/// dropped, the node the key names has a row.
pub proof fn law_reveal_shows_the_node(t: TreeView, collapsed: Set<Seq<char>>, key: Seq<char>)
    requires
        well_formed(t),
        find_key(t.nodes, key) >= 0,
    ensures
        ({
            let index = find_key(t.nodes, key) as usize;
            let unfolded = collapsed.difference(keys_of(t, ancestry_of(t, index)));
            forest_rows(t, unfolded, 0).contains((index, false))
        }),
{
    lemma_find_key_bounds(t.nodes, key);
    let index = find_key(t.nodes, key) as usize;
    law_ancestry_root_first(t, index);
    let chain = ancestry_of(t, index);
    let unfolded = collapsed.difference(keys_of(t, chain));
    assert forall|j: int| 0 <= j < chain.len() - 1 implies !unfolded.contains(
        t.nodes[#[trigger] chain[j] as int].key,
    ) by {
        assert(keys_of(t, chain).contains(t.nodes[chain[j] as int].key));
    }
    law_unfolded_node_is_shown(t, unfolded, index);
}

proof fn lemma_find_key_bounds(nodes: Seq<NodeView>, key: Seq<char>)
    ensures
        find_key(nodes, key) < nodes.len(),
    decreases nodes.len(),
{
    if nodes.len() > 0 && nodes[0].key != key {
        lemma_find_key_bounds(nodes.drop_first(), key);
    }
}

} // verus!
