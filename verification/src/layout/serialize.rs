//! The saved form of a dock layout: the split tree without node identifiers,
//! the groups with their tabs, the floating groups, and the entries of
//! detached windows kept for older layouts. Writing turns a layout into a
//! document; reading rebuilds a layout from a document, dropping tabs of
//! panel types this version does not know and repairing what that leaves.
use std::collections::HashMap;
use vstd::prelude::*;
use vstd::std_specs::iter::IteratorSpec;
use super::dock::{DockLayout, FloatingGroup, FloatPos, FloatSize, floating_ids};
use super::shape::{
    SerializedNode, Shape, lemma_flatten_dom, lemma_ids_has_id, lemma_sub, lemma_sub_children,
};
use super::tree::{
    Group, GroupId, GroupValue, LayoutIds, NodeId, PanelId, PanelType, SplitNode, TabEntry,
    successor, max_u64,
};

verus! {

broadcast use vstd::std_specs::hash::group_hash_axioms;

/// A tab as it is written.
#[derive(Debug, Clone, Copy, PartialEq, Eq, Structural)]
pub struct SerializedTab {
    pub panel_id: u64,
    pub panel_type: PanelType,
}

/// A group as it is written.
#[derive(Debug, Clone)]
pub struct SerializedGroup {
    pub id: u64,
    pub active_tab: usize,
    pub tabs: Vec<SerializedTab>,
}

/// The value of a written group.
pub struct SerializedGroupView {
    pub id: u64,
    pub active_tab: usize,
    pub tabs: Seq<SerializedTab>,
}

impl View for SerializedGroup {
    type V = SerializedGroupView;

    open spec fn view(&self) -> SerializedGroupView {
        SerializedGroupView { id: self.id, active_tab: self.active_tab, tabs: self.tabs@ }
    }
}

/// A floating group entry as it is written.
#[derive(Debug, Clone, Copy, PartialEq, Eq, Structural)]
pub struct SerializedFloating {
    pub group_id: u64,
    pub x: i32,
    pub y: i32,
    pub width: u32,
    pub height: u32,
}

/// Entry describing a detached (OS-level) window, kept for older layouts.
#[derive(Debug, Clone, Copy, PartialEq, Eq, Structural)]
pub struct DetachedEntry {
    pub panel: PanelType,
    pub id: u64,
    pub group_id: u64,
    pub x: i32,
    pub y: i32,
    pub width: u32,
    pub height: u32,
}

/// A layout as it is written.
#[derive(Debug)]
pub struct LayoutDocument {
    pub tree: SerializedNode,
    pub groups: Vec<SerializedGroup>,
    pub floating: Vec<SerializedFloating>,
    pub detached: Vec<DetachedEntry>,
}

/// A tab as it is read: `None` for a panel type this version does not know.
#[derive(Debug, Clone, Copy, PartialEq, Eq, Structural)]
pub struct LoadedTab {
    pub panel_id: u64,
    pub panel_type: Option<PanelType>,
}

/// A group as it is read.
#[derive(Debug, Clone)]
pub struct LoadedGroup {
    pub id: u64,
    pub active_tab: usize,
    pub tabs: Vec<LoadedTab>,
}

/// The value of a group as it is read.
pub struct LoadedGroupView {
    pub id: u64,
    pub active_tab: usize,
    pub tabs: Seq<LoadedTab>,
}

impl View for LoadedGroup {
    type V = LoadedGroupView;

    open spec fn view(&self) -> LoadedGroupView {
        LoadedGroupView { id: self.id, active_tab: self.active_tab, tabs: self.tabs@ }
    }
}

/// A layout as it is read.
#[derive(Debug)]
pub struct LoadedDocument {
    pub tree: SerializedNode,
    pub groups: Vec<LoadedGroup>,
    pub floating: Vec<SerializedFloating>,
    pub detached: Vec<DetachedEntry>,
}

// ── Writing ─────────────────────────────────────────────────────────────────

pub open spec fn serialized_tab(t: TabEntry) -> SerializedTab {
    SerializedTab { panel_id: t.panel_id.0, panel_type: t.panel_type }
}

/// How a group is written.
pub open spec fn serialized_group(g: GroupValue) -> SerializedGroupView {
    SerializedGroupView {
        id: g.id.0,
        active_tab: g.active_tab,
        tabs: g.tabs.map_values(|t: TabEntry| serialized_tab(t)),
    }
}

pub open spec fn serialized_floating(f: FloatingGroup) -> SerializedFloating {
    SerializedFloating {
        group_id: f.group_id.0,
        x: f.pos.x,
        y: f.pos.y,
        width: f.size.width,
        height: f.size.height,
    }
}

pub open spec fn groups_view(v: Seq<SerializedGroup>) -> Seq<SerializedGroupView> {
    v.map_values(|g: SerializedGroup| g@)
}

/// `doc_groups` lists each group of `groups` once, each written as
/// `serialized_group`, in some order.
pub open spec fn lists_groups(doc_groups: Seq<SerializedGroupView>, groups: Map<u64, GroupValue>) -> bool {
    &&& doc_groups.len() == groups.dom().len()
    &&& forall|i: int|
        0 <= i < doc_groups.len() ==> groups.contains_key((#[trigger] doc_groups[i]).id)
            && doc_groups[i] == serialized_group(groups[doc_groups[i].id])
    &&& forall|i: int, j: int|
        0 <= i < j < doc_groups.len() ==> (#[trigger] doc_groups[i]).id != (
        #[trigger] doc_groups[j]).id
    &&& forall|k: u64|
        #[trigger] groups.contains_key(k) ==> exists|i: int|
            0 <= i < doc_groups.len() && (#[trigger] doc_groups[i]).id == k
}

pub open spec fn group_values(m: Map<u64, Group>) -> Map<u64, GroupValue> {
    m.map_values(|g: Group| g@)
}

impl DockLayout {
    /// The subtree at `node_id`, without node identifiers.
    fn build_serialized_node(&self, node_id: u64, Ghost(sub): Ghost<Shape>) -> (r: SerializedNode)
        requires
            self.tree_ok(),
            self.shape().ids().contains(node_id),
            sub == self.shape().sub(node_id),
        ensures
            r == sub.erase(),
        decreases sub,
    {
        proof {
            lemma_sub(self.shape(), node_id);
            lemma_flatten_dom(self.shape());
        }
        match self.nodes.get(&node_id) {
            Some(SplitNode::Leaf { group_id }) => SerializedNode::Leaf { group_id: group_id.0 },
            Some(SplitNode::Split { direction, ratio, first, second }) => {
                proof {
                    lemma_sub_children(self.shape(), node_id);
                }
                let ghost f = *sub->Split_first;
                let ghost g = *sub->Split_second;
                let first_ser = self.build_serialized_node(first.0, Ghost(f));
                let second_ser = self.build_serialized_node(second.0, Ghost(g));
                SerializedNode::Split {
                    direction: *direction,
                    ratio: *ratio,
                    first: Box::new(first_ser),
                    second: Box::new(second_ser),
                }
            },
            None => {
                proof {
                    assert(false);
                }
                SerializedNode::Leaf { group_id: 0 }
            },
        }
    }

    /// The split tree without node identifiers.
    pub fn serialize_tree(&self) -> (r: SerializedNode)
        requires
            self.tree_ok(),
        ensures
            r == self.shape().erase(),
    {
        proof {
            lemma_ids_has_id(self.shape());
        }
        self.build_serialized_node(self.root.0, Ghost(self.shape()))
    }
}

fn serialize_group(g: &Group) -> (r: SerializedGroup)
    ensures
        r@ == serialized_group(g@),
{
    let mut tabs: Vec<SerializedTab> = Vec::new();
    let n = g.tabs.len();
    let mut i: usize = 0;
    while i < n
        invariant
            i <= n == g.tabs@.len(),
            tabs@ == g.tabs@.take(i as int).map_values(|t: TabEntry| serialized_tab(t)),
        decreases n - i,
    {
        let t = g.tabs[i];
        tabs.push(SerializedTab { panel_id: t.panel_id.0, panel_type: t.panel_type });
        assert(tabs@ =~= g.tabs@.take(i + 1).map_values(|t: TabEntry| serialized_tab(t)));
        i += 1;
    }
    assert(g.tabs@.take(n as int) =~= g.tabs@);
    SerializedGroup { id: g.id.0, active_tab: g.active_tab, tabs }
}

/// Write a layout and the detached entries as a document. The groups are
/// listed in the order the group map hands them out.
pub fn serialize_full_layout(layout: &DockLayout, detached: &[DetachedEntry]) -> (doc: LayoutDocument)
    requires
        layout.wf(),
    ensures
        doc.tree == layout.shape().erase(),
        lists_groups(groups_view(doc.groups@), group_values(layout.groups@)),
        doc.floating@ == layout.floating@.map_values(|f: FloatingGroup| serialized_floating(f)),
        doc.detached@ == detached@,
{
    let tree = layout.serialize_tree();
    let ghost all = layout.groups.iter().remaining();
    let ghost gv = group_values(layout.groups@);
    let mut groups: Vec<SerializedGroup> = Vec::new();
    for (k, g) in it: layout.groups.iter()
        invariant
            it.seq() == all,
            layout.wf(),
            gv == group_values(layout.groups@),
            groups@.len() == it.index(),
            forall|i: int|
                0 <= i < it.index() ==> (#[trigger] groups@[i])@ == serialized_group((*all[i].1)@)
                    && *all[i].1 == layout.groups@[*all[i].0] && groups@[i]@.id == *all[i].0,
    {
        let ghost before = groups@;
        assert(layout.groups@.contains_key(*k) && layout.groups@[*k] == *g);
        let sg = serialize_group(g);
        groups.push(sg);
        proof {
            assert forall|i: int| 0 <= i < it.index() + 1 implies (#[trigger] groups@[i])@
                == serialized_group((*all[i].1)@) && *all[i].1 == layout.groups@[*all[i].0]
                && groups@[i]@.id == *all[i].0 by {
                if i < it.index() {
                    assert(groups@[i] == before[i]);
                }
            }
        }
    }
    let ghost dg = groups_view(groups@);
    proof {
        assert(all.no_duplicates());
        assert forall|i: int| 0 <= i < dg.len() implies gv.contains_key((#[trigger] dg[i]).id) && dg[i]
            == serialized_group(gv[dg[i].id]) by {
            assert(dg[i] == groups@[i]@);
        }
        assert forall|i: int, j: int| 0 <= i < j < dg.len() implies (#[trigger] dg[i]).id != (
        #[trigger] dg[j]).id by {
            assert(dg[i] == groups@[i]@);
            assert(dg[j] == groups@[j]@);
            if dg[i].id == dg[j].id {
                assert(all[i].0 == all[j].0);
                assert(all[i] == all[j]);
            }
        }
        assert forall|k: u64| #[trigger] gv.contains_key(k) implies exists|i: int|
            0 <= i < dg.len() && (#[trigger] dg[i]).id == k by {
            assert(layout.groups@.contains_key(k));
            assert(all.contains((&k, &layout.groups@[k])));
            let i = choose|i: int| 0 <= i < all.len() && all[i] == (&k, &layout.groups@[k]);
            assert(dg[i] == groups@[i]@);
        }
        assert(gv.dom() =~= layout.groups@.dom());
    }
    let mut floating: Vec<SerializedFloating> = Vec::new();
    let n = layout.floating.len();
    let mut i: usize = 0;
    while i < n
        invariant
            i <= n == layout.floating@.len(),
            floating@ == layout.floating@.take(i as int).map_values(
                |f: FloatingGroup| serialized_floating(f),
            ),
        decreases n - i,
    {
        let f = layout.floating[i];
        floating.push(
            SerializedFloating {
                group_id: f.group_id.0,
                x: f.pos.x,
                y: f.pos.y,
                width: f.size.width,
                height: f.size.height,
            },
        );
        assert(floating@ =~= layout.floating@.take(i + 1).map_values(
            |f: FloatingGroup| serialized_floating(f),
        ));
        i += 1;
    }
    assert(layout.floating@.take(n as int) =~= layout.floating@);
    let mut det: Vec<DetachedEntry> = Vec::new();
    let m = detached.len();
    let mut j: usize = 0;
    while j < m
        invariant
            j <= m == detached@.len(),
            det@ == detached@.take(j as int),
        decreases m - j,
    {
        det.push(detached[j]);
        assert(det@ =~= detached@.take(j + 1));
        j += 1;
    }
    assert(detached@.take(m as int) =~= detached@);
    LayoutDocument { tree, groups, floating, detached: det }
}


// ── Reading ─────────────────────────────────────────────────────────────────

/// The tabs whose panel type is known, in order.
pub open spec fn known_tabs(tabs: Seq<LoadedTab>) -> Seq<TabEntry>
    decreases tabs.len(),
{
    if tabs.len() == 0 {
        Seq::empty()
    } else {
        let r = known_tabs(tabs.drop_last());
        match tabs.last().panel_type {
            Some(t) => r.push(TabEntry { panel_id: PanelId(tabs.last().panel_id), panel_type: t }),
            None => r,
        }
    }
}

/// A group as it is read: `None` when none of its tabs has a known panel
/// type; the active tab is clamped to the tabs that remain.
pub open spec fn loaded_group(g: LoadedGroupView) -> Option<GroupValue> {
    let tabs = known_tabs(g.tabs);
    if tabs.len() == 0 {
        None
    } else {
        Some(
            GroupValue {
                id: GroupId(g.id),
                tabs,
                active_tab: if g.active_tab < tabs.len() {
                    g.active_tab
                } else {
                    (tabs.len() - 1) as usize
                },
            },
        )
    }
}

/// The groups read from a document, by identifier (a later entry with the
/// same identifier replaces an earlier one).
pub open spec fn loaded_groups(gs: Seq<LoadedGroupView>) -> Map<u64, GroupValue>
    decreases gs.len(),
{
    if gs.len() == 0 {
        Map::empty()
    } else {
        let m = loaded_groups(gs.drop_last());
        match loaded_group(gs.last()) {
            Some(v) => m.insert(gs.last().id, v),
            None => m,
        }
    }
}

pub open spec fn loaded_groups_view(v: Seq<LoadedGroup>) -> Seq<LoadedGroupView> {
    v.map_values(|g: LoadedGroup| g@)
}

/// The largest group identifier named by the groups and detached entries (0 if none).
pub open spec fn max_group_id(gs: Seq<LoadedGroupView>, ds: Seq<DetachedEntry>) -> u64
    decreases gs.len() + ds.len(),
{
    if ds.len() > 0 {
        max_u64(max_group_id(gs, ds.drop_last()), ds.last().group_id)
    } else if gs.len() > 0 {
        max_u64(max_group_id(gs.drop_last(), ds), gs.last().id)
    } else {
        0
    }
}

pub open spec fn max_panel_in(tabs: Seq<TabEntry>) -> u64
    decreases tabs.len(),
{
    if tabs.len() == 0 {
        0
    } else {
        max_u64(max_panel_in(tabs.drop_last()), tabs.last().panel_id.0)
    }
}

/// The largest panel identifier of a known tab or a detached entry (0 if none).
pub open spec fn max_panel_id(gs: Seq<LoadedGroupView>, ds: Seq<DetachedEntry>) -> u64
    decreases gs.len() + ds.len(),
{
    if ds.len() > 0 {
        max_u64(max_panel_id(gs, ds.drop_last()), ds.last().id)
    } else if gs.len() > 0 {
        max_u64(max_panel_id(gs.drop_last(), ds), max_panel_in(known_tabs(gs.last().tabs)))
    } else {
        0
    }
}

/// The group that replaces a group that could not be read: one Preview panel.
pub open spec fn repair_group(g: u64, p: u64) -> GroupValue {
    GroupValue {
        id: GroupId(g),
        tabs: seq![TabEntry { panel_id: PanelId(p), panel_type: PanelType::Preview }],
        active_tab: 0,
    }
}

/// The result of rebuilding a split tree.
pub struct Rebuilt {
    pub shape: Shape,
    pub groups: Map<u64, GroupValue>,
    pub next_group: u64,
    pub next_panel: u64,
}

/// Rebuilding a written tree: nodes are numbered in preorder from `id`; a
/// leaf whose group is missing gets a new Preview group with the next group
/// and panel identifiers.
pub open spec fn rebuild(t: SerializedNode, id: nat, groups: Map<u64, GroupValue>, g: u64, p: u64) -> Rebuilt
    decreases t,
{
    match t {
        SerializedNode::Leaf { group_id } => if groups.contains_key(group_id) {
            Rebuilt { shape: Shape::Leaf { id: id as u64, group: group_id }, groups, next_group: g, next_panel: p }
        } else {
            Rebuilt {
                shape: Shape::Leaf { id: id as u64, group: g },
                groups: groups.insert(g, repair_group(g, p)),
                next_group: successor(g),
                next_panel: successor(p),
            }
        },
        SerializedNode::Split { direction, ratio, first, second } => {
            let a = rebuild(*first, id + 1, groups, g, p);
            let b = rebuild(*second, id + 1 + first.size(), a.groups, a.next_group, a.next_panel);
            Rebuilt {
                shape: Shape::Split {
                    id: id as u64,
                    direction,
                    ratio,
                    first: Box::new(a.shape),
                    second: Box::new(b.shape),
                },
                groups: b.groups,
                next_group: b.next_group,
                next_panel: b.next_panel,
            }
        },
    }
}

/// Every value is stored under its own identifier and has a tab.
pub open spec fn groups_keyed(m: Map<u64, GroupValue>) -> bool {
    forall|k: u64| #[trigger] m.contains_key(k) ==> m[k].id.0 == k && m[k].tabs.len() > 0
}

/// What rebuilding yields: its nodes are numbered `id .. id + size`, without
/// repeats; every leaf's group is in the resulting groups, which only grow.
pub proof fn lemma_rebuild(t: SerializedNode, id: nat, groups: Map<u64, GroupValue>, g: u64, p: u64)
    requires
        id + t.size() <= u64::MAX + 1,
    ensures
        ({
            let r = rebuild(t, id, groups, g, p);
            &&& r.shape.id() == id
            &&& r.shape.distinct()
            &&& forall|k: u64| #[trigger] r.shape.ids().contains(k) <==> id <= k < id + t.size()
            &&& r.shape.erase().size() == t.size()
            &&& forall|i: int| 0 <= i < r.shape.groups().len() ==> r.groups.contains_key(
                #[trigger] r.shape.groups()[i],
            )
            &&& forall|k: u64| #[trigger] groups.contains_key(k) ==> r.groups.contains_key(k)
            &&& groups_keyed(groups) ==> groups_keyed(r.groups)
        }),
    decreases t,
{
    lemma_size_positive(t);
    match t {
        SerializedNode::Leaf { group_id } => {
            let r = rebuild(t, id, groups, g, p);
            assert(r.shape.ids() == set![id as u64]);
            assert(r.shape.groups() == seq![r.shape->Leaf_group]);
        },
        SerializedNode::Split { first, second, .. } => {
            lemma_size_positive(*first);
            lemma_size_positive(*second);
            let a = rebuild(*first, id + 1, groups, g, p);
            lemma_rebuild(*first, id + 1, groups, g, p);
            lemma_rebuild(*second, id + 1 + first.size(), a.groups, a.next_group, a.next_panel);
            let b = rebuild(*second, id + 1 + first.size(), a.groups, a.next_group, a.next_panel);
            let r = rebuild(t, id, groups, g, p);
            assert(r.shape.groups() == a.shape.groups() + b.shape.groups());
            assert forall|i: int| 0 <= i < r.shape.groups().len() implies r.groups.contains_key(
                #[trigger] r.shape.groups()[i],
            ) by {
                if i < a.shape.groups().len() {
                    assert(r.shape.groups()[i] == a.shape.groups()[i]);
                } else {
                    assert(r.shape.groups()[i] == b.shape.groups()[i - a.shape.groups().len()]);
                }
            }
            assert(a.shape.ids().disjoint(b.shape.ids()));
        },
    }
}

pub proof fn lemma_size_positive(t: SerializedNode)
    ensures
        t.size() >= 1,
    decreases t,
{
    match t {
        SerializedNode::Leaf { .. } => {},
        SerializedNode::Split { first, second, .. } => {
            lemma_size_positive(*first);
            lemma_size_positive(*second);
        },
    }
}

/// Rebuilding a tree whose groups are all present changes no group and
/// gives back the same tree (with fresh node numbers).
pub proof fn lemma_rebuild_complete(t: SerializedNode, id: nat, groups: Map<u64, GroupValue>, g: u64, p: u64)
    requires
        forall|i: int| 0 <= i < t.groups().len() ==> groups.contains_key(#[trigger] t.groups()[i]),
    ensures
        ({
            let r = rebuild(t, id, groups, g, p);
            &&& r.shape.erase() == t
            &&& r.groups == groups
            &&& r.next_group == g
            &&& r.next_panel == p
        }),
    decreases t,
{
    match t {
        SerializedNode::Leaf { group_id } => {
            assert(t.groups()[0] == group_id);
        },
        SerializedNode::Split { first, second, .. } => {
            assert forall|i: int| 0 <= i < first.groups().len() implies groups.contains_key(
                #[trigger] first.groups()[i],
            ) by {
                assert(t.groups()[i] == first.groups()[i]);
            }
            assert forall|i: int| 0 <= i < second.groups().len() implies groups.contains_key(
                #[trigger] second.groups()[i],
            ) by {
                assert(t.groups()[first.groups().len() + i] == second.groups()[i]);
            }
            lemma_rebuild_complete(*first, id + 1, groups, g, p);
            lemma_rebuild_complete(*second, id + 1 + first.size(), groups, g, p);
        },
    }
}

/// The floating entries whose group exists, as floating groups.
pub open spec fn loaded_floating(fs: Seq<SerializedFloating>, groups: Map<u64, GroupValue>) -> Seq<FloatingGroup>
    decreases fs.len(),
{
    if fs.len() == 0 {
        Seq::empty()
    } else {
        let r = loaded_floating(fs.drop_last(), groups);
        let f = fs.last();
        if groups.contains_key(f.group_id) {
            r.push(
                FloatingGroup {
                    group_id: GroupId(f.group_id),
                    pos: FloatPos { x: f.x, y: f.y },
                    size: FloatSize { width: f.width, height: f.height },
                },
            )
        } else {
            r
        }
    }
}


pub proof fn lemma_loaded_groups_keyed(gs: Seq<LoadedGroupView>)
    ensures
        groups_keyed(loaded_groups(gs)),
    decreases gs.len(),
{
    if gs.len() > 0 {
        lemma_loaded_groups_keyed(gs.drop_last());
    }
}

/// Every group is stored under its own identifier, has a tab, and its
/// active tab is one of its tabs.
pub open spec fn groups_sound(m: Map<u64, GroupValue>) -> bool {
    forall|k: u64| #[trigger]
        m.contains_key(k) ==> m[k].id.0 == k && m[k].tabs.len() > 0 && m[k].active_tab < m[k].tabs.len()
}

proof fn lemma_loaded_groups_sound(gs: Seq<LoadedGroupView>)
    ensures
        groups_sound(loaded_groups(gs)),
    decreases gs.len(),
{
    if gs.len() > 0 {
        lemma_loaded_groups_sound(gs.drop_last());
    }
}

proof fn lemma_rebuild_sound(t: SerializedNode, id: nat, groups: Map<u64, GroupValue>, g: u64, p: u64)
    requires
        groups_sound(groups),
    ensures
        groups_sound(rebuild(t, id, groups, g, p).groups),
    decreases t,
{
    match t {
        SerializedNode::Leaf { .. } => {},
        SerializedNode::Split { first, second, .. } => {
            lemma_rebuild_sound(*first, id + 1, groups, g, p);
            let a = rebuild(*first, id + 1, groups, g, p);
            lemma_rebuild_sound(*second, id + 1 + first.size(), a.groups, a.next_group, a.next_panel);
        },
    }
}

/// Every group identifier is below `g`, and every panel identifier of a tab below `p`.
pub open spec fn ids_below(m: Map<u64, GroupValue>, g: u64, p: u64) -> bool {
    forall|k: u64| #[trigger] m.contains_key(k) ==> k < g && forall|i: int|
        0 <= i < m[k].tabs.len() ==> (#[trigger] m[k].tabs[i]).panel_id.0 < p
}

proof fn lemma_rebuild_below(t: SerializedNode, id: nat, groups: Map<u64, GroupValue>, g: u64, p: u64)
    requires
        ids_below(groups, g, p),
        g as nat + t.size() <= u64::MAX,
        p as nat + t.size() <= u64::MAX,
    ensures
        ({
            let r = rebuild(t, id, groups, g, p);
            &&& ids_below(r.groups, r.next_group, r.next_panel)
            &&& g <= r.next_group <= g + t.size()
            &&& p <= r.next_panel <= p + t.size()
        }),
    decreases t,
{
    lemma_size_positive(t);
    match t {
        SerializedNode::Leaf { group_id } => {
            if !groups.contains_key(group_id) {
                let r = rebuild(t, id, groups, g, p);
                assert forall|k: u64| #[trigger] r.groups.contains_key(k) implies k < r.next_group && forall|i: int|
                    0 <= i < r.groups[k].tabs.len() ==> (#[trigger] r.groups[k].tabs[i]).panel_id.0 < r.next_panel by {
                    if k != g {
                        assert(groups.contains_key(k));
                    }
                }
            }
        },
        SerializedNode::Split { first, second, .. } => {
            lemma_size_positive(*first);
            lemma_size_positive(*second);
            lemma_rebuild_below(*first, id + 1, groups, g, p);
            let a = rebuild(*first, id + 1, groups, g, p);
            lemma_rebuild_below(*second, id + 1 + first.size(), a.groups, a.next_group, a.next_panel);
        },
    }
}

proof fn lemma_detached_below(gs: Seq<LoadedGroupView>, ds: Seq<DetachedEntry>)
    ensures
        forall|i: int| 0 <= i < ds.len() ==> (#[trigger] ds[i]).group_id <= max_group_id(gs, ds)
            && ds[i].id <= max_panel_id(gs, ds),
    decreases ds.len(),
{
    if ds.len() > 0 {
        lemma_detached_below(gs, ds.drop_last());
        assert forall|i: int| 0 <= i < ds.len() implies (#[trigger] ds[i]).group_id <= max_group_id(gs, ds)
            && ds[i].id <= max_panel_id(gs, ds) by {
            if i < ds.len() - 1 {
                assert(ds.drop_last()[i] == ds[i]);
            }
        }
    }
}

proof fn lemma_max_panel_in_prefix(tabs: Seq<TabEntry>, i: int)
    requires
        0 <= i < tabs.len(),
    ensures
        tabs[i].panel_id.0 <= max_panel_in(tabs),
    decreases tabs.len(),
{
    if i < tabs.len() - 1 {
        lemma_max_panel_in_prefix(tabs.drop_last(), i);
    }
}

proof fn lemma_loaded_groups_below(gs: Seq<LoadedGroupView>, ds: Seq<DetachedEntry>)
    requires
        max_group_id(gs, ds) < u64::MAX,
        max_panel_id(gs, ds) < u64::MAX,
    ensures
        ids_below(loaded_groups(gs), (max_group_id(gs, ds) + 1) as u64, (max_panel_id(gs, ds) + 1) as u64),
    decreases gs.len() + ds.len(),
{
    if ds.len() > 0 {
        lemma_loaded_groups_below(gs, ds.drop_last());
    } else if gs.len() > 0 {
        lemma_loaded_groups_below(gs.drop_last(), ds);
        let m = loaded_groups(gs);
        let g = (max_group_id(gs, ds) + 1) as u64;
        let p = (max_panel_id(gs, ds) + 1) as u64;
        assert forall|k: u64| #[trigger] m.contains_key(k) implies k < g && forall|i: int|
            0 <= i < m[k].tabs.len() ==> (#[trigger] m[k].tabs[i]).panel_id.0 < p by {
            if k == gs.last().id && loaded_group(gs.last()) is Some {
                let tabs = known_tabs(gs.last().tabs);
                assert forall|i: int| 0 <= i < m[k].tabs.len() implies (#[trigger] m[k].tabs[i]).panel_id.0 < p by {
                    lemma_max_panel_in_prefix(tabs, i);
                }
            }
        }
    }
}

/// The identifier counters left by `deserialize_full_layout` (its `ensures`
/// gives them as `rebuild`'s counters, started past the largest identifiers
/// in the document) lie above every group and panel identifier of the loaded
/// layout and of the detached entries, so identifiers handed out afterwards
/// never collide with them —
/// for documents whose tree is small enough not to run a counter past its
/// largest value.
pub proof fn lemma_loaded_ids_fresh(doc: LoadedDocument, old_g: u64, old_p: u64)
    requires
        max_group_id(loaded_groups_view(doc.groups@), doc.detached@) < u64::MAX,
        max_panel_id(loaded_groups_view(doc.groups@), doc.detached@) < u64::MAX,
        max_u64(old_g, (max_group_id(loaded_groups_view(doc.groups@), doc.detached@) + 1) as u64) as nat
            + doc.tree.size() <= u64::MAX,
        max_u64(old_p, (max_panel_id(loaded_groups_view(doc.groups@), doc.detached@) + 1) as u64) as nat
            + doc.tree.size() <= u64::MAX,
    ensures
        ({
            let gv = loaded_groups_view(doc.groups@);
            let g0 = max_u64(old_g, (max_group_id(gv, doc.detached@) + 1) as u64);
            let p0 = max_u64(old_p, (max_panel_id(gv, doc.detached@) + 1) as u64);
            let rb = rebuild(doc.tree, 0, loaded_groups(gv), g0, p0);
            &&& ids_below(rb.groups, rb.next_group, rb.next_panel)
            &&& forall|i: int| 0 <= i < doc.detached@.len() ==> (#[trigger] doc.detached@[i]).group_id
                < rb.next_group && doc.detached@[i].id < rb.next_panel
        }),
{
    let gv = loaded_groups_view(doc.groups@);
    let g0 = max_u64(old_g, (max_group_id(gv, doc.detached@) + 1) as u64);
    let p0 = max_u64(old_p, (max_panel_id(gv, doc.detached@) + 1) as u64);
    lemma_loaded_groups_below(gv, doc.detached@);
    let m = loaded_groups(gv);
    assert(ids_below(m, g0, p0)) by {
        assert forall|k: u64| #[trigger] m.contains_key(k) implies k < g0 && forall|i: int|
            0 <= i < m[k].tabs.len() ==> (#[trigger] m[k].tabs[i]).panel_id.0 < p0 by {
            assert(k < (max_group_id(gv, doc.detached@) + 1) as u64);
        }
    }
    lemma_rebuild_below(doc.tree, 0, m, g0, p0);
    lemma_detached_below(gv, doc.detached@);
}

/// What `deserialize_full_layout` builds from any document (its `ensures`
/// gives the layout's tree, groups and floating groups as these values) is
/// sound: every group is stored under its own identifier, has a tab and an
/// active tab among its tabs; every group the tree shows and every floating
/// group exists.
pub proof fn lemma_loaded_layout_sound(doc: LoadedDocument, g: u64, p: u64)
    requires
        doc.tree.size() <= u64::MAX,
    ensures
        ({
            let rb = rebuild(doc.tree, 0, loaded_groups(loaded_groups_view(doc.groups@)), g, p);
            let fl = loaded_floating(doc.floating@, rb.groups);
            &&& groups_sound(rb.groups)
            &&& forall|i: int| 0 <= i < rb.shape.groups().len() ==> rb.groups.contains_key(
                #[trigger] rb.shape.groups()[i],
            )
            &&& forall|i: int| 0 <= i < fl.len() ==> rb.groups.contains_key((#[trigger] fl[i]).group_id.0)
        }),
{
    let gv = loaded_groups_view(doc.groups@);
    lemma_loaded_groups_sound(gv);
    lemma_rebuild_sound(doc.tree, 0, loaded_groups(gv), g, p);
    lemma_rebuild(doc.tree, 0, loaded_groups(gv), g, p);
    let rb = rebuild(doc.tree, 0, loaded_groups(gv), g, p);
    lemma_loaded_floating_exist(doc.floating@, rb.groups);
}

/// Rebuilds the subtree `t`, numbering its nodes from `next_id` on.
fn rebuild_node(
    t: &SerializedNode,
    nodes: &mut HashMap<u64, SplitNode>,
    next_id: &mut u64,
    groups: &mut HashMap<u64, Group>,
    ids: &mut LayoutIds,
) -> (r: u64)
    requires
        *old(next_id) as nat + t.size() <= u64::MAX,
    ensures
        ({
            let rb = rebuild(
                *t,
                *old(next_id) as nat,
                group_values(old(groups)@),
                old(ids).groups.next,
                old(ids).panels.next,
            );
            &&& r == *old(next_id)
            &&& *final(next_id) == *old(next_id) + t.size()
            &&& final(nodes)@ == old(nodes)@.union_prefer_right(rb.shape.flatten())
            &&& group_values(final(groups)@) == rb.groups
            &&& final(ids).groups.next == rb.next_group
            &&& final(ids).panels.next == rb.next_panel
        }),
    decreases t,
{
    proof {
        lemma_size_positive(*t);
    }
    let id = *next_id;
    *next_id = *next_id + 1;
    match t {
        SerializedNode::Leaf { group_id } => {
            if groups.contains_key(group_id) {
                nodes.insert(id, SplitNode::Leaf { group_id: GroupId(*group_id) });
                assert(nodes@ =~= old(nodes)@.union_prefer_right(map![id => SplitNode::Leaf { group_id: GroupId(*group_id) }]));
            } else {
                let ghost gv0 = group_values(groups@);
                let new_group = Group::new(ids, PanelType::Preview);
                let new_gid = new_group.id;
                let ghost ng = new_group@;
                groups.insert(new_gid.0, new_group);
                assert(group_values(groups@) =~= gv0.insert(new_gid.0, ng));
                nodes.insert(id, SplitNode::Leaf { group_id: new_gid });
                assert(nodes@ =~= old(nodes)@.union_prefer_right(map![id => SplitNode::Leaf { group_id: new_gid }]));
            }
        },
        SerializedNode::Split { direction, ratio, first, second } => {
            proof {
                lemma_size_positive(**first);
                lemma_size_positive(**second);
            }
            let ghost gv0 = group_values(groups@);
            let ghost g0 = ids.groups.next;
            let ghost p0 = ids.panels.next;
            let ghost nodes0 = nodes@;
            let first_id = rebuild_node(first, nodes, next_id, groups, ids);
            let ghost a = rebuild(**first, id as nat + 1, gv0, g0, p0);
            let second_id = rebuild_node(second, nodes, next_id, groups, ids);
            let ghost b = rebuild(**second, id as nat + 1 + first.size(), a.groups, a.next_group, a.next_panel);
            proof {
                lemma_rebuild(**first, id as nat + 1, gv0, g0, p0);
                lemma_rebuild(**second, id as nat + 1 + first.size(), a.groups, a.next_group, a.next_panel);
            }
            let node = SplitNode::Split {
                direction: *direction,
                ratio: *ratio,
                first: NodeId(first_id),
                second: NodeId(second_id),
            };
            nodes.insert(id, node);
            proof {
                let rs = rebuild(*t, id as nat, gv0, g0, p0);
                assert(rs.shape.node() == node);
                assert(rs.shape.flatten() == a.shape.flatten().union_prefer_right(b.shape.flatten()).insert(
                    id,
                    node,
                ));
                assert(nodes@ =~= nodes0.union_prefer_right(rs.shape.flatten()));
            }
        },
    }
    id
}

/// Rebuild a layout and the detached entries from a document read back.
///
/// Tabs of unknown panel types are dropped, and a group left without tabs is
/// dropped; a leaf whose group is missing gets a new Preview group; floating
/// entries of missing groups are dropped. The identifier counters are first
/// raised above every identifier the document uses, so that new identifiers
/// do not collide with them.
pub fn deserialize_full_layout(doc: LoadedDocument, ids: &mut LayoutIds) -> (r: (DockLayout, Vec<DetachedEntry>))
    requires
        doc.tree.size() <= u64::MAX,
        max_group_id(loaded_groups_view(doc.groups@), doc.detached@) < u64::MAX,
        max_panel_id(loaded_groups_view(doc.groups@), doc.detached@) < u64::MAX,
    ensures
        ({
            let gv = loaded_groups_view(doc.groups@);
            let g0 = max_u64(old(ids).groups.next, (max_group_id(gv, doc.detached@) + 1) as u64);
            let p0 = max_u64(old(ids).panels.next, (max_panel_id(gv, doc.detached@) + 1) as u64);
            let rb = rebuild(doc.tree, 0, loaded_groups(gv), g0, p0);
            &&& r.0.tree_ok()
            &&& r.0.shape() == rb.shape
            &&& group_values(r.0.groups@) == rb.groups
            &&& r.0.floating@ == loaded_floating(doc.floating@, rb.groups)
            &&& r.0.drag is None
            &&& r.1@ == doc.detached@
            &&& final(ids).groups.next == rb.next_group
            &&& final(ids).panels.next == rb.next_panel
            &&& (r.0.grid_groups().no_duplicates() && floating_ids(r.0.floating@).no_duplicates()
                && forall|i: int|
                0 <= i < r.0.floating@.len() ==> !r.0.grid_groups().contains(
                    (#[trigger] r.0.floating@[i]).group_id.0,
                )) ==> r.0.wf()
        }),
{
    let ghost gv = loaded_groups_view(doc.groups@);
    let mut groups: HashMap<u64, Group> = HashMap::new();
    let mut max_group: u64 = 0;
    let mut max_panel: u64 = 0;
    let n = doc.groups.len();
    let mut i: usize = 0;
    assert(gv.take(0) =~= Seq::<LoadedGroupView>::empty());
    assert(group_values(groups@) =~= Map::<u64, GroupValue>::empty());
    while i < n
        invariant
            i <= n == doc.groups@.len(),
            gv == loaded_groups_view(doc.groups@),
            group_values(groups@) == loaded_groups(gv.take(i as int)),
            max_group == max_group_id(gv.take(i as int), Seq::empty()),
            max_panel == max_panel_id(gv.take(i as int), Seq::empty()),
        decreases n - i,
    {
        let sg = &doc.groups[i];
        assert(gv.take(i + 1).drop_last() =~= gv.take(i as int));
        assert(gv.take(i + 1).last() == sg@);
        if sg.id > max_group {
            max_group = sg.id;
        }
        let mut tabs: Vec<TabEntry> = Vec::new();
        let mut tab_max: u64 = 0;
        let m = sg.tabs.len();
        let mut j: usize = 0;
        while j < m
            invariant
                j <= m == sg.tabs@.len(),
                tabs@ == known_tabs(sg.tabs@.take(j as int)),
                tab_max == max_panel_in(tabs@),
            decreases m - j,
        {
            let t = sg.tabs[j];
            assert(sg.tabs@.take(j + 1).drop_last() =~= sg.tabs@.take(j as int));
            match t.panel_type {
                Some(panel_type) => {
                    let ghost before = tabs@;
                    tabs.push(TabEntry { panel_id: PanelId(t.panel_id), panel_type });
                    assert(tabs@.drop_last() =~= before);
                    if t.panel_id > tab_max {
                        tab_max = t.panel_id;
                    }
                },
                None => {},
            }
            j += 1;
        }
        assert(sg.tabs@.take(m as int) =~= sg.tabs@);
        if tab_max > max_panel {
            max_panel = tab_max;
        }
        if tabs.len() > 0 {
            let len = tabs.len();
            let active_tab = if sg.active_tab < len { sg.active_tab } else { len - 1 };
            let group = Group { id: GroupId(sg.id), tabs, active_tab };
            let ghost before = group_values(groups@);
            let ghost gval = group@;
            groups.insert(sg.id, group);
            assert(group_values(groups@) =~= before.insert(sg.id, gval));
        }
        i += 1;
    }
    assert(gv.take(n as int) =~= gv);
    let ghost ds = doc.detached@;
    let k_len = doc.detached.len();
    let mut k: usize = 0;
    assert(ds.take(0) =~= Seq::<DetachedEntry>::empty());
    while k < k_len
        invariant
            k <= k_len == ds.len(),
            ds == doc.detached@,
            max_group == max_group_id(gv, ds.take(k as int)),
            max_panel == max_panel_id(gv, ds.take(k as int)),
        decreases k_len - k,
    {
        let d = doc.detached[k];
        assert(ds.take(k + 1).drop_last() =~= ds.take(k as int));
        if d.id > max_panel {
            max_panel = d.id;
        }
        if d.group_id > max_group {
            max_group = d.group_id;
        }
        k += 1;
    }
    assert(ds.take(k_len as int) =~= ds);
    ids.panels.raise_to(max_panel + 1);
    ids.groups.raise_to(max_group + 1);
    let ghost gm = loaded_groups(gv);
    let ghost g0 = ids.groups.next;
    let ghost p0 = ids.panels.next;
    let mut nodes: HashMap<u64, SplitNode> = HashMap::new();
    let mut next_id: u64 = 0;
    let root_id = rebuild_node(&doc.tree, &mut nodes, &mut next_id, &mut groups, ids);
    let ghost rb = rebuild(doc.tree, 0, gm, g0, p0);
    proof {
        lemma_rebuild(doc.tree, 0, gm, g0, p0);
        lemma_loaded_groups_keyed(gv);
        assert(nodes@ =~= rb.shape.flatten());
    }
    let mut floating: Vec<FloatingGroup> = Vec::new();
    let fl = doc.floating.len();
    let mut q: usize = 0;
    assert(doc.floating@.take(0) =~= Seq::<SerializedFloating>::empty());
    while q < fl
        invariant
            q <= fl == doc.floating@.len(),
            group_values(groups@) == rb.groups,
            floating@ == loaded_floating(doc.floating@.take(q as int), rb.groups),
        decreases fl - q,
    {
        let f = doc.floating[q];
        assert(doc.floating@.take(q + 1).drop_last() =~= doc.floating@.take(q as int));
        if groups.contains_key(&f.group_id) {
            floating.push(
                FloatingGroup {
                    group_id: GroupId(f.group_id),
                    pos: FloatPos { x: f.x, y: f.y },
                    size: FloatSize { width: f.width, height: f.height },
                },
            );
        }
        q += 1;
    }
    assert(doc.floating@.take(fl as int) =~= doc.floating@);
    let layout = DockLayout {
        nodes,
        root: NodeId(root_id),
        next_node_id: next_id,
        groups,
        floating,
        drag: None,
        tree: Ghost(rb.shape),
    };
    proof {
        assert forall|key: u64| #[trigger] layout.groups@.contains_key(key) implies layout.groups@[key].id.0
            == key && layout.groups@[key].tabs.len() > 0 by {
            assert(rb.groups.contains_key(key));
            assert(group_values(layout.groups@)[key] == layout.groups@[key]@);
        }
        assert forall|i: int| 0 <= i < layout.floating@.len() implies layout.groups@.contains_key(
            (#[trigger] layout.floating@[i]).group_id.0,
        ) by {
            lemma_loaded_floating_exist(doc.floating@, rb.groups);
        }
    }
    (layout, doc.detached)
}

proof fn lemma_loaded_floating_exist(fs: Seq<SerializedFloating>, groups: Map<u64, GroupValue>)
    ensures
        forall|i: int| 0 <= i < loaded_floating(fs, groups).len() ==> groups.contains_key(
            (#[trigger] loaded_floating(fs, groups)[i]).group_id.0,
        ),
    decreases fs.len(),
{
    if fs.len() > 0 {
        lemma_loaded_floating_exist(fs.drop_last(), groups);
        let r = loaded_floating(fs.drop_last(), groups);
        let full = loaded_floating(fs, groups);
        assert forall|i: int| 0 <= i < full.len() implies groups.contains_key(
            (#[trigger] full[i]).group_id.0,
        ) by {
            if i < r.len() {
                assert(full[i] == r[i]);
            }
        }
    }
}


// ── Reading back what was written ───────────────────────────────────────────

/// A written group as it is read back by this version: every panel type is known.
pub open spec fn read_back(g: SerializedGroupView) -> LoadedGroupView {
    LoadedGroupView {
        id: g.id,
        active_tab: g.active_tab,
        tabs: g.tabs.map_values(|t: SerializedTab| LoadedTab { panel_id: t.panel_id, panel_type: Some(t.panel_type) }),
    }
}

proof fn lemma_known_tabs_all(tabs: Seq<TabEntry>)
    ensures
        known_tabs(
            tabs.map_values(|t: TabEntry| serialized_tab(t)).map_values(
                |t: SerializedTab| LoadedTab { panel_id: t.panel_id, panel_type: Some(t.panel_type) },
            ),
        ) == tabs,
    decreases tabs.len(),
{
    let f = |t: TabEntry| serialized_tab(t);
    let h = |t: SerializedTab| LoadedTab { panel_id: t.panel_id, panel_type: Some(t.panel_type) };
    if tabs.len() > 0 {
        lemma_known_tabs_all(tabs.drop_last());
        assert(tabs.map_values(f).map_values(h).drop_last() =~= tabs.drop_last().map_values(f).map_values(h));
        assert(tabs.drop_last().push(tabs.last()) =~= tabs);
    } else {
        assert(tabs.map_values(f).map_values(h) =~= Seq::<LoadedTab>::empty());
    }
}

proof fn lemma_erase_groups(s: Shape)
    ensures
        s.erase().groups() == s.groups(),
    decreases s,
{
    match s {
        Shape::Leaf { .. } => {},
        Shape::Split { first, second, .. } => {
            lemma_erase_groups(*first);
            lemma_erase_groups(*second);
        },
    }
}

/// With distinct identifiers and every entry readable, the map read holds
/// exactly the entries, each under its identifier.
proof fn lemma_loaded_groups_distinct(gs: Seq<LoadedGroupView>)
    requires
        forall|i: int, j: int| 0 <= i < j < gs.len() ==> (#[trigger] gs[i]).id != (#[trigger] gs[j]).id,
        forall|i: int| 0 <= i < gs.len() ==> loaded_group(#[trigger] gs[i]) is Some,
    ensures
        forall|k: u64| #[trigger] loaded_groups(gs).contains_key(k) <==> exists|i: int|
            0 <= i < gs.len() && gs[i].id == k,
        forall|i: int| 0 <= i < gs.len() ==> loaded_groups(gs)[(#[trigger] gs[i]).id] == loaded_group(
            gs[i],
        ).unwrap(),
    decreases gs.len(),
{
    if gs.len() > 0 {
        let r = gs.drop_last();
        assert forall|i: int, j: int| 0 <= i < j < r.len() implies (#[trigger] r[i]).id != (#[trigger] r[j]).id by {
            assert(r[i] == gs[i]);
            assert(r[j] == gs[j]);
        }
        assert forall|i: int| 0 <= i < r.len() implies loaded_group(#[trigger] r[i]) is Some by {
            assert(r[i] == gs[i]);
        }
        lemma_loaded_groups_distinct(r);
        let m = loaded_groups(gs);
        assert(loaded_group(gs[gs.len() - 1]) is Some);
        assert forall|k: u64| #[trigger] m.contains_key(k) <==> exists|i: int| 0 <= i < gs.len() && gs[i].id == k by {
            if m.contains_key(k) && k != gs.last().id {
                assert(loaded_groups(r).contains_key(k));
                let i = choose|i: int| 0 <= i < r.len() && r[i].id == k;
                assert(gs[i] == r[i]);
            }
            if m.contains_key(k) && k == gs.last().id {
                assert(gs[gs.len() - 1].id == k);
            }
            if exists|i: int| 0 <= i < gs.len() && gs[i].id == k {
                let i = choose|i: int| 0 <= i < gs.len() && gs[i].id == k;
                if i < r.len() {
                    assert(r[i] == gs[i]);
                    assert(loaded_groups(r).contains_key(k));
                }
            }
        }
        assert forall|i: int| 0 <= i < gs.len() implies m[(#[trigger] gs[i]).id] == loaded_group(gs[i]).unwrap() by {
            if i < r.len() {
                assert(r[i] == gs[i]);
                assert(gs[i].id != gs.last().id);
            }
        }
    }
}

proof fn lemma_loaded_floating_all(fs: Seq<FloatingGroup>, groups: Map<u64, GroupValue>)
    requires
        forall|i: int| 0 <= i < fs.len() ==> groups.contains_key((#[trigger] fs[i]).group_id.0),
    ensures
        loaded_floating(fs.map_values(|f: FloatingGroup| serialized_floating(f)), groups) == fs,
    decreases fs.len(),
{
    let sf = |f: FloatingGroup| serialized_floating(f);
    if fs.len() > 0 {
        let r = fs.drop_last();
        assert forall|i: int| 0 <= i < r.len() implies groups.contains_key((#[trigger] r[i]).group_id.0) by {
            assert(r[i] == fs[i]);
        }
        lemma_loaded_floating_all(r, groups);
        assert(fs.map_values(sf).drop_last() =~= r.map_values(sf));
        assert(groups.contains_key(fs[fs.len() - 1].group_id.0));
        assert(r.push(fs.last()) =~= fs);
    } else {
        assert(fs.map_values(sf) =~= Seq::<SerializedFloating>::empty());
    }
}

/// Reading back what was written gives the layout that was written: the
/// same groups with the same tabs and active tabs, the same split tree up to
/// the numbering of its nodes, the same floating groups, and no group to
/// repair — for every well-formed layout whose active tabs are in range.
pub proof fn lemma_read_back_written(
    l: DockLayout,
    doc_groups: Seq<SerializedGroupView>,
    next_group: u64,
    next_panel: u64,
)
    requires
        l.wf(),
        forall|k: u64| #[trigger] l.groups@.contains_key(k) ==> l.groups@[k].active_tab < l.groups@[k].tabs.len(),
        lists_groups(doc_groups, group_values(l.groups@)),
    ensures
        ({
            let gm = loaded_groups(doc_groups.map_values(|g: SerializedGroupView| read_back(g)));
            let rb = rebuild(l.shape().erase(), 0, gm, next_group, next_panel);
            &&& gm == group_values(l.groups@)
            &&& rb.shape.erase() == l.shape().erase()
            &&& rb.groups == gm
            &&& rb.next_group == next_group
            &&& rb.next_panel == next_panel
            &&& loaded_floating(
                l.floating@.map_values(|f: FloatingGroup| serialized_floating(f)),
                gm,
            ) == l.floating@
        }),
{
    let gv = group_values(l.groups@);
    let gs = doc_groups.map_values(|g: SerializedGroupView| read_back(g));
    assert forall|i: int| 0 <= i < gs.len() implies loaded_group(#[trigger] gs[i]) == Some(gv[doc_groups[i].id]) by {
        let k = doc_groups[i].id;
        assert(doc_groups[i] == serialized_group(gv[k]));
        assert(gv[k] == l.groups@[k]@);
        lemma_known_tabs_all(gv[k].tabs);
        assert(gs[i].tabs == gv[k].tabs.map_values(|t: TabEntry| serialized_tab(t)).map_values(
            |t: SerializedTab| LoadedTab { panel_id: t.panel_id, panel_type: Some(t.panel_type) },
        ));
        assert(l.groups@[k].id.0 == k);
    }
    assert forall|i: int, j: int| 0 <= i < j < gs.len() implies (#[trigger] gs[i]).id != (#[trigger] gs[j]).id by {
        assert(gs[i].id == doc_groups[i].id);
        assert(gs[j].id == doc_groups[j].id);
    }
    lemma_loaded_groups_distinct(gs);
    let gm = loaded_groups(gs);
    assert forall|k: u64| gm.contains_key(k) <==> gv.contains_key(k) by {
        if gv.contains_key(k) {
            let i = choose|i: int| 0 <= i < doc_groups.len() && (#[trigger] doc_groups[i]).id == k;
            assert(gs[i].id == k);
        }
        if gm.contains_key(k) {
            let i = choose|i: int| 0 <= i < gs.len() && gs[i].id == k;
            assert(doc_groups[i].id == k);
        }
    }
    assert forall|k: u64| #[trigger] gm.contains_key(k) implies gm[k] == gv[k] by {
        let i = choose|i: int| 0 <= i < gs.len() && gs[i].id == k;
        assert(gm[gs[i].id] == loaded_group(gs[i]).unwrap());
        assert(doc_groups[i].id == k);
    }
    assert(gm =~= gv);
    let t = l.shape().erase();
    lemma_erase_groups(l.shape());
    assert forall|i: int| 0 <= i < t.groups().len() implies gm.contains_key(#[trigger] t.groups()[i]) by {
        assert(l.grid_groups()[i] == t.groups()[i]);
    }
    lemma_rebuild_complete(t, 0, gm, next_group, next_panel);
    assert forall|i: int| 0 <= i < l.floating@.len() implies gm.contains_key((#[trigger] l.floating@[i]).group_id.0) by {}
    lemma_loaded_floating_all(l.floating@, gm);
}


/// Alias for [`serialize_full_layout`].
pub fn serialize_with_detached(layout: &DockLayout, detached: &[DetachedEntry]) -> (doc: LayoutDocument)
    requires
        layout.wf(),
    ensures
        doc.tree == layout.shape().erase(),
        lists_groups(groups_view(doc.groups@), group_values(layout.groups@)),
        doc.floating@ == layout.floating@.map_values(|f: FloatingGroup| serialized_floating(f)),
        doc.detached@ == detached@,
{
    serialize_full_layout(layout, detached)
}

/// Alias for [`deserialize_full_layout`].
pub fn deserialize_with_detached(doc: LoadedDocument, ids: &mut LayoutIds) -> (r: (DockLayout, Vec<DetachedEntry>))
    requires
        doc.tree.size() <= u64::MAX,
        max_group_id(loaded_groups_view(doc.groups@), doc.detached@) < u64::MAX,
        max_panel_id(loaded_groups_view(doc.groups@), doc.detached@) < u64::MAX,
    ensures
        ({
            let gv = loaded_groups_view(doc.groups@);
            let g0 = max_u64(old(ids).groups.next, (max_group_id(gv, doc.detached@) + 1) as u64);
            let p0 = max_u64(old(ids).panels.next, (max_panel_id(gv, doc.detached@) + 1) as u64);
            let rb = rebuild(doc.tree, 0, loaded_groups(gv), g0, p0);
            &&& r.0.tree_ok()
            &&& r.0.shape() == rb.shape
            &&& group_values(r.0.groups@) == rb.groups
            &&& r.0.floating@ == loaded_floating(doc.floating@, rb.groups)
            &&& r.0.drag is None
            &&& r.1@ == doc.detached@
            &&& final(ids).groups.next == rb.next_group
            &&& final(ids).panels.next == rb.next_panel
        }),
{
    deserialize_full_layout(doc, ids)
}

impl LoadedDocument {
    /// A written document as this version reads it back: every panel type is known.
    pub fn from_written(doc: LayoutDocument) -> (r: LoadedDocument)
        ensures
            r.tree == doc.tree,
            loaded_groups_view(r.groups@) == groups_view(doc.groups@).map_values(
                |g: SerializedGroupView| read_back(g),
            ),
            r.floating@ == doc.floating@,
            r.detached@ == doc.detached@,
    {
        let mut groups: Vec<LoadedGroup> = Vec::new();
        let n = doc.groups.len();
        let mut i: usize = 0;
        let ghost dg = groups_view(doc.groups@).map_values(|g: SerializedGroupView| read_back(g));
        while i < n
            invariant
                i <= n == doc.groups@.len(),
                dg == groups_view(doc.groups@).map_values(|g: SerializedGroupView| read_back(g)),
                groups@.len() == i,
                forall|k: int| 0 <= k < i ==> (#[trigger] groups@[k])@ == dg[k],
            decreases n - i,
        {
            let g = &doc.groups[i];
            let mut tabs: Vec<LoadedTab> = Vec::new();
            let m = g.tabs.len();
            let mut j: usize = 0;
            while j < m
                invariant
                    j <= m == g.tabs@.len(),
                    tabs@ == g.tabs@.take(j as int).map_values(
                        |t: SerializedTab| LoadedTab { panel_id: t.panel_id, panel_type: Some(t.panel_type) },
                    ),
                decreases m - j,
            {
                let t = g.tabs[j];
                tabs.push(LoadedTab { panel_id: t.panel_id, panel_type: Some(t.panel_type) });
                assert(tabs@ =~= g.tabs@.take(j + 1).map_values(
                    |t: SerializedTab| LoadedTab { panel_id: t.panel_id, panel_type: Some(t.panel_type) },
                ));
                j += 1;
            }
            assert(g.tabs@.take(m as int) =~= g.tabs@);
            let ghost before = groups@;
            groups.push(LoadedGroup { id: g.id, active_tab: g.active_tab, tabs });
            proof {
                assert forall|k: int| 0 <= k < i + 1 implies (#[trigger] groups@[k])@ == dg[k] by {
                    if k < i {
                        assert(groups@[k] == before[k]);
                    } else {
                        assert(groups_view(doc.groups@)[k] == doc.groups@[k]@);
                    }
                }
            }
            i += 1;
        }
        assert(loaded_groups_view(groups@) =~= dg);
        LoadedDocument { tree: doc.tree, groups, floating: doc.floating, detached: doc.detached }
    }
}

} // verus!
