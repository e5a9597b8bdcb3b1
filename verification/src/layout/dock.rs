//! The dock layout of a window: a binary split tree whose leaves show tab
//! groups, plus groups that float above the tree.
use std::collections::HashMap;
use vstd::prelude::*;
use vstd::std_specs::iter::IteratorSpec;
use super::shape::{
    Shape, split_leaf_shape, wrap_root_shape, lemma_sub_children, lemma_flatten_dom, lemma_ids_has_id, lemma_leaf_entry, lemma_leaf_for, lemma_replace,
    lemma_sub, lemma_unique_leaf, lemma_parent, lemma_without_leaf, lemma_with_id,
    lemma_parent_exists,
};
use super::tree::{
    Group, GroupId, IdCounter, LayoutIds, NodeId, PanelId, PanelType, SplitDirection, SplitNode,
    SplitRatio, TabEntry,
};

verus! {

broadcast use vstd::std_specs::hash::group_hash_axioms;

/// Position of a floating group, in logical points.
#[derive(Clone, Copy, PartialEq, Eq, Debug, Structural)]
pub struct FloatPos {
    pub x: i32,
    pub y: i32,
}

/// Size of a floating group, in logical points.
#[derive(Clone, Copy, PartialEq, Eq, Debug, Structural)]
pub struct FloatSize {
    pub width: u32,
    pub height: u32,
}

/// Size given to a newly created floating group.
pub open spec fn default_float_size() -> FloatSize {
    FloatSize { width: 400, height: 300 }
}

fn float_size_default() -> (s: FloatSize)
    ensures
        s == default_float_size(),
{
    FloatSize { width: 400, height: 300 }
}

/// A group shown as a window above the split tree.
#[derive(Clone, Copy, PartialEq, Eq, Debug, Structural)]
pub struct FloatingGroup {
    pub group_id: GroupId,
    pub pos: FloatPos,
    pub size: FloatSize,
}

/// Where a dragged tab can be dropped relative to a target group.
#[derive(Clone, Copy, PartialEq, Eq, Debug, Structural)]
pub enum DropZone {
    Left,
    Right,
    Top,
    Bottom,
    Center,
    TabBar { index: usize },
}

/// The tab being dragged.
#[derive(Clone, Copy, PartialEq, Eq, Debug, Structural)]
pub struct DragState {
    pub panel_id: PanelId,
    pub panel_type: PanelType,
    pub source_group: GroupId,
    pub tab_index: usize,
}

/// The layout of one window: split tree, groups, floating groups and drag state.
pub struct DockLayout {
    pub nodes: HashMap<u64, SplitNode>,
    pub root: NodeId,
    pub next_node_id: u64,
    pub groups: HashMap<u64, Group>,
    pub floating: Vec<FloatingGroup>,
    pub drag: Option<DragState>,
    pub tree: Ghost<Shape>,
}

/// Group identifiers of a list of floating groups.
pub open spec fn floating_ids(f: Seq<FloatingGroup>) -> Seq<u64> {
    f.map_values(|x: FloatingGroup| x.group_id.0)
}

/// The node map `nodes` stores exactly the split tree `s`, which has no
/// repeated identifier, is rooted at `root` and uses identifiers below `next`.
pub open spec fn stores_tree(nodes: Map<u64, SplitNode>, root: u64, next: u64, s: Shape) -> bool {
    &&& s.distinct()
    &&& nodes == s.flatten()
    &&& root == s.id()
    &&& forall|k: u64| #[trigger] s.ids().contains(k) ==> k < next
}

impl DockLayout {
    /// The split tree.
    pub open spec fn shape(&self) -> Shape {
        self.tree@
    }

    /// Identifier of the root node.
    pub open spec fn root_spec(&self) -> u64 {
        self.root.0
    }

    /// The node map.
    pub open spec fn node_map(&self) -> Map<u64, SplitNode> {
        self.nodes@
    }

    /// The next node identifier to be allocated.
    pub open spec fn next_node(&self) -> u64 {
        self.next_node_id
    }

    /// Groups shown in the split tree, first child before second child.
    pub open spec fn grid_groups(&self) -> Seq<u64> {
        self.shape().groups()
    }

    /// The node map stores exactly the split tree, whose identifiers are below the allocator.
    pub open spec fn tree_ok(&self) -> bool {
        &&& self.tree@.distinct()
        &&& self.nodes@ == self.tree@.flatten()
        &&& self.root.0 == self.tree@.id()
        &&& forall|k: u64| #[trigger] self.tree@.ids().contains(k) ==> k < self.next_node_id
    }

    /// Every group shown in the tree exists and is shown once; groups are
    /// stored under their own identifier and have at least one tab; floating
    /// groups exist, float once, and are not in the tree.
    pub open spec fn groups_ok(&self) -> bool {
        &&& self.grid_groups().no_duplicates()
        &&& forall|i: int|
            0 <= i < self.grid_groups().len() ==> self.groups@.contains_key(
                #[trigger] self.grid_groups()[i],
            )
        &&& forall|k: u64| #[trigger]
            self.groups@.contains_key(k) ==> self.groups@[k].id.0 == k && self.groups@[k].tabs.len()
                > 0
        &&& floating_ids(self.floating@).no_duplicates()
        &&& forall|i: int|
            0 <= i < self.floating@.len() ==> {
                let g = (#[trigger] self.floating@[i]).group_id.0;
                &&& self.groups@.contains_key(g)
                &&& !self.grid_groups().contains(g)
            }
    }

    /// Well-formedness of a layout.
    pub open spec fn wf(&self) -> bool {
        self.tree_ok() && self.groups_ok()
    }

    /// Every group identifier in the layout is below the group counter.
    pub open spec fn groups_below(&self, next: u64) -> bool {
        forall|k: u64| #[trigger] self.groups@.contains_key(k) ==> k < next
    }

    /// Is group `g` floating?
    pub open spec fn is_floating_spec(&self, g: u64) -> bool {
        floating_ids(self.floating@).contains(g)
    }

    pub fn root_id(&self) -> (id: NodeId)
        ensures
            id.0 == self.root_spec(),
    {
        self.root
    }

    /// The node with identifier `id`, if any.
    pub fn node(&self, id: NodeId) -> (n: Option<SplitNode>)
        ensures
            n == (if self.node_map().contains_key(id.0) {
                Some(self.node_map()[id.0])
            } else {
                None
            }),
    {
        match self.nodes.get(&id.0) {
            Some(n) => Some(*n),
            None => None,
        }
    }

    /// The node map.
    pub fn nodes(&self) -> (m: &HashMap<u64, SplitNode>)
        ensures
            m@ == self.node_map(),
    {
        &self.nodes
    }

    proof fn lemma_wf_basics(&self)
        requires
            self.tree_ok(),
        ensures
            self.shape().ids().contains(self.root_spec()),
            self.node_map().dom() == self.shape().ids(),
            self.node_map() == self.shape().flatten(),
            self.shape().distinct(),
    {
        lemma_ids_has_id(self.tree@);
        lemma_flatten_dom(self.tree@);
    }

    /// The leaf node that shows `group_id`.
    pub fn find_node_for_group(&self, group_id: GroupId) -> (r: Option<NodeId>)
        ensures
            match r {
                Some(n) => self.node_map().contains_key(n.0) && self.node_map()[n.0] == (
                SplitNode::Leaf { group_id }),
                None => forall|n: u64| #[trigger]
                    self.node_map().contains_key(n) ==> self.node_map()[n] != (SplitNode::Leaf {
                        group_id,
                    }),
            },
            self.tree_ok() && self.grid_groups().no_duplicates() ==> (r is Some <==> self.grid_groups().contains(group_id.0)),
            self.tree_ok() && self.grid_groups().no_duplicates() && r is Some ==> self.shape().sub(r.unwrap().0) == (Shape::Leaf {
                id: r.unwrap().0,
                group: group_id.0,
            }) && r.unwrap().0 == self.shape().leaf_for(group_id.0),
    {
        let ghost all = self.nodes.iter().remaining();
        let mut found: Option<NodeId> = None;
        for (k, v) in it: self.nodes.iter()
            invariant
                it.seq() == all,
                found is None ==> forall|j: int|
                    0 <= j < it.index() ==> *(#[trigger] it.seq()[j]).1 != (SplitNode::Leaf { group_id }),
                found matches Some(n) ==> self.nodes@.contains_key(n.0) && self.nodes@[n.0]
                    == (SplitNode::Leaf { group_id }),
        {
            if found.is_none() {
                match v {
                    SplitNode::Leaf { group_id: g } => {
                        if g.0 == group_id.0 {
                            found = Some(NodeId(*k));
                        }
                    },
                    _ => {},
                }
            }
        }
        proof {
            if found is None {
                assert forall|n: u64| #[trigger]
                    self.nodes@.contains_key(n) implies self.nodes@[n] != (SplitNode::Leaf { group_id }) by {
                    assert(all.contains((&n, &self.nodes@[n])));
                    let j = choose|j: int| 0 <= j < all.len() && all[j] == (&n, &self.nodes@[n]);
                    assert(*all[j].1 == self.nodes@[n]);
                }
            }
            if self.tree_ok() && self.grid_groups().no_duplicates() {
                self.lemma_wf_basics();
                match found {
                    Some(n) => {
                        lemma_leaf_entry(self.tree@, n.0, group_id.0);
                        lemma_leaf_for(self.tree@, group_id.0);
                        lemma_unique_leaf(self.tree@, n.0, self.tree@.leaf_for(group_id.0), group_id.0);
                    },
                    None => {
                        if self.tree@.groups().contains(group_id.0) {
                            lemma_leaf_for(self.tree@, group_id.0);
                        }
                    },
                }
            }
        }
        found
    }

    /// The split node that has `target` as a child.
    pub fn find_parent(&self, target: NodeId) -> (r: Option<NodeId>)
        ensures
            match r {
                Some(p) => self.node_map().contains_key(p.0) && self.node_map()[p.0] is Split && (
                self.node_map()[p.0]->Split_first == target || self.node_map()[p.0]->Split_second
                    == target),
                None => forall|p: u64| #[trigger]
                    self.node_map().contains_key(p) ==> !(self.node_map()[p] is Split && (
                    self.node_map()[p]->Split_first == target || self.node_map()[p]->Split_second
                        == target)),
            },
            self.tree_ok() && r is Some ==> r.unwrap().0 == self.shape().parent_of(target.0),
    {
        let ghost all = self.nodes.iter().remaining();
        let mut found: Option<NodeId> = None;
        for (k, v) in it: self.nodes.iter()
            invariant
                it.seq() == all,
                found is None ==> forall|j: int|
                    0 <= j < it.index() ==> !(*(#[trigger] it.seq()[j]).1 is Split && (
                    (*it.seq()[j].1)->Split_first == target || (*it.seq()[j].1)->Split_second
                        == target)),
                found matches Some(p) ==> self.nodes@.contains_key(p.0) && self.nodes@[p.0] is Split
                    && (self.nodes@[p.0]->Split_first == target || self.nodes@[p.0]->Split_second
                    == target),
        {
            if found.is_none() {
                match v {
                    SplitNode::Split { first, second, .. } => {
                        if first.0 == target.0 || second.0 == target.0 {
                            found = Some(NodeId(*k));
                        }
                    },
                    _ => {},
                }
            }
        }
        proof {
            if found is None {
                assert forall|p: u64| #[trigger] self.nodes@.contains_key(p) implies !(
                self.nodes@[p] is Split && (self.nodes@[p]->Split_first == target
                    || self.nodes@[p]->Split_second == target)) by {
                    assert(all.contains((&p, &self.nodes@[p])));
                    let j = choose|j: int| 0 <= j < all.len() && all[j] == (&p, &self.nodes@[p]);
                    assert(*all[j].1 == self.nodes@[p]);
                }
            }
            if self.tree_ok() {
                self.lemma_wf_basics();
                if let Some(p) = found {
                    lemma_parent(self.tree@, p.0, target.0);
                }
            }
        }
        found
    }

    /// Is group `group_id` floating?
    pub fn is_floating(&self, group_id: GroupId) -> (b: bool)
        ensures
            b == self.is_floating_spec(group_id.0),
    {
        let mut i: usize = 0;
        while i < self.floating.len()
            invariant
                i <= self.floating@.len(),
                forall|j: int| 0 <= j < i ==> self.floating@[j].group_id.0 != group_id.0,
            decreases self.floating@.len() - i,
        {
            if self.floating[i].group_id.0 == group_id.0 {
                assert(floating_ids(self.floating@)[i as int] == group_id.0);
                return true;
            }
            i += 1;
        }
        proof {
            if floating_ids(self.floating@).contains(group_id.0) {
                let j = choose|j: int| 0 <= j < floating_ids(self.floating@).len() && floating_ids(self.floating@)[j] == group_id.0;
                assert(self.floating@[j].group_id.0 == group_id.0);
            }
        }
        false
    }
}


/// Panel identifiers and types of the tabs of the groups `order`, group by group.
pub open spec fn tab_list(m: Map<u64, Group>, order: Seq<u64>) -> Seq<(PanelId, PanelType)>
    decreases order.len(),
{
    if order.len() == 0 {
        Seq::empty()
    } else {
        tab_list(m, order.drop_last()) + m[order.last()].tabs@.map_values(
            |t: TabEntry| (t.panel_id, t.panel_type),
        )
    }
}

impl DockLayout {
    /// A layout with a single group holding one panel of `panel_type`.
    pub fn new_single(ids: &mut LayoutIds, panel_type: PanelType) -> (l: Self)
        requires
            old(ids).groups.next < u64::MAX,
        ensures
            l.wf(),
            l.groups_below(final(ids).groups.next),
            l.shape() == (Shape::Leaf { id: 0, group: old(ids).groups.next }),
            l.groups@.dom() == set![old(ids).groups.next],
            l.groups@[old(ids).groups.next].id.0 == old(ids).groups.next,
            l.groups@[old(ids).groups.next].tabs@ == seq![
                TabEntry { panel_id: PanelId(old(ids).panels.next), panel_type },
            ],
            l.groups@[old(ids).groups.next].active_tab == 0,
            l.floating@ == Seq::<FloatingGroup>::empty(),
            l.drag is None,
            l.next_node() == 1,
            final(ids).groups.next == old(ids).groups.next + 1,
            final(ids).panels.next == super::tree::successor(old(ids).panels.next),
    {
        let group = Group::new(ids, panel_type);
        let gid = group.id;
        Self::with_single_group(group)
    }

    /// A layout with a single group holding one panel, keeping the given identifiers.
    pub fn new_with_ids(group_id: GroupId, panel_id: PanelId, panel_type: PanelType) -> (l: Self)
        ensures
            l.wf(),
            l.shape() == (Shape::Leaf { id: 0, group: group_id.0 }),
            l.groups@.dom() == set![group_id.0],
            l.groups@[group_id.0].id == group_id,
            l.groups@[group_id.0].tabs@ == seq![TabEntry { panel_id, panel_type }],
            l.groups@[group_id.0].active_tab == 0,
            l.floating@ == Seq::<FloatingGroup>::empty(),
            l.drag is None,
            l.next_node() == 1,
    {
        let group = Group::new_with_ids(group_id, panel_id, panel_type);
        Self::with_single_group(group)
    }

    /// Build a layout from its parts: a node map that stores a split tree
    /// rooted at `root` whose node identifiers are below `next_node_id`, the
    /// groups and the floating groups. No tab is being dragged.
    pub fn from_parts(
        nodes: HashMap<u64, SplitNode>,
        root: NodeId,
        next_node_id: u64,
        groups: HashMap<u64, Group>,
        floating: Vec<FloatingGroup>,
    ) -> (l: Self)
        requires
            exists|s: Shape| stores_tree(nodes@, root.0, next_node_id, s),
        ensures
            l.tree_ok(),
            stores_tree(nodes@, root.0, next_node_id, l.shape()),
            l.nodes@ == nodes@,
            l.root == root,
            l.next_node_id == next_node_id,
            l.groups@ == groups@,
            l.floating@ == floating@,
            l.drag is None,
    {
        let ghost s = choose|s: Shape| stores_tree(nodes@, root.0, next_node_id, s);
        DockLayout { nodes, root, next_node_id, groups, floating, drag: None, tree: Ghost(s) }
    }

    fn with_single_group(group: Group) -> (l: Self)
        requires
            group.tabs.len() > 0,
        ensures
            l.wf(),
            l.shape() == (Shape::Leaf { id: 0, group: group.id.0 }),
            l.groups@ == map![group.id.0 => group],
            l.floating@ == Seq::<FloatingGroup>::empty(),
            l.drag is None,
            l.next_node() == 1,
    {
        let gid = group.id;
        let mut groups: HashMap<u64, Group> = HashMap::new();
        groups.insert(gid.0, group);
        let mut nodes: HashMap<u64, SplitNode> = HashMap::new();
        nodes.insert(0, SplitNode::Leaf { group_id: gid });
        let ghost shape = Shape::Leaf { id: 0, group: gid.0 };
        let l = DockLayout {
            nodes,
            root: NodeId(0),
            next_node_id: 1,
            groups,
            floating: Vec::new(),
            drag: None,
            tree: Ghost(shape),
        };
        proof {
            assert(l.nodes@ =~= shape.flatten());
            assert(l.groups@ =~= map![gid.0 => group]);
            assert(shape.groups() == seq![gid.0]);
            assert(floating_ids(l.floating@) =~= Seq::<u64>::empty());
        }
        l
    }

    /// Removes the floating entry of `group_id` (the group itself stays in `groups`).
    pub fn remove_floating(&mut self, group_id: GroupId)
        ensures
            final(self).floating@ == old(self).floating@.filter(
                |f: FloatingGroup| f.group_id != group_id,
            ),
            final(self).groups@ == old(self).groups@,
            final(self).shape() == old(self).shape(),
            final(self).node_map() == old(self).node_map(),
            final(self).root_spec() == old(self).root_spec(),
            final(self).next_node() == old(self).next_node(),
            final(self).drag == old(self).drag,
            old(self).wf() ==> final(self).wf(),
            !final(self).is_floating_spec(group_id.0),
    {
        let ghost pred = |f: FloatingGroup| f.group_id != group_id;
        let ghost old_f = self.floating@;
        let mut kept: Vec<FloatingGroup> = Vec::new();
        let mut i: usize = 0;
        while i < self.floating.len()
            invariant
                old_f == self.floating@,
                pred == (|f: FloatingGroup| f.group_id != group_id),
                i <= old_f.len(),
                kept@ == old_f.subrange(0, i as int).filter(pred),
                forall|a: int| 0 <= a < kept@.len() ==> exists|j: int| 0 <= j < i && #[trigger] old_f[j] == #[trigger] kept@[a],
                floating_ids(old_f).no_duplicates() ==> floating_ids(kept@).no_duplicates(),
            decreases old_f.len() - i,
        {
            let f = self.floating[i];
            proof {
                assert(pred(f) == (f.group_id.0 != group_id.0));
                old_f.subrange(0, i as int).lemma_filter_push(old_f[i as int], pred);
                assert(old_f.subrange(0, i as int + 1) =~= old_f.subrange(0, i as int).push(old_f[i as int]));
            }
            if f.group_id.0 != group_id.0 {
                proof {
                    if floating_ids(old_f).no_duplicates() {
                        assert forall|a: int, b: int| 0 <= a < kept@.len() + 1 && 0 <= b < kept@.len() + 1 && a != b implies
                            floating_ids(kept@.push(f))[a] != floating_ids(kept@.push(f))[b] by {
                            if a < kept@.len() && b < kept@.len() {
                                assert(floating_ids(kept@)[a] == floating_ids(kept@.push(f))[a]);
                                assert(floating_ids(kept@)[b] == floating_ids(kept@.push(f))[b]);
                            } else if a < kept@.len() {
                                let j = choose|j: int| 0 <= j < i && #[trigger] old_f[j] == kept@[a];
                                assert(floating_ids(old_f)[j] != floating_ids(old_f)[i as int]);
                            } else {
                                let j = choose|j: int| 0 <= j < i && #[trigger] old_f[j] == kept@[b];
                                assert(floating_ids(old_f)[j] != floating_ids(old_f)[i as int]);
                            }
                        }
                    }
                }
                kept.push(f);
            }
            i += 1;
        }
        proof {
            assert(old_f.subrange(0, old_f.len() as int) =~= old_f);
            old_f.lemma_filter_len(pred);
        }
        self.floating = kept;
        proof {
            assert forall|a: int| 0 <= a < floating_ids(self.floating@).len() implies floating_ids(self.floating@)[a] != group_id.0 by {
                old_f.lemma_filter_pred(pred, a);
            }
            if old(self).wf() {
                assert forall|a: int| 0 <= a < self.floating@.len() implies {
                    let g = (#[trigger] self.floating@[a]).group_id.0;
                    &&& self.groups@.contains_key(g)
                    &&& !self.grid_groups().contains(g)
                } by {
                    let j = choose|j: int| 0 <= j < old_f.len() && #[trigger] old_f[j] == self.floating@[a];
                }
            }
        }
    }

    /// Creates a floating group that holds `entry`, with a fresh group identifier.
    pub fn add_floating_group(&mut self, ids: &mut IdCounter, entry: TabEntry, pos: FloatPos) -> (gid: GroupId)
        requires
            old(self).wf(),
            old(self).groups_below(old(ids).next),
            old(ids).next < u64::MAX,
        ensures
            final(self).wf(),
            gid.0 == old(ids).next,
            final(ids).next == old(ids).next + 1,
            !old(self).groups@.contains_key(gid.0),
            final(self).groups@.dom() == old(self).groups@.dom().insert(gid.0),
            forall|k: u64| #[trigger] old(self).groups@.contains_key(k) ==> final(self).groups@[k] == old(self).groups@[k],
            final(self).groups@[gid.0].id == gid,
            final(self).groups@[gid.0].tabs@ == seq![entry],
            final(self).groups@[gid.0].active_tab == 0,
            final(self).floating@ == old(self).floating@.push(
                FloatingGroup { group_id: gid, pos, size: default_float_size() },
            ),
            final(self).shape() == old(self).shape(),
            final(self).node_map() == old(self).node_map(),
            final(self).root_spec() == old(self).root_spec(),
            final(self).next_node() == old(self).next_node(),
            final(self).drag == old(self).drag,
            final(self).groups_below(final(ids).next),
    {
        let gid = GroupId::next(ids);
        let group = Group::new_with_ids(gid, entry.panel_id, entry.panel_type);
        self.groups.insert(gid.0, group);
        let size = float_size_default();
        self.floating.push(FloatingGroup { group_id: gid, pos, size });
        proof {
            assert(!old(self).groups@.contains_key(gid.0));
            assert(!old(self).grid_groups().contains(gid.0));
            assert(floating_ids(self.floating@) =~= floating_ids(old(self).floating@).push(gid.0));
            assert(!floating_ids(old(self).floating@).contains(gid.0)) by {
                if floating_ids(old(self).floating@).contains(gid.0) {
                    let j = choose|j: int| 0 <= j < floating_ids(old(self).floating@).len() && floating_ids(old(self).floating@)[j] == gid.0;
                    assert(old(self).floating@[j].group_id.0 == gid.0);
                }
            }
            assert forall|i: int| 0 <= i < self.floating@.len() implies {
                let g = (#[trigger] self.floating@[i]).group_id.0;
                &&& self.groups@.contains_key(g)
                &&& !self.grid_groups().contains(g)
            } by {
                if i < old(self).floating@.len() {
                    assert(self.floating@[i] == old(self).floating@[i]);
                }
            }
        }
        gid
    }

    /// Moves and resizes the first floating entry of `group_id`, if any.
    pub fn update_floating_geometry(&mut self, group_id: GroupId, pos: FloatPos, size: FloatSize)
        ensures
            final(self).floating@.len() == old(self).floating@.len(),
            forall|i: int| 0 <= i < old(self).floating@.len() ==> #[trigger] final(self).floating@[i] == (
                if old(self).floating@[i].group_id == group_id && forall|j: int| 0 <= j < i ==> old(self).floating@[j].group_id != group_id {
                    FloatingGroup { group_id, pos, size }
                } else {
                    old(self).floating@[i]
                }),
            final(self).groups@ == old(self).groups@,
            final(self).shape() == old(self).shape(),
            final(self).node_map() == old(self).node_map(),
            final(self).root_spec() == old(self).root_spec(),
            final(self).next_node() == old(self).next_node(),
            final(self).drag == old(self).drag,
            old(self).wf() ==> final(self).wf(),
    {
        let mut i: usize = 0;
        while i < self.floating.len()
            invariant
                self.floating@ == old(self).floating@,
                self.groups@ == old(self).groups@,
                self.tree == old(self).tree,
                self.nodes@ == old(self).nodes@,
                self.root == old(self).root,
                self.next_node_id == old(self).next_node_id,
                self.drag == old(self).drag,
                i <= self.floating@.len(),
                forall|j: int| 0 <= j < i ==> self.floating@[j].group_id != group_id,
            decreases self.floating@.len() - i,
        {
            if self.floating[i].group_id.0 == group_id.0 {
                let ghost before = self.floating@;
                self.floating.set(i, FloatingGroup { group_id, pos, size });
                proof {
                    assert(floating_ids(self.floating@) =~= floating_ids(before));
                    assert forall|k: int| 0 <= k < self.floating@.len() implies {
                        let g = (#[trigger] self.floating@[k]).group_id.0;
                        &&& self.groups@.contains_key(g) == old(self).groups@.contains_key(old(self).floating@[k].group_id.0)
                        &&& g == old(self).floating@[k].group_id.0
                    } by {}
                }
                return;
            }
            i += 1;
        }
    }

    /// Every tab of every group (grid and floating), group by group in an unspecified order.
    pub fn collect_all_panels(&self) -> (r: Vec<(PanelId, PanelType)>)
        ensures
            exists|order: Seq<u64>|
                #![trigger tab_list(self.groups@, order)]
                order.no_duplicates() && order.to_set() == self.groups@.dom() && r@ == tab_list(
                    self.groups@,
                    order,
                ),
    {
        let mut result: Vec<(PanelId, PanelType)> = Vec::new();
        let ghost all = self.groups.keys().remaining();
        let ghost order = all.unref();
        for k in it: self.groups.keys()
            invariant
                it.seq() == all,
                order == all.unref(),
                order.to_set() == self.groups@.dom(),
                result@ == tab_list(self.groups@, order.take(it.index() as int)),
        {
            let ghost idx = it.index() as int;
            proof {
                assert(order[idx] == *k);
                assert(order.to_set().contains(*k));
            }
            match self.groups.get(k) {
                Some(g) => {
                    let ghost before = result@;
                    let mut j: usize = 0;
                    while j < g.tabs.len()
                        invariant
                            j <= g.tabs@.len(),
                            result@ == before + g.tabs@.take(j as int).map_values(
                                |t: TabEntry| (t.panel_id, t.panel_type),
                            ),
                        decreases g.tabs@.len() - j,
                    {
                        let t = g.tabs[j];
                        result.push((t.panel_id, t.panel_type));
                        proof {
                            assert(g.tabs@.take(j as int + 1) =~= g.tabs@.take(j as int).push(t));
                            assert(g.tabs@.take(j as int + 1).map_values(|t: TabEntry| (t.panel_id, t.panel_type))
                                =~= g.tabs@.take(j as int).map_values(|t: TabEntry| (t.panel_id, t.panel_type)).push((t.panel_id, t.panel_type)));
                        }
                        j += 1;
                    }
                    proof {
                        assert(g.tabs@.take(g.tabs@.len() as int) =~= g.tabs@);
                        assert(order.take(idx + 1).drop_last() =~= order.take(idx));
                        assert(order.take(idx + 1).last() == *k);
                    }
                },
                None => {},
            }
        }
        proof {
            assert(order.take(order.len() as int) =~= order);
            assert(order.no_duplicates()) by {
                assert forall|a: int, b: int| 0 <= a < order.len() && 0 <= b < order.len() && a != b implies order[a] != order[b] by {
                    assert(order[a] == *all[a]);
                    assert(order[b] == *all[b]);
                }
            }
        }
        result
    }
}


impl DockLayout {
    fn alloc_node_id(&mut self) -> (id: NodeId)
        requires
            old(self).next_node_id < u64::MAX,
        ensures
            id.0 == old(self).next_node_id,
            final(self).next_node_id == old(self).next_node_id + 1,
            final(self).nodes == old(self).nodes,
            final(self).root == old(self).root,
            final(self).groups == old(self).groups,
            final(self).floating == old(self).floating,
            final(self).drag == old(self).drag,
            final(self).tree == old(self).tree,
    {
        let id = NodeId(self.next_node_id);
        self.next_node_id = self.next_node_id + 1;
        id
    }

    /// Replaces the leaf `node_id` (showing `target`) by a split between
    /// `target` and `new_gid`; only the tree changes.
    fn tree_split_leaf(
        &mut self,
        node_id: NodeId,
        target: GroupId,
        new_gid: GroupId,
        direction: SplitDirection,
        new_first: bool,
    )
        requires
            old(self).tree_ok(),
            old(self).shape().ids().contains(node_id.0),
            old(self).shape().sub(node_id.0) == (Shape::Leaf { id: node_id.0, group: target.0 }),
            old(self).next_node_id < u64::MAX - 1,
        ensures
            final(self).tree_ok(),
            final(self).next_node() == old(self).next_node() + 2,
            final(self).shape() == old(self).shape().replace(
                node_id.0,
                split_leaf_shape(
                    node_id.0,
                    direction,
                    old(self).next_node(),
                    (old(self).next_node() + 1) as u64,
                    target.0,
                    new_gid.0,
                    new_first,
                ),
            ),
            final(self).groups == old(self).groups,
            final(self).floating == old(self).floating,
            final(self).drag == old(self).drag,
            exists|pre: Seq<u64>, post: Seq<u64>|
                old(self).grid_groups() == pre + seq![target.0] + post && final(self).grid_groups()
                    == pre + (if new_first {
                    seq![new_gid.0, target.0]
                } else {
                    seq![target.0, new_gid.0]
                }) + post,
    {
        let ghost s = self.tree@;
        let existing_child = self.alloc_node_id();
        let new_child = self.alloc_node_id();
        self.nodes.insert(existing_child.0, SplitNode::Leaf { group_id: target });
        self.nodes.insert(new_child.0, SplitNode::Leaf { group_id: new_gid });
        let (first, second) = if new_first {
            (new_child, existing_child)
        } else {
            (existing_child, new_child)
        };
        self.nodes.insert(
            node_id.0,
            SplitNode::Split { direction, ratio: SplitRatio::half(), first, second },
        );
        proof {
            let t = split_leaf_shape(
                node_id.0,
                direction,
                existing_child.0,
                new_child.0,
                target.0,
                new_gid.0,
                new_first,
            );
            lemma_flatten_dom(s);
            lemma_sub(s, node_id.0);
            assert(s.sub(node_id.0).ids() =~= set![node_id.0]);
            assert(!s.ids().contains(existing_child.0));
            assert(!s.ids().contains(new_child.0));
            let le = Shape::Leaf { id: existing_child.0, group: target.0 };
            let ln = Shape::Leaf { id: new_child.0, group: new_gid.0 };
            assert(le.ids() == set![existing_child.0]);
            assert(ln.ids() == set![new_child.0]);
            assert(le.distinct() && ln.distinct());
            assert(le.flatten() == map![existing_child.0 => SplitNode::Leaf { group_id: target }]);
            assert(ln.flatten() == map![new_child.0 => SplitNode::Leaf { group_id: new_gid }]);
            assert(le.groups() == seq![target.0]);
            assert(ln.groups() == seq![new_gid.0]);
            if new_first {
                assert(t == Shape::Split { id: node_id.0, direction, ratio: SplitRatio(5000), first: Box::new(ln), second: Box::new(le) });
            } else {
                assert(t == Shape::Split { id: node_id.0, direction, ratio: SplitRatio(5000), first: Box::new(le), second: Box::new(ln) });
            }
            assert(t.ids() =~= set![existing_child.0, new_child.0, node_id.0]);
            assert(t.distinct());
            let pp = lemma_replace(s, node_id.0, t);
            let r = s.replace(node_id.0, t);
            assert(self.nodes@ =~= r.flatten());
            self.tree = Ghost(r);
            assert forall|k: u64| #[trigger] r.ids().contains(k) implies k < self.next_node_id by {}
            let tg = if new_first { seq![new_gid.0, target.0] } else { seq![target.0, new_gid.0] };
            assert(t.groups() =~= tg);
            assert(s.sub(node_id.0).groups() == seq![target.0]);
            assert(old(self).grid_groups() == pp.0 + seq![target.0] + pp.1);
            assert(self.grid_groups() == pp.0 + tg + pp.1);
        }
    }

    /// Makes the current tree the first child of a new root split whose
    /// second child is a new leaf showing `gid`; only the tree changes.
    fn tree_wrap_root(&mut self, gid: GroupId, direction: SplitDirection, ratio: SplitRatio)
        requires
            old(self).tree_ok(),
            old(self).next_node_id < u64::MAX - 1,
        ensures
            final(self).tree_ok(),
            final(self).next_node() == old(self).next_node() + 2,
            final(self).root_spec() == old(self).root_spec(),
            final(self).shape() == wrap_root_shape(
                old(self).shape(),
                old(self).next_node(),
                (old(self).next_node() + 1) as u64,
                gid.0,
                direction,
                ratio,
            ),
            final(self).grid_groups() == old(self).grid_groups().push(gid.0),
            final(self).groups == old(self).groups,
            final(self).floating == old(self).floating,
            final(self).drag == old(self).drag,
    {
        let ghost s = self.tree@;
        proof {
            lemma_flatten_dom(s);
            lemma_ids_has_id(s);
        }
        let old_root = self.root;
        let old_root_new_id = self.alloc_node_id();
        match self.nodes.remove(&old_root.0) {
            Some(old_root_node) => {
                self.nodes.insert(old_root_new_id.0, old_root_node);
            },
            None => {},
        }
        let new_leaf_id = self.alloc_node_id();
        self.nodes.insert(new_leaf_id.0, SplitNode::Leaf { group_id: gid });
        self.nodes.insert(
            old_root.0,
            SplitNode::Split { direction, ratio, first: old_root_new_id, second: new_leaf_id },
        );
        proof {
            let w = s.with_id(old_root_new_id.0);
            lemma_with_id(s, old_root_new_id.0);
            let leaf = Shape::Leaf { id: new_leaf_id.0, group: gid.0 };
            let t = wrap_root_shape(s, old_root_new_id.0, new_leaf_id.0, gid.0, direction, ratio);
            lemma_flatten_dom(w);
            assert(!s.ids().contains(old_root_new_id.0));
            assert(!s.ids().contains(new_leaf_id.0));
            assert(w.ids().disjoint(leaf.ids()));
            assert(!w.ids().contains(s.id()));
            assert(leaf.ids() == set![new_leaf_id.0]);
            assert(!leaf.ids().contains(s.id()));
            assert(w.distinct());
            assert(leaf.distinct());
            assert(leaf.flatten() == map![new_leaf_id.0 => SplitNode::Leaf { group_id: gid }]);
            assert(leaf.groups() == seq![gid.0]);
            assert(s.flatten()[s.id()] == s.node());
            assert(t.distinct());
            assert(self.nodes@ =~= t.flatten());
            self.tree = Ghost(t);
            assert forall|k: u64| #[trigger] t.ids().contains(k) implies k < self.next_node_id by {}
            assert(t.groups() =~= s.groups().push(gid.0));
        }
    }

    /// Removes the leaf that shows `group_id` (promoting its sibling); only the
    /// tree changes. Refuses when the group is not in the tree or is the root.
    fn tree_remove_leaf(&mut self, group_id: GroupId) -> (removed: bool)
        requires
            old(self).tree_ok(),
            old(self).grid_groups().no_duplicates(),
        ensures
            final(self).tree_ok(),
            removed == (old(self).grid_groups().contains(group_id.0) && old(self).shape().leaf_for(
                group_id.0,
            ) != old(self).root_spec()),
            removed ==> final(self).shape() == old(self).shape().without_leaf(
                old(self).shape().leaf_for(group_id.0),
            ),
            removed ==> exists|pre: Seq<u64>, post: Seq<u64>|
                old(self).grid_groups() == pre + seq![group_id.0] + post && final(self).grid_groups()
                    == pre + post,
            !removed ==> *final(self) == *old(self),
            final(self).root_spec() == old(self).root_spec(),
            final(self).next_node() == old(self).next_node(),
            final(self).groups == old(self).groups,
            final(self).floating == old(self).floating,
            final(self).drag == old(self).drag,
    {
        let ghost s = self.tree@;
        proof {
            lemma_flatten_dom(s);
            lemma_ids_has_id(s);
        }
        let node_id = match self.find_node_for_group(group_id) {
            Some(id) => id,
            None => return false,
        };
        if node_id.0 == self.root.0 {
            return false;
        }
        proof {
            lemma_parent_exists(s, node_id.0);
        }
        let parent_id = match self.find_parent(node_id) {
            Some(id) => id,
            None => return false,
        };
        let sibling_id = match self.nodes.get(&parent_id.0) {
            Some(SplitNode::Split { first, second, .. }) => {
                if first.0 == node_id.0 {
                    *second
                } else {
                    *first
                }
            },
            _ => return false,
        };
        let ghost k = node_id.0;
        let ghost pp = lemma_without_leaf(s, k);
        proof {
            lemma_sub(s, parent_id.0);
            lemma_sub_children(s, parent_id.0);
            assert(sibling_id.0 == s.sibling_of(parent_id.0, k).id());
        }
        self.nodes.remove(&node_id.0);
        match self.nodes.remove(&sibling_id.0) {
            Some(sibling_node) => {
                self.nodes.insert(parent_id.0, sibling_node);
            },
            None => {},
        }
        proof {
            let r = s.without_leaf(k);
            assert(self.nodes@ =~= r.flatten());
            self.tree = Ghost(r);
            assert(s.sub(k)->Leaf_group == group_id.0);
        }
        true
    }
}


/// After `g` becomes the `i`-th grid group of a layout whose other groups are unchanged.
proof fn lemma_seq_insert_facts(pre: Seq<u64>, mid: Seq<u64>, post: Seq<u64>, x: u64)
    requires
        (pre + mid + post).no_duplicates(),
    ensures
        !(pre + post).contains(x) || (pre + mid + post).contains(x),
        (pre + post).no_duplicates(),
        forall|y: u64| (pre + post).contains(y) ==> (pre + mid + post).contains(y),
{
    let a = pre + mid + post;
    let b = pre + post;
    assert forall|y: u64| b.contains(y) implies a.contains(y) by {
        let j = choose|j: int| 0 <= j < b.len() && b[j] == y;
        if j < pre.len() {
            assert(a[j] == y);
        } else {
            assert(a[j + mid.len()] == y);
        }
    }
    assert forall|i: int, j: int| 0 <= i < b.len() && 0 <= j < b.len() && i != j implies b[i] != b[j] by {
        let ii = if i < pre.len() { i } else { i + mid.len() };
        let jj = if j < pre.len() { j } else { j + mid.len() };
        assert(a[ii] == b[i]);
        assert(a[jj] == b[j]);
    }
}

impl DockLayout {
    /// Splits the tree leaf of `target_group`, placing a new group with one
    /// panel of `new_panel_type` beside it (before it when `new_first`).
    /// Returns the new group's identifier, or `None` when `target_group` is not
    /// in the tree.
    pub fn split_group(
        &mut self,
        ids: &mut LayoutIds,
        target_group: GroupId,
        direction: SplitDirection,
        new_panel_type: PanelType,
        new_first: bool,
    ) -> (r: Option<GroupId>)
        requires
            old(self).wf(),
            old(self).groups_below(old(ids).groups.next),
            old(ids).groups.next < u64::MAX,
            old(self).next_node() < u64::MAX - 1,
        ensures
            final(self).wf(),
            final(self).groups_below(final(ids).groups.next),
            r is Some <==> old(self).grid_groups().contains(target_group.0),
            r is None ==> *final(self) == *old(self) && *final(ids) == *old(ids),
            r matches Some(g) ==> {
                &&& g.0 == old(ids).groups.next
                &&& final(ids).groups.next == old(ids).groups.next + 1
                &&& final(ids).panels.next == super::tree::successor(old(ids).panels.next)
                &&& final(self).groups@.dom() == old(self).groups@.dom().insert(g.0)
                &&& forall|k: u64| #[trigger] old(self).groups@.contains_key(k) ==> final(self).groups@[k]
                    == old(self).groups@[k]
                &&& final(self).groups@[g.0].id == g
                &&& final(self).groups@[g.0].tabs@ == seq![
                    TabEntry { panel_id: PanelId(old(ids).panels.next), panel_type: new_panel_type },
                ]
                &&& final(self).groups@[g.0].active_tab == 0
                &&& final(self).floating@ == old(self).floating@
                &&& final(self).drag == old(self).drag
                &&& final(self).shape() == old(self).shape().replace(
                    old(self).shape().leaf_for(target_group.0),
                    split_leaf_shape(
                        old(self).shape().leaf_for(target_group.0),
                        direction,
                        old(self).next_node(),
                        (old(self).next_node() + 1) as u64,
                        target_group.0,
                        g.0,
                        new_first,
                    ),
                )
                &&& exists|pre: Seq<u64>, post: Seq<u64>|
                    old(self).grid_groups() == pre + seq![target_group.0] + post
                        && final(self).grid_groups() == pre + (if new_first {
                        seq![g.0, target_group.0]
                    } else {
                        seq![target_group.0, g.0]
                    }) + post
            },
    {
        let node_id = match self.find_node_for_group(target_group) {
            Some(id) => id,
            None => return None,
        };
        let new_group = Group::new(ids, new_panel_type);
        let new_gid = new_group.id;
        let ghost ng = new_group;
        self.groups.insert(new_gid.0, new_group);
        self.tree_split_leaf(node_id, target_group, new_gid, direction, new_first);
        proof {
            self.lemma_groups_after_split(*old(self), target_group.0, new_gid.0, new_first);
        }
        Some(new_gid)
    }

    /// Like `split_group`, but the new group holds the given tab (a tab moved
    /// from elsewhere) and takes a fresh group identifier from `group_ids`.
    pub fn split_group_with_tab(
        &mut self,
        group_ids: &mut IdCounter,
        target_group: GroupId,
        direction: SplitDirection,
        tab_entry: TabEntry,
        new_first: bool,
    ) -> (r: Option<GroupId>)
        requires
            old(self).wf(),
            old(self).groups_below(old(group_ids).next),
            old(group_ids).next < u64::MAX,
            old(self).next_node() < u64::MAX - 1,
        ensures
            final(self).wf(),
            final(self).groups_below(final(group_ids).next),
            r is Some <==> old(self).grid_groups().contains(target_group.0),
            r is None ==> *final(self) == *old(self) && *final(group_ids) == *old(group_ids),
            r matches Some(g) ==> {
                &&& g.0 == old(group_ids).next
                &&& final(group_ids).next == old(group_ids).next + 1
                &&& final(self).groups@.dom() == old(self).groups@.dom().insert(g.0)
                &&& forall|k: u64| #[trigger] old(self).groups@.contains_key(k) ==> final(self).groups@[k]
                    == old(self).groups@[k]
                &&& final(self).groups@[g.0].id == g
                &&& final(self).groups@[g.0].tabs@ == seq![tab_entry]
                &&& final(self).groups@[g.0].active_tab == 0
                &&& final(self).floating@ == old(self).floating@
                &&& final(self).drag == old(self).drag
                &&& final(self).shape() == old(self).shape().replace(
                    old(self).shape().leaf_for(target_group.0),
                    split_leaf_shape(
                        old(self).shape().leaf_for(target_group.0),
                        direction,
                        old(self).next_node(),
                        (old(self).next_node() + 1) as u64,
                        target_group.0,
                        g.0,
                        new_first,
                    ),
                )
                &&& exists|pre: Seq<u64>, post: Seq<u64>|
                    old(self).grid_groups() == pre + seq![target_group.0] + post
                        && final(self).grid_groups() == pre + (if new_first {
                        seq![g.0, target_group.0]
                    } else {
                        seq![target_group.0, g.0]
                    }) + post
            },
    {
        let node_id = match self.find_node_for_group(target_group) {
            Some(id) => id,
            None => return None,
        };
        let new_gid = GroupId::next(group_ids);
        let new_group = Group::new_with_ids(new_gid, tab_entry.panel_id, tab_entry.panel_type);
        self.groups.insert(new_gid.0, new_group);
        self.tree_split_leaf(node_id, target_group, new_gid, direction, new_first);
        proof {
            self.lemma_groups_after_split(*old(self), target_group.0, new_gid.0, new_first);
        }
        Some(new_gid)
    }

    proof fn lemma_groups_after_split(&self, old: DockLayout, target: u64, g: u64, new_first: bool)
        requires
            old.wf(),
            self.tree_ok(),
            !old.groups@.contains_key(g),
            self.groups@.dom() == old.groups@.dom().insert(g),
            forall|k: u64| #[trigger] old.groups@.contains_key(k) ==> self.groups@[k] == old.groups@[k],
            self.groups@[g].id.0 == g,
            self.groups@[g].tabs.len() > 0,
            self.floating@ == old.floating@,
            exists|pre: Seq<u64>, post: Seq<u64>|
                old.grid_groups() == pre + seq![target] + post && self.grid_groups() == pre + (
                if new_first {
                    seq![g, target]
                } else {
                    seq![target, g]
                }) + post,
        ensures
            self.wf(),
    {
        let (pre, post) = choose|pre: Seq<u64>, post: Seq<u64>|
            old.grid_groups() == pre + seq![target] + post && self.grid_groups() == pre + (
            if new_first {
                seq![g, target]
            } else {
                seq![target, g]
            }) + post;
        let mid = if new_first { seq![g, target] } else { seq![target, g] };
        let a = old.grid_groups();
        let b = self.grid_groups();
        assert(!a.contains(g)) by {
            if a.contains(g) {
                let j = choose|j: int| 0 <= j < a.len() && a[j] == g;
                assert(old.groups@.contains_key(a[j]));
            }
        }
        assert forall|y: u64| b.contains(y) implies y == g || a.contains(y) by {
            let j = choose|j: int| 0 <= j < b.len() && b[j] == y;
            if j < pre.len() {
                assert(a[j] == y);
            } else if j < pre.len() + 2 {
                if b[j] != g {
                    assert(a[pre.len() as int] == target);
                    assert(y == target);
                }
            } else {
                assert(a[j - 1] == y);
            }
        }
        assert(b.no_duplicates()) by {
            assert forall|i: int, j: int| 0 <= i < b.len() && 0 <= j < b.len() && i != j implies b[i] != b[j] by {
                let ai = if i < pre.len() { i } else if i < pre.len() + 2 { pre.len() as int } else { i - 1 };
                let aj = if j < pre.len() { j } else if j < pre.len() + 2 { pre.len() as int } else { j - 1 };
                if b[i] == g || b[j] == g {
                    if b[i] == g && b[j] == g {
                        assert(i >= pre.len() && i < pre.len() + 2) by {
                            if i < pre.len() { assert(a[i] == g); }
                            if i >= pre.len() + 2 { assert(a[i - 1] == g); }
                        }
                        assert(j >= pre.len() && j < pre.len() + 2) by {
                            if j < pre.len() { assert(a[j] == g); }
                            if j >= pre.len() + 2 { assert(a[j - 1] == g); }
                        }
                        assert(target != g) by { assert(a[pre.len() as int] == target); }
                    }
                } else {
                    assert(a[ai] == b[i]);
                    assert(a[aj] == b[j]);
                    if ai == aj {
                        assert(i >= pre.len() && i < pre.len() + 2);
                        assert(j >= pre.len() && j < pre.len() + 2);
                    }
                }
            }
        }
        assert forall|i: int| 0 <= i < b.len() implies self.groups@.contains_key(#[trigger] b[i]) by {
            assert(b.contains(b[i]));
            if b[i] != g {
                let j = choose|j: int| 0 <= j < a.len() && a[j] == b[i];
                assert(old.groups@.contains_key(a[j]));
            }
        }
        assert forall|i: int| 0 <= i < self.floating@.len() implies {
            let x = (#[trigger] self.floating@[i]).group_id.0;
            &&& self.groups@.contains_key(x)
            &&& !self.grid_groups().contains(x)
        } by {
            let x = self.floating@[i].group_id.0;
            assert(old.floating@[i].group_id.0 == x);
            assert(old.groups@.contains_key(x));
            if b.contains(x) {
                assert(x == g || a.contains(x));
            }
        }
    }
}


/// `r` clamped to the range a divider drag may produce.
pub open spec fn clamp_drag_ratio(r: u32) -> u32 {
    if r < SplitRatio::MIN_DRAG {
        SplitRatio::MIN_DRAG
    } else if r > SplitRatio::MAX_DRAG {
        SplitRatio::MAX_DRAG
    } else {
        r
    }
}

impl DockLayout {
    proof fn lemma_groups_after_removal(&self, old: DockLayout, g: u64)
        requires
            old.wf(),
            self.tree_ok(),
            self.groups@ == old.groups@.remove(g),
            self.floating@ == old.floating@,
            exists|pre: Seq<u64>, post: Seq<u64>|
                old.grid_groups() == pre + seq![g] + post && self.grid_groups() == pre + post,
        ensures
            self.wf(),
    {
        let (pre, post) = choose|pre: Seq<u64>, post: Seq<u64>|
            old.grid_groups() == pre + seq![g] + post && self.grid_groups() == pre + post;
        lemma_seq_insert_facts(pre, seq![g], post, g);
        let a = old.grid_groups();
        let b = self.grid_groups();
        assert(a[pre.len() as int] == g);
        assert(!b.contains(g)) by {
            if b.contains(g) {
                let j = choose|j: int| 0 <= j < b.len() && b[j] == g;
                let jj = if j < pre.len() { j } else { j + 1 };
                assert(a[jj] == g);
            }
        }
        assert forall|i: int| 0 <= i < b.len() implies self.groups@.contains_key(#[trigger] b[i]) by {
            assert(b.contains(b[i]));
            let j = choose|j: int| 0 <= j < a.len() && a[j] == b[i];
            assert(old.groups@.contains_key(a[j]));
        }
        assert forall|i: int| 0 <= i < self.floating@.len() implies {
            let x = (#[trigger] self.floating@[i]).group_id.0;
            &&& self.groups@.contains_key(x)
            &&& !self.grid_groups().contains(x)
        } by {
            let x = self.floating@[i].group_id.0;
            assert(old.floating@[i].group_id.0 == x);
            assert(a.contains(g));
        }
    }

    /// Removes `group_id` from the tree (its parent split collapses into the
    /// sibling) and from `groups`. Refuses, changing nothing, when the group is
    /// not in the tree or is the whole tree.
    pub fn remove_group_from_grid(&mut self, group_id: GroupId) -> (removed: bool)
        requires
            old(self).wf(),
        ensures
            final(self).wf(),
            removed == (old(self).grid_groups().contains(group_id.0) && old(self).shape().leaf_for(
                group_id.0,
            ) != old(self).root_spec()),
            !removed ==> *final(self) == *old(self),
            removed ==> {
                &&& final(self).shape() == old(self).shape().without_leaf(
                    old(self).shape().leaf_for(group_id.0),
                )
                &&& final(self).groups@ == old(self).groups@.remove(group_id.0)
                &&& final(self).floating@ == old(self).floating@
                &&& final(self).drag == old(self).drag
                &&& final(self).root_spec() == old(self).root_spec()
                &&& final(self).next_node() == old(self).next_node()
                &&& exists|pre: Seq<u64>, post: Seq<u64>|
                    old(self).grid_groups() == pre + seq![group_id.0] + post
                        && final(self).grid_groups() == pre + post
            },
    {
        let ghost before = *self;
        if !self.tree_remove_leaf(group_id) {
            proof {
                assert(self.nodes@ == before.nodes@);
            }
            return false;
        }
        self.groups.remove(&group_id.0);
        proof {
            self.lemma_groups_after_removal(*old(self), group_id.0);
        }
        true
    }

    /// Takes `group_id` out of the tree and shows it as a floating group at
    /// `pos` with the default size. Refuses, changing nothing, when the group is
    /// not in the tree or is the whole tree.
    pub fn detach_grid_group_to_floating(&mut self, group_id: GroupId, pos: FloatPos) -> (detached: bool)
        requires
            old(self).wf(),
        ensures
            final(self).wf(),
            detached == (old(self).grid_groups().contains(group_id.0) && old(self).shape().leaf_for(
                group_id.0,
            ) != old(self).root_spec()),
            !detached ==> *final(self) == *old(self),
            detached ==> {
                &&& final(self).shape() == old(self).shape().without_leaf(
                    old(self).shape().leaf_for(group_id.0),
                )
                &&& final(self).groups@ == old(self).groups@
                &&& final(self).floating@ == old(self).floating@.push(
                    FloatingGroup { group_id, pos, size: default_float_size() },
                )
                &&& final(self).drag == old(self).drag
                &&& exists|pre: Seq<u64>, post: Seq<u64>|
                    old(self).grid_groups() == pre + seq![group_id.0] + post
                        && final(self).grid_groups() == pre + post
            },
    {
        if !self.tree_remove_leaf(group_id) {
            proof {
                assert(self.nodes@ == old(self).nodes@);
            }
            return false;
        }
        let size = float_size_default();
        self.floating.push(FloatingGroup { group_id, pos, size });
        proof {
            let (pre, post) = choose|pre: Seq<u64>, post: Seq<u64>|
                old(self).grid_groups() == pre + seq![group_id.0] + post && self.grid_groups() == pre + post;
            lemma_seq_insert_facts(pre, seq![group_id.0], post, group_id.0);
            let a = old(self).grid_groups();
            let b = self.grid_groups();
            assert(a[pre.len() as int] == group_id.0);
            assert(!b.contains(group_id.0)) by {
                if b.contains(group_id.0) {
                    let j = choose|j: int| 0 <= j < b.len() && b[j] == group_id.0;
                    let jj = if j < pre.len() { j } else { j + 1 };
                    assert(a[jj] == group_id.0);
                }
            }
            assert(floating_ids(self.floating@) =~= floating_ids(old(self).floating@).push(group_id.0));
            assert(!floating_ids(old(self).floating@).contains(group_id.0)) by {
                if floating_ids(old(self).floating@).contains(group_id.0) {
                    let j = choose|j: int| 0 <= j < floating_ids(old(self).floating@).len() && floating_ids(old(self).floating@)[j] == group_id.0;
                    assert(old(self).floating@[j].group_id.0 == group_id.0);
                    assert(a.contains(group_id.0));
                }
            }
            assert forall|i: int| 0 <= i < b.len() implies self.groups@.contains_key(#[trigger] b[i]) by {
                assert(b.contains(b[i]));
                let j = choose|j: int| 0 <= j < a.len() && a[j] == b[i];
                assert(old(self).groups@.contains_key(a[j]));
            }
            assert forall|i: int| 0 <= i < self.floating@.len() implies {
                let x = (#[trigger] self.floating@[i]).group_id.0;
                &&& self.groups@.contains_key(x)
                &&& !self.grid_groups().contains(x)
            } by {
                if i < old(self).floating@.len() {
                    let x = self.floating@[i].group_id.0;
                    assert(old(self).floating@[i].group_id.0 == x);
                    assert(!a.contains(x));
                } else {
                    let ii = a.index_of(group_id.0);
                    assert(old(self).groups@.contains_key(a[pre.len() as int]));
                }
            }
        }
        true
    }

    /// Adds a group holding one panel (with the given identifier) by splitting
    /// at the root: the current tree becomes the first child.
    pub fn insert_at_root(
        &mut self,
        group_ids: &mut IdCounter,
        panel_type: PanelType,
        panel_id: PanelId,
        direction: SplitDirection,
        ratio: SplitRatio,
    ) -> (gid: GroupId)
        requires
            old(self).wf(),
            old(self).groups_below(old(group_ids).next),
            old(group_ids).next < u64::MAX,
            old(self).next_node() < u64::MAX - 1,
        ensures
            final(self).wf(),
            final(self).groups_below(final(group_ids).next),
            gid.0 == old(group_ids).next,
            final(group_ids).next == old(group_ids).next + 1,
            final(self).groups@.dom() == old(self).groups@.dom().insert(gid.0),
            forall|k: u64| #[trigger] old(self).groups@.contains_key(k) ==> final(self).groups@[k]
                == old(self).groups@[k],
            final(self).groups@[gid.0].id == gid,
            final(self).groups@[gid.0].tabs@ == seq![TabEntry { panel_id, panel_type }],
            final(self).groups@[gid.0].active_tab == 0,
            final(self).floating@ == old(self).floating@,
            final(self).drag == old(self).drag,
            final(self).shape() == wrap_root_shape(
                old(self).shape(),
                old(self).next_node(),
                (old(self).next_node() + 1) as u64,
                gid.0,
                direction,
                ratio,
            ),
            final(self).grid_groups() == old(self).grid_groups().push(gid.0),
    {
        let gid = GroupId::next(group_ids);
        let group = Group::new_with_ids(gid, panel_id, panel_type);
        self.groups.insert(gid.0, group);
        self.tree_wrap_root(gid, direction, ratio);
        proof {
            assert(old(self).grid_groups().push(gid.0) == old(self).grid_groups() + seq![gid.0] + Seq::<u64>::empty());
            assert(old(self).grid_groups() == old(self).grid_groups() + seq![] + Seq::<u64>::empty());
            self.lemma_groups_after_push(*old(self), gid.0);
        }
        gid
    }

    proof fn lemma_groups_after_push(&self, old: DockLayout, g: u64)
        requires
            old.wf(),
            self.tree_ok(),
            !old.groups@.contains_key(g),
            self.groups@.dom() == old.groups@.dom().insert(g),
            forall|k: u64| #[trigger] old.groups@.contains_key(k) ==> self.groups@[k] == old.groups@[k],
            self.groups@[g].id.0 == g,
            self.groups@[g].tabs.len() > 0,
            self.floating@ == old.floating@,
            self.grid_groups() == old.grid_groups().push(g),
        ensures
            self.wf(),
    {
        let a = old.grid_groups();
        let b = self.grid_groups();
        assert(!a.contains(g)) by {
            if a.contains(g) {
                let j = choose|j: int| 0 <= j < a.len() && a[j] == g;
                assert(old.groups@.contains_key(a[j]));
            }
        }
        assert(b.no_duplicates()) by {
            assert forall|i: int, j: int| 0 <= i < b.len() && 0 <= j < b.len() && i != j implies b[i] != b[j] by {
                if i < a.len() && j < a.len() {
                    assert(a[i] == b[i] && a[j] == b[j]);
                } else if i < a.len() {
                    assert(a[i] == b[i]);
                } else if j < a.len() {
                    assert(a[j] == b[j]);
                }
            }
        }
        assert forall|i: int| 0 <= i < b.len() implies self.groups@.contains_key(#[trigger] b[i]) by {
            if i < a.len() {
                assert(a[i] == b[i]);
                assert(old.groups@.contains_key(a[i]));
            }
        }
        assert forall|i: int| 0 <= i < self.floating@.len() implies {
            let x = (#[trigger] self.floating@[i]).group_id.0;
            &&& self.groups@.contains_key(x)
            &&& !self.grid_groups().contains(x)
        } by {
            let x = self.floating@[i].group_id.0;
            assert(old.floating@[i].group_id.0 == x);
            assert(old.groups@.contains_key(x));
            if b.contains(x) {
                let j = choose|j: int| 0 <= j < b.len() && b[j] == x;
                if j < a.len() {
                    assert(a[j] == x);
                }
            }
        }
    }

    /// Moves the floating group `group_id` into the tree by splitting at the
    /// root (vertically, evenly); the group stays in `groups`.
    pub fn insert_floating_into_grid(&mut self, group_id: GroupId)
        requires
            old(self).wf(),
            old(self).is_floating_spec(group_id.0),
            old(self).next_node() < u64::MAX - 1,
        ensures
            final(self).wf(),
            final(self).groups@ == old(self).groups@,
            final(self).floating@ == old(self).floating@.filter(
                |f: FloatingGroup| f.group_id != group_id,
            ),
            final(self).drag == old(self).drag,
            final(self).shape() == wrap_root_shape(
                old(self).shape(),
                old(self).next_node(),
                (old(self).next_node() + 1) as u64,
                group_id.0,
                SplitDirection::Vertical,
                SplitRatio(5000),
            ),
            final(self).grid_groups() == old(self).grid_groups().push(group_id.0),
    {
        self.remove_floating(group_id);
        self.tree_wrap_root(group_id, SplitDirection::Vertical, SplitRatio::half());
        proof {
            let j = choose|j: int| 0 <= j < floating_ids(old(self).floating@).len() && floating_ids(old(self).floating@)[j] == group_id.0;
            assert(old(self).floating@[j].group_id.0 == group_id.0);
            let a = old(self).grid_groups();
            let b = self.grid_groups();
            assert(!a.contains(group_id.0));
            assert(b.no_duplicates()) by {
                assert forall|i: int, k: int| 0 <= i < b.len() && 0 <= k < b.len() && i != k implies b[i] != b[k] by {
                    if i < a.len() && k < a.len() {
                        assert(a[i] == b[i] && a[k] == b[k]);
                    } else if i < a.len() {
                        assert(a[i] == b[i]);
                    } else if k < a.len() {
                        assert(a[k] == b[k]);
                    }
                }
            }
            assert forall|i: int| 0 <= i < b.len() implies self.groups@.contains_key(#[trigger] b[i]) by {
                if i < a.len() {
                    assert(a[i] == b[i]);
                }
            }
            assert forall|i: int| 0 <= i < self.floating@.len() implies {
                let x = (#[trigger] self.floating@[i]).group_id.0;
                &&& self.groups@.contains_key(x)
                &&& !self.grid_groups().contains(x)
            } by {
                let x = self.floating@[i].group_id.0;
                assert(floating_ids(self.floating@)[i] == x);
                if b.contains(x) {
                    let k = choose|k: int| 0 <= k < b.len() && b[k] == x;
                    if k < a.len() {
                        assert(a[k] == x);
                    }
                }
            }
        }
    }

    /// Sets the ratio of split node `node_id`, clamped to the range a divider
    /// drag may produce; does nothing when `node_id` is not a split.
    pub fn resize(&mut self, node_id: NodeId, ratio: SplitRatio)
        requires
            old(self).wf(),
        ensures
            final(self).wf(),
            final(self).shape() == (if old(self).node_map().contains_key(node_id.0)
                && old(self).node_map()[node_id.0] is Split {
                old(self).shape().replace(
                    node_id.0,
                    old(self).shape().sub(node_id.0).with_ratio(SplitRatio(clamp_drag_ratio(ratio.0))),
                )
            } else {
                old(self).shape()
            }),
            final(self).grid_groups() == old(self).grid_groups(),
            final(self).groups@ == old(self).groups@,
            final(self).floating@ == old(self).floating@,
            final(self).drag == old(self).drag,
    {
        let ghost s = self.tree@;
        proof {
            lemma_flatten_dom(s);
        }
        match self.nodes.get(&node_id.0) {
            Some(SplitNode::Split { direction, first, second, .. }) => {
                let direction = *direction;
                let first = *first;
                let second = *second;
                let r = if ratio.0 < SplitRatio::MIN_DRAG {
                    SplitRatio::MIN_DRAG
                } else if ratio.0 > SplitRatio::MAX_DRAG {
                    SplitRatio::MAX_DRAG
                } else {
                    ratio.0
                };
                self.nodes.insert(node_id.0, SplitNode::Split { direction, ratio: SplitRatio(r), first, second });
                proof {
                    let k = node_id.0;
                    lemma_sub(s, k);
                    let sub = s.sub(k);
                    let t = sub.with_ratio(SplitRatio(r));
                    lemma_flatten_dom(sub);
                    lemma_flatten_dom(t);
                    assert(t.ids() == sub.ids());
                    assert(t.flatten() == sub.flatten().insert(k, t.node()));
                    let pp = lemma_replace(s, k, t);
                    let rs = s.replace(k, t);
                    assert forall|j: u64| #[trigger] sub.ids().contains(j) implies s.flatten()[j] == sub.flatten()[j] by {}
                    assert(self.nodes@ =~= rs.flatten());
                    assert(t.groups() == sub.groups());
                    assert(rs.groups() =~= s.groups());
                    self.tree = Ghost(rs);
                }
            },
            _ => {},
        }
    }

    /// Removes the tab at `tab_index` from `group_id` and hands it out,
    /// cleaning up the group when it held only that tab: a floating group is
    /// removed, a tree group is removed from the tree. The one exception is a
    /// single-tab group that is the whole tree (or is shown nowhere): a layout
    /// always keeps its root group, so its tab is handed out as a copy and the
    /// layout stays as it was.
    pub fn take_tab(&mut self, group_id: GroupId, tab_index: usize) -> (r: Option<TabEntry>)
        requires
            old(self).wf(),
        ensures
            final(self).wf(),
            !old(self).groups@.contains_key(group_id.0) ==> r is None && *final(self) == *old(self),
            old(self).groups@.contains_key(group_id.0) && old(self).groups@[group_id.0].tabs.len() <= 1
                ==> {
                &&& r == Some(old(self).groups@[group_id.0].tabs@[0])
                &&& old(self).is_floating_spec(group_id.0) ==> {
                    &&& final(self).groups@ == old(self).groups@.remove(group_id.0)
                    &&& final(self).floating@ == old(self).floating@.filter(
                        |f: FloatingGroup| f.group_id != group_id,
                    )
                    &&& final(self).shape() == old(self).shape()
                }
                &&& !old(self).is_floating_spec(group_id.0) ==> {
                    &&& final(self).floating@ == old(self).floating@
                    &&& if old(self).grid_groups().contains(group_id.0) && old(self).shape().leaf_for(
                        group_id.0,
                    ) != old(self).root_spec() {
                        &&& final(self).groups@ == old(self).groups@.remove(group_id.0)
                        &&& final(self).shape() == old(self).shape().without_leaf(
                            old(self).shape().leaf_for(group_id.0),
                        )
                    } else {
                        *final(self) == *old(self)
                    }
                }
            },
            old(self).groups@.contains_key(group_id.0) && old(self).groups@[group_id.0].tabs.len() > 1
                ==> {
                let g = old(self).groups@[group_id.0];
                &&& r == (if tab_index < g.tabs.len() {
                    Some(g.tabs@[tab_index as int])
                } else {
                    None
                })
                &&& final(self).groups@.dom() == old(self).groups@.dom()
                &&& forall|k: u64| #[trigger] old(self).groups@.contains_key(k) && k != group_id.0
                    ==> final(self).groups@[k] == old(self).groups@[k]
                &&& final(self).groups@[group_id.0].tabs@ == (if tab_index < g.tabs.len() {
                    g.tabs@.remove(tab_index as int)
                } else {
                    g.tabs@
                })
                &&& final(self).groups@[group_id.0].active_tab == (if tab_index < g.tabs.len()
                    && g.active_tab >= g.tabs.len() - 1 {
                    (g.tabs.len() - 2) as usize
                } else {
                    g.active_tab
                })
                &&& final(self).shape() == old(self).shape()
                &&& final(self).floating@ == old(self).floating@
            },
            final(self).drag == old(self).drag,
    {
        let (len, first) = match self.groups.get(&group_id.0) {
            Some(group) => {
                proof {
                    assert(group.tabs.len() > 0);
                }
                (group.tabs.len(), group.tabs[0])
            },
            None => return None,
        };
        if len <= 1 {
            if self.is_floating(group_id) {
                self.remove_floating(group_id);
                self.groups.remove(&group_id.0);
                proof {
                    let j = choose|j: int| 0 <= j < floating_ids(old(self).floating@).len() && floating_ids(old(self).floating@)[j] == group_id.0;
                    assert(old(self).floating@[j].group_id.0 == group_id.0);
                    assert(!self.grid_groups().contains(group_id.0));
                    assert forall|i: int| 0 <= i < self.grid_groups().len() implies self.groups@.contains_key(#[trigger] self.grid_groups()[i]) by {
                        assert(self.grid_groups().contains(self.grid_groups()[i]));
                    }
                    assert forall|i: int| 0 <= i < self.floating@.len() implies {
                        let x = (#[trigger] self.floating@[i]).group_id.0;
                        &&& self.groups@.contains_key(x)
                        &&& !self.grid_groups().contains(x)
                    } by {
                        assert(floating_ids(self.floating@)[i] == self.floating@[i].group_id.0);
                    }
                }
                Some(first)
            } else {
                self.remove_group_from_grid(group_id);
                Some(first)
            }
        } else {
            let mut group = match self.groups.remove(&group_id.0) {
                Some(g) => g,
                None => return None,
            };
            let r = group.remove_tab(tab_index);
            self.groups.insert(group_id.0, group);
            proof {
                assert(self.groups@.dom() =~= old(self).groups@.dom());
                assert forall|i: int| 0 <= i < self.grid_groups().len() implies self.groups@.contains_key(#[trigger] self.grid_groups()[i]) by {
                    assert(old(self).groups@.contains_key(self.grid_groups()[i]));
                }
                assert forall|k: u64| #[trigger] self.groups@.contains_key(k) implies self.groups@[k].id.0 == k && self.groups@[k].tabs.len() > 0 by {
                    if k != group_id.0 {
                        assert(old(self).groups@.contains_key(k));
                    }
                }
                assert forall|i: int| 0 <= i < self.floating@.len() implies {
                    let x = (#[trigger] self.floating@[i]).group_id.0;
                    &&& self.groups@.contains_key(x)
                    &&& !self.grid_groups().contains(x)
                } by {
                    assert(old(self).groups@.contains_key(self.floating@[i].group_id.0));
                }
            }
            r
        }
    }
}


/// The tree of the default layout for groups `g .. g + 4`: a left column
/// (Sources over Scenes) beside Preview, which sits beside a right column
/// (Properties over Audio).
pub open spec fn default_shape(g: u64) -> Shape {
    let leaf = |id: u64, k: u64| Shape::Leaf { id, group: (g + k) as u64 };
    Shape::Split {
        id: 8,
        direction: SplitDirection::Vertical,
        ratio: SplitRatio(2000),
        first: Box::new(Shape::Split {
            id: 5,
            direction: SplitDirection::Horizontal,
            ratio: SplitRatio(6000),
            first: Box::new(leaf(0, 0)),
            second: Box::new(leaf(1, 1)),
        }),
        second: Box::new(Shape::Split {
            id: 7,
            direction: SplitDirection::Vertical,
            ratio: SplitRatio(7500),
            first: Box::new(leaf(2, 2)),
            second: Box::new(Shape::Split {
                id: 6,
                direction: SplitDirection::Horizontal,
                ratio: SplitRatio(6000),
                first: Box::new(leaf(3, 3)),
                second: Box::new(leaf(4, 4)),
            }),
        }),
    }
}

impl DockLayout {
    /// The default layout: Sources (with a Library tab) over Scenes on the
    /// left, Preview in the centre, Properties over Audio on the right.
    pub fn default_layout(ids: &mut LayoutIds) -> (l: Self)
        requires
            old(ids).groups.next < u64::MAX - 5,
            old(ids).panels.next < u64::MAX - 6,
        ensures
            l.wf(),
            l.groups_below(final(ids).groups.next),
            final(ids).groups.next == old(ids).groups.next + 5,
            final(ids).panels.next == old(ids).panels.next + 6,
            l.shape() == default_shape(old(ids).groups.next),
            l.next_node() == 9,
            l.floating@ == Seq::<FloatingGroup>::empty(),
            l.drag is None,
            ({
                let g = old(ids).groups.next;
                let p = old(ids).panels.next;
                let tab = |k: u64, t: PanelType| TabEntry { panel_id: PanelId((p + k) as u64), panel_type: t };
                &&& l.groups@.dom() == set![g, (g + 1) as u64, (g + 2) as u64, (g + 3) as u64, (g + 4) as u64]
                &&& l.groups@[g].tabs@ == seq![tab(0, PanelType::Sources), tab(1, PanelType::Library)]
                &&& l.groups@[(g + 1) as u64].tabs@ == seq![tab(2, PanelType::Scenes)]
                &&& l.groups@[(g + 2) as u64].tabs@ == seq![tab(3, PanelType::Preview)]
                &&& l.groups@[(g + 3) as u64].tabs@ == seq![tab(4, PanelType::Properties)]
                &&& l.groups@[(g + 4) as u64].tabs@ == seq![tab(5, PanelType::AudioMixer)]
                &&& forall|k: u64| #[trigger] l.groups@.contains_key(k) ==> l.groups@[k].active_tab == 0
            }),
    {
        let ghost g = ids.groups.next;
        let ghost p = ids.panels.next;
        let mut sources_group = Group::new(ids, PanelType::Sources);
        sources_group.add_tab(&mut ids.panels, PanelType::Library);
        sources_group.active_tab = 0;
        let sources_gid = sources_group.id;
        let scenes_group = Group::new(ids, PanelType::Scenes);
        let scenes_gid = scenes_group.id;
        let preview_group = Group::new(ids, PanelType::Preview);
        let preview_gid = preview_group.id;
        let properties_group = Group::new(ids, PanelType::Properties);
        let properties_gid = properties_group.id;
        let audio_group = Group::new(ids, PanelType::AudioMixer);
        let audio_gid = audio_group.id;
        let ghost gs = (sources_group, scenes_group, preview_group, properties_group, audio_group);

        let mut groups: HashMap<u64, Group> = HashMap::new();
        groups.insert(sources_gid.0, sources_group);
        groups.insert(scenes_gid.0, scenes_group);
        groups.insert(preview_gid.0, preview_group);
        groups.insert(properties_gid.0, properties_group);
        groups.insert(audio_gid.0, audio_group);

        let mut nodes: HashMap<u64, SplitNode> = HashMap::new();
        nodes.insert(0, SplitNode::Leaf { group_id: sources_gid });
        nodes.insert(1, SplitNode::Leaf { group_id: scenes_gid });
        nodes.insert(2, SplitNode::Leaf { group_id: preview_gid });
        nodes.insert(3, SplitNode::Leaf { group_id: properties_gid });
        nodes.insert(4, SplitNode::Leaf { group_id: audio_gid });
        nodes.insert(
            5,
            SplitNode::Split {
                direction: SplitDirection::Horizontal,
                ratio: SplitRatio(6000),
                first: NodeId(0),
                second: NodeId(1),
            },
        );
        nodes.insert(
            6,
            SplitNode::Split {
                direction: SplitDirection::Horizontal,
                ratio: SplitRatio(6000),
                first: NodeId(3),
                second: NodeId(4),
            },
        );
        nodes.insert(
            7,
            SplitNode::Split {
                direction: SplitDirection::Vertical,
                ratio: SplitRatio(7500),
                first: NodeId(2),
                second: NodeId(6),
            },
        );
        nodes.insert(
            8,
            SplitNode::Split {
                direction: SplitDirection::Vertical,
                ratio: SplitRatio(2000),
                first: NodeId(5),
                second: NodeId(7),
            },
        );
        let ghost shape = default_shape(g);
        let l = DockLayout {
            nodes,
            root: NodeId(8),
            next_node_id: 9,
            groups,
            floating: Vec::new(),
            drag: None,
            tree: Ghost(shape),
        };
        proof {
            reveal_with_fuel(Shape::flatten, 5);
            reveal_with_fuel(Shape::ids, 5);
            reveal_with_fuel(Shape::distinct, 5);
            reveal_with_fuel(Shape::groups, 5);
            let leaf = |id: u64, k: u64| Shape::Leaf { id, group: (g + k) as u64 };
            let left = Shape::Split {
                id: 5,
                direction: SplitDirection::Horizontal,
                ratio: SplitRatio(6000),
                first: Box::new(leaf(0, 0)),
                second: Box::new(leaf(1, 1)),
            };
            let right = Shape::Split {
                id: 6,
                direction: SplitDirection::Horizontal,
                ratio: SplitRatio(6000),
                first: Box::new(leaf(3, 3)),
                second: Box::new(leaf(4, 4)),
            };
            let center = Shape::Split {
                id: 7,
                direction: SplitDirection::Vertical,
                ratio: SplitRatio(7500),
                first: Box::new(leaf(2, 2)),
                second: Box::new(right),
            };
            assert(left.ids() =~= set![0u64, 1, 5]);
            assert(right.ids() =~= set![3u64, 4, 6]);
            assert(center.ids() =~= set![2u64, 3, 4, 6, 7]);
            assert(shape.ids() =~= set![0u64, 1, 2, 3, 4, 5, 6, 7, 8]);
            assert(shape.distinct());
            assert(l.nodes@ =~= shape.flatten());
            assert(shape.groups() =~= seq![g, (g + 1) as u64, (g + 2) as u64, (g + 3) as u64, (g + 4) as u64]);
            assert(l.groups@.dom() =~= set![g, (g + 1) as u64, (g + 2) as u64, (g + 3) as u64, (g + 4) as u64]);
            assert(floating_ids(l.floating@) =~= Seq::<u64>::empty());
            assert forall|k: u64| #[trigger] shape.ids().contains(k) implies k < 9 by {}
            assert(l.grid_groups().no_duplicates());
        }
        l
    }
}

} // verus!
