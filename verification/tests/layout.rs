use lodestone::layout::dock::{DockLayout, FloatPos, FloatSize};
use lodestone::layout::tree::{
    Group, GroupId, IdCounter, LayoutIds, NodeId, PanelId, PanelType, SplitDirection, SplitNode,
    SplitRatio, TabEntry,
};

fn first_group(layout: &DockLayout) -> GroupId {
    GroupId(*layout.groups.keys().next().unwrap())
}

#[test]
fn group_id_increments() {
    let mut counter = IdCounter::new();
    let a = GroupId::next(&mut counter);
    let b = GroupId::next(&mut counter);
    assert_ne!(a, b);
    assert!(b.0 > a.0);
}

#[test]
fn group_active_tab_default() {
    let mut ids = LayoutIds::new();
    let group = Group::new(&mut ids, PanelType::Preview);
    assert_eq!(group.tabs.len(), 1);
    assert_eq!(group.active_tab, 0);
    assert_eq!(group.tabs[0].panel_type, PanelType::Preview);
}

#[test]
fn group_add_tab() {
    let mut ids = LayoutIds::new();
    let mut group = Group::new(&mut ids, PanelType::Preview);
    group.add_tab(&mut ids.panels, PanelType::AudioMixer);
    assert_eq!(group.tabs.len(), 2);
    assert_eq!(group.active_tab, 1);
}

#[test]
fn group_remove_tab() {
    let mut ids = LayoutIds::new();
    let mut group = Group::new(&mut ids, PanelType::Preview);
    group.add_tab(&mut ids.panels, PanelType::AudioMixer);
    group.add_tab(&mut ids.panels, PanelType::StreamControls);
    group.active_tab = 1;
    let removed = group.remove_tab(1);
    assert!(removed.is_some());
    assert_eq!(removed.unwrap().panel_type, PanelType::AudioMixer);
    assert_eq!(group.tabs.len(), 2);
    assert!(group.active_tab <= group.tabs.len().saturating_sub(1));
}

#[test]
fn group_remove_last_tab_returns_none() {
    let mut ids = LayoutIds::new();
    let mut group = Group::new(&mut ids, PanelType::Preview);
    assert!(group.remove_tab(0).is_none());
}

#[test]
fn default_layout_has_5_groups_6_panels() {
    let mut ids = LayoutIds::new();
    let layout = DockLayout::default_layout(&mut ids);
    assert_eq!(layout.groups.len(), 5);
    let all_panels = layout.collect_all_panels();
    assert_eq!(all_panels.len(), 6);
    let types: Vec<PanelType> = all_panels.iter().map(|(_, t)| *t).collect();
    assert!(types.contains(&PanelType::Sources));
    assert!(types.contains(&PanelType::Library));
    assert!(types.contains(&PanelType::Scenes));
    assert!(types.contains(&PanelType::Preview));
    assert!(types.contains(&PanelType::Properties));
    assert!(types.contains(&PanelType::AudioMixer));
}

#[test]
fn split_group_creates_new_group() {
    let mut ids = LayoutIds::new();
    let mut layout = DockLayout::new_single(&mut ids, PanelType::Preview);
    let gid = first_group(&layout);
    let new_gid = layout.split_group(&mut ids, gid, SplitDirection::Vertical, PanelType::AudioMixer, false);
    assert!(new_gid.is_some());
    assert_eq!(layout.groups.len(), 2);
}

#[test]
fn remove_group_collapses_parent() {
    let mut ids = LayoutIds::new();
    let mut layout = DockLayout::new_single(&mut ids, PanelType::Preview);
    let original_gid = first_group(&layout);
    let new_gid = layout
        .split_group(&mut ids, original_gid, SplitDirection::Vertical, PanelType::AudioMixer, false)
        .unwrap();
    assert!(layout.remove_group_from_grid(new_gid));
    assert_eq!(layout.groups.len(), 1);
    assert!(matches!(layout.node(layout.root_id()), Some(SplitNode::Leaf { .. })));
}

#[test]
fn cannot_remove_root_leaf_group() {
    let mut ids = LayoutIds::new();
    let mut layout = DockLayout::new_single(&mut ids, PanelType::Preview);
    let gid = first_group(&layout);
    assert!(!layout.remove_group_from_grid(gid));
}

#[test]
fn update_floating_geometry() {
    let mut ids = LayoutIds::new();
    let mut layout = DockLayout::default_layout(&mut ids);
    let entry = TabEntry { panel_id: PanelId::next(&mut ids.panels), panel_type: PanelType::AudioMixer };
    let gid = layout.add_floating_group(&mut ids.groups, entry, FloatPos { x: 100, y: 100 });
    layout.update_floating_geometry(gid, FloatPos { x: 200, y: 300 }, FloatSize { width: 500, height: 400 });
    let fg = layout.floating.iter().find(|f| f.group_id == gid).unwrap();
    assert_eq!(fg.pos, FloatPos { x: 200, y: 300 });
    assert_eq!(fg.size, FloatSize { width: 500, height: 400 });
}

#[test]
fn floating_group_lifecycle() {
    let mut ids = LayoutIds::new();
    let mut layout = DockLayout::new_single(&mut ids, PanelType::Preview);
    let entry = TabEntry { panel_id: PanelId::next(&mut ids.panels), panel_type: PanelType::AudioMixer };
    let fgid = layout.add_floating_group(&mut ids.groups, entry, FloatPos { x: 100, y: 100 });
    assert!(layout.is_floating(fgid));
    assert_eq!(layout.floating.len(), 1);
    layout.remove_floating(fgid);
    assert!(!layout.is_floating(fgid));
    assert_eq!(layout.floating.len(), 0);
}

#[test]
fn take_tab_from_multi_tab_group() {
    let mut ids = LayoutIds::new();
    let mut layout = DockLayout::new_single(&mut ids, PanelType::Preview);
    let gid = first_group(&layout);
    layout.groups.get_mut(&gid.0).unwrap().add_tab(&mut ids.panels, PanelType::AudioMixer);
    assert_eq!(layout.groups[&gid.0].tabs.len(), 2);
    let taken = layout.take_tab(gid, 1);
    assert!(taken.is_some());
    assert_eq!(taken.unwrap().panel_type, PanelType::AudioMixer);
    assert_eq!(layout.groups[&gid.0].tabs.len(), 1);
}

#[test]
fn take_last_tab_removes_floating_group() {
    let mut ids = LayoutIds::new();
    let mut layout = DockLayout::new_single(&mut ids, PanelType::Preview);
    let entry = TabEntry { panel_id: PanelId::next(&mut ids.panels), panel_type: PanelType::AudioMixer };
    let fgid = layout.add_floating_group(&mut ids.groups, entry, FloatPos { x: 100, y: 100 });
    assert_eq!(layout.groups.len(), 2);
    let taken = layout.take_tab(fgid, 0);
    assert!(taken.is_some());
    assert_eq!(layout.groups.len(), 1);
    assert_eq!(layout.floating.len(), 0);
}

#[test]
fn take_last_tab_removes_grid_group() {
    let mut ids = LayoutIds::new();
    let mut layout = DockLayout::new_single(&mut ids, PanelType::Preview);
    let original_gid = first_group(&layout);
    let new_gid = layout
        .split_group(&mut ids, original_gid, SplitDirection::Vertical, PanelType::AudioMixer, false)
        .unwrap();
    assert_eq!(layout.groups.len(), 2);
    let taken = layout.take_tab(new_gid, 0);
    assert!(taken.is_some());
    assert_eq!(layout.groups.len(), 1);
    assert!(matches!(layout.node(layout.root_id()), Some(SplitNode::Leaf { .. })));
}

#[test]
fn insert_at_root_adds_group() {
    let mut ids = LayoutIds::new();
    let mut layout = DockLayout::new_single(&mut ids, PanelType::Preview);
    assert_eq!(layout.groups.len(), 1);
    let panel_id = PanelId::next(&mut ids.panels);
    layout.insert_at_root(&mut ids.groups, PanelType::AudioMixer, panel_id, SplitDirection::Vertical, SplitRatio::half());
    assert_eq!(layout.groups.len(), 2);
    assert!(matches!(layout.node(layout.root_id()), Some(SplitNode::Split { .. })));
}

// ── Further cases ───────────────────────────────────────────────────────────

#[test]
fn set_counter_only_raises() {
    let mut counter = IdCounter::new();
    PanelId::set_counter(&mut counter, 10);
    assert_eq!(PanelId::next(&mut counter), PanelId(10));
    PanelId::set_counter(&mut counter, 3);
    assert_eq!(PanelId::next(&mut counter), PanelId(11));
    GroupId::set_counter(&mut counter, 20);
    assert_eq!(GroupId::next(&mut counter), GroupId(20));
}

#[test]
fn split_then_remove_restores_single_leaf() {
    let mut ids = LayoutIds::new();
    let mut layout = DockLayout::new_single(&mut ids, PanelType::Preview);
    let gid = first_group(&layout);
    let root_before = layout.node(layout.root_id());
    let new_gid = layout.split_group(&mut ids, gid, SplitDirection::Horizontal, PanelType::Scenes, true).unwrap();
    assert_eq!(layout.find_node_for_group(new_gid).is_some(), true);
    assert!(layout.remove_group_from_grid(new_gid));
    assert_eq!(layout.node(layout.root_id()), root_before);
    assert!(layout.find_node_for_group(new_gid).is_none());
}

#[test]
fn resize_clamps_ratio() {
    let mut ids = LayoutIds::new();
    let mut layout = DockLayout::new_single(&mut ids, PanelType::Preview);
    let gid = first_group(&layout);
    layout.split_group(&mut ids, gid, SplitDirection::Vertical, PanelType::Scenes, false).unwrap();
    let root = layout.root_id();
    layout.resize(root, SplitRatio(9900));
    match layout.node(root) {
        Some(SplitNode::Split { ratio, .. }) => assert_eq!(ratio, SplitRatio(SplitRatio::MAX_DRAG)),
        other => panic!("unexpected root {:?}", other),
    }
    layout.resize(root, SplitRatio(0));
    match layout.node(root) {
        Some(SplitNode::Split { ratio, .. }) => assert_eq!(ratio, SplitRatio(SplitRatio::MIN_DRAG)),
        other => panic!("unexpected root {:?}", other),
    }
}

#[test]
fn detach_and_reinsert_group() {
    let mut ids = LayoutIds::new();
    let mut layout = DockLayout::new_single(&mut ids, PanelType::Preview);
    let gid = first_group(&layout);
    let new_gid = layout.split_group(&mut ids, gid, SplitDirection::Vertical, PanelType::Scenes, false).unwrap();
    assert!(layout.detach_grid_group_to_floating(new_gid, FloatPos { x: 5, y: 6 }));
    assert!(layout.is_floating(new_gid));
    assert!(layout.find_node_for_group(new_gid).is_none());
    layout.insert_floating_into_grid(new_gid);
    assert!(!layout.is_floating(new_gid));
    assert!(layout.find_node_for_group(new_gid).is_some());
    assert_eq!(layout.groups.len(), 2);
}

#[test]
fn panel_display_names() {
    assert_eq!(PanelType::AudioMixer.display_name(), "Audio");
    assert_eq!(PanelType::SceneEditor.display_name(), "Sources");
    assert_eq!(PanelType::StreamControls.display_name(), "Stream Controls");
}

#[test]
fn from_parts_keeps_the_parts() {
    let mut nodes = std::collections::HashMap::new();
    nodes.insert(3, SplitNode::Leaf { group_id: GroupId(7) });
    let mut groups = std::collections::HashMap::new();
    groups.insert(7, Group::new_with_ids(GroupId(7), PanelId(9), PanelType::Scenes));
    let layout = DockLayout::from_parts(nodes, NodeId(3), 4, groups, Vec::new());
    assert_eq!(layout.root_id(), NodeId(3));
    assert_eq!(layout.node(NodeId(3)), Some(SplitNode::Leaf { group_id: GroupId(7) }));
    assert_eq!(layout.find_node_for_group(GroupId(7)), Some(NodeId(3)));
    assert!(layout.drag.is_none());
    assert!(!layout.is_floating(GroupId(7)));
}

#[test]
fn split_group_with_tab_places_the_tab_first() {
    let mut ids = LayoutIds::new();
    let mut layout = DockLayout::new_single(&mut ids, PanelType::Preview);
    let gid = first_group(&layout);
    let entry = TabEntry { panel_id: PanelId(77), panel_type: PanelType::Scenes };
    let new_gid = layout
        .split_group_with_tab(&mut ids.groups, gid, SplitDirection::Horizontal, entry, true)
        .unwrap();
    assert_eq!(layout.groups[&new_gid.0].tabs, vec![entry]);
    match layout.node(layout.root_id()) {
        Some(SplitNode::Split { direction, ratio, first, second }) => {
            assert_eq!(direction, SplitDirection::Horizontal);
            assert_eq!(ratio, SplitRatio(5000));
            assert_eq!(layout.node(first), Some(SplitNode::Leaf { group_id: new_gid }));
            assert_eq!(layout.node(second), Some(SplitNode::Leaf { group_id: gid }));
        }
        other => panic!("expected a split at the root, got {other:?}"),
    }
    assert!(layout.split_group_with_tab(&mut ids.groups, GroupId(999), SplitDirection::Vertical, entry, false).is_none());
}

#[test]
fn group_tab_insertion_and_active_entry() {
    let mut group = Group::new_with_ids(GroupId(1), PanelId(1), PanelType::Preview);
    let a = TabEntry { panel_id: PanelId(2), panel_type: PanelType::Scenes };
    let b = TabEntry { panel_id: PanelId(3), panel_type: PanelType::Library };
    group.add_tab_entry(a);
    assert_eq!(group.active_tab, 1);
    assert_eq!(*group.active_tab_entry(), a);
    group.insert_tab(0, b);
    assert_eq!(group.active_tab, 0);
    assert_eq!(group.tabs.iter().map(|t| t.panel_id.0).collect::<Vec<_>>(), vec![3, 1, 2]);
    group.insert_tab(99, b);
    assert_eq!(group.active_tab, 3);
    group.active_tab = 10;
    assert_eq!(group.active_tab_entry().panel_id, PanelId(3));
}

#[test]
fn last_tab_of_the_whole_tree_is_handed_out_and_kept() {
    let mut ids = LayoutIds::new();
    let mut layout = DockLayout::new_single(&mut ids, PanelType::Preview);
    let gid = first_group(&layout);
    let before = layout.collect_all_panels();
    let taken = layout.take_tab(gid, 0).unwrap();
    assert_eq!(taken.panel_type, PanelType::Preview);
    // The root group cannot go, so the layout keeps it as it was.
    assert_eq!(layout.collect_all_panels(), before);
    assert_eq!(layout.groups.len(), 1);
}

#[test]
fn taken_tab_leaves_the_layout() {
    let mut ids = LayoutIds::new();
    let mut layout = DockLayout::new_single(&mut ids, PanelType::Preview);
    let gid = first_group(&layout);
    let new_gid = layout
        .split_group(&mut ids, gid, SplitDirection::Vertical, PanelType::AudioMixer, false)
        .unwrap();
    let taken = layout.take_tab(new_gid, 0).unwrap();
    assert!(layout.collect_all_panels().iter().all(|(id, _)| *id != taken.panel_id));
}
