use lodestone::layout::dock::{DockLayout, FloatPos};
use lodestone::layout::serialize::{
    deserialize_full_layout, deserialize_with_detached, serialize_full_layout,
    serialize_with_detached, DetachedEntry, LoadedDocument, LoadedGroup, LoadedTab,
};
use lodestone::layout::shape::SerializedNode;
use lodestone::layout::tree::{
    LayoutIds, PanelId, PanelType, SplitDirection, SplitNode, SplitRatio, TabEntry,
};

fn roundtrip(layout: &DockLayout, detached: &[DetachedEntry]) -> (DockLayout, Vec<DetachedEntry>, LayoutIds) {
    let doc = serialize_full_layout(layout, detached);
    let mut ids = LayoutIds::new();
    let (restored, det) = deserialize_full_layout(LoadedDocument::from_written(doc), &mut ids);
    (restored, det, ids)
}

#[test]
fn roundtrip_single_group() {
    let mut ids = LayoutIds::new();
    let layout = DockLayout::new_single(&mut ids, PanelType::Preview);
    let (restored, detached, _) = roundtrip(&layout, &[]);

    assert!(detached.is_empty());
    assert_eq!(restored.groups.len(), 1);

    let group = restored.groups.values().next().unwrap();
    assert_eq!(group.tabs.len(), 1);
    assert_eq!(group.tabs[0].panel_type, PanelType::Preview);

    // Root should be a leaf.
    assert!(matches!(restored.node(restored.root_id()), Some(SplitNode::Leaf { .. })));
}

#[test]
fn panel_id_preservation() {
    let mut ids = LayoutIds::new();
    let layout = DockLayout::default_layout(&mut ids);
    let original_ids: Vec<u64> = layout.collect_all_panels().iter().map(|(id, _)| id.0).collect();

    let (restored, _, _) = roundtrip(&layout, &[]);

    let restored_ids: Vec<u64> = restored.collect_all_panels().iter().map(|(id, _)| id.0).collect();

    // All original IDs should be present in the restored layout.
    for id in &original_ids {
        assert!(restored_ids.contains(id), "panel id {id} missing after roundtrip");
    }
}

#[test]
fn roundtrip_detached_entries() {
    let mut ids = LayoutIds::new();
    let layout = DockLayout::new_single(&mut ids, PanelType::Preview);
    let detached = vec![DetachedEntry {
        panel: PanelType::StreamControls,
        id: 99,
        group_id: 50,
        x: 100,
        y: 200,
        width: 400,
        height: 300,
    }];

    let (_, restored_detached, _) = roundtrip(&layout, &detached);

    assert_eq!(restored_detached.len(), 1);
    let d = &restored_detached[0];
    assert_eq!(d.id, 99);
    assert_eq!(d.group_id, 50);
    assert!(matches!(d.panel, PanelType::StreamControls));
    assert_eq!(d.x, 100);
    assert_eq!(d.y, 200);
    assert_eq!(d.width, 400);
    assert_eq!(d.height, 300);
}

fn leaf(group_id: u64) -> SerializedNode {
    SerializedNode::Leaf { group_id }
}

fn tab(panel_id: u64, panel_type: Option<PanelType>) -> LoadedTab {
    LoadedTab { panel_id, panel_type }
}

#[test]
fn unknown_panel_type_drops_gracefully() {
    let doc = LoadedDocument {
        tree: leaf(1),
        groups: vec![LoadedGroup { id: 1, active_tab: 0, tabs: vec![tab(1, None), tab(2, Some(PanelType::Preview))] }],
        floating: Vec::new(),
        detached: Vec::new(),
    };
    let mut ids = LayoutIds::new();
    let (layout, _) = deserialize_full_layout(doc, &mut ids);
    let all_panels = layout.collect_all_panels();
    assert_eq!(all_panels.len(), 1);
    assert_eq!(all_panels[0].1, PanelType::Preview);
}

#[test]
fn all_unknown_tabs_group_gets_repaired() {
    let doc = LoadedDocument {
        tree: SerializedNode::Split {
            direction: SplitDirection::Vertical,
            ratio: SplitRatio(5000),
            first: Box::new(leaf(1)),
            second: Box::new(leaf(2)),
        },
        groups: vec![
            LoadedGroup { id: 1, active_tab: 0, tabs: vec![tab(1, Some(PanelType::Preview))] },
            LoadedGroup { id: 2, active_tab: 0, tabs: vec![tab(2, None)] },
        ],
        floating: Vec::new(),
        detached: Vec::new(),
    };
    let mut ids = LayoutIds::new();
    let (layout, _) = deserialize_full_layout(doc, &mut ids);
    // Group 2's tab is unknown, so it gets replaced with a default Preview group
    assert_eq!(layout.groups.len(), 2);
    let all_panels = layout.collect_all_panels();
    assert!(all_panels.iter().all(|(_, t)| *t == PanelType::Preview));
}

#[test]
fn alias_functions_work() {
    let mut ids = LayoutIds::new();
    let layout = DockLayout::new_single(&mut ids, PanelType::Preview);
    let doc = serialize_with_detached(&layout, &[]);
    let mut ids = LayoutIds::new();
    let (restored, _) = deserialize_with_detached(LoadedDocument::from_written(doc), &mut ids);
    assert_eq!(restored.groups.len(), 1);
}

// ── Further cases ───────────────────────────────────────────────────────────

#[test]
fn roundtrip_floating_and_counters() {
    let mut ids = LayoutIds::new();
    let mut layout = DockLayout::new_single(&mut ids, PanelType::Preview);
    let entry = TabEntry { panel_id: PanelId::next(&mut ids.panels), panel_type: PanelType::AudioMixer };
    layout.add_floating_group(&mut ids.groups, entry, FloatPos { x: 100, y: 200 });
    let (restored, _, new_ids) = roundtrip(&layout, &[]);
    assert_eq!(restored.floating.len(), 1);
    let fg = &restored.floating[0];
    assert_eq!(fg.pos, FloatPos { x: 100, y: 200 });
    assert_eq!(fg.size.width, 400);
    assert_eq!(fg.size.height, 300);
    assert!(restored.groups.contains_key(&fg.group_id.0));
    // Counters are raised above every identifier of the document.
    assert_eq!(new_ids.groups.next, ids.groups.next);
    assert_eq!(new_ids.panels.next, ids.panels.next);
}

#[test]
fn roundtrip_keeps_tree_shape_and_active_tabs() {
    let mut ids = LayoutIds::new();
    let mut layout = DockLayout::default_layout(&mut ids);
    let gid = *layout.groups.keys().next().unwrap();
    layout.groups.get_mut(&gid).unwrap().add_tab(&mut ids.panels, PanelType::Library);
    let before = serialize_full_layout(&layout, &[]);
    let (restored, _, _) = roundtrip(&layout, &[]);
    let after = serialize_full_layout(&restored, &[]);
    assert_eq!(format!("{:?}", before.tree), format!("{:?}", after.tree));
    for (k, g) in layout.groups.iter() {
        let r = &restored.groups[k];
        assert_eq!(r.tabs, g.tabs);
        assert_eq!(r.active_tab, g.active_tab);
    }
}

#[test]
fn dangling_floating_entries_are_dropped_and_active_tab_clamped() {
    let doc = LoadedDocument {
        tree: leaf(3),
        groups: vec![LoadedGroup { id: 3, active_tab: 9, tabs: vec![tab(7, Some(PanelType::Scenes)), tab(8, Some(PanelType::Library))] }],
        floating: vec![lodestone::layout::serialize::SerializedFloating { group_id: 42, x: 0, y: 0, width: 1, height: 1 }],
        detached: vec![DetachedEntry { panel: PanelType::Preview, id: 20, group_id: 30, x: 0, y: 0, width: 1, height: 1 }],
    };
    let mut ids = LayoutIds::new();
    let (layout, detached) = deserialize_full_layout(doc, &mut ids);
    assert!(layout.floating.is_empty());
    assert_eq!(layout.groups[&3].active_tab, 1);
    assert_eq!(detached.len(), 1);
    assert_eq!(ids.panels.next, 21);
    assert_eq!(ids.groups.next, 31);
}

#[test]
fn roundtrip_floating_groups() {
    let mut ids = LayoutIds::new();
    let mut layout = DockLayout::new_single(&mut ids, PanelType::Preview);
    let entry = TabEntry { panel_id: PanelId::next(&mut ids.panels), panel_type: PanelType::AudioMixer };
    layout.add_floating_group(&mut ids.groups, entry, FloatPos { x: 100, y: 200 });

    let (restored, _, _) = roundtrip(&layout, &[]);

    assert_eq!(restored.floating.len(), 1);
    let fg = &restored.floating[0];
    assert_eq!(fg.pos.x, 100);
    assert_eq!(fg.pos.y, 200);
    assert_eq!(fg.size.width, 400);
    assert_eq!(fg.size.height, 300);

    // The floating group should exist in the groups map.
    assert!(restored.groups.contains_key(&fg.group_id.0));
}
