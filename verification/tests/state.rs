use lodestone::scene::{LibrarySource, Scene, SceneId, SceneSource, SourceId, SourceOverrides};
use lodestone::labels::SourceType;
use lodestone::labels::AudioInput;
use lodestone::scene::{
    scene_diff, ColorFill, PixelSize, SourceProperties, SourceTransform, TextAlignment, WindowCaptureMode,
};
use lodestone::state::{CaptureCommand, SourceDefaults};
use lodestone::state::{AppState, CameraInfo, DisplayInfo};

fn defaults() -> SourceDefaults {
    SourceDefaults {
        text_content: "Text".to_string(),
        font_family: "bundled:sans".to_string(),
        font_size: 4800,
        font_color: [1000, 1000, 1000, 1000],
        transparent: [0, 0, 0, 0],
        padding: 1000,
        color_fill: ColorFill::Solid { color: [1000, 1000, 1000, 1000] },
        audio_input: AudioInput::Device { device_uid: "default".to_string(), device_name: "Default".to_string() },
        browser_width: 1280,
        browser_height: 720,
    }
}

fn library_source(id: SourceId, name: impl Into<String>, source_type: SourceType) -> LibrarySource {
    LibrarySource {
        id,
        name: name.into(),
        source_type,
        properties: SourceProperties::Display { screen_index: 0 },
        folder: None,
        transform: SourceTransform { x: 0, y: 0, width: 1920, height: 1080 },
        native_size: PixelSize { width: 1920, height: 1080 },
        aspect_ratio_locked: false,
        opacity_percent: 100,
        visible: true,
        muted: false,
        volume_percent: 100,
    }
}

#[test]
fn default_app_state() {
    let state = AppState::default();
    assert!(state.scenes.is_empty());
    assert!(!state.undo_stack.can_undo());
    assert!(!state.undo_stack.can_redo());
}

#[test]
fn undo_restores_scene_after_source_removal() {
    let mut state = AppState::default();
    let scene_id = SceneId(1);
    let src_id = SourceId(10);
    state.scenes.push(Scene {
        id: scene_id,
        name: "Test".into(),
        sources: vec![SceneSource { source_id: src_id, overrides: SourceOverrides::default() }],
        pinned: false,
    });
    state.active_scene_id = Some(scene_id);
    state.next_scene_id = 2;
    state.next_source_id = 11;

    // Simulate a frame start, then mutate, then mark dirty.
    state.begin_frame_for_undo();
    state.scenes[0].sources.clear();
    state.mark_dirty();

    assert!(state.scenes[0].sources.is_empty());

    // Undo should restore the source.
    assert!(state.undo());
    assert_eq!(state.scenes[0].sources.len(), 1);
    assert_eq!(state.scenes[0].sources[0].source_id, src_id);

    // Redo should remove it again.
    assert!(state.redo());
    assert!(state.scenes[0].sources.is_empty());
}

#[test]
fn select_source_sets_selection() {
    let mut state = AppState::default();
    let id = SourceId(42);
    state.select_source(id);
    assert!(state.is_source_selected(id));
    assert_eq!(state.primary_selected_id, Some(id));
    assert_eq!(state.selected_source_ids.len(), 1);
}

#[test]
fn select_source_replaces_previous_selection() {
    let mut state = AppState::default();
    let a = SourceId(1);
    let b = SourceId(2);
    state.select_source(a);
    state.select_source(b);
    assert!(!state.is_source_selected(a));
    assert!(state.is_source_selected(b));
    assert_eq!(state.primary_selected_id, Some(b));
}

#[test]
fn deselect_all_clears_selection() {
    let mut state = AppState::default();
    state.select_source(SourceId(1));
    state.deselect_all();
    assert!(state.selected_source_ids.is_empty());
    assert_eq!(state.primary_selected_id, None);
}

#[test]
fn toggle_source_selection_adds_and_removes() {
    let mut state = AppState::default();
    let a = SourceId(10);
    let b = SourceId(20);

    // Toggle in two sources.
    state.toggle_source_selection(a);
    state.toggle_source_selection(b);
    assert!(state.is_source_selected(a));
    assert!(state.is_source_selected(b));
    assert_eq!(state.primary_selected_id, Some(b));

    // Toggle b out — primary should fall back to a.
    state.toggle_source_selection(b);
    assert!(!state.is_source_selected(b));
    assert!(state.is_source_selected(a));
    assert_eq!(state.primary_selected_id, Some(a));
}

#[test]
fn is_source_selected_returns_false_when_empty() {
    let state = AppState::default();
    assert!(!state.is_source_selected(SourceId(99)));
}

// ── Further cases ───────────────────────────────────────────────────────────

fn scene(id: u64, name: &str, sources: &[u64]) -> Scene {
    Scene {
        id: SceneId(id),
        name: name.to_string(),
        sources: sources
            .iter()
            .map(|s| SceneSource { source_id: SourceId(*s), overrides: SourceOverrides::default() })
            .collect(),
        pinned: false,
    }
}

#[test]
fn undo_drops_selection_of_vanished_sources() {
    let mut state = AppState::default();
    state.scenes.push(scene(1, "Main", &[1]));
    state.active_scene_id = Some(SceneId(1));
    state.begin_frame_for_undo();
    state.scenes[0].sources.push(SceneSource { source_id: SourceId(2), overrides: SourceOverrides::default() });
    state.mark_dirty();
    state.select_source(SourceId(1));
    state.toggle_source_selection(SourceId(2));
    assert_eq!(state.primary_selected_id, Some(SourceId(2)));
    assert!(state.undo());
    assert_eq!(state.selected_source_ids, vec![SourceId(1)]);
    assert_eq!(state.primary_selected_id, Some(SourceId(1)));
}

#[test]
fn undo_clears_missing_library_selection() {
    let mut state = AppState::default();
    state.begin_frame_for_undo();
    state.library.push(library_source(SourceId(5), "Cam", SourceType::Camera));
    state.mark_dirty();
    state.selected_library_source_id = Some(SourceId(5));
    assert!(state.find_library_source(SourceId(5)).is_some());
    assert!(state.undo());
    assert!(state.library.is_empty());
    assert_eq!(state.selected_library_source_id, None);
}

#[test]
fn undo_and_redo_without_history_do_nothing() {
    let mut state = AppState::default();
    assert!(!state.undo());
    assert!(!state.redo());
    assert!(!state.scenes_dirty);
}

#[test]
fn history_is_capped_at_fifty() {
    let mut state = AppState::default();
    for i in 0..60u64 {
        state.begin_frame_for_undo();
        state.next_scene_id = i + 2;
        state.mark_dirty();
    }
    assert_eq!(state.undo_stack.undo.len(), 50);
    let mut undone = 0;
    while state.undo() {
        undone += 1;
    }
    assert_eq!(undone, 50);
    assert_eq!(state.undo_stack.redo.len(), 50);
    assert_eq!(state.next_scene_id, 11);
}

#[test]
fn continuous_edit_records_once() {
    let mut state = AppState::default();
    state.begin_frame_for_undo();
    state.begin_continuous_edit();
    state.next_scene_id = 5;
    state.mark_dirty();
    state.begin_frame_for_undo();
    state.next_scene_id = 6;
    state.mark_dirty();
    state.end_continuous_edit();
    assert_eq!(state.undo_stack.undo.len(), 1);
    assert!(state.undo());
    assert_eq!(state.next_scene_id, 1);
}

#[test]
fn mark_dirty_outside_frame_records_current_state() {
    let mut state = AppState::default();
    state.mark_dirty();
    assert_eq!(state.undo_stack.undo.len(), 1);
    state.mark_dirty();
    assert_eq!(state.undo_stack.undo.len(), 1);
}

#[test]
fn usage_counts_and_names() {
    let mut state = AppState::default();
    state.scenes.push(scene(1, "One", &[1, 2]));
    state.scenes.push(scene(2, "Two", &[2]));
    state.scenes.push(scene(3, "Three", &[3]));
    assert_eq!(state.source_usage_count(SourceId(2)), 2);
    assert_eq!(state.source_usage_count(SourceId(4)), 0);
    assert_eq!(state.scenes_using_source(SourceId(2)), vec!["One".to_string(), "Two".to_string()]);
    state.active_scene_id = Some(SceneId(2));
    assert_eq!(state.active_scene().unwrap().name, "Two");
    assert_eq!(state.selected_source_id(), None);
}

#[test]
fn find_library_source_mut_changes_in_place() {
    let mut state = AppState::default();
    state.library.push(library_source(SourceId(1), "Camera", SourceType::Camera));
    state.library.push(library_source(SourceId(2), "Mic", SourceType::Camera));
    state.library.push(library_source(SourceId(2), "Second", SourceType::Camera));
    state.find_library_source_mut(SourceId(2)).unwrap().name = "Microphone".into();
    assert_eq!(state.library[1].name, "Microphone");
    assert_eq!(state.library[2].name, "Second");
    assert_eq!(state.find_library_source(SourceId(2)).unwrap().name, "Microphone");
    assert!(state.find_library_source_mut(SourceId(9)).is_none());
}

#[test]
fn active_scene_mut_changes_the_active_scene() {
    let mut state = AppState::default();
    assert!(state.active_scene_mut().is_none());
    state.scenes.push(Scene { id: SceneId(1), name: "One".into(), sources: vec![], pinned: false });
    state.scenes.push(Scene { id: SceneId(2), name: "Two".into(), sources: vec![], pinned: false });
    state.active_scene_id = Some(SceneId(2));
    state.active_scene_mut().unwrap().pinned = true;
    assert!(state.scenes[1].pinned);
    assert!(!state.scenes[0].pinned);
    state.active_scene_id = Some(SceneId(7));
    assert!(state.active_scene_mut().is_none());
}

#[test]
fn delete_source_cascade_removes_it_everywhere() {
    let mut state = AppState::default();
    let keep = SourceId(1);
    let gone = SourceId(2);
    let placed = |id| SceneSource { source_id: id, overrides: SourceOverrides::default() };
    state.library.push(library_source(keep, "Camera", SourceType::Camera));
    state.library.push(library_source(gone, "Mic", SourceType::Camera));
    state.scenes.push(Scene { id: SceneId(1), name: "A".into(), sources: vec![placed(gone), placed(keep)], pinned: false });
    state.scenes.push(Scene { id: SceneId(2), name: "B".into(), sources: vec![placed(gone)], pinned: true });
    state.active_scene_id = Some(SceneId(1));
    state.select_source(gone);
    state.selected_library_source_id = Some(gone);

    state.delete_source_cascade(gone);

    assert_eq!(state.library.len(), 1);
    assert_eq!(state.library[0].id, keep);
    assert_eq!(state.scenes[0].source_ids(), vec![keep]);
    assert!(state.scenes[1].sources.is_empty());
    assert!(state.scenes[1].pinned);
    assert_eq!(state.primary_selected_id, None);
    assert!(state.selected_source_ids.is_empty());
    assert_eq!(state.selected_library_source_id, None);
    assert!(state.scenes_dirty);
    // The deletion is recorded for undo.
    assert!(state.undo_stack.can_undo());
}

#[test]
fn add_library_source_numbers_by_type() {
    let mut state = AppState::default();
    state.next_source_id = 10;
    state.library.push(library_source(SourceId(3), "Camera 1", SourceType::Camera));
    state.library.push(library_source(SourceId(4), "Mic", SourceType::Audio));
    let id = state.add_library_source(SourceType::Camera, &defaults());
    assert_eq!(id, SourceId(10));
    assert_eq!(state.next_source_id, 11);
    let added = state.library.last().unwrap();
    assert_eq!(added.id, id);
    assert_eq!(added.name, "Camera 2");
    assert_eq!(added.source_type, SourceType::Camera);
    assert_eq!(state.selected_library_source_id, Some(id));
    let text = state.add_library_source(SourceType::Text, &defaults());
    assert_eq!(state.find_library_source(text).unwrap().name, "Text 1");
    assert!(state.scenes_dirty);
}

fn mixed_scene_state() -> AppState {
    let mut state = AppState::default();
    let placed = |id| SceneSource { source_id: SourceId(id), overrides: SourceOverrides::default() };
    state.library.push(library_source(SourceId(1), "Camera 1", SourceType::Camera));
    state.library.push(library_source(SourceId(2), "Audio 1", SourceType::Audio));
    state.library.push(library_source(SourceId(3), "Text 1", SourceType::Text));
    state.library.push(library_source(SourceId(4), "Audio 2", SourceType::Audio));
    state.scenes.push(Scene {
        id: SceneId(1),
        name: "Main".into(),
        sources: vec![placed(4), placed(1), placed(2), placed(3), placed(9)],
        pinned: false,
    });
    state.active_scene_id = Some(SceneId(1));
    state
}

#[test]
fn active_scene_audio_sources_in_scene_order() {
    let mut state = mixed_scene_state();
    assert_eq!(state.active_scene_audio_source_ids(), vec![SourceId(4), SourceId(2)]);
    state.active_scene_id = None;
    assert!(state.active_scene_audio_source_ids().is_empty());
}

#[test]
fn remove_source_from_scene_reports_capture_stops() {
    let mut state = mixed_scene_state();
    state.select_source(SourceId(2));
    let stops = state.remove_source_from_scene(SceneId(1), SourceId(2));
    assert!(stops.stop_source);
    assert!(!stops.stop_all);
    assert!(state.capture_active);
    assert_eq!(state.primary_selected_id, None);
    assert_eq!(state.library.len(), 4);
    assert_eq!(state.scenes[0].source_ids(), vec![SourceId(4), SourceId(1), SourceId(3), SourceId(9)]);

    let stops = state.remove_source_from_scene(SceneId(1), SourceId(3));
    assert!(!stops.stop_source);
    for id in [4, 1, 9] {
        state.remove_source_from_scene(SceneId(1), SourceId(id));
    }
    assert!(state.scenes[0].sources.is_empty());
    assert!(!state.capture_active);
    let stops = state.remove_source_from_scene(SceneId(1), SourceId(1));
    assert!(stops.stop_all);
}

#[test]
fn add_library_source_defaults() {
    let mut state = AppState::default();
    state.available_displays.push(DisplayInfo { index: 1, width: 800, height: 600 });
    state.available_displays.push(DisplayInfo { index: 0, width: 2560, height: 1440 });
    let id = state.add_library_source(SourceType::Display, &defaults());
    let s = state.find_library_source(id).unwrap();
    assert!(s.visible);
    assert!(!s.muted);
    assert!(!s.aspect_ratio_locked);
    assert_eq!(s.opacity_percent, 100);
    assert_eq!(s.volume_percent, 100);
    assert!(s.folder.is_none());
    assert_eq!(s.native_size, PixelSize { width: 2560, height: 1440 });
    assert_eq!(s.transform, SourceTransform { x: 0, y: 0, width: 2560, height: 1440 });
    assert!(matches!(s.properties, SourceProperties::Display { screen_index: 0 }));

    let cam = state.add_library_source(SourceType::Camera, &defaults());
    let s = state.find_library_source(cam).unwrap();
    assert_eq!(s.native_size, PixelSize { width: 1920, height: 1080 });
    assert!(matches!(&s.properties, SourceProperties::Camera { device_index: 0, device_name } if device_name.is_empty()));

    state.available_cameras.push(CameraInfo { device_index: 0, width: 1280, height: 720 });
    let cam2 = state.add_library_source(SourceType::Camera, &defaults());
    assert_eq!(state.find_library_source(cam2).unwrap().native_size, PixelSize { width: 1280, height: 720 });
    assert_eq!(state.find_library_source(cam2).unwrap().name, "Camera 2");

    let win = state.add_library_source(SourceType::Window, &defaults());
    assert!(matches!(
        state.find_library_source(win).unwrap().properties,
        SourceProperties::Window { mode: WindowCaptureMode::AnyFullscreen, current_window_id: None }
    ));

    let text = state.add_library_source(SourceType::Text, &defaults());
    match &state.find_library_source(text).unwrap().properties {
        SourceProperties::Text { text } => {
            assert_eq!(text.content, "Text");
            assert_eq!(text.font_size, 4800);
            assert_eq!(text.alignment, TextAlignment::Left);
            assert!(!text.bold && !text.italic && text.outline.is_none() && text.wrap_width.is_none());
        }
        _ => panic!("expected text settings"),
    }
    let browser = state.add_library_source(SourceType::Browser, &defaults());
    let b = state.find_library_source(browser).unwrap();
    assert_eq!(b.native_size, PixelSize { width: 1280, height: 720 });
    assert_eq!(b.transform, SourceTransform { x: 0, y: 0, width: 1920, height: 1080 });
    assert!(matches!(&b.properties, SourceProperties::Browser { url, width: 1280, height: 720 } if url.is_empty()));
    let audio = state.add_library_source(SourceType::Audio, &defaults());
    assert!(matches!(
        &state.find_library_source(audio).unwrap().properties,
        SourceProperties::Audio { input: AudioInput::Device { device_uid, .. } } if device_uid == "default"
    ));
}

#[test]
fn scene_rename_commit_trims_and_ignores_empty() {
    let mut state = AppState::default();
    state.scenes.push(Scene { id: SceneId(1), name: "Old".into(), sources: vec![], pinned: false });
    state.renaming_scene_id = Some(SceneId(1));
    state.rename_buffer = "  New name ".into();
    state.commit_scene_rename(SceneId(1));
    assert_eq!(state.scenes[0].name, "New name");
    assert_eq!(state.renaming_scene_id, None);
    assert!(state.scenes_dirty);

    let mut state = AppState::default();
    state.scenes.push(Scene { id: SceneId(1), name: "Old".into(), sources: vec![], pinned: false });
    state.renaming_scene_id = Some(SceneId(1));
    state.rename_buffer = "   ".into();
    state.commit_scene_rename(SceneId(1));
    assert_eq!(state.scenes[0].name, "Old");
    assert_eq!(state.renaming_scene_id, None);
    assert!(!state.scenes_dirty);
}

#[test]
fn scene_diff_lists_sources_to_stop_and_start() {
    let placed = |id| SceneSource { source_id: SourceId(id), overrides: SourceOverrides::default() };
    let a = Scene { id: SceneId(1), name: "A".into(), sources: vec![placed(1), placed(2), placed(2), placed(3)], pinned: false };
    let b = Scene { id: SceneId(2), name: "B".into(), sources: vec![placed(3), placed(4), placed(4)], pinned: false };
    let (stop, start) = scene_diff(Some(&a), Some(&b));
    assert_eq!(stop, vec![SourceId(1), SourceId(2)]);
    assert_eq!(start, vec![SourceId(4)]);
    let (stop, start) = scene_diff(None, Some(&a));
    assert!(stop.is_empty());
    assert_eq!(start, vec![SourceId(1), SourceId(2), SourceId(3)]);
}

#[test]
fn scene_switch_commands_stop_then_start() {
    let mut state = AppState::default();
    let placed = |id| SceneSource { source_id: SourceId(id), overrides: SourceOverrides::default() };
    let mut display = library_source(SourceId(1), "Display 1", SourceType::Display);
    display.properties = SourceProperties::Display { screen_index: 2 };
    let mut mic = library_source(SourceId(2), "Mic", SourceType::Audio);
    mic.properties = SourceProperties::Audio { input: AudioInput::File { path: "a.wav".into(), looping: true } };
    let mut text = library_source(SourceId(3), "Text 1", SourceType::Text);
    text.properties = SourceProperties::Color { fill: ColorFill::Solid { color: [0, 0, 0, 1000] } };
    let mut image = library_source(SourceId(4), "Image 1", SourceType::Image);
    image.properties = SourceProperties::Image { path: String::new(), loop_mode: None };
    state.library = vec![display, mic, text, image];
    let old = Scene { id: SceneId(1), name: "A".into(), sources: vec![placed(5), placed(3)], pinned: false };
    let new = Scene { id: SceneId(2), name: "B".into(), sources: vec![placed(1), placed(2), placed(3), placed(4)], pinned: false };
    let cmds = state.scene_switch_commands(Some(&old), Some(&new), true);
    assert_eq!(cmds.len(), 3);
    assert!(matches!(cmds[0], CaptureCommand::RemoveCaptureSource { source_id: SourceId(5) }));
    assert!(matches!(cmds[1], CaptureCommand::CaptureScreen { source_id: SourceId(1), screen_index: 2, exclude_self: true }));
    assert!(matches!(&cmds[2], CaptureCommand::CaptureAudioFile { source_id: SourceId(2), path, looping: true } if path == "a.wav"));
}
