use lodestone::settings::{
    config_dir, default_grid_color, default_guide_color, hotkey_actions, join_path,
    effects_dir, output_folder_from, resolution_string, scenes_path, settings_path, transitions_dir, AdvancedSettings, AppearanceSettings,
    AudioSettings, EncoderType, FontScale, HotkeyBinding, HotkeySettings, KeyModifiers, KeyPlatform,
    QualityPreset, RecordSettings, RecordingFormat, StreamDestination, StreamSettings, ThemeId,
    UiSettings, VideoSettings,
};

#[test]
fn record_settings_default() {
    let settings = RecordSettings::default();
    assert_eq!(settings.format, RecordingFormat::Mkv);
    assert_eq!(settings.filename_template, "{date}_{time}_{scene}");
    assert_eq!(settings.quality_preset, QualityPreset::High);
    assert_eq!(settings.fps, 30);
}

#[test]
fn hotkey_binding_parse_display_roundtrip() {
    let binding = HotkeyBinding::parse("Ctrl+Shift+W");
    assert!(binding.ctrl);
    assert!(binding.shift);
    assert!(!binding.alt);
    assert!(!binding.super_key);
    assert_eq!(binding.key, "W");
    assert_eq!(binding.display(KeyPlatform::Other), "Ctrl+Shift+W");
}

#[test]
fn hotkey_binding_parse_single_key() {
    let binding = HotkeyBinding::parse("F5");
    assert!(!binding.ctrl);
    assert!(!binding.shift);
    assert_eq!(binding.key, "F5");
    assert_eq!(binding.display(KeyPlatform::Other), "F5");
}

#[test]
fn hotkey_binding_empty_is_unset() {
    let binding = HotkeyBinding::parse("");
    assert!(!binding.is_set());
    assert_eq!(binding.display(KeyPlatform::Other), "");
}

#[test]
fn hotkey_settings_default_has_capture_foreground() {
    let settings = HotkeySettings::default();
    let binding = settings.get("capture_foreground_window");
    assert!(binding.is_some());
    assert_eq!(binding.unwrap().display(KeyPlatform::Other), "Ctrl+Shift+W");
}

#[test]
fn filename_template_basic_expansion() {
    let result = RecordSettings::expand_template("{date}_{time}_{scene}", "Gaming", 1);
    assert!(result.contains("Gaming"));
    assert!(result.contains('_'));
    assert!(!result.contains('{'));
}

#[test]
fn filename_template_scene_sanitization() {
    let result = RecordSettings::expand_template("{scene}", "My Scene/Name", 1);
    assert_eq!(result, "My_Scene_Name");
}

#[test]
fn filename_template_counter() {
    let r1 = RecordSettings::expand_template("{n}", "scene", 1);
    let r3 = RecordSettings::expand_template("{n}", "scene", 3);
    assert_eq!(r1, "1");
    assert_eq!(r3, "3");
}

#[test]
fn transitions_dir_is_inside_config_dir() {
    let td = transitions_dir();
    let cd = config_dir();
    assert!(td.starts_with(&cd));
    assert!(td.ends_with("transitions"));
}

// ── Further cases ───────────────────────────────────────────────────────────

#[test]
fn hotkey_parse_modifier_aliases_and_spaces() {
    let b = HotkeyBinding::parse("  control + OPTION+ cmd +  Space ");
    assert!(b.ctrl);
    assert!(b.alt);
    assert!(b.super_key);
    assert!(!b.shift);
    assert_eq!(b.key, "Space");
    assert_eq!(b.display(KeyPlatform::MacOs), "Ctrl+Alt+Cmd+Space");
    assert_eq!(b.display(KeyPlatform::Other), "Ctrl+Alt+Win+Space");
}

#[test]
fn hotkey_parse_ignores_unknown_modifiers() {
    let b = HotkeyBinding::parse("Hyper+Meta+K");
    assert!(b.super_key);
    assert!(!b.ctrl && !b.alt && !b.shift);
    assert_eq!(b.key, "K");
}

#[test]
fn hotkey_parse_trailing_plus_gives_empty_key() {
    let b = HotkeyBinding::parse("Ctrl+");
    assert!(b.ctrl);
    assert!(!b.is_set());
    assert_eq!(b.display(KeyPlatform::Other), "");
}

#[test]
fn hotkey_display_parse_roundtrip_all_modifiers() {
    let b = HotkeyBinding {
        ctrl: true,
        shift: true,
        alt: true,
        super_key: true,
        key: "F12".to_string(),
    };
    let text = b.display(KeyPlatform::MacOs);
    assert_eq!(text, "Ctrl+Alt+Shift+Cmd+F12");
    assert_eq!(HotkeyBinding::parse(&text), b);
    let text = b.display(KeyPlatform::Other);
    assert_eq!(text, "Ctrl+Alt+Shift+Win+F12");
    assert_eq!(HotkeyBinding::parse(&text), b);
}

#[test]
fn hotkey_matches_key_name_without_case() {
    let b = HotkeyBinding::parse("Ctrl+Shift+W");
    let mods = KeyModifiers { control: true, shift: true, alt: false, super_key: false };
    assert!(b.matches(Some("w"), &mods));
    assert!(b.matches(Some("W"), &mods));
    assert!(!b.matches(Some("Q"), &mods));
    assert!(!b.matches(None, &mods));
    let no_shift = KeyModifiers { control: true, shift: false, alt: false, super_key: false };
    assert!(!b.matches(Some("W"), &no_shift));
    assert!(!HotkeyBinding::none().matches(Some("W"), &mods));
}

#[test]
fn hotkey_from_key_event() {
    let mods = KeyModifiers { control: false, shift: true, alt: true, super_key: false };
    let b = HotkeyBinding::from_key_event(Some("F5".to_string()), &mods).unwrap();
    assert!(b.shift && b.alt && !b.ctrl && !b.super_key);
    assert_eq!(b.key, "F5");
    assert!(HotkeyBinding::from_key_event(None, &mods).is_none());
}

#[test]
fn hotkey_settings_unbound_actions_are_none() {
    let settings = HotkeySettings::default();
    assert_eq!(settings.bindings.len(), hotkey_actions().len());
    assert!(settings.get("start_streaming").is_none());
    assert!(settings.get("no_such_action").is_none());
}

#[test]
fn hotkey_settings_set_replaces_binding() {
    let mut settings = HotkeySettings::default();
    settings.set("start_streaming", HotkeyBinding::parse("F9"));
    assert_eq!(settings.get("start_streaming").unwrap().display(KeyPlatform::Other), "F9");
    settings.set("start_streaming", HotkeyBinding::parse("F10"));
    assert_eq!(settings.get("start_streaming").unwrap().display(KeyPlatform::Other), "F10");
    assert_eq!(settings.bindings.len(), hotkey_actions().len());
    settings.set("custom", HotkeyBinding::parse("Alt+1"));
    assert_eq!(settings.bindings.len(), hotkey_actions().len() + 1);
    assert_eq!(settings.get("custom").unwrap().display(KeyPlatform::Other), "Alt+1");
}

#[test]
fn font_scale_labels_in_order() {
    let labels: Vec<&str> = FontScale::all().iter().map(|f| f.label()).collect();
    assert_eq!(labels, vec!["XS", "S", "M", "L", "XL"]);
    assert_eq!(FontScale::default(), FontScale::M);
}

#[test]
fn settings_defaults() {
    let ui = UiSettings::default();
    assert!(ui.scene_panel_open && ui.mixer_panel_open && ui.controls_panel_open);
    assert_eq!(ui.library_view, "type");
    assert_eq!(ui.library_display_mode, "list");
    let stream = StreamSettings::default();
    assert_eq!(stream.destination, StreamDestination::Twitch);
    assert_eq!(stream.encoder, EncoderType::H264VideoToolbox);
    assert_eq!(stream.quality_preset, QualityPreset::Medium);
    assert_eq!(stream.bitrate_kbps, 4500);
    assert_eq!(stream.fps, 30);
    assert!(stream.stream_key.is_empty());
    let audio = AudioSettings::default();
    assert_eq!(audio.input_device, "Default");
    assert_eq!(audio.sample_rate, 48000);
    assert_eq!(audio.monitoring, "off");
    let video = VideoSettings::default();
    assert_eq!(video.base_resolution, "1920x1080");
    assert_eq!(video.color_space, "sRGB");
    let appearance = AppearanceSettings::default();
    assert_eq!(appearance.theme, ThemeId::DefaultDark);
    assert!(appearance.accent_color.is_none());
    assert_eq!(appearance.font_family, "Default");
    let advanced = AdvancedSettings::default();
    assert_eq!(advanced.process_priority, "normal");
    assert_eq!(advanced.network_buffer_size_kb, 2048);
    assert_eq!(default_grid_color(), [255, 255, 255]);
    assert_eq!(default_guide_color(), [0, 255, 255]);
}

#[test]
fn detected_resolution_sets_both_resolutions() {
    let v = VideoSettings::for_detected_resolution(3360, 1890);
    assert_eq!(v.base_resolution, "3360x1890");
    assert_eq!(v.output_resolution, "3360x1890");
    assert_eq!(resolution_string(0, 7), "0x7");
}

#[test]
fn expand_template_at_replaces_every_token() {
    let r = RecordSettings::expand_template_at("{date}/{time}/{scene}-{n}-{n}", "2024-01-02", "03-04-05", "Über Scene!", 42);
    assert_eq!(r, "2024-01-02/03-04-05/Über_Scene_-42-42");
    let r = RecordSettings::expand_template_at("{dat}{scene", "d", "t", "s", 0);
    assert_eq!(r, "{dat}{scene");
}

#[test]
fn output_folder_fallbacks() {
    assert_eq!(output_folder_from(Some("/v".to_string()), Some("/h".to_string())), "/v");
    assert_eq!(output_folder_from(None, Some("/h".to_string())), "/h");
    assert_eq!(output_folder_from(None, None), ".");
}

#[test]
fn join_path_adds_one_separator() {
    assert_eq!(join_path("/a", "b"), "/a/b");
    assert_eq!(join_path("/a/", "b"), "/a/b");
    assert_eq!(join_path("", "b"), "b");
}

#[test]
fn config_files_sit_in_the_config_dir() {
    let dir = config_dir();
    assert_eq!(settings_path(), format!("{dir}/settings.toml"));
    assert_eq!(scenes_path(), format!("{dir}/scenes.toml"));
    assert_eq!(effects_dir(), format!("{dir}/effects"));
    assert!(dir.ends_with("/lodestone"));
}

#[test]
fn hotkey_binding_serde_roundtrip() {
    // The text a binding is stored as reads back as the same binding.
    let binding = HotkeyBinding::parse("Ctrl+Shift+W");
    let text = binding.display(KeyPlatform::Other);
    assert!(text.contains("Ctrl+Shift+W"));
    assert_eq!(HotkeyBinding::parse(&text), binding);
}

#[test]
fn super_modifier_is_named_per_platform() {
    let b = HotkeyBinding::parse("super+X");
    assert_eq!(b.display(KeyPlatform::Other), "Win+X");
    assert_eq!(b.display(KeyPlatform::MacOs), "Cmd+X");
    assert_eq!(HotkeyBinding::parse("Win+X"), b);
}

#[test]
fn load_or_detect_first_launch_uses_detected_resolution() {
    let video = VideoSettings::for_detected_resolution(3360, 1890);
    assert_eq!(video.base_resolution, "3360x1890");
    assert_eq!(video.output_resolution, "3360x1890");
}

#[test]
fn hotkey_parse_trims_unicode_white_space() {
    let b = HotkeyBinding::parse("\u{3000}Ctrl +\u{2003}K\u{85}");
    assert!(b.ctrl);
    assert_eq!(b.key, "K");
}
