use lodestone::labels::{
    build_resolution_options, describe_audio_input, file_name, title_case_underscore,
    type_section_label, AudioInput, SettingsCategory, SourceType,
};
use lodestone::raster::{
    alpha_blend, draw_glyph_image, generate_browser_placeholder, parse_font_family, FontFamily,
    GlyphContent, GlyphImage,
};
use lodestone::transition::{
    default_transition_from, override_transition_from, resolve_duration_ms, resolve_transition_id,
    TRANSITION_CUT, TRANSITION_FADE,
};

#[test]
fn settings_category_labels() {
    assert_eq!(SettingsCategory::StreamOutput.label(), "Stream / Output");
    assert_eq!(SettingsCategory::General.label(), "General");
}

#[test]
fn type_section_labels() {
    assert_eq!(type_section_label(&SourceType::Display), "Displays");
    assert_eq!(type_section_label(&SourceType::Color), "Colors");
    assert_eq!(type_section_label(&SourceType::Audio), "Audio");
}

#[test]
fn audio_input_descriptions() {
    let d = AudioInput::Device { device_uid: "x".into(), device_name: String::new() };
    assert_eq!(describe_audio_input(&d), ("Device Input".to_string(), "No device selected".to_string()));
    let d = AudioInput::Device { device_uid: "x".into(), device_name: "Mic".into() };
    assert_eq!(describe_audio_input(&d).1, "Mic");
    let f = AudioInput::File { path: "/music/song.mp3".into(), looping: true };
    assert_eq!(describe_audio_input(&f), ("Audio File".to_string(), "song.mp3 · Looping".to_string()));
    let f = AudioInput::File { path: String::new(), looping: false };
    assert_eq!(describe_audio_input(&f).1, "No file selected · Play once");
}

#[test]
fn file_names_follow_path_components() {
    assert_eq!(file_name("a/b.txt"), Some("b.txt".to_string()));
    assert_eq!(file_name("a/b/"), Some("b".to_string()));
    assert_eq!(file_name("foo.txt/."), Some("foo.txt".to_string()));
    assert_eq!(file_name("a/.."), None);
    assert_eq!(file_name("/"), None);
    assert_eq!(file_name(""), None);
}

#[test]
fn title_case_underscore_keeps_rest() {
    assert_eq!(title_case_underscore("corner_radius"), "Corner Radius");
    assert_eq!(title_case_underscore("rgbShift_x"), "RgbShift X");
}

#[test]
fn resolution_options_with_display() {
    let opts = build_resolution_options(Some((1920, 1080)), false);
    let labels: Vec<&str> = opts.iter().map(|o| o.label.as_str()).collect();
    assert_eq!(labels, vec!["1920x1080 (Display)", "2560x1440", "3840x2160"]);
    let opts = build_resolution_options(Some((3360, 1890)), true);
    let values: Vec<&str> = opts.iter().map(|o| o.value.as_str()).collect();
    assert_eq!(values, vec!["1280x720", "1920x1080", "2560x1440", "3360x1890", "3840x2160"]);
    assert_eq!(opts[3].label, "3360x1890 (Display)");
    let opts = build_resolution_options(None, false);
    assert_eq!(opts.len(), 3);
    let opts = build_resolution_options(Some((5000, 3000)), false);
    assert_eq!(opts.last().unwrap().value, "5000x3000");
}

#[test]
fn placeholder_frame() {
    let f = generate_browser_placeholder(0, 2);
    assert_eq!((f.width, f.height), (1, 2));
    assert_eq!(f.data, vec![0x1a, 0x1a, 0x2e, 0xff, 0x1a, 0x1a, 0x2e, 0xff]);
}

#[test]
fn alpha_blend_mixes_channels() {
    let mut px = vec![0, 0, 0, 0, 100, 200, 50, 10];
    alpha_blend(&mut px, 4, &[255, 0, 255, 255], 128);
    assert_eq!(px, vec![0, 0, 0, 0, 177, 99, 152, 128]);
    let mut px = vec![1, 2, 3, 200];
    alpha_blend(&mut px, 0, &[9, 9, 9, 9], 0);
    assert_eq!(px, vec![1, 2, 3, 200]);
}

#[test]
fn mask_glyph_is_drawn_in_its_color() {
    let mut px: Vec<u8> = [10u8, 20, 30, 40].repeat(6);
    let glyph = GlyphImage { left: 0, top: 1, width: 2, height: 1, content: GlyphContent::Mask, data: vec![255, 0] };
    draw_glyph_image(&mut px, 3, 2, &glyph, 1, 1, &[200, 100, 50, 255]);
    let mut expected: Vec<u8> = [10u8, 20, 30, 40].repeat(6);
    expected[4..8].copy_from_slice(&[200, 100, 50, 255]);
    assert_eq!(px, expected);
}

#[test]
fn color_glyph_is_clipped_to_the_frame() {
    let mut px = vec![0u8; 8];
    let glyph = GlyphImage {
        left: 0,
        top: 0,
        width: 2,
        height: 1,
        content: GlyphContent::Color,
        data: vec![10, 20, 30, 128, 1, 2, 3, 255],
    };
    draw_glyph_image(&mut px, 2, 1, &glyph, 1, 0, &[0, 0, 0, 0]);
    assert_eq!(px, vec![0, 0, 0, 0, 5, 10, 15, 128]);
}

#[test]
fn subpixel_glyph_leaves_frame_unchanged() {
    let mut px = vec![7u8; 4];
    let glyph = GlyphImage { left: 0, top: 0, width: 1, height: 1, content: GlyphContent::SubpixelMask, data: vec![255, 255, 255] };
    draw_glyph_image(&mut px, 1, 1, &glyph, 0, 0, &[1, 2, 3, 4]);
    assert_eq!(px, vec![7, 7, 7, 7]);
}

#[test]
fn parse_bundled_families() {
    assert_eq!(parse_font_family("bundled:sans"), FontFamily::SansSerif);
    assert_eq!(parse_font_family("bundled:serif"), FontFamily::Serif);
    assert_eq!(parse_font_family("bundled:mono"), FontFamily::Monospace);
    assert_eq!(parse_font_family("bundled:display"), FontFamily::SansSerif);
}

#[test]
fn parse_system_family() {
    match parse_font_family("system:Helvetica") {
        FontFamily::Name(name) => assert_eq!(name, "Helvetica"),
        _ => panic!("expected FontFamily::Name"),
    }
    assert_eq!(parse_font_family("Menlo"), FontFamily::Name("Menlo".to_string()));
}

#[test]
fn transition_settings_migration() {
    assert_eq!(default_transition_from(Some("wipe".into()), Some("Cut".into())), "wipe");
    assert_eq!(default_transition_from(None, Some("Cut".into())), TRANSITION_CUT);
    assert_eq!(default_transition_from(None, Some("Fade".into())), TRANSITION_FADE);
    assert_eq!(default_transition_from(None, None), TRANSITION_FADE);
    assert_eq!(override_transition_from(None, Some("Fade".into())), Some("fade".to_string()));
    assert_eq!(override_transition_from(None, Some("Dip_To_Color".into())), Some("dip_to_color".to_string()));
    assert_eq!(override_transition_from(Some("x".into()), Some("Cut".into())), Some("x".to_string()));
    assert_eq!(override_transition_from(None, None), None);
}

#[test]
fn transition_resolution_prefers_scene() {
    assert_eq!(resolve_transition_id(&Some(TRANSITION_CUT.to_string()), &TRANSITION_FADE.to_string()), TRANSITION_CUT);
    assert_eq!(resolve_transition_id(&None, &TRANSITION_FADE.to_string()), TRANSITION_FADE);
    assert_eq!(resolve_duration_ms(Some(0), 300), 0);
    assert_eq!(resolve_duration_ms(None, 300), 300);
}
