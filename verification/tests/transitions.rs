use lodestone::transition::{
    default_transition_from, override_transition_from, resolve_duration_ms, resolve_transition_id,
    transition_duration_from_text, TRANSITION_CUT, TRANSITION_FADE,
};
use lodestone::transition_registry::{parse_header, title_case_stem, TransitionParam, TransitionRegistry};

#[test]
fn title_case_basic() {
    assert_eq!(title_case_stem("radial_wipe"), "Radial Wipe");
}

#[test]
fn title_case_single_word() {
    assert_eq!(title_case_stem("fade"), "Fade");
}

#[test]
fn title_case_already_capitalized() {
    assert_eq!(title_case_stem("Dip_To_Color"), "Dip To Color");
}

#[test]
fn parse_header_full() {
    let src = "// @name: Dip to Color\n// @author: Lodestone\n// @description: Fades through a solid color\n// @params: color, from_color\n\nstruct TransitionUniforms { progress: f32 };\n";
    let (name, author, desc, params, shader_params) = parse_header(src);
    assert_eq!(name, "Dip to Color");
    assert_eq!(author, "Lodestone");
    assert_eq!(desc, "Fades through a solid color");
    assert_eq!(params, vec![TransitionParam::Color, TransitionParam::FromColor]);
    assert!(shader_params.is_empty());
}

#[test]
fn parse_header_partial_no_params() {
    let src = "// @name: Fade\n\nstruct Foo {};";
    let (name, author, desc, params, _) = parse_header(src);
    assert_eq!(name, "Fade");
    assert_eq!(author, "");
    assert_eq!(desc, "");
    assert!(params.is_empty());
}

#[test]
fn parse_header_empty_source() {
    let (name, author, desc, params, shader_params) = parse_header("");
    assert_eq!(name, "");
    assert_eq!(author, "");
    assert_eq!(desc, "");
    assert!(params.is_empty());
    assert!(shader_params.is_empty());
}

#[test]
fn parse_header_no_comment_lines() {
    let src = "struct TransitionUniforms { progress: f32 };";
    let (name, _, _, _, _) = parse_header(src);
    assert_eq!(name, "");
}

#[test]
fn parse_header_all_params() {
    let src = "// @params: color, from_color, to_color\n";
    let (_, _, _, params, _) = parse_header(src);
    assert_eq!(
        params,
        vec![TransitionParam::Color, TransitionParam::FromColor, TransitionParam::ToColor]
    );
}

#[test]
fn parse_header_shader_params() {
    let src = "// @name: Wipe\n// @param: softness 0.02 0.0 0.5\n// @param: angle 0.0 0.0 360.0\n\n@fragment fn fs_main() {}";
    let (name, _, _, _, shader_params) = parse_header(src);
    assert_eq!(name, "Wipe");
    assert_eq!(shader_params.len(), 2);
    assert_eq!(shader_params[0].name, "softness");
    assert!((shader_params[0].default.parse::<f32>().unwrap() - 0.02).abs() < f32::EPSILON);
    assert!((shader_params[0].min.parse::<f32>().unwrap() - 0.0).abs() < f32::EPSILON);
    assert!((shader_params[0].max.parse::<f32>().unwrap() - 0.5).abs() < f32::EPSILON);
    assert_eq!(shader_params[1].name, "angle");
    assert!((shader_params[1].default.parse::<f32>().unwrap() - 0.0).abs() < f32::EPSILON);
}

#[test]
fn registry_scan_empty_dir_has_cut() {
    let reg = TransitionRegistry::from_shader_files(Vec::new());
    assert_eq!(reg.all().len(), 1);
    assert_eq!(reg.all()[0].id, "cut");
}

#[test]
fn registry_scan_finds_wgsl_files() {
    let files = vec![
        ("fade".to_string(), "// @name: Fade\n@fragment fn fs_main() {}\n".to_string()),
        ("wipe".to_string(), "@fragment fn fs_main() {}\n".to_string()),
    ];
    let reg = TransitionRegistry::from_shader_files(files);
    // cut + fade + wipe
    assert_eq!(reg.all().len(), 3);
    assert!(reg.get("fade").is_some());
    assert!(reg.get("wipe").is_some());
    assert_eq!(reg.get("fade").unwrap().name, "Fade");
    assert_eq!(reg.get("wipe").unwrap().name, "Wipe");
}

#[test]
fn registry_cut_always_first() {
    let files = vec![("aaa".to_string(), "@fragment fn fs_main() {}".to_string())];
    let reg = TransitionRegistry::from_shader_files(files);
    assert_eq!(reg.all()[0].id, "cut");
}

#[test]
fn registry_get_missing_returns_none() {
    let reg = TransitionRegistry::from_shader_files(Vec::new());
    assert!(reg.get("nonexistent").is_none());
}

// ── Further cases ───────────────────────────────────────────────────────────

#[test]
fn registry_orders_by_lowercase_name_stably() {
    let files = vec![
        ("z".to_string(), "// @name: beta\n".to_string()),
        ("y".to_string(), "// @name: Alpha\n".to_string()),
        ("x".to_string(), "// @name: BETA\n".to_string()),
        ("w".to_string(), "// @name: Gamma\n".to_string()),
    ];
    let reg = TransitionRegistry::from_shader_files(files);
    let ids: Vec<&str> = reg.all().iter().map(|t| t.id.as_str()).collect();
    assert_eq!(ids, vec!["cut", "y", "z", "x", "w"]);
}

#[test]
fn registry_rescan_detects_changes() {
    let files = || vec![("fade".to_string(), "// @name: Fade\n".to_string())];
    let mut reg = TransitionRegistry::from_shader_files(files());
    assert!(!reg.rescan_from(files()));
    assert!(reg.rescan_from(vec![("fade".to_string(), "// @name: Fade 2\n".to_string())]));
    assert_eq!(reg.get("fade").unwrap().name, "Fade 2");
    assert!(TransitionRegistry::empty().get("cut").is_some());
}

#[test]
fn header_stops_at_code_and_skips_bad_params() {
    let src = "\r\n  //// @name:  Spaced  \r\n// @param: bad x 0 1\n// @param: ok -1e3 .5 inf extra\n// @params: to_color,,nope\nfn main() {}\n// @author: late\n";
    let (name, author, _, params, shader_params) = parse_header(src);
    assert_eq!(name, "Spaced");
    assert_eq!(author, "");
    assert_eq!(params, vec![TransitionParam::ToColor]);
    assert_eq!(shader_params.len(), 1);
    assert_eq!(shader_params[0].name, "ok");
    assert_eq!(shader_params[0].default, "-1e3");
    assert_eq!(shader_params[0].min, ".5");
    assert_eq!(shader_params[0].max, "inf");
}

#[test]
fn title_case_skips_empty_pieces() {
    assert_eq!(title_case_stem("__a__bC_"), "A Bc");
    assert_eq!(title_case_stem(""), "");
}

// The older settings formats, read through the library's migration rules.

#[test]
fn settings_deserialize_old_format_fade() {
    let t = default_transition_from(None, Some("Fade".to_string()));
    assert_eq!(t, "fade");
}

#[test]
fn settings_deserialize_old_format_cut() {
    let t = default_transition_from(None, Some("Cut".to_string()));
    assert_eq!(t, "cut");
}

#[test]
fn settings_deserialize_empty() {
    let t = default_transition_from(None, None);
    assert_eq!(t, "fade");
}

#[test]
fn override_deserialize_old_format() {
    let o = override_transition_from(None, Some("Fade".to_string()));
    assert_eq!(o.as_deref(), Some("fade"));
}

#[test]
fn resolve_uses_global_defaults() {
    assert_eq!(resolve_transition_id(&None, &TRANSITION_FADE.to_string()), TRANSITION_FADE);
    assert_eq!(resolve_duration_ms(None, 300), 300);
}

#[test]
fn resolve_per_scene_overrides_global() {
    assert_eq!(resolve_transition_id(&Some(TRANSITION_CUT.to_string()), &TRANSITION_FADE.to_string()), TRANSITION_CUT);
    assert_eq!(resolve_duration_ms(Some(0), 300), 0);
}

#[test]
fn resolve_partial_override_inherits_unset_fields() {
    assert_eq!(resolve_transition_id(&None, &TRANSITION_FADE.to_string()), TRANSITION_FADE);
    assert_eq!(resolve_duration_ms(Some(1000), 300), 1000);
}

#[test]
fn duration_field_reads_and_clamps() {
    assert_eq!(transition_duration_from_text(" 450 "), Some(450));
    assert_eq!(transition_duration_from_text("+12"), Some(12));
    assert_eq!(transition_duration_from_text("0"), Some(0));
    assert_eq!(transition_duration_from_text("99999"), Some(30000));
    assert_eq!(transition_duration_from_text("4294967295"), Some(30000));
    assert_eq!(transition_duration_from_text("4294967296"), None);
    assert_eq!(transition_duration_from_text("12ms"), None);
    assert_eq!(transition_duration_from_text("-5"), None);
    assert_eq!(transition_duration_from_text("+"), None);
    assert_eq!(transition_duration_from_text(""), None);
}
