//! Texts shown by the user interface: section and category labels, audio
//! input descriptions, resolution choices, and title-cased property names.
use vstd::prelude::*;
use vstd::string::StringExecFns;
use crate::settings::{resolution_string, resolution_text};
use crate::text::{chars_of, split_chars, split_on, string_of, title_case, title_case_spec};

verus! {

broadcast use vstd::string::group_string_axioms;

// ── Settings window ─────────────────────────────────────────────────────────

/// The pages of the settings window.
#[derive(Debug, Clone, Copy, PartialEq, Eq, Structural)]
pub enum SettingsCategory {
    General,
    Appearance,
    Hotkeys,
    StreamOutput,
    Audio,
    Video,
    Advanced,
}

impl SettingsCategory {
    pub fn label(self) -> (l: &'static str)
        ensures
            l@ == match self {
                SettingsCategory::General => "General"@,
                SettingsCategory::Appearance => "Appearance"@,
                SettingsCategory::Hotkeys => "Hotkeys"@,
                SettingsCategory::StreamOutput => "Stream / Output"@,
                SettingsCategory::Audio => "Audio"@,
                SettingsCategory::Video => "Video"@,
                SettingsCategory::Advanced => "Advanced"@,
            },
    {
        match self {
            SettingsCategory::General => "General",
            SettingsCategory::Appearance => "Appearance",
            SettingsCategory::Hotkeys => "Hotkeys",
            SettingsCategory::StreamOutput => "Stream / Output",
            SettingsCategory::Audio => "Audio",
            SettingsCategory::Video => "Video",
            SettingsCategory::Advanced => "Advanced",
        }
    }
}

// ── Library ─────────────────────────────────────────────────────────────────

/// The kinds of source in the library.
#[derive(Debug, Clone, Copy, PartialEq, Eq, Structural)]
pub enum SourceType {
    Display,
    Camera,
    Window,
    Image,
    Audio,
    Browser,
    Text,
    Color,
}

/// The heading of the library section that lists sources of a type.
pub fn type_section_label(source_type: &SourceType) -> (l: &'static str)
    ensures
        l@ == match *source_type {
            SourceType::Display => "Displays"@,
            SourceType::Camera => "Cameras"@,
            SourceType::Window => "Windows"@,
            SourceType::Image => "Images"@,
            SourceType::Audio => "Audio"@,
            SourceType::Browser => "Browsers"@,
            SourceType::Text => "Text"@,
            SourceType::Color => "Colors"@,
        },
{
    match source_type {
        SourceType::Display => "Displays",
        SourceType::Camera => "Cameras",
        SourceType::Window => "Windows",
        SourceType::Image => "Images",
        SourceType::Audio => "Audio",
        SourceType::Browser => "Browsers",
        SourceType::Text => "Text",
        SourceType::Color => "Colors",
    }
}

// ── Audio inputs ────────────────────────────────────────────────────────────

/// Where an audio source takes its sound from.
#[derive(Debug, Clone)]
pub enum AudioInput {
    Device { device_uid: String, device_name: String },
    File { path: String, looping: bool },
}

/// The value of an audio input.
pub enum AudioInputView {
    Device { device_uid: Seq<char>, device_name: Seq<char> },
    File { path: Seq<char>, looping: bool },
}

impl View for AudioInput {
    type V = AudioInputView;

    open spec fn view(&self) -> AudioInputView {
        match self {
            AudioInput::Device { device_uid, device_name } => AudioInputView::Device {
                device_uid: device_uid@,
                device_name: device_name@,
            },
            AudioInput::File { path, looping } => AudioInputView::File { path: path@, looping: *looping },
        }
    }
}

impl AudioInput {
    /// An equal, separately owned input.
    pub fn duplicate(&self) -> (a: AudioInput)
        ensures
            a@ == self@,
    {
        match self {
            AudioInput::Device { device_uid, device_name } => AudioInput::Device {
                device_uid: device_uid.clone(),
                device_name: device_name.clone(),
            },
            AudioInput::File { path, looping } => AudioInput::File { path: path.clone(), looping: *looping },
        }
    }
}

/// The path components that name something: the pieces between `/`
/// separators, without empty pieces and without `.`.
pub open spec fn named_components(pieces: Seq<Seq<char>>) -> Seq<Seq<char>>
    decreases pieces.len(),
{
    if pieces.len() == 0 {
        Seq::empty()
    } else {
        let r = named_components(pieces.drop_last());
        let p = pieces.last();
        if p.len() == 0 || p == "."@ {
            r
        } else {
            r.push(p)
        }
    }
}

/// The final component of a path, as `Path::file_name` gives it on Unix:
/// `None` when the path has no component or ends in `..`.
pub open spec fn file_name_of(path: Seq<char>) -> Option<Seq<char>> {
    let comps = named_components(split_on(path, '/'));
    if comps.len() == 0 || comps.last() == ".."@ {
        None
    } else {
        Some(comps.last())
    }
}

/// The final component of a path, if it names a file or directory.
pub fn file_name(path: &str) -> (r: Option<String>)
    ensures
        match r {
            Some(n) => file_name_of(path@) == Some(n@),
            None => file_name_of(path@) is None,
        },
{
    let pieces = split_chars(chars_of(path).as_slice(), '/');
    let ghost ps = split_on(path@, '/');
    let mut last: Option<String> = None;
    let n = pieces.len();
    let mut i: usize = 0;
    let dot = ".".to_string();
    while i < n
        invariant
            i <= n == pieces@.len() == ps.len(),
            pieces.deep_view() == ps,
            dot@ == "."@,
            match last {
                Some(l) => named_components(ps.take(i as int)).len() > 0 && l@ == named_components(
                    ps.take(i as int),
                ).last(),
                None => named_components(ps.take(i as int)).len() == 0,
            },
        decreases n - i,
    {
        assert(pieces.deep_view()[i as int] == pieces@[i as int].deep_view());
        assert(pieces@[i as int].deep_view() =~= pieces@[i as int]@);
        assert(ps.take(i + 1).drop_last() =~= ps.take(i as int));
        assert(ps.take(i + 1).last() == ps[i as int]);
        let piece = string_of(pieces[i].as_slice());
        if pieces[i].len() > 0 && !(piece == dot) {
            last = Some(piece);
        }
        i += 1;
    }
    assert(ps.take(n as int) =~= ps);
    match last {
        Some(l) => if l == "..".to_string() {
            None
        } else {
            Some(l)
        },
        None => None,
    }
}

/// The two lines that describe an audio input: its kind, and the device
/// name or the file name with its playback behaviour.
pub open spec fn audio_input_text(input: AudioInput) -> (Seq<char>, Seq<char>) {
    match input {
        AudioInput::Device { device_name, .. } => (
            "Device Input"@,
            if device_name@.len() == 0 {
                "No device selected"@
            } else {
                device_name@
            },
        ),
        AudioInput::File { path, looping } => (
            "Audio File"@,
            match file_name_of(path@) {
                Some(n) => n,
                None => "No file selected"@,
            } + " · "@ + if looping {
                "Looping"@
            } else {
                "Play once"@
            },
        ),
    }
}

/// Describe an audio input for the mixer: its kind, and what it plays.
pub fn describe_audio_input(input: &AudioInput) -> (r: (String, String))
    ensures
        (r.0@, r.1@) == audio_input_text(*input),
{
    match input {
        AudioInput::Device { device_uid: _, device_name } => {
            let name = if device_name.as_str().is_empty() {
                "No device selected".to_string()
            } else {
                device_name.clone()
            };
            ("Device Input".to_string(), name)
        },
        AudioInput::File { path, looping } => {
            let mut text = match file_name(path.as_str()) {
                Some(n) => n,
                None => "No file selected".to_string(),
            };
            text.append(" · ");
            text.append(if *looping { "Looping" } else { "Play once" });
            ("Audio File".to_string(), text)
        },
    }
}

// ── Properties ──────────────────────────────────────────────────────────────

/// Converts `snake_case` names to `Snake Case` for display: pieces between
/// underscores, empty ones dropped, each with its first character
/// upper-cased, joined by spaces.
pub fn title_case_underscore(s: &str) -> (r: String)
    ensures
        r@ == title_case_spec(s@, false),
{
    title_case(s, false)
}

// ── Video resolutions ───────────────────────────────────────────────────────

/// A resolution offered in the video settings: the stored value and its label.
#[derive(Debug, Clone)]
pub struct ResolutionOption {
    pub value: String,
    pub label: String,
}

/// The value of a resolution option.
pub struct ResolutionOptionView {
    pub value: Seq<char>,
    pub label: Seq<char>,
}

impl View for ResolutionOption {
    type V = ResolutionOptionView;

    open spec fn view(&self) -> ResolutionOptionView {
        ResolutionOptionView { value: self.value@, label: self.label@ }
    }
}

/// The preset resolutions, smallest first.
pub open spec fn resolution_presets(include_720p: bool) -> Seq<(u32, u32)> {
    if include_720p {
        seq![(1280u32, 720u32), (1920u32, 1080u32), (2560u32, 1440u32), (3840u32, 2160u32)]
    } else {
        seq![(1920u32, 1080u32), (2560u32, 1440u32), (3840u32, 2160u32)]
    }
}

/// The option for a resolution; the display's own resolution is marked.
pub open spec fn resolution_option(r: (u32, u32), detected: Option<(u32, u32)>) -> ResolutionOptionView {
    let value = resolution_text(r.0, r.1);
    ResolutionOptionView {
        value,
        label: if detected == Some(r) {
            value + " (Display)"@
        } else {
            value
        },
    }
}

pub open spec fn pixel_count(r: (u32, u32)) -> int {
    r.0 as int * r.1 as int
}

/// The index of the first preset with more pixels than `r`, or their number.
pub open spec fn first_larger(presets: Seq<(u32, u32)>, r: (u32, u32)) -> int
    decreases presets.len(),
{
    if presets.len() == 0 {
        0
    } else if pixel_count(presets[0]) > pixel_count(r) {
        0
    } else {
        1 + first_larger(presets.drop_first(), r)
    }
}

/// The options: one per preset, and the detected resolution, when it is not
/// a preset, inserted before the first preset with more pixels.
pub open spec fn resolution_options(detected: Option<(u32, u32)>, include_720p: bool) -> Seq<
    ResolutionOptionView,
> {
    let presets = resolution_presets(include_720p);
    let base = presets.map_values(|r: (u32, u32)| resolution_option(r, detected));
    match detected {
        Some(d) => if presets.contains(d) {
            base
        } else {
            base.insert(first_larger(presets, d), resolution_option(d, detected))
        },
        None => base,
    }
}

proof fn lemma_first_larger(presets: Seq<(u32, u32)>, r: (u32, u32), i: int)
    requires
        0 <= i <= presets.len(),
        forall|j: int| 0 <= j < i ==> pixel_count(#[trigger] presets[j]) <= pixel_count(r),
        i == presets.len() || pixel_count(presets[i]) > pixel_count(r),
    ensures
        first_larger(presets, r) == i,
    decreases i,
{
    if i > 0 {
        lemma_first_larger(presets.drop_first(), r, i - 1);
    }
}

fn pixels_of(w: u32, h: u32) -> (p: u64)
    ensures
        p == pixel_count((w, h)),
{
    assert(w as int * h as int <= 0xffff_ffff * 0xffff_ffff) by (nonlinear_arith)
        requires
            w <= 0xffff_ffff,
            h <= 0xffff_ffff,
    ;
    w as u64 * h as u64
}

fn resolution_option_for(w: u32, h: u32, detected: Option<(u32, u32)>) -> (o: ResolutionOption)
    ensures
        o@ == resolution_option((w, h), detected),
{
    let value = resolution_string(w, h);
    let mut label = value.clone();
    if detected == Some((w, h)) {
        label.append(" (Display)");
    }
    ResolutionOption { value, label }
}

/// The resolutions offered in the video settings.
pub fn build_resolution_options(detected: Option<(u32, u32)>, include_720p: bool) -> (options: Vec<
    ResolutionOption,
>)
    ensures
        options@.map_values(|o: ResolutionOption| o@) == resolution_options(detected, include_720p),
{
    let presets: Vec<(u32, u32)> = if include_720p {
        vec![(1280, 720), (1920, 1080), (2560, 1440), (3840, 2160)]
    } else {
        vec![(1920, 1080), (2560, 1440), (3840, 2160)]
    };
    assert(presets@ =~= resolution_presets(include_720p));
    let ghost ps = resolution_presets(include_720p);
    let mut options: Vec<ResolutionOption> = Vec::new();
    let n = presets.len();
    let mut i: usize = 0;
    while i < n
        invariant
            i <= n == presets@.len(),
            presets@ == ps,
            options@.len() == i,
            options@.map_values(|o: ResolutionOption| o@) == ps.take(i as int).map_values(
                |r: (u32, u32)| resolution_option(r, detected),
            ),
        decreases n - i,
    {
        let (w, h) = presets[i];
        let ghost before = options@;
        options.push(resolution_option_for(w, h, detected));
        assert(options@.map_values(|o: ResolutionOption| o@) =~= ps.take(i + 1).map_values(
            |r: (u32, u32)| resolution_option(r, detected),
        )) by {
            assert(before.map_values(|o: ResolutionOption| o@) =~= ps.take(i as int).map_values(
                |r: (u32, u32)| resolution_option(r, detected),
            ));
            assert forall|k: int| 0 <= k < i implies #[trigger] options@[k]@ == resolution_option(
                ps[k],
                detected,
            ) by {
                assert(options@[k] == before[k]);
                assert(before.map_values(|o: ResolutionOption| o@)[k] == before[k]@);
            }
        }
        i += 1;
    }
    assert(ps.take(n as int) =~= ps);
    if let Some((w, h)) = detected {
        let mut is_preset = false;
        let mut k: usize = 0;
        while k < n
            invariant
                k <= n == presets@.len(),
                presets@ == ps,
                is_preset == exists|j: int| 0 <= j < k && ps[j] == (w, h),
            decreases n - k,
        {
            if presets[k].0 == w && presets[k].1 == h {
                is_preset = true;
            }
            k += 1;
        }
        if !is_preset {
            let pixels = pixels_of(w, h);
            let mut pos: usize = 0;
            while pos < n && pixels_of(presets[pos].0, presets[pos].1) <= pixels
                invariant
                    pos <= n == presets@.len(),
                    presets@ == ps,
                    pixels == pixel_count((w, h)),
                    forall|j: int| 0 <= j < pos ==> pixel_count(#[trigger] ps[j]) <= pixel_count((w, h)),
                decreases n - pos,
            {
                pos += 1;
            }
            proof {
                lemma_first_larger(ps, (w, h), pos as int);
            }
            let ghost before = options@;
            options.insert(pos, resolution_option_for(w, h, detected));
            assert(options@.map_values(|o: ResolutionOption| o@) =~= resolution_options(
                detected,
                include_720p,
            )) by {
                let base = ps.map_values(|r: (u32, u32)| resolution_option(r, detected));
                assert(before.map_values(|o: ResolutionOption| o@) == base);
                assert forall|j: int| 0 <= j < options@.len() implies #[trigger] options@[j]@ == base.insert(
                    pos as int,
                    resolution_option((w, h), detected),
                )[j] by {
                    if j < pos {
                        assert(options@[j] == before[j]);
                        assert(before.map_values(|o: ResolutionOption| o@)[j] == before[j]@);
                    } else if j > pos {
                        assert(options@[j] == before[j - 1]);
                        assert(before.map_values(|o: ResolutionOption| o@)[j - 1] == before[j - 1]@);
                    }
                }
            }
        }
    }
    options
}

} // verus!
