//! Application state: the scene collection, the selection, and snapshot-based
//! undo and redo.
use vstd::prelude::*;
use crate::scene::{
    LibrarySource, LibraryView, Scene, SceneId, SceneView, SourceId, SourceOverrides,
    other_sources, ids_not_in, scene_diff, shown_ids, LoopMode, ColorFill, ColorFillView, PixelSize, PropertiesView, Rgba, TextAlignment, TextProperties, TextView, WindowCaptureMode, WindowModeView, SceneSource, SourceProperties, SourceTransform, source_ids_of,
};
use crate::labels::{AudioInput, AudioInputView, SourceType};
use crate::text::{chars_of, decimal, push_char, push_decimal, string_of, trim_chars, trimmed};

verus! {

/// The most snapshots the undo history keeps.
pub const UNDO_MAX_DEPTH: usize = 50;

// ── The undoable document ───────────────────────────────────────────────────

/// The value of the undoable part of the state.
pub struct Document {
    pub scenes: Seq<SceneView>,
    pub library: Seq<LibraryView>,
    pub active_scene_id: Option<SceneId>,
    pub next_scene_id: u64,
    pub next_source_id: u64,
}

pub open spec fn scenes_view(v: Seq<Scene>) -> Seq<SceneView> {
    v.map_values(|s: Scene| s@)
}

pub open spec fn library_view(v: Seq<LibrarySource>) -> Seq<LibraryView> {
    v.map_values(|s: LibrarySource| s@)
}

/// Snapshot of the undoable portion of app state.
#[derive(Debug, Clone)]
pub struct UndoSnapshot {
    pub scenes: Vec<Scene>,
    pub library: Vec<LibrarySource>,
    pub active_scene_id: Option<SceneId>,
    pub next_scene_id: u64,
    pub next_source_id: u64,
}

impl View for UndoSnapshot {
    type V = Document;

    open spec fn view(&self) -> Document {
        Document {
            scenes: scenes_view(self.scenes@),
            library: library_view(self.library@),
            active_scene_id: self.active_scene_id,
            next_scene_id: self.next_scene_id,
            next_source_id: self.next_source_id,
        }
    }
}

pub open spec fn snapshots_view(v: Seq<UndoSnapshot>) -> Seq<Document> {
    v.map_values(|s: UndoSnapshot| s@)
}

/// The first scene with identifier `id`.
pub open spec fn find_scene(scenes: Seq<SceneView>, id: SceneId) -> Option<SceneView>
    decreases scenes.len(),
{
    if scenes.len() == 0 {
        None
    } else if scenes[0].id == id {
        Some(scenes[0])
    } else {
        find_scene(scenes.drop_first(), id)
    }
}

/// The sources of the document's active scene (none when there is no active scene).
pub open spec fn active_source_ids(d: Document) -> Seq<SourceId> {
    match d.active_scene_id {
        Some(id) => match find_scene(d.scenes, id) {
            Some(s) => source_ids_of(s.sources),
            None => Seq::empty(),
        },
        None => Seq::empty(),
    }
}

/// Whether the library holds a source with identifier `id`.
pub open spec fn library_has(library: Seq<LibraryView>, id: SourceId) -> bool {
    exists|i: int| 0 <= i < library.len() && (#[trigger] library[i]).id == id
}

// ── Undo / Redo ─────────────────────────────────────────────────────────────

/// Snapshot-based undo/redo stack.
#[derive(Debug, Clone)]
pub struct UndoStack {
    pub undo: Vec<UndoSnapshot>,
    pub redo: Vec<UndoSnapshot>,
}

impl Default for UndoStack {
    fn default() -> (s: Self)
        ensures
            s.undo@.len() == 0,
            s.redo@.len() == 0,
    {
        UndoStack { undo: Vec::new(), redo: Vec::new() }
    }
}

impl UndoStack {
    pub fn can_undo(&self) -> (r: bool)
        ensures
            r == (self.undo@.len() > 0),
    {
        self.undo.len() > 0
    }

    pub fn can_redo(&self) -> (r: bool)
        ensures
            r == (self.redo@.len() > 0),
    {
        self.redo.len() > 0
    }
}

// ── Application state ───────────────────────────────────────────────────────

/// Whether the app is currently recording.
#[derive(Debug, Clone)]
pub enum RecordingStatus {
    Idle,
    Recording { path: String },
}

/// A clipboard entry for copy/paste of scene sources.
#[derive(Debug, Clone, Copy)]
pub struct ClipboardEntry {
    pub library_source_id: SourceId,
    pub overrides_snapshot: SourceOverrides,
}

#[derive(Debug)]
pub struct AppState {
    pub scenes: Vec<Scene>,
    pub library: Vec<LibrarySource>,
    pub active_scene_id: Option<SceneId>,
    /// Sources selected in the scene (sources panel / preview). Drives transform handles.
    pub selected_source_ids: Vec<SourceId>,
    /// The primary source in a multi-select (most recently clicked).
    pub primary_selected_id: Option<SourceId>,
    /// Source selected in the library panel.
    pub selected_library_source_id: Option<SourceId>,
    /// Source to flash briefly in the scene when selected in library.
    pub flash_source_id: Option<SourceId>,
    /// Clipboard for copy/paste of scene sources.
    pub clipboard: Vec<ClipboardEntry>,
    /// Source currently being renamed. None = not renaming.
    pub renaming_source_id: Option<SourceId>,
    /// Scene currently being renamed. None = not renaming.
    pub renaming_scene_id: Option<SceneId>,
    /// Buffer for the inline rename text edit.
    pub rename_buffer: String,
    pub settings_dirty: bool,
    pub scenes_dirty: bool,
    pub next_scene_id: u64,
    pub next_source_id: u64,
    pub monitor_count: usize,
    /// Primary monitor resolution detected at startup, if any.
    pub detected_resolution: Option<(u32, u32)>,
    /// Displays found at startup.
    pub available_displays: Vec<DisplayInfo>,
    /// Cameras found at startup.
    pub available_cameras: Vec<CameraInfo>,
    pub capture_active: bool,
    pub recording_status: RecordingStatus,
    /// Counter used to generate unique recording filenames.
    pub recording_counter: u32,
    pub virtual_camera_active: bool,
    /// Undo/redo history stack.
    pub undo_stack: UndoStack,
    /// Signal from keyboard shortcut: reset preview zoom to fit.
    pub reset_preview_zoom: bool,
    /// Signal from keyboard shortcut: set preview zoom to 1:1 pixel mapping.
    pub set_preview_zoom_100: bool,
    /// Whether a continuous edit gesture is in progress (drag, slider).
    pub in_continuous_edit: bool,
    /// Pre-frame snapshot for undo, pushed by the first `mark_dirty` of a frame.
    pub frame_snapshot: Option<UndoSnapshot>,
    /// Available system font families for the appearance settings UI.
    pub system_fonts: Vec<String>,
}

/// The value of the state that selection and undo work on.
pub struct AppModel {
    pub doc: Document,
    pub selected: Seq<SourceId>,
    pub primary: Option<SourceId>,
    pub selected_library: Option<SourceId>,
    pub scenes_dirty: bool,
    pub in_continuous_edit: bool,
    pub frame_snapshot: Option<Document>,
    pub undo: Seq<Document>,
    pub redo: Seq<Document>,
}

impl AppState {
    pub open spec fn document(&self) -> Document {
        Document {
            scenes: scenes_view(self.scenes@),
            library: library_view(self.library@),
            active_scene_id: self.active_scene_id,
            next_scene_id: self.next_scene_id,
            next_source_id: self.next_source_id,
        }
    }

    pub open spec fn model(&self) -> AppModel {
        AppModel {
            doc: self.document(),
            selected: self.selected_source_ids@,
            primary: self.primary_selected_id,
            selected_library: self.selected_library_source_id,
            scenes_dirty: self.scenes_dirty,
            in_continuous_edit: self.in_continuous_edit,
            frame_snapshot: match self.frame_snapshot {
                Some(s) => Some(s@),
                None => None,
            },
            undo: snapshots_view(self.undo_stack.undo@),
            redo: snapshots_view(self.undo_stack.redo@),
        }
    }

    /// The fields that selection and undo leave alone are those of `o`.
    pub open spec fn keeps_other_fields(&self, o: &AppState) -> bool {
        &&& self.flash_source_id == o.flash_source_id
        &&& self.clipboard@ == o.clipboard@
        &&& self.renaming_source_id == o.renaming_source_id
        &&& self.renaming_scene_id == o.renaming_scene_id
        &&& self.rename_buffer@ == o.rename_buffer@
        &&& self.settings_dirty == o.settings_dirty
        &&& self.monitor_count == o.monitor_count
        &&& self.detected_resolution == o.detected_resolution
        &&& self.available_displays@ == o.available_displays@
        &&& self.available_cameras@ == o.available_cameras@
        &&& self.capture_active == o.capture_active
        &&& self.recording_status == o.recording_status
        &&& self.recording_counter == o.recording_counter
        &&& self.virtual_camera_active == o.virtual_camera_active
        &&& self.reset_preview_zoom == o.reset_preview_zoom
        &&& self.set_preview_zoom_100 == o.set_preview_zoom_100
        &&& self.system_fonts@ == o.system_fonts@
    }
}


// ── What the operations do, on values ───────────────────────────────────────

/// The undo history after recording `d`: the oldest entry goes once there
/// are more than `UNDO_MAX_DEPTH`.
pub open spec fn recorded(undo: Seq<Document>, d: Document) -> Seq<Document> {
    let p = undo.push(d);
    if p.len() > UNDO_MAX_DEPTH {
        p.drop_first()
    } else {
        p
    }
}

/// At the start of a frame the current document is kept as the undo point,
/// unless a continuous edit holds on to the one taken when it began.
pub open spec fn model_begin_frame(m: AppModel) -> AppModel {
    if m.in_continuous_edit {
        m
    } else {
        AppModel { frame_snapshot: Some(m.doc), ..m }
    }
}

/// Marking the document dirty records the pre-frame snapshot when there is
/// one; otherwise, outside a continuous edit and when the document was clean,
/// it records the current document. Recording clears the redo history.
pub open spec fn model_mark_dirty(m: AppModel) -> AppModel {
    match m.frame_snapshot {
        Some(f) => AppModel {
            undo: recorded(m.undo, f),
            redo: Seq::empty(),
            frame_snapshot: None,
            scenes_dirty: true,
            ..m
        },
        None => if !m.in_continuous_edit && !m.scenes_dirty {
            AppModel { undo: recorded(m.undo, m.doc), redo: Seq::empty(), scenes_dirty: true, ..m }
        } else {
            AppModel { scenes_dirty: true, ..m }
        },
    }
}

/// The elements of `s` that occur in `keep`, in order.
pub open spec fn retained(s: Seq<SourceId>, keep: Seq<SourceId>) -> Seq<SourceId>
    decreases s.len(),
{
    if s.len() == 0 {
        s
    } else {
        let r = retained(s.drop_last(), keep);
        if keep.contains(s.last()) {
            r.push(s.last())
        } else {
            r
        }
    }
}

/// Putting document `d` in place: selections that point at sources or
/// scenes that no longer exist are dropped.
pub open spec fn model_restore(m: AppModel, d: Document) -> AppModel {
    let sel = retained(m.selected, active_source_ids(d));
    AppModel {
        doc: d,
        selected: sel,
        primary: match m.primary {
            Some(p) => if sel.contains(p) {
                Some(p)
            } else if sel.len() > 0 {
                Some(sel.last())
            } else {
                None
            },
            None => None,
        },
        selected_library: match m.selected_library {
            Some(id) => if library_has(d.library, id) {
                Some(id)
            } else {
                None
            },
            None => None,
        },
        scenes_dirty: true,
        ..m
    }
}

/// Undo: the newest recorded document comes back and the current one goes
/// to the redo history. Nothing happens when there is nothing to undo.
pub open spec fn model_undo(m: AppModel) -> AppModel {
    if m.undo.len() == 0 {
        m
    } else {
        model_restore(
            AppModel { undo: m.undo.drop_last(), redo: m.redo.push(m.doc), ..m },
            m.undo.last(),
        )
    }
}

/// Redo: the newest undone document comes back and the current one goes to
/// the undo history. Nothing happens when there is nothing to redo.
pub open spec fn model_redo(m: AppModel) -> AppModel {
    if m.redo.len() == 0 {
        m
    } else {
        model_restore(
            AppModel { redo: m.redo.drop_last(), undo: m.undo.push(m.doc), ..m },
            m.redo.last(),
        )
    }
}

/// Toggling a source: a selected source leaves the selection (its first
/// occurrence), and when it was the primary one the last remaining source
/// becomes primary; an unselected source joins the selection as primary.
pub open spec fn model_toggle(m: AppModel, id: SourceId) -> AppModel {
    if m.selected.contains(id) {
        let pos = choose|i: int|
            0 <= i < m.selected.len() && m.selected[i] == id && forall|j: int|
                0 <= j < i ==> m.selected[j] != id;
        let sel = m.selected.remove(pos);
        AppModel {
            selected: sel,
            primary: if m.primary == Some(id) {
                if sel.len() > 0 {
                    Some(sel.last())
                } else {
                    None
                }
            } else {
                m.primary
            },
            ..m
        }
    } else {
        AppModel { selected: m.selected.push(id), primary: Some(id), ..m }
    }
}

/// How many scenes show the source.
pub open spec fn usage_count(scenes: Seq<SceneView>, id: SourceId) -> nat
    decreases scenes.len(),
{
    if scenes.len() == 0 {
        0
    } else {
        usage_count(scenes.drop_last(), id) + if source_ids_of(scenes.last().sources).contains(id) {
            1nat
        } else {
            0nat
        }
    }
}

/// The names of the scenes that show the source, in order.
pub open spec fn names_using(scenes: Seq<SceneView>, id: SourceId) -> Seq<Seq<char>>
    decreases scenes.len(),
{
    if scenes.len() == 0 {
        Seq::empty()
    } else {
        let r = names_using(scenes.drop_last(), id);
        if source_ids_of(scenes.last().sources).contains(id) {
            r.push(scenes.last().name)
        } else {
            r
        }
    }
}

/// The first library source with identifier `id`.
pub open spec fn find_library(library: Seq<LibraryView>, id: SourceId) -> Option<LibraryView>
    decreases library.len(),
{
    if library.len() == 0 {
        None
    } else if library[0].id == id {
        Some(library[0])
    } else {
        find_library(library.drop_first(), id)
    }
}


/// How many library sources are of type `t`.
pub open spec fn count_of_type(library: Seq<LibraryView>, t: SourceType) -> nat
    decreases library.len(),
{
    if library.len() == 0 {
        0
    } else {
        count_of_type(library.drop_last(), t) + if library.last().source_type == t {
            1nat
        } else {
            0nat
        }
    }
}

/// The word that names sources of type `t`.
pub open spec fn type_word(t: SourceType) -> Seq<char> {
    match t {
        SourceType::Display => "Display"@,
        SourceType::Camera => "Camera"@,
        SourceType::Window => "Window"@,
        SourceType::Image => "Image"@,
        SourceType::Audio => "Audio"@,
        SourceType::Browser => "Browser"@,
        SourceType::Text => "Text"@,
        SourceType::Color => "Color"@,
    }
}

/// The name of a new source of type `t`: the type's word and the number of
/// sources of that type it makes, e.g. "Camera 2".
pub open spec fn new_source_name(library: Seq<LibraryView>, t: SourceType) -> Seq<char> {
    type_word(t) + seq![' '] + decimal(count_of_type(library, t) + 1)
}

/// A display found on the machine, and its size in pixels.
#[derive(Debug, Clone, Copy, PartialEq, Eq, Structural)]
pub struct DisplayInfo {
    pub index: usize,
    pub width: u32,
    pub height: u32,
}

/// A camera found on the machine, and its resolution in pixels.
#[derive(Debug, Clone, Copy, PartialEq, Eq, Structural)]
pub struct CameraInfo {
    pub device_index: u32,
    pub width: u32,
    pub height: u32,
}

/// The size used when a device's own size is unknown.
pub open spec fn fallback_size() -> PixelSize {
    PixelSize { width: 1920, height: 1080 }
}

/// The size of the first display with the given index, else the fallback.
pub open spec fn display_size(displays: Seq<DisplayInfo>, index: usize) -> PixelSize
    decreases displays.len(),
{
    if displays.len() == 0 {
        fallback_size()
    } else if displays[0].index == index {
        PixelSize { width: displays[0].width, height: displays[0].height }
    } else {
        display_size(displays.drop_first(), index)
    }
}

/// The resolution of the first camera with the given device index, else the fallback.
pub open spec fn camera_size(cameras: Seq<CameraInfo>, device_index: u32) -> PixelSize
    decreases cameras.len(),
{
    if cameras.len() == 0 {
        fallback_size()
    } else if cameras[0].device_index == device_index {
        PixelSize { width: cameras[0].width, height: cameras[0].height }
    } else {
        camera_size(cameras.drop_first(), device_index)
    }
}

/// The defaults that new text, colour, audio and browser sources start with
/// (colours in thousandths, font size in hundredths of a point, padding in
/// hundredths of a pixel, browser page size in pixels).
#[derive(Debug, Clone)]
pub struct SourceDefaults {
    pub text_content: String,
    pub font_family: String,
    pub font_size: u32,
    pub font_color: Rgba,
    /// The text background: a transparent colour.
    pub transparent: Rgba,
    pub padding: u32,
    pub color_fill: ColorFill,
    pub audio_input: AudioInput,
    pub browser_width: u32,
    pub browser_height: u32,
}

/// The value of the source defaults.
pub struct DefaultsView {
    pub text_content: Seq<char>,
    pub font_family: Seq<char>,
    pub font_size: u32,
    pub font_color: Rgba,
    pub transparent: Rgba,
    pub padding: u32,
    pub color_fill: ColorFillView,
    pub audio_input: AudioInputView,
    pub browser_width: u32,
    pub browser_height: u32,
}

impl View for SourceDefaults {
    type V = DefaultsView;

    open spec fn view(&self) -> DefaultsView {
        DefaultsView {
            text_content: self.text_content@,
            font_family: self.font_family@,
            font_size: self.font_size,
            font_color: self.font_color,
            transparent: self.transparent,
            padding: self.padding,
            color_fill: self.color_fill@,
            audio_input: self.audio_input@,
            browser_width: self.browser_width,
            browser_height: self.browser_height,
        }
    }
}

/// The settings a new source of type `t` starts with: the first display;
/// any full-screen window, none found yet; the first camera; no image file
/// and the image's own looping; and for the other types the defaults `d`,
/// text being left-aligned, plain, unwrapped and without outline, and a
/// browser source showing no page yet.
pub open spec fn default_properties(t: SourceType, d: DefaultsView) -> PropertiesView {
    match t {
        SourceType::Display => PropertiesView::Display { screen_index: 0 },
        SourceType::Window => PropertiesView::Window { mode: WindowModeView::AnyFullscreen, current_window_id: None },
        SourceType::Camera => PropertiesView::Camera { device_index: 0, device_name: Seq::empty() },
        SourceType::Image => PropertiesView::Image { path: Seq::empty(), loop_mode: None },
        SourceType::Audio => PropertiesView::Audio { input: d.audio_input },
        SourceType::Text => PropertiesView::Text {
            text: TextView {
                content: d.text_content,
                font_family: d.font_family,
                font_size: d.font_size,
                font_color: d.font_color,
                background_color: d.transparent,
                bold: false,
                italic: false,
                alignment: TextAlignment::Left,
                outline: None,
                padding: d.padding,
                wrap_width: None,
            },
        },
        SourceType::Color => PropertiesView::Color { fill: d.color_fill },
        SourceType::Browser => PropertiesView::Browser {
            url: Seq::empty(),
            width: d.browser_width,
            height: d.browser_height,
        },
    }
}

/// The native size of a new source: a browser source's page size, else its
/// drawn size.
pub open spec fn new_native_size(t: SourceType, size: PixelSize, d: DefaultsView) -> PixelSize {
    if t == SourceType::Browser {
        PixelSize { width: d.browser_width, height: d.browser_height }
    } else {
        size
    }
}

/// The native size of a new source of type `t`: that of the first display or
/// camera it shows, else 1920 by 1080.
pub open spec fn new_source_size(t: SourceType, displays: Seq<DisplayInfo>, cameras: Seq<CameraInfo>) -> PixelSize {
    match t {
        SourceType::Display => display_size(displays, 0),
        SourceType::Camera => camera_size(cameras, 0),
        _ => fallback_size(),
    }
}

/// A new library source: default settings, drawn at the top left at `size`,
/// visible, not muted, full opacity and volume, in no folder.
pub open spec fn new_source(id: SourceId, name: Seq<char>, t: SourceType, size: PixelSize, d: DefaultsView) -> LibraryView {
    LibraryView {
        id,
        name,
        source_type: t,
        properties: default_properties(t, d),
        folder: None,
        transform: SourceTransform { x: 0, y: 0, width: size.width, height: size.height },
        native_size: new_native_size(t, size, d),
        aspect_ratio_locked: false,
        opacity_percent: 100,
        visible: true,
        muted: false,
        volume_percent: 100,
    }
}

/// Adding a library source of type `t` with native size `size`: it takes the
/// next source identifier and its default name, goes last in the library and
/// becomes the library selection.
pub open spec fn model_add_source(m: AppModel, t: SourceType, size: PixelSize, d: DefaultsView) -> AppModel {
    let id = SourceId(m.doc.next_source_id);
    AppModel {
        doc: Document {
            library: m.doc.library.push(new_source(id, new_source_name(m.doc.library, t), t, size, d)),
            next_source_id: (m.doc.next_source_id + 1) as u64,
            ..m.doc
        },
        selected_library: Some(id),
        ..m
    }
}

fn type_word_text(t: SourceType) -> (w: &'static str)
    ensures
        w@ == type_word(t),
{
    match t {
        SourceType::Display => "Display",
        SourceType::Camera => "Camera",
        SourceType::Window => "Window",
        SourceType::Image => "Image",
        SourceType::Audio => "Audio",
        SourceType::Browser => "Browser",
        SourceType::Text => "Text",
        SourceType::Color => "Color",
    }
}

/// The identifiers among `ids` whose library source is an audio source, in order.
pub open spec fn audio_ids(ids: Seq<SourceId>, library: Seq<LibraryView>) -> Seq<SourceId>
    decreases ids.len(),
{
    if ids.len() == 0 {
        ids
    } else {
        let rest = audio_ids(ids.drop_last(), library);
        match find_library(library, ids.last()) {
            Some(l) => if l.source_type == SourceType::Audio {
                rest.push(ids.last())
            } else {
                rest
            },
            None => rest,
        }
    }
}

/// Whether a source of type `t` runs a capture pipeline.
pub open spec fn captures(t: SourceType) -> bool {
    t == SourceType::Display || t == SourceType::Window || t == SourceType::Camera || t
        == SourceType::Audio
}

/// The scenes after taking library source `src` out of the first scene with
/// identifier `scene`.
pub open spec fn scenes_without_in(scenes: Seq<SceneView>, scene: SceneId, src: SourceId) -> Seq<SceneView> {
    let k = scene_index(scenes, scene);
    if k < scenes.len() {
        scenes.update(k, SceneView { sources: other_sources(scenes[k].sources, src), ..scenes[k] })
    } else {
        scenes
    }
}

/// Whether the first scene with identifier `scene` shows any source.
pub open spec fn scene_has_sources(scenes: Seq<SceneView>, scene: SceneId) -> bool {
    match find_scene(scenes, scene) {
        Some(s) => s.sources.len() > 0,
        None => false,
    }
}

/// Taking source `src` out of scene `scene`: a selection whose primary source
/// it was is cleared, and the change is recorded for undo.
pub open spec fn model_remove_from_scene(m: AppModel, scene: SceneId, src: SourceId) -> AppModel {
    let deselect = m.primary == Some(src);
    model_mark_dirty(
        AppModel {
            doc: Document { scenes: scenes_without_in(m.doc.scenes, scene, src), ..m.doc },
            selected: if deselect { Seq::empty() } else { m.selected },
            primary: if deselect { None } else { m.primary },
            ..m
        },
    )
}

/// The scenes after the first scene with identifier `scene` is renamed `name`.
pub open spec fn scenes_renamed(scenes: Seq<SceneView>, scene: SceneId, name: Seq<char>) -> Seq<SceneView> {
    let k = scene_index(scenes, scene);
    if k < scenes.len() {
        scenes.update(k, SceneView { name, ..scenes[k] })
    } else {
        scenes
    }
}

/// Committing a scene rename: the trimmed rename text, when not empty,
/// becomes the scene's name and the change is recorded for undo.
pub open spec fn model_rename_scene(m: AppModel, scene: SceneId, text: Seq<char>) -> AppModel {
    let name = trimmed(text);
    if name.len() == 0 {
        m
    } else {
        model_mark_dirty(
            AppModel { doc: Document { scenes: scenes_renamed(m.doc.scenes, scene, name), ..m.doc }, ..m },
        )
    }
}

/// A command for the capture pipelines when the shown scene changes.
#[derive(Debug, Clone)]
pub enum CaptureCommand {
    RemoveCaptureSource { source_id: SourceId },
    CaptureScreen { source_id: SourceId, screen_index: u32, exclude_self: bool },
    CaptureWindow { source_id: SourceId, mode: WindowCaptureMode },
    CaptureCamera { source_id: SourceId, device_index: u32 },
    CaptureAudioDevice { source_id: SourceId, device_uid: String },
    CaptureAudioFile { source_id: SourceId, path: String, looping: bool },
    /// Load an image file and show it; animated images loop as `loop_mode` says.
    LoadImage { source_id: SourceId, path: String, loop_mode: Option<LoopMode> },
}

/// The value of a capture command.
pub enum CommandView {
    RemoveCaptureSource { source_id: SourceId },
    CaptureScreen { source_id: SourceId, screen_index: u32, exclude_self: bool },
    CaptureWindow { source_id: SourceId, mode: WindowModeView },
    CaptureCamera { source_id: SourceId, device_index: u32 },
    CaptureAudioDevice { source_id: SourceId, device_uid: Seq<char> },
    CaptureAudioFile { source_id: SourceId, path: Seq<char>, looping: bool },
    LoadImage { source_id: SourceId, path: Seq<char>, loop_mode: Option<LoopMode> },
}

impl View for CaptureCommand {
    type V = CommandView;

    open spec fn view(&self) -> CommandView {
        match self {
            CaptureCommand::RemoveCaptureSource { source_id } => CommandView::RemoveCaptureSource { source_id: *source_id },
            CaptureCommand::CaptureScreen { source_id, screen_index, exclude_self } => CommandView::CaptureScreen {
                source_id: *source_id,
                screen_index: *screen_index,
                exclude_self: *exclude_self,
            },
            CaptureCommand::CaptureWindow { source_id, mode } => CommandView::CaptureWindow {
                source_id: *source_id,
                mode: mode@,
            },
            CaptureCommand::CaptureCamera { source_id, device_index } => CommandView::CaptureCamera {
                source_id: *source_id,
                device_index: *device_index,
            },
            CaptureCommand::CaptureAudioDevice { source_id, device_uid } => CommandView::CaptureAudioDevice {
                source_id: *source_id,
                device_uid: device_uid@,
            },
            CaptureCommand::CaptureAudioFile { source_id, path, looping } => CommandView::CaptureAudioFile {
                source_id: *source_id,
                path: path@,
                looping: *looping,
            },
            CaptureCommand::LoadImage { source_id, path, loop_mode } => CommandView::LoadImage {
                source_id: *source_id,
                path: path@,
                loop_mode: *loop_mode,
            },
        }
    }
}

pub open spec fn commands_view(v: Seq<CaptureCommand>) -> Seq<CommandView> {
    v.map_values(|c: CaptureCommand| c@)
}

/// The command that starts source `id` with settings `p`: displays, windows,
/// cameras and audio inputs start capturing, an image with a file is loaded;
/// text, colour and browser sources, and images without a file, need none.
pub open spec fn start_command(id: SourceId, p: PropertiesView, exclude_self: bool) -> Option<CommandView> {
    match p {
        PropertiesView::Display { screen_index } => Some(
            CommandView::CaptureScreen { source_id: id, screen_index, exclude_self },
        ),
        PropertiesView::Window { mode, .. } => Some(CommandView::CaptureWindow { source_id: id, mode }),
        PropertiesView::Camera { device_index, .. } => Some(CommandView::CaptureCamera { source_id: id, device_index }),
        PropertiesView::Audio { input } => match input {
            AudioInputView::Device { device_uid, .. } => Some(CommandView::CaptureAudioDevice { source_id: id, device_uid }),
            AudioInputView::File { path, looping } => Some(CommandView::CaptureAudioFile { source_id: id, path, looping }),
        },
        PropertiesView::Image { path, loop_mode } => if path.len() > 0 {
            Some(CommandView::LoadImage { source_id: id, path, loop_mode })
        } else {
            None
        },
        _ => None,
    }
}

/// The start commands for `ids`, in order, for those found in the library.
pub open spec fn start_commands(ids: Seq<SourceId>, library: Seq<LibraryView>, exclude_self: bool) -> Seq<CommandView>
    decreases ids.len(),
{
    if ids.len() == 0 {
        Seq::empty()
    } else {
        let r = start_commands(ids.drop_last(), library, exclude_self);
        match find_library(library, ids.last()) {
            Some(l) => match start_command(ids.last(), l.properties, exclude_self) {
                Some(c) => r.push(c),
                None => r,
            },
            None => r,
        }
    }
}

/// A remove command for each of `ids`, in order.
pub open spec fn stop_commands(ids: Seq<SourceId>) -> Seq<CommandView> {
    ids.map_values(|id: SourceId| CommandView::RemoveCaptureSource { source_id: id })
}

fn start_command_for(id: SourceId, p: &SourceProperties, exclude_self: bool) -> (r: Option<CaptureCommand>)
    ensures
        match r {
            Some(c) => start_command(id, p@, exclude_self) == Some(c@),
            None => start_command(id, p@, exclude_self) is None,
        },
{
    match p {
        SourceProperties::Display { screen_index } => Some(
            CaptureCommand::CaptureScreen { source_id: id, screen_index: *screen_index, exclude_self },
        ),
        SourceProperties::Window { mode, .. } => Some(CaptureCommand::CaptureWindow { source_id: id, mode: mode.duplicate() }),
        SourceProperties::Camera { device_index, .. } => Some(
            CaptureCommand::CaptureCamera { source_id: id, device_index: *device_index },
        ),
        SourceProperties::Audio { input } => match input {
            AudioInput::Device { device_uid, .. } => Some(
                CaptureCommand::CaptureAudioDevice { source_id: id, device_uid: device_uid.clone() },
            ),
            AudioInput::File { path, looping } => Some(
                CaptureCommand::CaptureAudioFile { source_id: id, path: path.clone(), looping: *looping },
            ),
        },
        SourceProperties::Image { path, loop_mode } => {
            proof {
                broadcast use vstd::string::group_string_axioms;

            }
            if path.as_str().unicode_len() > 0 {
                Some(CaptureCommand::LoadImage { source_id: id, path: path.clone(), loop_mode: *loop_mode })
            } else {
                None
            }
        },
        _ => None,
    }
}

/// What the capture pipelines are to be told after a source left a scene.
#[derive(Debug, Clone, Copy, PartialEq, Eq, Structural)]
pub struct CaptureStops {
    /// Stop the source's own capture pipeline.
    pub stop_source: bool,
    /// Stop capturing altogether: the scene shows no source any more.
    pub stop_all: bool,
}

/// The scenes with library source `id` taken out of each.
pub open spec fn scenes_without_source(scenes: Seq<SceneView>, id: SourceId) -> Seq<SceneView> {
    scenes.map_values(|s: SceneView| SceneView { sources: other_sources(s.sources, id), ..s })
}

/// The library sources other than `id`, in order.
pub open spec fn other_library(library: Seq<LibraryView>, id: SourceId) -> Seq<LibraryView>
    decreases library.len(),
{
    if library.len() == 0 {
        library
    } else if library.last().id == id {
        other_library(library.drop_last(), id)
    } else {
        other_library(library.drop_last(), id).push(library.last())
    }
}

/// Deleting library source `id`: it leaves every scene and the library; a
/// selection that had it as primary source is cleared, and so is the library
/// selection when it was `id`.
pub open spec fn model_delete_source(m: AppModel, id: SourceId) -> AppModel {
    let deselect = m.primary == Some(id);
    AppModel {
        doc: Document {
            scenes: scenes_without_source(m.doc.scenes, id),
            library: other_library(m.doc.library, id),
            ..m.doc
        },
        selected: if deselect { Seq::empty() } else { m.selected },
        primary: if deselect { None } else { m.primary },
        selected_library: if m.selected_library == Some(id) { None } else { m.selected_library },
        ..m
    }
}

/// Position of the first library source with identifier `id` (the length
/// of the library when there is none).
pub open spec fn library_index(library: Seq<LibraryView>, id: SourceId) -> int
    decreases library.len(),
{
    if library.len() == 0 || library[0].id == id {
        0
    } else {
        1 + library_index(library.drop_first(), id)
    }
}

/// Position of the first scene with identifier `id` (the number of scenes
/// when there is none).
pub open spec fn scene_index(scenes: Seq<SceneView>, id: SceneId) -> int
    decreases scenes.len(),
{
    if scenes.len() == 0 || scenes[0].id == id {
        0
    } else {
        1 + scene_index(scenes.drop_first(), id)
    }
}

/// The first library source with identifier `id` sits at `library_index`.
proof fn lemma_library_index(library: Seq<LibraryView>, id: SourceId)
    ensures
        0 <= library_index(library, id) <= library.len(),
        library_index(library, id) < library.len() ==> library[library_index(library, id)].id == id
            && find_library(library, id) == Some(library[library_index(library, id)]),
        library_index(library, id) == library.len() ==> find_library(library, id) is None,
    decreases library.len(),
{
    if library.len() > 0 && library[0].id != id {
        lemma_library_index(library.drop_first(), id);
    }
}

/// The first scene with identifier `id` sits at `scene_index`.
proof fn lemma_scene_index(scenes: Seq<SceneView>, id: SceneId)
    ensures
        0 <= scene_index(scenes, id) <= scenes.len(),
        scene_index(scenes, id) < scenes.len() ==> scenes[scene_index(scenes, id)].id == id
            && find_scene(scenes, id) == Some(scenes[scene_index(scenes, id)]),
        scene_index(scenes, id) == scenes.len() ==> find_scene(scenes, id) is None,
    decreases scenes.len(),
{
    if scenes.len() > 0 && scenes[0].id != id {
        lemma_scene_index(scenes.drop_first(), id);
    }
}

// ── Operations ──────────────────────────────────────────────────────────────

proof fn lemma_snapshots_push(v: Seq<UndoSnapshot>, x: UndoSnapshot)
    ensures
        snapshots_view(v.push(x)) == snapshots_view(v).push(x@),
{
    assert(snapshots_view(v.push(x)) =~= snapshots_view(v).push(x@));
}

proof fn lemma_snapshots_drop_first(v: Seq<UndoSnapshot>)
    requires
        v.len() > 0,
    ensures
        snapshots_view(v.remove(0)) == snapshots_view(v).drop_first(),
{
    assert(snapshots_view(v.remove(0)) =~= snapshots_view(v).drop_first());
}

proof fn lemma_snapshots_drop_last(v: Seq<UndoSnapshot>)
    requires
        v.len() > 0,
    ensures
        snapshots_view(v.drop_last()) == snapshots_view(v).drop_last(),
        snapshots_view(v).last() == v.last()@,
{
    assert(snapshots_view(v.drop_last()) =~= snapshots_view(v).drop_last());
}

impl Default for AppState {
    fn default() -> (s: Self)
        ensures
            s.scenes@.len() == 0,
            s.library@.len() == 0,
            s.active_scene_id is None,
            s.selected_source_ids@.len() == 0,
            s.primary_selected_id is None,
            s.selected_library_source_id is None,
            !s.scenes_dirty,
            !s.settings_dirty,
            s.next_scene_id == 1,
            s.next_source_id == 1,
            s.monitor_count == 1,
            s.capture_active,
            s.recording_counter == 0,
            s.undo_stack.undo@.len() == 0,
            s.undo_stack.redo@.len() == 0,
            !s.in_continuous_edit,
            s.frame_snapshot is None,
            s.system_fonts@.len() == 1 && s.system_fonts@[0]@ == "Default"@,
            s.flash_source_id is None,
            s.clipboard@.len() == 0,
            s.renaming_source_id is None,
            s.renaming_scene_id is None,
            s.rename_buffer@.len() == 0,
            s.detected_resolution is None,
            s.available_displays@.len() == 0,
            s.available_cameras@.len() == 0,
            s.recording_status is Idle,
            !s.virtual_camera_active,
            !s.reset_preview_zoom,
            !s.set_preview_zoom_100,
    {
        AppState {
            scenes: Vec::new(),
            library: Vec::new(),
            active_scene_id: None,
            selected_source_ids: Vec::new(),
            primary_selected_id: None,
            selected_library_source_id: None,
            flash_source_id: None,
            clipboard: Vec::new(),
            renaming_source_id: None,
            renaming_scene_id: None,
            rename_buffer: String::new(),
            settings_dirty: false,
            scenes_dirty: false,
            next_scene_id: 1,
            next_source_id: 1,
            monitor_count: 1,
            detected_resolution: None,
            available_displays: Vec::new(),
            available_cameras: Vec::new(),
            capture_active: true,
            recording_status: RecordingStatus::Idle,
            recording_counter: 0,
            virtual_camera_active: false,
            undo_stack: UndoStack::default(),
            reset_preview_zoom: false,
            set_preview_zoom_100: false,
            in_continuous_edit: false,
            frame_snapshot: None,
            system_fonts: vec!["Default".to_string()],
        }
    }
}

impl AppState {
    /// Find a library source by ID.
    pub fn find_library_source(&self, id: SourceId) -> (r: Option<&LibrarySource>)
        ensures
            match r {
                Some(s) => find_library(library_view(self.library@), id) == Some(s@),
                None => find_library(library_view(self.library@), id) is None,
            },
    {
        let n = self.library.len();
        let mut i: usize = 0;
        let ghost lib = library_view(self.library@);
        assert(lib.skip(0) =~= lib);
        while i < n
            invariant
                i <= n == self.library@.len(),
                lib == library_view(self.library@),
                find_library(lib, id) == find_library(lib.skip(i as int), id),
            decreases n - i,
        {
            assert(lib.skip(i as int).drop_first() =~= lib.skip(i + 1));
            assert(lib.skip(i as int)[0] == self.library@[i as int]@);
            if self.library[i].id == id {
                return Some(&self.library[i]);
            }
            i += 1;
        }
        None
    }

    /// Get the active scene.
    pub fn active_scene(&self) -> (r: Option<&Scene>)
        ensures
            match r {
                Some(s) => self.active_scene_id matches Some(id) && find_scene(
                    scenes_view(self.scenes@),
                    id,
                ) == Some(s@),
                None => self.active_scene_id matches Some(id) ==> find_scene(
                    scenes_view(self.scenes@),
                    id,
                ) is None,
            },
    {
        match self.active_scene_id {
            None => None,
            Some(id) => {
                let n = self.scenes.len();
                let mut i: usize = 0;
                let ghost sc = scenes_view(self.scenes@);
                assert(sc.skip(0) =~= sc);
                while i < n
                    invariant
                        i <= n == self.scenes@.len(),
                        self.active_scene_id == Some(id),
                        sc == scenes_view(self.scenes@),
                        find_scene(sc, id) == find_scene(sc.skip(i as int), id),
                    decreases n - i,
                {
                    assert(sc.skip(i as int).drop_first() =~= sc.skip(i + 1));
                    assert(sc.skip(i as int)[0] == self.scenes@[i as int]@);
                    if self.scenes[i].id == id {
                        assert(find_scene(sc.skip(i as int), id) == Some(sc.skip(i as int)[0]));
                        return Some(&self.scenes[i]);
                    }
                    i += 1;
                }
                None
            },
        }
    }

    fn library_position(&self, id: SourceId) -> (k: usize)
        ensures
            k == library_index(library_view(self.library@), id),
    {
        let n = self.library.len();
        let mut i: usize = 0;
        let ghost lib = library_view(self.library@);
        assert(lib.skip(0) =~= lib);
        while i < n
            invariant
                i <= n == self.library@.len(),
                lib == library_view(self.library@),
                library_index(lib, id) == i + library_index(lib.skip(i as int), id),
            decreases n - i,
        {
            assert(lib.skip(i as int).drop_first() =~= lib.skip(i + 1));
            assert(lib.skip(i as int)[0] == self.library@[i as int]@);
            if self.library[i].id == id {
                return i;
            }
            i += 1;
        }
        i
    }

    fn scene_position(&self, id: SceneId) -> (k: usize)
        ensures
            k == scene_index(scenes_view(self.scenes@), id),
    {
        let n = self.scenes.len();
        let mut i: usize = 0;
        let ghost sc = scenes_view(self.scenes@);
        assert(sc.skip(0) =~= sc);
        while i < n
            invariant
                i <= n == self.scenes@.len(),
                sc == scenes_view(self.scenes@),
                scene_index(sc, id) == i + scene_index(sc.skip(i as int), id),
            decreases n - i,
        {
            assert(sc.skip(i as int).drop_first() =~= sc.skip(i + 1));
            assert(sc.skip(i as int)[0] == self.scenes@[i as int]@);
            if self.scenes[i].id == id {
                return i;
            }
            i += 1;
        }
        i
    }

    /// Find a library source by ID, for changing it in place.
    pub fn find_library_source_mut(&mut self, id: SourceId) -> (r: Option<&mut LibrarySource>)
        ensures
            ({
                let lib = library_view(old(self).library@);
                let k = library_index(lib, id);
                match r {
                    Some(s) => {
                        &&& 0 <= k < lib.len()
                        &&& *s == old(self).library@[k]
                        &&& find_library(lib, id) == Some(s@)
                        &&& final(self).library@ == old(self).library@.update(k, *final(s))
                        &&& *final(self) == (AppState { library: final(self).library, ..*old(self) })
                    },
                    None => find_library(lib, id) is None && *final(self) == *old(self),
                }
            }),
    {
        proof {
            lemma_library_index(library_view(self.library@), id);
        }
        let k = self.library_position(id);
        if k < self.library.len() {
            Some(&mut self.library[k])
        } else {
            None
        }
    }

    /// Get the active scene, for changing it in place.
    pub fn active_scene_mut(&mut self) -> (r: Option<&mut Scene>)
        ensures
            match r {
                Some(s) => {
                    &&& old(self).active_scene_id matches Some(id)
                    &&& {
                        let k = scene_index(scenes_view(old(self).scenes@), id);
                        &&& 0 <= k < old(self).scenes@.len()
                        &&& *s == old(self).scenes@[k]
                        &&& find_scene(scenes_view(old(self).scenes@), id) == Some(s@)
                        &&& final(self).scenes@ == old(self).scenes@.update(k, *final(s))
                    }
                    &&& *final(self) == (AppState { scenes: final(self).scenes, ..*old(self) })
                },
                None => {
                    &&& old(self).active_scene_id matches Some(id) ==> find_scene(
                        scenes_view(old(self).scenes@),
                        id,
                    ) is None
                    &&& *final(self) == *old(self)
                },
            },
    {
        match self.active_scene_id {
            None => None,
            Some(id) => {
                proof {
                    lemma_scene_index(scenes_view(self.scenes@), id);
                }
                let k = self.scene_position(id);
                if k < self.scenes.len() {
                    Some(&mut self.scenes[k])
                } else {
                    None
                }
            },
        }
    }

    fn count_type(&self, t: SourceType) -> (c: usize)
        ensures
            c == count_of_type(library_view(self.library@), t),
            c <= self.library@.len(),
    {
        let n = self.library.len();
        let mut c: usize = 0;
        let mut i: usize = 0;
        let ghost lv = library_view(self.library@);
        assert(lv.take(0) =~= Seq::<LibraryView>::empty());
        while i < n
            invariant
                i <= n == self.library@.len(),
                lv == library_view(self.library@),
                c <= i,
                c == count_of_type(lv.take(i as int), t),
            decreases n - i,
        {
            assert(lv.take(i + 1).drop_last() =~= lv.take(i as int));
            assert(lv.take(i + 1).last() == self.library@[i as int]@);
            if self.library[i].source_type == t {
                c += 1;
            }
            i += 1;
        }
        assert(lv.take(n as int) =~= lv);
        c
    }

    fn new_source_size_of(&self, t: SourceType) -> (size: PixelSize)
        ensures
            size == new_source_size(t, self.available_displays@, self.available_cameras@),
    {
        match t {
            SourceType::Display => {
                let n = self.available_displays.len();
                let mut i: usize = 0;
                let ghost ds = self.available_displays@;
                assert(ds.skip(0) =~= ds);
                while i < n
                    invariant
                        i <= n == ds.len(),
                        ds == self.available_displays@,
                        t == SourceType::Display,
                        display_size(ds, 0) == display_size(ds.skip(i as int), 0),
                    decreases n - i,
                {
                    assert(ds.skip(i as int).drop_first() =~= ds.skip(i + 1));
                    let d = self.available_displays[i];
                    assert(ds.skip(i as int)[0] == d);
                    if d.index == 0 {
                        return PixelSize { width: d.width, height: d.height };
                    }
                    i += 1;
                }
                PixelSize { width: 1920, height: 1080 }
            },
            SourceType::Camera => {
                let n = self.available_cameras.len();
                let mut i: usize = 0;
                let ghost cs = self.available_cameras@;
                assert(cs.skip(0) =~= cs);
                while i < n
                    invariant
                        i <= n == cs.len(),
                        cs == self.available_cameras@,
                        t == SourceType::Camera,
                        camera_size(cs, 0) == camera_size(cs.skip(i as int), 0),
                    decreases n - i,
                {
                    assert(cs.skip(i as int).drop_first() =~= cs.skip(i + 1));
                    let c = self.available_cameras[i];
                    assert(cs.skip(i as int)[0] == c);
                    if c.device_index == 0 {
                        return PixelSize { width: c.width, height: c.height };
                    }
                    i += 1;
                }
                PixelSize { width: 1920, height: 1080 }
            },
            _ => PixelSize { width: 1920, height: 1080 },
        }
    }

    /// Create a new library source of the given type, named after its type
    /// and numbered among the sources of that type, with default settings and
    /// its native size (that of the first display or camera, else 1920 by
    /// 1080), visible at full opacity and volume, and select it in the
    /// library; the change is recorded for undo.
    pub fn add_library_source(&mut self, source_type: SourceType, defaults: &SourceDefaults) -> (id: SourceId)
        requires
            old(self).next_source_id < u64::MAX,
            old(self).library@.len() < u64::MAX,
        ensures
            id == SourceId(old(self).next_source_id),
            final(self).model() == model_mark_dirty(
                model_add_source(
                    old(self).model(),
                    source_type,
                    new_source_size(source_type, old(self).available_displays@, old(self).available_cameras@),
                    defaults@,
                ),
            ),
            final(self).keeps_other_fields(old(self)),
    {
        let new_id = SourceId(self.next_source_id);
        let count = self.count_type(source_type);
        let word = type_word_text(source_type);
        let mut name = word.to_string();
        proof {
            broadcast use vstd::string::group_string_axioms;

            assert(name@ == word@);
        }
        push_char(&mut name, ' ');
        push_decimal(&mut name, count as u64 + 1);
        assert(name@ == new_source_name(library_view(self.library@), source_type));
        let size = self.new_source_size_of(source_type);
        let properties = match source_type {
            SourceType::Display => SourceProperties::Display { screen_index: 0 },
            SourceType::Window => SourceProperties::Window {
                mode: WindowCaptureMode::AnyFullscreen,
                current_window_id: None,
            },
            SourceType::Camera => SourceProperties::Camera { device_index: 0, device_name: String::new() },
            SourceType::Image => SourceProperties::Image { path: String::new(), loop_mode: None },
            SourceType::Audio => SourceProperties::Audio { input: defaults.audio_input.duplicate() },
            SourceType::Text => SourceProperties::Text {
                text: TextProperties {
                    content: defaults.text_content.clone(),
                    font_family: defaults.font_family.clone(),
                    font_size: defaults.font_size,
                    font_color: defaults.font_color,
                    background_color: defaults.transparent,
                    bold: false,
                    italic: false,
                    alignment: TextAlignment::Left,
                    outline: None,
                    padding: defaults.padding,
                    wrap_width: None,
                },
            },
            SourceType::Color => SourceProperties::Color { fill: defaults.color_fill.duplicate() },
            SourceType::Browser => SourceProperties::Browser {
                url: String::new(),
                width: defaults.browser_width,
                height: defaults.browser_height,
            },
        };
        proof {
            broadcast use vstd::string::group_string_axioms;

        }
        assert(properties@ == default_properties(source_type, defaults@));
        let native_size = if source_type == SourceType::Browser {
            PixelSize { width: defaults.browser_width, height: defaults.browser_height }
        } else {
            size
        };
        let source = LibrarySource {
            id: new_id,
            name,
            source_type,
            properties,
            folder: None,
            transform: SourceTransform { x: 0, y: 0, width: size.width, height: size.height },
            native_size,
            aspect_ratio_locked: false,
            opacity_percent: 100,
            visible: true,
            muted: false,
            volume_percent: 100,
        };
        let ghost before = self.library@;
        let ghost sz = new_source_size(source_type, self.available_displays@, self.available_cameras@);
        self.library.push(source);
        self.next_source_id = self.next_source_id + 1;
        self.selected_library_source_id = Some(new_id);
        assert(library_view(self.library@) =~= library_view(before).push(
            new_source(new_id, new_source_name(library_view(before), source_type), source_type, sz, defaults@),
        ));
        assert(self.model() =~= model_add_source(old(self).model(), source_type, sz, defaults@));
        self.mark_dirty();
        new_id
    }

    /// The sources of the active scene that are audio sources, in order.
    pub fn active_scene_audio_source_ids(&self) -> (r: Vec<SourceId>)
        ensures
            r@ == audio_ids(active_source_ids(self.document()), library_view(self.library@)),
    {
        let mut out: Vec<SourceId> = Vec::new();
        match self.active_scene() {
            None => {
                assert(active_source_ids(self.document()) =~= Seq::<SourceId>::empty());
            },
            Some(scene) => {
                let ids = scene.source_ids();
                let ghost lib = library_view(self.library@);
                let n = ids.len();
                let mut i: usize = 0;
                assert(ids@.take(0) =~= Seq::<SourceId>::empty());
                while i < n
                    invariant
                        i <= n == ids@.len(),
                        lib == library_view(self.library@),
                        out@ == audio_ids(ids@.take(i as int), lib),
                    decreases n - i,
                {
                    assert(ids@.take(i + 1).drop_last() =~= ids@.take(i as int));
                    let id = ids[i];
                    match self.find_library_source(id) {
                        Some(source) => {
                            if source.source_type == SourceType::Audio {
                                out.push(id);
                            }
                        },
                        None => {},
                    }
                    i += 1;
                }
                assert(ids@.take(n as int) =~= ids@);
            },
        }
        out
    }

    /// Take a source out of the given scene only (the library keeps it),
    /// clear a selection whose primary source it was, note whether capture is
    /// still active, and record the change for undo. The result tells which
    /// capture pipelines to stop.
    #[verifier::rlimit(40)]
    pub fn remove_source_from_scene(&mut self, active_id: SceneId, src_id: SourceId) -> (r: CaptureStops)
        ensures
            final(self).model() == model_remove_from_scene(old(self).model(), active_id, src_id),
            final(self).capture_active == scene_has_sources(final(self).document().scenes, active_id),
            final(self).keeps_other_fields(&AppState { capture_active: final(self).capture_active, ..*old(self) }),
            r.stop_source == (find_library(library_view(old(self).library@), src_id) matches Some(l) && captures(l.source_type)),
            r.stop_all == !final(self).capture_active,
    {
        let stop_source = match self.find_library_source(src_id) {
            Some(source) => match source.source_type {
                SourceType::Display | SourceType::Window | SourceType::Camera | SourceType::Audio => true,
                _ => false,
            },
            None => false,
        };
        proof {
            lemma_scene_index(scenes_view(self.scenes@), active_id);
        }
        let k = self.scene_position(active_id);
        if k < self.scenes.len() {
            let changed = self.scenes[k].without_source(src_id);
            let ghost before = self.scenes@;
            self.scenes.set(k, changed);
            assert(scenes_view(self.scenes@) =~= scenes_without_in(scenes_view(before), active_id, src_id));
        } else {
            assert(scenes_view(self.scenes@) =~= scenes_without_in(scenes_view(self.scenes@), active_id, src_id));
        }
        let deselect = match self.primary_selected_id {
            Some(p) => p == src_id,
            None => false,
        };
        if deselect {
            self.deselect_all();
        }
        self.mark_dirty();
        let has_sources = self.scene_shows_sources(active_id);
        self.capture_active = has_sources;
        CaptureStops { stop_source, stop_all: !has_sources }
    }

    /// Whether the first scene with the given identifier shows any source.
    fn scene_shows_sources(&self, id: SceneId) -> (r: bool)
        ensures
            r == scene_has_sources(scenes_view(self.scenes@), id),
    {
        proof {
            lemma_scene_index(scenes_view(self.scenes@), id);
        }
        let k = self.scene_position(id);
        if k < self.scenes.len() {
            self.scenes[k].sources.len() > 0
        } else {
            false
        }
    }

    /// Commit the rename of a scene from the rename text: a name that is not
    /// empty once trimmed replaces the scene's name (recorded for undo), and
    /// the scene is no longer being renamed.
    pub fn commit_scene_rename(&mut self, scene_id: SceneId)
        ensures
            final(self).model() == model_rename_scene(old(self).model(), scene_id, old(self).rename_buffer@),
            final(self).renaming_scene_id is None,
            final(self).keeps_other_fields(&AppState { renaming_scene_id: None, ..*old(self) }),
    {
        let trimmed_chars = trim_chars(&chars_of(self.rename_buffer.as_str()));
        if trimmed_chars.len() > 0 {
            let name = string_of(trimmed_chars.as_slice());
            proof {
                lemma_scene_index(scenes_view(self.scenes@), scene_id);
            }
            let k = self.scene_position(scene_id);
            if k < self.scenes.len() {
                let mut scene = self.scenes[k].duplicate();
                scene.name = name;
                let ghost before = self.scenes@;
                self.scenes.set(k, scene);
                assert(scenes_view(self.scenes@) =~= scenes_renamed(scenes_view(before), scene_id, trimmed(old(self).rename_buffer@)));
            } else {
                assert(scenes_view(self.scenes@) =~= scenes_renamed(scenes_view(self.scenes@), scene_id, trimmed(old(self).rename_buffer@)));
            }
            self.mark_dirty();
        }
        self.renaming_scene_id = None;
    }

    /// The capture commands for switching the shown scene from `old_scene`
    /// to `new_scene`: a remove command for each source only the old scene
    /// shows, then a start command for each source only the new scene shows
    /// (see `start_command`), in the order of the scenes.
    pub fn scene_switch_commands(
        &self,
        old_scene: Option<&Scene>,
        new_scene: Option<&Scene>,
        exclude_self: bool,
    ) -> (cmds: Vec<CaptureCommand>)
        ensures
            ({
                let old_ids = shown_ids(match old_scene { Some(s) => Some(s@), None => None });
                let new_ids = shown_ids(match new_scene { Some(s) => Some(s@), None => None });
                commands_view(cmds@) == stop_commands(ids_not_in(old_ids, new_ids)) + start_commands(
                    ids_not_in(new_ids, old_ids),
                    library_view(self.library@),
                    exclude_self,
                )
            }),
    {
        let (stops, starts) = scene_diff(old_scene, new_scene);
        let mut cmds: Vec<CaptureCommand> = Vec::new();
        let n = stops.len();
        let mut i: usize = 0;
        while i < n
            invariant
                i <= n == stops@.len(),
                cmds@.len() == i,
                commands_view(cmds@) == stop_commands(stops@.take(i as int)),
            decreases n - i,
        {
            let ghost before = commands_view(cmds@);
            cmds.push(CaptureCommand::RemoveCaptureSource { source_id: stops[i] });
            assert(commands_view(cmds@) =~= before.push(CommandView::RemoveCaptureSource { source_id: stops@[i as int] }));
            i += 1;
            assert(stop_commands(stops@.take(i as int)) =~= before.push(
                CommandView::RemoveCaptureSource { source_id: stops@[i - 1] },
            ));
        }
        assert(stops@.take(n as int) =~= stops@);
        let ghost head = commands_view(cmds@);
        let ghost lib = library_view(self.library@);
        let m = starts.len();
        let mut j: usize = 0;
        assert(starts@.take(0) =~= Seq::<SourceId>::empty());
        assert(head + Seq::<CommandView>::empty() =~= head);
        while j < m
            invariant
                j <= m == starts@.len(),
                lib == library_view(self.library@),
                commands_view(cmds@) == head + start_commands(starts@.take(j as int), lib, exclude_self),
            decreases m - j,
        {
            let id = starts[j];
            assert(starts@.take(j + 1).drop_last() =~= starts@.take(j as int));
            let ghost before = commands_view(cmds@);
            match self.find_library_source(id) {
                Some(source) => match start_command_for(id, &source.properties, exclude_self) {
                    Some(c) => {
                        cmds.push(c);
                        assert(commands_view(cmds@) =~= before.push(c@));
                    },
                    None => {},
                },
                None => {},
            }
            j += 1;
        }
        assert(starts@.take(m as int) =~= starts@);
        cmds
    }

    /// Delete a source from the library and take it out of every scene,
    /// clearing the selections that named it; the change is recorded for undo.
    pub fn delete_source_cascade(&mut self, src_id: SourceId)
        ensures
            final(self).model() == model_mark_dirty(model_delete_source(old(self).model(), src_id)),
            final(self).keeps_other_fields(old(self)),
    {
        let mut scenes: Vec<Scene> = Vec::new();
        let n = self.scenes.len();
        let mut i: usize = 0;
        let ghost sv = scenes_view(self.scenes@);
        while i < n
            invariant
                i <= n == self.scenes@.len(),
                *self == *old(self),
                sv == scenes_view(self.scenes@),
                scenes@.len() == i,
                scenes_view(scenes@) == scenes_without_source(sv.take(i as int), src_id),
            decreases n - i,
        {
            let ghost before = scenes@;
            scenes.push(self.scenes[i].without_source(src_id));
            proof {
                let want = scenes_without_source(sv.take(i + 1), src_id);
                assert forall|k: int| 0 <= k < i + 1 implies #[trigger] scenes_view(scenes@)[k] == want[k] by {
                    if k < i {
                        assert(scenes@[k] == before[k]);
                        assert(scenes_view(before)[k] == scenes_without_source(sv.take(i as int), src_id)[k]);
                    } else {
                        assert(sv[k] == self.scenes@[k]@);
                    }
                }
                assert(scenes_view(scenes@) =~= want);
            }
            i += 1;
        }
        assert(sv.take(n as int) =~= sv);
        let mut library: Vec<LibrarySource> = Vec::new();
        let m = self.library.len();
        let mut j: usize = 0;
        let ghost lv = library_view(self.library@);
        assert(lv.take(0) =~= Seq::<LibraryView>::empty());
        while j < m
            invariant
                j <= m == self.library@.len(),
                *self == *old(self),
                lv == library_view(self.library@),
                library_view(library@) == other_library(lv.take(j as int), src_id),
            decreases m - j,
        {
            assert(lv.take(j + 1).drop_last() =~= lv.take(j as int));
            if self.library[j].id != src_id {
                library.push(self.library[j].duplicate());
                assert(library_view(library@) =~= other_library(lv.take(j as int), src_id).push(lv[j as int]));
            }
            j += 1;
        }
        assert(lv.take(m as int) =~= lv);
        self.scenes = scenes;
        self.library = library;
        let deselect = match self.primary_selected_id {
            Some(p) => p == src_id,
            None => false,
        };
        if deselect {
            self.deselect_all();
        }
        let clear_library = match self.selected_library_source_id {
            Some(p) => p == src_id,
            None => false,
        };
        if clear_library {
            self.selected_library_source_id = None;
        }
        assert(self.model() =~= model_delete_source(old(self).model(), src_id));
        self.mark_dirty();
    }

    // ── Selection helpers ──────────────────────────────────────────────────

    /// Returns the primary selected source ID.
    pub fn selected_source_id(&self) -> (r: Option<SourceId>)
        ensures
            r == self.primary_selected_id,
    {
        self.primary_selected_id
    }

    /// Select a single source (clears multi-select).
    pub fn select_source(&mut self, id: SourceId)
        ensures
            final(self).model() == (AppModel { selected: seq![id], primary: Some(id), ..old(self).model() }),
            final(self).keeps_other_fields(old(self)),
    {
        self.selected_source_ids = vec![id];
        self.primary_selected_id = Some(id);
        assert(self.selected_source_ids@ =~= seq![id]);
    }

    /// Deselect all sources.
    pub fn deselect_all(&mut self)
        ensures
            final(self).model() == (AppModel { selected: Seq::empty(), primary: None, ..old(self).model() }),
            final(self).keeps_other_fields(old(self)),
    {
        self.selected_source_ids.clear();
        self.primary_selected_id = None;
    }

    /// Toggle a source in the selection (for Shift+click).
    pub fn toggle_source_selection(&mut self, id: SourceId)
        ensures
            final(self).model() == model_toggle(old(self).model(), id),
            final(self).keeps_other_fields(old(self)),
    {
        let n = self.selected_source_ids.len();
        let mut i: usize = 0;
        while i < n
            invariant
                i <= n == self.selected_source_ids@.len(),
                *self == *old(self),
                forall|j: int| 0 <= j < i ==> self.selected_source_ids@[j] != id,
            decreases n - i,
        {
            if self.selected_source_ids[i] == id {
                let ghost m = old(self).model();
                proof {
                    assert(m.selected.contains(id));
                    let pos = choose|k: int|
                        0 <= k < m.selected.len() && m.selected[k] == id && forall|j: int|
                            0 <= j < k ==> m.selected[j] != id;
                    if pos < i {
                    } else if pos > i {
                        assert(m.selected[i as int] == id);
                    }
                    assert(pos == i);
                }
                self.selected_source_ids.remove(i);
                if self.primary_selected_id == Some(id) {
                    let len = self.selected_source_ids.len();
                    self.primary_selected_id = if len > 0 {
                        Some(self.selected_source_ids[len - 1])
                    } else {
                        None
                    };
                }
                return;
            }
            i += 1;
        }
        self.selected_source_ids.push(id);
        self.primary_selected_id = Some(id);
    }

    /// Check if a source is selected.
    pub fn is_source_selected(&self, id: SourceId) -> (r: bool)
        ensures
            r == self.selected_source_ids@.contains(id),
    {
        let n = self.selected_source_ids.len();
        let mut i: usize = 0;
        while i < n
            invariant
                i <= n == self.selected_source_ids@.len(),
                forall|j: int| 0 <= j < i ==> self.selected_source_ids@[j] != id,
            decreases n - i,
        {
            if self.selected_source_ids[i] == id {
                return true;
            }
            i += 1;
        }
        false
    }

    /// Count how many scenes reference a given source.
    pub fn source_usage_count(&self, source_id: SourceId) -> (count: usize)
        ensures
            count == usage_count(scenes_view(self.scenes@), source_id),
    {
        let n = self.scenes.len();
        let mut i: usize = 0;
        let mut count: usize = 0;
        let ghost sc = scenes_view(self.scenes@);
        while i < n
            invariant
                i <= n == self.scenes@.len(),
                sc == scenes_view(self.scenes@),
                count <= i,
                count == usage_count(sc.take(i as int), source_id),
            decreases n - i,
        {
            assert(sc.take(i + 1).drop_last() =~= sc.take(i as int));
            if self.scenes[i].uses_source(source_id) {
                count += 1;
            }
            i += 1;
        }
        assert(sc.take(n as int) =~= sc);
        count
    }

    /// Get scene names that reference a given source.
    pub fn scenes_using_source(&self, source_id: SourceId) -> (names: Vec<String>)
        ensures
            names@.map_values(|s: String| s@) == names_using(scenes_view(self.scenes@), source_id),
    {
        let n = self.scenes.len();
        let mut i: usize = 0;
        let mut names: Vec<String> = Vec::new();
        let ghost sc = scenes_view(self.scenes@);
        while i < n
            invariant
                i <= n == self.scenes@.len(),
                sc == scenes_view(self.scenes@),
                names@.map_values(|s: String| s@) == names_using(sc.take(i as int), source_id),
            decreases n - i,
        {
            assert(sc.take(i + 1).drop_last() =~= sc.take(i as int));
            let ghost before = names@;
            if self.scenes[i].uses_source(source_id) {
                names.push(self.scenes[i].name.clone());
                assert(names@.map_values(|s: String| s@) =~= before.map_values(|s: String| s@).push(
                    sc[i as int].name,
                ));
            }
            i += 1;
        }
        assert(sc.take(n as int) =~= sc);
        names
    }

    // ── Undo-aware dirty marking ──────────────────────────────────────────

    /// A separately owned copy of the undoable part of the state.
    fn snapshot(&self) -> (snap: UndoSnapshot)
        ensures
            snap@ == self.document(),
    {
        let mut scenes: Vec<Scene> = Vec::new();
        let n = self.scenes.len();
        let mut i: usize = 0;
        while i < n
            invariant
                i <= n == self.scenes@.len(),
                scenes@.len() == i,
                scenes_view(scenes@) == scenes_view(self.scenes@.take(i as int)),
            decreases n - i,
        {
            let ghost before = scenes@;
            let d = self.scenes[i].duplicate();
            assert(d@ == self.scenes@[i as int]@);
            scenes.push(d);
            assert(scenes_view(scenes@) =~= scenes_view(self.scenes@.take(i + 1))) by {
                assert forall|k: int| 0 <= k < i implies #[trigger] scenes@[k]@ == self.scenes@[k]@ by {
                    assert(scenes_view(before)[k] == scenes_view(self.scenes@.take(i as int))[k]);
                }
            }
            i += 1;
        }
        let mut library: Vec<LibrarySource> = Vec::new();
        let m = self.library.len();
        let mut j: usize = 0;
        while j < m
            invariant
                j <= m == self.library@.len(),
                library@.len() == j,
                library_view(library@) == library_view(self.library@.take(j as int)),
            decreases m - j,
        {
            let ghost before = library@;
            let d = self.library[j].duplicate();
            assert(d@ == self.library@[j as int]@);
            library.push(d);
            assert(library_view(library@) =~= library_view(self.library@.take(j + 1))) by {
                assert forall|k: int| 0 <= k < j implies #[trigger] library@[k]@ == self.library@[k]@ by {
                    assert(library_view(before)[k] == library_view(self.library@.take(j as int))[k]);
                }
            }
            j += 1;
        }
        assert(self.scenes@.take(n as int) =~= self.scenes@);
        assert(self.library@.take(m as int) =~= self.library@);
        UndoSnapshot {
            scenes,
            library,
            active_scene_id: self.active_scene_id,
            next_scene_id: self.next_scene_id,
            next_source_id: self.next_source_id,
        }
    }

    /// Capture a snapshot of the current state at the start of each UI frame.
    /// If any mutation calls `mark_dirty()` during this frame, the snapshot
    /// is pushed onto the undo stack (capturing the pre-mutation state).
    pub fn begin_frame_for_undo(&mut self)
        ensures
            final(self).model() == model_begin_frame(old(self).model()),
            final(self).keeps_other_fields(old(self)),
    {
        if self.in_continuous_edit {
            return;
        }
        self.frame_snapshot = Some(self.snapshot());
    }

    /// Mark the scene collection as dirty and push the pre-frame undo snapshot.
    ///
    /// This is the single chokepoint for all scene/library mutations, so that
    /// every mutation is undoable.
    pub fn mark_dirty(&mut self)
        ensures
            final(self).model() == model_mark_dirty(old(self).model()),
            final(self).keeps_other_fields(old(self)),
    {
        let snapshot = self.frame_snapshot.take();
        if let Some(snap) = snapshot {
            self.undo_stack.redo.clear();
            let ghost before = self.undo_stack.undo@;
            self.undo_stack.undo.push(snap);
            proof {
                lemma_snapshots_push(before, snap);
            }
            if self.undo_stack.undo.len() > UNDO_MAX_DEPTH {
                let ghost full = self.undo_stack.undo@;
                self.undo_stack.undo.remove(0);
                proof {
                    lemma_snapshots_drop_first(full);
                }
            }
        } else if !self.in_continuous_edit && !self.scenes_dirty {
            self.undo_stack.redo.clear();
            let snap = self.snapshot();
            let ghost before = self.undo_stack.undo@;
            self.undo_stack.undo.push(snap);
            proof {
                lemma_snapshots_push(before, snap);
            }
            if self.undo_stack.undo.len() > UNDO_MAX_DEPTH {
                let ghost full = self.undo_stack.undo@;
                self.undo_stack.undo.remove(0);
                proof {
                    lemma_snapshots_drop_first(full);
                }
            }
        }
        self.scenes_dirty = true;
        assert(snapshots_view(self.undo_stack.redo@) =~= snapshots_view(old(self).undo_stack.redo@)
            || self.undo_stack.redo@.len() == 0);
        proof {
            if self.undo_stack.redo@.len() == 0 {
                assert(snapshots_view(self.undo_stack.redo@) =~= Seq::<Document>::empty());
            }
        }
    }

    /// Mark dirty without pushing an undo snapshot.
    /// Used only by the undo/redo restore path.
    pub fn mark_dirty_no_undo(&mut self)
        ensures
            final(self).model() == (AppModel { scenes_dirty: true, ..old(self).model() }),
            final(self).keeps_other_fields(old(self)),
    {
        self.scenes_dirty = true;
    }

    /// Begin a continuous edit gesture (drag, slider): until it ends, the
    /// pre-frame snapshot is kept and later `mark_dirty` calls record nothing.
    pub fn begin_continuous_edit(&mut self)
        ensures
            final(self).model() == (AppModel { in_continuous_edit: true, ..old(self).model() }),
            final(self).keeps_other_fields(old(self)),
    {
        if !self.in_continuous_edit {
            self.in_continuous_edit = true;
        }
    }

    /// End a continuous edit gesture. The next frame will capture a fresh snapshot.
    pub fn end_continuous_edit(&mut self)
        ensures
            final(self).model() == (AppModel { in_continuous_edit: false, ..old(self).model() }),
            final(self).keeps_other_fields(old(self)),
    {
        self.in_continuous_edit = false;
    }
}


fn contains_id(v: &Vec<SourceId>, id: SourceId) -> (r: bool)
    ensures
        r == v@.contains(id),
{
    let n = v.len();
    let mut i: usize = 0;
    while i < n
        invariant
            i <= n == v@.len(),
            forall|j: int| 0 <= j < i ==> v@[j] != id,
        decreases n - i,
    {
        if v[i] == id {
            return true;
        }
        i += 1;
    }
    false
}

impl UndoStack {
    /// Put a snapshot in place and clear selections that reference sources
    /// or scenes that no longer exist.
    fn restore(snapshot: UndoSnapshot, state: &mut AppState)
        ensures
            final(state).model() == model_restore(old(state).model(), snapshot@),
            final(state).keeps_other_fields(old(state)),
    {
        let ghost d = snapshot@;
        state.scenes = snapshot.scenes;
        state.library = snapshot.library;
        state.active_scene_id = snapshot.active_scene_id;
        state.next_scene_id = snapshot.next_scene_id;
        state.next_source_id = snapshot.next_source_id;
        assert(state.document() == d);
        let active_ids: Vec<SourceId> = match state.active_scene() {
            Some(s) => s.source_ids(),
            None => Vec::new(),
        };
        assert(active_ids@ =~= active_source_ids(d));
        let ghost sel = state.selected_source_ids@;
        let mut kept: Vec<SourceId> = Vec::new();
        let n = state.selected_source_ids.len();
        let mut i: usize = 0;
        while i < n
            invariant
                i <= n == sel.len(),
                state.selected_source_ids@ == sel,
                active_ids@ == active_source_ids(d),
                kept@ == retained(sel.take(i as int), active_ids@),
            decreases n - i,
        {
            assert(sel.take(i + 1).drop_last() =~= sel.take(i as int));
            let id = state.selected_source_ids[i];
            if contains_id(&active_ids, id) {
                kept.push(id);
            }
            i += 1;
        }
        assert(sel.take(n as int) =~= sel);
        state.selected_source_ids = kept;
        if let Some(primary) = state.primary_selected_id {
            if !contains_id(&state.selected_source_ids, primary) {
                let len = state.selected_source_ids.len();
                state.primary_selected_id = if len > 0 {
                    Some(state.selected_source_ids[len - 1])
                } else {
                    None
                };
            }
        }
        if let Some(id) = state.selected_library_source_id {
            let m = state.library.len();
            let mut j: usize = 0;
            let mut found = false;
            while j < m
                invariant
                    j <= m == state.library@.len(),
                    library_view(state.library@) == d.library,
                    found == exists|k: int| 0 <= k < j && (#[trigger] d.library[k]).id == id,
                decreases m - j,
            {
                assert(d.library[j as int] == state.library@[j as int]@);
                if state.library[j].id == id {
                    found = true;
                }
                j += 1;
            }
            if !found {
                state.selected_library_source_id = None;
            }
        }
        state.mark_dirty_no_undo();
    }
}

impl AppState {
    /// Undo the last action. Returns `true` if state was restored.
    pub fn undo(&mut self) -> (restored: bool)
        ensures
            restored == (old(self).undo_stack.undo@.len() > 0),
            final(self).model() == model_undo(old(self).model()),
            final(self).keeps_other_fields(old(self)),
    {
        let ghost undo0 = self.undo_stack.undo@;
        let snapshot = match self.undo_stack.undo.pop() {
            Some(s) => s,
            None => {
                return false;
            },
        };
        proof {
            lemma_snapshots_drop_last(undo0);
        }
        let current = self.snapshot();
        let ghost redo0 = self.undo_stack.redo@;
        self.undo_stack.redo.push(current);
        proof {
            lemma_snapshots_push(redo0, current);
        }
        UndoStack::restore(snapshot, self);
        true
    }

    /// Redo the last undone action. Returns `true` if state was restored.
    pub fn redo(&mut self) -> (restored: bool)
        ensures
            restored == (old(self).undo_stack.redo@.len() > 0),
            final(self).model() == model_redo(old(self).model()),
            final(self).keeps_other_fields(old(self)),
    {
        let ghost redo0 = self.undo_stack.redo@;
        let snapshot = match self.undo_stack.redo.pop() {
            Some(s) => s,
            None => {
                return false;
            },
        };
        proof {
            lemma_snapshots_drop_last(redo0);
        }
        let current = self.snapshot();
        let ghost undo0 = self.undo_stack.undo@;
        self.undo_stack.undo.push(current);
        proof {
            lemma_snapshots_push(undo0, current);
        }
        UndoStack::restore(snapshot, self);
        true
    }
}


// ── Laws of the undo history ────────────────────────────────────────────────

/// An edit made in a frame and recorded by `mark_dirty` is reverted by
/// `undo`: the document is again the one the frame started with.
pub proof fn lemma_undo_reverts_frame_edit(m: AppModel, edited: Document)
    requires
        !m.in_continuous_edit,
    ensures
        model_undo(model_mark_dirty(AppModel { doc: edited, ..model_begin_frame(m) })).doc == m.doc,
{
}

/// `redo` after a successful `undo` gives back the document and both histories.
pub proof fn lemma_redo_after_undo(m: AppModel)
    requires
        m.undo.len() > 0,
    ensures
        model_redo(model_undo(m)).doc == m.doc,
        model_redo(model_undo(m)).undo == m.undo,
        model_redo(model_undo(m)).redo == m.redo,
{
    assert(m.undo.drop_last().push(m.undo.last()) =~= m.undo);
    assert(m.redo.push(m.doc).drop_last() =~= m.redo);
}

/// `undo` after a successful `redo` gives back the document and both histories.
pub proof fn lemma_undo_after_redo(m: AppModel)
    requires
        m.redo.len() > 0,
    ensures
        model_undo(model_redo(m)).doc == m.doc,
        model_undo(model_redo(m)).undo == m.undo,
        model_undo(model_redo(m)).redo == m.redo,
{
    assert(m.redo.drop_last().push(m.redo.last()) =~= m.redo);
    assert(m.undo.push(m.doc).drop_last() =~= m.undo);
}

/// The undo and redo histories together never hold more than
/// `UNDO_MAX_DEPTH` documents: every operation keeps that bound.
pub proof fn lemma_history_bounded(m: AppModel)
    requires
        m.undo.len() + m.redo.len() <= UNDO_MAX_DEPTH,
    ensures
        ({
            let a = model_begin_frame(m);
            a.undo.len() + a.redo.len() <= UNDO_MAX_DEPTH
        }),
        ({
            let a = model_mark_dirty(m);
            a.undo.len() + a.redo.len() <= UNDO_MAX_DEPTH
        }),
        ({
            let a = model_undo(m);
            a.undo.len() + a.redo.len() <= UNDO_MAX_DEPTH
        }),
        ({
            let a = model_redo(m);
            a.undo.len() + a.redo.len() <= UNDO_MAX_DEPTH
        }),
{
}

proof fn lemma_retained_subset(s: Seq<SourceId>, keep: Seq<SourceId>)
    ensures
        forall|i: int| 0 <= i < retained(s, keep).len() ==> keep.contains(#[trigger] retained(s, keep)[i]),
    decreases s.len(),
{
    if s.len() > 0 {
        lemma_retained_subset(s.drop_last(), keep);
        let r = retained(s.drop_last(), keep);
        if keep.contains(s.last()) {
            assert forall|i: int| 0 <= i < r.push(s.last()).len() implies keep.contains(
                #[trigger] r.push(s.last())[i],
            ) by {
                if i < r.len() {
                    assert(r.push(s.last())[i] == r[i]);
                }
            }
        }
    }
}

/// After a document is put back by `undo` or `redo`, every selected source
/// belongs to the active scene, and the primary selection is one of them.
pub proof fn lemma_restore_selection_valid(m: AppModel, d: Document)
    ensures
        ({
            let r = model_restore(m, d);
            &&& forall|i: int| 0 <= i < r.selected.len() ==> active_source_ids(d).contains(#[trigger] r.selected[i])
            &&& r.primary matches Some(p) ==> r.selected.contains(p)
            &&& r.selected_library matches Some(id) ==> library_has(d.library, id)
        }),
{
    lemma_retained_subset(m.selected, active_source_ids(d));
    let r = model_restore(m, d);
    if r.selected.len() > 0 {
        assert(r.selected[r.selected.len() - 1] == r.selected.last());
    }
}


/// No source kept by `other_sources` is `id`.
proof fn lemma_other_sources_exclude(s: Seq<SceneSource>, id: SourceId)
    ensures
        !source_ids_of(other_sources(s, id)).contains(id),
    decreases s.len(),
{
    if s.len() > 0 {
        lemma_other_sources_exclude(s.drop_last(), id);
        let r = other_sources(s.drop_last(), id);
        if s.last().source_id != id {
            assert(source_ids_of(r.push(s.last())) =~= source_ids_of(r).push(s.last().source_id));
        }
    }
}

/// No library source kept by `other_library` is `id`.
proof fn lemma_other_library_exclude(l: Seq<LibraryView>, id: SourceId)
    ensures
        forall|j: int| 0 <= j < other_library(l, id).len() ==> (#[trigger] other_library(l, id)[j]).id != id,
    decreases l.len(),
{
    if l.len() > 0 {
        lemma_other_library_exclude(l.drop_last(), id);
        let r = other_library(l.drop_last(), id);
        if l.last().id != id {
            assert forall|j: int| 0 <= j < r.push(l.last()).len() implies (#[trigger] r.push(l.last())[j]).id != id by {
                if j < r.len() {
                    assert(r.push(l.last())[j] == r[j]);
                }
            }
        }
    }
}

/// A library without source `id` has nothing to find under `id`.
proof fn lemma_find_library_absent(l: Seq<LibraryView>, id: SourceId)
    requires
        forall|j: int| 0 <= j < l.len() ==> (#[trigger] l[j]).id != id,
    ensures
        find_library(l, id) is None,
    decreases l.len(),
{
    if l.len() > 0 {
        assert(l[0].id != id);
        assert forall|j: int| 0 <= j < l.drop_first().len() implies (#[trigger] l.drop_first()[j]).id != id by {
            assert(l.drop_first()[j] == l[j + 1]);
        }
        lemma_find_library_absent(l.drop_first(), id);
    }
}

/// After a source is deleted, no scene shows it, the library no longer holds
/// it and neither selection names it.
pub proof fn lemma_deleted_source_gone(m: AppModel, id: SourceId)
    ensures
        ({
            let after = model_mark_dirty(model_delete_source(m, id));
            &&& forall|k: int| 0 <= k < after.doc.scenes.len() ==> !source_ids_of(
                (#[trigger] after.doc.scenes[k]).sources,
            ).contains(id)
            &&& find_library(after.doc.library, id) is None
            &&& after.primary != Some(id)
            &&& after.selected_library != Some(id)
        }),
{
    let after = model_mark_dirty(model_delete_source(m, id));
    assert forall|k: int| 0 <= k < after.doc.scenes.len() implies !source_ids_of(
        (#[trigger] after.doc.scenes[k]).sources,
    ).contains(id) by {
        lemma_other_sources_exclude(m.doc.scenes[k].sources, id);
    }
    lemma_other_library_exclude(m.doc.library, id);
    lemma_find_library_absent(other_library(m.doc.library, id), id);
}

/// The command that starts a source carries that source's own identifier and
/// settings: the screen index of a display, the mode of a window source, the
/// device index of a camera, the device or file of an audio source and the
/// file and looping of an image; an image without a file, and text, colour
/// and browser sources, start no pipeline.
pub proof fn lemma_start_command_carries_settings(id: SourceId, p: PropertiesView, x: bool)
    ensures
        p matches PropertiesView::Display { screen_index } ==> start_command(id, p, x) == Some(
            CommandView::CaptureScreen { source_id: id, screen_index, exclude_self: x },
        ),
        p matches PropertiesView::Window { mode, .. } ==> start_command(id, p, x) == Some(
            CommandView::CaptureWindow { source_id: id, mode },
        ),
        p matches PropertiesView::Camera { device_index, .. } ==> start_command(id, p, x) == Some(
            CommandView::CaptureCamera { source_id: id, device_index },
        ),
        p matches PropertiesView::Audio { input: AudioInputView::Device { device_uid, .. } }
            ==> start_command(id, p, x) == Some(CommandView::CaptureAudioDevice { source_id: id, device_uid }),
        p matches PropertiesView::Audio { input: AudioInputView::File { path, looping } }
            ==> start_command(id, p, x) == Some(CommandView::CaptureAudioFile { source_id: id, path, looping }),
        p matches PropertiesView::Image { path, loop_mode } ==> start_command(id, p, x) == (if path.len() > 0 {
            Some(CommandView::LoadImage { source_id: id, path, loop_mode })
        } else {
            None
        }),
        (p is Text || p is Color || p is Browser) ==> start_command(id, p, x) is None,
{
}

/// The sources whose removal from a scene stops their own pipeline are
/// exactly those whose start, with the settings a new source of their type
/// has, opens a capture pipeline (rather than loading an image or nothing).
pub proof fn lemma_stops_match_starts(t: SourceType, d: DefaultsView, id: SourceId, x: bool)
    ensures
        captures(t) <==> (start_command(id, default_properties(t, d), x) matches Some(c) && !(c is LoadImage)),
{
}

/// Committing a rename of `scene` with a text that is not blank once trimmed
/// gives the first scene with that identifier the trimmed text as its name,
/// keeps all its other settings, and leaves every other scene as it was; a
/// blank text changes nothing.
pub proof fn lemma_rename_targets_the_scene(m: AppModel, scene: SceneId, text: Seq<char>)
    ensures
        ({
            let after = model_rename_scene(m, scene, text).doc.scenes;
            let before = m.doc.scenes;
            &&& after.len() == before.len()
            &&& trimmed(text).len() == 0 ==> model_rename_scene(m, scene, text) == m
            &&& trimmed(text).len() > 0 ==> {
                &&& find_scene(after, scene) == match find_scene(before, scene) {
                    Some(s) => Some(SceneView { name: trimmed(text), ..s }),
                    None => None,
                }
                &&& forall|j: int| 0 <= j < before.len() && before[j].id != scene ==> #[trigger] after[j]
                    == before[j]
                &&& forall|j: int| 0 <= j < before.len() ==> (#[trigger] after[j]).id == before[j].id
            }
        }),
{
    let before = m.doc.scenes;
    lemma_scene_index(before, scene);
    if trimmed(text).len() > 0 {
        let after = model_rename_scene(m, scene, text).doc.scenes;
        let k = scene_index(before, scene);
        if k < before.len() {
            lemma_scene_index(after, scene);
            assert(after[k].id == scene);
            assert(forall|j: int| 0 <= j < k ==> before[j].id != scene) by {
                lemma_scene_index_first(before, scene);
            }
            assert(scene_index(after, scene) == k) by {
                lemma_scene_index_first(after, scene);
                lemma_scene_index_at(after, scene, k);
            }
        } else {
            assert(after == before);
        }
    }
}

/// No scene before `scene_index` has the identifier.
proof fn lemma_scene_index_first(scenes: Seq<SceneView>, id: SceneId)
    ensures
        forall|j: int| 0 <= j < scene_index(scenes, id) && j < scenes.len() ==> (#[trigger] scenes[j]).id != id,
    decreases scenes.len(),
{
    if scenes.len() > 0 && scenes[0].id != id {
        lemma_scene_index_first(scenes.drop_first(), id);
        assert forall|j: int| 0 <= j < scene_index(scenes, id) && j < scenes.len() implies (#[trigger] scenes[j]).id
            != id by {
            if j > 0 {
                assert(scenes.drop_first()[j - 1] == scenes[j]);
            }
        }
    }
}

/// A scene with the identifier at `k`, none before it: `scene_index` is `k`.
proof fn lemma_scene_index_at(scenes: Seq<SceneView>, id: SceneId, k: int)
    requires
        0 <= k < scenes.len(),
        scenes[k].id == id,
        forall|j: int| 0 <= j < k ==> (#[trigger] scenes[j]).id != id,
    ensures
        scene_index(scenes, id) == k,
    decreases k,
{
    if k > 0 {
        assert(scenes[0].id != id);
        assert forall|j: int| 0 <= j < k - 1 implies (#[trigger] scenes.drop_first()[j]).id != id by {
            assert(scenes.drop_first()[j] == scenes[j + 1]);
        }
        lemma_scene_index_at(scenes.drop_first(), id, k - 1);
    }
}

/// The number of scenes that use a source is the number of scene names
/// listed for it, at most the number of scenes, and zero exactly when no
/// scene shows the source.
pub proof fn lemma_usage_count_and_names(scenes: Seq<SceneView>, id: SourceId)
    ensures
        usage_count(scenes, id) == names_using(scenes, id).len(),
        usage_count(scenes, id) <= scenes.len(),
        usage_count(scenes, id) == 0 <==> forall|k: int|
            0 <= k < scenes.len() ==> !source_ids_of((#[trigger] scenes[k]).sources).contains(id),
    decreases scenes.len(),
{
    if scenes.len() > 0 {
        let p = scenes.drop_last();
        lemma_usage_count_and_names(p, id);
        if usage_count(scenes, id) == 0 {
            assert forall|k: int| 0 <= k < scenes.len() implies !source_ids_of((#[trigger] scenes[k]).sources).contains(
                id,
            ) by {
                if k < p.len() {
                    assert(p[k] == scenes[k]);
                }
            }
        } else if forall|k: int| 0 <= k < scenes.len() ==> !source_ids_of((#[trigger] scenes[k]).sources).contains(id) {
            assert(!source_ids_of(scenes[scenes.len() - 1].sources).contains(id));
            assert forall|k: int| 0 <= k < p.len() implies !source_ids_of((#[trigger] p[k]).sources).contains(id) by {
                assert(p[k] == scenes[k]);
            }
        }
    }
}

} // verus!
