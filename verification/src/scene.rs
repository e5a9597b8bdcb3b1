//! Scenes and library sources, as far as the application state reads them:
//! identifiers, names and which sources each scene shows.
use vstd::prelude::*;
use crate::labels::{AudioInput, AudioInputView, SourceType};

verus! {

/// Identifies a scene.
#[derive(Debug, Clone, Copy, PartialEq, Eq, Structural, Hash)]
pub struct SceneId(pub u64);

/// Identifies a source of the library.
#[derive(Debug, Clone, Copy, PartialEq, Eq, Structural, Hash)]
pub struct SourceId(pub u64);

/// Per-scene overrides of a source's settings. None are kept yet: every
/// scene shows a source with its library settings.
#[derive(Debug, Clone, Copy, PartialEq, Eq, Structural, Default)]
pub struct SourceOverrides {}

/// A library source placed in a scene.
#[derive(Debug, Clone, Copy, PartialEq, Eq, Structural)]
pub struct SceneSource {
    pub source_id: SourceId,
    pub overrides: SourceOverrides,
}

/// A scene: a named, ordered list of sources.
#[derive(Debug, Clone)]
pub struct Scene {
    pub id: SceneId,
    pub name: String,
    pub sources: Vec<SceneSource>,
    pub pinned: bool,
}

/// The value of a scene.
pub struct SceneView {
    pub id: SceneId,
    pub name: Seq<char>,
    pub sources: Seq<SceneSource>,
    pub pinned: bool,
}

impl View for Scene {
    type V = SceneView;

    open spec fn view(&self) -> SceneView {
        SceneView { id: self.id, name: self.name@, sources: self.sources@, pinned: self.pinned }
    }
}

/// The identifiers of the sources of a scene, in order.
pub open spec fn source_ids_of(sources: Seq<SceneSource>) -> Seq<SourceId> {
    sources.map_values(|s: SceneSource| s.source_id)
}

/// The sources other than those of library source `id`, in order.
pub open spec fn other_sources(s: Seq<SceneSource>, id: SourceId) -> Seq<SceneSource>
    decreases s.len(),
{
    if s.len() == 0 {
        s
    } else if s.last().source_id == id {
        other_sources(s.drop_last(), id)
    } else {
        other_sources(s.drop_last(), id).push(s.last())
    }
}

impl Scene {
    /// The identifiers of this scene's sources, in order.
    pub fn source_ids(&self) -> (ids: Vec<SourceId>)
        ensures
            ids@ == source_ids_of(self.sources@),
    {
        let mut ids: Vec<SourceId> = Vec::new();
        let n = self.sources.len();
        let mut i: usize = 0;
        while i < n
            invariant
                i <= n == self.sources@.len(),
                ids@ == source_ids_of(self.sources@.take(i as int)),
            decreases n - i,
        {
            ids.push(self.sources[i].source_id);
            i += 1;
            assert(ids@ =~= source_ids_of(self.sources@.take(i as int)));
        }
        assert(self.sources@.take(n as int) =~= self.sources@);
        ids
    }

    /// An equal, separately owned scene.
    pub fn duplicate(&self) -> (s: Scene)
        ensures
            s@ == self@,
    {
        let mut sources: Vec<SceneSource> = Vec::new();
        let n = self.sources.len();
        let mut i: usize = 0;
        while i < n
            invariant
                i <= n == self.sources@.len(),
                sources@ == self.sources@.take(i as int),
            decreases n - i,
        {
            sources.push(self.sources[i]);
            i += 1;
            assert(sources@ =~= self.sources@.take(i as int));
        }
        assert(self.sources@.take(n as int) =~= self.sources@);
        Scene { id: self.id, name: self.name.clone(), sources, pinned: self.pinned }
    }

    /// The scene without the given library source.
    pub fn without_source(&self, id: SourceId) -> (s: Scene)
        ensures
            s@ == (SceneView { sources: other_sources(self.sources@, id), ..self@ }),
    {
        let mut sources: Vec<SceneSource> = Vec::new();
        let n = self.sources.len();
        let mut i: usize = 0;
        assert(self.sources@.take(0) =~= Seq::<SceneSource>::empty());
        while i < n
            invariant
                i <= n == self.sources@.len(),
                sources@ == other_sources(self.sources@.take(i as int), id),
            decreases n - i,
        {
            assert(self.sources@.take(i + 1).drop_last() =~= self.sources@.take(i as int));
            if self.sources[i].source_id != id {
                sources.push(self.sources[i]);
            }
            i += 1;
        }
        assert(self.sources@.take(n as int) =~= self.sources@);
        Scene { id: self.id, name: self.name.clone(), sources, pinned: self.pinned }
    }

    /// Whether the scene shows the given source.
    pub fn uses_source(&self, source_id: SourceId) -> (r: bool)
        ensures
            r == source_ids_of(self.sources@).contains(source_id),
    {
        let n = self.sources.len();
        let mut i: usize = 0;
        while i < n
            invariant
                i <= n == self.sources@.len(),
                forall|k: int| 0 <= k < i ==> (#[trigger] self.sources@[k]).source_id != source_id,
            decreases n - i,
        {
            if self.sources[i].source_id == source_id {
                assert(source_ids_of(self.sources@)[i as int] == source_id);
                return true;
            }
            i += 1;
        }
        proof {
            if source_ids_of(self.sources@).contains(source_id) {
                let k = choose|k: int|
                    0 <= k < source_ids_of(self.sources@).len() && source_ids_of(self.sources@)[k]
                        == source_id;
                assert(self.sources@[k].source_id == source_id);
            }
        }
        false
    }
}

/// Where a source sits on the canvas and how large it is drawn, in pixels.
#[derive(Debug, Clone, Copy, PartialEq, Eq, Structural)]
pub struct SourceTransform {
    pub x: i32,
    pub y: i32,
    pub width: u32,
    pub height: u32,
}

/// A width and height in pixels.
#[derive(Debug, Clone, Copy, PartialEq, Eq, Structural)]
pub struct PixelSize {
    pub width: u32,
    pub height: u32,
}

/// A colour as red, green, blue and alpha, each in thousandths of full
/// intensity (0 to 1000).
pub type Rgba = [u16; 4];

/// Which windows a window source captures.
#[derive(Debug, Clone)]
pub enum WindowCaptureMode {
    /// Whatever application is full screen.
    AnyFullscreen,
    /// One application, optionally pinned to a window title.
    Application { bundle_id: String, app_name: String, pinned_title: Option<String> },
}

/// The value of a window capture mode.
pub enum WindowModeView {
    AnyFullscreen,
    Application { bundle_id: Seq<char>, app_name: Seq<char>, pinned_title: Option<Seq<char>> },
}

pub open spec fn text_option(o: Option<String>) -> Option<Seq<char>> {
    match o {
        Some(t) => Some(t@),
        None => None,
    }
}

fn duplicate_text_option(o: &Option<String>) -> (r: Option<String>)
    ensures
        text_option(r) == text_option(*o),
{
    match o {
        Some(t) => Some(t.clone()),
        None => None,
    }
}

impl View for WindowCaptureMode {
    type V = WindowModeView;

    open spec fn view(&self) -> WindowModeView {
        match self {
            WindowCaptureMode::AnyFullscreen => WindowModeView::AnyFullscreen,
            WindowCaptureMode::Application { bundle_id, app_name, pinned_title } => WindowModeView::Application {
                bundle_id: bundle_id@,
                app_name: app_name@,
                pinned_title: text_option(*pinned_title),
            },
        }
    }
}

impl WindowCaptureMode {
    /// An equal, separately owned mode.
    pub fn duplicate(&self) -> (m: WindowCaptureMode)
        ensures
            m@ == self@,
    {
        match self {
            WindowCaptureMode::AnyFullscreen => WindowCaptureMode::AnyFullscreen,
            WindowCaptureMode::Application { bundle_id, app_name, pinned_title } => WindowCaptureMode::Application {
                bundle_id: bundle_id.clone(),
                app_name: app_name.clone(),
                pinned_title: duplicate_text_option(pinned_title),
            },
        }
    }
}

/// How often an animated image plays.
#[derive(Debug, Clone, Copy, PartialEq, Eq)]
pub enum LoopMode {
    Infinite,
    Once,
    Count(u32),
}

/// A colour stop of a gradient, at `position` thousandths along it.
#[derive(Debug, Clone, Copy, PartialEq, Eq)]
pub struct GradientStop {
    pub position: u32,
    pub color: Rgba,
}

/// How a colour source is filled. The angle is in hundredths of a degree;
/// the radial centre and radius are in thousandths of the source's size.
#[derive(Debug, Clone)]
pub enum ColorFill {
    Solid { color: Rgba },
    LinearGradient { angle: i32, stops: Vec<GradientStop> },
    RadialGradient { center_x: u32, center_y: u32, radius: u32, stops: Vec<GradientStop> },
}

/// The value of a colour fill.
pub enum ColorFillView {
    Solid { color: Rgba },
    LinearGradient { angle: i32, stops: Seq<GradientStop> },
    RadialGradient { center_x: u32, center_y: u32, radius: u32, stops: Seq<GradientStop> },
}

impl View for ColorFill {
    type V = ColorFillView;

    open spec fn view(&self) -> ColorFillView {
        match self {
            ColorFill::Solid { color } => ColorFillView::Solid { color: *color },
            ColorFill::LinearGradient { angle, stops } => ColorFillView::LinearGradient { angle: *angle, stops: stops@ },
            ColorFill::RadialGradient { center_x, center_y, radius, stops } => ColorFillView::RadialGradient {
                center_x: *center_x,
                center_y: *center_y,
                radius: *radius,
                stops: stops@,
            },
        }
    }
}

fn duplicate_stops(v: &Vec<GradientStop>) -> (r: Vec<GradientStop>)
    ensures
        r@ == v@,
{
    let mut out: Vec<GradientStop> = Vec::new();
    let n = v.len();
    let mut i: usize = 0;
    while i < n
        invariant
            i <= n == v@.len(),
            out@ == v@.take(i as int),
        decreases n - i,
    {
        out.push(v[i]);
        i += 1;
        assert(out@ =~= v@.take(i as int));
    }
    assert(v@.take(n as int) =~= v@);
    out
}

impl ColorFill {
    /// An equal, separately owned fill.
    pub fn duplicate(&self) -> (f: ColorFill)
        ensures
            f@ == self@,
    {
        match self {
            ColorFill::Solid { color } => ColorFill::Solid { color: *color },
            ColorFill::LinearGradient { angle, stops } => ColorFill::LinearGradient {
                angle: *angle,
                stops: duplicate_stops(stops),
            },
            ColorFill::RadialGradient { center_x, center_y, radius, stops } => ColorFill::RadialGradient {
                center_x: *center_x,
                center_y: *center_y,
                radius: *radius,
                stops: duplicate_stops(stops),
            },
        }
    }
}

/// Horizontal alignment of the lines of a text source.
#[derive(Debug, Clone, Copy, PartialEq, Eq, Structural)]
pub enum TextAlignment {
    Left,
    Center,
    Right,
}

/// An outline around the glyphs of a text source; its width is in
/// hundredths of a pixel.
#[derive(Debug, Clone, Copy, PartialEq, Eq)]
pub struct TextOutline {
    pub color: Rgba,
    pub width: u32,
}

/// The settings of a text source. The font size is in hundredths of a point;
/// padding and wrap width are in hundredths of a pixel.
#[derive(Debug, Clone)]
pub struct TextProperties {
    pub content: String,
    pub font_family: String,
    pub font_size: u32,
    pub font_color: Rgba,
    pub background_color: Rgba,
    pub bold: bool,
    pub italic: bool,
    pub alignment: TextAlignment,
    pub outline: Option<TextOutline>,
    pub padding: u32,
    pub wrap_width: Option<u32>,
}

/// The value of a text source's settings.
pub struct TextView {
    pub content: Seq<char>,
    pub font_family: Seq<char>,
    pub font_size: u32,
    pub font_color: Rgba,
    pub background_color: Rgba,
    pub bold: bool,
    pub italic: bool,
    pub alignment: TextAlignment,
    pub outline: Option<TextOutline>,
    pub padding: u32,
    pub wrap_width: Option<u32>,
}

impl View for TextProperties {
    type V = TextView;

    open spec fn view(&self) -> TextView {
        TextView {
            content: self.content@,
            font_family: self.font_family@,
            font_size: self.font_size,
            font_color: self.font_color,
            background_color: self.background_color,
            bold: self.bold,
            italic: self.italic,
            alignment: self.alignment,
            outline: self.outline,
            padding: self.padding,
            wrap_width: self.wrap_width,
        }
    }
}

impl TextProperties {
    /// Equal, separately owned settings.
    pub fn duplicate(&self) -> (t: TextProperties)
        ensures
            t@ == self@,
    {
        TextProperties {
            content: self.content.clone(),
            font_family: self.font_family.clone(),
            font_size: self.font_size,
            font_color: self.font_color,
            background_color: self.background_color,
            bold: self.bold,
            italic: self.italic,
            alignment: self.alignment,
            outline: self.outline,
            padding: self.padding,
            wrap_width: self.wrap_width,
        }
    }
}

/// The settings of a source that depend on its type.
#[derive(Debug, Clone)]
pub enum SourceProperties {
    Display { screen_index: u32 },
    /// `current_window_id` is the window being captured, once one is found.
    Window { mode: WindowCaptureMode, current_window_id: Option<u64> },
    Camera { device_index: u32, device_name: String },
    Image { path: String, loop_mode: Option<LoopMode> },
    Audio { input: AudioInput },
    Text { text: TextProperties },
    Color { fill: ColorFill },
    /// The page's size is in pixels.
    Browser { url: String, width: u32, height: u32 },
}

/// The value of a source's type-dependent settings.
pub enum PropertiesView {
    Display { screen_index: u32 },
    Window { mode: WindowModeView, current_window_id: Option<u64> },
    Camera { device_index: u32, device_name: Seq<char> },
    Image { path: Seq<char>, loop_mode: Option<LoopMode> },
    Audio { input: AudioInputView },
    Text { text: TextView },
    Color { fill: ColorFillView },
    Browser { url: Seq<char>, width: u32, height: u32 },
}

impl View for SourceProperties {
    type V = PropertiesView;

    open spec fn view(&self) -> PropertiesView {
        match self {
            SourceProperties::Display { screen_index } => PropertiesView::Display { screen_index: *screen_index },
            SourceProperties::Window { mode, current_window_id } => PropertiesView::Window {
                mode: mode@,
                current_window_id: *current_window_id,
            },
            SourceProperties::Camera { device_index, device_name } => PropertiesView::Camera {
                device_index: *device_index,
                device_name: device_name@,
            },
            SourceProperties::Image { path, loop_mode } => PropertiesView::Image { path: path@, loop_mode: *loop_mode },
            SourceProperties::Audio { input } => PropertiesView::Audio { input: input@ },
            SourceProperties::Text { text } => PropertiesView::Text { text: text@ },
            SourceProperties::Color { fill } => PropertiesView::Color { fill: fill@ },
            SourceProperties::Browser { url, width, height } => PropertiesView::Browser {
                url: url@,
                width: *width,
                height: *height,
            },
        }
    }
}

impl SourceProperties {
    /// Equal, separately owned settings.
    pub fn duplicate(&self) -> (p: SourceProperties)
        ensures
            p@ == self@,
    {
        match self {
            SourceProperties::Display { screen_index } => SourceProperties::Display { screen_index: *screen_index },
            SourceProperties::Window { mode, current_window_id } => SourceProperties::Window {
                mode: mode.duplicate(),
                current_window_id: *current_window_id,
            },
            SourceProperties::Camera { device_index, device_name } => SourceProperties::Camera {
                device_index: *device_index,
                device_name: device_name.clone(),
            },
            SourceProperties::Image { path, loop_mode } => SourceProperties::Image {
                path: path.clone(),
                loop_mode: *loop_mode,
            },
            SourceProperties::Audio { input } => SourceProperties::Audio { input: input.duplicate() },
            SourceProperties::Text { text } => SourceProperties::Text { text: text.duplicate() },
            SourceProperties::Color { fill } => SourceProperties::Color { fill: fill.duplicate() },
            SourceProperties::Browser { url, width, height } => SourceProperties::Browser {
                url: url.clone(),
                width: *width,
                height: *height,
            },
        }
    }
}

/// A source of the library. Opacity and volume are in per cent.
#[derive(Debug, Clone)]
pub struct LibrarySource {
    pub id: SourceId,
    pub name: String,
    pub source_type: SourceType,
    pub properties: SourceProperties,
    pub folder: Option<String>,
    pub transform: SourceTransform,
    /// The source's own size.
    pub native_size: PixelSize,
    pub aspect_ratio_locked: bool,
    pub opacity_percent: u32,
    pub visible: bool,
    pub muted: bool,
    pub volume_percent: u32,
}

/// The value of a library source.
pub struct LibraryView {
    pub id: SourceId,
    pub name: Seq<char>,
    pub source_type: SourceType,
    pub properties: PropertiesView,
    pub folder: Option<Seq<char>>,
    pub transform: SourceTransform,
    pub native_size: PixelSize,
    pub aspect_ratio_locked: bool,
    pub opacity_percent: u32,
    pub visible: bool,
    pub muted: bool,
    pub volume_percent: u32,
}

impl View for LibrarySource {
    type V = LibraryView;

    open spec fn view(&self) -> LibraryView {
        LibraryView {
            id: self.id,
            name: self.name@,
            source_type: self.source_type,
            properties: self.properties@,
            folder: match self.folder {
                Some(f) => Some(f@),
                None => None,
            },
            transform: self.transform,
            native_size: self.native_size,
            aspect_ratio_locked: self.aspect_ratio_locked,
            opacity_percent: self.opacity_percent,
            visible: self.visible,
            muted: self.muted,
            volume_percent: self.volume_percent,
        }
    }
}

impl LibrarySource {
    /// An equal, separately owned library source.
    pub fn duplicate(&self) -> (s: LibrarySource)
        ensures
            s@ == self@,
    {
        let folder = match &self.folder {
            Some(f) => Some(f.clone()),
            None => None,
        };
        LibrarySource {
            id: self.id,
            name: self.name.clone(),
            source_type: self.source_type,
            properties: self.properties.duplicate(),
            folder,
            transform: self.transform,
            native_size: self.native_size,
            aspect_ratio_locked: self.aspect_ratio_locked,
            opacity_percent: self.opacity_percent,
            visible: self.visible,
            muted: self.muted,
            volume_percent: self.volume_percent,
        }
    }
}

// ── Switching scenes ────────────────────────────────────────────────────────

/// The identifiers of the sources a scene shows (none without a scene).
pub open spec fn shown_ids(scene: Option<SceneView>) -> Seq<SourceId> {
    match scene {
        Some(s) => source_ids_of(s.sources),
        None => Seq::empty(),
    }
}

fn contains_id(v: &Vec<SourceId>, x: SourceId) -> (r: bool)
    ensures
        r == v@.contains(x),
{
    let n = v.len();
    let mut i: usize = 0;
    while i < n
        invariant
            i <= n == v@.len(),
            forall|k: int| 0 <= k < i ==> v@[k] != x,
        decreases n - i,
    {
        if v[i] == x {
            assert(v@[i as int] == x);
            return true;
        }
        i += 1;
    }
    false
}

/// The identifiers of `a` that are not in `b`, each once, in the order in
/// which they first occur in `a`.
pub open spec fn ids_not_in(a: Seq<SourceId>, b: Seq<SourceId>) -> Seq<SourceId>
    decreases a.len(),
{
    if a.len() == 0 {
        a
    } else {
        let r = ids_not_in(a.drop_last(), b);
        if b.contains(a.last()) || r.contains(a.last()) {
            r
        } else {
            r.push(a.last())
        }
    }
}

fn id_difference(a: &Vec<SourceId>, b: &Vec<SourceId>) -> (r: Vec<SourceId>)
    ensures
        r@ == ids_not_in(a@, b@),
        r@.no_duplicates(),
        forall|x: SourceId| r@.contains(x) <==> a@.contains(x) && !b@.contains(x),
{
    let mut out: Vec<SourceId> = Vec::new();
    let n = a.len();
    let mut i: usize = 0;
    while i < n
        invariant
            i <= n == a@.len(),
            out@ == ids_not_in(a@.take(i as int), b@),
            out@.no_duplicates(),
            forall|x: SourceId| out@.contains(x) <==> a@.take(i as int).contains(x) && !b@.contains(x),
        decreases n - i,
    {
        let x = a[i];
        let ghost before = out@;
        let ghost t0 = a@.take(i as int);
        assert forall|y: SourceId| #[trigger] before.contains(y) <==> t0.contains(y) && !b@.contains(y) by {
            assert(out@.contains(y) <==> a@.take(i as int).contains(y) && !b@.contains(y));
        }
        if !contains_id(b, x) && !contains_id(&out, x) {
            out.push(x);
            assert forall|j: int, k: int| 0 <= j < k < out@.len() implies out@[j] != out@[k] by {
                if k == out@.len() - 1 {
                    assert(before.contains(out@[j]) ==> out@[j] != x);
                    assert(out@[j] == before[j]);
                } else {
                    assert(out@[j] == before[j] && out@[k] == before[k]);
                }
            }
        }
        let ghost t1 = a@.take(i + 1);
        assert(t1 =~= t0.push(x));
        assert(t1.drop_last() =~= t0);
        assert(forall|y: SourceId| before.contains(y) ==> out@.contains(y)) by {
            assert forall|y: SourceId| before.contains(y) implies out@.contains(y) by {
                let k = choose|k: int| 0 <= k < before.len() && before[k] == y;
                assert(out@[k] == y);
            }
        }
        assert forall|y: SourceId| out@.contains(y) implies t1.contains(y) && !b@.contains(y) by {
            let k = choose|k: int| 0 <= k < out@.len() && out@[k] == y;
            if k < before.len() {
                assert(before[k] == y);
                assert(before.contains(y));
                let j = choose|j: int| 0 <= j < t0.len() && t0[j] == y;
                assert(t1[j] == y);
            } else {
                assert(y == x);
                assert(t1[i as int] == x);
            }
        }
        assert forall|y: SourceId| t1.contains(y) && !b@.contains(y) implies out@.contains(y) by {
            let j = choose|j: int| 0 <= j < t1.len() && t1[j] == y;
            if j < i {
                assert(t0[j] == y);
                assert(before.contains(y));
            } else if !before.contains(y) {
                assert(out@[out@.len() - 1] == y);
            }
        }
        i += 1;
    }
    assert(a@.take(n as int) =~= a@);
    out
}

/// Which sources stop and which start when the shown scene changes from
/// `old_scene` to `new_scene`: the sources only the old scene shows, and
/// those only the new scene shows, each once, in the order of the scenes.
pub fn scene_diff(old_scene: Option<&Scene>, new_scene: Option<&Scene>) -> (r: (Vec<SourceId>, Vec<SourceId>))
    ensures
        ({
            let old_ids = shown_ids(match old_scene { Some(s) => Some(s@), None => None });
            let new_ids = shown_ids(match new_scene { Some(s) => Some(s@), None => None });
            &&& r.0@ == ids_not_in(old_ids, new_ids)
            &&& r.1@ == ids_not_in(new_ids, old_ids)
            &&& r.0@.no_duplicates()
            &&& r.1@.no_duplicates()
            &&& forall|x: SourceId| r.0@.contains(x) <==> old_ids.contains(x) && !new_ids.contains(x)
            &&& forall|x: SourceId| r.1@.contains(x) <==> new_ids.contains(x) && !old_ids.contains(x)
        }),
{
    let old_ids = match old_scene {
        Some(s) => s.source_ids(),
        None => Vec::new(),
    };
    let new_ids = match new_scene {
        Some(s) => s.source_ids(),
        None => Vec::new(),
    };
    (id_difference(&old_ids, &new_ids), id_difference(&new_ids, &old_ids))
}

} // verus!
