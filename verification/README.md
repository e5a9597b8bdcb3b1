# lodestone

The state and rules behind Lodestone, a streaming and recording studio:
the dock layout of its panels, its settings, its scenes and undo history,
and its transition shaders, written in Verus with their contracts proved.

- `src/layout/` — the dock layout: panel groups and tabs (`tree`), the
  split tree as a mathematical shape (`shape`), the layout operations
  (`dock`) and the reading and writing of layout documents (`serialize`).
- `src/settings.rs` — hotkey bindings and their text form, the settings
  sections and their defaults, recording file names and configuration paths.
- `src/state.rs` — the application state, selection, and undo/redo.
- `src/scene.rs` — scenes and library sources.
- `src/transition.rs`, `src/transition_registry.rs` — transition choices,
  shader headers and the ordered registry of transitions.
- `src/raster.rs` — pixel blending, glyph drawing and placeholder frames.
- `src/labels.rs` — labels, audio input descriptions and resolution lists.
- `src/text.rs` — the text operations the rest is stated with.
- `app/` — the surrounding program: TOML files, the transitions directory,
  text layout with cosmic-text, winit keys and egui screen geometry.
- `tests/` — tests of the library.
