pub mod layout;
pub mod text;
pub mod settings;
pub mod scene;
pub mod state;
pub mod transition_registry;
pub mod transition;
pub mod raster;
pub mod labels;
