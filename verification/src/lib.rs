//! Octahedral imposters: the atlas format, its packing, and the bake that fills it.
pub mod archive;
pub mod asset_loader;
pub mod atlas;
pub mod bake;
pub mod indexed;
pub mod laws;
pub mod math;
pub mod oct_coords;
pub mod pack;
pub mod palette;
pub mod png;
pub mod progress;
pub mod queue;
pub mod readback;
pub mod render;
pub mod settings;
pub mod shader_defs;
pub mod subviews;
pub mod visibility;
