//! canvasette draws sprites and text through a GPU sprite renderer.
//!
//! This crate is the part whose behaviour is proved: colors and tints,
//! texture slices, the glyph atlases over their rectangle packer, the glyph
//! cache and its eviction rule, and the canvases and scenes that become an
//! ordered list of sprites for each frame. Talking to the GPU and shaping
//! text happen around it.
pub mod atlas;
pub mod cache;
pub mod canvas;
pub mod color;
pub mod geometry;
pub mod gpu;
pub mod key;
pub mod math;
pub mod packer;
pub mod recency;
pub mod render;
pub mod text;
pub mod texture;
