//! Glyph atlas construction: a verified two-dimensional bin packer that
//! assigns each glyph rectangle a layer and offset, a compositor that blits
//! glyph bitmaps into fixed-size layer canvases, and an assembler that merges
//! glyph metrics with placements into atlas metadata records.

pub mod canvas;
pub mod metadata;
pub mod pack;
