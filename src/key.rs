use vstd::prelude::*;

verus! {

/// Names one rasterized glyph: the font face, the glyph in it, the size and
/// the sub-pixel position bucket it was drawn at.
#[derive(Clone, Copy, Debug, PartialEq, Eq, Hash, Structural)]
pub struct GlyphKey {
    /// Identity of the font face.
    pub font_id: u64,
    /// Index of the glyph within the face.
    pub glyph_id: u16,
    /// Bits of the font size.
    pub font_size_bits: u32,
    /// Bucket of the fractional horizontal offset.
    pub x_bin: u8,
    /// Bucket of the fractional vertical offset.
    pub y_bin: u8,
    /// Rendering flags such as synthesized italics.
    pub flags: u32,
}

} // verus!
