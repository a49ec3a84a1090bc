//! Plain layout-level types shared with the layout engine.
use vstd::prelude::*;

verus! {

/// Horizontal alignment (the layout counterpart of CSS `text-align`).
#[derive(Debug, Clone, Copy, PartialEq, Eq, Structural)]
pub enum LayoutAlign {
    Left,
    Center,
    Right,
    /// Both edges aligned.
    Justify,
}

/// Glyph cache key: character, font size (bit pattern of the `f32` size, so every
/// size is told apart exactly) and font name.
#[derive(Hash, Eq, PartialEq, Clone, Debug)]
pub struct GlyphKey {
    pub ch: char,
    pub font_size_bits: u32,
    pub font_name: String,
}

} // verus!
