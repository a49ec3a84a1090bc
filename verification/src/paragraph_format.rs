//! Paragraph formatting settings: first-line indent and re-paragraphing.
//!
//! Settings changes reach the pagination cache key through `hash_value`.
use vstd::prelude::*;
use std::collections::hash_map::DefaultHasher;
use crate::hashing::{
    hasher_new, hash_bool, hash_u8, hash_u32, hash_isize, hash_usize, hasher_finish, hasher_log,
    log_digest, bool_item, u8_item, u32_item, isize_item, usize_item,
};
use crate::paragraph_splitter::{SMART_THRESHOLD, AGGRESSIVE_THRESHOLD};

verus! {

/// Re-paragraphing mode.
#[derive(Debug, Clone, Copy, PartialEq, Eq, Hash, Structural)]
pub enum ReParagraphMode {
    /// Off: keep every line break of the source.
    Off,
    /// Smart: detect paragraph boundaries from indentation, blank and short lines.
    Smart,
    /// Aggressive: drop all soft line breaks and cut anew.
    Aggressive,
}

impl Default for ReParagraphMode {
    fn default() -> (m: ReParagraphMode)
        ensures
            m == ReParagraphMode::Smart,
    {
        ReParagraphMode::Smart
    }
}

/// The number of a mode (its declaration index).
pub open spec fn mode_index(m: ReParagraphMode) -> int {
    match m {
        ReParagraphMode::Off => 0,
        ReParagraphMode::Smart => 1,
        ReParagraphMode::Aggressive => 2,
    }
}

impl ReParagraphMode {
    /// Mode from its number; any other number gives the default (Smart).
    pub fn from_u8(v: u8) -> (m: ReParagraphMode)
        ensures
            v <= 2 ==> mode_index(m) == v,
            v > 2 ==> m == ReParagraphMode::Smart,
    {
        match v {
            0 => ReParagraphMode::Off,
            1 => ReParagraphMode::Smart,
            2 => ReParagraphMode::Aggressive,
            _ => ReParagraphMode::Smart,
        }
    }

    fn index(&self) -> (i: isize)
        ensures
            i as int == mode_index(*self),
    {
        match self {
            ReParagraphMode::Off => 0,
            ReParagraphMode::Smart => 1,
            ReParagraphMode::Aggressive => 2,
        }
    }
}

/// Paragraph formatting settings.
///
/// The two scale factors are kept as the bit patterns of their `f32` values
/// (`f32::to_bits`); only the layout engine reads them as numbers.
#[derive(Debug, Clone, Copy, PartialEq, Eq, Structural)]
pub struct ParagraphFormatSettings {
    /// First-line indent on.
    pub enable_indent: bool,
    /// Indent width in full-width characters (0–4, typically 2).
    pub indent_size_chars: u8,
    /// Bits of the paragraph spacing multiplier (`f32`, 1.0–2.0).
    pub paragraph_spacing_multiplier_bits: u32,
    pub re_paragraph_mode: ReParagraphMode,
    /// Split threshold of the Smart mode (characters).
    pub smart_split_threshold: usize,
    /// Split threshold of the Aggressive mode (characters).
    pub aggressive_split_threshold: usize,
    /// Justify text.
    pub justify: bool,
    /// Compress (hang) line-final punctuation.
    pub punctuation_compress: bool,
    /// Bits of the annotation font scale (`f32`, 0.70–1.00).
    pub comment_scale_bits: u32,
}

/// Bits of `1.0f32`.
pub const ONE_F32_BITS: u32 = 0x3f80_0000;

/// Bits of `0.82f32`.
pub const DEFAULT_COMMENT_SCALE_BITS: u32 = 0x3f51_eb85;

impl Default for ParagraphFormatSettings {
    fn default() -> (s: ParagraphFormatSettings)
        ensures
            s.enable_indent,
            s.indent_size_chars == 2,
            s.paragraph_spacing_multiplier_bits == ONE_F32_BITS,
            s.re_paragraph_mode == ReParagraphMode::Smart,
            s.smart_split_threshold == SMART_THRESHOLD,
            s.aggressive_split_threshold == AGGRESSIVE_THRESHOLD,
            !s.justify,
            !s.punctuation_compress,
            s.comment_scale_bits == DEFAULT_COMMENT_SCALE_BITS,
    {
        ParagraphFormatSettings {
            enable_indent: true,
            indent_size_chars: 2,
            paragraph_spacing_multiplier_bits: ONE_F32_BITS,
            re_paragraph_mode: ReParagraphMode::Smart,
            smart_split_threshold: SMART_THRESHOLD,
            aggressive_split_threshold: AGGRESSIVE_THRESHOLD,
            justify: false,
            punctuation_compress: false,
            comment_scale_bits: DEFAULT_COMMENT_SCALE_BITS,
        }
    }
}

/// The split threshold in effect for the settings' mode; `None` means no split.
pub open spec fn spec_effective_split_threshold(s: ParagraphFormatSettings) -> Option<usize> {
    match s.re_paragraph_mode {
        ReParagraphMode::Off => None,
        ReParagraphMode::Smart => Some(s.smart_split_threshold),
        ReParagraphMode::Aggressive => Some(s.aggressive_split_threshold),
    }
}

/// The values `hash_value` writes, in order.
pub open spec fn settings_log(s: ParagraphFormatSettings) -> Seq<Seq<int>> {
    seq![
        bool_item(s.enable_indent),
        u8_item(s.indent_size_chars),
        u32_item(s.paragraph_spacing_multiplier_bits),
        isize_item(mode_index(s.re_paragraph_mode) as isize),
        usize_item(s.smart_split_threshold),
        usize_item(s.aggressive_split_threshold),
        bool_item(s.justify),
        bool_item(s.punctuation_compress),
        u32_item(s.comment_scale_bits),
    ]
}

impl ParagraphFormatSettings {
    /// The split threshold in effect for the current mode; `None` means no split.
    pub fn effective_split_threshold(&self) -> (r: Option<usize>)
        ensures
            r == spec_effective_split_threshold(*self),
    {
        match self.re_paragraph_mode {
            ReParagraphMode::Off => None,
            ReParagraphMode::Smart => Some(self.smart_split_threshold),
            ReParagraphMode::Aggressive => Some(self.aggressive_split_threshold),
        }
    }

    /// Hash of all settings (cache key component).
    pub fn hash_value(&self) -> (r: u64)
        ensures
            r == log_digest(settings_log(*self)),
    {
        let mut h: DefaultHasher = hasher_new();
        hash_bool(&mut h, self.enable_indent);
        hash_u8(&mut h, self.indent_size_chars);
        hash_u32(&mut h, self.paragraph_spacing_multiplier_bits);
        hash_isize(&mut h, self.re_paragraph_mode.index());
        hash_usize(&mut h, self.smart_split_threshold);
        hash_usize(&mut h, self.aggressive_split_threshold);
        hash_bool(&mut h, self.justify);
        hash_bool(&mut h, self.punctuation_compress);
        hash_u32(&mut h, self.comment_scale_bits);
        assert(hasher_log(h) =~= settings_log(*self));
        hasher_finish(&h)
    }

    /// Whether any formatting is needed (indent on or re-paragraphing on).
    pub fn needs_formatting(&self) -> (b: bool)
        ensures
            b == (self.enable_indent || self.re_paragraph_mode != ReParagraphMode::Off),
    {
        self.enable_indent || self.re_paragraph_mode != ReParagraphMode::Off
    }
}

} // verus!
