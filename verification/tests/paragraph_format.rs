use reader_core::paragraph_format::{ParagraphFormatSettings, ReParagraphMode};

#[test]
fn default_values_correct() {
    let s = ParagraphFormatSettings::default();
    assert!(s.enable_indent);
    assert_eq!(s.indent_size_chars, 2);
    assert!((f32::from_bits(s.paragraph_spacing_multiplier_bits) - 1.0).abs() < 0.001);
    assert_eq!(s.re_paragraph_mode, ReParagraphMode::Smart);
    assert_eq!(s.smart_split_threshold, 200);
    assert_eq!(s.aggressive_split_threshold, 100);
}

#[test]
fn effective_split_threshold_follows_mode_and_settings() {
    let mut s = ParagraphFormatSettings::default();
    assert_eq!(s.effective_split_threshold(), Some(200));
    s.smart_split_threshold = 150;
    assert_eq!(s.effective_split_threshold(), Some(150));
    s.re_paragraph_mode = ReParagraphMode::Aggressive;
    assert_eq!(s.effective_split_threshold(), Some(100));
    s.aggressive_split_threshold = 80;
    assert_eq!(s.effective_split_threshold(), Some(80));
    s.re_paragraph_mode = ReParagraphMode::Off;
    assert_eq!(s.effective_split_threshold(), None);
}

#[test]
fn re_paragraph_mode_from_u8() {
    assert_eq!(ReParagraphMode::from_u8(0), ReParagraphMode::Off);
    assert_eq!(ReParagraphMode::from_u8(1), ReParagraphMode::Smart);
    assert_eq!(ReParagraphMode::from_u8(2), ReParagraphMode::Aggressive);
    assert_eq!(ReParagraphMode::from_u8(99), ReParagraphMode::Smart);
}

#[test]
fn hash_value_changes_with_settings() {
    let s1 = ParagraphFormatSettings::default();
    let mut s2 = s1.clone();
    s2.enable_indent = false;
    assert_ne!(s1.hash_value(), s2.hash_value());

    let mut s3 = s1.clone();
    s3.indent_size_chars = 3;
    assert_ne!(s1.hash_value(), s3.hash_value());

    let mut s4 = s1.clone();
    s4.re_paragraph_mode = ReParagraphMode::Off;
    assert_ne!(s1.hash_value(), s4.hash_value());

    let mut s5 = s1.clone();
    s5.smart_split_threshold = 150;
    assert_ne!(s1.hash_value(), s5.hash_value());
}

#[test]
fn needs_formatting_detection() {
    let mut s = ParagraphFormatSettings::default();
    assert!(s.needs_formatting());

    s.enable_indent = false;
    s.re_paragraph_mode = ReParagraphMode::Off;
    assert!(!s.needs_formatting());

    s.enable_indent = true;
    assert!(s.needs_formatting());
}

#[test]
fn equal_settings_hash_equally() {
    let a = ParagraphFormatSettings::default();
    let b = ParagraphFormatSettings::default();
    assert_eq!(a.hash_value(), b.hash_value());
}
