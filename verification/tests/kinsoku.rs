use reader_core::charsets::{is_line_end_compressible, is_line_end_forbidden, is_line_start_forbidden, is_word_char};

#[test]
fn word_char_classification() {
    assert!(is_word_char('a'));
    assert!(is_word_char('Z'));
    assert!(is_word_char('0'));
    assert!(is_word_char('_'));
    assert!(!is_word_char('中'));
    assert!(!is_word_char(' '));
    assert!(!is_word_char(','));
}

#[test]
fn kinsoku_tables_disjoint() {
    let neutral: &[char] = &['\'', '"'];
    for c in (0u32..=0x10FFFF).filter_map(char::from_u32) {
        if is_line_start_forbidden(c) {
            assert!(!is_line_end_forbidden(c) || neutral.contains(&c), "{c} is in both tables");
        }
    }
}

#[test]
fn line_end_compression_semantics() {
    assert!(is_line_end_compressible('。'));
    assert!(is_line_end_compressible('”'));
    assert!(is_line_end_compressible('）'));
    assert!(!is_line_end_compressible('字'));
    assert!(!is_line_end_compressible('「'));
}
