use reader_core::text_boundary::TextBoundaryHandler;

#[test]
fn test_basic_ascii() {
    let text = "Hello World";
    let handler = TextBoundaryHandler::from_str(text);

    assert_eq!(handler.char_count(), 11);
    assert_eq!(handler.byte_len(), 11);

    assert_eq!(handler.char_to_byte(0), 0);
    assert_eq!(handler.char_to_byte(5), 5);
    assert_eq!(handler.char_to_byte(10), 10);

    assert_eq!(handler.byte_to_char(0), 0);
    assert_eq!(handler.byte_to_char(5), 5);
    assert_eq!(handler.byte_to_char(10), 10);
}

#[test]
fn test_chinese_characters() {
    let text = "你好世界";
    let handler = TextBoundaryHandler::from_str(text);

    assert_eq!(handler.char_count(), 4);
    assert_eq!(handler.byte_len(), 12);

    assert_eq!(handler.char_to_byte(0), 0);
    assert_eq!(handler.char_to_byte(1), 3);
    assert_eq!(handler.char_to_byte(2), 6);
    assert_eq!(handler.char_to_byte(3), 9);
    assert_eq!(handler.char_to_byte(4), 12);

    assert_eq!(handler.byte_to_char(0), 0);
    assert_eq!(handler.byte_to_char(1), 0);
    assert_eq!(handler.byte_to_char(2), 0);
    assert_eq!(handler.byte_to_char(3), 1);
    assert_eq!(handler.byte_to_char(9), 3);
}

#[test]
fn test_mixed_content() {
    let text = "Hello你好World";
    let handler = TextBoundaryHandler::from_str(text);

    assert_eq!(handler.char_count(), 12);
    assert_eq!(handler.char_to_byte(4), 4);
    assert_eq!(handler.char_to_byte(5), 5);
    assert_eq!(handler.char_to_byte(6), 8);
    assert_eq!(handler.char_to_byte(7), 11);
}

#[test]
fn test_get_char_range() {
    let text = "你好世界测试";
    let handler = TextBoundaryHandler::from_str(text);

    assert_eq!(handler.get_char_range(text, 0, 2), "你好");
    assert_eq!(handler.get_char_range(text, 2, 4), "世界");
    assert_eq!(handler.get_char_range(text, 0, 6), "你好世界测试");
    assert_eq!(handler.get_char_range(text, 1, 3), "好世");
}

#[test]
fn test_safe_slicing_with_emoji() {
    let text = "A😀B";
    let handler = TextBoundaryHandler::from_str(text);

    assert_eq!(handler.char_count(), 3);
    assert_eq!(handler.byte_len(), 6);

    assert_eq!(handler.get_char_range(text, 0, 1), "A");
    assert_eq!(handler.get_char_range(text, 1, 2), "😀");
    assert_eq!(handler.get_char_range(text, 2, 3), "B");
}

#[test]
fn test_boundary_forward_backward() {
    let text = "你好世界";
    let handler = TextBoundaryHandler::from_str(text);

    assert_eq!(handler.find_boundary_forward(0), 0);
    assert_eq!(handler.find_boundary_forward(1), 3);
    assert_eq!(handler.find_boundary_forward(5), 6);

    assert_eq!(handler.find_boundary_backward(0), 0);
    assert_eq!(handler.find_boundary_backward(3), 3);
    assert_eq!(handler.find_boundary_backward(2), 0);
    assert_eq!(handler.find_boundary_backward(5), 3);
}

#[test]
fn test_is_char_boundary() {
    let text = "你好世界";
    let handler = TextBoundaryHandler::from_str(text);

    assert!(handler.is_char_boundary(0));
    assert!(handler.is_char_boundary(3));
    assert!(handler.is_char_boundary(6));
    assert!(handler.is_char_boundary(9));
    assert!(handler.is_char_boundary(12));

    assert!(!handler.is_char_boundary(1));
    assert!(!handler.is_char_boundary(2));
    assert!(!handler.is_char_boundary(4));
    assert!(!handler.is_char_boundary(5));
}

#[test]
fn test_empty_string() {
    let text = "";
    let handler = TextBoundaryHandler::from_str(text);

    assert_eq!(handler.char_count(), 0);
    assert_eq!(handler.byte_len(), 0);
    assert_eq!(handler.char_to_byte(0), 0);
    assert_eq!(handler.byte_to_char(0), 0);
}

#[test]
fn test_out_of_bounds() {
    let text = "你好";
    let handler = TextBoundaryHandler::from_str(text);

    assert_eq!(handler.char_to_byte(100), 6);
    assert_eq!(handler.byte_to_char(100), 2);
    assert_eq!(handler.get_char_range(text, 0, 100), "你好");
}

#[test]
fn test_grapheme_boundaries() {
    let text = "Hello";
    let handler = TextBoundaryHandler::from_str(text);

    assert_eq!(handler.grapheme_count(), 5);
    assert!(handler.is_grapheme_boundary(0));
    assert!(handler.is_grapheme_boundary(1));
    assert!(handler.is_grapheme_boundary(4));
    assert!(!handler.is_grapheme_boundary(5));
}

#[test]
fn test_full_roundtrip() {
    let text = "这是一段包含中文、English和Emoji😀的混合文本。";
    let handler = TextBoundaryHandler::from_str(text);

    let mut reconstructed = String::new();
    for i in 0..handler.char_count() {
        let slice = handler.get_char_range(text, i, i + 1);
        reconstructed.push_str(slice);
    }
    assert_eq!(reconstructed, text);
}

#[test]
fn char_byte_round_trip_every_index() {
    let text = "A😀B你好\u{301}é";
    let handler = TextBoundaryHandler::from_str(text);
    for i in 0..handler.char_count() {
        assert_eq!(handler.byte_to_char(handler.char_to_byte(i)), i);
    }
}

#[test]
fn grapheme_neighbours_of_combining_sequence() {
    // "e" + combining acute accent forms one grapheme of 3 bytes.
    let text = "ae\u{301}b";
    let handler = TextBoundaryHandler::from_str(text);
    assert_eq!(handler.grapheme_count(), 3);
    assert_eq!(handler.next_grapheme_boundary(0), 1);
    assert_eq!(handler.next_grapheme_boundary(1), 4);
    assert_eq!(handler.next_grapheme_boundary(4), 5);
    assert_eq!(handler.prev_grapheme_boundary(4), 1);
    assert_eq!(handler.prev_grapheme_boundary(1), 0);
    assert_eq!(handler.prev_grapheme_boundary(0), 0);
    assert!(!handler.is_grapheme_boundary(2));
}

#[test]
fn reversed_range_is_empty() {
    let text = "你好世界";
    let handler = TextBoundaryHandler::from_str(text);
    assert_eq!(handler.get_char_range(text, 3, 1), "");
    assert_eq!(handler.get_char_range(text, 2, 2), "");
}
