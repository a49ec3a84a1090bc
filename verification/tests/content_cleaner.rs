use reader_core::content_cleaner::{format_line_counts, ContentCleaner, FormatLineCounts};
use reader_core::pipeline::{PipelineData, ProcessingStage};

#[test]
fn test_remove_headers_footers() {
    let cleaner = ContentCleaner::new();
    let content = "正文内容\n第 5 页\n更多内容";
    let result = cleaner.clean(content);
    assert!(!result.contains("第 5 页"));
    assert!(result.contains("正文内容"));
}

#[test]
fn test_fix_ocr_errors() {
    let cleaner = ContentCleaner::new();
    let content = "他巳经走了，这是一件好事。";
    let result = cleaner.clean(content);
    assert!(result.contains("他已经走了"));
}

#[test]
fn test_remove_separators() {
    let cleaner = ContentCleaner::new();
    let content = "段落1\n-----\n段落2";
    let result = cleaner.clean(content);
    assert!(!result.contains("-----"));
}

#[test]
fn test_normalize_blank_lines() {
    let cleaner = ContentCleaner::new();
    let content = "段落1\n\n\n\n\n段落2";
    let result = cleaner.clean(content);
    assert!(!result.contains("\n\n\n"));
}

#[test]
fn test_remove_garbled() {
    let cleaner = ContentCleaner::new();
    let content = "正常内容\n\x00\x01\x02\x03\x04\x05\x06\x07\n更多内容";
    let result = cleaner.clean(content);
    assert!(result.contains("正常内容"));
}

#[test]
fn test_content_cleaner_stage() {
    let cleaner = ContentCleaner::new();
    let input = PipelineData { content: "第 1 页\n正文内容\n\n\n\n更多".to_string(), ..Default::default() };
    let output = cleaner.process(input).unwrap();
    assert!(!output.content.contains("第 1 页"));
    assert!(!output.content.contains("\n\n\n"));
}

#[test]
fn cleaner_drops_garbled_line_entirely() {
    let cleaner = ContentCleaner::new();
    let result = cleaner.clean("正常内容\n\x00\x01\x02\x03\x04\x05\x06\x07\n更多内容");
    assert_eq!(result, "正常内容\n更多内容");
}

#[test]
fn cleaner_keeps_line_with_half_special_characters() {
    // two special characters out of four: not more than half
    let cleaner = ContentCleaner::new();
    let result = cleaner.clean("ab#$");
    assert_eq!(result, "ab#$");
    let result = cleaner.clean("ab#$%");
    assert_eq!(result, "");
}

#[test]
fn cleaner_applies_punctuation_fixes_in_order() {
    let cleaner = ContentCleaner::new();
    assert_eq!(cleaner.clean("好，。坏"), "好，坏");
    assert_eq!(cleaner.clean("他 ，走"), "他，走");
    assert_eq!(cleaner.clean("巴它拿来"), "把它拿来");
}

#[test]
fn cleaner_shortens_blank_runs_to_two_breaks() {
    let cleaner = ContentCleaner::new();
    // the break left between the paragraphs is leading whitespace of the second line
    assert_eq!(cleaner.clean("段落1\n\n\n\n\n段落2"), "段落1\n\u{3000}\u{3000}段落2");
}

#[test]
fn cleaner_indents_with_ideographic_spaces() {
    let cleaner = ContentCleaner::new();
    assert_eq!(cleaner.clean("  缩进的段落"), "\u{3000}\u{3000}缩进的段落");
}

#[test]
fn cleaner_removes_copyright_and_source_lines() {
    let cleaner = ContentCleaner::new();
    assert_eq!(cleaner.clean("正文\n本书来自某某网站\n结尾"), "正文\n\u{3000}\u{3000}结尾");
    assert_eq!(cleaner.clean("正文\n版权所有\n结尾"), "正文\n\u{3000}\u{3000}结尾");
}

#[test]
fn format_counts_poetry() {
    let c = format_line_counts("春眠不觉晓\n处处闻啼鸟\n夜来风雨声\n花落知多少");
    assert_eq!(c, FormatLineCounts { lines: 4, non_empty: 4, short_lines: 4, quote_lines: 0 });
}

#[test]
fn format_counts_dialogue() {
    let c = format_line_counts("\"你好吗？\"\n\"我很好。\"\n\"那就好。\"\n\"再见。\"");
    assert_eq!(c, FormatLineCounts { lines: 4, non_empty: 4, short_lines: 4, quote_lines: 4 });
}

#[test]
fn format_counts_normal() {
    let c = format_line_counts("这是一段很长的正文内容，用来测试普通文本格式的检测。");
    assert_eq!(c, FormatLineCounts { lines: 1, non_empty: 1, short_lines: 0, quote_lines: 0 });
}

#[test]
fn format_counts_skip_blank_lines_and_measure_bytes() {
    // "abcdefghijklmnopqrs" is 19 bytes, "一二三四五六七" is 21 bytes
    let c = format_line_counts("  \nabcdefghijklmnopqrs\n一二三四五六七\n「对话」");
    assert_eq!(c, FormatLineCounts { lines: 4, non_empty: 3, short_lines: 2, quote_lines: 1 });
    let empty = format_line_counts("");
    assert_eq!(empty, FormatLineCounts { lines: 0, non_empty: 0, short_lines: 0, quote_lines: 0 });
}
