use reader_core::content_preprocessor::{remove_title_block, ContentPreprocessor, ProcessOptions};

fn make_options(title: &str) -> ProcessOptions {
    ProcessOptions {
        book_name: "测试书籍".to_string(),
        title: title.to_string(),
        chapter_index: 3,
        remove_duplicate_title: true,
        ..Default::default()
    }
}

#[test]
fn test_duplicate_title_with_indent() {
    let content = "　　第3章 披挂刀法！\n　　赵大、赵二兄弟是谁？\n\n　　郑均心中一怔。";

    let preprocessor = ContentPreprocessor::new(vec![]);
    let result = preprocessor.process(content, &make_options("第3章 披挂刀法！")).unwrap();

    assert_eq!(result.matches("第3章 披挂刀法！").count(), 0, "处理后的内容不应包含章节标题");
    assert!(result.contains("赵大、赵二兄弟是谁？"), "正文内容应保留");
}

#[test]
fn test_duplicate_title_repeated_lines() {
    let content = "第3章 披挂刀法！\n　　第3章 披挂刀法！\n　　赵大、赵二兄弟是谁？";

    let preprocessor = ContentPreprocessor::new(vec![]);
    let result = preprocessor.process(content, &make_options("第3章 披挂刀法！")).unwrap();

    assert_eq!(result.matches("第3章 披挂刀法！").count(), 0);
    assert!(result.contains("赵大、赵二兄弟是谁？"));
}

#[test]
fn test_duplicate_title_with_leading_blank_lines() {
    let content = "\n\n第3章 披挂刀法！\n　　第3章 披挂刀法！\n　　赵大、赵二兄弟是谁？";

    let preprocessor = ContentPreprocessor::new(vec![]);
    let result = preprocessor.process(content, &make_options("第3章 披挂刀法！")).unwrap();

    assert_eq!(result.matches("第3章 披挂刀法！").count(), 0);
    assert!(result.contains("赵大、赵二兄弟是谁？"));
}

#[test]
fn test_no_duplicate_title_kept() {
    let content = "　　赵大、赵二兄弟是谁？\n　　郑均心中一怔。";

    let preprocessor = ContentPreprocessor::new(vec![]);
    let result = preprocessor.process(content, &make_options("第3章 披挂刀法！")).unwrap();

    assert!(result.contains("赵大、赵二兄弟是谁？"));
    assert!(result.contains("郑均心中一怔。"));
}

#[test]
fn title_block_is_dropped_whole() {
    assert_eq!(remove_title_block("\n题\n\n　题\n\n正文\n\n末", "题"), "正文\n\n末");
    assert_eq!(remove_title_block("\n\n正文\n题", "题"), "\n\n正文\n题");
    assert_eq!(remove_title_block("题", " 题 "), "");
    assert_eq!(remove_title_block("题\n正文", "  "), "题\n正文");
}
