use reader_core::pipeline::{PipelineData, ProcessingStage};
use reader_core::stages::{HtmlProtector, HtmlRestorer, RegexReplacer, ResegmentProcessor, StringReplacer};

#[test]
fn test_resegment_processor() {
    let stage = ResegmentProcessor;
    let input = PipelineData { content: "段落1\n\n\n\n段落2\r\n\r\n段落3".to_string(), ..Default::default() };
    let output = stage.process(input).unwrap();
    assert_eq!(output.content, "段落1\n段落2\n段落3");
}

#[test]
fn test_html_protector() {
    let stage = HtmlProtector::default();
    let input = PipelineData { content: "文字<b>粗体</b>更多".to_string(), ..Default::default() };
    let output = stage.process(input).unwrap();
    assert!(output.content.contains("__HTML_PH_0__"));
    assert!(output.content.contains("__HTML_PH_1__"));
    assert!(output.html_map.is_some());
    let map = output.html_map.unwrap();
    assert_eq!(map.len(), 2);
}

#[test]
fn test_string_replacer() {
    let stage = StringReplacer::new(vec![("测试".to_string(), "TEST".to_string())]);
    let input = PipelineData { content: "这是测试内容".to_string(), ..Default::default() };
    let output = stage.process(input).unwrap();
    assert_eq!(output.content, "这是TEST内容");
}

#[test]
fn test_regex_replacer() {
    let stage = RegexReplacer::new(vec![(r"\d{4}-\d{2}-\d{2}".to_string(), "[日期]".to_string())]);
    let input = PipelineData { content: "发布于2026-08-17的内容".to_string(), ..Default::default() };
    let output = stage.process(input).unwrap();
    assert_eq!(output.content, "发布于[日期]的内容");
}

#[test]
fn regex_replacer_reports_a_bad_pattern() {
    let stage = RegexReplacer::new(vec![("[".to_string(), "x".to_string())]);
    assert!(stage.process(PipelineData::default()).is_err());
}

#[test]
fn test_html_restorer() {
    let stage = HtmlRestorer;
    let html_map = vec![
        ("__HTML_PH_0__".to_string(), "<b>".to_string()),
        ("__HTML_PH_1__".to_string(), "</b>".to_string()),
    ];
    let input = PipelineData {
        content: "文字__HTML_PH_0__粗体__HTML_PH_1__更多".to_string(),
        html_map: Some(html_map),
        ..Default::default()
    };
    let output = stage.process(input).unwrap();
    assert_eq!(output.content, "文字<b>粗体</b>更多");
    assert!(output.html_map.is_none());
}

#[test]
fn stage_names_and_skippability() {
    assert_eq!(ResegmentProcessor.stage_name(), "ResegmentProcessor");
    assert_eq!(HtmlRestorer.stage_name(), "HtmlRestorer");
    assert!(!HtmlProtector::default().is_skippable());
}
