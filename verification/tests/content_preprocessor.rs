use reader_core::content_preprocessor::{
    protect_html_tags, re_segment, remove_duplicate_title, replace_rules_hash, restore_html_tags,
    ContentPreprocessor, ContentProcessError, ProcessOptions, ReplaceRule, RuleType, SegmentAction,
    SegmentRule,
};

fn rule(pattern: &str, replacement: &str, rule_type: RuleType, enabled: bool) -> ReplaceRule {
    ReplaceRule {
        pattern: pattern.to_string(),
        replacement: replacement.to_string(),
        rule_type,
        timeout_ms: 1000,
        enabled,
    }
}

fn no_title_options() -> ProcessOptions {
    ProcessOptions { remove_duplicate_title: false, ..Default::default() }
}

#[test]
fn test_remove_duplicate_title() {
    let content = "第一章 测试\n这是内容";
    let result = remove_duplicate_title(content, "第一章 测试");
    assert_eq!(result, "第一章 测试\n这是内容");
}

#[test]
fn test_remove_duplicate_title_no_match() {
    let content = "这是内容";
    let result = remove_duplicate_title(content, "第一章 测试");
    assert_eq!(result, "这是内容");
}

#[test]
fn test_remove_duplicate_title_repeated() {
    let content = "第一章 测试\n第一章 测试\n这是内容";
    let result = remove_duplicate_title(content, "第一章 测试");
    assert_eq!(result, "第一章 测试\n这是内容");
}

#[test]
fn duplicate_title_with_blank_lines_and_ideographic_spaces() {
    let content = "\n\u{3000}第一章 测试\u{3000}\n\n  第一章 测试\n\n正文\n\n第一章 测试";
    let result = remove_duplicate_title(content, " 第一章 测试 ");
    assert_eq!(result, "\u{3000}第一章 测试\u{3000}\n正文\n\n第一章 测试");
    assert_eq!(remove_duplicate_title("内容", "   "), "内容");
}

#[test]
fn test_re_segment() {
    let content = "段落1\n\n\n\n段落2\r\n\r\n段落3";
    let result = re_segment(content, &[]);
    assert_eq!(result, "段落1\n段落2\n段落3");
}

#[test]
fn test_re_segment_builtin_dialogue() {
    let content = "他说：\u{201C}你好啊。\u{201D}\n我点了点头，\n然后转身离开。";
    let result = re_segment(content, &[]);
    assert!(result.contains("你好啊。"));
    assert!(result.contains("点了点头， 然后转身离开。"));
}

#[test]
fn re_segment_user_rules_decide_before_builtins() {
    let rules = vec![SegmentRule::user_regex("m", "^接", SegmentAction::MergeWithPrev)];
    let result = re_segment("第一句。\n接着说\n第三句。", &rules);
    assert_eq!(result, "第一句。 接着说\n第三句。");

    let independent = vec![
        SegmentRule::user_regex("m", "^接", SegmentAction::MergeWithPrev),
        SegmentRule::user_regex("i", "说$", SegmentAction::KeepIndependent),
    ];
    let result = re_segment("前文，\n接着说", &independent);
    assert_eq!(result, "前文，\n接着说");

    let breaking = vec![SegmentRule::user_regex("b", "，$", SegmentAction::ForceBreakAfter)];
    assert_eq!(re_segment("前文，\n后文", &breaking), "前文，\n后文");
    assert_eq!(re_segment("前文，\n后文", &[]), "前文， 后文");
}

#[test]
fn re_segment_skips_rules_that_do_not_compile() {
    let rules = vec![SegmentRule::user_regex("bad", "(", SegmentAction::MergeWithPrev)];
    assert_eq!(re_segment("一句。\n二句。", &rules), "一句。\n二句。");
}

#[test]
fn test_protect_html_tags() {
    let content = "文字<b>粗体</b>更多文字";
    let (protected, map) = protect_html_tags(content);
    assert!(protected.contains("__HTML_PH_0__"));
    assert!(protected.contains("__HTML_PH_1__"));
    assert_eq!(map.len(), 2);
    let get = |k: &str| map.iter().find(|(p, _)| p == k).map(|(_, v)| v.clone());
    assert_eq!(get("__HTML_PH_0__").unwrap(), "<b>");
    assert_eq!(get("__HTML_PH_1__").unwrap(), "</b>");
    assert_eq!(protected, "文字__HTML_PH_0__粗体__HTML_PH_1__更多文字");
}

#[test]
fn protect_then_restore_gives_back_the_text() {
    let content = "<p>段落<i>斜体</i></p>尾";
    let (protected, map) = protect_html_tags(content);
    assert!(!protected.contains('<'));
    assert_eq!(restore_html_tags(&protected, &map), content);
}

#[test]
fn test_string_replace_rule() {
    let preprocessor = ContentPreprocessor::new(vec![rule("测试", "TEST", RuleType::String, true)]);
    let result = preprocessor.process("这是测试内容", &no_title_options()).unwrap();
    assert_eq!(result, "这是TEST内容");
}

#[test]
fn test_regex_replace_rule() {
    let preprocessor =
        ContentPreprocessor::new(vec![rule(r"\d{4}-\d{2}-\d{2}", "[日期]", RuleType::Regex, true)]);
    let result = preprocessor.process("发布于2026-08-17的内容", &no_title_options()).unwrap();
    assert_eq!(result, "发布于[日期]的内容");
}

#[test]
fn test_regex_timeout_disables_rule() {
    let mut r = rule(r"^(a+)+$", "X", RuleType::Regex, true);
    r.timeout_ms = 1;
    let preprocessor = ContentPreprocessor::new(vec![r]);
    let input = format!("{}b", "a".repeat(25));
    let result = preprocessor.process(&input, &no_title_options());
    assert!(result.is_ok());
}

#[test]
fn test_regex_timeout_disables_on_match_attempt() {
    let mut r = rule(r"(a*)*$", "X", RuleType::Regex, true);
    r.timeout_ms = 1;
    let preprocessor = ContentPreprocessor::new(vec![r]);
    let input = "a".repeat(30);
    let _ = preprocessor.process(&input, &no_title_options());
}

#[test]
fn test_html_protection_preserves_tags() {
    let preprocessor = ContentPreprocessor::new(vec![rule("测试", "TEST", RuleType::String, true)]);
    let options = ProcessOptions { remove_duplicate_title: false, adapt_special_style: true, ..Default::default() };
    let result = preprocessor.process("这是<b>测试</b>内容", &options).unwrap();
    assert!(result.contains("<b>"));
    assert!(result.contains("</b>"));
    assert!(result.contains("TEST"));
}

#[test]
fn tag_text_is_out_of_reach_of_rules() {
    let preprocessor = ContentPreprocessor::new(vec![rule("b", "X", RuleType::String, true)]);
    let result = preprocessor.process("<b>abc</b>", &no_title_options()).unwrap();
    assert_eq!(result, "<b>aXc</b>");
    let unprotected = ProcessOptions { adapt_special_style: false, ..no_title_options() };
    assert_eq!(preprocessor.process("<b>abc</b>", &unprotected).unwrap(), "<X>aXc</X>");
}

#[test]
fn test_multiple_rules_applied_in_order() {
    let preprocessor = ContentPreprocessor::new(vec![
        rule("aaa", "b", RuleType::String, true),
        rule("bb", "c", RuleType::String, true),
    ]);
    let result = preprocessor.process("aaaabbb", &no_title_options()).unwrap();
    assert_eq!(result, "bacb");
}

#[test]
fn test_disabled_rule_skipped() {
    let preprocessor = ContentPreprocessor::new(vec![rule("测试", "TEST", RuleType::String, false)]);
    let result = preprocessor.process("这是测试内容", &no_title_options()).unwrap();
    assert_eq!(result, "这是测试内容");
}

#[test]
fn script_rules_are_skipped() {
    let preprocessor = ContentPreprocessor::new(vec![
        ReplaceRule::js("this is not valid js !!!"),
        ReplaceRule::string("读书", "写字"),
    ]);
    let options = ProcessOptions { adapt_special_style: false, ..no_title_options() };
    assert_eq!(preprocessor.process("他在读书", &options).unwrap(), "他在写字");
}

#[test]
fn bad_regex_rule_reports_its_pattern() {
    let preprocessor = ContentPreprocessor::new(vec![ReplaceRule::regex("(", "x")]);
    match preprocessor.process("abc", &no_title_options()) {
        Err(ContentProcessError::RegexCompile(m)) => assert!(m.starts_with("(: ")),
        other => panic!("expected a compile error, got {:?}", other),
    }
}

#[test]
fn empty_pattern_string_rule_inserts_everywhere() {
    let preprocessor = ContentPreprocessor::new(vec![ReplaceRule::string("", "-")]);
    let options = ProcessOptions { adapt_special_style: false, ..no_title_options() };
    assert_eq!(preprocessor.process("ab", &options).unwrap(), "-a-b-");
}

#[test]
fn process_runs_title_removal_and_resegmentation() {
    let preprocessor = ContentPreprocessor::empty();
    let options = ProcessOptions { title: "第一章".to_string(), re_segment: true, ..Default::default() };
    let result = preprocessor.process("第一章\n第一章\n\n他说，\n走吧。", &options).unwrap();
    assert_eq!(result, "他说， 走吧。");
}

#[test]
fn rule_hash_tracks_rule_content() {
    let a = vec![ReplaceRule::string("a", "b")];
    let b = vec![ReplaceRule::string("a", "c")];
    assert_eq!(replace_rules_hash(&a), replace_rules_hash(&a.clone()));
    assert_ne!(replace_rules_hash(&a), replace_rules_hash(&b));
}

#[test]
fn set_rules_replaces_the_rule_list() {
    let mut preprocessor = ContentPreprocessor::empty();
    preprocessor.set_rules(vec![ReplaceRule::string("x", "y")]);
    assert_eq!(preprocessor.apply_replace_rules("xx", "book").unwrap(), "yy");
}

#[test]
fn unterminated_last_line_keeps_its_carriage_return() {
    assert_eq!(remove_duplicate_title("题\r\n正文\r", "题"), "题\n正文\r");
}

#[test]
fn disable_rule_by_pattern_disables_only_the_first_match() {
    let mut p = ContentPreprocessor::new(vec![
        ReplaceRule::regex("a+", "b"),
        ReplaceRule::string("c", "d"),
        ReplaceRule::regex("a+", "x"),
    ]);
    assert_eq!(p.apply_replace_rules("aac", "").unwrap(), "bd");
    p.disable_rule_by_pattern("a+");
    assert_eq!(p.apply_replace_rules("aac", "").unwrap(), "xd");
    p.disable_rule_by_pattern("zzz");
    assert_eq!(p.apply_replace_rules("aac", "").unwrap(), "xd");
}

#[test]
fn protect_then_restore_gives_content_back() {
    let content = "文字<b>粗体</b>更多<i>斜体</i><br/>结尾__PH_1__";
    let (protected, map) = protect_html_tags(content);
    assert!(!protected.contains('<'));
    assert_eq!(map.len(), 5);
    assert_eq!(restore_html_tags(&protected, &map), content);
}
