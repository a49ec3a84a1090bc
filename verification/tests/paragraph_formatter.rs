use reader_core::paragraph_format::{ParagraphFormatSettings, ReParagraphMode};
use reader_core::paragraph_formatter::ParagraphFormatter;
use reader_core::paragraph_splitter::{AGGRESSIVE_THRESHOLD, SMART_THRESHOLD};
fn settings(mode: ReParagraphMode, indent: bool, indent_size: u8) -> ParagraphFormatSettings {
    ParagraphFormatSettings {
        enable_indent: indent,
        indent_size_chars: indent_size,
        paragraph_spacing_multiplier_bits: 1.0f32.to_bits(),
        re_paragraph_mode: mode,
        smart_split_threshold: SMART_THRESHOLD,
        aggressive_split_threshold: AGGRESSIVE_THRESHOLD,
        justify: false,
        punctuation_compress: false,
        comment_scale_bits: 0.82f32.to_bits(),
    }
}

#[test]
fn smart_mode_merges_soft_breaks() {
    let formatter = ParagraphFormatter::new(settings(ReParagraphMode::Smart, false, 0));
    let input = "第一行内容\n第二行内容继续\n\n第二段第一行\n第二段第二行";
    let result = formatter.format(input);
    let paras: Vec<&str> = result.split("\n\n").collect();
    assert_eq!(paras.len(), 2, "应合并为 2 段");
    assert!(!paras[0].contains('\n'), "第一段不应有换行");
    assert!(!paras[1].contains('\n'), "第二段不应有换行");
}

#[test]
fn smart_mode_preserves_empty_line_boundaries() {
    let formatter = ParagraphFormatter::new(settings(ReParagraphMode::Smart, false, 0));
    let input = "段落一\n\n段落二";
    let result = formatter.format(input);
    let paras: Vec<&str> = result.split("\n\n").collect();
    assert_eq!(paras.len(), 2);
    assert_eq!(paras[0], "段落一");
    assert_eq!(paras[1], "段落二");
}

#[test]
fn smart_mode_chapter_marker_starts_new_para() {
    let formatter = ParagraphFormatter::new(settings(ReParagraphMode::Smart, false, 0));
    let input = "前文内容继续\n第二章 新的开始\n正文从这里开始";
    let result = formatter.format(input);
    let paras: Vec<&str> = result.split("\n\n").collect();
    assert!(paras.iter().any(|p| p.contains("第二章")), "应包含章节标记");
}

#[test]
fn smart_mode_dialogue_not_merged() {
    let formatter = ParagraphFormatter::new(settings(ReParagraphMode::Smart, false, 0));
    let input = "前文内容\n\n「对话内容」";
    let result = formatter.format(input);
    let paras: Vec<&str> = result.split("\n\n").collect();
    assert!(paras.len() >= 2, "对话应独立成段");
}

#[test]
fn aggressive_mode_merges_all_lines() {
    let formatter = ParagraphFormatter::new(settings(ReParagraphMode::Aggressive, false, 0));
    let input = "第一行\n第二行\n第三行\n第四行\n第五行\n第六行\n第七行\n第八行\n第九行\n第十行";
    let result = formatter.format(input);
    assert!(!result.is_empty());
    assert!(
        !result.contains('\n') || result.contains("\n\n"),
        "Aggressive 应移除软换行"
    );
}

fn sentences(n: usize) -> String {
    "一二三四五六七八九十。".repeat(n)
}

#[test]
fn smart_mode_long_para_gets_split() {
    let formatter = ParagraphFormatter::new(settings(ReParagraphMode::Smart, false, 0));
    let input = sentences(25); // 275 字 > Smart 阈值 200
    let result = formatter.format(&input);
    let paras: Vec<&str> = result.split("\n\n").collect();
    assert!(paras.len() >= 2, "275 字 Smart 应被切开，实得 {} 段", paras.len());
    let joined: String = paras.concat();
    assert_eq!(joined.chars().count(), 275);
}

#[test]
fn smart_multi_piece_all_bounded_restart_counting() {
    let formatter = ParagraphFormatter::new(settings(ReParagraphMode::Smart, false, 0));
    let result = formatter.format(&sentences(60)); // 660 字
    let paras: Vec<&str> = result.split("\n\n").collect();
    assert!(paras.len() >= 3, "660 字应切成 ≥3 段，实得 {}", paras.len());
    for (i, p) in paras.iter().enumerate() {
        assert!(
            p.chars().count() <= 200 + 20,
            "片段 {} 长度 {} 超过阈值上界",
            i,
            p.chars().count()
        );
    }
}

#[test]
fn custom_threshold_via_settings() {
    let mut s = settings(ReParagraphMode::Smart, false, 0);
    s.smart_split_threshold = 60;
    let formatter = ParagraphFormatter::new(s);
    let result = formatter.format(&sentences(20)); // 220 字
    let paras: Vec<&str> = result.split("\n\n").collect();
    assert!(paras.len() >= 3, "阈值 60 时 220 字应切成 ≥3 段");
    for p in &paras {
        assert!(p.chars().count() <= 80, "自定义阈值片段超限");
    }
}

#[test]
fn aggressive_unified_threshold_100() {
    let formatter = ParagraphFormatter::new(settings(ReParagraphMode::Aggressive, false, 0));
    let merged_input = sentences(14); // 154 字 > Aggressive 阈值 100
    let result = formatter.format(&merged_input);
    let paras: Vec<&str> = result.split("\n\n").collect();
    assert!(paras.len() >= 2, "154 字 Aggressive 应被切开");
    for p in &paras {
        assert!(
            p.chars().count() <= 100 + 20,
            "子段过长: {}",
            p.chars().count()
        );
    }
}

#[test]
fn indent_applies_to_every_sub_segment() {
    let formatter = ParagraphFormatter::new(settings(ReParagraphMode::Smart, true, 2));
    let result = formatter.format(&sentences(25));
    let paras: Vec<&str> = result.split("\n\n").collect();
    assert!(paras.len() >= 2);
    for (i, p) in paras.iter().enumerate() {
        assert!(
            p.starts_with("\u{3000}\u{3000}"),
            "子段 {} 应以两个全角空格开头",
            i
        );
    }
}

#[test]
fn chapter_marker_long_para_not_split() {
    let formatter = ParagraphFormatter::new(settings(ReParagraphMode::Smart, false, 0));
    let input = format!("第十二章 {}", sentences(25));
    let result = formatter.format(&input);
    assert_eq!(result.split("\n\n").count(), 1, "章节标记段不切分");
}

#[test]
fn indent_adds_full_width_spaces() {
    let formatter = ParagraphFormatter::new(settings(ReParagraphMode::Off, true, 2));
    let input = "段落内容";
    let result = formatter.format(input);
    assert!(
        result.starts_with("\u{3000}\u{3000}"),
        "应以 2 个全角空格开头"
    );
}

#[test]
fn indent_skips_chapter_markers() {
    let formatter = ParagraphFormatter::new(settings(ReParagraphMode::Off, true, 2));
    let input = "第一章 开始\n正文内容";
    let result = formatter.format(input);
    let lines: Vec<&str> = result.lines().collect();
    assert!(
        !lines[0].starts_with('\u{3000}'),
        "章节标记不应缩进"
    );
    assert!(
        lines[1].starts_with("\u{3000}\u{3000}"),
        "正文应缩进"
    );
}

#[test]
fn indent_no_double_indent() {
    let formatter = ParagraphFormatter::new(settings(ReParagraphMode::Off, true, 2));
    let input = "\u{3000}\u{3000}已有缩进的段落";
    let result = formatter.format(input);
    assert_eq!(result, input);
}

#[test]
fn none_mode_with_indent_only() {
    let formatter = ParagraphFormatter::new(settings(ReParagraphMode::Off, true, 2));
    let input = "段落一\n\n段落二";
    let result = formatter.format(input);
    let lines: Vec<&str> = result.lines().collect();
    assert!(lines[0].starts_with("\u{3000}\u{3000}"));
    assert!(lines[2].starts_with("\u{3000}\u{3000}"));
}

#[test]
fn fast_path_no_settings() {
    let formatter = ParagraphFormatter::new(settings(ReParagraphMode::Off, false, 0));
    let input = "原文内容\n保持不变";
    let result = formatter.format(input);
    assert_eq!(result, input);
}

#[test]
fn smart_mode_preserves_poetry() {
    let formatter = ParagraphFormatter::new(settings(ReParagraphMode::Smart, false, 0));
    let input = "月落乌啼霜满天\n江枫渔火对愁眠\n姑苏城外寒山寺\n夜半钟声到客船";
    let result = formatter.format(input);
    let paras: Vec<&str> = result.split("\n\n").collect();
    assert!(paras.len() >= 1, "诗歌至少应有一个段落");
}

#[test]
fn smart_poetry_lines_stay_independent() {
    let formatter = ParagraphFormatter::new(settings(ReParagraphMode::Smart, false, 0));
    let input = "他望着窗外出神，久久没有说话。\n床前明月光\n疑是地上霜\n举头望明月\n低头思故乡\n他想起了故乡的很多往事，一时难以平静。";
    let out = formatter.format(input);
    let paras: Vec<&str> = out.split("\n\n").collect();
    assert!(paras.contains(&"床前明月光"), "诗行应独立成段（实得 {:?}）", paras);
    assert!(paras.contains(&"疑是地上霜"));
    assert!(paras.contains(&"举头望明月"));
    assert!(paras.contains(&"低头思故乡"));
    assert_eq!(paras.len(), 6);
    assert!(paras[0].starts_with("他望着"));
    assert_eq!(paras[5], "他想起了故乡的很多往事，一时难以平静。");
}

#[test]
fn smart_quote_lines_stripped_and_independent() {
    let formatter = ParagraphFormatter::new(settings(ReParagraphMode::Smart, false, 0));
    let input = "正文开头\n> 这是引用的内容\n> 第二行引用\n正文继续";
    let out = formatter.format(input);
    let paras: Vec<&str> = out.split("\n\n").collect();
    assert_eq!(paras[0], "正文开头");
    assert!(paras.contains(&"这是引用的内容"), "引用行应去前缀独立成段（实得 {:?}）", paras);
    assert!(paras.contains(&"第二行引用"));
    assert_eq!(paras[3], "正文继续");
}

#[test]
fn smart_closed_dialogue_ends_paragraph() {
    let formatter = ParagraphFormatter::new(settings(ReParagraphMode::Smart, false, 0));
    let input = "「你好。」\n他转身离开，留下一个背影，从此再也没有回来过。";
    let out = formatter.format(input);
    let paras: Vec<&str> = out.split("\n\n").collect();
    assert_eq!(paras.len(), 2, "闭合对话应独立成段（实得 {:?}）", paras);
    assert_eq!(paras[0], "「你好。」");
}
