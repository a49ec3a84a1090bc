use reader_core::smart_segment::{
    hard_limit, segment_lines, split_paragraph_ranges, SegmentAction, SegmentRule, SmartSegConfig,
    DEFAULT_SEG_THRESHOLD,
};

fn cfg50() -> SmartSegConfig {
    SmartSegConfig::default_with_threshold(DEFAULT_SEG_THRESHOLD)
}

fn cfg_n(n: usize) -> SmartSegConfig {
    SmartSegConfig::default_with_threshold(n)
}

#[test]
fn short_lines_merge() {
    let content = "他说：\u{201C}你好啊。\u{201D}\n我点了点头，\n然后转身离开。";
    let paras = segment_lines(content, &cfg50());
    assert_eq!(
        paras,
        vec!["他说：\u{201C}你好啊。\u{201D}我点了点头，然后转身离开。"]
    );
}

#[test]
fn cumulative_threshold_splits() {
    let l1 = format!("{}。", "甲".repeat(29));
    let l2 = format!("{}。", "乙".repeat(29));
    let l3 = format!("{}。", "丙".repeat(29));
    let content = format!("{}\n{}\n{}", l1, l2, l3);
    let paras = segment_lines(&content, &cfg50());
    assert_eq!(paras.len(), 2);
    assert_eq!(paras[0], format!("{}。{}。", "甲".repeat(29), "乙".repeat(29)));
    assert_eq!(paras[1], format!("{}。", "丙".repeat(29)));
}

#[test]
fn comma_never_breaks() {
    let content = format!(
        "{}、\n{}，\n{}。",
        "驱".repeat(20),
        "赶".repeat(20),
        "蜈".repeat(20)
    );
    let paras = segment_lines(&content, &cfg50());
    assert_eq!(paras.len(), 1);
}

#[test]
fn quote_unclosed_glue() {
    let content = format!(
        "小镇的瓷器极负盛名，本朝开国以来，就承担起\u{201C}{}。\u{201D}{}\n{}。",
        "奉".repeat(30),
        "的重任，有朝廷官员常年驻扎此地，监理官窑事务。",
        "无依无靠的陈平安，很早就成了烧瓷的窑匠。"
    );
    let paras = segment_lines(&content, &cfg50());
    assert!(!paras.iter().any(|p| p.ends_with("就承担起")));
}

#[test]
fn closing_glue_atomic() {
    let content = format!(
        "{}。{}。”{}。",
        "甲".repeat(45),
        "乙".repeat(10),
        "丙".repeat(10)
    );
    let paras = segment_lines(&content, &cfg50());
    assert_eq!(paras.len(), 2);
    assert_eq!(
        paras[0],
        format!("{}。{}。”", "甲".repeat(45), "乙".repeat(10))
    );
}

#[test]
fn ellipsis_same_line_atomic() {
    let content = format!("{}……{}。", "甲".repeat(50), "乙".repeat(10));
    let paras = segment_lines(&content, &cfg50());
    assert!(paras.iter().all(|p| !p.starts_with('…')));
}

#[test]
fn ellipsis_across_soft_wrap_atomic() {
    let content = format!("{}…\n…{}。", "甲".repeat(52), "乙".repeat(5));
    let paras = segment_lines(&content, &cfg50());
    assert!(
        !paras.iter().any(|p| p.starts_with('…')),
        "跨行省略号不得拆开落段首: {:?}",
        paras
    );
    assert!(
        paras.iter().any(|p| p.contains("……")),
        "省略号对必须完整: {:?}",
        paras
    );
}

#[test]
fn ellipsis_three_ideographic_fullstops_atomic() {
    let content = format!("{}。。{}。", "甲".repeat(50), "乙".repeat(8));
    let paras = segment_lines(&content, &cfg50());
    assert!(paras.iter().all(|p| !p.starts_with('。')));
}

#[test]
fn hard_boundaries() {
    let content = "第一段内容。\n\n第二章 测试\n正文开始。\n***\n后续内容。";
    let paras = segment_lines(content, &cfg50());
    assert!(paras.contains(&"第二章 测试".to_string()));
    assert!(paras.contains(&"***".to_string()));
}

#[test]
fn user_rules() {
    let rules = vec![SegmentRule::user_regex(
        "u1",
        "^——.*$",
        SegmentAction::KeepIndependent,
    )];
    let cfg = SmartSegConfig::from_rules(50, &rules);
    let content = "前文内容。\n——分割线——\n后文内容。";
    let paras = segment_lines(content, &cfg);
    assert!(paras.iter().any(|l| l == "——分割线——"));
}

#[test]
fn custom_threshold() {
    let content = format!("{}。{}。", "甲".repeat(30), "乙".repeat(30));
    let paras = segment_lines(&content, &cfg_n(20));
    assert!(paras.len() >= 2, "阈值 20 应切开: {:?}", paras);
}

#[test]
fn ranges_cover_full_text() {
    let text = format!("{}。{}。{}。", "甲".repeat(40), "乙".repeat(40), "丙".repeat(40));
    let ranges = split_paragraph_ranges(&text, &cfg50());
    let total = text.chars().count();
    assert_eq!(ranges.first().map(|r| r.0), Some(0));
    assert_eq!(ranges.last().map(|r| r.1), Some(total));
    for w in ranges.windows(2) {
        assert_eq!(w[0].1, w[1].0, "区间必须无缝");
    }
    for &(s, e) in &ranges {
        assert!(e > s, "无空区间");
    }
}

#[test]
fn ranges_ellipsis_atomic() {
    let text = format!("{}……{}。", "甲".repeat(50), "乙".repeat(10));
    let ranges = split_paragraph_ranges(&text, &cfg50());
    let chars: Vec<char> = text.chars().collect();
    for &(s, e) in &ranges {
        let piece: String = chars[s..e].iter().collect();
        assert!(!piece.starts_with('…'), "区间不得以省略号开头: {:?}", piece);
    }
}

#[test]
fn ranges_short_no_split() {
    let text = "短段落。";
    let ranges = split_paragraph_ranges(text, &cfg50());
    assert_eq!(ranges, vec![(0, text.chars().count())]);
}

#[test]
fn no_terminal_hard_limit_splits() {
    let text = format!("{}，{}", "甲".repeat(55), "乙".repeat(55));
    let paras = segment_lines(&text, &cfg50());
    assert!(
        paras.len() >= 2,
        "无终结构长段应在硬上限附近切开: {:?}",
        paras.iter().map(|p| p.chars().count()).collect::<Vec<_>>()
    );
    let joined = paras.join("");
    assert_eq!(joined, text, "兜底切分不得丢字");
}

#[test]
fn no_punct_at_all_hard_cuts() {
    let text = "甲".repeat(120);
    let paras = segment_lines(&text, &cfg50());
    assert!(paras.len() >= 2, "无标点 120 字应硬切: {}", paras.len());
    for p in &paras {
        assert!(
            p.chars().count() <= hard_limit(50) + 1,
            "片段过长 {}",
            p.chars().count()
        );
    }
    assert_eq!(paras.concat(), text);
}

#[test]
fn ranges_no_terminal_hard_limit() {
    let text = format!("{}，{}", "甲".repeat(55), "乙".repeat(55));
    let ranges = split_paragraph_ranges(&text, &cfg50());
    assert!(ranges.len() >= 2, "EPUB 无终结构也应兜底切开");
    let total = text.chars().count();
    assert_eq!(ranges.first().map(|r| r.0), Some(0));
    assert_eq!(ranges.last().map(|r| r.1), Some(total));
}

#[test]
fn quote_open_still_suppresses_soft_but_not_hard_limit() {
    let text = format!("\u{300C}{}", "甲".repeat(120));
    let paras = segment_lines(&text, &cfg50());
    assert!(
        paras.len() >= 2,
        "未闭合直角引号下硬上限仍应切开: {}",
        paras.len()
    );
    assert_eq!(paras.concat(), text, "切分不得丢字");
}

#[test]
fn traditional_corner_quotes_tracked() {
    let text = format!(
        "{}「{}。」{}。",
        "前".repeat(20),
        "话".repeat(40),
        "后".repeat(55)
    );
    let paras = segment_lines(&text, &cfg50());
    assert!(
        paras.len() >= 2,
        "闭合后应恢复软切: {:?}",
        paras.iter().map(|p| p.chars().count()).collect::<Vec<_>>()
    );
    assert!(paras.iter().any(|p| p.contains('「')));
}

#[test]
fn single_line_keeps_every_character_in_order() {
    let cfg = SmartSegConfig::default_with_threshold(10);
    let line = format!("  {}。{}，{}！“{}”{}…{}  ", "甲".repeat(30), "乙".repeat(12), "丙".repeat(25), "丁".repeat(9), "戊".repeat(40), "己".repeat(3));
    let paras = segment_lines(&line, &cfg);
    assert!(paras.len() > 1);
    assert!(paras.iter().all(|p| !p.is_empty()));
    assert_eq!(paras.concat(), line.trim());
}
