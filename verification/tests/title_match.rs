use reader_core::title_match::{
    clean_title, drop_title_line, title_candidates, title_similarity, TitleSimilarity,
};

fn similar(s1: &str, s2: &str, threshold: f32) -> bool {
    match title_similarity(s1, s2) {
        TitleSimilarity::Same | TitleSimilarity::Contained => true,
        TitleSimilarity::Unrelated => false,
        TitleSimilarity::Distance(d) => {
            let max_len = s1.len().max(s2.len());
            max_len != 0 && 1.0 - (d as f32 / max_len as f32) >= threshold
        }
    }
}

fn remove(content: &str, title: &str) -> String {
    let t = clean_title(title);
    for (i, line) in title_candidates(content, 5) {
        if similar(&t, &line, 0.8) {
            return drop_title_line(content, i);
        }
    }
    content.to_string()
}

#[test]
fn exact_title_line_is_dropped() {
    assert_eq!(remove("第一章 测试\n这是内容", "第一章 测试"), "这是内容");
}

#[test]
fn decorated_title_line_is_dropped() {
    assert_eq!(remove("【第一章】新的开始\n正文内容...", "第一章 新的开始"), "正文内容...");
    assert_eq!(remove("第一章：新的开始\n正文内容...", "第一章 新的开始"), "正文内容...");
}

#[test]
fn body_without_title_is_kept() {
    assert_eq!(remove("这是一段正文内容...", "第一章 开始"), "这是一段正文内容...");
}

#[test]
fn cleaning_drops_whitespace_and_decorators() {
    assert_eq!(clean_title(" 【第一章】 新的开始！ "), "第一章新的开始");
    assert_eq!(clean_title("《书》(上)"), "书上");
}

#[test]
fn similarity_kinds() {
    assert_eq!(title_similarity("abc", "abc"), TitleSimilarity::Same);
    assert_eq!(title_similarity("", "abc"), TitleSimilarity::Unrelated);
    assert_eq!(title_similarity("ab", "xaby"), TitleSimilarity::Contained);
    assert_eq!(title_similarity("xaby", "ab"), TitleSimilarity::Contained);
    assert_eq!(title_similarity("abc", "abd"), TitleSimilarity::Distance(1));
    assert_eq!(title_similarity("kitten", "sitting"), TitleSimilarity::Distance(3));
}

#[test]
fn candidates_skip_blank_lines_and_stop_at_the_limit() {
    let c = title_candidates("\n 【题】 \n\n正文\n末", 3);
    assert_eq!(c, vec![(1, "题".to_string())]);
    let all = title_candidates("\n 【题】 \n\n正文\n末", 10);
    assert_eq!(all, vec![(1, "题".to_string()), (3, "正文".to_string()), (4, "末".to_string())]);
}

#[test]
fn dropping_a_title_line_skips_following_blank_lines() {
    assert_eq!(drop_title_line("前\n题\n\n \n正文\n\n末", 1), "正文\n\n末");
    assert_eq!(drop_title_line("题", 0), "");
    assert_eq!(drop_title_line("题\n正文", 7), "");
}
