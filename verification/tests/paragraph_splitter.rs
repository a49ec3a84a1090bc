use reader_core::paragraph_splitter::{split_pieces, split_ranges, AGGRESSIVE_THRESHOLD, SMART_THRESHOLD};

fn repeat(ch: char, n: usize) -> String {
    std::iter::repeat(ch).take(n).collect()
}

#[test]
fn default_threshold_constants() {
    assert_eq!(SMART_THRESHOLD, 200);
    assert_eq!(AGGRESSIVE_THRESHOLD, 100);
}

#[test]
fn split_restarts_counting_from_each_cut() {
    let text = "一二三四五六七八九十。".repeat(60);
    let ranges = split_ranges(&text, 200);
    assert_eq!(ranges, vec![(0, 198), (198, 396), (396, 594), (594, 660)]);
    for &(s, e) in &ranges {
        assert!(e - s <= 200, "piece length {} above threshold", e - s);
    }
}

#[test]
fn custom_threshold_respected() {
    let text = "一二三四五六七八九十。".repeat(30);
    let ranges = split_ranges(&text, 80);
    assert!(ranges.len() >= 4);
    for &(s, e) in &ranges {
        assert!(e - s <= 80 + 20, "piece too long under custom threshold: {}", e - s);
    }
}

#[test]
fn short_text_single_range() {
    assert_eq!(split_ranges("短文本", 200), vec![(0, 3)]);
    let exact = repeat('甲', 200);
    assert_eq!(split_ranges(&exact, 200), vec![(0, 200)]);
    assert_eq!(split_ranges("任意", 0), vec![(0, 2)]);
}

#[test]
fn cuts_at_last_strong_punct_in_window() {
    let mut text = repeat('甲', 150);
    text.push('。');
    text.push_str(&repeat('乙', 30));
    text.push('。');
    text.push_str(&repeat('丙', 80));
    let ranges = split_ranges(&text, 200);
    assert_eq!(ranges, vec![(0, 182), (182, 262)]);
}

#[test]
fn quote_absorption_keeps_closer_with_left() {
    let mut text = repeat('X', 199);
    text.push('。');
    text.push('\u{201D}');
    text.push_str(&repeat('Y', 50));
    let pieces = split_pieces(&text, 200);
    assert_eq!(pieces.len(), 2);
    assert!(pieces[0].ends_with("。”"));
    assert!(!pieces[1].starts_with('\u{201D}'));
}

#[test]
fn ellipsis_never_split() {
    let mut text = repeat('A', 199);
    text.push_str("……");
    let pieces = split_pieces(&text, 200);
    assert_eq!(pieces.len(), 1);

    let mut text2 = repeat('A', 195);
    text2.push_str("……");
    text2.push_str(&repeat('B', 40));
    let ranges = split_ranges(&text2, 200);
    let bounds: Vec<usize> = ranges.iter().map(|&(s, _)| s).skip(1).collect();
    for b in bounds {
        assert!(b != 196, "cut inside the ellipsis pair at {}", b);
    }
    for p in split_pieces(&text2, 200) {
        assert!(!p.starts_with('\u{2026}') || text2.starts_with('\u{2026}'));
    }
}

#[test]
fn fallback_bounded_secondary_scan() {
    let mut text = repeat('甲', 250);
    text.push('，');
    text.push_str(&repeat('乙', 100));
    let ranges = split_ranges(&text, 200);
    assert_eq!(ranges.first(), Some(&(0, 251)));
}

#[test]
fn hard_cut_at_limit_when_no_punct() {
    let text = repeat('甲', 500);
    let ranges = split_ranges(&text, 200);
    assert_eq!(ranges, vec![(0, 200), (200, 400), (400, 500)]);
}

#[test]
fn no_empty_tail_after_absorb_to_end() {
    let mut text = repeat('X', 199);
    text.push('。');
    text.push('\u{201D}');
    let pieces = split_pieces(&text, 200);
    assert_eq!(pieces.len(), 1);
    assert_eq!(pieces[0].chars().count(), 201);
    assert!(pieces.iter().all(|p| !p.is_empty()));
}

#[test]
fn tail_rebalance_merges_tiny_tail() {
    let mut text = repeat('甲', 189);
    text.push('。');
    text.push_str(&repeat('乙', 11));
    text.push('。');
    let ranges = split_ranges(&text, 200);
    assert_eq!(ranges, vec![(0, 202)]);

    let mut text2 = repeat('甲', 190);
    text2.push('。');
    text2.push_str(&repeat('乙', 60));
    text2.push('。');
    let ranges2 = split_ranges(&text2, 200);
    assert_ne!(ranges2.len(), 1);
}

#[test]
fn ranges_contiguous_ordered_cover_all() {
    let cases: Vec<String> = vec![
        format!("{}。{}", repeat('甲', 350), repeat('乙', 30)),
        format!("{}，{}", repeat('甲', 95), repeat('乙', 120)),
        repeat('丙', 700),
        "短句。".to_string(),
    ];
    assert_eq!(split_ranges("", 200), vec![(0, 0)]);
    for text in cases {
        let total = text.chars().count();
        let ranges = split_ranges(&text, 200);
        let mut expect_start = 0usize;
        for &(s, e) in &ranges {
            assert_eq!(s, expect_start);
            assert!(e > s);
            expect_start = e;
        }
        assert_eq!(expect_start, total);
    }
}

#[test]
fn pieces_concatenate_to_the_text() {
    let text = format!("{}。{}！{}", repeat('甲', 230), repeat('乙', 180), repeat('丙', 90));
    let pieces = split_pieces(&text, 100);
    assert!(pieces.len() > 1);
    assert_eq!(pieces.concat(), text);
}

#[test]
fn ellipsis_run_of_four_keeps_first_pair_whole() {
    // the cut lands inside the run: it moves one character on, which keeps the first
    // pair whole; a run this long cannot be kept whole entirely
    let mut text: String = std::iter::repeat('A').take(198).collect();
    text.push_str("…………");
    text.push_str(&std::iter::repeat('B').take(40).collect::<String>());
    let ranges = split_ranges(&text, 200);
    assert_eq!(ranges, vec![(0, 201), (201, 242)]);
}
