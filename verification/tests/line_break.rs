use reader_core::line_break::apply_linebreak_rules;

fn brk(line: &str, after: &str) -> (String, String) {
    apply_linebreak_rules(line, after)
}

#[test]
fn opening_punctuation_moves_to_next_line() {
    assert_eq!(brk("你好「", "世界」"), ("你好".to_string(), "「世界」".to_string()));
}

#[test]
fn closing_punctuation_pulls_last_char() {
    assert_eq!(brk("你好", "，世界"), ("你".to_string(), "好，世界".to_string()));
}

#[test]
fn word_across_break_moves_whole() {
    assert_eq!(brk("hello wor", "ld!"), ("hello ".to_string(), "world!".to_string()));
    assert_eq!(brk("abc", "def"), (String::new(), "abcdef".to_string()));
}

#[test]
fn nothing_to_pull() {
    assert_eq!(brk("你好", "世界"), ("你好".to_string(), String::new()));
    assert_eq!(brk("abc", ""), ("abc".to_string(), String::new()));
    assert_eq!(brk("abc ", "def"), ("abc ".to_string(), String::new()));
}

#[test]
fn break_keeps_every_character() {
    let (line, rest) = brk("他说：“我们走吧", "。”然后离开");
    assert_eq!(format!("{line}{rest}"), "他说：“我们走吧。”然后离开");
}
