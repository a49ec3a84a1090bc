use reader_core::charsets::{gb2312_level1_chars, gb2312_level1_count, gb2312_level2_chars};

#[test]
fn test_gb2312_chars() {
    let chars = gb2312_level1_chars();
    assert!(chars.len() > 100);
    assert!(chars.contains(&'的'));
    assert!(chars.contains(&'一'));
    assert!(chars.contains(&'是'));
    assert!(chars.contains(&'人'));
    assert!(chars.contains(&'我'));
}

#[test]
fn test_gb2312_count() {
    let count = gb2312_level1_count();
    assert!(count > 100);
    assert_eq!(count, gb2312_level1_chars().len());
}

#[test]
fn level_two_table_is_not_empty() {
    assert!(!gb2312_level2_chars().is_empty());
}

#[test]
fn level_one_table_holds_each_character_once() {
    let chars = gb2312_level1_chars();
    for i in 0..chars.len() {
        for j in (i + 1)..chars.len() {
            assert_ne!(chars[i], chars[j]);
        }
    }
    assert_eq!(chars[0], '的');
    assert_eq!(chars[1], '一');
}

#[test]
fn level_two_table_is_distinct_and_apart_from_level_one() {
    let one = gb2312_level1_chars();
    let two = gb2312_level2_chars();
    for i in 0..two.len() {
        assert!(!one.contains(&two[i]));
        for j in (i + 1)..two.len() {
            assert_ne!(two[i], two[j]);
        }
    }
    assert!(!two.contains(&'一'));
    assert!(two.contains(&'俺'));
}

#[test]
fn level_one_table_size() {
    assert_eq!(gb2312_level1_count(), 223);
    assert_eq!(gb2312_level1_chars().len(), 223);
}
