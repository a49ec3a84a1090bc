use reader_core::chapter_utils::{chinese_num_to_int, extract_chapter_number, full_to_half, get_pure_chapter_name, ChapterInfo};

#[test]
fn test_extract_chapter_number() {
    assert_eq!(extract_chapter_number("第1章 开始"), 1);
    assert_eq!(extract_chapter_number("第123章 战斗"), 123);
    assert_eq!(extract_chapter_number("第一章 序幕"), 1);
    assert_eq!(extract_chapter_number("第十章 转折"), 10);
    assert_eq!(extract_chapter_number("第一百二十三章"), 123);
    assert_eq!(extract_chapter_number("001、序章"), 1);
    assert_eq!(extract_chapter_number("042：决战"), 42);
    assert_eq!(extract_chapter_number("无章节号的标题"), -1);
}

#[test]
fn test_get_pure_chapter_name() {
    assert_eq!(get_pure_chapter_name("第1章 开始"), "开始");
    assert_eq!(get_pure_chapter_name("第123章 战斗"), "战斗");
    assert_eq!(get_pure_chapter_name("001、序章"), "序章");
    assert_eq!(get_pure_chapter_name("第一章【VIP】"), "");
    assert_eq!(get_pure_chapter_name("第42章 最终决战（上）"), "最终决战");
    assert_eq!(get_pure_chapter_name("第10章 VIP章节"), "VIP章节");
}

#[test]
fn test_chinese_num_to_int() {
    assert_eq!(chinese_num_to_int("一"), 1);
    assert_eq!(chinese_num_to_int("十"), 10);
    assert_eq!(chinese_num_to_int("一十"), 10);
    assert_eq!(chinese_num_to_int("二十"), 20);
    assert_eq!(chinese_num_to_int("一百"), 100);
    assert_eq!(chinese_num_to_int("一百二十三"), 123);
    assert_eq!(chinese_num_to_int("一千"), 1000);
    assert_eq!(chinese_num_to_int("九千九百九十九"), 9999);
    assert_eq!(chinese_num_to_int("123"), 123);
}

#[test]
fn test_full_to_half() {
    assert_eq!(full_to_half("ＡＢＣ"), "ABC");
    assert_eq!(full_to_half("１２３"), "123");
    assert_eq!(full_to_half("（）"), "()");
    assert_eq!(full_to_half("　"), " ");
}

#[test]
fn test_chapter_info() {
    let info = ChapterInfo::new("第1章 开始".to_string());
    assert_eq!(info.chapter_number, 1);
    assert_eq!(info.pure_title, "开始");

    let info2 = ChapterInfo::new("第一百二十三章 大战".to_string());
    assert_eq!(info2.chapter_number, 123);
    assert_eq!(info2.pure_title, "大战");

    let info3 = ChapterInfo::new("第10章 VIP章节【特别篇】".to_string());
    assert_eq!(info3.chapter_number, 10);
    assert_eq!(info3.pure_title, "VIP章节");
}

#[test]
fn numerals_with_wan_zero_and_financial_forms() {
    assert_eq!(chinese_num_to_int("一万零一"), 10001);
    assert_eq!(chinese_num_to_int("两万"), 20000);
    assert_eq!(chinese_num_to_int("壹佰贰拾叁"), 123);
    assert_eq!(chinese_num_to_int("零"), -1);
    assert_eq!(chinese_num_to_int(""), -1);
    assert_eq!(chinese_num_to_int("-7"), -7);
    assert_eq!(chinese_num_to_int("亿"), 100000000);
}

#[test]
fn full_width_digits_are_read_as_numbers() {
    assert_eq!(extract_chapter_number("第１２章"), 12);
    assert_eq!(get_pure_chapter_name(""), "");
}

#[test]
fn arabic_numerals_parse_like_i32() {
    assert_eq!(chinese_num_to_int("123"), 123);
    assert_eq!(chinese_num_to_int("+7"), 7);
    assert_eq!(chinese_num_to_int("-42"), -42);
    assert_eq!(chinese_num_to_int("2147483647"), 2147483647);
    assert_eq!(chinese_num_to_int("-2147483648"), -2147483648);
    assert_eq!(chinese_num_to_int("0042"), 42);
    assert_eq!(chinese_num_to_int("2147483648"), -1);
    assert_eq!(chinese_num_to_int("99999999999"), -1);
    assert_eq!(chinese_num_to_int("-"), -1);
    assert_eq!(chinese_num_to_int("1a"), -1);
}
