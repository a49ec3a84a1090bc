use reader_core::chapter_utils::ChapterInfo;

#[test]
fn test_chapter_info_extraction() {
    let titles = vec!["第一章 开始", "第123章 大决战", "001、序章", "第一百二十三章 终结【VIP】"];
    for title in titles {
        let info = ChapterInfo::new(title.to_string());
        println!("{:20} | {:3} | {}", info.title, info.chapter_number, info.pure_title);
    }
}
