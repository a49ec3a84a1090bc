use reader_core::book_loader::LoadingStage;
use reader_core::pagination_cache::CacheKey;
use reader_core::content_preprocessor::ReplaceRule;

#[test]
fn loading_stage_descriptions() {
    assert_eq!(LoadingStage::DetectingFormat.description(), "正在检测文件格式...");
    assert_eq!(LoadingStage::OpeningFile.description(), "正在打开文件...");
    assert_eq!(LoadingStage::ParsingMetadata.description(), "正在解析书籍信息...");
    assert_eq!(LoadingStage::ExtractingChapters.description(), "正在提取章节列表...");
    assert_eq!(LoadingStage::Completed.description(), "加载完成");
    assert_eq!(LoadingStage::Error.description(), "加载失败");
}

#[test]
fn process_option_hash_follows_every_option() {
    let base = CacheKey::hash_process_options(true, false, 0, 7, 9);
    assert_eq!(base, CacheKey::hash_process_options(true, false, 0, 7, 9));
    assert_ne!(base, CacheKey::hash_process_options(false, false, 0, 7, 9));
    assert_ne!(base, CacheKey::hash_process_options(true, true, 0, 7, 9));
    assert_ne!(base, CacheKey::hash_process_options(true, false, 1, 7, 9));
    assert_ne!(base, CacheKey::hash_process_options(true, false, 0, 8, 9));
    assert_ne!(base, CacheKey::hash_process_options(true, false, 0, 7, 10));
}

#[test]
fn replace_rule_hash_of_cache_key() {
    let a = vec![ReplaceRule::string("a", "b")];
    let mut b = a.clone();
    b[0].enabled = false;
    assert_eq!(CacheKey::hash_replace_rules(&a), CacheKey::hash_replace_rules(&a));
    assert_ne!(CacheKey::hash_replace_rules(&a), CacheKey::hash_replace_rules(&b));
}
