use reader_core::chapter_cache::{CachedChapterPages, ChapterCache};

/// A page as the window sees it: only its position matters.
#[derive(Debug, Clone, PartialEq)]
struct TestPage {
    page_index: usize,
    chapter_index: usize,
}

fn create_test_chapter(chapter_index: usize, page_count: usize) -> CachedChapterPages<TestPage> {
    let pages: Vec<TestPage> =
        (0..page_count).map(|i| TestPage { page_index: i, chapter_index }).collect();
    CachedChapterPages::new(chapter_index, pages, page_count * 500)
}

#[test]
fn test_chapter_cache_new() {
    let cache: ChapterCache<TestPage> = ChapterCache::new();
    assert!(!cache.has_current());
    assert!(!cache.has_prev());
    assert!(!cache.has_next());
    assert_eq!(cache.current_index(), 0);
}

#[test]
fn test_chapter_cache_set_and_get() {
    let mut cache = ChapterCache::new();
    cache.set_current(create_test_chapter(0, 5));
    assert!(cache.has_current());
    assert_eq!(cache.current_pages().unwrap().page_count(), 5);
}

#[test]
fn test_chapter_cache_move_to_next() {
    let mut cache = ChapterCache::new();
    cache.set_current(create_test_chapter(0, 5));
    cache.set_next(create_test_chapter(1, 3));
    cache.move_to_next();
    assert_eq!(cache.current_index(), 1);
    assert!(cache.has_prev());
    assert!(cache.has_current());
    assert!(!cache.has_next());
}

#[test]
fn test_chapter_cache_move_to_prev() {
    let mut cache = ChapterCache::new();
    cache.set_prev(create_test_chapter(0, 5));
    cache.set_current(create_test_chapter(1, 3));
    cache.move_to_prev();
    assert_eq!(cache.current_index(), 0);
    assert!(!cache.has_prev());
    assert!(cache.has_current());
    assert!(cache.has_next());
}

#[test]
fn test_chapter_cache_jump_to() {
    let mut cache = ChapterCache::new();
    cache.set_current(create_test_chapter(0, 5));
    assert!(cache.has_current());
    cache.jump_to(10);
    assert_eq!(cache.current_index(), 10);
    assert!(!cache.has_current());
    assert!(!cache.has_prev());
    assert!(!cache.has_next());
}

#[test]
fn test_chapter_cache_total_pages() {
    let mut cache = ChapterCache::new();
    cache.set_prev(create_test_chapter(0, 5));
    cache.set_current(create_test_chapter(1, 3));
    cache.set_next(create_test_chapter(2, 2));
    assert_eq!(cache.total_cached_pages(), 10);
}

#[test]
fn test_chapter_cache_memory_estimate() {
    let mut cache = ChapterCache::new();
    cache.set_current(create_test_chapter(0, 10));
    assert_eq!(cache.estimate_memory_usage(), 10 * 10 * 1024);
}

#[test]
fn test_chapter_cache_clear() {
    let mut cache = ChapterCache::new();
    cache.set_prev(create_test_chapter(0, 5));
    cache.set_current(create_test_chapter(1, 3));
    cache.clear();
    assert!(!cache.has_prev());
    assert!(!cache.has_current());
    assert!(!cache.has_next());
}

#[test]
fn test_cached_chapter_pages() {
    let chapter = create_test_chapter(0, 5);
    assert_eq!(chapter.chapter_index, 0);
    assert_eq!(chapter.page_count(), 5);
    assert_eq!(chapter.word_count, 2500);
    assert!(chapter.get_page(0).is_some());
    assert!(chapter.get_page(4).is_some());
    assert!(chapter.get_page(5).is_none());
}

#[test]
fn forward_then_back_restores_current_and_next() {
    let mut cache = ChapterCache::new();
    cache.set_prev(create_test_chapter(3, 1));
    cache.set_current(create_test_chapter(4, 2));
    cache.set_next(create_test_chapter(5, 3));
    cache.jump_to(4);
    cache.set_current(create_test_chapter(4, 2));
    cache.set_next(create_test_chapter(5, 3));
    cache.move_to_next();
    cache.move_to_prev();
    assert_eq!(cache.current_index(), 4);
    assert_eq!(cache.current_pages().unwrap().chapter_index, 4);
    assert_eq!(cache.next_pages().unwrap().chapter_index, 5);
    assert!(cache.prev_pages().is_none());
}

#[test]
fn move_to_prev_at_start_stays_at_zero() {
    let mut cache: ChapterCache<TestPage> = ChapterCache::default();
    cache.move_to_prev();
    assert_eq!(cache.current_index(), 0);
}
