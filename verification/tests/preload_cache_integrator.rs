use reader_core::chapter_cache::{CachedChapterPages, ChapterCache};
use reader_core::preload_cache_integrator::{
    cache_has_chapter, cached_chapter, surrounding_chapters, update_cache_slots,
};

fn chapter(index: usize, pages: usize) -> CachedChapterPages<u32> {
    CachedChapterPages::new(index, (0..pages as u32).collect(), pages * 500)
}

#[test]
fn integrator_update_then_has_chapter() {
    let mut cache: ChapterCache<u32> = ChapterCache::new();
    assert!(!cache_has_chapter(&cache, 0));
    update_cache_slots(&mut cache, chapter(0, 5));
    assert!(cache_has_chapter(&cache, 0));
    assert!(!cache_has_chapter(&cache, 1));
    assert_eq!(cached_chapter(&cache, 0).unwrap().page_count(), 5);
}

#[test]
fn integrator_forward_chapter_shifts_window() {
    let mut cache: ChapterCache<u32> = ChapterCache::new();
    update_cache_slots(&mut cache, chapter(0, 2));
    update_cache_slots(&mut cache, chapter(1, 3));
    // chapter 0 moved to the previous slot, the next slot holds chapter 1
    assert_eq!(cache.prev_pages().unwrap().chapter_index, 0);
    assert!(cache.current_pages().is_none());
    assert_eq!(cache.next_pages().unwrap().chapter_index, 1);
    assert_eq!(cache.current_index(), 0);
    assert!(cache_has_chapter(&cache, 0));
    assert!(cache_has_chapter(&cache, 1));
}

#[test]
fn integrator_backward_chapter_shifts_window() {
    let mut cache: ChapterCache<u32> = ChapterCache::new();
    cache.jump_to(5);
    update_cache_slots(&mut cache, chapter(5, 1));
    update_cache_slots(&mut cache, chapter(4, 1));
    assert_eq!(cache.next_pages().unwrap().chapter_index, 5);
    assert!(cache.current_pages().is_none());
    assert_eq!(cache.prev_pages().unwrap().chapter_index, 4);
}

#[test]
fn integrator_clear_forgets_chapters() {
    let mut cache: ChapterCache<u32> = ChapterCache::new();
    update_cache_slots(&mut cache, chapter(0, 5));
    cache.clear();
    assert!(!cache_has_chapter(&cache, 0));
}

#[test]
fn integrator_surrounding_chapters_skip_current() {
    assert_eq!(surrounding_chapters(5, 100), vec![6, 4, 7, 3]);
    assert_eq!(surrounding_chapters(0, 3), vec![1, 2]);
    assert_eq!(surrounding_chapters(0, 1), Vec::<usize>::new());
}
