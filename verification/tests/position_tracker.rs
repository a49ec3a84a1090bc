use reader_core::position_tracker::{PageInfo, ReadPosition, ReadPositionTracker};

fn pages(bounds: &[(usize, usize)]) -> Vec<PageInfo> {
    bounds
        .iter()
        .enumerate()
        .map(|(i, &(s, e))| PageInfo { page_index: i, start_char_index: s, end_char_index: e })
        .collect()
}

fn position(char_offset: usize) -> ReadPosition {
    ReadPosition {
        book_id: "book1".to_string(),
        chapter_index: 5,
        char_offset,
        page_index: 10,
        config_hash: 12345,
    }
}

#[test]
fn test_read_position_tracker_new() {
    let tracker = ReadPositionTracker::new();
    assert!(tracker.current_position().is_none());
}

#[test]
fn test_save_and_get_position() {
    let mut tracker = ReadPositionTracker::new();
    let position = position(1234);
    tracker.save_position(position.clone());
    assert!(tracker.current_position().is_some());
    assert_eq!(tracker.current_position().unwrap().chapter_index, 5);
    assert_eq!(tracker.current_position().unwrap().char_offset, 1234);
}

#[test]
fn test_config_changed() {
    let mut tracker = ReadPositionTracker::new();
    tracker.save_position(position(1234));
    assert!(!tracker.config_changed(12345));
    assert!(tracker.config_changed(12346));
}

#[test]
fn test_find_page_by_char_offset() {
    let pages = pages(&[(0, 100), (100, 200), (200, 300)]);
    assert_eq!(ReadPositionTracker::find_page_by_char_offset(&pages, 0), 0);
    assert_eq!(ReadPositionTracker::find_page_by_char_offset(&pages, 50), 0);
    assert_eq!(ReadPositionTracker::find_page_by_char_offset(&pages, 100), 1);
    assert_eq!(ReadPositionTracker::find_page_by_char_offset(&pages, 150), 1);
    assert_eq!(ReadPositionTracker::find_page_by_char_offset(&pages, 200), 2);
    assert_eq!(ReadPositionTracker::find_page_by_char_offset(&pages, 250), 2);
}

#[test]
fn test_find_page_by_char_offset_boundary() {
    let pages = pages(&[(0, 100), (100, 200)]);
    assert_eq!(ReadPositionTracker::find_page_by_char_offset(&pages, 0), 0);
    assert_eq!(ReadPositionTracker::find_page_by_char_offset(&pages, 99), 0);
    assert_eq!(ReadPositionTracker::find_page_by_char_offset(&pages, 100), 1);
    assert_eq!(ReadPositionTracker::find_page_by_char_offset(&pages, 199), 1);
}

#[test]
fn test_restore_position_same_config() {
    let mut tracker = ReadPositionTracker::new();
    tracker.save_position(position(1234));
    let pages = pages(&[(0, 100), (100, 200)]);
    let restored = tracker.restore_position(12345, &pages);
    assert_eq!(restored, Some(10));
}

#[test]
fn test_restore_position_different_config() {
    let mut tracker = ReadPositionTracker::new();
    tracker.save_position(ReadPosition { char_offset: 150, ..position(0) });
    let pages = pages(&[(0, 100), (100, 200), (200, 300)]);
    let restored = tracker.restore_position(12346, &pages);
    assert_eq!(restored, Some(1));
}

#[test]
fn test_restore_position_no_position() {
    let tracker = ReadPositionTracker::new();
    let pages = pages(&[(0, 100)]);
    let restored = tracker.restore_position(12345, &pages);
    assert_eq!(restored, None);
}

#[test]
fn offset_past_last_page_falls_to_last_page() {
    let pages = pages(&[(0, 100), (100, 200)]);
    assert_eq!(ReadPositionTracker::find_page_by_char_offset(&pages, 5000), 1);
    assert_eq!(ReadPositionTracker::find_page_by_char_offset(&[], 7), 0);
}

#[test]
fn restore_after_save_under_new_config_finds_the_page_holding_the_offset() {
    let mut tracker = ReadPositionTracker::new();
    tracker.save_position(ReadPosition { char_offset: 250, ..position(0) });
    let pages = pages(&[(0, 120), (120, 240), (240, 360)]);
    assert_eq!(tracker.restore_position(99, &pages), Some(2));
}
