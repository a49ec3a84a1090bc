use reader_core::preload::{DefaultPreloadStrategy, PreloadPriority, PreloadStrategy, PreloadTask};
use std::cmp::Ordering;
use std::collections::BinaryHeap;

/// Heap entry ordered by `PreloadTask::compare`.
struct Queued(PreloadTask);

impl PartialEq for Queued {
    fn eq(&self, other: &Self) -> bool {
        self.0.same_task(&other.0)
    }
}
impl Eq for Queued {}
impl PartialOrd for Queued {
    fn partial_cmp(&self, other: &Self) -> Option<Ordering> {
        Some(self.cmp(other))
    }
}
impl Ord for Queued {
    fn cmp(&self, other: &Self) -> Ordering {
        self.0.compare(&other.0)
    }
}

#[test]
fn test_default_preload_strategy() {
    let strategy = DefaultPreloadStrategy::default();
    let chapters = strategy.calculate_preload_chapters(5, 10);
    assert!(chapters.iter().any(|&(idx, _)| idx == 5));
    assert!(chapters.iter().any(|&(idx, _)| idx == 6));
    assert!(chapters.iter().any(|&(idx, _)| idx == 4));
    assert!(chapters.iter().any(|&(idx, _)| idx == 7));
    assert!(chapters.iter().any(|&(idx, _)| idx == 3));
}

#[test]
fn test_preload_strategy_first_chapter() {
    let strategy = DefaultPreloadStrategy::default();
    let chapters = strategy.calculate_preload_chapters(0, 10);
    assert!(chapters.iter().all(|&(idx, _)| idx < 10));
    assert!(chapters.iter().any(|&(idx, _)| idx == 0));
    assert!(chapters.iter().any(|&(idx, _)| idx == 1));
}

#[test]
fn test_preload_strategy_last_chapter() {
    let strategy = DefaultPreloadStrategy::default();
    let chapters = strategy.calculate_preload_chapters(9, 10);
    assert!(!chapters.iter().any(|&(idx, _)| idx >= 10));
    assert!(chapters.iter().any(|&(idx, _)| idx == 9));
    assert!(chapters.iter().any(|&(idx, _)| idx == 8));
}

#[test]
fn test_preload_task_ordering() {
    let task1 = PreloadTask { chapter_index: 5, priority: PreloadPriority::Low, book_id: "book1".to_string() };
    let task2 = PreloadTask { chapter_index: 3, priority: PreloadPriority::Critical, book_id: "book1".to_string() };
    let task3 = PreloadTask { chapter_index: 4, priority: PreloadPriority::High, book_id: "book1".to_string() };

    let mut heap = BinaryHeap::new();
    heap.push(Queued(task1));
    heap.push(Queued(task2));
    heap.push(Queued(task3));

    assert_eq!(heap.pop().unwrap().0.priority, PreloadPriority::Critical);
    assert_eq!(heap.pop().unwrap().0.priority, PreloadPriority::High);
    assert_eq!(heap.pop().unwrap().0.priority, PreloadPriority::Low);
}

#[test]
fn default_plan_exact_order_and_priorities() {
    let strategy = DefaultPreloadStrategy::default();
    let chapters = strategy.calculate_preload_chapters(5, 10);
    assert_eq!(
        chapters,
        vec![
            (5, PreloadPriority::Critical),
            (6, PreloadPriority::High),
            (4, PreloadPriority::Normal),
            (7, PreloadPriority::Low),
            (3, PreloadPriority::Low),
        ]
    );
}

#[test]
fn plan_is_distinct_and_in_range_at_both_ends() {
    let strategy = DefaultPreloadStrategy { look_ahead: 4, look_behind: 4 };
    for current in 0..6 {
        let chapters = strategy.calculate_preload_chapters(current, 6);
        assert_eq!(chapters[0], (current, PreloadPriority::Critical));
        for (i, a) in chapters.iter().enumerate() {
            assert!(a.0 < 6);
            for b in &chapters[i + 1..] {
                assert_ne!(a.0, b.0);
            }
        }
    }
}

#[test]
fn equal_priority_orders_by_chapter() {
    let a = PreloadTask { chapter_index: 2, priority: PreloadPriority::Low, book_id: "x".to_string() };
    let b = PreloadTask { chapter_index: 7, priority: PreloadPriority::Low, book_id: "y".to_string() };
    assert_eq!(a.compare(&b), Ordering::Less);
    assert_eq!(b.compare(&a), Ordering::Greater);
    assert!(a.same_task(&a.clone()));
}
