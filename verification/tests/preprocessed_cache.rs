use reader_core::preprocessed_cache::{calculate_rules_hash, calculate_rules_hash_str, CacheKey};

#[test]
fn test_calculate_rules_hash() {
    let rules1 = vec![
        ("pattern1".to_string(), "replacement1".to_string()),
        ("pattern2".to_string(), "replacement2".to_string()),
    ];
    let rules2 = vec![
        ("pattern1".to_string(), "replacement1".to_string()),
        ("pattern2".to_string(), "replacement2".to_string()),
    ];
    let rules3 = vec![
        ("pattern1".to_string(), "replacement1".to_string()),
        ("pattern3".to_string(), "replacement3".to_string()),
    ];
    assert_eq!(calculate_rules_hash(&rules1), calculate_rules_hash(&rules2));
    assert_ne!(calculate_rules_hash(&rules1), calculate_rules_hash(&rules3));
}

#[test]
fn preprocessed_cache_test_cache_key_equality() {
    let key1 = CacheKey { book_id: "book1".to_string(), chapter_index: 0, rules_hash: 123 };
    let key2 = CacheKey { book_id: "book1".to_string(), chapter_index: 0, rules_hash: 123 };
    let key3 = CacheKey { book_id: "book1".to_string(), chapter_index: 1, rules_hash: 123 };
    assert_eq!(key1, key2);
    assert_ne!(key1, key3);
}

#[test]
fn string_rule_hash_depends_on_order() {
    let a = vec!["x".to_string(), "y".to_string()];
    let b = vec!["y".to_string(), "x".to_string()];
    assert_eq!(calculate_rules_hash_str(&a), calculate_rules_hash_str(&a.clone()));
    assert_ne!(calculate_rules_hash_str(&a), calculate_rules_hash_str(&b));
}

use reader_core::preprocessed_cache::PreprocessedCache;

fn key(chapter_index: usize) -> CacheKey {
    CacheKey { book_id: "book1".to_string(), chapter_index, rules_hash: 123 }
}

#[test]
fn preprocessed_cache_test_cache_basic_operations() {
    let mut cache = PreprocessedCache::with_capacity(2);
    cache.put(key(0), "content1".to_string());
    assert_eq!(cache.get(&key(0)), Some("content1".to_string()));
    assert_eq!(cache.get(&key(1)), None);
    let stats = cache.stats();
    assert_eq!(stats.hits, 1);
    assert_eq!(stats.misses, 1);
}

#[test]
fn preprocessed_cache_test_cache_lru_eviction() {
    let mut cache = PreprocessedCache::with_capacity(2);
    cache.put(key(0), "content1".to_string());
    cache.put(key(1), "content2".to_string());
    cache.get(&key(0));
    cache.put(key(2), "content3".to_string());
    assert_eq!(cache.get(&key(0)), Some("content1".to_string()));
    assert_eq!(cache.get(&key(1)), None);
    assert_eq!(cache.get(&key(2)), Some("content3".to_string()));
}

#[test]
fn test_cache_remove() {
    let mut cache = PreprocessedCache::new();
    cache.put(key(0), "content".to_string());
    assert!(cache.remove(&key(0)));
    assert_eq!(cache.get(&key(0)), None);
    assert!(!cache.remove(&key(0)));
}

#[test]
fn test_cache_clear() {
    let mut cache = PreprocessedCache::new();
    cache.put(key(0), "content1".to_string());
    cache.put(key(1), "content2".to_string());
    assert_eq!(cache.len(), 2);
    cache.clear();
    assert_eq!(cache.len(), 0);
    assert!(cache.is_empty());
}

#[test]
fn preprocessed_cache_test_cache_stats() {
    let mut cache = PreprocessedCache::new();
    let stats = cache.stats();
    assert_eq!(stats.hits, 0);
    assert_eq!(stats.misses, 0);
    cache.get(&key(0));
    assert_eq!(cache.stats().misses, 1);
    cache.put(key(0), "content".to_string());
    cache.get(&key(0));
    let stats = cache.stats();
    assert_eq!(stats.hits, 1);
    let hit_rate = stats.hits as f64 / (stats.hits + stats.misses) as f64;
    assert_eq!(hit_rate, 0.5);
}

#[test]
fn put_replaces_an_existing_entry() {
    let mut cache = PreprocessedCache::with_capacity(0);
    cache.put(key(0), "a".to_string());
    cache.put(key(0), "b".to_string());
    assert_eq!(cache.len(), 1);
    assert_eq!(cache.stats().size, 1);
    assert_eq!(cache.get(&key(0)), Some("b".to_string()));
    cache.put(key(1), "c".to_string());
    assert_eq!(cache.get(&key(0)), None);
}
