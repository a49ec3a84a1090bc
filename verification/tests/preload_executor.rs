use reader_core::preload_executor::{LoadOutcome, PreloadExecutorConfig, PreloadStats};

#[test]
fn executor_config_defaults() {
    let c = PreloadExecutorConfig::default();
    assert_eq!(c.worker_count, 2);
    assert_eq!(c.max_queue_size, 100);
    assert_eq!(c.task_timeout_ms, 5000);
    assert_eq!(c.max_concurrent, 3);
}

#[test]
fn settling_each_outcome_updates_the_right_counter() {
    let mut stats = PreloadStats::default();
    for _ in 0..4 {
        stats.record_submit();
    }
    let ok = stats.settle(1, LoadOutcome::Loaded("正文".to_string()), 12);
    assert!(ok.success);
    assert_eq!(ok.content.as_deref(), Some("正文"));
    assert!(ok.error.is_none());
    assert_eq!(ok.duration_ms, 12);

    let failed = stats.settle(2, LoadOutcome::Failed("磁盘错误".to_string()), 3);
    assert!(!failed.success);
    assert_eq!(failed.error.as_deref(), Some("磁盘错误"));

    let timed_out = stats.settle(3, LoadOutcome::TimedOut, 5000);
    assert_eq!(timed_out.error.as_deref(), Some("预加载超时"));

    let cancelled = stats.settle(4, LoadOutcome::Cancelled, 1);
    assert_eq!(cancelled.error.as_deref(), Some("已取消"));
    assert_eq!(cancelled.chapter_index, 4);

    assert_eq!(stats.total_tasks, 4);
    assert_eq!(stats.completed_tasks, 1);
    assert_eq!(stats.failed_tasks, 2);
    assert_eq!(stats.cancelled_tasks, 1);
    assert_eq!(stats.queue_depth, 0);
}
