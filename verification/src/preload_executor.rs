//! Preload execution: task states, results and statistics.
//!
//! The worker loop itself (queue, timer, cancellation) runs outside the library;
//! what happens to one dequeued task once its outcome is known is decided here.
use vstd::prelude::*;

verus! {

/// State of a preload task.
#[derive(Debug, Clone, Copy, PartialEq, Eq, Structural)]
pub enum PreloadStatus {
    Pending,
    Running,
    Completed,
    Failed,
    Cancelled,
}

/// Result of one preload task.
#[derive(Debug)]
pub struct PreloadResult {
    pub chapter_index: usize,
    pub success: bool,
    /// The loaded content, on success.
    pub content: Option<String>,
    /// The error message, on failure.
    pub error: Option<String>,
    /// Time taken, in milliseconds.
    pub duration_ms: u64,
}

/// Preload executor configuration.
#[derive(Debug, Clone)]
pub struct PreloadExecutorConfig {
    /// Number of workers.
    pub worker_count: usize,
    /// Maximum queue length.
    pub max_queue_size: usize,
    /// Timeout of one task, in milliseconds.
    pub task_timeout_ms: u64,
    /// Maximum number of concurrent preloads.
    pub max_concurrent: usize,
}

impl Default for PreloadExecutorConfig {
    fn default() -> (c: PreloadExecutorConfig)
        ensures
            c.worker_count == 2,
            c.max_queue_size == 100,
            c.task_timeout_ms == 5000,
            c.max_concurrent == 3,
    {
        PreloadExecutorConfig {
            worker_count: 2,
            max_queue_size: 100,
            task_timeout_ms: 5000,
            max_concurrent: 3,
        }
    }
}

/// How a preload task ended.
#[derive(Debug)]
pub enum LoadOutcome {
    /// The loader returned the content.
    Loaded(String),
    /// The loader failed with this message.
    Failed(String),
    /// The task ran out of time.
    TimedOut,
    /// The task was cancelled.
    Cancelled,
}

/// Preload statistics (counters wrap around, as atomic counters do).
#[derive(Debug, Default, Clone, Copy)]
pub struct PreloadStats {
    pub total_tasks: usize,
    pub completed_tasks: usize,
    pub failed_tasks: usize,
    pub cancelled_tasks: usize,
    pub queue_depth: usize,
}

/// Message of a timed-out task.
pub open spec fn timeout_message() -> Seq<char> {
    "预加载超时"@
}

/// Message of a cancelled task.
pub open spec fn cancelled_message() -> Seq<char> {
    "已取消"@
}

impl PreloadStats {
    /// A task was queued.
    pub fn record_submit(&mut self)
        ensures
            *final(self) == (PreloadStats {
                queue_depth: old(self).queue_depth.wrapping_add(1),
                ..*old(self)
            }),
    {
        self.queue_depth = self.queue_depth.wrapping_add(1);
    }

    /// Accounts for one task taken from the queue and ended with `outcome`, and
    /// returns the result handed back: success with the content when loaded,
    /// otherwise the error message (the loader's, or a timeout or cancellation
    /// message). Failures and timeouts count as failed, cancellations as
    /// cancelled, loads as completed; every task counts towards the total and
    /// leaves the queue.
    pub fn settle(&mut self, chapter_index: usize, outcome: LoadOutcome, duration_ms: u64) -> (r:
        PreloadResult)
        ensures
            final(self).queue_depth == old(self).queue_depth.wrapping_sub(1),
            final(self).total_tasks == old(self).total_tasks.wrapping_add(1),
            final(self).completed_tasks == if outcome is Loaded {
                old(self).completed_tasks.wrapping_add(1)
            } else {
                old(self).completed_tasks
            },
            final(self).failed_tasks == if outcome is Failed || outcome is TimedOut {
                old(self).failed_tasks.wrapping_add(1)
            } else {
                old(self).failed_tasks
            },
            final(self).cancelled_tasks == if outcome is Cancelled {
                old(self).cancelled_tasks.wrapping_add(1)
            } else {
                old(self).cancelled_tasks
            },
            r.chapter_index == chapter_index,
            r.duration_ms == duration_ms,
            r.success == outcome is Loaded,
            match outcome {
                LoadOutcome::Loaded(c) => r.error is None && (r.content matches Some(x) && x@ == c@),
                LoadOutcome::Failed(m) => r.content is None && (r.error matches Some(x) && x@ == m@),
                LoadOutcome::TimedOut => r.content is None && (r.error matches Some(x) && x@
                    == timeout_message()),
                LoadOutcome::Cancelled => r.content is None && (r.error matches Some(x) && x@
                    == cancelled_message()),
            },
    {
        self.queue_depth = self.queue_depth.wrapping_sub(1);
        self.total_tasks = self.total_tasks.wrapping_add(1);
        let r = match outcome {
            LoadOutcome::Loaded(content) => PreloadResult {
                chapter_index,
                success: true,
                content: Some(content),
                error: None,
                duration_ms,
            },
            LoadOutcome::Failed(message) => {
                self.failed_tasks = self.failed_tasks.wrapping_add(1);
                PreloadResult {
                    chapter_index,
                    success: false,
                    content: None,
                    error: Some(message),
                    duration_ms,
                }
            },
            LoadOutcome::TimedOut => {
                self.failed_tasks = self.failed_tasks.wrapping_add(1);
                PreloadResult {
                    chapter_index,
                    success: false,
                    content: None,
                    error: Some("预加载超时".to_owned()),
                    duration_ms,
                }
            },
            LoadOutcome::Cancelled => {
                self.cancelled_tasks = self.cancelled_tasks.wrapping_add(1);
                PreloadResult {
                    chapter_index,
                    success: false,
                    content: None,
                    error: Some("已取消".to_owned()),
                    duration_ms,
                }
            },
        };
        if r.success {
            self.completed_tasks = self.completed_tasks.wrapping_add(1);
        }
        r
    }
}

} // verus!
