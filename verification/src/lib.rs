pub mod text;
pub mod paragraph_splitter;
pub mod pattern;
pub mod smart_segment;
pub mod position_tracker;
pub mod preload;
pub mod charsets;
pub mod hashing;
pub mod paragraph_format;
pub mod text_boundary;
pub mod chapter_utils;
pub mod preprocessed_cache;
pub mod content_preprocessor;
pub mod pipeline;
pub mod stages;
pub mod paragraph_formatter;
pub mod pagination_cache;
pub mod book_loader;
pub mod preload_executor;
pub mod js_runtime;
pub mod layout_types;
pub mod chapter_cache;
pub mod task_scheduler;
pub mod content_cleaner;
pub mod preload_cache_integrator;
pub mod tag_protection;
pub mod line_break;
pub mod rule_run;
pub mod title_match;
