//! Keys of the pagination cache: one entry per laid-out chapter, keyed by the
//! layout configuration and by the content-processing options.
use vstd::prelude::*;
use crate::hashing::{
    hasher_new, hash_bool, hash_u8, hash_u64, hasher_finish, hasher_log, log_digest, bool_item,
    u8_item, u64_item,
};
use crate::content_preprocessor::{ReplaceRule, replace_rules_hash, replace_rules_log};

verus! {

/// Layout version of cache entries; raised when the value or key layout changes.
pub const CACHE_SCHEMA_REVISION: u32 = 1;

/// Version of the pagination results; raised when layout semantics change.
pub const LAYOUT_REVISION: u32 = 1;

/// Pagination cache key (identifies one layout run).
///
/// `options_hash` covers the processing options that change the page text, so a
/// settings change gives a new key.
#[derive(Debug, Clone, Hash, PartialEq, Eq)]
pub struct CacheKey {
    pub cache_schema_revision: u32,
    pub layout_revision: u32,
    pub book_id: String,
    pub chapter_index: usize,
    /// Hash of the layout configuration.
    pub config_hash: u64,
    /// Hash of the content-processing options.
    pub options_hash: u64,
}

/// The values `hash_process_options` writes, in order.
pub open spec fn process_options_log(
    remove_duplicate_title: bool,
    re_segment: bool,
    chinese_convert: u8,
    replace_rules_hash: u64,
    para_format_hash: u64,
) -> Seq<Seq<int>> {
    seq![
        bool_item(remove_duplicate_title),
        bool_item(re_segment),
        u8_item(chinese_convert),
        u64_item(replace_rules_hash),
        u64_item(para_format_hash),
    ]
}

impl CacheKey {
    /// Hash of the content-processing options; every option that changes the page
    /// text takes part.
    pub fn hash_process_options(
        remove_duplicate_title: bool,
        re_segment: bool,
        chinese_convert: u8,
        replace_rules_hash: u64,
        para_format_hash: u64,
    ) -> (h: u64)
        ensures
            h == log_digest(
                process_options_log(
                    remove_duplicate_title,
                    re_segment,
                    chinese_convert,
                    replace_rules_hash,
                    para_format_hash,
                ),
            ),
    {
        let mut hasher = hasher_new();
        hash_bool(&mut hasher, remove_duplicate_title);
        hash_bool(&mut hasher, re_segment);
        hash_u8(&mut hasher, chinese_convert);
        hash_u64(&mut hasher, replace_rules_hash);
        hash_u64(&mut hasher, para_format_hash);
        proof {
            assert(hasher_log(hasher) =~= process_options_log(
                remove_duplicate_title,
                re_segment,
                chinese_convert,
                replace_rules_hash,
                para_format_hash,
            ));
        }
        hasher_finish(&hasher)
    }

    /// Hash of a replace-rule list (pattern, replacement, type, enabled flag).
    pub fn hash_replace_rules(rules: &[ReplaceRule]) -> (h: u64)
        ensures
            h == log_digest(replace_rules_log(rules@)),
    {
        replace_rules_hash(rules)
    }
}

} // verus!
