//! Smart re-segmentation shared by the TXT line stream and EPUB blocks.
//!
//! Long plain-text paragraphs are cut at strong terminal punctuation once a
//! threshold (default 50 characters) is passed; closing quotes and brackets stay
//! with the text they close; an open quote suppresses soft cuts; a hard limit
//! forces a cut at secondary punctuation (or anywhere) when no terminal mark
//! comes. User rules (regular expressions) can merge lines or force breaks.
use vstd::prelude::*;
use crate::pattern::{CompiledPattern, regex_valid, regex_is_match};
use crate::text::{
    chars_of, string_from_chars, split_lines, lines, trim, trim_bounds, views, starts_with_char,
    ends_with_char, push_all, is_ws, concat, join, lemma_lines_single,
};
use crate::paragraph_splitter::{slice_range, rview, ranges_cover, ranges_nonempty};
use crate::hashing::{
    hasher_new, hash_str, hash_u8, hash_bool, hasher_finish, hasher_log, log_digest, str_item,
    u8_item, bool_item,
};

verus! {

/// What a segmentation rule does to a matching line.
#[derive(Debug, Clone, Copy, PartialEq, Eq, Hash, Structural)]
pub enum SegmentAction {
    /// Break after the matching line.
    ForceBreakAfter,
    /// Break before the matching line.
    ForceBreakBefore,
    /// The matching line stands alone.
    KeepIndependent,
    /// The matching line joins the previous one.
    MergeWithPrev,
}

/// Where a segmentation rule comes from.
#[derive(Debug, Clone, Copy, PartialEq, Eq, Hash, Structural)]
pub enum SegmentRuleKind {
    /// Built-in predicate, selected by id.
    Builtin,
    /// User regular expression.
    Regex,
}

/// A segmentation rule (built-in and user rules share the model).
#[derive(Debug, Clone)]
pub struct SegmentRule {
    pub id: String,
    pub kind: SegmentRuleKind,
    /// The regular expression (used when `kind` is `Regex`).
    pub pattern: String,
    pub action: SegmentAction,
    pub enabled: bool,
    /// Built-in rules can be switched off but not deleted.
    pub builtin: bool,
}

impl SegmentRule {
    /// A user regular-expression rule, enabled.
    pub fn user_regex(id: &str, pattern: &str, action: SegmentAction) -> (r: SegmentRule)
        ensures
            r.id@ == id@,
            r.pattern@ == pattern@,
            r.kind == SegmentRuleKind::Regex,
            r.action == action,
            r.enabled,
            !r.builtin,
    {
        SegmentRule {
            id: id.to_owned(),
            kind: SegmentRuleKind::Regex,
            pattern: pattern.to_owned(),
            action,
            enabled: true,
            builtin: false,
        }
    }
}

/// Number of an action (declaration index, as `action as u8` gives it).
pub open spec fn action_index(a: SegmentAction) -> u8 {
    match a {
        SegmentAction::ForceBreakAfter => 0,
        SegmentAction::ForceBreakBefore => 1,
        SegmentAction::KeepIndependent => 2,
        SegmentAction::MergeWithPrev => 3,
    }
}

fn action_u8(a: SegmentAction) -> (r: u8)
    ensures
        r == action_index(a),
{
    match a {
        SegmentAction::ForceBreakAfter => 0,
        SegmentAction::ForceBreakBefore => 1,
        SegmentAction::KeepIndependent => 2,
        SegmentAction::MergeWithPrev => 3,
    }
}

/// The values `hash_rules` writes for a rule list, in order.
pub open spec fn rules_log(rules: Seq<SegmentRule>) -> Seq<Seq<int>>
    decreases rules.len(),
{
    if rules.len() == 0 {
        Seq::empty()
    } else {
        let r = rules.last();
        let base = rules_log(rules.drop_last()).push(str_item(r.id@)).push(
            u8_item(action_index(r.action)),
        ).push(bool_item(r.enabled));
        if r.kind == SegmentRuleKind::Regex {
            base.push(str_item(r.pattern@))
        } else {
            base
        }
    }
}

impl SegmentRule {
    /// Hash of a rule list (cache key component): id, action, enabled flag, and for
    /// regex rules the pattern.
    pub fn hash_rules(rules: &[SegmentRule]) -> (h: u64)
        ensures
            h == log_digest(rules_log(rules@)),
    {
        let mut hasher = hasher_new();
        let mut i: usize = 0;
        while i < rules.len()
            invariant
                i <= rules@.len(),
                hasher_log(hasher) == rules_log(rules@.take(i as int)),
            decreases rules@.len() - i,
        {
            proof {
                assert(rules@.take(i + 1).drop_last() =~= rules@.take(i as int));
                assert(rules@.take(i + 1).last() == rules@[i as int]);
            }
            let r = &rules[i];
            hash_str(&mut hasher, r.id.as_str());
            hash_u8(&mut hasher, action_u8(r.action));
            hash_bool(&mut hasher, r.enabled);
            if r.kind == SegmentRuleKind::Regex {
                hash_str(&mut hasher, r.pattern.as_str());
            }
            i = i + 1;
        }
        proof {
            assert(rules@.take(rules@.len() as int) =~= rules@);
        }
        hasher_finish(&hasher)
    }
}

/// Default smart segmentation threshold (characters).
pub const DEFAULT_SEG_THRESHOLD: usize = 50;

/// Engine configuration resolved from a rule list and a threshold.
pub struct SmartSegConfig {
    pub threshold: usize,
    pub quote_unclosed: bool,
    pub chapter_title: bool,
    pub scene_sep: bool,
    pub short_poem: bool,
    pub user_merge: Vec<CompiledPattern>,
    pub user_break_after: Vec<CompiledPattern>,
    pub user_break_before: Vec<CompiledPattern>,
    pub user_independent: Vec<CompiledPattern>,
}

/// Mathematical model of a `SmartSegConfig`: user rules by their pattern text.
pub struct SegCfg {
    pub threshold: int,
    pub quote_unclosed: bool,
    pub chapter_title: bool,
    pub scene_sep: bool,
    pub short_poem: bool,
    pub merge: Seq<Seq<char>>,
    pub after: Seq<Seq<char>>,
    pub before: Seq<Seq<char>>,
    pub indep: Seq<Seq<char>>,
}

pub open spec fn sources(v: Seq<CompiledPattern>) -> Seq<Seq<char>> {
    v.map_values(|p: CompiledPattern| p.source())
}

impl View for SmartSegConfig {
    type V = SegCfg;

    open spec fn view(&self) -> SegCfg {
        SegCfg {
            threshold: self.threshold as int,
            quote_unclosed: self.quote_unclosed,
            chapter_title: self.chapter_title,
            scene_sep: self.scene_sep,
            short_poem: self.short_poem,
            merge: sources(self.user_merge@),
            after: sources(self.user_break_after@),
            before: sources(self.user_break_before@),
            indep: sources(self.user_independent@),
        }
    }
}

/// Whether the rule with `id` is enabled: the first rule with that id decides,
/// `default` when there is none.
pub open spec fn rule_enabled(rules: Seq<SegmentRule>, id: Seq<char>, default: bool) -> bool
    decreases rules.len(),
{
    if rules.len() == 0 {
        default
    } else if rules[0].id@ == id {
        rules[0].enabled
    } else {
        rule_enabled(rules.drop_first(), id, default)
    }
}

/// The pattern texts of the enabled, non-empty, compilable user rules with `action`,
/// in rule order.
pub open spec fn user_patterns(rules: Seq<SegmentRule>, action: SegmentAction) -> Seq<Seq<char>>
    decreases rules.len(),
{
    if rules.len() == 0 {
        Seq::empty()
    } else {
        let r = rules.last();
        let rest = user_patterns(rules.drop_last(), action);
        if r.enabled && r.kind == SegmentRuleKind::Regex && r.pattern@.len() > 0 && regex_valid(
            r.pattern@,
        ) && r.action == action {
            rest.push(r.pattern@)
        } else {
            rest
        }
    }
}

fn find_rule_enabled(rules: &[SegmentRule], id: &str, default: bool) -> (b: bool)
    ensures
        b == rule_enabled(rules@, id@, default),
{
    let key = id.to_owned();
    let mut i: usize = 0;
    assert(rules@.skip(0) =~= rules@);
    while i < rules.len()
        invariant
            i <= rules@.len(),
            key@ == id@,
            rule_enabled(rules@, id@, default) == rule_enabled(rules@.skip(i as int), id@, default),
        decreases rules@.len() - i,
    {
        proof {
            assert(rules@.skip(i as int).drop_first() =~= rules@.skip(i + 1));
        }
        if rules[i].id == key {
            return rules[i].enabled;
        }
        i = i + 1;
    }
    default
}

impl SmartSegConfig {
    /// Resolves the configuration from a rule list: built-in switches by id (with
    /// their defaults when absent), user rules compiled and grouped by action.
    pub fn from_rules(threshold: usize, rules: &[SegmentRule]) -> (c: SmartSegConfig)
        ensures
            c@.threshold == if threshold >= 1 { threshold as int } else { 1 },
            c@.quote_unclosed == rule_enabled(rules@, "builtin:quote_unclosed"@, true),
            c@.chapter_title == rule_enabled(rules@, "builtin:chapter_title"@, true),
            c@.scene_sep == rule_enabled(rules@, "builtin:scene_separator"@, true),
            c@.short_poem == rule_enabled(rules@, "builtin:short_line_poem"@, false),
            c@.merge == user_patterns(rules@, SegmentAction::MergeWithPrev),
            c@.after == user_patterns(rules@, SegmentAction::ForceBreakAfter),
            c@.before == user_patterns(rules@, SegmentAction::ForceBreakBefore),
            c@.indep == user_patterns(rules@, SegmentAction::KeepIndependent),
    {
        let mut user_merge: Vec<CompiledPattern> = Vec::new();
        let mut user_break_after: Vec<CompiledPattern> = Vec::new();
        let mut user_break_before: Vec<CompiledPattern> = Vec::new();
        let mut user_independent: Vec<CompiledPattern> = Vec::new();
        let mut i: usize = 0;
        while i < rules.len()
            invariant
                i <= rules@.len(),
                sources(user_merge@) == user_patterns(
                    rules@.take(i as int),
                    SegmentAction::MergeWithPrev,
                ),
                sources(user_break_after@) == user_patterns(
                    rules@.take(i as int),
                    SegmentAction::ForceBreakAfter,
                ),
                sources(user_break_before@) == user_patterns(
                    rules@.take(i as int),
                    SegmentAction::ForceBreakBefore,
                ),
                sources(user_independent@) == user_patterns(
                    rules@.take(i as int),
                    SegmentAction::KeepIndependent,
                ),
            decreases rules@.len() - i,
        {
            let r = &rules[i];
            proof {
                assert(rules@.take(i + 1).drop_last() =~= rules@.take(i as int));
                assert(rules@.take(i + 1).last() == rules@[i as int]);
            }
            if r.enabled && r.kind == SegmentRuleKind::Regex && !r.pattern.as_str().is_empty() {
                proof {
                    assert(r.pattern@.len() > 0);
                }
                match CompiledPattern::compile(r.pattern.as_str()) {
                    Ok(re) => {
                        match r.action {
                            SegmentAction::MergeWithPrev => {
                                let ghost before = user_merge@;
                                user_merge.push(re);
                                assert(sources(user_merge@) =~= sources(before).push(r.pattern@));
                            },
                            SegmentAction::ForceBreakAfter => {
                                let ghost before = user_break_after@;
                                user_break_after.push(re);
                                assert(sources(user_break_after@) =~= sources(before).push(
                                    r.pattern@,
                                ));
                            },
                            SegmentAction::ForceBreakBefore => {
                                let ghost before = user_break_before@;
                                user_break_before.push(re);
                                assert(sources(user_break_before@) =~= sources(before).push(
                                    r.pattern@,
                                ));
                            },
                            SegmentAction::KeepIndependent => {
                                let ghost before = user_independent@;
                                user_independent.push(re);
                                assert(sources(user_independent@) =~= sources(before).push(
                                    r.pattern@,
                                ));
                            },
                        }
                    },
                    Err(_) => {},
                }
            }
            i = i + 1;
        }
        proof {
            assert(rules@.take(rules@.len() as int) =~= rules@);
        }
        SmartSegConfig {
            threshold: if threshold >= 1 { threshold } else { 1 },
            quote_unclosed: find_rule_enabled(rules, "builtin:quote_unclosed", true),
            chapter_title: find_rule_enabled(rules, "builtin:chapter_title", true),
            scene_sep: find_rule_enabled(rules, "builtin:scene_separator", true),
            short_poem: find_rule_enabled(rules, "builtin:short_line_poem", false),
            user_merge,
            user_break_after,
            user_break_before,
            user_independent,
        }
    }

    /// Defaults (built-in rules at their defaults, no user rules) with a threshold.
    pub fn default_with_threshold(threshold: usize) -> (c: SmartSegConfig)
        ensures
            c@.threshold == if threshold >= 1 { threshold as int } else { 1 },
            c@.quote_unclosed,
            c@.chapter_title,
            c@.scene_sep,
            !c@.short_poem,
            c@.merge.len() == 0,
            c@.after.len() == 0,
            c@.before.len() == 0,
            c@.indep.len() == 0,
    {
        let rules: Vec<SegmentRule> = Vec::new();
        let c = Self::from_rules(threshold, rules.as_slice());
        proof {
            assert(rules@ =~= Seq::<SegmentRule>::empty());
            reveal_with_fuel(user_patterns, 2);
        }
        c
    }
}

// ───────────────────────── character classes ─────────────────────────

pub open spec fn spec_is_terminal_punct(c: char) -> bool {
    c == '。' || c == '！' || c == '？' || c == '…'
}

pub open spec fn spec_is_secondary_punct(c: char) -> bool {
    c == '，' || c == '、' || c == '；' || c == '：' || c == ',' || c == ';' || c == ':'
}

pub open spec fn spec_is_closing_glue(c: char) -> bool {
    c == '\u{201D}' || c == '\u{2019}' || c == '」' || c == '』' || c == '）' || c == '】' || c
        == '》' || c == '〉' || c == '〕'
}

pub open spec fn spec_is_open_quote(c: char) -> bool {
    c == '\u{201C}' || c == '\u{300C}' || c == '\u{300E}' || c == '\u{301D}' || c == '\u{FE41}'
}

pub open spec fn spec_is_close_quote(c: char) -> bool {
    c == '\u{201D}' || c == '\u{300D}' || c == '\u{300F}' || c == '\u{301E}' || c == '\u{301F}'
        || c == '\u{FE42}'
}

/// Strong terminal punctuation that may end a segment: 。！？…
pub fn is_terminal_punct(c: char) -> (b: bool)
    ensures
        b == spec_is_terminal_punct(c),
{
    c == '。' || c == '！' || c == '？' || c == '…'
}

/// Secondary punctuation: the fallback cut when no terminal mark comes.
pub fn is_secondary_punct(c: char) -> (b: bool)
    ensures
        b == spec_is_secondary_punct(c),
{
    c == '，' || c == '、' || c == '；' || c == '：' || c == ',' || c == ';' || c == ':'
}

/// Closing quotes and brackets that stick to the end of the segment before them.
pub fn is_closing_glue(c: char) -> (b: bool)
    ensures
        b == spec_is_closing_glue(c),
{
    c == '\u{201D}' || c == '\u{2019}' || c == '」' || c == '』' || c == '）' || c == '】' || c
        == '》' || c == '〉' || c == '〕'
}

fn is_open_quote(c: char) -> (b: bool)
    ensures
        b == spec_is_open_quote(c),
{
    c == '\u{201C}' || c == '\u{300C}' || c == '\u{300E}' || c == '\u{301D}' || c == '\u{FE41}'
}

fn is_close_quote(c: char) -> (b: bool)
    ensures
        b == spec_is_close_quote(c),
{
    c == '\u{201D}' || c == '\u{300D}' || c == '\u{300F}' || c == '\u{301E}' || c == '\u{301F}'
        || c == '\u{FE42}'
}

pub open spec fn spec_hard_limit(threshold: int) -> int {
    let a = if threshold * 2 <= usize::MAX { threshold * 2 } else { usize::MAX as int };
    let b = if threshold + 10 <= usize::MAX { threshold + 10 } else { usize::MAX as int };
    if a >= b { a } else { b }
}

/// Hard limit: past it a segment is cut even without terminal punctuation
/// (twice the threshold, at least threshold + 10, saturating).
pub fn hard_limit(threshold: usize) -> (r: usize)
    ensures
        r as int == spec_hard_limit(threshold as int),
{
    let a = if threshold <= usize::MAX / 2 { threshold * 2 } else { usize::MAX };
    let b = if threshold <= usize::MAX - 10 { threshold + 10 } else { usize::MAX };
    if a >= b { a } else { b }
}

/// Net quote depth change of a character.
pub open spec fn quote_delta(c: char) -> int {
    if spec_is_open_quote(c) {
        1
    } else if spec_is_close_quote(c) {
        -1
    } else {
        0
    }
}

/// Open quotes minus close quotes in `s`.
pub open spec fn quote_depth(s: Seq<char>) -> int
    decreases s.len(),
{
    if s.len() == 0 {
        0
    } else {
        quote_depth(s.drop_last()) + quote_delta(s.last())
    }
}

proof fn lemma_quote_depth_bound(s: Seq<char>)
    ensures
        -(s.len() as int) <= quote_depth(s) <= s.len(),
    decreases s.len(),
{
    if s.len() > 0 {
        lemma_quote_depth_bound(s.drop_last());
    }
}

fn recount_quote_depth(s: &[char], lo: usize, hi: usize) -> (d: i128)
    requires
        lo <= hi <= s@.len(),
    ensures
        d as int == quote_depth(s@.subrange(lo as int, hi as int)),
{
    let mut d: i128 = 0;
    let mut i = lo;
    while i < hi
        invariant
            lo <= i <= hi <= s@.len(),
            d as int == quote_depth(s@.subrange(lo as int, i as int)),
        decreases hi - i,
    {
        proof {
            assert(s@.subrange(lo as int, i + 1).drop_last() =~= s@.subrange(lo as int, i as int));
            lemma_quote_depth_bound(s@.subrange(lo as int, i as int));
        }
        if is_open_quote(s[i]) {
            d = d + 1;
        } else if is_close_quote(s[i]) {
            d = d - 1;
        }
        i = i + 1;
    }
    d
}

/// The last position in `[from, len)` holding secondary punctuation.
pub open spec fn last_secondary_from(buf: Seq<char>, from: int) -> Option<int> {
    last_secondary_in(buf, from, buf.len() as int)
}

pub open spec fn last_secondary_in(buf: Seq<char>, from: int, i: int) -> Option<int>
    decreases i - from,
{
    if i <= from {
        None
    } else if spec_is_secondary_punct(buf[i - 1]) {
        Some(i - 1)
    } else {
        last_secondary_in(buf, from, i - 1)
    }
}

proof fn lemma_last_secondary_in(buf: Seq<char>, from: int, i: int)
    ensures
        last_secondary_in(buf, from, i) matches Some(p) ==> from <= p < i,
    decreases i - from,
{
    if i > from && !spec_is_secondary_punct(buf[i - 1]) {
        lemma_last_secondary_in(buf, from, i - 1);
    }
}

/// Position of the last secondary punctuation of `buf[lo..hi]` at or after
/// relative position `from`, relative to `lo`.
fn find_last_secondary(buf: &[char], lo: usize, hi: usize, from: usize) -> (r: Option<usize>)
    requires
        lo <= hi <= buf@.len(),
    ensures
        rview_opt(r) == last_secondary_from(buf@.subrange(lo as int, hi as int), from as int),
{
    let ghost b = buf@.subrange(lo as int, hi as int);
    let n = hi - lo;
    if n <= from {
        return None;
    }
    let mut i = n;
    while i > from
        invariant
            from < n || i <= from,
            from <= i <= n == hi - lo,
            lo <= hi <= buf@.len(),
            b == buf@.subrange(lo as int, hi as int),
            last_secondary_from(b, from as int) == last_secondary_in(b, from as int, i as int),
        decreases i - from,
    {
        if is_secondary_punct(buf[lo + i - 1]) {
            assert(b[i - 1] == buf@[lo + i - 1]);
            return Some(i - 1);
        }
        assert(b[i - 1] == buf@[lo + i - 1]);
        i = i - 1;
    }
    None
}

pub open spec fn rview_opt(r: Option<usize>) -> Option<int> {
    match r {
        Some(x) => Some(x as int),
        None => None,
    }
}

/// Scene separator: at least three characters, all `*` or all `-`/`—`.
pub open spec fn spec_is_scene_separator(line: Seq<char>) -> bool {
    let t = trim(line);
    t.len() >= 3 && ((forall|i: int| 0 <= i < t.len() ==> #[trigger] t[i] == '*') || (forall|
        i: int,
    |
        0 <= i < t.len() ==> #[trigger] t[i] == '-' || t[i] == '—'))
}

fn scene_separator_chars(s: &[char], lo: usize, hi: usize) -> (b: bool)
    requires
        lo <= hi <= s@.len(),
    ensures
        b == spec_is_scene_separator(s@.subrange(lo as int, hi as int)),
{
    let (a, e) = trim_bounds(s, lo, hi);
    let ghost t = s@.subrange(a as int, e as int);
    if e - a < 3 {
        return false;
    }
    let mut all_stars = true;
    let mut all_dashes = true;
    let mut i = a;
    while i < e
        invariant
            a <= i <= e <= s@.len(),
            t == s@.subrange(a as int, e as int),
            all_stars == (forall|j: int| 0 <= j < i - a ==> #[trigger] t[j] == '*'),
            all_dashes == (forall|j: int| 0 <= j < i - a ==> #[trigger] t[j] == '-' || t[j] == '—'),
        decreases e - i,
    {
        assert(t[i - a] == s@[i as int]);
        if s[i] != '*' {
            all_stars = false;
        }
        if !(s[i] == '-' || s[i] == '—') {
            all_dashes = false;
        }
        i = i + 1;
    }
    all_stars || all_dashes
}

/// Scene separator line: `***` / `---` (at least three characters).
pub fn is_scene_separator(line: &str) -> (b: bool)
    ensures
        b == spec_is_scene_separator(line@),
{
    let c = chars_of(line);
    proof {
        assert(c@.subrange(0, c@.len() as int) =~= c@);
    }
    scene_separator_chars(c.as_slice(), 0, c.len())
}

/// The chapter heading pattern: 第X章 / 回 / 卷 / 节 / 集 / 部 / 篇.
pub const CHAPTER_MARKER_PATTERN: &'static str =
    "^第[0-9零一二三四五六七八九十百千万壹贰叁肆伍陆柒捌玖拾佰仟]+\\s*[章回卷节集部篇]";

pub open spec fn spec_is_chapter_marker_line(line: Seq<char>) -> bool {
    regex_valid(CHAPTER_MARKER_PATTERN@) && regex_is_match(CHAPTER_MARKER_PATTERN@, line)
}

/// Chapter heading line (a hard segment boundary).
pub fn is_chapter_marker_line(line: &str) -> (b: bool)
    ensures
        b == spec_is_chapter_marker_line(line@),
{
    match CompiledPattern::compile(CHAPTER_MARKER_PATTERN) {
        Ok(re) => re.is_match(line),
        Err(_) => false,
    }
}

// ───────────────────────── TXT: line stream → paragraphs ─────────────────────────

/// Whether one of the patterns matches `t`.
pub open spec fn spec_any_match(pats: Seq<Seq<char>>, t: Seq<char>) -> bool {
    exists|i: int| 0 <= i < pats.len() && regex_is_match(#[trigger] pats[i], t)
}

fn any_match(pats: &Vec<CompiledPattern>, t: &str) -> (b: bool)
    ensures
        b == spec_any_match(sources(pats@), t@),
{
    let mut i: usize = 0;
    while i < pats.len()
        invariant
            i <= pats@.len(),
            forall|j: int| 0 <= j < i ==> !regex_is_match(#[trigger] sources(pats@)[j], t@),
        decreases pats@.len() - i,
    {
        if pats[i].is_match(t) {
            assert(regex_is_match(sources(pats@)[i as int], t@));
            return true;
        }
        i = i + 1;
    }
    false
}

/// Segmenter state: finished paragraphs, the paragraph being built, its quote
/// depth, and whether a line-final ellipsis waits for the next line.
pub struct SegState {
    pub out: Seq<Seq<char>>,
    pub cur: Seq<char>,
    pub depth: int,
    pub pend: bool,
}

pub open spec fn seg_init() -> SegState {
    SegState { out: Seq::empty(), cur: Seq::empty(), depth: 0, pend: false }
}

pub open spec fn seg_wf(s: SegState) -> bool {
    -(s.cur.len() as int) <= s.depth <= s.cur.len()
}

/// Ends the current paragraph (if any).
pub open spec fn seg_flush(s: SegState) -> SegState {
    if s.cur.len() > 0 {
        SegState { out: s.out.push(s.cur), cur: Seq::empty(), depth: 0, pend: false }
    } else {
        SegState { out: s.out, cur: s.cur, depth: s.depth, pend: false }
    }
}

/// Appends one character to the current paragraph.
pub open spec fn seg_add(s: SegState, c: char) -> SegState {
    SegState { out: s.out, cur: s.cur.push(c), depth: s.depth + quote_delta(c), pend: s.pend }
}

/// Appends `t[k..j]` to the current paragraph.
pub open spec fn seg_add_run(s: SegState, t: Seq<char>, k: int, j: int) -> SegState
    decreases j - k,
{
    if k >= j {
        s
    } else {
        seg_add_run(seg_add(s, t[k]), t, k + 1, j)
    }
}

/// Adds `t` as a paragraph of its own.
pub open spec fn seg_push(s: SegState, t: Seq<char>) -> SegState {
    SegState { out: s.out.push(t), cur: s.cur, depth: s.depth, pend: s.pend }
}

/// End of the run of closing marks and terminal punctuation starting at `k`.
pub open spec fn run_end_tg(t: Seq<char>, k: int) -> int
    decreases t.len() - k,
{
    if 0 <= k < t.len() && (spec_is_closing_glue(t[k]) || spec_is_terminal_punct(t[k])) {
        run_end_tg(t, k + 1)
    } else {
        k
    }
}

/// End of the run of closing marks starting at `k`.
pub open spec fn run_end_g(t: Seq<char>, k: int) -> int
    decreases t.len() - k,
{
    if 0 <= k < t.len() && spec_is_closing_glue(t[k]) {
        run_end_g(t, k + 1)
    } else {
        k
    }
}

pub proof fn lemma_run_end_tg(t: Seq<char>, k: int)
    requires
        0 <= k <= t.len(),
    ensures
        k <= run_end_tg(t, k) <= t.len(),
    decreases t.len() - k,
{
    if 0 <= k < t.len() && (spec_is_closing_glue(t[k]) || spec_is_terminal_punct(t[k])) {
        lemma_run_end_tg(t, k + 1);
    }
}

pub proof fn lemma_run_end_g(t: Seq<char>, k: int)
    requires
        0 <= k <= t.len(),
    ensures
        k <= run_end_g(t, k) <= t.len(),
    decreases t.len() - k,
{
    if 0 <= k < t.len() && spec_is_closing_glue(t[k]) {
        lemma_run_end_g(t, k + 1);
    }
}

/// Splits the current paragraph after position `p`; the rest stays current.
pub open spec fn seg_split_at(s: SegState, p: int) -> SegState {
    let tail = s.cur.subrange(p + 1, s.cur.len() as int);
    SegState {
        out: s.out.push(s.cur.subrange(0, p + 1)),
        cur: tail,
        depth: quote_depth(tail),
        pend: s.pend,
    }
}

/// Feeds the characters `t[k..]` of one line to the segmenter.
pub open spec fn seg_chars(s: SegState, t: Seq<char>, k: int, cfg: SegCfg, merge: bool) -> SegState
    decreases t.len() - k,
{
    if k < 0 || k >= t.len() {
        s
    } else {
        let ch = t[k];
        let s1 = seg_add(s, ch);
        if s1.cur.len() <= cfg.threshold || merge {
            seg_chars(s1, t, k + 1, cfg, merge)
        } else if !(cfg.quote_unclosed && s1.depth > 0) && spec_is_terminal_punct(ch) {
            let j = run_end_tg(t, k + 1);
            let s2 = seg_add_run(s1, t, k + 1, j);
            let s3 = if j == t.len() && ends_with_char(s2.cur, '…') {
                SegState { out: s2.out, cur: s2.cur, depth: s2.depth, pend: true }
            } else {
                seg_flush(s2)
            };
            proof {
                lemma_run_end_tg(t, k + 1);
            }
            seg_chars(s3, t, j, cfg, merge)
        } else if s1.cur.len() >= spec_hard_limit(cfg.threshold) {
            if spec_is_secondary_punct(ch) {
                let j = run_end_g(t, k + 1);
                proof {
                    lemma_run_end_g(t, k + 1);
                }
                seg_chars(seg_flush(seg_add_run(s1, t, k + 1, j)), t, j, cfg, merge)
            } else {
                match last_secondary_from(s1.cur, cfg.threshold) {
                    Some(p) => seg_chars(seg_split_at(s1, p), t, k + 1, cfg, merge),
                    None => seg_chars(seg_flush(s1), t, k + 1, cfg, merge),
                }
            }
        } else {
            seg_chars(s1, t, k + 1, cfg, merge)
        }
    }
}

/// Feeds one input line to the segmenter.
pub open spec fn seg_line(s: SegState, line: Seq<char>, cfg: SegCfg) -> SegState {
    let t = trim(line);
    if t.len() == 0 {
        seg_flush(s)
    } else {
        let s1 = if s.pend {
            if !starts_with_char(t, '…') {
                seg_flush(s)
            } else {
                SegState { out: s.out, cur: s.cur, depth: s.depth, pend: false }
            }
        } else {
            s
        };
        let indep = spec_any_match(cfg.indep, t);
        let s2 = if indep || spec_any_match(cfg.before, t) {
            seg_flush(s1)
        } else {
            s1
        };
        if indep {
            seg_push(s2, t)
        } else if (cfg.chapter_title && spec_is_chapter_marker_line(t)) || (cfg.scene_sep
            && spec_is_scene_separator(t)) {
            seg_push(seg_flush(s2), t)
        } else if cfg.short_poem && t.len() < 20 {
            seg_push(seg_flush(s2), t)
        } else if s2.cur.len() > 0 && s2.out.len() > 0 && spec_is_closing_glue(t[0]) {
            SegState {
                out: s2.out.update(s2.out.len() - 1, s2.out.last() + t),
                cur: s2.cur,
                depth: s2.depth,
                pend: s2.pend,
            }
        } else {
            let s3 = seg_chars(s2, t, 0, cfg, spec_any_match(cfg.merge, t));
            if spec_any_match(cfg.after, t) {
                seg_flush(s3)
            } else {
                s3
            }
        }
    }
}

/// Feeds the lines `ls[i..]` to the segmenter.
pub open spec fn seg_lines(s: SegState, ls: Seq<Seq<char>>, i: int, cfg: SegCfg) -> SegState
    decreases ls.len() - i,
{
    if i < 0 || i >= ls.len() {
        s
    } else {
        seg_lines(seg_line(s, ls[i], cfg), ls, i + 1, cfg)
    }
}

/// The paragraphs `segment_lines` makes of `content`.
pub open spec fn segment_lines_spec(content: Seq<char>, cfg: SegCfg) -> Seq<Seq<char>> {
    seg_flush(seg_lines(seg_init(), lines(content), 0, cfg)).out
}

// ───────────────────────── laws of the segmenter ─────────────────────────

/// The text a segmenter state holds: its finished paragraphs, then the current one.
pub open spec fn seg_text(s: SegState) -> Seq<char> {
    concat(s.out) + s.cur
}

/// No paragraph is empty.
pub open spec fn parts_nonempty(ps: Seq<Seq<char>>) -> bool {
    forall|i: int| 0 <= i < ps.len() ==> #[trigger] ps[i].len() > 0
}

proof fn lemma_concat_push(ps: Seq<Seq<char>>, x: Seq<char>)
    ensures
        concat(ps.push(x)) == concat(ps) + x,
{
    assert(ps.push(x).drop_last() =~= ps);
    if ps.len() == 0 {
        assert(concat(ps.push(x)) == x);
        assert(Seq::<char>::empty() + x =~= x);
    } else {
        assert(concat(ps.push(x)) == join(ps, Seq::<char>::empty()) + Seq::<char>::empty() + x);
        assert(join(ps, Seq::<char>::empty()) + Seq::<char>::empty() =~= join(ps, Seq::<char>::empty()));
    }
}

proof fn lemma_nonempty_push(ps: Seq<Seq<char>>, x: Seq<char>)
    requires
        parts_nonempty(ps),
        x.len() > 0,
    ensures
        parts_nonempty(ps.push(x)),
{
    assert forall|i: int| 0 <= i < ps.push(x).len() implies #[trigger] ps.push(x)[i].len() > 0 by {
        if i < ps.len() {
            assert(ps.push(x)[i] == ps[i]);
        }
    }
}

proof fn lemma_seg_flush(s: SegState)
    requires
        parts_nonempty(s.out),
    ensures
        seg_text(seg_flush(s)) == seg_text(s),
        parts_nonempty(seg_flush(s).out),
        seg_flush(s).cur.len() == 0,
{
    if s.cur.len() > 0 {
        lemma_concat_push(s.out, s.cur);
        lemma_nonempty_push(s.out, s.cur);
        assert(concat(s.out.push(s.cur)) + Seq::<char>::empty() =~= concat(s.out) + s.cur);
    }
}

proof fn lemma_seg_add_run(s: SegState, t: Seq<char>, k: int, j: int)
    requires
        0 <= k <= j <= t.len(),
    ensures
        seg_text(seg_add_run(s, t, k, j)) == seg_text(s) + t.subrange(k, j),
        seg_add_run(s, t, k, j).out == s.out,
    decreases j - k,
{
    if k < j {
        let s1 = seg_add(s, t[k]);
        lemma_seg_add_run(s1, t, k + 1, j);
        assert(seg_text(s1) =~= seg_text(s).push(t[k]));
        assert(seg_text(s).push(t[k]) + t.subrange(k + 1, j) =~= seg_text(s) + t.subrange(k, j));
    } else {
        assert(seg_text(s) + t.subrange(k, j) =~= seg_text(s));
    }
}

proof fn lemma_seg_split_at(s: SegState, p: int)
    requires
        0 <= p < s.cur.len(),
        parts_nonempty(s.out),
    ensures
        seg_text(seg_split_at(s, p)) == seg_text(s),
        parts_nonempty(seg_split_at(s, p).out),
{
    let head = s.cur.subrange(0, p + 1);
    lemma_concat_push(s.out, head);
    lemma_nonempty_push(s.out, head);
    assert(head + s.cur.subrange(p + 1, s.cur.len() as int) =~= s.cur);
    assert(concat(s.out) + head + s.cur.subrange(p + 1, s.cur.len() as int) =~= concat(s.out) + s.cur);
}

proof fn lemma_seg_chars(s: SegState, t: Seq<char>, k: int, cfg: SegCfg, merge: bool)
    requires
        0 <= k <= t.len(),
        cfg.threshold >= 0,
        parts_nonempty(s.out),
    ensures
        seg_text(seg_chars(s, t, k, cfg, merge)) == seg_text(s) + t.subrange(k, t.len() as int),
        parts_nonempty(seg_chars(s, t, k, cfg, merge).out),
    decreases t.len() - k,
{
    if k == t.len() {
        assert(seg_text(s) + t.subrange(k, t.len() as int) =~= seg_text(s));
    } else {
        let ch = t[k];
        let s1 = seg_add(s, ch);
        assert(seg_text(s1) =~= seg_text(s) + t.subrange(k, k + 1));
        let rest = t.subrange(k + 1, t.len() as int);
        assert(seg_text(s) + t.subrange(k, k + 1) + rest =~= seg_text(s) + t.subrange(k, t.len() as int));
        if s1.cur.len() <= cfg.threshold || merge {
            lemma_seg_chars(s1, t, k + 1, cfg, merge);
        } else if !(cfg.quote_unclosed && s1.depth > 0) && spec_is_terminal_punct(ch) {
            let j = run_end_tg(t, k + 1);
            lemma_run_end_tg(t, k + 1);
            let s2 = seg_add_run(s1, t, k + 1, j);
            lemma_seg_add_run(s1, t, k + 1, j);
            let s3 = if j == t.len() && ends_with_char(s2.cur, '…') {
                SegState { out: s2.out, cur: s2.cur, depth: s2.depth, pend: true }
            } else {
                seg_flush(s2)
            };
            lemma_seg_flush(s2);
            lemma_seg_chars(s3, t, j, cfg, merge);
            assert(seg_text(s1) + t.subrange(k + 1, j) + t.subrange(j, t.len() as int) =~= seg_text(s1)
                + rest);
        } else if s1.cur.len() >= spec_hard_limit(cfg.threshold) {
            if spec_is_secondary_punct(ch) {
                let j = run_end_g(t, k + 1);
                lemma_run_end_g(t, k + 1);
                let s2 = seg_add_run(s1, t, k + 1, j);
                lemma_seg_add_run(s1, t, k + 1, j);
                lemma_seg_flush(s2);
                lemma_seg_chars(seg_flush(s2), t, j, cfg, merge);
                assert(seg_text(s1) + t.subrange(k + 1, j) + t.subrange(j, t.len() as int) =~= seg_text(
                    s1,
                ) + rest);
            } else {
                lemma_last_secondary_in(s1.cur, cfg.threshold, s1.cur.len() as int);
                match last_secondary_from(s1.cur, cfg.threshold) {
                    Some(p) => {
                        lemma_seg_split_at(s1, p);
                        lemma_seg_chars(seg_split_at(s1, p), t, k + 1, cfg, merge);
                    },
                    None => {
                        lemma_seg_flush(s1);
                        lemma_seg_chars(seg_flush(s1), t, k + 1, cfg, merge);
                    },
                }
            }
        } else {
            lemma_seg_chars(s1, t, k + 1, cfg, merge);
        }
    }
}

proof fn lemma_seg_line_nonempty(s: SegState, line: Seq<char>, cfg: SegCfg)
    requires
        cfg.threshold >= 0,
        parts_nonempty(s.out),
    ensures
        parts_nonempty(seg_line(s, line, cfg).out),
        s.cur.len() == 0 ==> seg_text(seg_line(s, line, cfg)) == seg_text(s) + trim(line),
{
    let t = trim(line);
    if t.len() == 0 {
        lemma_seg_flush(s);
        assert(seg_text(s) + t =~= seg_text(s));
    } else {
        lemma_seg_flush(s);
        let s1 = if s.pend {
            if !starts_with_char(t, '…') {
                seg_flush(s)
            } else {
                SegState { out: s.out, cur: s.cur, depth: s.depth, pend: false }
            }
        } else {
            s
        };
        lemma_seg_flush(s1);
        let indep = spec_any_match(cfg.indep, t);
        let s2 = if indep || spec_any_match(cfg.before, t) {
            seg_flush(s1)
        } else {
            s1
        };
        lemma_seg_flush(s2);
        if indep {
            lemma_concat_push(s2.out, t);
            lemma_nonempty_push(s2.out, t);
        } else if (cfg.chapter_title && spec_is_chapter_marker_line(t)) || (cfg.scene_sep
            && spec_is_scene_separator(t)) || (cfg.short_poem && t.len() < 20) {
            lemma_concat_push(seg_flush(s2).out, t);
            lemma_nonempty_push(seg_flush(s2).out, t);
            assert(seg_flush(s2).cur.len() == 0);
        } else if s2.cur.len() > 0 && s2.out.len() > 0 && spec_is_closing_glue(t[0]) {
            let o = s2.out.update(s2.out.len() - 1, s2.out.last() + t);
            assert forall|i: int| 0 <= i < o.len() implies #[trigger] o[i].len() > 0 by {
                if i < s2.out.len() - 1 {
                    assert(o[i] == s2.out[i]);
                }
            }
        } else {
            lemma_seg_chars(s2, t, 0, cfg, spec_any_match(cfg.merge, t));
            let s3 = seg_chars(s2, t, 0, cfg, spec_any_match(cfg.merge, t));
            lemma_seg_flush(s3);
            assert(t.subrange(0, t.len() as int) =~= t);
        }
    }
}

proof fn lemma_seg_lines_nonempty(s: SegState, ls: Seq<Seq<char>>, i: int, cfg: SegCfg)
    requires
        cfg.threshold >= 0,
        parts_nonempty(s.out),
    ensures
        parts_nonempty(seg_lines(s, ls, i, cfg).out),
    decreases ls.len() - i,
{
    if 0 <= i < ls.len() {
        lemma_seg_line_nonempty(s, ls[i], cfg);
        lemma_seg_lines_nonempty(seg_line(s, ls[i], cfg), ls, i + 1, cfg);
    }
}

/// The segmenter never makes an empty paragraph.
pub proof fn lemma_segment_lines_nonempty(content: Seq<char>, cfg: SegCfg)
    requires
        cfg.threshold >= 0,
    ensures
        parts_nonempty(segment_lines_spec(content, cfg)),
{
    let s = seg_lines(seg_init(), lines(content), 0, cfg);
    lemma_seg_lines_nonempty(seg_init(), lines(content), 0, cfg);
    lemma_seg_flush(s);
}

/// On a single line, the segmenter loses, repeats and reorders no character: its
/// paragraphs put together give back the trimmed line.
pub proof fn lemma_segment_line_keeps_text(content: Seq<char>, cfg: SegCfg)
    requires
        cfg.threshold >= 0,
        forall|i: int| 0 <= i < content.len() ==> content[i] != '\n',
    ensures
        concat(segment_lines_spec(content, cfg)) == trim(content),
{
    let ls = lines(content);
    lemma_lines_single(content);
    let s0 = seg_init();
    assert(seg_text(s0) =~= Seq::<char>::empty()) by {
        assert(concat(s0.out) == Seq::<char>::empty());
    }
    if content.len() == 0 {
        assert(ls.len() == 0);
        assert(seg_lines(s0, ls, 0, cfg) == s0);
        lemma_seg_flush(s0);
        assert(trim(content) =~= Seq::<char>::empty()) by {
            crate::text::lemma_lead_ws_bound(content);
        }
    } else {
        lemma_seg_line_nonempty(s0, content, cfg);
        let s1 = seg_line(s0, content, cfg);
        assert(seg_lines(s1, ls, 1, cfg) == s1);
        assert(seg_lines(s0, ls, 0, cfg) == s1);
        lemma_seg_lines_nonempty(s0, ls, 0, cfg);
        lemma_seg_flush(s1);
        assert(concat(seg_flush(s1).out) =~= seg_text(seg_flush(s1))) by {
            assert(seg_flush(s1).cur.len() == 0);
        }
        assert(Seq::<char>::empty() + trim(content) =~= trim(content));
    }
}

// ───────────────────────── blank lines separate paragraphs ─────────────────────────

/// The paragraphs the segmenter makes of a sequence of lines.
pub open spec fn seg_paragraphs(ls: Seq<Seq<char>>, cfg: SegCfg) -> Seq<Seq<char>> {
    seg_flush(seg_lines(seg_init(), ls, 0, cfg)).out
}

/// A line whose trimmed text starts with a closing mark.
pub open spec fn starts_with_closing_glue(line: Seq<char>) -> bool {
    trim(line).len() > 0 && spec_is_closing_glue(trim(line)[0])
}

/// The state `s` with the paragraphs `o` finished before its own.
pub open spec fn with_earlier(s: SegState, o: Seq<Seq<char>>) -> SegState {
    SegState { out: o + s.out, cur: s.cur, depth: s.depth, pend: s.pend }
}

/// An empty current paragraph has no open quotation.
pub open spec fn seg_settled(s: SegState) -> bool {
    s.cur.len() == 0 ==> s.depth == 0
}

proof fn lemma_push_earlier(o: Seq<Seq<char>>, out: Seq<Seq<char>>, x: Seq<char>)
    ensures
        (o + out).push(x) == o + out.push(x),
{
    assert((o + out).push(x) =~= o + out.push(x));
}

proof fn lemma_earlier_flush(s: SegState, o: Seq<Seq<char>>)
    ensures
        seg_flush(with_earlier(s, o)) == with_earlier(seg_flush(s), o),
        seg_settled(seg_flush(s)) || !seg_settled(s),
{
    lemma_push_earlier(o, s.out, s.cur);
}

proof fn lemma_earlier_add_run(s: SegState, t: Seq<char>, k: int, j: int, o: Seq<Seq<char>>)
    ensures
        seg_add_run(with_earlier(s, o), t, k, j) == with_earlier(seg_add_run(s, t, k, j), o),
        seg_settled(s) ==> seg_settled(seg_add_run(s, t, k, j)),
    decreases j - k,
{
    if k < j {
        assert(seg_add(with_earlier(s, o), t[k]) == with_earlier(seg_add(s, t[k]), o));
        lemma_earlier_add_run(seg_add(s, t[k]), t, k + 1, j, o);
    }
}

proof fn lemma_earlier_split(s: SegState, p: int, o: Seq<Seq<char>>)
    ensures
        seg_split_at(with_earlier(s, o), p) == with_earlier(seg_split_at(s, p), o),
        seg_settled(seg_split_at(s, p)),
{
    lemma_push_earlier(o, s.out, s.cur.subrange(0, p + 1));
    let tail = s.cur.subrange(p + 1, s.cur.len() as int);
    if tail.len() == 0 {
        assert(quote_depth(tail) == 0);
    }
}

proof fn lemma_earlier_chars(s: SegState, t: Seq<char>, k: int, cfg: SegCfg, merge: bool, o: Seq<Seq<char>>)
    requires
        0 <= k <= t.len(),
    ensures
        seg_chars(with_earlier(s, o), t, k, cfg, merge) == with_earlier(seg_chars(s, t, k, cfg, merge), o),
        seg_settled(s) ==> seg_settled(seg_chars(s, t, k, cfg, merge)),
    decreases t.len() - k,
{
    if k < t.len() {
        let ch = t[k];
        let s1 = seg_add(s, ch);
        assert(seg_add(with_earlier(s, o), ch) == with_earlier(s1, o));
        if s1.cur.len() <= cfg.threshold || merge {
            lemma_earlier_chars(s1, t, k + 1, cfg, merge, o);
        } else if !(cfg.quote_unclosed && s1.depth > 0) && spec_is_terminal_punct(ch) {
            let j = run_end_tg(t, k + 1);
            lemma_run_end_tg(t, k + 1);
            let s2 = seg_add_run(s1, t, k + 1, j);
            lemma_earlier_add_run(s1, t, k + 1, j, o);
            let s3 = if j == t.len() && ends_with_char(s2.cur, '…') {
                SegState { out: s2.out, cur: s2.cur, depth: s2.depth, pend: true }
            } else {
                seg_flush(s2)
            };
            lemma_earlier_flush(s2, o);
            let e2 = with_earlier(s2, o);
            let e3 = if j == t.len() && ends_with_char(e2.cur, '…') {
                SegState { out: e2.out, cur: e2.cur, depth: e2.depth, pend: true }
            } else {
                seg_flush(e2)
            };
            assert(e3 == with_earlier(s3, o));
            lemma_earlier_chars(s3, t, j, cfg, merge, o);
        } else if s1.cur.len() >= spec_hard_limit(cfg.threshold) {
            if spec_is_secondary_punct(ch) {
                let j = run_end_g(t, k + 1);
                lemma_run_end_g(t, k + 1);
                let s2 = seg_add_run(s1, t, k + 1, j);
                lemma_earlier_add_run(s1, t, k + 1, j, o);
                lemma_earlier_flush(s2, o);
                lemma_earlier_chars(seg_flush(s2), t, j, cfg, merge, o);
            } else {
                match last_secondary_from(s1.cur, cfg.threshold) {
                    Some(p) => {
                        lemma_earlier_split(s1, p, o);
                        lemma_earlier_chars(seg_split_at(s1, p), t, k + 1, cfg, merge, o);
                    },
                    None => {
                        lemma_earlier_flush(s1, o);
                        lemma_earlier_chars(seg_flush(s1), t, k + 1, cfg, merge, o);
                    },
                }
            }
        } else {
            lemma_earlier_chars(s1, t, k + 1, cfg, merge, o);
        }
    }
}

proof fn lemma_earlier_line(s: SegState, line: Seq<char>, cfg: SegCfg, o: Seq<Seq<char>>)
    requires
        !starts_with_closing_glue(line),
    ensures
        seg_line(with_earlier(s, o), line, cfg) == with_earlier(seg_line(s, line, cfg), o),
        seg_settled(s) ==> seg_settled(seg_line(s, line, cfg)),
{
    let t = trim(line);
    lemma_earlier_flush(s, o);
    if t.len() > 0 {
        let s1 = if s.pend {
            if !starts_with_char(t, '…') {
                seg_flush(s)
            } else {
                SegState { out: s.out, cur: s.cur, depth: s.depth, pend: false }
            }
        } else {
            s
        };
        lemma_earlier_flush(s1, o);
        let indep = spec_any_match(cfg.indep, t);
        let s2 = if indep || spec_any_match(cfg.before, t) {
            seg_flush(s1)
        } else {
            s1
        };
        lemma_earlier_flush(s2, o);
        lemma_push_earlier(o, s2.out, t);
        lemma_push_earlier(o, seg_flush(s2).out, t);
        lemma_earlier_chars(s2, t, 0, cfg, spec_any_match(cfg.merge, t), o);
        let s3 = seg_chars(s2, t, 0, cfg, spec_any_match(cfg.merge, t));
        lemma_earlier_flush(s3, o);
    }
}

proof fn lemma_earlier_lines(s: SegState, ls: Seq<Seq<char>>, i: int, cfg: SegCfg, o: Seq<Seq<char>>)
    requires
        forall|k: int| 0 <= k < ls.len() ==> !starts_with_closing_glue(#[trigger] ls[k]),
    ensures
        seg_lines(with_earlier(s, o), ls, i, cfg) == with_earlier(seg_lines(s, ls, i, cfg), o),
    decreases ls.len() - i,
{
    if 0 <= i < ls.len() {
        lemma_earlier_line(s, ls[i], cfg, o);
        lemma_earlier_lines(seg_line(s, ls[i], cfg), ls, i + 1, cfg, o);
    }
}

proof fn lemma_settled_line(s: SegState, line: Seq<char>, cfg: SegCfg)
    requires
        seg_settled(s),
    ensures
        seg_settled(seg_line(s, line, cfg)),
{
    let t = trim(line);
    if t.len() > 0 {
        let o = Seq::<Seq<char>>::empty();
        lemma_earlier_flush(s, o);
        let s1 = if s.pend {
            if !starts_with_char(t, '…') {
                seg_flush(s)
            } else {
                SegState { out: s.out, cur: s.cur, depth: s.depth, pend: false }
            }
        } else {
            s
        };
        lemma_earlier_flush(s1, o);
        let indep = spec_any_match(cfg.indep, t);
        let s2 = if indep || spec_any_match(cfg.before, t) {
            seg_flush(s1)
        } else {
            s1
        };
        lemma_earlier_flush(s2, o);
        lemma_earlier_chars(s2, t, 0, cfg, spec_any_match(cfg.merge, t), o);
        let s3 = seg_chars(s2, t, 0, cfg, spec_any_match(cfg.merge, t));
        lemma_earlier_flush(s3, o);
    } else {
        lemma_earlier_flush(s, Seq::<Seq<char>>::empty());
    }
}

proof fn lemma_settled_lines(s: SegState, ls: Seq<Seq<char>>, i: int, cfg: SegCfg)
    requires
        seg_settled(s),
    ensures
        seg_settled(seg_lines(s, ls, i, cfg)),
    decreases ls.len() - i,
{
    if 0 <= i < ls.len() {
        lemma_settled_line(s, ls[i], cfg);
        lemma_settled_lines(seg_line(s, ls[i], cfg), ls, i + 1, cfg);
    }
}

proof fn lemma_lines_take(s: SegState, ls: Seq<Seq<char>>, i: int, j: int, cfg: SegCfg)
    requires
        0 <= i <= j <= ls.len(),
    ensures
        seg_lines(s, ls, i, cfg) == seg_lines(seg_lines(s, ls.take(j), i, cfg), ls, j, cfg),
    decreases j - i,
{
    if i < j {
        assert(ls.take(j)[i] == ls[i]);
        lemma_lines_take(seg_line(s, ls[i], cfg), ls, i + 1, j, cfg);
    }
}

proof fn lemma_lines_suffix(s: SegState, x: Seq<Seq<char>>, y: Seq<Seq<char>>, k: int, cfg: SegCfg)
    requires
        0 <= k <= y.len(),
    ensures
        seg_lines(s, x + y, x.len() + k, cfg) == seg_lines(s, y, k, cfg),
    decreases y.len() - k,
{
    if k < y.len() {
        assert((x + y)[x.len() + k] == y[k]);
        lemma_lines_suffix(seg_line(s, y[k], cfg), x, y, k + 1, cfg);
    }
}

/// A blank line is a hard paragraph boundary: the paragraphs made of the lines
/// before it, a blank line and the lines after it are those of the lines before,
/// followed by those of the lines after, so no paragraph holds text from both
/// sides. (A line starting with a closing mark may be glued onto the last finished
/// paragraph, so the lines after the blank one are taken without such lines.)
pub proof fn lemma_blank_line_separates(x: Seq<Seq<char>>, b: Seq<char>, y: Seq<Seq<char>>, cfg: SegCfg)
    requires
        trim(b).len() == 0,
        forall|k: int| 0 <= k < y.len() ==> !starts_with_closing_glue(#[trigger] y[k]),
    ensures
        seg_paragraphs(x.push(b) + y, cfg) == seg_paragraphs(x, cfg) + seg_paragraphs(y, cfg),
{
    let a = x.push(b);
    let ls = a + y;
    let init = seg_init();
    lemma_lines_take(init, ls, 0, a.len() as int, cfg);
    assert(ls.take(a.len() as int) =~= a);
    lemma_lines_take(init, a, 0, x.len() as int, cfg);
    assert(a.take(x.len() as int) =~= x);
    let t = seg_lines(init, x, 0, cfg);
    assert(seg_lines(t, a, x.len() as int, cfg) == seg_lines(seg_line(t, b, cfg), a, x.len() + 1int, cfg));
    assert(seg_lines(seg_line(t, b, cfg), a, x.len() + 1int, cfg) == seg_line(t, b, cfg));
    let f = seg_line(t, b, cfg);
    assert(f == seg_flush(t));
    lemma_settled_lines(init, x, 0, cfg);
    lemma_earlier_flush(t, Seq::<Seq<char>>::empty());
    assert(seg_settled(t));
    assert(f.cur =~= Seq::<char>::empty());
    assert(f.depth == 0);
    assert(!f.pend);
    assert(f == with_earlier(init, f.out)) by {
        assert(f.out + Seq::<Seq<char>>::empty() =~= f.out);
    }
    lemma_lines_suffix(f, a, y, 0, cfg);
    assert(seg_lines(f, ls, a.len() as int, cfg) == seg_lines(f, y, 0, cfg));
    lemma_earlier_lines(init, y, 0, cfg, f.out);
    let g = seg_lines(init, y, 0, cfg);
    lemma_earlier_flush(g, f.out);
    assert(seg_paragraphs(x, cfg) == f.out);
}

/// For a text whose lines are `x`, a blank line and `y`, the paragraphs are those
/// of `x` followed by those of `y` (when no line of `y` starts with a closing mark).
pub proof fn lemma_segment_lines_blank_line(content: Seq<char>, x: Seq<Seq<char>>, b: Seq<char>, y: Seq<Seq<char>>, cfg: SegCfg)
    requires
        lines(content) == x.push(b) + y,
        trim(b).len() == 0,
        forall|k: int| 0 <= k < y.len() ==> !starts_with_closing_glue(#[trigger] y[k]),
    ensures
        segment_lines_spec(content, cfg) == seg_paragraphs(x, cfg) + seg_paragraphs(y, cfg),
{
    lemma_blank_line_separates(x, b, y, cfg);
}

/// Executable segmenter state.
struct SegExec {
    out: Vec<Vec<char>>,
    cur: Vec<char>,
    depth: i128,
    pend: bool,
}

impl View for SegExec {
    type V = SegState;

    closed spec fn view(&self) -> SegState {
        SegState { out: views(self.out@), cur: self.cur@, depth: self.depth as int, pend: self.pend }
    }
}

impl SegExec {
    fn flush(&mut self)
        requires
            seg_wf(old(self)@),
        ensures
            final(self)@ == seg_flush(old(self)@),
            seg_wf(final(self)@),
    {
        if self.cur.len() > 0 {
            let mut c: Vec<char> = Vec::new();
            std::mem::swap(&mut c, &mut self.cur);
            let ghost before = views(self.out@);
            self.out.push(c);
            assert(views(self.out@) =~= before.push(c@));
            self.depth = 0;
        }
        self.pend = false;
        assert(self@.cur =~= seg_flush(old(self)@).cur);
    }

    fn add(&mut self, c: char)
        requires
            seg_wf(old(self)@),
        ensures
            final(self)@ == seg_add(old(self)@, c),
            seg_wf(final(self)@),
    {
        self.cur.push(c);
        let n = self.cur.len();
        assert(n as int == self.cur@.len());
        if is_open_quote(c) {
            self.depth = self.depth + 1;
        } else if is_close_quote(c) {
            self.depth = self.depth - 1;
        }
    }

    fn push_para(&mut self, t: Vec<char>)
        ensures
            final(self)@ == seg_push(old(self)@, t@),
    {
        let ghost before = views(self.out@);
        self.out.push(t);
        assert(views(self.out@) =~= before.push(t@));
    }

    /// Appends `t` to the last finished paragraph.
    fn append_to_last(&mut self, t: &Vec<char>)
        requires
            old(self).out@.len() > 0,
        ensures
            final(self)@ == (SegState {
                out: old(self)@.out.update(
                    old(self)@.out.len() - 1,
                    old(self)@.out.last() + t@,
                ),
                cur: old(self)@.cur,
                depth: old(self)@.depth,
                pend: old(self)@.pend,
            }),
    {
        let ghost before = views(self.out@);
        let mut last = self.out.pop().unwrap();
        push_all(&mut last, t.as_slice());
        self.out.push(last);
        assert(views(self.out@) =~= before.update(before.len() - 1, before.last() + t@));
    }
}

/// Runs the segmenter over the characters of one (trimmed) line.
fn seg_chars_exec(
    st: &mut SegExec,
    t: &Vec<char>,
    config: &SmartSegConfig,
    merge: bool,
)
    requires
        seg_wf(old(st)@),
    ensures
        seg_wf(final(st)@),
        final(st)@ == seg_chars(old(st)@, t@, 0, config@, merge),
{
    let n = t.len();
    let threshold = config.threshold;
    let limit = hard_limit(threshold);
    let ghost target = seg_chars(st@, t@, 0, config@, merge);
    let mut k: usize = 0;
    while k < n
        invariant
            k <= n == t@.len(),
            threshold == config.threshold,
            limit as int == spec_hard_limit(threshold as int),
            seg_wf(st@),
            seg_chars(st@, t@, k as int, config@, merge) == target,
        decreases n - k,
    {
        let ghost s0 = st@;
        let ch = t[k];
        st.add(ch);
        k = k + 1;
        let count = st.cur.len();
        if count <= threshold || merge {
        } else if !(config.quote_unclosed && st.depth > 0) && is_terminal_punct(ch) {
            let ghost k1 = k as int;
            let ghost s1 = st@;
            let mut j = k;
            while j < n && (is_closing_glue(t[j]) || is_terminal_punct(t[j]))
                invariant
                    k <= j <= n == t@.len(),
                    run_end_tg(t@, k as int) == run_end_tg(t@, j as int),
                decreases n - j,
            {
                j = j + 1;
            }
            while k < j
                invariant
                    k1 <= k <= j <= n == t@.len(),
                    j == run_end_tg(t@, k1),
                    seg_wf(st@),
                    seg_add_run(st@, t@, k as int, j as int) == seg_add_run(s1, t@, k1, j as int),
                decreases j - k,
            {
                st.add(t[k]);
                k = k + 1;
            }
            let cl = st.cur.len();
            if k == n && cl > 0 && st.cur[cl - 1] == '…' {
                st.pend = true;
            } else {
                st.flush();
            }
        } else if count >= limit {
            if is_secondary_punct(ch) {
                let ghost k1 = k as int;
                let ghost s1 = st@;
                let mut j = k;
                while j < n && is_closing_glue(t[j])
                    invariant
                        k <= j <= n == t@.len(),
                        run_end_g(t@, k as int) == run_end_g(t@, j as int),
                    decreases n - j,
                {
                    j = j + 1;
                }
                while k < j
                    invariant
                        k1 <= k <= j <= n == t@.len(),
                        j == run_end_g(t@, k1),
                        seg_wf(st@),
                        seg_add_run(st@, t@, k as int, j as int) == seg_add_run(
                            s1,
                            t@,
                            k1,
                            j as int,
                        ),
                    decreases j - k,
                {
                    st.add(t[k]);
                    k = k + 1;
                }
                st.flush();
            } else {
                let cl = st.cur.len();
                match find_last_secondary(st.cur.as_slice(), 0, cl, threshold) {
                    Some(p) => {
                        proof {
                            assert(st.cur@.subrange(0, cl as int) =~= st.cur@);
                            lemma_last_secondary_in(st.cur@, threshold as int, cl as int);
                        }
                        let head = slice_range(st.cur.as_slice(), 0, p + 1);
                        let tail = slice_range(st.cur.as_slice(), p + 1, cl);
                        let d = recount_quote_depth(st.cur.as_slice(), p + 1, cl);
                        proof {
                            lemma_quote_depth_bound(tail@);
                        }
                        st.push_para(head);
                        st.cur = tail;
                        st.depth = d;
                    },
                    None => {
                        proof {
                            assert(st.cur@.subrange(0, cl as int) =~= st.cur@);
                        }
                        st.flush();
                    },
                }
            }
        }
    }
}

/// TXT: joins the line stream into paragraphs.
pub fn segment_lines(content: &str, config: &SmartSegConfig) -> (r: Vec<String>)
    ensures
        crate::text::string_views(r@) == segment_lines_spec(content@, config@),
        parts_nonempty(crate::text::string_views(r@)),
        (forall|i: int| 0 <= i < content@.len() ==> content@[i] != '\n') ==> concat(
            crate::text::string_views(r@),
        ) == trim(content@),
{
    proof {
        lemma_segment_lines_nonempty(content@, config@);
        if forall|i: int| 0 <= i < content@.len() ==> content@[i] != '\n' {
            lemma_segment_line_keeps_text(content@, config@);
        }
    }
    let chars = chars_of(content);
    let ls = split_lines(chars.as_slice());
    let chapter_re = match CompiledPattern::compile(CHAPTER_MARKER_PATTERN) {
        Ok(p) => Some(p),
        Err(_) => None,
    };
    let mut st = SegExec { out: Vec::new(), cur: Vec::new(), depth: 0, pend: false };
    let ghost lsv = lines(content@);
    let ghost target = seg_lines(seg_init(), lsv, 0, config@);
    assert(views(st.out@) =~= Seq::<Seq<char>>::empty());
    assert(st.cur@ =~= Seq::<char>::empty());
    assert(st@ == seg_init());
    let mut i: usize = 0;
    while i < ls.len()
        invariant
            i <= ls@.len(),
            views(ls@) == lsv,
            chapter_re is Some <==> regex_valid(CHAPTER_MARKER_PATTERN@),
            chapter_re matches Some(p) ==> p.source() == CHAPTER_MARKER_PATTERN@,
            seg_wf(st@),
            seg_lines(st@, lsv, i as int, config@) == target,
        decreases ls@.len() - i,
    {
        let line = &ls[i];
        assert(lsv[i as int] == line@);
        let (a, b) = trim_bounds(line.as_slice(), 0, line.len());
        proof {
            assert(line@.subrange(0, line@.len() as int) =~= line@);
        }
        let t = slice_range(line.as_slice(), a, b);
        let ghost s0 = st@;
        if t.len() == 0 {
            st.flush();
        } else {
            let ts = string_from_chars(t.as_slice());
            if st.pend {
                if t[0] != '…' {
                    st.flush();
                } else {
                    st.pend = false;
                }
            }
            let indep = any_match(&config.user_independent, ts.as_str());
            if indep || any_match(&config.user_break_before, ts.as_str()) {
                st.flush();
            }
            if indep {
                st.push_para(t);
            } else {
                let chapter = match &chapter_re {
                    Some(p) => p.is_match(ts.as_str()),
                    None => false,
                };
                let tn = t.len();
                proof {
                    assert(t@.subrange(0, tn as int) =~= t@);
                }
                if (config.chapter_title && chapter) || (config.scene_sep
                    && scene_separator_chars(t.as_slice(), 0, tn)) {
                    st.flush();
                    st.push_para(t);
                } else if config.short_poem && tn < 20 {
                    st.flush();
                    st.push_para(t);
                } else if st.cur.len() > 0 && st.out.len() > 0 && is_closing_glue(t[0]) {
                    st.append_to_last(&t);
                } else {
                    let merge = any_match(&config.user_merge, ts.as_str());
                    seg_chars_exec(&mut st, &t, config, merge);
                    if any_match(&config.user_break_after, ts.as_str()) {
                        st.flush();
                    }
                }
            }
        }
        assert(st@ == seg_line(s0, lsv[i as int], config@));
        i = i + 1;
    }
    st.flush();
    crate::text::strings_from(&st.out)
}

// ───────────────────────── EPUB: one paragraph → character ranges ─────────────────────────

/// Range splitter state: finished ranges, start of the open range, its quote depth.
pub struct RangeState {
    pub out: Seq<(int, int)>,
    pub start: int,
    pub depth: int,
}

/// Closes the open range at `end`; the next one starts there.
pub open spec fn rs_cut(s: RangeState, end: int, depth: int) -> RangeState {
    RangeState { out: s.out.push((s.start, end)), start: end, depth }
}

/// Feeds the characters `c[k..]` to the range splitter.
pub open spec fn pr_chars(s: RangeState, c: Seq<char>, k: int, cfg: SegCfg) -> RangeState
    decreases c.len() - k,
{
    if k < 0 || k >= c.len() {
        s
    } else {
        let ch = c[k];
        let d1 = s.depth + quote_delta(ch);
        let k1 = k + 1;
        let count = k1 - s.start;
        if count <= cfg.threshold {
            pr_chars(RangeState { out: s.out, start: s.start, depth: d1 }, c, k1, cfg)
        } else if !(cfg.quote_unclosed && d1 > 0) && spec_is_terminal_punct(ch) {
            let j = run_end_tg(c, k1);
            proof {
                lemma_run_end_tg(c, k1);
            }
            pr_chars(rs_cut(s, j, 0), c, j, cfg)
        } else if count >= spec_hard_limit(cfg.threshold) {
            if spec_is_secondary_punct(ch) {
                let j = run_end_g(c, k1);
                proof {
                    lemma_run_end_g(c, k1);
                }
                pr_chars(rs_cut(s, j, 0), c, j, cfg)
            } else {
                match last_secondary_from(c.subrange(s.start, k1), cfg.threshold) {
                    Some(p) => {
                        let cut = s.start + p + 1;
                        pr_chars(rs_cut(s, cut, quote_depth(c.subrange(cut, k1))), c, k1, cfg)
                    },
                    None => pr_chars(rs_cut(s, k1, 0), c, k1, cfg),
                }
            }
        } else {
            pr_chars(RangeState { out: s.out, start: s.start, depth: d1 }, c, k1, cfg)
        }
    }
}

/// The ranges `split_paragraph_ranges` makes of a paragraph with characters `c`.
pub open spec fn split_paragraph_ranges_spec(c: Seq<char>, cfg: SegCfg) -> Seq<(int, int)> {
    let total = c.len() as int;
    if total == 0 {
        seq![(0, 0)]
    } else if spec_any_match(cfg.merge, c) || total <= cfg.threshold {
        seq![(0, total)]
    } else {
        let f = pr_chars(RangeState { out: Seq::empty(), start: 0, depth: 0 }, c, 0, cfg);
        let o = if f.start < total {
            f.out.push((f.start, total))
        } else {
            f.out
        };
        if o.len() == 0 {
            seq![(0, total)]
        } else {
            o
        }
    }
}

/// EPUB: cuts one plain-text paragraph into character ranges with the same
/// rules as `segment_lines` (no line structure, so no cross-line ellipsis).
pub fn split_paragraph_ranges(text: &str, config: &SmartSegConfig) -> (r: Vec<(usize, usize)>)
    ensures
        rview(r@) == split_paragraph_ranges_spec(text@, config@),
{
    let chars = chars_of(text);
    let total = chars.len();
    if total == 0 {
        let r = vec![(0usize, 0usize)];
        assert(rview(r@) =~= seq![(0int, 0int)]);
        return r;
    }
    let block_merge = any_match(&config.user_merge, text);
    if block_merge || total <= config.threshold {
        let r = vec![(0usize, total)];
        assert(rview(r@) =~= seq![(0int, total as int)]);
        return r;
    }
    let threshold = config.threshold;
    let limit = hard_limit(threshold);
    let ghost c = chars@;
    let ghost target = pr_chars(RangeState { out: Seq::empty(), start: 0, depth: 0 }, c, 0, config@);
    let mut out: Vec<(usize, usize)> = Vec::new();
    let mut start: usize = 0;
    let mut depth: i128 = 0;
    let mut k: usize = 0;
    assert(rview(out@) =~= Seq::<(int, int)>::empty());
    while k < total
        invariant
            start <= k <= total == c.len(),
            c == chars@,
            threshold == config.threshold,
            limit as int == spec_hard_limit(threshold as int),
            -(k - start) <= depth <= k - start,
            pr_chars(RangeState { out: rview(out@), start: start as int, depth: depth as int }, c, k as int, config@) == target,
        decreases total - k,
    {
        let ch = chars[k];
        proof {
            assert(rview(out@.push((start, k))) =~= rview(out@).push((start as int, k as int)));
        }
        if is_open_quote(ch) {
            depth = depth + 1;
        } else if is_close_quote(ch) {
            depth = depth - 1;
        }
        k = k + 1;
        let count = k - start;
        if count <= threshold {
        } else if !(config.quote_unclosed && depth > 0) && is_terminal_punct(ch) {
            let mut j = k;
            while j < total && (is_closing_glue(chars[j]) || is_terminal_punct(chars[j]))
                invariant
                    k <= j <= total == chars@.len(),
                    run_end_tg(chars@, k as int) == run_end_tg(chars@, j as int),
                decreases total - j,
            {
                j = j + 1;
            }
            let ghost o = rview(out@);
            out.push((start, j));
            assert(rview(out@) =~= o.push((start as int, j as int)));
            start = j;
            k = j;
            depth = 0;
        } else if count >= limit {
            if is_secondary_punct(ch) {
                let mut j = k;
                while j < total && is_closing_glue(chars[j])
                    invariant
                        k <= j <= total == chars@.len(),
                        run_end_g(chars@, k as int) == run_end_g(chars@, j as int),
                    decreases total - j,
                {
                    j = j + 1;
                }
                let ghost o = rview(out@);
                out.push((start, j));
                assert(rview(out@) =~= o.push((start as int, j as int)));
                start = j;
                k = j;
                depth = 0;
            } else {
                match find_last_secondary(chars.as_slice(), start, k, threshold) {
                    Some(p) => {
                        proof {
                            lemma_last_secondary_in(
                                chars@.subrange(start as int, k as int),
                                threshold as int,
                                (k - start) as int,
                            );
                        }
                        let cut = start + p + 1;
                        let d = recount_quote_depth(chars.as_slice(), cut, k);
                        proof {
                            lemma_quote_depth_bound(chars@.subrange(cut as int, k as int));
                        }
                        let ghost o = rview(out@);
                        out.push((start, cut));
                        assert(rview(out@) =~= o.push((start as int, cut as int)));
                        start = cut;
                        depth = d;
                    },
                    None => {
                        let ghost o = rview(out@);
                        out.push((start, k));
                        assert(rview(out@) =~= o.push((start as int, k as int)));
                        start = k;
                        depth = 0;
                    },
                }
            }
        }
    }
    if start < total {
        let ghost o = rview(out@);
        out.push((start, total));
        assert(rview(out@) =~= o.push((start as int, total as int)));
    }
    if out.len() == 0 {
        out.push((0, total));
        assert(rview(out@) =~= seq![(0int, total as int)]);
    }
    out
}

pub open spec fn rs_inv(s: RangeState, k: int) -> bool {
    &&& 0 <= s.start <= k
    &&& s.out.len() == 0 ==> s.start == 0
    &&& s.out.len() > 0 ==> s.out[0].0 == 0 && s.out.last().1 == s.start
    &&& forall|i: int| 0 <= i < s.out.len() - 1 ==> #[trigger] s.out[i].1 == s.out[i + 1].0
    &&& ranges_nonempty(s.out)
}

proof fn lemma_rs_cut(s: RangeState, end: int, d: int)
    requires
        rs_inv(s, s.start),
        s.start < end,
    ensures
        rs_inv(rs_cut(s, end, d), end),
{
    let t = rs_cut(s, end, d);
    assert forall|i: int| 0 <= i < t.out.len() - 1 implies #[trigger] t.out[i].1 == t.out[i + 1].0 by {
        if i < s.out.len() - 1 {
            assert(t.out[i] == s.out[i] && t.out[i + 1] == s.out[i + 1]);
        } else {
            assert(t.out[i] == s.out.last());
        }
    }
    assert forall|i: int| 0 <= i < t.out.len() implies #[trigger] t.out[i].0 < t.out[i].1 by {
        if i < s.out.len() {
            assert(t.out[i] == s.out[i]);
        }
    }
}

proof fn lemma_pr_chars_inv(s: RangeState, c: Seq<char>, k: int, cfg: SegCfg)
    requires
        0 <= k <= c.len(),
        rs_inv(s, k),
        cfg.threshold >= 0,
    ensures
        rs_inv(pr_chars(s, c, k, cfg), c.len() as int),
    decreases c.len() - k,
{
    if k < c.len() {
        let ch = c[k];
        let d1 = s.depth + quote_delta(ch);
        let k1 = k + 1;
        let count = k1 - s.start;
        if count <= cfg.threshold {
            lemma_pr_chars_inv(RangeState { out: s.out, start: s.start, depth: d1 }, c, k1, cfg);
        } else if !(cfg.quote_unclosed && d1 > 0) && spec_is_terminal_punct(ch) {
            let j = run_end_tg(c, k1);
            lemma_run_end_tg(c, k1);
            lemma_rs_cut(s, j, 0);
            lemma_pr_chars_inv(rs_cut(s, j, 0), c, j, cfg);
        } else if count >= spec_hard_limit(cfg.threshold) {
            if spec_is_secondary_punct(ch) {
                let j = run_end_g(c, k1);
                lemma_run_end_g(c, k1);
                lemma_rs_cut(s, j, 0);
                lemma_pr_chars_inv(rs_cut(s, j, 0), c, j, cfg);
            } else {
                let piece = c.subrange(s.start, k1);
                lemma_last_secondary_in(piece, cfg.threshold, piece.len() as int);
                match last_secondary_from(piece, cfg.threshold) {
                    Some(p) => {
                        let cut = s.start + p + 1;
                        let d = quote_depth(c.subrange(cut, k1));
                        lemma_rs_cut(s, cut, d);
                        lemma_pr_chars_inv(rs_cut(s, cut, d), c, k1, cfg);
                    },
                    None => {
                        lemma_rs_cut(s, k1, 0);
                        lemma_pr_chars_inv(rs_cut(s, k1, 0), c, k1, cfg);
                    },
                }
            }
        } else {
            lemma_pr_chars_inv(RangeState { out: s.out, start: s.start, depth: d1 }, c, k1, cfg);
        }
    }
}

/// The ranges of `split_paragraph_ranges` start at 0, follow one another without gap
/// or overlap, cover the whole paragraph, and (for a non-empty paragraph) are never
/// empty.
pub proof fn lemma_split_paragraph_ranges_cover(c: Seq<char>, cfg: SegCfg)
    requires
        cfg.threshold >= 0,
    ensures
        ranges_cover(split_paragraph_ranges_spec(c, cfg), c.len() as int),
        c.len() > 0 ==> ranges_nonempty(split_paragraph_ranges_spec(c, cfg)),
{
    let total = c.len() as int;
    if total == 0 || spec_any_match(cfg.merge, c) || total <= cfg.threshold {
    } else {
        let s0 = RangeState { out: Seq::empty(), start: 0, depth: 0 };
        lemma_pr_chars_inv(s0, c, 0, cfg);
        let f = pr_chars(s0, c, 0, cfg);
        if f.start < total {
            let o = f.out.push((f.start, total));
            assert forall|i: int| 0 <= i < o.len() - 1 implies #[trigger] o[i].1 == o[i + 1].0 by {
                if i < f.out.len() - 1 {
                    assert(o[i] == f.out[i] && o[i + 1] == f.out[i + 1]);
                } else {
                    assert(o[i] == f.out.last());
                }
            }
            assert forall|i: int| 0 <= i < o.len() implies #[trigger] o[i].0 < o[i].1 by {
                if i < f.out.len() {
                    assert(o[i] == f.out[i]);
                }
            }
            assert forall|i: int| 0 <= i < o.len() implies #[trigger] o[i].0 <= o[i].1 by {
                if i < f.out.len() {
                    assert(o[i] == f.out[i]);
                }
            }
        } else if f.out.len() > 0 {
            assert forall|i: int| 0 <= i < f.out.len() implies #[trigger] f.out[i].0 <= f.out[i].1 by {
            }
        }
    }
}

/// A cut at `b` falls between the two characters of `……`.
pub open spec fn cuts_ellipsis(c: Seq<char>, b: int) -> bool {
    0 < b < c.len() && c[b - 1] == '…' && c[b] == '…'
}

proof fn lemma_run_end_tg_stop(t: Seq<char>, k: int)
    requires
        0 <= k,
    ensures
        run_end_tg(t, k) < t.len() ==> !(spec_is_closing_glue(t[run_end_tg(t, k)])
            || spec_is_terminal_punct(t[run_end_tg(t, k)])),
    decreases t.len() - k,
{
    if 0 <= k < t.len() && (spec_is_closing_glue(t[k]) || spec_is_terminal_punct(t[k])) {
        lemma_run_end_tg_stop(t, k + 1);
    }
}

proof fn lemma_run_end_g_last(t: Seq<char>, k: int)
    requires
        0 <= k,
    ensures
        run_end_g(t, k) == k || (k < run_end_g(t, k) <= t.len() && spec_is_closing_glue(
            t[run_end_g(t, k) - 1],
        )),
    decreases t.len() - k,
{
    if 0 <= k < t.len() && spec_is_closing_glue(t[k]) {
        lemma_run_end_g_last(t, k + 1);
    }
}

proof fn lemma_last_secondary_is(buf: Seq<char>, from: int, i: int)
    ensures
        last_secondary_in(buf, from, i) matches Some(p) ==> spec_is_secondary_punct(buf[p]),
    decreases i - from,
{
    if i > from && !spec_is_secondary_punct(buf[i - 1]) {
        lemma_last_secondary_is(buf, from, i - 1);
    }
}

/// Every cut the range splitter makes inside `……` comes from a configuration that
/// holds back cuts inside unclosed quotes.
proof fn lemma_pr_chars_ellipsis(s: RangeState, c: Seq<char>, k: int, cfg: SegCfg)
    requires
        0 <= s.start <= k <= c.len(),
        cfg.threshold >= 0,
        forall|i: int| 0 <= i < s.out.len() && cuts_ellipsis(c, #[trigger] s.out[i].1) ==> cfg.quote_unclosed,
    ensures
        forall|i: int|
            0 <= i < pr_chars(s, c, k, cfg).out.len() && cuts_ellipsis(
                c,
                #[trigger] pr_chars(s, c, k, cfg).out[i].1,
            ) ==> cfg.quote_unclosed,
    decreases c.len() - k,
{
    if k < c.len() {
        let ch = c[k];
        let d1 = s.depth + quote_delta(ch);
        let k1 = k + 1;
        let count = k1 - s.start;
        if count <= cfg.threshold {
            lemma_pr_chars_ellipsis(RangeState { out: s.out, start: s.start, depth: d1 }, c, k1, cfg);
            assert(pr_chars(s, c, k, cfg) == pr_chars(
                RangeState { out: s.out, start: s.start, depth: d1 },
                c,
                k1,
                cfg,
            ));
        } else if !(cfg.quote_unclosed && d1 > 0) && spec_is_terminal_punct(ch) {
            let j = run_end_tg(c, k1);
            lemma_run_end_tg(c, k1);
            lemma_run_end_tg_stop(c, k1);
            let t = rs_cut(s, j, 0);
            assert forall|i: int| 0 <= i < t.out.len() && cuts_ellipsis(c, #[trigger] t.out[i].1) implies cfg.quote_unclosed by {
                if i < s.out.len() {
                    assert(t.out[i] == s.out[i]);
                }
            }
            lemma_pr_chars_ellipsis(t, c, j, cfg);
            assert(pr_chars(s, c, k, cfg) == pr_chars(t, c, j, cfg));
        } else if count >= spec_hard_limit(cfg.threshold) {
            if spec_is_secondary_punct(ch) {
                let j = run_end_g(c, k1);
                lemma_run_end_g(c, k1);
                lemma_run_end_g_last(c, k1);
                let t = rs_cut(s, j, 0);
                assert forall|i: int| 0 <= i < t.out.len() && cuts_ellipsis(c, #[trigger] t.out[i].1) implies cfg.quote_unclosed by {
                    if i < s.out.len() {
                        assert(t.out[i] == s.out[i]);
                    }
                }
                lemma_pr_chars_ellipsis(t, c, j, cfg);
                assert(pr_chars(s, c, k, cfg) == pr_chars(t, c, j, cfg));
            } else {
                let piece = c.subrange(s.start, k1);
                lemma_last_secondary_in(piece, cfg.threshold, piece.len() as int);
                lemma_last_secondary_is(piece, cfg.threshold, piece.len() as int);
                match last_secondary_from(piece, cfg.threshold) {
                    Some(p) => {
                        let cut = s.start + p + 1;
                        let d = quote_depth(c.subrange(cut, k1));
                        assert(c[cut - 1] == piece[p]);
                        let t = rs_cut(s, cut, d);
                        assert forall|i: int| 0 <= i < t.out.len() && cuts_ellipsis(c, #[trigger] t.out[i].1) implies cfg.quote_unclosed by {
                            if i < s.out.len() {
                                assert(t.out[i] == s.out[i]);
                            }
                        }
                        lemma_pr_chars_ellipsis(t, c, k1, cfg);
                        assert(pr_chars(s, c, k, cfg) == pr_chars(t, c, k1, cfg));
                    },
                    None => {
                        let t = rs_cut(s, k1, 0);
                        assert forall|i: int| 0 <= i < t.out.len() && cuts_ellipsis(c, #[trigger] t.out[i].1) implies cfg.quote_unclosed by {
                            if i < s.out.len() {
                                assert(t.out[i] == s.out[i]);
                            } else {
                                assert(c[k1 - 1] == ch);
                            }
                        }
                        lemma_pr_chars_ellipsis(t, c, k1, cfg);
                        assert(pr_chars(s, c, k, cfg) == pr_chars(t, c, k1, cfg));
                    },
                }
            }
        } else {
            lemma_pr_chars_ellipsis(RangeState { out: s.out, start: s.start, depth: d1 }, c, k1, cfg);
            assert(pr_chars(s, c, k, cfg) == pr_chars(
                RangeState { out: s.out, start: s.start, depth: d1 },
                c,
                k1,
                cfg,
            ));
        }
    }
}

/// A cut of `split_paragraph_ranges` falls inside `……` only when the
/// configuration holds back cuts inside unclosed quotes (the hard length limit can
/// then force a cut right after a `…`); without that option `……` is never split.
pub proof fn lemma_split_paragraph_ranges_ellipsis(c: Seq<char>, cfg: SegCfg, i: int)
    requires
        cfg.threshold >= 0,
        0 < i < split_paragraph_ranges_spec(c, cfg).len(),
    ensures
        cuts_ellipsis(c, split_paragraph_ranges_spec(c, cfg)[i].0) ==> cfg.quote_unclosed,
{
    let total = c.len() as int;
    lemma_split_paragraph_ranges_cover(c, cfg);
    if total == 0 || spec_any_match(cfg.merge, c) || total <= cfg.threshold {
    } else {
        let s0 = RangeState { out: Seq::empty(), start: 0, depth: 0 };
        lemma_pr_chars_ellipsis(s0, c, 0, cfg);
        let f = pr_chars(s0, c, 0, cfg);
        let o = split_paragraph_ranges_spec(c, cfg);
        assert(o[i].0 == o[i - 1].1);
        assert(o[i - 1] == f.out[i - 1]);
    }
}

} // verus!
