//! Stage 1 of the reading pipeline: chapter content preprocessing.
//!
//! In order: removal of the chapter title at the start, paragraph re-segmentation, HTML tag
//! protection, replace rules (string and regex), HTML tag restoration.
use vstd::prelude::*;
use crate::text::{
    chars_of, string_from_chars, split_lines, lines, trim, trim_start, trim_end, trim_bounds,
    views, join, join_chars, push_all, replaced, replace_chars, is_ws, starts_with_char,
    ends_with_char,
};
use crate::paragraph_splitter::slice_range;
use crate::pattern::{
    CompiledPattern, regex_valid, regex_is_match, regex_matches, regex_gaps, regex_replace_all,
    regex_error_text, woven,
};
use crate::tag_protection::{no_infix, tag_marker, ph_map, lemma_tag_round_trip};
use crate::rule_run::RuleRun;
use crate::pipeline::copy_rules;
use crate::text::trim_end_len;
use crate::text_boundary::{char_start, lemma_char_start_step, lemma_char_start_mono, lemma_char_start_end, utf8_width};
use crate::hashing::{
    hasher_new, hash_str, hash_u8, hash_bool, hasher_finish, hasher_log, log_digest, str_item,
    u8_item, bool_item,
};
pub use crate::smart_segment::{SegmentAction, SegmentRuleKind, SegmentRule};

verus! {

/// Kind of a replace rule.
#[derive(Debug, Clone, Copy, PartialEq, Eq, Hash, Structural)]
pub enum RuleType {
    /// Plain string replacement.
    String,
    /// Regular-expression replacement.
    Regex,
    /// Script rule: `pattern` holds a script that receives the chapter text and
    /// returns the replaced text. This library has no script engine: such rules
    /// are skipped.
    Js,
}

impl Default for RuleType {
    fn default() -> (r: RuleType)
        ensures
            r == RuleType::String,
    {
        RuleType::String
    }
}

/// Number of a rule type (declaration index, as `rule_type as u8` gives it).
pub open spec fn rule_type_index(t: RuleType) -> u8 {
    match t {
        RuleType::String => 0,
        RuleType::Regex => 1,
        RuleType::Js => 2,
    }
}

fn rule_type_u8(t: RuleType) -> (r: u8)
    ensures
        r == rule_type_index(t),
{
    match t {
        RuleType::String => 0,
        RuleType::Regex => 1,
        RuleType::Js => 2,
    }
}

/// Replace rule: a string pattern, a regex pattern, or a script.
#[derive(Debug, Clone)]
pub struct ReplaceRule {
    pub pattern: String,
    pub replacement: String,
    pub rule_type: RuleType,
    pub timeout_ms: u64,
    pub enabled: bool,
}

impl ReplaceRule {
    /// An enabled string rule with the default timeout (1000 ms).
    pub fn string(pattern: &str, replacement: &str) -> (r: ReplaceRule)
        ensures
            r.pattern@ == pattern@,
            r.replacement@ == replacement@,
            r.rule_type == RuleType::String,
            r.timeout_ms == 1000,
            r.enabled,
    {
        ReplaceRule {
            pattern: pattern.to_string(),
            replacement: replacement.to_string(),
            rule_type: RuleType::String,
            timeout_ms: 1000,
            enabled: true,
        }
    }

    /// An enabled regex rule with the default timeout (1000 ms).
    pub fn regex(pattern: &str, replacement: &str) -> (r: ReplaceRule)
        ensures
            r.pattern@ == pattern@,
            r.replacement@ == replacement@,
            r.rule_type == RuleType::Regex,
            r.timeout_ms == 1000,
            r.enabled,
    {
        ReplaceRule {
            pattern: pattern.to_string(),
            replacement: replacement.to_string(),
            rule_type: RuleType::Regex,
            timeout_ms: 1000,
            enabled: true,
        }
    }

    /// An enabled script rule with an empty replacement and the default timeout.
    pub fn js(script: &str) -> (r: ReplaceRule)
        ensures
            r.pattern@ == script@,
            r.replacement@ == Seq::<char>::empty(),
            r.rule_type == RuleType::Js,
            r.timeout_ms == 1000,
            r.enabled,
    {
        ReplaceRule {
            pattern: script.to_string(),
            replacement: String::new(),
            rule_type: RuleType::Js,
            timeout_ms: 1000,
            enabled: true,
        }
    }
}

/// The values the replace-rule hash writes for a rule list, in order.
pub open spec fn replace_rules_log(rules: Seq<ReplaceRule>) -> Seq<Seq<int>>
    decreases rules.len(),
{
    if rules.len() == 0 {
        Seq::<Seq<int>>::empty()
    } else {
        let r = rules.last();
        replace_rules_log(rules.drop_last()).push(str_item(r.pattern@)).push(
            str_item(r.replacement@),
        ).push(u8_item(rule_type_index(r.rule_type))).push(bool_item(r.enabled))
    }
}

/// Hash of a replace-rule list: pattern, replacement, type and enabled flag of each.
pub fn replace_rules_hash(rules: &[ReplaceRule]) -> (h: u64)
    ensures
        h == log_digest(replace_rules_log(rules@)),
{
    let mut hasher = hasher_new();
    let mut i: usize = 0;
    while i < rules.len()
        invariant
            i <= rules@.len(),
            hasher_log(hasher) == replace_rules_log(rules@.take(i as int)),
        decreases rules@.len() - i,
    {
        proof {
            assert(rules@.take(i + 1).drop_last() =~= rules@.take(i as int));
            assert(rules@.take(i + 1).last() == rules@[i as int]);
        }
        let r = &rules[i];
        hash_str(&mut hasher, r.pattern.as_str());
        hash_str(&mut hasher, r.replacement.as_str());
        hash_u8(&mut hasher, rule_type_u8(r.rule_type));
        hash_bool(&mut hasher, r.enabled);
        i = i + 1;
    }
    proof {
        assert(rules@.take(rules@.len() as int) =~= rules@);
    }
    hasher_finish(&hasher)
}

/// Simplified/Traditional Chinese conversion direction.
#[derive(Debug, Clone, Copy, PartialEq, Eq, Structural)]
pub enum ChineseConvertType {
    /// Simplified to Traditional.
    S2T,
    /// Traditional to Simplified.
    T2S,
}

/// Options controlling content preprocessing.
#[derive(Debug, Clone)]
pub struct ProcessOptions {
    pub book_name: String,
    pub title: String,
    pub chapter_index: usize,
    pub remove_duplicate_title: bool,
    pub re_segment: bool,
    /// User segmentation rules (built-in and user rules share the model).
    pub segment_rules: Vec<SegmentRule>,
    pub chinese_convert: Option<ChineseConvertType>,
    pub adapt_special_style: bool,
    pub apply_user_markings: bool,
}

impl Default for ProcessOptions {
    fn default() -> (o: ProcessOptions)
        ensures
            o.book_name@ == Seq::<char>::empty(),
            o.title@ == Seq::<char>::empty(),
            o.chapter_index == 0,
            o.remove_duplicate_title,
            !o.re_segment,
            o.segment_rules@ == Seq::<SegmentRule>::empty(),
            o.chinese_convert is None,
            o.adapt_special_style,
            !o.apply_user_markings,
    {
        ProcessOptions {
            book_name: String::new(),
            title: String::new(),
            chapter_index: 0,
            remove_duplicate_title: true,
            re_segment: false,
            segment_rules: Vec::new(),
            chinese_convert: None,
            adapt_special_style: true,
            apply_user_markings: false,
        }
    }
}

/// Errors of content processing.
#[derive(Debug)]
pub enum ContentProcessError {
    /// A regex rule did not compile; the pattern and the compiler's message.
    RegexCompile(String),
    /// A rule ran out of time (milliseconds).
    RuleTimeout(u64),
    /// Processing was cancelled.
    Cancelled,
    /// The whole processing ran out of time.
    OverallTimeout,
}

// ───────────────────────── duplicate title removal ─────────────────────────

/// First index `>= i` whose trimmed line equals `t`, else `ls.len()`.
pub open spec fn first_title_line(ls: Seq<Seq<char>>, t: Seq<char>, i: int) -> int
    decreases ls.len() - i,
{
    if i < 0 || i >= ls.len() {
        ls.len() as int
    } else if trim(ls[i]) == t {
        i
    } else {
        first_title_line(ls, t, i + 1)
    }
}

/// First index `>= i` whose trimmed line is neither empty nor `t`, else `ls.len()`.
pub open spec fn first_body_line(ls: Seq<Seq<char>>, t: Seq<char>, i: int) -> int
    decreases ls.len() - i,
{
    if i < 0 || i >= ls.len() {
        ls.len() as int
    } else if trim(ls[i]).len() > 0 && trim(ls[i]) != t {
        i
    } else {
        first_body_line(ls, t, i + 1)
    }
}

/// The lines with the leading block of blank and title lines reduced to its first
/// title line (unchanged when that block holds no title line).
pub open spec fn dedup_title_lines(ls: Seq<Seq<char>>, t: Seq<char>) -> Seq<Seq<char>> {
    let k = first_body_line(ls, t, 0);
    let f = first_title_line(ls, t, 0);
    if f < k {
        seq![ls[f]] + ls.skip(k)
    } else {
        ls
    }
}

/// Result of duplicate title removal.
pub open spec fn without_duplicate_title(content: Seq<char>, title: Seq<char>) -> Seq<char> {
    let t = trim(title);
    if t.len() == 0 {
        content
    } else {
        join(dedup_title_lines(lines(content), t), seq!['\n'])
    }
}

proof fn lemma_first_lines(ls: Seq<Seq<char>>, t: Seq<char>, i: int)
    requires
        0 <= i <= ls.len(),
    ensures
        i <= first_title_line(ls, t, i) <= ls.len(),
        i <= first_body_line(ls, t, i) <= ls.len(),
    decreases ls.len() - i,
{
    if i < ls.len() {
        lemma_first_lines(ls, t, i + 1);
    }
}

fn chars_eq(a: &[char], b: &[char]) -> (r: bool)
    ensures
        r == (a@ == b@),
{
    if a.len() != b.len() {
        return false;
    }
    let mut i: usize = 0;
    while i < a.len()
        invariant
            i <= a@.len(),
            a@.len() == b@.len(),
            forall|j: int| 0 <= j < i ==> a@[j] == b@[j],
        decreases a@.len() - i,
    {
        if a[i] != b[i] {
            return false;
        }
        i = i + 1;
    }
    proof {
        assert(a@ =~= b@);
    }
    true
}

fn copy_chars(s: &[char]) -> (r: Vec<char>)
    ensures
        r@ == s@,
{
    let mut r: Vec<char> = Vec::new();
    push_all(&mut r, s);
    r
}

fn trimmed(s: &[char]) -> (r: Vec<char>)
    ensures
        r@ == trim(s@),
{
    let (a, b) = trim_bounds(s, 0, s.len());
    proof {
        assert(s@.subrange(0, s@.len() as int) =~= s@);
    }
    slice_range(s, a, b)
}

/// Bounds of the leading block of blank and title lines of `ls`: its first title
/// line (`ls.len()` when it holds none) and the first line after it.
fn title_block(ls: &Vec<Vec<char>>, t: &Vec<char>) -> (r: (usize, usize))
    ensures
        r.1 as int == first_body_line(views(ls@), t@, 0),
        r.1 <= ls@.len(),
        r.0 <= ls@.len(),
        r.0 < ls@.len() ==> r.0 < r.1 && r.0 as int == first_title_line(views(ls@), t@, 0),
        r.0 == ls@.len() ==> first_title_line(views(ls@), t@, 0) >= r.1,
{
    let ghost lv = views(ls@);
    let n = ls.len();
    let mut f: usize = n;
    let mut i: usize = 0;
    let mut done = false;
    while i < n && !done
        invariant
            i <= n == ls@.len() == lv.len(),
            lv == views(ls@),
            first_body_line(lv, t@, 0) == first_body_line(lv, t@, i as int),
            f <= n,
            f < n ==> f < i && f as int == first_title_line(lv, t@, 0),
            f == n ==> first_title_line(lv, t@, 0) == first_title_line(lv, t@, i as int),
            done ==> i < n && first_body_line(lv, t@, i as int) == i,
        decreases n - i, if done { 0int } else { 1int },
    {
        let lt = trimmed(ls[i].as_slice());
        assert(lv[i as int] == ls@[i as int]@);
        if chars_eq(lt.as_slice(), t.as_slice()) {
            if f == n {
                f = i;
            }
            i = i + 1;
        } else if lt.len() != 0 {
            done = true;
        } else {
            i = i + 1;
        }
    }
    let k = i;
    proof {
        lemma_first_lines(lv, t@, 0);
        lemma_first_lines(lv, t@, k as int);
        if f < n {
            assert(f < k);
        } else {
            if k < n {
                assert(first_title_line(lv, t@, k as int) >= k);
            }
        }
    }
    assert(k as int == first_body_line(lv, t@, 0));
    (f, k)
}

/// Removes a duplicated chapter title from the start of the content.
///
/// The leading lines that are blank or equal (trimmed) to the trimmed title are
/// scanned; the first title line is kept, the other title lines and the blank
/// lines of that block are dropped. Lines are rejoined with `\n`. The chapter
/// processing of `ContentPreprocessor::process` uses `remove_title_block`, which
/// keeps no copy of the title.
pub fn remove_duplicate_title(content: &str, title: &str) -> (r: String)
    ensures
        r@ == without_duplicate_title(content@, title@),
{
    let tv = chars_of(title);
    let t = trimmed(tv.as_slice());
    if t.len() == 0 {
        return content.to_owned();
    }
    let cv = chars_of(content);
    let ls = split_lines(cv.as_slice());
    let ghost lv = views(ls@);
    let n = ls.len();
    let (f, k) = title_block(&ls, &t);
    let mut out: Vec<Vec<char>> = Vec::new();
    if f < k {
        out.push(copy_chars(ls[f].as_slice()));
        proof {
            assert(lv[f as int] == ls@[f as int]@);
            assert(views(out@) =~= seq![lv[f as int]] + lv.subrange(k as int, k as int));
        }
        let mut j = k;
        while j < n
            invariant
                k <= j <= n == ls@.len(),
                f < n,
                lv == views(ls@),
                views(out@) == seq![lv[f as int]] + lv.subrange(k as int, j as int),
            decreases n - j,
        {
            let ghost o0 = out@;
            out.push(copy_chars(ls[j].as_slice()));
            proof {
                assert(lv[j as int] == ls@[j as int]@);
                assert(views(out@) =~= views(o0).push(lv[j as int]));
                assert(views(out@) =~= seq![lv[f as int]] + lv.subrange(k as int, j + 1));
            }
            j = j + 1;
        }
        proof {
            assert(lv.subrange(k as int, n as int) =~= lv.skip(k as int));
            assert(dedup_title_lines(lv, t@) == seq![lv[f as int]] + lv.skip(k as int));
        }
    } else {
        assert(first_title_line(lv, t@, 0) >= k);
        assert(dedup_title_lines(lv, t@) == lv);
        let mut j: usize = 0;
        while j < n
            invariant
                j <= n == ls@.len(),
                lv == views(ls@),
                views(out@) == lv.take(j as int),
            decreases n - j,
        {
            let ghost o0 = out@;
            out.push(copy_chars(ls[j].as_slice()));
            proof {
                assert(lv[j as int] == ls@[j as int]@);
                assert(views(out@) =~= views(o0).push(lv[j as int]));
                assert(views(out@) =~= lv.take(j + 1));
            }
            j = j + 1;
        }
        proof {
            assert(lv.take(n as int) =~= lv);
        }
    }
    let nl = vec!['\n'];
    assert(nl@ =~= seq!['\n']);
    let joined = join_chars(&out, nl.as_slice());
    proof {
        assert(views(out@) == dedup_title_lines(lv, t@));
        assert(lv == lines(content@));
    }
    string_from_chars(joined.as_slice())
}

/// The lines without their leading block of blank and title lines, when that
/// block holds a title line (unchanged when it holds none).
pub open spec fn strip_title_lines(ls: Seq<Seq<char>>, t: Seq<char>) -> Seq<Seq<char>> {
    let k = first_body_line(ls, t, 0);
    if first_title_line(ls, t, 0) < k {
        ls.skip(k)
    } else {
        ls
    }
}

/// The content without the chapter title at its start: no copy of the title is
/// left in the leading block.
pub open spec fn without_title_block(content: Seq<char>, title: Seq<char>) -> Seq<char> {
    let t = trim(title);
    if t.len() == 0 {
        content
    } else {
        join(strip_title_lines(lines(content), t), seq!['\n'])
    }
}

/// After the title block is stripped, no title line stands before the first body
/// line, and the lines from the first body line on are those of the input.
pub proof fn lemma_title_block_gone(ls: Seq<Seq<char>>, t: Seq<char>)
    ensures
        first_title_line(strip_title_lines(ls, t), t, 0) >= first_body_line(strip_title_lines(ls, t), t, 0),
        strip_title_lines(ls, t).skip(first_body_line(strip_title_lines(ls, t), t, 0)) == ls.skip(
            first_body_line(ls, t, 0),
        ),
{
    lemma_first_lines(ls, t, 0);
    let k = first_body_line(ls, t, 0);
    let r = strip_title_lines(ls, t);
    if first_title_line(ls, t, 0) < k {
        lemma_first_lines(r, t, 0);
        if k < ls.len() {
            lemma_first_body_is_body(ls, t, 0);
            assert(r[0] == ls[k]);
            assert(first_body_line(r, t, 0) == 0);
        } else {
            assert(r.len() == 0);
        }
        assert(r.skip(0) =~= r);
    }
}

proof fn lemma_first_body_is_body(ls: Seq<Seq<char>>, t: Seq<char>, i: int)
    requires
        0 <= i <= ls.len(),
        first_body_line(ls, t, i) < ls.len(),
    ensures
        trim(ls[first_body_line(ls, t, i)]).len() > 0 && trim(ls[first_body_line(ls, t, i)]) != t,
    decreases ls.len() - i,
{
    if i < ls.len() && !(trim(ls[i]).len() > 0 && trim(ls[i]) != t) {
        lemma_first_body_is_body(ls, t, i + 1);
    }
}

/// Removes the chapter title from the start of the content: the leading lines
/// that are blank or equal (trimmed) to the trimmed title are all dropped when at
/// least one of them is a title line; otherwise the content keeps all its lines.
/// Lines are rejoined with `\n`.
pub fn remove_title_block(content: &str, title: &str) -> (r: String)
    ensures
        r@ == without_title_block(content@, title@),
{
    let tv = chars_of(title);
    let t = trimmed(tv.as_slice());
    if t.len() == 0 {
        return content.to_owned();
    }
    let cv = chars_of(content);
    let ls = split_lines(cv.as_slice());
    let ghost lv = views(ls@);
    let n = ls.len();
    let (f, k) = title_block(&ls, &t);
    let from: usize = if f < k { k } else { 0 };
    proof {
        assert(strip_title_lines(lv, t@) == lv.skip(from as int)) by {
            if f >= k {
                assert(lv.skip(0) =~= lv);
            }
        }
    }
    let mut out: Vec<Vec<char>> = Vec::new();
    let mut j = from;
    while j < n
        invariant
            from <= j <= n == ls@.len(),
            lv == views(ls@),
            views(out@) == lv.subrange(from as int, j as int),
        decreases n - j,
    {
        let ghost o0 = out@;
        out.push(copy_chars(ls[j].as_slice()));
        proof {
            assert(lv[j as int] == ls@[j as int]@);
            assert(views(out@) =~= views(o0).push(lv[j as int]));
            assert(views(out@) =~= lv.subrange(from as int, j + 1));
        }
        j = j + 1;
    }
    proof {
        assert(lv.subrange(from as int, n as int) =~= lv.skip(from as int));
    }
    let nl = vec!['\n'];
    assert(nl@ =~= seq!['\n']);
    let joined = join_chars(&out, nl.as_slice());
    proof {
        assert(lv == lines(content@));
    }
    string_from_chars(joined.as_slice())
}

// ───────────────────────── re-segmentation: built-in predicates ─────────────────────────

/// Opening quotes counted by the unclosed-quote check (the ASCII `"` counts as opening).
pub open spec fn is_open_quote(c: char) -> bool {
    c == '\u{201C}' || c == '\u{300C}' || c == '\u{300E}' || c == '"'
}

pub open spec fn is_close_quote(c: char) -> bool {
    c == '\u{201D}' || c == '\u{300D}' || c == '\u{300F}'
}

/// Closing quotes a line may start or end with.
pub open spec fn is_closing_quote_mark(c: char) -> bool {
    c == '\u{201D}' || c == '\u{300D}' || c == '\u{300F}' || c == '"'
}

/// Number of characters of `s` satisfying the quote predicate (`open` selects which).
pub open spec fn quote_count(s: Seq<char>, open: bool) -> nat
    decreases s.len(),
{
    if s.len() == 0 {
        0
    } else {
        let hit = if open { is_open_quote(s.last()) } else { is_close_quote(s.last()) };
        quote_count(s.drop_last(), open) + if hit { 1nat } else { 0nat }
    }
}

/// The line opens more quotes than it closes.
pub open spec fn quote_unclosed(line: Seq<char>) -> bool {
    quote_count(line, true) > quote_count(line, false)
}

/// The line (leading whitespace ignored) starts with a closing quote.
pub open spec fn closing_quote_attach(line: Seq<char>) -> bool {
    let t = trim_start(line);
    t.len() > 0 && is_closing_quote_mark(t[0])
}

pub open spec fn is_continuation_mark(c: char) -> bool {
    c == '，' || c == '、' || c == '；' || c == '：' || c == ',' || c == ';' || c == ':' || c == '—'
        || c == '–' || c == '-'
}

/// The line (trailing whitespace ignored) ends with non-terminal punctuation.
pub open spec fn continuation_merge(line: Seq<char>) -> bool {
    let t = trim_end(line);
    t.len() > 0 && is_continuation_mark(t.last())
}

pub open spec fn is_strong_tone_mark(c: char) -> bool {
    c == '！' || c == '？' || c == '…' || c == '。' || c == '!' || c == '?' || c == '.'
}

/// The line (trailing whitespace ignored) ends with strong terminal punctuation.
pub open spec fn strong_tone(line: Seq<char>) -> bool {
    let t = trim_end(line);
    t.len() > 0 && is_strong_tone_mark(t.last())
}

/// The line ends a dialogue: a closing quote, possibly followed by ！？…。.
pub open spec fn dialogue_end(line: Seq<char>) -> bool {
    let t = trim_end(line);
    t.len() > 0 && (is_closing_quote_mark(t.last()) || (t.len() >= 2 && (t[t.len() - 2]
        == '\u{201D}' || t[t.len() - 2] == '"') && (t.last() == '！' || t.last() == '？'
        || t.last() == '…' || t.last() == '。')))
}

pub open spec fn is_opening_quote_mark(c: char) -> bool {
    c == '\u{201C}' || c == '\u{300C}' || c == '\u{300E}' || c == '"'
}

/// The previous line ends a sentence and the current one starts a quotation.
pub open spec fn opening_quote_break(prev: Seq<char>, cur: Seq<char>) -> bool {
    let p = trim_end(prev);
    let c = trim_start(cur);
    p.len() > 0 && c.len() > 0 && (strong_tone(p) || is_closing_quote_mark(p.last()))
        && is_opening_quote_mark(c[0])
}

/// A line of at least three bytes made only of `*`, or only of `-` and `—`.
pub open spec fn scene_separator(line: Seq<char>) -> bool {
    let t = trim(line);
    vstd::utf8::encode_utf8(t).len() >= 3 && ((forall|i: int| 0 <= i < t.len() ==> t[i] == '*')
        || (forall|i: int| 0 <= i < t.len() ==> (t[i] == '-' || t[i] == '—')))
}

/// A short line (under 20 characters) not ending in strong punctuation.
pub open spec fn short_line_poem(line: Seq<char>) -> bool {
    line.len() < 20 && !strong_tone(line)
}

/// The built-in predicates that join a line to the previous paragraph.
pub open spec fn builtin_joins(prev: Option<Seq<char>>, cur: Seq<char>) -> bool {
    (prev matches Some(p) && quote_unclosed(p)) || closing_quote_attach(cur) || (prev matches Some(
        p,
    ) && continuation_merge(p))
}

/// Whether the line has more opening than closing quotes.
pub fn builtin_quote_unclosed(line: &[char]) -> (b: bool)
    ensures
        b == quote_unclosed(line@),
{
    let mut open: usize = 0;
    let mut close: usize = 0;
    let mut i: usize = 0;
    while i < line.len()
        invariant
            i <= line@.len(),
            open == quote_count(line@.take(i as int), true),
            close == quote_count(line@.take(i as int), false),
            open <= i,
            close <= i,
        decreases line@.len() - i,
    {
        proof {
            assert(line@.take(i + 1).drop_last() =~= line@.take(i as int));
        }
        let c = line[i];
        if c == '\u{201C}' || c == '\u{300C}' || c == '\u{300E}' || c == '"' {
            open = open + 1;
        } else if c == '\u{201D}' || c == '\u{300D}' || c == '\u{300F}' {
            close = close + 1;
        }
        i = i + 1;
    }
    proof {
        assert(line@.take(line@.len() as int) =~= line@);
    }
    open > close
}

/// Whether the line starts (after leading whitespace) with a closing quote.
pub fn builtin_closing_quote_attach(line: &[char]) -> (b: bool)
    ensures
        b == closing_quote_attach(line@),
{
    let (a, _) = trim_bounds(line, 0, line.len());
    proof {
        assert(line@.subrange(0, line@.len() as int) =~= line@);
    }
    if a < line.len() {
        let c = line[a];
        c == '\u{201D}' || c == '\u{300D}' || c == '\u{300F}' || c == '"'
    } else {
        false
    }
}

/// The last character of `line` without trailing whitespace, if any.
fn last_significant(line: &[char]) -> (r: Option<char>)
    ensures
        match r {
            Some(c) => trim_end(line@).len() > 0 && trim_end(line@).last() == c,
            None => trim_end(line@).len() == 0,
        },
{
    let b = trim_end_len(line);
    if b == 0 {
        None
    } else {
        Some(line[b - 1])
    }
}

/// Whether the line ends (before trailing whitespace) with non-terminal punctuation.
pub fn builtin_continuation_merge(line: &[char]) -> (b: bool)
    ensures
        b == continuation_merge(line@),
{
    match last_significant(line) {
        Some(c) => c == '，' || c == '、' || c == '；' || c == '：' || c == ',' || c == ';' || c
            == ':' || c == '—' || c == '–' || c == '-',
        None => false,
    }
}

/// Whether the line ends (before trailing whitespace) with strong punctuation.
pub fn builtin_strong_tone(line: &[char]) -> (b: bool)
    ensures
        b == strong_tone(line@),
{
    match last_significant(line) {
        Some(c) => c == '！' || c == '？' || c == '…' || c == '。' || c == '!' || c == '?' || c
            == '.',
        None => false,
    }
}

/// Whether the line ends a dialogue.
pub fn builtin_dialogue_end(line: &[char]) -> (b: bool)
    ensures
        b == dialogue_end(line@),
{
    let n = trim_end_len(line);
    if n == 0 {
        return false;
    }
    let c = line[n - 1];
    if c == '\u{201D}' || c == '\u{300D}' || c == '\u{300F}' || c == '"' {
        return true;
    }
    if n >= 2 {
        let q = line[n - 2];
        (q == '\u{201D}' || q == '"') && (c == '！' || c == '？' || c == '…' || c == '。')
    } else {
        false
    }
}

/// Whether the previous line ends a sentence and the current one opens a quotation.
pub fn builtin_opening_quote_break(prev: &[char], cur: &[char]) -> (b: bool)
    ensures
        b == opening_quote_break(prev@, cur@),
{
    let n = trim_end_len(prev);
    let (a, _) = trim_bounds(cur, 0, cur.len());
    proof {
        assert(cur@.subrange(0, cur@.len() as int) =~= cur@);
    }
    if n == 0 || a >= cur.len() {
        return false;
    }
    let ghost p = prev@.subrange(0, n as int);
    proof {
        lemma_trim_end_idem(prev@);
    }
    let last = prev[n - 1];
    let ends_terminal = last == '！' || last == '？' || last == '…' || last == '。' || last == '!'
        || last == '?' || last == '.' || last == '\u{201D}' || last == '\u{300D}' || last
        == '\u{300F}' || last == '"';
    let c = cur[a];
    ends_terminal && (c == '\u{201C}' || c == '\u{300C}' || c == '\u{300E}' || c == '"')
}

proof fn lemma_trim_end_idem(s: Seq<char>)
    ensures
        trim_end(trim_end(s)) == trim_end(s),
{
    crate::text::lemma_trail_ws_bound(s);
    let t = trim_end(s);
    if t.len() > 0 {
        assert(t[t.len() - 1] == s[s.len() - crate::text::trail_ws(s) - 1]);
    }
    crate::text::lemma_trail_ws_unique(t, 0);
    assert(t.subrange(0, t.len() as int) =~= t);
}

/// Whether the trimmed line is a scene separator (`***`, `---`, `———`).
pub fn builtin_scene_separator(line: &[char]) -> (b: bool)
    ensures
        b == scene_separator(line@),
{
    let (a, e) = trim_bounds(line, 0, line.len());
    proof {
        assert(line@.subrange(0, line@.len() as int) =~= line@);
    }
    let t = slice_range(line, a, e);
    if !at_least_three_bytes(t.as_slice()) {
        return false;
    }
    let mut all_stars = true;
    let mut all_dashes = true;
    let mut i: usize = 0;
    while i < t.len()
        invariant
            i <= t@.len(),
            all_stars == (forall|j: int| 0 <= j < i ==> t@[j] == '*'),
            all_dashes == (forall|j: int| 0 <= j < i ==> (t@[j] == '-' || t@[j] == '—')),
        decreases t@.len() - i,
    {
        if t[i] != '*' {
            all_stars = false;
        }
        if t[i] != '-' && t[i] != '—' {
            all_dashes = false;
        }
        i = i + 1;
    }
    all_stars || all_dashes
}

/// Whether the UTF-8 encoding of `t` has at least three bytes.
fn at_least_three_bytes(t: &[char]) -> (b: bool)
    ensures
        b == (vstd::utf8::encode_utf8(t@).len() >= 3),
{
    let mut acc: usize = 0;
    let mut i: usize = 0;
    proof {
        lemma_char_start_end(t@);
    }
    while i < t.len() && acc < 3
        invariant
            i <= t@.len(),
            acc as int == char_start(t@, i as int),
            acc < 3 + 4,
        decreases t@.len() - i,
    {
        proof {
            lemma_char_start_step(t@, i as int);
        }
        acc = acc + utf8_width(t[i]);
        i = i + 1;
    }
    proof {
        lemma_char_start_mono(t@, i as int, t@.len() as int);
        lemma_char_start_end(t@);
    }
    acc >= 3
}

/// Whether the line is a short line that may be verse.
pub fn builtin_short_line_poem(line: &[char]) -> (b: bool)
    ensures
        b == short_line_poem(line@),
{
    if line.len() >= 20 {
        return false;
    }
    !builtin_strong_tone(line)
}

// ───────────────────────── re-segmentation: the line merger ─────────────────────────

/// A user rule that takes part: enabled, a non-empty regex that compiles.
pub open spec fn active_user_rule(r: SegmentRule) -> bool {
    r.enabled && r.kind == SegmentRuleKind::Regex && r.pattern@.len() > 0 && regex_valid(r.pattern@)
}

/// Some active user rule with this action matches `t`.
pub open spec fn user_rule_fires(rules: Seq<SegmentRule>, action: SegmentAction, t: Seq<char>) -> bool {
    exists|k: int|
        0 <= k < rules.len() && active_user_rule(#[trigger] rules[k]) && rules[k].action == action
            && regex_is_match(rules[k].pattern@, t)
}

/// Built-in predicates take part when a built-in rule is enabled or none is listed.
pub open spec fn builtins_active(rules: Seq<SegmentRule>) -> bool {
    (exists|k: int| 0 <= k < rules.len() && #[trigger] rules[k].builtin && rules[k].enabled) || !(
    exists|k: int| 0 <= k < rules.len() && #[trigger] rules[k].builtin)
}

/// Whether the (trimmed, non-empty) line `cur` joins the previous paragraph `prev`.
///
/// A merge rule joins unless a keep-independent rule also matches. Otherwise any
/// break rule keeps the line apart; failing all user rules, the built-in
/// predicates decide (when active).
pub open spec fn joins_previous(rules: Seq<SegmentRule>, prev: Option<Seq<char>>, cur: Seq<char>) -> bool {
    let merge = user_rule_fires(rules, SegmentAction::MergeWithPrev, cur);
    let independent = user_rule_fires(rules, SegmentAction::KeepIndependent, cur);
    let breaks = (prev matches Some(p) && user_rule_fires(rules, SegmentAction::ForceBreakAfter, p))
        || user_rule_fires(rules, SegmentAction::ForceBreakBefore, cur) || independent;
    (merge && !independent) || (!merge && !breaks && builtins_active(rules) && builtin_joins(
        prev,
        cur,
    ))
}

/// One line into the paragraph list.
pub open spec fn resegment_step(rules: Seq<SegmentRule>, out: Seq<Seq<char>>, line: Seq<char>) -> Seq<Seq<char>> {
    let cur = trim(line);
    if cur.len() == 0 {
        out
    } else {
        let prev = if out.len() > 0 { Some(out.last()) } else { None };
        if out.len() > 0 && joins_previous(rules, prev, cur) {
            out.drop_last().push(out.last() + seq![' '] + cur)
        } else {
            out.push(cur)
        }
    }
}

pub open spec fn resegment_lines(rules: Seq<SegmentRule>, ls: Seq<Seq<char>>) -> Seq<Seq<char>>
    decreases ls.len(),
{
    if ls.len() == 0 {
        Seq::<Seq<char>>::empty()
    } else {
        resegment_step(rules, resegment_lines(rules, ls.drop_last()), ls.last())
    }
}

/// Result of re-segmentation: the paragraphs joined with `\n`.
pub open spec fn resegmented(content: Seq<char>, rules: Seq<SegmentRule>) -> Seq<char> {
    join(resegment_lines(rules, lines(content)), seq!['\n'])
}

/// With the built-in predicates taking part and no user rule firing, a non-blank
/// line that follows a paragraph with more opening than closing quotes is appended
/// to that paragraph, after a space.
pub proof fn lemma_unclosed_quote_joins(rules: Seq<SegmentRule>, out: Seq<Seq<char>>, line: Seq<char>)
    requires
        out.len() > 0,
        trim(line).len() > 0,
        quote_count(out.last(), true) > quote_count(out.last(), false),
        builtins_active(rules),
        !user_rule_fires(rules, SegmentAction::MergeWithPrev, trim(line)),
        !user_rule_fires(rules, SegmentAction::KeepIndependent, trim(line)),
        !user_rule_fires(rules, SegmentAction::ForceBreakBefore, trim(line)),
        !user_rule_fires(rules, SegmentAction::ForceBreakAfter, out.last()),
    ensures
        resegment_step(rules, out, line) == out.drop_last().push(out.last() + seq![' '] + trim(line)),
{
}

proof fn lemma_trim_start_of_trim(line: Seq<char>)
    ensures
        trim_start(trim(line)) == trim(line),
{
    let t = trim(line);
    crate::text::lemma_lead_ws_bound(line);
    crate::text::lemma_trail_ws_bound(trim_start(line));
    if t.len() > 0 {
        assert(t[0] == trim_start(line)[0]);
        assert(trim_start(line)[0] == line[crate::text::lead_ws(line) as int]);
        assert(!is_ws(t[0]));
        assert(crate::text::lead_ws(t) == 0);
    } else {
        assert(crate::text::lead_ws(t) == 0);
    }
    assert(t.subrange(0, t.len() as int) =~= t);
}

/// With the built-in predicates taking part and no user rule firing, a non-blank
/// line also joins the previous paragraph (after a space) when it starts with a
/// closing quote (” 」 』 "), or when the paragraph ends with a comma-like or dash
/// mark (，、；：,;:—–-).
pub proof fn lemma_builtin_attach_joins(rules: Seq<SegmentRule>, out: Seq<Seq<char>>, line: Seq<char>)
    requires
        out.len() > 0,
        trim(line).len() > 0,
        ({
            let c = trim(line)[0];
            c == '\u{201D}' || c == '\u{300D}' || c == '\u{300F}' || c == '"'
        }) || ({
            let p = trim_end(out.last());
            p.len() > 0 && (p.last() == '，' || p.last() == '、' || p.last() == '；' || p.last()
                == '：' || p.last() == ',' || p.last() == ';' || p.last() == ':' || p.last() == '—'
                || p.last() == '–' || p.last() == '-')
        }),
        builtins_active(rules),
        !user_rule_fires(rules, SegmentAction::MergeWithPrev, trim(line)),
        !user_rule_fires(rules, SegmentAction::KeepIndependent, trim(line)),
        !user_rule_fires(rules, SegmentAction::ForceBreakBefore, trim(line)),
        !user_rule_fires(rules, SegmentAction::ForceBreakAfter, out.last()),
    ensures
        resegment_step(rules, out, line) == out.drop_last().push(out.last() + seq![' '] + trim(line)),
{
    lemma_trim_start_of_trim(line);
}

/// With no segment rules, a text of two non-blank lines whose first line opens more
/// quotes than it closes becomes one paragraph: the two trimmed lines joined by a
/// space.
pub proof fn lemma_unclosed_quote_two_lines(content: Seq<char>, a: Seq<char>, b: Seq<char>)
    requires
        lines(content) == seq![a, b],
        trim(a).len() > 0,
        trim(b).len() > 0,
        quote_count(trim(a), true) > quote_count(trim(a), false),
    ensures
        resegmented(content, Seq::<SegmentRule>::empty()) == trim(a) + seq![' '] + trim(b),
{
    let rules = Seq::<SegmentRule>::empty();
    let ls = seq![a, b];
    assert(ls.drop_last() =~= seq![a]);
    assert(seq![a].drop_last() =~= Seq::<Seq<char>>::empty());
    assert(resegment_lines(rules, Seq::<Seq<char>>::empty()) == Seq::<Seq<char>>::empty());
    assert(resegment_lines(rules, seq![a]) == resegment_step(rules, Seq::<Seq<char>>::empty(), a));
    assert(resegment_step(rules, Seq::<Seq<char>>::empty(), a) =~= seq![trim(a)]);
    assert(builtins_active(rules));
    lemma_unclosed_quote_joins(rules, seq![trim(a)], b);
    assert(seq![trim(a)].drop_last().push(trim(a) + seq![' '] + trim(b)) =~= seq![trim(a) + seq![' ']
        + trim(b)]);
    assert(resegment_lines(rules, ls) == seq![trim(a) + seq![' '] + trim(b)]);
}

/// Re-segmentation produces no empty paragraph: blank lines are dropped.
pub proof fn lemma_resegment_no_empty_paragraph(rules: Seq<SegmentRule>, ls: Seq<Seq<char>>)
    ensures
        forall|k: int|
            0 <= k < resegment_lines(rules, ls).len() ==> #[trigger] resegment_lines(
                rules,
                ls,
            )[k].len() > 0,
    decreases ls.len(),
{
    if ls.len() > 0 {
        lemma_resegment_no_empty_paragraph(rules, ls.drop_last());
        let out = resegment_lines(rules, ls.drop_last());
        let cur = trim(ls.last());
        if cur.len() > 0 && out.len() > 0 {
            let prev = Some(out.last());
            if joins_previous(rules, prev, cur) {
                let merged = out.last() + seq![' '] + cur;
                assert(resegment_lines(rules, ls) == out.drop_last().push(merged));
                assert forall|k: int| 0 <= k < out.len() implies #[trigger] out.drop_last().push(
                    merged,
                )[k].len() > 0 by {
                    if k < out.len() - 1 {
                        assert(out.drop_last().push(merged)[k] == out[k]);
                    }
                }
            }
        }
    }
}

/// A compiled active user rule.
struct UserRule {
    action: SegmentAction,
    re: CompiledPattern,
    index: Ghost<int>,
}

/// The compiled active user rules, in order.
fn compile_user_rules(rules: &[SegmentRule]) -> (r: Vec<UserRule>)
    ensures
        forall|j: int|
            0 <= j < r@.len() ==> {
                let k = #[trigger] r@[j].index@;
                0 <= k < rules@.len() && active_user_rule(rules@[k]) && r@[j].action
                    == rules@[k].action && r@[j].re.source() == rules@[k].pattern@
            },
        forall|k: int|
            0 <= k < rules@.len() && active_user_rule(#[trigger] rules@[k]) ==> exists|j: int|
                0 <= j < r@.len() && r@[j].index@ == k,
{
    let mut r: Vec<UserRule> = Vec::new();
    let mut i: usize = 0;
    while i < rules.len()
        invariant
            i <= rules@.len(),
            forall|j: int|
                0 <= j < r@.len() ==> {
                    let k = #[trigger] r@[j].index@;
                    0 <= k < i && active_user_rule(rules@[k]) && r@[j].action == rules@[k].action
                        && r@[j].re.source() == rules@[k].pattern@
                },
            forall|k: int|
                0 <= k < i && active_user_rule(#[trigger] rules@[k]) ==> exists|j: int|
                    0 <= j < r@.len() && r@[j].index@ == k,
        decreases rules@.len() - i,
    {
        let rule = &rules[i];
        if rule.enabled && rule.kind == SegmentRuleKind::Regex && !rule.pattern.as_str().is_empty() {
            match CompiledPattern::compile(rule.pattern.as_str()) {
                Ok(re) => {
                    let ghost before = r@;
                    r.push(UserRule { action: rule.action, re, index: Ghost(i as int) });
                    proof {
                        assert(r@[before.len() as int].index@ == i);
                        assert forall|k: int|
                            0 <= k < i + 1 && active_user_rule(#[trigger] rules@[k]) implies exists|
                            j: int,
                        | 0 <= j < r@.len() && r@[j].index@ == k by {
                            if k < i {
                                let j = choose|j: int| 0 <= j < before.len() && before[j].index@ == k;
                                assert(r@[j] == before[j]);
                            }
                        }
                    }
                },
                Err(_) => {},
            }
        }
        i = i + 1;
    }
    r
}

/// Whether an active user rule with this action matches `t`.
fn fires(urs: &Vec<UserRule>, rules: Ghost<Seq<SegmentRule>>, action: SegmentAction, t: &str) -> (b: bool)
    requires
        forall|j: int|
            0 <= j < urs@.len() ==> {
                let k = #[trigger] urs@[j].index@;
                0 <= k < rules@.len() && active_user_rule(rules@[k]) && urs@[j].action
                    == rules@[k].action && urs@[j].re.source() == rules@[k].pattern@
            },
        forall|k: int|
            0 <= k < rules@.len() && active_user_rule(#[trigger] rules@[k]) ==> exists|j: int|
                0 <= j < urs@.len() && urs@[j].index@ == k,
    ensures
        b == user_rule_fires(rules@, action, t@),
{
    let mut j: usize = 0;
    while j < urs.len()
        invariant
            j <= urs@.len(),
            forall|m: int|
                0 <= m < urs@.len() ==> {
                    let k = #[trigger] urs@[m].index@;
                    0 <= k < rules@.len() && active_user_rule(rules@[k]) && urs@[m].action
                        == rules@[k].action && urs@[m].re.source() == rules@[k].pattern@
                },
            forall|m: int|
                0 <= m < j ==> !(urs@[m].action == action && regex_is_match(
                    #[trigger] urs@[m].re.source(),
                    t@,
                )),
        decreases urs@.len() - j,
    {
        if urs[j].action == action && urs[j].re.is_match(t) {
            proof {
                let k = urs@[j as int].index@;
                assert(0 <= k < rules@.len() && active_user_rule(rules@[k]));
            }
            return true;
        }
        j = j + 1;
    }
    proof {
        assert forall|k: int|
            0 <= k < rules@.len() && active_user_rule(#[trigger] rules@[k]) && rules@[k].action
                == action implies !regex_is_match(rules@[k].pattern@, t@) by {
            let m = choose|m: int| 0 <= m < urs@.len() && urs@[m].index@ == k;
            assert(urs@[m].re.source() == rules@[k].pattern@);
        }
    }
    false
}

/// Whether some rule is built in, and whether some built-in rule is enabled.
fn builtin_flags(rules: &[SegmentRule]) -> (r: bool)
    ensures
        r == builtins_active(rules@),
{
    let mut any_builtin = false;
    let mut any_enabled = false;
    let mut i: usize = 0;
    while i < rules.len()
        invariant
            i <= rules@.len(),
            any_builtin == (exists|k: int| 0 <= k < i && #[trigger] rules@[k].builtin),
            any_enabled == (exists|k: int|
                0 <= k < i && #[trigger] rules@[k].builtin && rules@[k].enabled),
        decreases rules@.len() - i,
    {
        if rules[i].builtin {
            any_builtin = true;
            if rules[i].enabled {
                any_enabled = true;
            }
        }
        i = i + 1;
    }
    any_enabled || !any_builtin
}

/// Re-segments paragraphs: each non-blank line (trimmed) either starts a new
/// paragraph or is appended, after a space, to the previous one, as decided by
/// the user rules and (when active) the built-in predicates. Paragraphs are
/// joined with `\n`.
pub fn re_segment(content: &str, segment_rules: &[SegmentRule]) -> (r: String)
    ensures
        r@ == resegmented(content@, segment_rules@),
{
    let cv = chars_of(content);
    let ls = split_lines(cv.as_slice());
    let ghost lv = views(ls@);
    let ghost rules = segment_rules@;
    if ls.len() == 0 {
        proof {
            assert(lv =~= Seq::<Seq<char>>::empty());
        }
        return String::new();
    }
    let urs = compile_user_rules(segment_rules);
    let builtin_active = builtin_flags(segment_rules);
    let mut out: Vec<Vec<char>> = Vec::new();
    let mut i: usize = 0;
    while i < ls.len()
        invariant
            i <= ls@.len(),
            lv == views(ls@),
            rules == segment_rules@,
            builtin_active == builtins_active(rules),
            forall|j: int|
                0 <= j < urs@.len() ==> {
                    let k = #[trigger] urs@[j].index@;
                    0 <= k < rules.len() && active_user_rule(rules[k]) && urs@[j].action
                        == rules[k].action && urs@[j].re.source() == rules[k].pattern@
                },
            forall|k: int|
                0 <= k < rules.len() && active_user_rule(#[trigger] rules[k]) ==> exists|j: int|
                    0 <= j < urs@.len() && urs@[j].index@ == k,
            views(out@) == resegment_lines(rules, lv.take(i as int)),
        decreases ls@.len() - i,
    {
        proof {
            assert(lv.take(i + 1).drop_last() =~= lv.take(i as int));
            assert(lv.take(i + 1).last() == ls@[i as int]@);
        }
        let line = &ls[i];
        let (a, b) = trim_bounds(line.as_slice(), 0, line.len());
        proof {
            assert(line@.subrange(0, line@.len() as int) =~= line@);
        }
        let cur = slice_range(line.as_slice(), a, b);
        if cur.len() > 0 {
            let cur_s = string_from_chars(cur.as_slice());
            let has_prev = out.len() > 0;
            let prev: Vec<char> = if has_prev {
                copy_chars(out[out.len() - 1].as_slice())
            } else {
                Vec::new()
            };
            let prev_s = string_from_chars(prev.as_slice());
            let ghost prev_opt: Option<Seq<char>> = if has_prev {
                Some(views(out@).last())
            } else {
                None
            };
            let mut should_merge = false;
            let mut should_break = false;
            if fires(&urs, Ghost(rules), SegmentAction::MergeWithPrev, cur_s.as_str()) {
                should_merge = true;
            }
            if has_prev && fires(&urs, Ghost(rules), SegmentAction::ForceBreakAfter, prev_s.as_str()) {
                should_break = true;
            }
            if fires(&urs, Ghost(rules), SegmentAction::ForceBreakBefore, cur_s.as_str()) {
                should_break = true;
            }
            if fires(&urs, Ghost(rules), SegmentAction::KeepIndependent, cur_s.as_str()) {
                should_break = true;
                should_merge = false;
            }
            if !should_break && !should_merge && builtin_active {
                if has_prev && builtin_quote_unclosed(prev.as_slice()) {
                    should_merge = true;
                }
                if !should_merge && builtin_closing_quote_attach(cur.as_slice()) {
                    should_merge = true;
                }
                if !should_merge && has_prev && builtin_continuation_merge(prev.as_slice()) {
                    should_merge = true;
                }
                if !should_merge && builtin_scene_separator(cur.as_slice()) {
                    should_break = true;
                }
                if !should_merge && builtin_short_line_poem(cur.as_slice()) {
                    should_break = true;
                }
                if !should_merge && has_prev && builtin_dialogue_end(prev.as_slice()) {
                    should_break = true;
                }
                if !should_merge && has_prev && builtin_strong_tone(prev.as_slice()) {
                    should_break = true;
                }
                if !should_merge && has_prev && builtin_opening_quote_break(
                    prev.as_slice(),
                    cur.as_slice(),
                ) {
                    should_break = true;
                }
            }
            proof {
                assert(cur@ == trim(lv[i as int]));
                assert(should_merge == joins_previous(rules, prev_opt, cur@));
            }
            let ghost o0 = views(out@);
            if should_merge && has_prev {
                let ghost ov = out@;
                let mut last = out.pop().unwrap();
                proof {
                    assert(out@ == ov.drop_last());
                    assert(last == ov.last());
                    assert(views(out@) =~= o0.drop_last());
                    assert(last@ == o0.last());
                }
                last.push(' ');
                push_all(&mut last, cur.as_slice());
                let ghost ob = out@;
                let ghost lastv = last@;
                assert(lastv =~= o0.last() + seq![' '] + cur@);
                out.push(last);
                proof {
                    assert(views(out@) =~= views(ob).push(lastv));
                    assert(views(out@) =~= o0.drop_last().push(o0.last() + seq![' '] + cur@));
                }
            } else if should_break {
                out.push(cur);
                proof {
                    assert(views(out@) =~= o0.push(trim(lv[i as int])));
                }
            } else {
                out.push(cur);
                proof {
                    assert(views(out@) =~= o0.push(trim(lv[i as int])));
                }
            }
        }
        i = i + 1;
    }
    proof {
        assert(lv.take(ls@.len() as int) =~= lv);
    }
    let nl = vec!['\n'];
    assert(nl@ =~= seq!['\n']);
    let joined = join_chars(&out, nl.as_slice());
    string_from_chars(joined.as_slice())
}

// ───────────────────────── HTML tag protection ─────────────────────────

/// An HTML tag.
pub const HTML_TAG_PATTERN: &'static str = r"<[^>]+>";

/// Decimal digits of `n`.
pub open spec fn decimal(n: nat) -> Seq<char>
    decreases n,
{
    if n < 10 {
        seq![((n + 48) as u8) as char]
    } else {
        decimal(n / 10).push((((n % 10) + 48) as u8) as char)
    }
}

/// The decimal digits of `n`.
pub fn decimal_chars(n: usize) -> (r: Vec<char>)
    ensures
        r@ == decimal(n as nat),
    decreases n,
{
    if n < 10 {
        let d = (n as u8) + 48;
        vec![d as char]
    } else {
        let mut v = decimal_chars(n / 10);
        let d = ((n % 10) as u8) + 48;
        v.push(d as char);
        v
    }
}

/// The default placeholder prefix, `__HTML_PH_`.
pub open spec fn html_prefix() -> Seq<char> {
    seq!['_', '_', 'H', 'T', 'M', 'L', '_', 'P', 'H', '_']
}

/// The placeholder standing for the `k`-th protected tag: prefix, `k`, `__`.
pub open spec fn placeholder(prefix: Seq<char>, k: nat) -> Seq<char> {
    prefix + decimal(k) + seq!['_', '_']
}

fn placeholder_chars(prefix: &[char], k: usize) -> (r: Vec<char>)
    ensures
        r@ == placeholder(prefix@, k as nat),
{
    let mut r: Vec<char> = Vec::new();
    push_all(&mut r, prefix);
    let d = decimal_chars(k);
    push_all(&mut r, d.as_slice());
    r.push('_');
    r.push('_');
    proof {
        assert(r@ =~= placeholder(prefix@, k as nat));
    }
    r
}

/// `gaps[i]`, or empty past the end.
pub open spec fn gap(gaps: Seq<Seq<char>>, i: int) -> Seq<char> {
    if 0 <= i < gaps.len() {
        gaps[i]
    } else {
        Seq::<char>::empty()
    }
}

/// The gaps with the first `k` placeholders between them:
/// `gaps[0] ph(0) gaps[1] ... ph(k-1) gaps[k]`.
pub open spec fn interleave_placeholders(prefix: Seq<char>, gaps: Seq<Seq<char>>, k: nat) -> Seq<char>
    decreases k,
{
    if k == 0 {
        gap(gaps, 0)
    } else {
        interleave_placeholders(prefix, gaps, (k - 1) as nat) + placeholder(prefix, (k - 1) as nat)
            + gap(gaps, k as int)
    }
}

/// The protected text: each match of `pattern` replaced by its placeholder.
pub open spec fn protected_with(pattern: Seq<char>, prefix: Seq<char>, content: Seq<char>) -> Seq<char> {
    interleave_placeholders(prefix, regex_gaps(pattern, content), regex_matches(pattern, content).len())
}

/// The placeholder map: the `k`-th entry maps placeholder `k` to the `k`-th match.
pub open spec fn placeholder_map(pattern: Seq<char>, prefix: Seq<char>, content: Seq<char>) -> Seq<(Seq<char>, Seq<char>)> {
    Seq::new(
        regex_matches(pattern, content).len(),
        |k: int| (placeholder(prefix, k as nat), regex_matches(pattern, content)[k]),
    )
}

pub open spec fn pair_views(v: Seq<(String, String)>) -> Seq<(Seq<char>, Seq<char>)> {
    v.map_values(|p: (String, String)| (p.0@, p.1@))
}

/// Replaces every match of `re` with a numbered placeholder; returns the text and
/// the placeholder map, in match order.
pub fn protect_matches(re: &CompiledPattern, content: &str, prefix: &[char]) -> (r: (String, Vec<(String, String)>))
    ensures
        r.0@ == protected_with(re.source(), prefix@, content@),
        pair_views(r.1@) == placeholder_map(re.source(), prefix@, content@),
        regex_gaps(re.source(), content@).len() == regex_matches(re.source(), content@).len() + 1,
        woven(regex_gaps(re.source(), content@), regex_matches(re.source(), content@)) == content@,
{
    let tags = re.matches(content);
    let gaps = re.gaps(content);
    let ghost tv = tags@.map_values(|s: String| s@);
    let ghost gv = gaps@.map_values(|s: String| s@);
    let mut out: Vec<char> = Vec::new();
    if gaps.len() > 0 {
        out = chars_of(gaps[0].as_str());
    }
    let mut map: Vec<(String, String)> = Vec::new();
    let mut k: usize = 0;
    while k < tags.len()
        invariant
            k <= tags@.len(),
            tv == tags@.map_values(|s: String| s@),
            gv == gaps@.map_values(|s: String| s@),
            out@ == interleave_placeholders(prefix@, gv, k as nat),
            pair_views(map@) =~= Seq::new(
                k as nat,
                |j: int| (placeholder(prefix@, j as nat), tv[j]),
            ),
        decreases tags@.len() - k,
    {
        let ph = placeholder_chars(prefix, k);
        push_all(&mut out, ph.as_slice());
        if k + 1 < gaps.len() {
            let g = chars_of(gaps[k + 1].as_str());
            push_all(&mut out, g.as_slice());
        }
        let ghost m0 = map@;
        map.push((string_from_chars(ph.as_slice()), tags[k].clone()));
        proof {
            assert(out@ =~= interleave_placeholders(prefix@, gv, (k + 1) as nat));
            assert(pair_views(map@) =~= pair_views(m0).push(
                (placeholder(prefix@, k as nat), tv[k as int]),
            ));
        }
        k = k + 1;
    }
    (string_from_chars(out.as_slice()), map)
}

/// The tag-protected text (unchanged when the tag regex does not compile).
pub open spec fn html_protected(content: Seq<char>) -> Seq<char> {
    if regex_valid(HTML_TAG_PATTERN@) {
        protected_with(HTML_TAG_PATTERN@, html_prefix(), content)
    } else {
        content
    }
}

/// The tag placeholder map (empty when the tag regex does not compile).
pub open spec fn html_map(content: Seq<char>) -> Seq<(Seq<char>, Seq<char>)> {
    if regex_valid(HTML_TAG_PATTERN@) {
        placeholder_map(HTML_TAG_PATTERN@, html_prefix(), content)
    } else {
        Seq::<(Seq<char>, Seq<char>)>::empty()
    }
}

/// Replaces every HTML tag with a numbered placeholder (`__HTML_PH_0__`, ...), so
/// that replace rules cannot touch the tags; returns the text and the placeholder
/// map, in tag order.
///
/// When `content` never contains `HTML_PH_`, restoring the placeholders gives it
/// back unchanged.
pub fn protect_html_tags(content: &str) -> (r: (String, Vec<(String, String)>))
    ensures
        r.0@ == html_protected(content@),
        pair_views(r.1@) == html_map(content@),
        no_infix(content@, tag_marker()) ==> restored(r.0@, pair_views(r.1@)) == content@,
{
    let prefix = vec!['_', '_', 'H', 'T', 'M', 'L', '_', 'P', 'H', '_'];
    assert(prefix@ =~= html_prefix());
    match CompiledPattern::compile(HTML_TAG_PATTERN) {
        Ok(re) => {
            let r = protect_matches(&re, content, prefix.as_slice());
            proof {
                let g = regex_gaps(re.source(), content@);
                let m = regex_matches(re.source(), content@);
                assert(placeholder_map(re.source(), html_prefix(), content@) =~= ph_map(m));
                if no_infix(content@, tag_marker()) {
                    lemma_tag_round_trip(g, m);
                }
            }
            r
        },
        Err(_) => {
            proof {
                assert(pair_views(Seq::<(String, String)>::empty()) =~= Seq::<
                    (Seq<char>, Seq<char>),
                >::empty());
            }
            let r = (content.to_owned(), Vec::new());
            proof {
                assert(pair_views(r.1@) =~= Seq::<(Seq<char>, Seq<char>)>::empty());
            }
            r
        },
    }
}

/// Puts the protected tags back: each placeholder replaced by its tag, in map order.
pub open spec fn restored(content: Seq<char>, map: Seq<(Seq<char>, Seq<char>)>) -> Seq<char>
    decreases map.len(),
{
    if map.len() == 0 {
        content
    } else {
        let (p, o) = map.last();
        replaced(restored(content, map.drop_last()), p, o)
    }
}

/// Replaces each placeholder of the map by its original text, in map order.
pub fn restore_html_tags(content: &str, map: &[(String, String)]) -> (r: String)
    ensures
        r@ == restored(content@, pair_views(map@)),
{
    let mut cur = chars_of(content);
    let mut i: usize = 0;
    while i < map.len()
        invariant
            i <= map@.len(),
            cur@ == restored(content@, pair_views(map@).take(i as int)),
        decreases map@.len() - i,
    {
        proof {
            assert(pair_views(map@).take(i + 1).drop_last() =~= pair_views(map@).take(i as int));
        }
        let p = chars_of(map[i].0.as_str());
        let o = chars_of(map[i].1.as_str());
        cur = replace_chars(cur.as_slice(), p.as_slice(), o.as_slice());
        i = i + 1;
    }
    proof {
        assert(pair_views(map@).take(map@.len() as int) =~= pair_views(map@));
    }
    string_from_chars(cur.as_slice())
}

// ───────────────────────── replace rules ─────────────────────────

/// The message of a regex rule that does not compile: the pattern, `: `, and the
/// compiler's message.
pub open spec fn compile_error_message(pattern: Seq<char>) -> Seq<char> {
    pattern + seq![':', ' '] + regex_error_text(pattern)
}

/// The enabled rules applied in order: string rules by `str::replace`, regex rules
/// by `regex::Regex::replace_all`; script rules are skipped. The first regex that
/// does not compile stops with its message.
pub open spec fn rules_applied(rules: Seq<ReplaceRule>, content: Seq<char>) -> Result<Seq<char>, Seq<char>>
    decreases rules.len(),
{
    if rules.len() == 0 {
        Ok(content)
    } else {
        match rules_applied(rules.drop_last(), content) {
            Err(m) => Err(m),
            Ok(s) => {
                let r = rules.last();
                if !r.enabled {
                    Ok(s)
                } else {
                    match r.rule_type {
                        RuleType::String => Ok(replaced(s, r.pattern@, r.replacement@)),
                        RuleType::Regex => if regex_valid(r.pattern@) {
                            Ok(regex_replace_all(r.pattern@, s, r.replacement@))
                        } else {
                            Err(compile_error_message(r.pattern@))
                        },
                        RuleType::Js => Ok(s),
                    }
                }
            },
        }
    }
}

/// How a processing result relates to a specified outcome (error text for
/// `RegexCompile`).
pub open spec fn result_matches(r: Result<String, ContentProcessError>, spec: Result<Seq<char>, Seq<char>>) -> bool {
    match r {
        Ok(s) => spec == Ok::<Seq<char>, Seq<char>>(s@),
        Err(ContentProcessError::RegexCompile(m)) => spec == Err::<Seq<char>, Seq<char>>(m@),
        Err(_) => false,
    }
}

fn apply_rules(rules: &[ReplaceRule], content: &str) -> (r: Result<String, ContentProcessError>)
    ensures
        result_matches(r, rules_applied(rules@, content@)),
{
    let mut cur = content.to_owned();
    let mut i: usize = 0;
    while i < rules.len()
        invariant
            i <= rules@.len(),
            rules_applied(rules@.take(i as int), content@) == Ok::<Seq<char>, Seq<char>>(cur@),
        decreases rules@.len() - i,
    {
        proof {
            assert(rules@.take(i + 1).drop_last() =~= rules@.take(i as int));
            assert(rules@.take(i + 1).last() == rules@[i as int]);
        }
        let rule = &rules[i];
        if rule.enabled {
            match rule.rule_type {
                RuleType::String => {
                    let s = chars_of(cur.as_str());
                    let p = chars_of(rule.pattern.as_str());
                    let t = chars_of(rule.replacement.as_str());
                    let out = replace_chars(s.as_slice(), p.as_slice(), t.as_slice());
                    cur = string_from_chars(out.as_slice());
                },
                RuleType::Regex => {
                    match CompiledPattern::compile(rule.pattern.as_str()) {
                        Ok(re) => {
                            cur = re.replace_all(cur.as_str(), rule.replacement.as_str());
                        },
                        Err(e) => {
                            let mut m = chars_of(rule.pattern.as_str());
                            m.push(':');
                            m.push(' ');
                            let ev = chars_of(e.as_str());
                            push_all(&mut m, ev.as_slice());
                            proof {
                                assert(m@ =~= compile_error_message(rule.pattern@));
                                lemma_rules_applied_err(rules@, content@, i + 1, m@);
                                assert(rules@.take(rules@.len() as int) =~= rules@);
                            }
                            return Err(ContentProcessError::RegexCompile(string_from_chars(m.as_slice())));
                        },
                    }
                },
                RuleType::Js => {},
            }
        }
        i = i + 1;
    }
    proof {
        assert(rules@.take(rules@.len() as int) =~= rules@);
    }
    Ok(cur)
}

/// Rules that are all disabled leave the content as it is.
pub proof fn lemma_disabled_rules_change_nothing(rules: Seq<ReplaceRule>, content: Seq<char>)
    requires
        forall|k: int| 0 <= k < rules.len() ==> !(#[trigger] rules[k]).enabled,
    ensures
        rules_applied(rules, content) == Ok::<Seq<char>, Seq<char>>(content),
    decreases rules.len(),
{
    if rules.len() > 0 {
        let r = rules.drop_last();
        assert forall|k: int| 0 <= k < r.len() implies !(#[trigger] r[k]).enabled by {
            assert(r[k] == rules[k]);
        }
        lemma_disabled_rules_change_nothing(r, content);
        assert(!rules[rules.len() - 1].enabled);
    }
}

/// Once an error is reached, it is the outcome of every longer prefix.
proof fn lemma_rules_applied_err(rules: Seq<ReplaceRule>, content: Seq<char>, i: int, m: Seq<char>)
    requires
        0 <= i <= rules.len(),
        rules_applied(rules.take(i), content) == Err::<Seq<char>, Seq<char>>(m),
    ensures
        rules_applied(rules, content) == Err::<Seq<char>, Seq<char>>(m),
    decreases rules.len() - i,
{
    if i < rules.len() {
        assert(rules.take(i + 1).drop_last() =~= rules.take(i));
        lemma_rules_applied_err(rules, content, i + 1, m);
    } else {
        assert(rules.take(i) =~= rules);
    }
}

// ───────────────────────── the preprocessor ─────────────────────────

/// The outcome of `process` on `raw` with the given rules and options.
///
/// Title removal (when enabled and a title is given), re-segmentation
/// (when enabled or user rules are given), HTML protection (when
/// `adapt_special_style`), the replace rules, then HTML restoration.
pub open spec fn processed(rules: Seq<ReplaceRule>, raw: Seq<char>, options: ProcessOptions) -> Result<Seq<char>, Seq<char>> {
    let (c3, map) = prepared(raw, options);
    match rules_applied(rules, c3) {
        Err(m) => Err(m),
        Ok(c4) => Ok(restored(c4, map)),
    }
}

/// The text that `process` hands to the replace rules, and the placeholder map of
/// the tags it protected: title removal, re-segmentation and HTML
/// protection as `options` ask.
pub open spec fn prepared(raw: Seq<char>, options: ProcessOptions) -> (Seq<char>, Seq<(Seq<char>, Seq<char>)>) {
    let c1 = if options.remove_duplicate_title && options.title@.len() > 0 {
        without_title_block(raw, options.title@)
    } else {
        raw
    };
    let c2 = if options.re_segment || options.segment_rules@.len() > 0 {
        resegmented(c1, options.segment_rules@)
    } else {
        c1
    };
    let c3 = if options.adapt_special_style { html_protected(c2) } else { c2 };
    let map = if options.adapt_special_style {
        html_map(c2)
    } else {
        Seq::<(Seq<char>, Seq<char>)>::empty()
    };
    (c3, map)
}

/// The stages of `process` before the replace rules: title removal,
/// re-segmentation, HTML protection; returns the text and the placeholder map.
pub fn prepare_content(raw_content: &str, options: &ProcessOptions) -> (r: (String, Vec<(String, String)>))
    ensures
        (r.0@, pair_views(r.1@)) == prepared(raw_content@, *options),
{
    let mut content = raw_content.to_owned();
    if options.remove_duplicate_title && !options.title.as_str().is_empty() {
        content = remove_title_block(content.as_str(), options.title.as_str());
    }
    if options.re_segment || options.segment_rules.len() > 0 {
        content = re_segment(content.as_str(), options.segment_rules.as_slice());
    }
    if options.adapt_special_style {
        protect_html_tags(content.as_str())
    } else {
        let r = (content, Vec::new());
        proof {
            assert(pair_views(r.1@) =~= Seq::<(Seq<char>, Seq<char>)>::empty());
        }
        r
    }
}

/// Index of the first rule with pattern `p`, or -1.
pub open spec fn first_with_pattern(rules: Seq<ReplaceRule>, p: Seq<char>) -> int
    decreases rules.len(),
{
    if rules.len() == 0 {
        -1
    } else if rules[0].pattern@ == p {
        0
    } else {
        let k = first_with_pattern(rules.drop_first(), p);
        if k >= 0 {
            k + 1
        } else {
            -1
        }
    }
}

/// The rules with the first one of pattern `p` disabled.
pub open spec fn disabled_first(rules: Seq<ReplaceRule>, p: Seq<char>) -> Seq<ReplaceRule> {
    let i = first_with_pattern(rules, p);
    if i >= 0 {
        rules.update(i, ReplaceRule { enabled: false, ..rules[i] })
    } else {
        rules
    }
}

proof fn lemma_first_with_pattern(rules: Seq<ReplaceRule>, p: Seq<char>, i: int)
    requires
        0 <= i < rules.len(),
        rules[i].pattern@ == p,
        forall|j: int| 0 <= j < i ==> rules[j].pattern@ != p,
    ensures
        first_with_pattern(rules, p) == i,
    decreases i,
{
    if i > 0 {
        lemma_first_with_pattern(rules.drop_first(), p, i - 1);
    }
}

proof fn lemma_no_pattern(rules: Seq<ReplaceRule>, p: Seq<char>)
    requires
        forall|j: int| 0 <= j < rules.len() ==> rules[j].pattern@ != p,
    ensures
        first_with_pattern(rules, p) == -1,
    decreases rules.len(),
{
    if rules.len() > 0 {
        lemma_no_pattern(rules.drop_first(), p);
    }
}

/// Content preprocessor holding the replace rules.
///
/// `ProcessOptions::chinese_convert` is carried for the caller: the conversion
/// itself is applied after `process`, by whoever holds a converter.
pub struct ContentPreprocessor {
    replace_rules: Vec<ReplaceRule>,
}

impl ContentPreprocessor {
    /// The current replace rules.
    pub closed spec fn rules(&self) -> Seq<ReplaceRule> {
        self.replace_rules@
    }

    /// A preprocessor with the given replace rules.
    pub fn new(replace_rules: Vec<ReplaceRule>) -> (p: ContentPreprocessor)
        ensures
            p.rules() == replace_rules@,
    {
        ContentPreprocessor { replace_rules }
    }

    /// A preprocessor without replace rules.
    pub fn empty() -> (p: ContentPreprocessor)
        ensures
            p.rules() == Seq::<ReplaceRule>::empty(),
    {
        ContentPreprocessor { replace_rules: Vec::new() }
    }

    /// Replaces the rules.
    pub fn set_rules(&mut self, rules: Vec<ReplaceRule>)
        ensures
            final(self).rules() == rules@,
    {
        self.replace_rules = rules;
    }

    /// Disables the first rule whose pattern is `pattern` (a rule that ran out of
    /// time); the others stay as they are.
    pub fn disable_rule_by_pattern(&mut self, pattern: &str)
        ensures
            final(self).rules() == disabled_first(old(self).rules(), pattern@),
    {
        let target = pattern.to_owned();
        let ghost rs = self.replace_rules@;
        let mut i: usize = 0;
        while i < self.replace_rules.len()
            invariant
                i <= self.replace_rules@.len(),
                self.replace_rules@ == rs,
                rs == old(self).rules(),
                target@ == pattern@,
                forall|j: int| 0 <= j < i ==> rs[j].pattern@ != pattern@,
            decreases self.replace_rules@.len() - i,
        {
            if self.replace_rules[i].pattern == target {
                proof {
                    lemma_first_with_pattern(rs, pattern@, i as int);
                }
                let old_rule = &self.replace_rules[i];
                let rule = ReplaceRule {
                    pattern: old_rule.pattern.clone(),
                    replacement: old_rule.replacement.clone(),
                    rule_type: old_rule.rule_type,
                    timeout_ms: old_rule.timeout_ms,
                    enabled: false,
                };
                self.replace_rules.set(i, rule);
                proof {
                    assert(rule == ReplaceRule { enabled: false, ..rs[i as int] });
                    assert(self.replace_rules@ =~= disabled_first(rs, pattern@));
                }
                return;
            }
            i = i + 1;
        }
        proof {
            lemma_no_pattern(rs, pattern@);
        }
    }

    /// Starts a run of the current rules over `content`, for a driver that gives
    /// each regex rule a time limit.
    pub fn start_rule_run(&self, content: String) -> (r: RuleRun)
        ensures
            r.wf(),
            r.rules() == self.rules(),
            r.start_text() == content@,
            r.text() == content@,
            r.timed_out() == Set::<int>::empty(),
            r.next_rule() == 0,
            !r.waiting(),
    {
        RuleRun::new(copy_rules(&self.replace_rules), content)
    }

    /// Applies the enabled replace rules to `content`, in order.
    pub fn apply_replace_rules(&self, content: &str, book_name: &str) -> (r: Result<String, ContentProcessError>)
        ensures
            result_matches(r, rules_applied(self.rules(), content@)),
    {
        apply_rules(self.replace_rules.as_slice(), content)
    }

    /// Runs the preprocessing stages on one chapter.
    pub fn process(&self, raw_content: &str, options: &ProcessOptions) -> (r: Result<String, ContentProcessError>)
        ensures
            result_matches(r, processed(self.rules(), raw_content@, *options)),
    {
        let (protected_content, html_map) = prepare_content(raw_content, options);
        let replaced_content = match apply_rules(self.replace_rules.as_slice(), protected_content.as_str()) {
            Ok(c) => c,
            Err(e) => {
                return Err(e);
            },
        };
        Ok(restore_html_tags(replaced_content.as_str(), html_map.as_slice()))
    }
}

} // verus!
