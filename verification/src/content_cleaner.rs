//! Import-level cleaning of chapter text: page headers and footers, common
//! OCR confusions, separator lines, blank-line runs, indentation and garbled
//! lines.
use vstd::prelude::*;
use crate::pattern::{CompiledPattern, regex_valid, regex_replace_all};
use crate::pipeline::{ProcessingStage, PipelineData, PipelineDataView, StageError};
use crate::stages::pairs_replaced;
use crate::content_preprocessor::pair_views;
use crate::text_boundary::{
    byte_length, char_start, lemma_char_start_step, lemma_char_start_mono, lemma_char_start_end,
    utf8_width,
};
use crate::text::{
    chars_of, string_from_chars, replace_chars, trim, is_ws, is_whitespace, trim_bounds, lines,
    split_lines, views, join, join_chars,
};

verus! {

// ───────────────────────── patterns ─────────────────────────

/// Page numbers such as `第 5 页`.
pub const PAGE_NUMBER_PATTERN: &'static str = r"(?m)^.{0,10}第\s*\d+\s*页.{0,10}$";

/// Page numbers such as `- 5 -`.
pub const DASHED_PAGE_PATTERN: &'static str = r"(?m)^.{0,10}-\s*\d+\s*-.{0,10}$";

/// Page counters such as `5 / 120`.
pub const PAGE_COUNTER_PATTERN: &'static str = r"(?m)^.{0,10}\d+\s*/\s*\d+.{0,10}$";

/// Lines naming a web source.
pub const SOURCE_LINE_PATTERN: &'static str =
    r"(?m)^.{0,10}(www\.|http|https|来源：|本书来自).{0,80}$";

/// Lines naming a novel or download site.
pub const SITE_LINE_PATTERN: &'static str = r"(?m)^.{0,10}(小说|书籍|下载).{0,30}(网|站).{0,10}$";

/// Copyright notices.
pub const COPYRIGHT_LINE_PATTERN: &'static str = r"(?m)^.{0,10}(版权|copyright|©).{0,50}$";

/// Update dates such as `2024-01-15` or `2024年1月15日`.
pub const DATE_LINE_PATTERN: &'static str =
    r"(?m)^.{0,10}\d{4}[-/年]\d{1,2}[-/月]\d{1,2}[日]?.{0,10}$";

/// Lines of five or more `-`, `=`, `_` or `*`.
pub const RULE_LINE_PATTERN: &'static str = r"(?m)^[-=_*]{5,}$";

/// Lines of three or more dots.
pub const DOT_LINE_PATTERN: &'static str = r"(?m)^[·•]{3,}$";

/// Lines of three or more geometric shapes.
pub const SHAPE_LINE_PATTERN: &'static str = r"(?m)^[◆◇■□●○]{3,}$";

/// Three or more line breaks in a row.
pub const BLANK_RUN_PATTERN: &'static str = r"\n{3,}";

/// Leading whitespace of a line, ideographic spaces included.
pub const LINE_INDENT_PATTERN: &'static str = r"(?m)^[\s　]+";

/// The header and footer patterns, in the order they are applied.
pub open spec fn header_footer_sources() -> Seq<Seq<char>> {
    seq![
        PAGE_NUMBER_PATTERN@,
        DASHED_PAGE_PATTERN@,
        PAGE_COUNTER_PATTERN@,
        SOURCE_LINE_PATTERN@,
        SITE_LINE_PATTERN@,
        COPYRIGHT_LINE_PATTERN@,
        DATE_LINE_PATTERN@,
    ]
}

/// The separator patterns, in the order they are applied.
pub open spec fn separator_sources() -> Seq<Seq<char>> {
    seq![RULE_LINE_PATTERN@, DOT_LINE_PATTERN@, SHAPE_LINE_PATTERN@]
}

/// The OCR corrections, `(wrong, right)`, in the order they are applied.
pub open spec fn ocr_fix_table() -> Seq<(Seq<char>, Seq<char>)> {
    seq![
        ("巳"@, "已"@),
        ("己"@, "已"@),
        ("巴"@, "把"@),
        ("，。"@, "，"@),
        ("。，"@, "。"@),
        ("！。"@, "！"@),
        ("？。"@, "？"@),
        (" ，"@, "，"@),
        (" 。"@, "。"@),
        (" ！"@, "！"@),
        (" ？"@, "？"@),
    ]
}

/// The patterns of `ps` that compile, in order.
pub open spec fn keep_valid(ps: Seq<Seq<char>>) -> Seq<Seq<char>>
    decreases ps.len(),
{
    if ps.len() == 0 {
        ps
    } else if regex_valid(ps.last()) {
        keep_valid(ps.drop_last()).push(ps.last())
    } else {
        keep_valid(ps.drop_last())
    }
}

/// The sources of compiled patterns.
pub open spec fn pattern_sources(v: Seq<CompiledPattern>) -> Seq<Seq<char>> {
    v.map_values(|p: CompiledPattern| p.source())
}

/// Views of string literals.
pub open spec fn str_views(v: Seq<&str>) -> Seq<Seq<char>> {
    v.map_values(|s: &str| s@)
}

// ───────────────────────── the cleaning steps ─────────────────────────

/// Every match of each pattern removed, pattern after pattern.
pub open spec fn strip_matches(ps: Seq<Seq<char>>, s: Seq<char>) -> Seq<char>
    decreases ps.len(),
{
    if ps.len() == 0 {
        s
    } else {
        regex_replace_all(ps.last(), strip_matches(ps.drop_last(), s), Seq::<char>::empty())
    }
}

/// `replace_all` of a pattern, or the text unchanged where it does not compile.
pub open spec fn replaced_or_kept(p: Seq<char>, s: Seq<char>, r: Seq<char>) -> Seq<char> {
    if regex_valid(p) {
        regex_replace_all(p, s, r)
    } else {
        s
    }
}

/// Runs of three or more line breaks shortened to two, then every line's
/// leading whitespace replaced by two ideographic spaces.
pub open spec fn blank_lines_normalized(s: Seq<char>) -> Seq<char> {
    replaced_or_kept(
        LINE_INDENT_PATTERN@,
        replaced_or_kept(BLANK_RUN_PATTERN@, s, "\n\n"@),
        "　　"@,
    )
}

/// The CJK unified ideograph blocks (basic, extension A, B, C, D).
pub open spec fn is_cjk(c: char) -> bool {
    ||| ('\u{4E00}' <= c && c <= '\u{9FFF}')
    ||| ('\u{3400}' <= c && c <= '\u{4DBF}')
    ||| ('\u{20000}' <= c && c <= '\u{2A6DF}')
    ||| ('\u{2A700}' <= c && c <= '\u{2B73F}')
    ||| ('\u{2B740}' <= c && c <= '\u{2B81F}')
}

/// Whether `c` is alphabetic or numeric by Unicode's tables (`char::is_alphanumeric`).
pub uninterp spec fn unicode_alphanumeric(c: char) -> bool;

/// A character that is neither alphanumeric, whitespace nor CJK.
pub open spec fn is_special(c: char) -> bool {
    !unicode_alphanumeric(c) && !is_ws(c) && !is_cjk(c)
}

/// The number of special characters in `t`.
pub open spec fn special_count(t: Seq<char>) -> nat
    decreases t.len(),
{
    if t.len() == 0 {
        0
    } else {
        special_count(t.drop_last()) + if is_special(t.last()) {
            1nat
        } else {
            0nat
        }
    }
}

/// A line whose trimmed text is more than half special characters.
pub open spec fn is_garbled(line: Seq<char>) -> bool {
    let t = trim(line);
    t.len() > 0 && 2 * special_count(t) > t.len()
}

/// The lines that are not garbled, in order.
pub open spec fn readable_lines(ls: Seq<Seq<char>>) -> Seq<Seq<char>>
    decreases ls.len(),
{
    if ls.len() == 0 {
        ls
    } else if is_garbled(ls.last()) {
        readable_lines(ls.drop_last())
    } else {
        readable_lines(ls.drop_last()).push(ls.last())
    }
}

/// The text's lines without the garbled ones, joined with `\n`.
pub open spec fn without_garbled(s: Seq<char>) -> Seq<char> {
    join(readable_lines(lines(s)), seq!['\n'])
}

/// The whole cleaning: headers and footers, OCR fixes, separators, blank lines
/// and indentation, garbled lines.
pub open spec fn cleaned(
    headers: Seq<Seq<char>>,
    fixes: Seq<(Seq<char>, Seq<char>)>,
    separators: Seq<Seq<char>>,
    s: Seq<char>,
) -> Seq<char> {
    without_garbled(
        blank_lines_normalized(
            strip_matches(separators, pairs_replaced(strip_matches(headers, s), fixes)),
        ),
    )
}

// ───────────────────────── executable steps ─────────────────────────

/// `char::is_alphanumeric`: alphabetic or numeric by Unicode's tables.
#[verifier::external_body]
fn char_is_alphanumeric(c: char) -> (b: bool)
    ensures
        b == unicode_alphanumeric(c),
{
    c.is_alphanumeric()
}

fn char_is_cjk(c: char) -> (b: bool)
    ensures
        b == is_cjk(c),
{
    ('\u{4E00}' <= c && c <= '\u{9FFF}') || ('\u{3400}' <= c && c <= '\u{4DBF}') || (
    '\u{20000}' <= c && c <= '\u{2A6DF}') || ('\u{2A700}' <= c && c <= '\u{2B73F}') || (
    '\u{2B740}' <= c && c <= '\u{2B81F}')
}

/// Compiles the patterns, keeping those that compile.
fn compile_all(sources: &Vec<&'static str>) -> (r: Vec<CompiledPattern>)
    ensures
        pattern_sources(r@) == keep_valid(str_views(sources@)),
{
    let mut r: Vec<CompiledPattern> = Vec::new();
    let ghost sv = str_views(sources@);
    let mut k: usize = 0;
    while k < sources.len()
        invariant
            k <= sources@.len(),
            sv == str_views(sources@),
            pattern_sources(r@) == keep_valid(sv.take(k as int)),
        decreases sources@.len() - k,
    {
        proof {
            assert(sv.take(k + 1).drop_last() =~= sv.take(k as int));
            assert(sv.take(k + 1).last() == sources@[k as int]@);
        }
        match CompiledPattern::compile(sources[k]) {
            Ok(p) => {
                let ghost before = r@;
                r.push(p);
                proof {
                    assert(pattern_sources(r@) =~= pattern_sources(before).push(p.source()));
                }
            },
            Err(_) => {},
        }
        k = k + 1;
    }
    proof {
        assert(sv.take(sources@.len() as int) =~= sv);
    }
    r
}

/// Removes every match of each pattern, pattern after pattern.
fn strip_each(ps: &Vec<CompiledPattern>, s: String) -> (r: String)
    ensures
        r@ == strip_matches(pattern_sources(ps@), s@),
{
    proof {
        reveal_strlit("");
        assert(""@ =~= Seq::<char>::empty());
    }
    let ghost pv = pattern_sources(ps@);
    let ghost s0 = s@;
    let mut cur = s;
    let mut k: usize = 0;
    proof {
        assert(pv.take(0) =~= Seq::<Seq<char>>::empty());
    }
    while k < ps.len()
        invariant
            k <= ps@.len(),
            pv == pattern_sources(ps@),
            ""@ == Seq::<char>::empty(),
            cur@ == strip_matches(pv.take(k as int), s0),
        decreases ps@.len() - k,
    {
        proof {
            assert(pv.take(k + 1).drop_last() =~= pv.take(k as int));
            assert(pv.take(k + 1).last() == ps@[k as int].source());
        }
        cur = ps[k].replace_all(cur.as_str(), "");
        k = k + 1;
    }
    proof {
        assert(pv.take(ps@.len() as int) =~= pv);
    }
    cur
}

/// Applies the `(wrong, right)` replacements in order.
fn fix_each(fixes: &Vec<(String, String)>, s: String) -> (r: String)
    ensures
        r@ == pairs_replaced(s@, pair_views(fixes@)),
{
    let ghost fv = pair_views(fixes@);
    let mut cur = chars_of(s.as_str());
    let ghost c0 = cur@;
    let mut i: usize = 0;
    proof {
        assert(fv.take(0) =~= Seq::<(Seq<char>, Seq<char>)>::empty());
    }
    while i < fixes.len()
        invariant
            i <= fixes@.len(),
            fv == pair_views(fixes@),
            c0 == s@,
            cur@ == pairs_replaced(c0, fv.take(i as int)),
        decreases fixes@.len() - i,
    {
        proof {
            assert(fv.take(i + 1).drop_last() =~= fv.take(i as int));
        }
        let p = chars_of(fixes[i].0.as_str());
        let t = chars_of(fixes[i].1.as_str());
        cur = replace_chars(cur.as_slice(), p.as_slice(), t.as_slice());
        i = i + 1;
    }
    proof {
        assert(fv.take(fixes@.len() as int) =~= fv);
    }
    string_from_chars(cur.as_slice())
}

/// `replace_all` of a pattern compiled here, or the text unchanged where it does not
/// compile.
fn replace_or_keep(pattern: &str, s: String, replacement: &str) -> (r: String)
    ensures
        r@ == replaced_or_kept(pattern@, s@, replacement@),
{
    match CompiledPattern::compile(pattern) {
        Ok(p) => p.replace_all(s.as_str(), replacement),
        Err(_) => s,
    }
}

/// Whether a line is more than half special characters once trimmed.
fn line_is_garbled(line: &[char]) -> (b: bool)
    ensures
        b == is_garbled(line@),
{
    let (a, e) = trim_bounds(line, 0, line.len());
    proof {
        assert(line@.subrange(0, line@.len() as int) =~= line@);
    }
    let ghost t = line@.subrange(a as int, e as int);
    if a == e {
        return false;
    }
    let mut count: usize = 0;
    let mut i: usize = a;
    proof {
        assert(t.take(0) =~= Seq::<char>::empty());
    }
    while i < e
        invariant
            a <= i <= e <= line@.len(),
            t == line@.subrange(a as int, e as int),
            count == special_count(t.take(i - a)),
            count <= i - a,
        decreases e - i,
    {
        proof {
            assert(t.take(i - a + 1).drop_last() =~= t.take(i - a));
            assert(t.take(i - a + 1).last() == line@[i as int]);
        }
        let c = line[i];
        if !char_is_alphanumeric(c) && !is_whitespace(c) && !char_is_cjk(c) {
            count = count + 1;
        }
        i = i + 1;
    }
    proof {
        assert(t.take(e - a) =~= t);
    }
    count > (e - a) - count
}

/// Drops the garbled lines and joins the rest with `\n`.
fn drop_garbled_lines(s: &[char]) -> (r: Vec<char>)
    ensures
        r@ == without_garbled(s@),
{
    let ls = split_lines(s);
    let ghost lv = views(ls@);
    let mut kept: Vec<Vec<char>> = Vec::new();
    let mut k: usize = 0;
    proof {
        assert(lv.take(0) =~= Seq::<Seq<char>>::empty());
    }
    while k < ls.len()
        invariant
            k <= ls@.len(),
            lv == views(ls@),
            views(kept@) == readable_lines(lv.take(k as int)),
        decreases ls@.len() - k,
    {
        proof {
            assert(lv.take(k + 1).drop_last() =~= lv.take(k as int));
            assert(lv.take(k + 1).last() == ls@[k as int]@);
        }
        if !line_is_garbled(ls[k].as_slice()) {
            let ghost before = kept@;
            kept.push(ls[k].clone());
            proof {
                assert(views(kept@) =~= views(before).push(ls@[k as int]@));
            }
        }
        k = k + 1;
    }
    proof {
        assert(lv.take(ls@.len() as int) =~= lv);
    }
    let nl = vec!['\n'];
    assert(nl@ =~= seq!['\n']);
    join_chars(&kept, nl.as_slice())
}

// ───────────────────────── the cleaner ─────────────────────────

/// The kind of text a chapter holds: prose, verse or dialogue.
#[derive(Debug, Clone, Copy, PartialEq, Eq, Structural)]
pub enum FormatType {
    Normal,
    Poetry,
    Dialogue,
}


/// Cleans imported chapter text.
pub struct ContentCleaner {
    header_footer_patterns: Vec<CompiledPattern>,
    ocr_fixes: Vec<(String, String)>,
    separator_patterns: Vec<CompiledPattern>,
}

impl ContentCleaner {
    /// The header and footer patterns in use.
    pub closed spec fn headers(&self) -> Seq<Seq<char>> {
        pattern_sources(self.header_footer_patterns@)
    }

    /// The OCR corrections in use.
    pub closed spec fn fixes(&self) -> Seq<(Seq<char>, Seq<char>)> {
        pair_views(self.ocr_fixes@)
    }

    /// The separator patterns in use.
    pub closed spec fn separators(&self) -> Seq<Seq<char>> {
        pattern_sources(self.separator_patterns@)
    }

    /// A cleaner with the built-in patterns (those that compile) and corrections.
    pub fn new() -> (c: ContentCleaner)
        ensures
            c.headers() == keep_valid(header_footer_sources()),
            c.fixes() == ocr_fix_table(),
            c.separators() == keep_valid(separator_sources()),
    {
        let hf = vec![
            PAGE_NUMBER_PATTERN,
            DASHED_PAGE_PATTERN,
            PAGE_COUNTER_PATTERN,
            SOURCE_LINE_PATTERN,
            SITE_LINE_PATTERN,
            COPYRIGHT_LINE_PATTERN,
            DATE_LINE_PATTERN,
        ];
        assert(str_views(hf@) =~= header_footer_sources());
        let sep = vec![RULE_LINE_PATTERN, DOT_LINE_PATTERN, SHAPE_LINE_PATTERN];
        assert(str_views(sep@) =~= separator_sources());
        let fixes = vec![
            ("巳".to_owned(), "已".to_owned()),
            ("己".to_owned(), "已".to_owned()),
            ("巴".to_owned(), "把".to_owned()),
            ("，。".to_owned(), "，".to_owned()),
            ("。，".to_owned(), "。".to_owned()),
            ("！。".to_owned(), "！".to_owned()),
            ("？。".to_owned(), "？".to_owned()),
            (" ，".to_owned(), "，".to_owned()),
            (" 。".to_owned(), "。".to_owned()),
            (" ！".to_owned(), "！".to_owned()),
            (" ？".to_owned(), "？".to_owned()),
        ];
        assert(pair_views(fixes@) =~= ocr_fix_table());
        ContentCleaner {
            header_footer_patterns: compile_all(&hf),
            ocr_fixes: fixes,
            separator_patterns: compile_all(&sep),
        }
    }

    /// Cleans `content` through all steps.
    pub fn clean(&self, content: &str) -> (r: String)
        ensures
            r@ == cleaned(self.headers(), self.fixes(), self.separators(), content@),
    {
        let s = strip_each(&self.header_footer_patterns, content.to_owned());
        let s = fix_each(&self.ocr_fixes, s);
        let s = strip_each(&self.separator_patterns, s);
        proof {
            reveal_strlit("\n\n");
        }
        let s = replace_or_keep(BLANK_RUN_PATTERN, s, "\n\n");
        let s = replace_or_keep(LINE_INDENT_PATTERN, s, "　　");
        let v = drop_garbled_lines(chars_of(s.as_str()).as_slice());
        string_from_chars(v.as_slice())
    }
}

impl ProcessingStage for ContentCleaner {
    open spec fn outcome(&self, input: PipelineDataView) -> Result<PipelineDataView, Seq<char>> {
        Ok(
            PipelineDataView {
                content: cleaned(self.headers(), self.fixes(), self.separators(), input.content),
                ..input
            },
        )
    }

    open spec fn specified(&self) -> bool {
        true
    }

    open spec fn name(&self) -> Seq<char> {
        "ContentCleaner"@
    }

    open spec fn skippable(&self) -> bool {
        false
    }

    fn process(&self, input: PipelineData) -> (r: Result<PipelineData, StageError>) {
        let mut input = input;
        let c = self.clean(input.content.as_str());
        input.content = c;
        Ok(input)
    }

    fn stage_name(&self) -> (r: &'static str) {
        "ContentCleaner"
    }

    fn is_skippable(&self) -> (b: bool) {
        false
    }
}

// ───────────────────────── format line counts ─────────────────────────

/// A line with something besides whitespace.
pub open spec fn is_nonblank(l: Seq<char>) -> bool {
    trim(l).len() > 0
}

/// A non-blank line whose trimmed text is under 20 bytes of UTF-8.
pub open spec fn is_short_line(l: Seq<char>) -> bool {
    is_nonblank(l) && byte_length(trim(l)) < 20
}

/// A non-blank line whose trimmed text opens with `"` or `「`.
pub open spec fn is_quote_line(l: Seq<char>) -> bool {
    is_nonblank(l) && (trim(l)[0] == '"' || trim(l)[0] == '「')
}

/// The numbers of non-blank, short and quote lines among `ls`.
pub open spec fn line_tallies(ls: Seq<Seq<char>>) -> (nat, nat, nat)
    decreases ls.len(),
{
    if ls.len() == 0 {
        (0, 0, 0)
    } else {
        let (n, s, q) = line_tallies(ls.drop_last());
        let l = ls.last();
        (
            n + if is_nonblank(l) { 1nat } else { 0nat },
            s + if is_short_line(l) { 1nat } else { 0nat },
            q + if is_quote_line(l) { 1nat } else { 0nat },
        )
    }
}

/// Line counts behind format detection (the ratios are taken of these).
#[derive(Debug, Clone, Copy, PartialEq, Eq, Structural)]
pub struct FormatLineCounts {
    /// All lines.
    pub lines: usize,
    /// Lines with something besides whitespace.
    pub non_empty: usize,
    /// Non-blank lines under 20 bytes once trimmed.
    pub short_lines: usize,
    /// Non-blank lines opening with a quote once trimmed.
    pub quote_lines: usize,
}

/// Whether the UTF-8 encoding of `t` is shorter than `limit` bytes.
fn utf8_shorter_than(t: &[char], limit: usize) -> (b: bool)
    requires
        limit <= 1024,
    ensures
        b == (byte_length(t@) < limit),
{
    let mut acc: usize = 0;
    let mut i: usize = 0;
    proof {
        lemma_char_start_end(t@);
    }
    while i < t.len() && acc < limit
        invariant
            i <= t@.len(),
            limit <= 1024,
            acc as int == char_start(t@, i as int),
            acc < limit + 4,
        decreases t@.len() - i,
    {
        proof {
            lemma_char_start_step(t@, i as int);
        }
        acc = acc + utf8_width(t[i]);
        i = i + 1;
    }
    proof {
        lemma_char_start_mono(t@, i as int, t@.len() as int);
        lemma_char_start_end(t@);
    }
    acc < limit
}

/// Counts the lines of `content` that format detection looks at.
pub fn format_line_counts(content: &str) -> (r: FormatLineCounts)
    ensures
        r.lines == lines(content@).len(),
        (r.non_empty as nat, r.short_lines as nat, r.quote_lines as nat) == line_tallies(
            lines(content@),
        ),
{
    let ls = split_lines(chars_of(content).as_slice());
    let ghost lv = views(ls@);
    let mut n: usize = 0;
    let mut sh: usize = 0;
    let mut q: usize = 0;
    let mut k: usize = 0;
    proof {
        assert(lv.take(0) =~= Seq::<Seq<char>>::empty());
    }
    while k < ls.len()
        invariant
            k <= ls@.len(),
            lv == views(ls@),
            (n as nat, sh as nat, q as nat) == line_tallies(lv.take(k as int)),
            n <= k,
            sh <= k,
            q <= k,
        decreases ls@.len() - k,
    {
        proof {
            assert(lv.take(k + 1).drop_last() =~= lv.take(k as int));
            assert(lv.take(k + 1).last() == ls@[k as int]@);
        }
        let line = ls[k].as_slice();
        let (a, e) = trim_bounds(line, 0, line.len());
        proof {
            assert(line@.subrange(0, line@.len() as int) =~= line@);
        }
        if a < e {
            n = n + 1;
            let t = slice_chars(line, a, e);
            if utf8_shorter_than(t.as_slice(), 20) {
                sh = sh + 1;
            }
            if line[a] == '"' || line[a] == '「' {
                q = q + 1;
            }
        }
        k = k + 1;
    }
    proof {
        assert(lv.take(ls@.len() as int) =~= lv);
    }
    FormatLineCounts { lines: ls.len(), non_empty: n, short_lines: sh, quote_lines: q }
}

/// `s[lo..hi]` as a vector.
fn slice_chars(s: &[char], lo: usize, hi: usize) -> (r: Vec<char>)
    requires
        lo <= hi <= s@.len(),
    ensures
        r@ == s@.subrange(lo as int, hi as int),
{
    let mut r: Vec<char> = Vec::new();
    let mut i = lo;
    while i < hi
        invariant
            lo <= i <= hi <= s@.len(),
            r@ == s@.subrange(lo as int, i as int),
        decreases hi - i,
    {
        r.push(s[i]);
        i = i + 1;
    }
    r
}

/// No line that the removal of garbled lines keeps is garbled, and every kept line
/// is one of the input lines.
pub proof fn lemma_readable_lines_not_garbled(ls: Seq<Seq<char>>)
    ensures
        readable_lines(ls).len() <= ls.len(),
        forall|i: int|
            0 <= i < readable_lines(ls).len() ==> !is_garbled(#[trigger] readable_lines(ls)[i])
                && ls.contains(readable_lines(ls)[i]),
    decreases ls.len(),
{
    if ls.len() > 0 {
        let rest = readable_lines(ls.drop_last());
        lemma_readable_lines_not_garbled(ls.drop_last());
        assert forall|i: int| 0 <= i < readable_lines(ls).len() implies !is_garbled(
            #[trigger] readable_lines(ls)[i],
        ) && ls.contains(readable_lines(ls)[i]) by {
            if i < rest.len() {
                assert(readable_lines(ls)[i] == rest[i]);
                let j = choose|j: int| 0 <= j < ls.drop_last().len() && ls.drop_last()[j] == rest[i];
                assert(ls[j] == rest[i]);
            } else {
                assert(readable_lines(ls)[i] == ls.last());
                assert(ls[ls.len() - 1] == ls.last());
            }
        }
    }
}

} // verus!
