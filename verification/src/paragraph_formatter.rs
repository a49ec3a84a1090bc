//! Paragraph formatting of plain text, after preprocessing and before layout:
//! re-paragraphing, cutting of over-long paragraphs, then first-line indent.
//!
//! Dialogue lines are not merged into the previous paragraph, verse keeps its
//! line breaks, chapter headings stand alone.
use vstd::prelude::*;
use crate::pattern::{CompiledPattern, regex_valid, regex_is_match};
use crate::text::{
    chars_of, string_from_chars, split_lines, lines, trim, trim_start, trim_bounds, views, join,
    join_chars, push_all, lead_ws, is_ws,
};
use crate::paragraph_splitter::{slice_range, split_pieces, split_ranges_spec};
use crate::paragraph_format::{ParagraphFormatSettings, ReParagraphMode, spec_effective_split_threshold};

verus! {

// ───────────────────────── line classification ─────────────────────────

/// `第…章` style headings (one to ten characters between 第 and the unit).
pub const HEADING_PATTERN_CN: &'static str = r"^第.{1,10}[章节回集卷]";

/// `Chapter N` headings.
pub const HEADING_PATTERN_EN: &'static str = r"^Chapter\s+\d+";

/// Numbered headings such as `12. ` or `3、 `.
pub const HEADING_PATTERN_NUM: &'static str = r"^\d+[\.、]\s";

pub open spec fn matches_pattern(p: Seq<char>, t: Seq<char>) -> bool {
    regex_valid(p) && regex_is_match(p, t)
}

/// A chapter heading line.
pub open spec fn chapter_heading(t: Seq<char>) -> bool {
    matches_pattern(HEADING_PATTERN_CN@, t) || matches_pattern(HEADING_PATTERN_EN@, t)
        || matches_pattern(HEADING_PATTERN_NUM@, t)
}

/// The three heading regexes, compiled once for a formatting run.
struct Headings {
    cn: Option<CompiledPattern>,
    en: Option<CompiledPattern>,
    num: Option<CompiledPattern>,
}

impl Headings {
    spec fn wf(&self) -> bool {
        &&& (self.cn is Some <==> regex_valid(HEADING_PATTERN_CN@))
        &&& (self.cn matches Some(p) ==> p.source() == HEADING_PATTERN_CN@)
        &&& (self.en is Some <==> regex_valid(HEADING_PATTERN_EN@))
        &&& (self.en matches Some(p) ==> p.source() == HEADING_PATTERN_EN@)
        &&& (self.num is Some <==> regex_valid(HEADING_PATTERN_NUM@))
        &&& (self.num matches Some(p) ==> p.source() == HEADING_PATTERN_NUM@)
    }

    fn new() -> (h: Headings)
        ensures
            h.wf(),
    {
        let cn = match CompiledPattern::compile(HEADING_PATTERN_CN) {
            Ok(p) => Some(p),
            Err(_) => None,
        };
        let en = match CompiledPattern::compile(HEADING_PATTERN_EN) {
            Ok(p) => Some(p),
            Err(_) => None,
        };
        let num = match CompiledPattern::compile(HEADING_PATTERN_NUM) {
            Ok(p) => Some(p),
            Err(_) => None,
        };
        Headings { cn, en, num }
    }

    fn matches(&self, t: &[char]) -> (b: bool)
        requires
            self.wf(),
        ensures
            b == chapter_heading(t@),
    {
        let s = string_from_chars(t);
        let a = match &self.cn {
            Some(p) => p.is_match(s.as_str()),
            None => false,
        };
        let b = match &self.en {
            Some(p) => p.is_match(s.as_str()),
            None => false,
        };
        let c = match &self.num {
            Some(p) => p.is_match(s.as_str()),
            None => false,
        };
        a || b || c
    }
}

/// A dialogue line: it opens with a quote or bracket.
pub open spec fn dialogue_line(t: Seq<char>) -> bool {
    t.len() > 0 && (t[0] == '「' || t[0] == '『' || t[0] == '“' || t[0] == '”' || t[0] == '"'
        || t[0] == '（' || t[0] == '(')
}

/// The line ends with a closing quote.
pub open spec fn closed_dialogue_end(t: Seq<char>) -> bool {
    t.len() > 0 && (t.last() == '」' || t.last() == '』' || t.last() == '”' || t.last() == '"')
}

/// A quotation line (`>` or `＞` prefix): its body, prefix and leading blanks removed.
pub open spec fn quote_body(t: Seq<char>) -> Option<Seq<char>> {
    if t.len() > 0 && (t[0] == '>' || t[0] == '＞') {
        Some(trim_start(t.drop_first()))
    } else {
        None
    }
}

fn is_dialogue(t: &[char]) -> (b: bool)
    ensures
        b == dialogue_line(t@),
{
    t.len() > 0 && (t[0] == '「' || t[0] == '『' || t[0] == '“' || t[0] == '”' || t[0] == '"'
        || t[0] == '（' || t[0] == '(')
}

fn ends_closed(t: &[char]) -> (b: bool)
    ensures
        b == closed_dialogue_end(t@),
{
    t.len() > 0 && {
        let c = t[t.len() - 1];
        c == '」' || c == '』' || c == '”' || c == '"'
    }
}

fn strip_quote(t: &[char]) -> (r: Option<Vec<char>>)
    ensures
        match r {
            Some(b) => quote_body(t@) == Some(b@),
            None => quote_body(t@) is None,
        },
{
    if t.len() > 0 && (t[0] == '>' || t[0] == '＞') {
        let (a, e) = trim_bounds(t, 1, t.len());
        proof {
            assert(t@.subrange(1, t@.len() as int) =~= t@.drop_first());
        }
        Some(slice_range(t, a, t.len()))
    } else {
        None
    }
}

/// A verse candidate: 2 to 16 characters, no strong sentence end, not a heading,
/// dialogue or quotation line.
pub open spec fn verse_candidate(line: Seq<char>) -> bool {
    let t = trim(line);
    t.len() > 0 && !chapter_heading(t) && !dialogue_line(t) && quote_body(t) is None && 2 <= t.len()
        <= 16 && !(t.last() == '。' || t.last() == '！' || t.last() == '？' || t.last() == '；'
        || t.last() == '…')
}

/// Number of consecutive verse candidates ending at `i`.
pub open spec fn run_left(ls: Seq<Seq<char>>, i: int) -> nat
    decreases i + 1,
{
    if i < 0 || i >= ls.len() || !verse_candidate(ls[i]) {
        0
    } else {
        1 + run_left(ls, i - 1)
    }
}

/// Number of consecutive verse candidates starting at `i`.
pub open spec fn run_right(ls: Seq<Seq<char>>, i: int) -> nat
    decreases ls.len() - i,
{
    if i < 0 || i >= ls.len() || !verse_candidate(ls[i]) {
        0
    } else {
        1 + run_right(ls, i + 1)
    }
}

/// A verse line: part of a run of at least three verse candidates.
pub open spec fn verse_line(ls: Seq<Seq<char>>, i: int) -> bool {
    verse_candidate(ls[i]) && run_left(ls, i) + run_right(ls, i) >= 4
}

/// The lines `a..b` are all verse candidates.
pub open spec fn candidate_run(ls: Seq<Seq<char>>, a: int, b: int) -> bool {
    0 <= a <= b <= ls.len() && forall|k: int| a <= k < b ==> #[trigger] verse_candidate(ls[k])
}

proof fn lemma_run_left_cands(ls: Seq<Seq<char>>, i: int)
    requires
        0 <= i < ls.len(),
    ensures
        run_left(ls, i) <= i + 1,
        candidate_run(ls, i + 1 - run_left(ls, i), i + 1),
    decreases i + 1,
{
    if verse_candidate(ls[i]) {
        if i > 0 {
            lemma_run_left_cands(ls, i - 1);
        } else {
            assert(run_left(ls, i - 1) == 0);
        }
        assert forall|k: int| i + 1 - run_left(ls, i) <= k < i + 1 implies #[trigger] verse_candidate(
            ls[k],
        ) by {
            if k < i {
                assert(candidate_run(ls, i - run_left(ls, i - 1), i));
            }
        }
    }
}

proof fn lemma_run_right_cands(ls: Seq<Seq<char>>, i: int)
    requires
        0 <= i < ls.len(),
    ensures
        i + run_right(ls, i) <= ls.len(),
        candidate_run(ls, i, i + run_right(ls, i)),
    decreases ls.len() - i,
{
    if verse_candidate(ls[i]) {
        if i + 1 < ls.len() {
            lemma_run_right_cands(ls, i + 1);
        } else {
            assert(run_right(ls, i + 1) == 0);
        }
        assert forall|k: int| i <= k < i + run_right(ls, i) implies #[trigger] verse_candidate(ls[k]) by {
            if k > i {
                assert(candidate_run(ls, i + 1, i + 1 + run_right(ls, i + 1)));
            }
        }
    }
}

proof fn lemma_run_left_covers(ls: Seq<Seq<char>>, a: int, i: int)
    requires
        0 <= a <= i < ls.len(),
        candidate_run(ls, a, i + 1),
    ensures
        run_left(ls, i) >= i - a + 1,
    decreases i - a,
{
    assert(verse_candidate(ls[i]));
    if a < i {
        lemma_run_left_covers(ls, a, i - 1);
    }
}

proof fn lemma_run_right_covers(ls: Seq<Seq<char>>, i: int, b: int)
    requires
        0 <= i < b <= ls.len(),
        candidate_run(ls, i, b),
    ensures
        run_right(ls, i) >= b - i,
    decreases b - i,
{
    assert(verse_candidate(ls[i]));
    if i + 1 < b {
        lemma_run_right_covers(ls, i + 1, b);
    }
}

/// A line is a verse line exactly when it lies in a run of at least three
/// consecutive verse candidates.
pub proof fn lemma_verse_line_in_run(ls: Seq<Seq<char>>, i: int)
    requires
        0 <= i < ls.len(),
    ensures
        verse_line(ls, i) <==> exists|a: int, b: int|
            a <= i < b && b - a >= 3 && #[trigger] candidate_run(ls, a, b),
{
    if verse_line(ls, i) {
        lemma_run_left_cands(ls, i);
        lemma_run_right_cands(ls, i);
        let a = i + 1 - run_left(ls, i);
        let b = i + run_right(ls, i);
        assert(candidate_run(ls, a, b)) by {
            assert forall|k: int| a <= k < b implies #[trigger] verse_candidate(ls[k]) by {
                if k <= i {
                    assert(candidate_run(ls, i + 1 - run_left(ls, i), i + 1));
                } else {
                    assert(candidate_run(ls, i, i + run_right(ls, i)));
                }
            }
        }
    }
    if exists|a: int, b: int| a <= i < b && b - a >= 3 && #[trigger] candidate_run(ls, a, b) {
        let (a, b) = choose|a: int, b: int| a <= i < b && b - a >= 3 && #[trigger] candidate_run(ls, a, b);
        assert(candidate_run(ls, a, i + 1));
        assert(candidate_run(ls, i, b));
        lemma_run_left_covers(ls, a, i);
        lemma_run_right_covers(ls, i, b);
        assert(verse_candidate(ls[i]));
    }
}

fn verse_flags(ls: &Vec<Vec<char>>, h: &Headings) -> (f: Vec<bool>)
    requires
        h.wf(),
    ensures
        f@.len() == ls@.len(),
        forall|i: int| 0 <= i < ls@.len() ==> #[trigger] f@[i] == verse_line(views(ls@), i),
{
    let ghost lv = views(ls@);
    let n = ls.len();
    let mut cand: Vec<bool> = Vec::new();
    let mut left: Vec<usize> = Vec::new();
    let mut i: usize = 0;
    while i < n
        invariant
            i <= n == ls@.len() == lv.len(),
            lv == views(ls@),
            h.wf(),
            cand@.len() == i,
            left@.len() == i,
            forall|k: int| 0 <= k < i ==> #[trigger] cand@[k] == verse_candidate(lv[k]),
            forall|k: int| 0 <= k < i ==> #[trigger] left@[k] == run_left(lv, k),
            forall|k: int| 0 <= k < i ==> left@[k] <= k + 1,
        decreases n - i,
    {
        let line = &ls[i];
        assert(lv[i as int] == line@);
        let (a, b) = trim_bounds(line.as_slice(), 0, line.len());
        proof {
            assert(line@.subrange(0, line@.len() as int) =~= line@);
        }
        let t = slice_range(line.as_slice(), a, b);
        let c = t.len() > 0 && !h.matches(t.as_slice()) && !is_dialogue(t.as_slice()) && strip_quote(
            t.as_slice(),
        ).is_none() && 2 <= t.len() && t.len() <= 16 && {
            let l = t[t.len() - 1];
            !(l == '。' || l == '！' || l == '？' || l == '；' || l == '…')
        };
        assert(t@ == trim(lv[i as int]));
        assert(c == verse_candidate(lv[i as int]));
        cand.push(c);
        let l: usize = if !c {
            0
        } else if i == 0 {
            1
        } else {
            left[i - 1] + 1
        };
        proof {
            if c && i > 0 {
                assert(left@[i - 1] == run_left(lv, i - 1));
            }
            assert(run_left(lv, i as int) == if !verse_candidate(lv[i as int]) {
                0
            } else {
                1 + run_left(lv, i - 1)
            });
            assert(run_left(lv, -1) == 0);
            assert(l == run_left(lv, i as int));
        }
        left.push(l);
        i = i + 1;
    }
    let mut right: Vec<usize> = vec![0; n];
    let mut j = n;
    while j > 0
        invariant
            j <= n == ls@.len() == lv.len(),
            right@.len() == n,
            cand@.len() == n,
            forall|k: int| 0 <= k < n ==> #[trigger] cand@[k] == verse_candidate(lv[k]),
            forall|k: int| j <= k < n ==> #[trigger] right@[k] == run_right(lv, k),
            forall|k: int| j <= k < n ==> right@[k] <= n - k,
        decreases j,
    {
        let k = j - 1;
        let r: usize = if !cand[k] {
            0
        } else if k + 1 == n {
            1
        } else {
            right[k + 1] + 1
        };
        proof {
            if cand@[k as int] && k + 1 < n {
                assert(right@[k + 1] == run_right(lv, k + 1));
            }
            assert(run_right(lv, n as int) == 0);
            assert(cand@[k as int] == verse_candidate(lv[k as int]));
            assert(r == run_right(lv, k as int));
        }
        right.set(k, r);
        j = k;
    }
    let mut f: Vec<bool> = Vec::new();
    let mut k: usize = 0;
    while k < n
        invariant
            k <= n == ls@.len() == lv.len(),
            lv == views(ls@),
            right@.len() == n,
            cand@.len() == n,
            left@.len() == n,
            forall|m: int| 0 <= m < n ==> #[trigger] cand@[m] == verse_candidate(lv[m]),
            forall|m: int| 0 <= m < n ==> #[trigger] right@[m] == run_right(lv, m),
            forall|m: int| 0 <= m < n ==> #[trigger] left@[m] == run_left(lv, m),
            forall|m: int| 0 <= m < n ==> right@[m] <= n - m,
            forall|m: int| 0 <= m < n ==> left@[m] <= m + 1,
            f@.len() == k,
            forall|m: int| 0 <= m < k ==> #[trigger] f@[m] == verse_line(lv, m),
        decreases n - k,
    {
        let long_run = if left[k] >= 4 {
            true
        } else {
            right[k] >= 4 - left[k]
        };
        f.push(cand[k] && long_run);
        k = k + 1;
    }
    f
}

// ───────────────────────── smart re-paragraphing ─────────────────────────

/// Re-paragraphing state: finished paragraphs and the paragraph being gathered.
pub struct SmartState {
    pub paras: Seq<Seq<char>>,
    pub cur: Seq<char>,
}

/// Closes the paragraph being gathered, if any.
pub open spec fn flush(st: SmartState) -> SmartState {
    if st.cur.len() > 0 {
        SmartState { paras: st.paras.push(st.cur), cur: Seq::<char>::empty() }
    } else {
        st
    }
}

/// Closes the current paragraph and adds `p` as a paragraph of its own.
pub open spec fn alone(st: SmartState, p: Seq<char>) -> SmartState {
    let f = flush(st);
    SmartState { paras: f.paras.push(p), cur: Seq::<char>::empty() }
}

/// One line of smart re-paragraphing.
///
/// A blank line ends the paragraph; a quotation line (prefix removed), a heading
/// and a verse line stand alone; an indented line starts a new paragraph; a
/// dialogue line after a blank line does too; a short line (under 20
/// characters, not dialogue) ends the paragraph it joins; a closed dialogue line
/// ends its paragraph. Other lines are appended to the current paragraph.
pub open spec fn smart_step(ls: Seq<Seq<char>>, i: int, st: SmartState) -> SmartState {
    let line = ls[i];
    let t = trim(line);
    if t.len() == 0 {
        flush(st)
    } else if quote_body(t) is Some {
        alone(st, quote_body(t).unwrap())
    } else if chapter_heading(t) {
        alone(st, t)
    } else if verse_line(ls, i) {
        alone(st, t)
    } else {
        let s1 = if lead_ws(line) > 0 && st.cur.len() > 0 { flush(st) } else { st };
        let prev_blank = i > 0 && trim(ls[i - 1]).len() == 0;
        let s2 = if dialogue_line(t) && s1.cur.len() > 0 && prev_blank { flush(s1) } else { s1 };
        let s3 = SmartState { paras: s2.paras, cur: s2.cur + t };
        if t.len() < 20 && !dialogue_line(t) && s2.cur.len() > 0 {
            flush(s3)
        } else if dialogue_line(t) && closed_dialogue_end(t) {
            flush(s3)
        } else {
            s3
        }
    }
}

/// In smart re-paragraphing an indented line (not blank, not a quotation, heading
/// or verse line) never joins the paragraph gathered before it: that paragraph is
/// closed, and the line's text starts a paragraph of its own.
pub proof fn lemma_indented_line_starts_paragraph(ls: Seq<Seq<char>>, i: int, st: SmartState)
    requires
        0 <= i < ls.len(),
        trim(ls[i]).len() > 0,
        lead_ws(ls[i]) > 0,
        quote_body(trim(ls[i])) is None,
        !chapter_heading(trim(ls[i])),
        !verse_line(ls, i),
    ensures
        ({
            let r = smart_step(ls, i, st);
            let closed = if st.cur.len() > 0 { st.paras.push(st.cur) } else { st.paras };
            (r.paras == closed && r.cur == trim(ls[i])) || (r.paras == closed.push(trim(ls[i]))
                && r.cur.len() == 0)
        }),
{
    assert(Seq::<char>::empty() + trim(ls[i]) =~= trim(ls[i]));
}

/// In smart re-paragraphing a blank line closes the paragraph gathered so far, and
/// a quotation line or a heading is closed off as a paragraph of its own: nothing
/// before it joins it and nothing after it can.
pub proof fn lemma_smart_breaks(ls: Seq<Seq<char>>, i: int, st: SmartState)
    requires
        0 <= i < ls.len(),
    ensures
        ({
            let r = smart_step(ls, i, st);
            let t = trim(ls[i]);
            let closed = if st.cur.len() > 0 { st.paras.push(st.cur) } else { st.paras };
            &&& t.len() == 0 ==> r.paras == closed && r.cur.len() == 0
            &&& t.len() > 0 && quote_body(t) is Some ==> r.paras == closed.push(quote_body(t)->0)
                && r.cur.len() == 0
            &&& t.len() > 0 && quote_body(t) is None && chapter_heading(t) ==> r.paras == closed.push(t)
                && r.cur.len() == 0
        }),
{
}

/// A text of two lines, the second indented, makes two paragraphs: each trimmed
/// line on its own (when neither is a quotation or a heading).
pub proof fn lemma_indented_second_line(text: Seq<char>, a: Seq<char>, b: Seq<char>)
    requires
        lines(text) == seq![a, b],
        trim(a).len() > 0,
        trim(b).len() > 0,
        lead_ws(b) > 0,
        quote_body(trim(a)) is None,
        quote_body(trim(b)) is None,
        !chapter_heading(trim(a)),
        !chapter_heading(trim(b)),
    ensures
        smart_paragraphs(text) == trim(a) + para_sep() + trim(b),
{
    let ls = seq![a, b];
    assert(run_left(ls, -1) == 0);
    assert(run_right(ls, 2) == 0);
    assert(!verse_line(ls, 0)) by {
        assert(run_left(ls, 0) <= 1);
        if verse_candidate(ls[1]) {
            assert(run_right(ls, 1) == 1);
        }
        assert(run_right(ls, 0) <= 2);
    }
    assert(!verse_line(ls, 1)) by {
        assert(run_right(ls, 1) <= 1);
        if verse_candidate(ls[0]) {
            assert(run_left(ls, 0) == 1);
        }
        assert(run_left(ls, 1) <= 2);
    }
    let s0 = SmartState { paras: Seq::<Seq<char>>::empty(), cur: Seq::<char>::empty() };
    assert(smart_run(ls, 0) == s0);
    let s1 = smart_step(ls, 0, s0);
    assert(smart_run(ls, 1) == s1);
    assert(Seq::<char>::empty() + trim(a) =~= trim(a));
    assert((s1.paras == Seq::<Seq<char>>::empty() && s1.cur == trim(a)) || (s1.paras == seq![trim(a)]
        && s1.cur.len() == 0)) by {
        assert(Seq::<Seq<char>>::empty().push(trim(a)) =~= seq![trim(a)]);
    }
    lemma_indented_line_starts_paragraph(ls, 1, s1);
    let s2 = smart_step(ls, 1, s1);
    assert(smart_run(ls, 2) == s2);
    let closed = if s1.cur.len() > 0 { s1.paras.push(s1.cur) } else { s1.paras };
    assert(closed =~= seq![trim(a)]);
    let f = flush(s2);
    assert(f.paras =~= seq![trim(a), trim(b)]);
    assert(seq![trim(a), trim(b)].drop_last() =~= seq![trim(a)]);
    assert(join(seq![trim(a)], para_sep()) == trim(a));
    assert(join(f.paras, para_sep()) == trim(a) + para_sep() + trim(b));
    assert(lines(text).len() == 2);
}

pub open spec fn smart_run(ls: Seq<Seq<char>>, n: int) -> SmartState
    decreases n,
{
    if n <= 0 {
        SmartState { paras: Seq::<Seq<char>>::empty(), cur: Seq::<char>::empty() }
    } else {
        smart_step(ls, n - 1, smart_run(ls, n - 1))
    }
}

/// No line feed inside `s`.
pub open spec fn single_line(s: Seq<char>) -> bool {
    forall|j: int| 0 <= j < s.len() ==> #[trigger] s[j] != '\n'
}

proof fn lemma_smart_step_single_lines(ls: Seq<Seq<char>>, i: int, st: SmartState)
    requires
        0 <= i < ls.len(),
        single_line(ls[i]),
        single_line(st.cur),
        forall|k: int| 0 <= k < st.paras.len() ==> single_line(#[trigger] st.paras[k]),
    ensures
        single_line(smart_step(ls, i, st).cur),
        forall|k: int|
            0 <= k < smart_step(ls, i, st).paras.len() ==> single_line(
                #[trigger] smart_step(ls, i, st).paras[k],
            ),
{
    let t = trim(ls[i]);
    assert(single_line(t)) by {
        assert forall|j: int| 0 <= j < t.len() implies #[trigger] t[j] != '\n' by {
            crate::text::lemma_lead_ws_bound(ls[i]);
            crate::text::lemma_trail_ws_bound(trim_start(ls[i]));
            assert(t[j] == trim_start(ls[i])[j]);
            assert(trim_start(ls[i])[j] == ls[i][j + lead_ws(ls[i])]);
        }
    }
    if quote_body(t) is Some {
        let b = quote_body(t).unwrap();
        assert(single_line(b)) by {
            assert forall|j: int| 0 <= j < b.len() implies #[trigger] b[j] != '\n' by {
                let d = t.drop_first();
                crate::text::lemma_lead_ws_bound(d);
                assert(b[j] == d[j + lead_ws(d)]);
                assert(d[j + lead_ws(d)] == t[j + lead_ws(d) + 1]);
            }
        }
    }
    let c = st.cur + t;
    assert(single_line(st.cur) && single_line(t) ==> single_line(c)) by {
        assert forall|j: int| 0 <= j < c.len() implies #[trigger] c[j] != '\n' by {
            if j < st.cur.len() {
                assert(c[j] == st.cur[j]);
            } else {
                assert(c[j] == t[j - st.cur.len()]);
            }
        }
    }
}

/// Smart re-paragraphing merges soft line breaks: no paragraph it produces holds
/// a line feed (paragraphs are separated by blank lines only).
pub proof fn lemma_smart_paragraphs_are_single_lines(text: Seq<char>)
    ensures
        forall|k: int|
            0 <= k < flush(smart_run(lines(text), lines(text).len() as int)).paras.len()
                ==> single_line(
                #[trigger] flush(smart_run(lines(text), lines(text).len() as int)).paras[k],
            ),
{
    let ls = lines(text);
    crate::text::lemma_lines_no_newline(text);
    assert forall|n: int| 0 <= n <= ls.len() implies ({
        let st = #[trigger] smart_run(ls, n);
        single_line(st.cur) && forall|k: int|
            0 <= k < st.paras.len() ==> single_line(#[trigger] st.paras[k])
    }) by {
        lemma_smart_run_single_lines(ls, n);
    }
    let st = smart_run(ls, ls.len() as int);
    assert(single_line(st.cur) && forall|k: int|
        0 <= k < st.paras.len() ==> single_line(#[trigger] st.paras[k]));
    let f = flush(st);
    assert forall|k: int| 0 <= k < f.paras.len() implies single_line(#[trigger] f.paras[k]) by {
        if k < st.paras.len() {
            assert(f.paras[k] == st.paras[k]);
        }
    }
}

proof fn lemma_smart_run_single_lines(ls: Seq<Seq<char>>, n: int)
    requires
        0 <= n <= ls.len(),
        forall|k: int, j: int| 0 <= k < ls.len() && 0 <= j < ls[k].len() ==> #[trigger] ls[k][j] != '\n',
    ensures
        single_line(smart_run(ls, n).cur),
        forall|k: int| 0 <= k < smart_run(ls, n).paras.len() ==> single_line(#[trigger] smart_run(ls, n).paras[k]),
    decreases n,
{
    if n > 0 {
        lemma_smart_run_single_lines(ls, n - 1);
        assert(single_line(ls[n - 1])) by {
            assert forall|j: int| 0 <= j < ls[n - 1].len() implies #[trigger] ls[n - 1][j] != '\n' by {
                assert(ls[n - 1][j] != '\n');
            }
        }
        lemma_smart_step_single_lines(ls, n - 1, smart_run(ls, n - 1));
    }
}

/// The blank-line separator between paragraphs.
pub open spec fn para_sep() -> Seq<char> {
    seq!['\n', '\n']
}

/// Smart re-paragraphing of a text: its paragraphs joined with blank lines.
pub open spec fn smart_paragraphs(text: Seq<char>) -> Seq<char> {
    let ls = lines(text);
    join(flush(smart_run(ls, ls.len() as int)).paras, para_sep())
}

fn flush_exec(paras: &mut Vec<Vec<char>>, cur: &mut Vec<char>)
    ensures
        (SmartState { paras: views(final(paras)@), cur: final(cur)@ }) == flush(
            SmartState { paras: views(old(paras)@), cur: old(cur)@ },
        ),
{
    if cur.len() > 0 {
        let mut c: Vec<char> = Vec::new();
        std::mem::swap(&mut c, cur);
        let ghost p0 = paras@;
        paras.push(c);
        proof {
            assert(views(paras@) =~= views(p0).push(old(cur)@));
        }
    }
}

#[verifier::spinoff_prover]
#[verifier::rlimit(40)]
fn smart_re_paragraph(text: &str, h: &Headings) -> (r: String)
    requires
        h.wf(),
    ensures
        r@ == smart_paragraphs(text@),
{
    let chars = chars_of(text);
    let ls = split_lines(chars.as_slice());
    let ghost lv = views(ls@);
    let verse = verse_flags(&ls, h);
    let mut paras: Vec<Vec<char>> = Vec::new();
    let mut cur: Vec<char> = Vec::new();
    let n = ls.len();
    let mut i: usize = 0;
    proof {
        assert(views(paras@) =~= Seq::<Seq<char>>::empty());
        assert(cur@ =~= Seq::<char>::empty());
    }
    while i < n
        invariant
            i <= n == ls@.len() == lv.len(),
            lv == views(ls@),
            lv == lines(text@),
            h.wf(),
            verse@.len() == n,
            forall|k: int| 0 <= k < n ==> #[trigger] verse@[k] == verse_line(lv, k),
            (SmartState { paras: views(paras@), cur: cur@ }) == smart_run(lv, i as int),
        decreases n - i,
    {
        let line = &ls[i];
        assert(lv[i as int] == line@);
        let (a, b) = trim_bounds(line.as_slice(), 0, line.len());
        proof {
            assert(line@.subrange(0, line@.len() as int) =~= line@);
            crate::text::lemma_lead_ws_bound(line@);
            assert(trim_start(line@) == line@.subrange(a as int, line@.len() as int));
            if a == 0 {
                assert(lead_ws(line@) == 0) by {
                    crate::text::lemma_lead_ws_unique(line@, 0);
                    if lead_ws(line@) > 0 {
                        assert(line@.subrange(0, line@.len() as int) =~= line@);
                    }
                }
            }
        }
        let t = slice_range(line.as_slice(), a, b);
        let ghost st0 = SmartState { paras: views(paras@), cur: cur@ };
        if t.len() == 0 {
            flush_exec(&mut paras, &mut cur);
            assert((SmartState { paras: views(paras@), cur: cur@ }) == smart_step(lv, i as int, st0));
        } else {
            match strip_quote(t.as_slice()) {
                Some(body) => {
                    flush_exec(&mut paras, &mut cur);
                    let ghost p0 = paras@;
                    paras.push(body);
                    proof {
                        assert(views(paras@) =~= views(p0).push(quote_body(t@).unwrap()));
                        assert(cur@ =~= Seq::<char>::empty());
                    }
                    assert((SmartState { paras: views(paras@), cur: cur@ }) == smart_step(lv, i as int, st0));
                },
                None => {
                    if h.matches(t.as_slice()) || verse[i] {
                        flush_exec(&mut paras, &mut cur);
                        let ghost p0 = paras@;
                        paras.push(t);
                        proof {
                            assert(views(paras@) =~= views(p0).push(trim(lv[i as int])));
                            assert(cur@ =~= Seq::<char>::empty());
                        }
                        assert((SmartState { paras: views(paras@), cur: cur@ }) == smart_step(lv, i as int, st0));
                    } else {
                        let dialogue = is_dialogue(t.as_slice());
                        assert(t@ == trim(lv[i as int]));
                        assert(!verse_line(lv, i as int));
                        assert(!chapter_heading(t@));
                        let ghost s1 = if lead_ws(line@) > 0 && st0.cur.len() > 0 {
                            flush(st0)
                        } else {
                            st0
                        };
                        if a > 0 && cur.len() > 0 {
                            proof {
                                assert(lead_ws(line@) > 0) by {
                                    crate::text::lemma_lead_ws_unique(line@, lead_ws(line@) as int);
                                    if lead_ws(line@) == 0 {
                                        assert(!is_ws(line@[0]));
                                        assert(line@.subrange(0, line@.len() as int) =~= line@);
                                    }
                                }
                            }
                            flush_exec(&mut paras, &mut cur);
                        }
                        let prev_blank = i > 0 && {
                            let pl = &ls[i - 1];
                            let (pa, pb) = trim_bounds(pl.as_slice(), 0, pl.len());
                            proof {
                                assert(lv[i - 1] == pl@);
                                assert(pl@.subrange(0, pl@.len() as int) =~= pl@);
                            }
                            pa == pb
                        };
                        assert((SmartState { paras: views(paras@), cur: cur@ }) == s1);
                        assert(prev_blank == (i > 0 && trim(lv[i - 1]).len() == 0));
                        if dialogue && cur.len() > 0 && prev_blank {
                            flush_exec(&mut paras, &mut cur);
                        }
                        let ghost s2 = SmartState { paras: views(paras@), cur: cur@ };
                        let gathered_before = cur.len() > 0;
                        push_all(&mut cur, t.as_slice());
                        assert((SmartState { paras: views(paras@), cur: cur@ }) == (SmartState { paras: s2.paras, cur: s2.cur + t@ }));
                        if t.len() < 20 && !dialogue && gathered_before {
                            flush_exec(&mut paras, &mut cur);
                        } else if dialogue && ends_closed(t.as_slice()) {
                            flush_exec(&mut paras, &mut cur);
                        }
                        assert((SmartState { paras: views(paras@), cur: cur@ }) == smart_step(lv, i as int, st0));
                    }
                },
            }
        }
        proof {
            assert((SmartState { paras: views(paras@), cur: cur@ }) == smart_step(lv, i as int, st0));
        }
        i = i + 1;
    }
    flush_exec(&mut paras, &mut cur);
    let sep = vec!['\n', '\n'];
    assert(sep@ =~= para_sep());
    let joined = join_chars(&paras, sep.as_slice());
    string_from_chars(joined.as_slice())
}

// ───────────────────────── aggressive re-paragraphing ─────────────────────────

/// The non-blank lines, trimmed, concatenated.
pub open spec fn merged_lines(ls: Seq<Seq<char>>) -> Seq<char>
    decreases ls.len(),
{
    if ls.len() == 0 {
        Seq::<char>::empty()
    } else {
        merged_lines(ls.drop_last()) + trim(ls.last())
    }
}

fn aggressive_re_paragraph(text: &str) -> (r: String)
    ensures
        r@ == merged_lines(lines(text@)),
{
    let chars = chars_of(text);
    let ls = split_lines(chars.as_slice());
    let ghost lv = views(ls@);
    let mut out: Vec<char> = Vec::new();
    let mut i: usize = 0;
    while i < ls.len()
        invariant
            i <= ls@.len(),
            lv == views(ls@),
            out@ == merged_lines(lv.take(i as int)),
        decreases ls@.len() - i,
    {
        proof {
            assert(lv.take(i + 1).drop_last() =~= lv.take(i as int));
            assert(lv.take(i + 1).last() == ls@[i as int]@);
        }
        let line = &ls[i];
        let (a, b) = trim_bounds(line.as_slice(), 0, line.len());
        proof {
            assert(line@.subrange(0, line@.len() as int) =~= line@);
        }
        let t = slice_range(line.as_slice(), a, b);
        push_all(&mut out, t.as_slice());
        i = i + 1;
    }
    proof {
        assert(lv.take(ls@.len() as int) =~= lv);
    }
    string_from_chars(out.as_slice())
}

// ───────────────────────── first-line indent ─────────────────────────

/// `n` ideographic spaces.
pub open spec fn indent_of(n: nat) -> Seq<char> {
    Seq::new(n, |i: int| '\u{3000}')
}

/// One line with its indent: blank lines become empty, headings and already
/// indented lines are kept trimmed, other lines get the indent.
pub open spec fn indent_line(line: Seq<char>, n: nat) -> Seq<char> {
    let t = trim(line);
    if t.len() == 0 {
        Seq::<char>::empty()
    } else if chapter_heading(t) || t[0] == '\u{3000}' {
        t
    } else {
        indent_of(n) + t
    }
}

pub open spec fn indented_lines(ls: Seq<Seq<char>>, n: nat) -> Seq<Seq<char>> {
    ls.map_values(|l: Seq<char>| indent_line(l, n))
}

/// The text with every line indented, rejoined with `\n`.
pub open spec fn indented(text: Seq<char>, n: nat) -> Seq<char> {
    join(indented_lines(lines(text), n), seq!['\n'])
}

fn apply_indent(text: &str, n: u8, h: &Headings) -> (r: String)
    requires
        h.wf(),
    ensures
        r@ == indented(text@, n as nat),
{
    let mut indent: Vec<char> = Vec::new();
    let mut k: u8 = 0;
    while k < n
        invariant
            k <= n,
            indent@ =~= indent_of(k as nat),
        decreases n - k,
    {
        indent.push('\u{3000}');
        k = k + 1;
    }
    let chars = chars_of(text);
    let ls = split_lines(chars.as_slice());
    let ghost lv = views(ls@);
    let mut out: Vec<Vec<char>> = Vec::new();
    let mut i: usize = 0;
    while i < ls.len()
        invariant
            i <= ls@.len(),
            lv == views(ls@),
            h.wf(),
            indent@ == indent_of(n as nat),
            views(out@) =~= indented_lines(lv, n as nat).take(i as int),
        decreases ls@.len() - i,
    {
        let line = &ls[i];
        assert(lv[i as int] == line@);
        let (a, b) = trim_bounds(line.as_slice(), 0, line.len());
        proof {
            assert(line@.subrange(0, line@.len() as int) =~= line@);
        }
        let t = slice_range(line.as_slice(), a, b);
        let piece = if t.len() == 0 {
            Vec::new()
        } else if h.matches(t.as_slice()) || t[0] == '\u{3000}' {
            t
        } else {
            let mut p: Vec<char> = Vec::new();
            push_all(&mut p, indent.as_slice());
            push_all(&mut p, t.as_slice());
            p
        };
        let ghost o0 = out@;
        proof {
            assert(piece@ =~= indent_line(lv[i as int], n as nat));
        }
        out.push(piece);
        proof {
            assert(views(out@) =~= views(o0).push(indent_line(lv[i as int], n as nat)));
            assert(indented_lines(lv, n as nat).take(i + 1) =~= indented_lines(lv, n as nat).take(
                i as int,
            ).push(indent_line(lv[i as int], n as nat)));
        }
        i = i + 1;
    }
    proof {
        assert(indented_lines(lv, n as nat).take(ls@.len() as int) =~= indented_lines(lv, n as nat));
    }
    let nl = vec!['\n'];
    assert(nl@ =~= seq!['\n']);
    let joined = join_chars(&out, nl.as_slice());
    string_from_chars(joined.as_slice())
}

// ───────────────────────── blocks and cutting ─────────────────────────

/// A blank-line separator (`\n\n`) starts at `i`.
pub open spec fn sep_at(s: Seq<char>, i: int) -> bool {
    0 <= i && i + 1 < s.len() && s[i] == '\n' && s[i + 1] == '\n'
}

/// First separator position at or after `i`, else `s.len()`.
pub open spec fn next_sep(s: Seq<char>, i: int) -> int
    decreases s.len() - i,
{
    if i < 0 || i + 1 >= s.len() {
        s.len() as int
    } else if sep_at(s, i) {
        i
    } else {
        next_sep(s, i + 1)
    }
}

pub proof fn lemma_next_sep(s: Seq<char>, i: int)
    requires
        0 <= i <= s.len(),
    ensures
        i <= next_sep(s, i) <= s.len(),
        next_sep(s, i) < s.len() ==> next_sep(s, i) + 2 <= s.len(),
    decreases s.len() - i,
{
    if i + 1 < s.len() && !sep_at(s, i) {
        lemma_next_sep(s, i + 1);
    }
}

/// `str::split("\n\n")` from position `start`: the texts between separators.
pub open spec fn blocks_from(s: Seq<char>, start: int) -> Seq<Seq<char>>
    decreases s.len() - start,
{
    if start < 0 || start > s.len() {
        Seq::<Seq<char>>::empty()
    } else {
        let j = next_sep(s, start);
        if j >= s.len() {
            seq![s.subrange(start, s.len() as int)]
        } else {
            proof {
                lemma_next_sep(s, start);
            }
            seq![s.subrange(start, j)] + blocks_from(s, j + 2)
        }
    }
}

/// `str::split("\n\n")`.
pub open spec fn blocks(s: Seq<char>) -> Seq<Seq<char>> {
    blocks_from(s, 0)
}

fn split_blocks(s: &[char]) -> (r: Vec<Vec<char>>)
    ensures
        views(r@) == blocks(s@),
{
    let ghost sv = s@;
    let n = s.len();
    let mut out: Vec<Vec<char>> = Vec::new();
    let mut start: usize = 0;
    let mut i: usize = 0;
    proof {
        assert(views(out@) =~= Seq::<Seq<char>>::empty());
        assert(Seq::<Seq<char>>::empty() + blocks_from(sv, 0) =~= blocks(sv));
    }
    while n > 0 && i < n - 1
        invariant
            n == sv.len(),
            sv == s@,
            start <= i <= n,
            start <= n,
            views(out@) + blocks_from(sv, start as int) == blocks(sv),
            next_sep(sv, start as int) == next_sep(sv, i as int),
        decreases n - i,
    {
        if s[i] == '\n' && s[i + 1] == '\n' {
            proof {
                assert(sep_at(sv, i as int));
                lemma_next_sep(sv, start as int);
            }
            let piece = slice_range(s, start, i);
            let ghost o0 = out@;
            out.push(piece);
            proof {
                assert(views(out@) =~= views(o0).push(sv.subrange(start as int, i as int)));
                assert(blocks_from(sv, start as int) =~= seq![sv.subrange(start as int, i as int)]
                    + blocks_from(sv, i + 2));
                assert(views(out@) + blocks_from(sv, i + 2) =~= views(o0) + blocks_from(
                    sv,
                    start as int,
                ));
                assert(next_sep(sv, i + 2) == next_sep(sv, i + 2));
            }
            start = i + 2;
            i = i + 2;
        } else {
            proof {
                assert(!sep_at(sv, i as int));
                assert(next_sep(sv, i as int) == next_sep(sv, i + 1));
            }
            i = i + 1;
        }
    }
    proof {
        assert(next_sep(sv, i as int) == n);
        assert(blocks_from(sv, start as int) == seq![sv.subrange(start as int, n as int)]);
    }
    let piece = slice_range(s, start, n);
    let ghost o0 = out@;
    out.push(piece);
    proof {
        assert(views(out@) =~= views(o0).push(sv.subrange(start as int, n as int)));
        assert(views(out@) =~= views(o0) + blocks_from(sv, start as int));
    }
    out
}

/// The pieces `split_pieces` cuts a paragraph into.
pub open spec fn cut_pieces(p: Seq<char>, th: int) -> Seq<Seq<char>> {
    Seq::new(
        split_ranges_spec(p, th).len(),
        |k: int| p.subrange(split_ranges_spec(p, th)[k].0, split_ranges_spec(p, th)[k].1),
    )
}

/// Each block cut into pieces unless it is a heading or not longer than `th`.
pub open spec fn cut_blocks(bs: Seq<Seq<char>>, th: int) -> Seq<Seq<char>>
    decreases bs.len(),
{
    if bs.len() == 0 {
        Seq::<Seq<char>>::empty()
    } else {
        let p = bs.last();
        let pieces = if chapter_heading(trim(p)) || p.len() <= th {
            seq![p]
        } else {
            cut_pieces(p, th)
        };
        cut_blocks(bs.drop_last(), th) + pieces
    }
}

/// Over-long paragraphs cut to the threshold (headings are never cut).
pub open spec fn cut_long_paragraphs(text: Seq<char>, th: int) -> Seq<char> {
    join(cut_blocks(blocks(text), th), para_sep())
}

fn cut_long(text: &str, th: usize, h: &Headings) -> (r: String)
    requires
        h.wf(),
    ensures
        r@ == cut_long_paragraphs(text@, th as int),
{
    let chars = chars_of(text);
    let bs = split_blocks(chars.as_slice());
    let ghost bv = views(bs@);
    let mut out: Vec<Vec<char>> = Vec::new();
    let mut i: usize = 0;
    while i < bs.len()
        invariant
            i <= bs@.len(),
            bv == views(bs@),
            h.wf(),
            views(out@) == cut_blocks(bv.take(i as int), th as int),
        decreases bs@.len() - i,
    {
        proof {
            assert(bv.take(i + 1).drop_last() =~= bv.take(i as int));
            assert(bv.take(i + 1).last() == bs@[i as int]@);
        }
        let p = &bs[i];
        let (a, b) = trim_bounds(p.as_slice(), 0, p.len());
        proof {
            assert(p@.subrange(0, p@.len() as int) =~= p@);
        }
        let t = slice_range(p.as_slice(), a, b);
        let ghost o0 = views(out@);
        if h.matches(t.as_slice()) || p.len() <= th {
            out.push(slice_range(p.as_slice(), 0, p.len()));
            proof {
                assert(p@.subrange(0, p@.len() as int) =~= p@);
                assert(views(out@) =~= o0 + seq![p@]);
            }
        } else {
            let ps = string_from_chars(p.as_slice());
            let pieces = split_pieces(ps.as_str(), th);
            let mut k: usize = 0;
            while k < pieces.len()
                invariant
                    k <= pieces@.len(),
                    ps@ == p@,
                    pieces@.len() == split_ranges_spec(p@, th as int).len(),
                    forall|m: int|
                        0 <= m < pieces@.len() ==> #[trigger] pieces@[m]@ == p@.subrange(
                            split_ranges_spec(p@, th as int)[m].0,
                            split_ranges_spec(p@, th as int)[m].1,
                        ),
                    views(out@) =~= o0 + cut_pieces(p@, th as int).take(k as int),
                decreases pieces@.len() - k,
            {
                let ghost o1 = out@;
                out.push(chars_of(pieces[k].as_str()));
                proof {
                    assert(views(out@) =~= views(o1).push(pieces@[k as int]@));
                    assert(cut_pieces(p@, th as int).take(k + 1) =~= cut_pieces(
                        p@,
                        th as int,
                    ).take(k as int).push(pieces@[k as int]@));
                }
                k = k + 1;
            }
            proof {
                assert(cut_pieces(p@, th as int).take(pieces@.len() as int) =~= cut_pieces(
                    p@,
                    th as int,
                ));
            }
        }
        i = i + 1;
    }
    proof {
        assert(bv.take(bs@.len() as int) =~= bv);
    }
    let sep = vec!['\n', '\n'];
    assert(sep@ =~= para_sep());
    let joined = join_chars(&out, sep.as_slice());
    string_from_chars(joined.as_slice())
}

// ───────────────────────── the formatter ─────────────────────────

/// The text after re-paragraphing (by mode).
pub open spec fn re_paragraphed(mode: ReParagraphMode, text: Seq<char>) -> Seq<char> {
    match mode {
        ReParagraphMode::Off => text,
        ReParagraphMode::Smart => smart_paragraphs(text),
        ReParagraphMode::Aggressive => merged_lines(lines(text)),
    }
}

/// Formatting of `text` under `s`: unchanged when re-paragraphing is off and no
/// indent is wanted; otherwise re-paragraphing, cutting of long paragraphs at the
/// mode's threshold, then the indent of `indent_size_chars` ideographic spaces.
pub open spec fn formatted(s: ParagraphFormatSettings, text: Seq<char>) -> Seq<char> {
    if s.re_paragraph_mode == ReParagraphMode::Off && !s.enable_indent {
        text
    } else {
        let f1 = re_paragraphed(s.re_paragraph_mode, text);
        let f2 = match spec_effective_split_threshold(s) {
            Some(th) => cut_long_paragraphs(f1, th as int),
            None => f1,
        };
        if s.enable_indent && s.indent_size_chars > 0 {
            indented(f2, s.indent_size_chars as nat)
        } else {
            f2
        }
    }
}

/// Paragraph formatter.
pub struct ParagraphFormatter {
    settings: ParagraphFormatSettings,
}

impl ParagraphFormatter {
    pub closed spec fn settings(&self) -> ParagraphFormatSettings {
        self.settings
    }

    pub fn new(settings: ParagraphFormatSettings) -> (f: ParagraphFormatter)
        ensures
            f.settings() == settings,
    {
        ParagraphFormatter { settings }
    }

    /// Formats a text (the main entry point).
    pub fn format(&self, text: &str) -> (r: String)
        ensures
            r@ == formatted(self.settings(), text@),
    {
        if self.settings.re_paragraph_mode == ReParagraphMode::Off && !self.settings.enable_indent {
            return text.to_owned();
        }
        let h = Headings::new();
        let f1 = match self.settings.re_paragraph_mode {
            ReParagraphMode::Off => text.to_owned(),
            ReParagraphMode::Smart => smart_re_paragraph(text, &h),
            ReParagraphMode::Aggressive => aggressive_re_paragraph(text),
        };
        let f2 = match self.settings.effective_split_threshold() {
            Some(th) => cut_long(f1.as_str(), th, &h),
            None => f1,
        };
        if self.settings.enable_indent && self.settings.indent_size_chars > 0 {
            apply_indent(f2.as_str(), self.settings.indent_size_chars, &h)
        } else {
            f2
        }
    }
}

} // verus!
