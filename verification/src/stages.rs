//! Pipeline stages whose work is text processing of this library.
use vstd::prelude::*;
use crate::pipeline::{ProcessingStage, PipelineData, PipelineDataView, StageError, copy_pairs};
use crate::content_preprocessor::{
    HTML_TAG_PATTERN, protected_with, placeholder_map, protect_matches, pair_views, restored,
    restore_html_tags, html_prefix,
};
use crate::tag_protection::{lemma_tag_round_trip, no_infix, ph_map, tag_marker};
use crate::pattern::{
    CompiledPattern, regex_valid, regex_error_text, regex_replace_all, regex_gaps, regex_matches,
};
use crate::text::{chars_of, string_from_chars, replaced, replace_chars};

verus! {

// ───────────────────────── newline collapsing ─────────────────────────

/// Each run of `\n` / `\r` characters becomes one `\n` (`after_break`: the text
/// before `s` ended such a run).
pub open spec fn collapse_newlines(s: Seq<char>, after_break: bool) -> Seq<char>
    decreases s.len(),
{
    if s.len() == 0 {
        s
    } else if s[0] == '\n' || s[0] == '\r' {
        if after_break {
            collapse_newlines(s.drop_first(), true)
        } else {
            seq!['\n'] + collapse_newlines(s.drop_first(), true)
        }
    } else {
        seq![s[0]] + collapse_newlines(s.drop_first(), false)
    }
}

/// After collapsing, no `\r` is left and no two line breaks are adjacent (and the
/// text does not start with one when a break preceded it).
pub proof fn lemma_collapse_single_breaks(s: Seq<char>, after_break: bool)
    ensures
        forall|i: int|
            0 <= i < collapse_newlines(s, after_break).len() ==> #[trigger] collapse_newlines(
                s,
                after_break,
            )[i] != '\r',
        forall|i: int|
            0 <= i < collapse_newlines(s, after_break).len() - 1 ==> !(#[trigger] collapse_newlines(
                s,
                after_break,
            )[i] == '\n' && collapse_newlines(s, after_break)[i + 1] == '\n'),
        after_break && collapse_newlines(s, after_break).len() > 0 ==> collapse_newlines(
            s,
            after_break,
        )[0] != '\n',
    decreases s.len(),
{
    if s.len() > 0 {
        let rest = s.drop_first();
        if s[0] == '\n' || s[0] == '\r' {
            lemma_collapse_single_breaks(rest, true);
            if !after_break {
                let t = collapse_newlines(rest, true);
                let r = seq!['\n'] + t;
                assert(collapse_newlines(s, after_break) == r);
                assert forall|i: int| 0 <= i < r.len() implies #[trigger] r[i] != '\r' by {
                    if i > 0 {
                        assert(r[i] == t[i - 1]);
                    }
                }
                assert forall|i: int| 0 <= i < r.len() - 1 implies !(#[trigger] r[i] == '\n'
                    && r[i + 1] == '\n') by {
                    assert(r[i + 1] == t[i]);
                    if i > 0 {
                        assert(r[i] == t[i - 1]);
                    }
                }
            }
        } else {
            lemma_collapse_single_breaks(rest, false);
            let t = collapse_newlines(rest, false);
            let r = seq![s[0]] + t;
            assert(collapse_newlines(s, after_break) == r);
            assert forall|i: int| 0 <= i < r.len() implies #[trigger] r[i] != '\r' by {
                if i > 0 {
                    assert(r[i] == t[i - 1]);
                }
            }
            assert forall|i: int| 0 <= i < r.len() - 1 implies !(#[trigger] r[i] == '\n' && r[i
                + 1] == '\n') by {
                assert(r[i + 1] == t[i]);
                if i > 0 {
                    assert(r[i] == t[i - 1]);
                }
            }
        }
    }
}

/// Stage: re-segments paragraphs by collapsing runs of line breaks.
pub struct ResegmentProcessor;

impl ProcessingStage for ResegmentProcessor {
    open spec fn outcome(&self, input: PipelineDataView) -> Result<PipelineDataView, Seq<char>> {
        Ok(PipelineDataView { content: collapse_newlines(input.content, false), ..input })
    }

    open spec fn specified(&self) -> bool {
        true
    }

    open spec fn name(&self) -> Seq<char> {
        "ResegmentProcessor"@
    }

    open spec fn skippable(&self) -> bool {
        false
    }

    fn process(&self, input: PipelineData) -> (r: Result<PipelineData, StageError>) {
        let mut input = input;
        let s = chars_of(input.content.as_str());
        let mut out: Vec<char> = Vec::new();
        let mut prev = false;
        let mut i: usize = 0;
        proof {
            assert(s@.skip(0) =~= s@);
        }
        while i < s.len()
            invariant
                i <= s@.len(),
                out@ + collapse_newlines(s@.skip(i as int), prev) == collapse_newlines(s@, false),
            decreases s@.len() - i,
        {
            let ghost rest = s@.skip(i as int);
            proof {
                assert(rest.drop_first() =~= s@.skip(i + 1));
                assert(rest[0] == s@[i as int]);
            }
            let c = s[i];
            let ghost o0 = out@;
            if c == '\n' || c == '\r' {
                if !prev {
                    out.push('\n');
                    prev = true;
                    proof {
                        assert(out@ + collapse_newlines(s@.skip(i + 1), prev) =~= o0 + (seq!['\n']
                            + collapse_newlines(rest.drop_first(), true)));
                    }
                }
            } else {
                out.push(c);
                prev = false;
                proof {
                    assert(out@ + collapse_newlines(s@.skip(i + 1), prev) =~= o0 + (seq![c]
                        + collapse_newlines(rest.drop_first(), false)));
                }
            }
            i = i + 1;
        }
        proof {
            assert(s@.skip(s@.len() as int) =~= Seq::<char>::empty());
            assert(out@ =~= collapse_newlines(s@, false));
        }
        input.content = string_from_chars(out.as_slice());
        Ok(input)
    }

    fn stage_name(&self) -> (r: &'static str) {
        "ResegmentProcessor"
    }

    fn is_skippable(&self) -> (b: bool) {
        false
    }
}

// ───────────────────────── HTML protection / restoration ─────────────────────────

/// Stage: protects HTML tags from modification with numbered placeholders.
pub struct HtmlProtector {
    placeholder_prefix: String,
}

impl Default for HtmlProtector {
    fn default() -> (p: HtmlProtector)
        ensures
            p.prefix() == seq!['_', '_', 'H', 'T', 'M', 'L', '_', 'P', 'H', '_'],
    {
        let p = HtmlProtector { placeholder_prefix: "__HTML_PH_".to_owned() };
        proof {
            reveal_strlit("__HTML_PH_");
        }
        assert(p.placeholder_prefix@ =~= seq!['_', '_', 'H', 'T', 'M', 'L', '_', 'P', 'H', '_']);
        p
    }
}

impl HtmlProtector {
    /// The placeholder prefix.
    pub closed spec fn prefix(&self) -> Seq<char> {
        self.placeholder_prefix@
    }
}

impl ProcessingStage for HtmlProtector {
    /// The tags replaced by `prefix k __` placeholders and the map recorded; an error
    /// when the tag regex does not compile.
    open spec fn outcome(&self, input: PipelineDataView) -> Result<PipelineDataView, Seq<char>> {
        if regex_valid(HTML_TAG_PATTERN@) {
            Ok(
                PipelineDataView {
                    content: protected_with(HTML_TAG_PATTERN@, self.prefix(), input.content),
                    html_map: Some(
                        placeholder_map(HTML_TAG_PATTERN@, self.prefix(), input.content),
                    ),
                    ..input
                },
            )
        } else {
            Err(regex_error_text(HTML_TAG_PATTERN@))
        }
    }

    open spec fn specified(&self) -> bool {
        true
    }

    open spec fn name(&self) -> Seq<char> {
        "HtmlProtector"@
    }

    open spec fn skippable(&self) -> bool {
        false
    }

    /// With the usual prefix, on a text that never contains `HTML_PH_`, the
    /// restorer stage gives the input back, without a map.
    fn process(&self, input: PipelineData) -> (r: Result<PipelineData, StageError>)
        ensures
            self.prefix() == html_prefix() && no_infix(input@.content, tag_marker()) ==> match r {
                Ok(o) => HtmlRestorer.outcome(o@) == Ok::<PipelineDataView, Seq<char>>(
                    (PipelineDataView { html_map: None, ..input@ }),
                ),
                Err(_) => true,
            },
    {
        let mut input = input;
        let ghost before = input@;
        match CompiledPattern::compile(HTML_TAG_PATTERN) {
            Ok(re) => {
                let prefix = chars_of(self.placeholder_prefix.as_str());
                let (protected, map) = protect_matches(&re, input.content.as_str(), prefix.as_slice());
                proof {
                    if self.prefix() == html_prefix() && no_infix(before.content, tag_marker()) {
                        let g = regex_gaps(re.source(), before.content);
                        let m = regex_matches(re.source(), before.content);
                        assert(placeholder_map(re.source(), html_prefix(), before.content) =~= ph_map(m));
                        lemma_tag_round_trip(g, m);
                    }
                }
                input.content = protected;
                input.html_map = Some(map);
                Ok(input)
            },
            Err(message) => Err(StageError { message }),
        }
    }

    fn stage_name(&self) -> (r: &'static str) {
        "HtmlProtector"
    }

    fn is_skippable(&self) -> (b: bool) {
        false
    }
}

/// Stage: restores HTML tags from their placeholders and drops the map.
pub struct HtmlRestorer;

impl ProcessingStage for HtmlRestorer {
    open spec fn outcome(&self, input: PipelineDataView) -> Result<PipelineDataView, Seq<char>> {
        let content = match input.html_map {
            Some(m) => restored(input.content, m),
            None => input.content,
        };
        Ok(PipelineDataView { content, html_map: None, ..input })
    }

    open spec fn specified(&self) -> bool {
        true
    }

    open spec fn name(&self) -> Seq<char> {
        "HtmlRestorer"@
    }

    open spec fn skippable(&self) -> bool {
        false
    }

    fn process(&self, input: PipelineData) -> (r: Result<PipelineData, StageError>) {
        let mut input = input;
        let content = match &input.html_map {
            Some(m) => restore_html_tags(input.content.as_str(), m.as_slice()),
            None => input.content.clone(),
        };
        input.content = content;
        input.html_map = None;
        Ok(input)
    }

    fn stage_name(&self) -> (r: &'static str) {
        "HtmlRestorer"
    }

    fn is_skippable(&self) -> (b: bool) {
        false
    }
}

// ───────────────────────── replace rules ─────────────────────────

/// The string rules applied in order with `str::replace`.
pub open spec fn pairs_replaced(s: Seq<char>, rules: Seq<(Seq<char>, Seq<char>)>) -> Seq<char>
    decreases rules.len(),
{
    if rules.len() == 0 {
        s
    } else {
        let (p, r) = rules.last();
        replaced(pairs_replaced(s, rules.drop_last()), p, r)
    }
}

/// Stage: applies string replace rules, in order.
pub struct StringReplacer {
    rules: Vec<(String, String)>,
}

impl StringReplacer {
    pub closed spec fn rules(&self) -> Seq<(Seq<char>, Seq<char>)> {
        pair_views(self.rules@)
    }

    /// A replacer with the given `(pattern, replacement)` rules.
    pub fn new(rules: Vec<(String, String)>) -> (s: StringReplacer)
        ensures
            s.rules() == pair_views(rules@),
    {
        StringReplacer { rules }
    }
}

impl ProcessingStage for StringReplacer {
    open spec fn outcome(&self, input: PipelineDataView) -> Result<PipelineDataView, Seq<char>> {
        Ok(PipelineDataView { content: pairs_replaced(input.content, self.rules()), ..input })
    }

    open spec fn specified(&self) -> bool {
        true
    }

    open spec fn name(&self) -> Seq<char> {
        "StringReplacer"@
    }

    open spec fn skippable(&self) -> bool {
        false
    }

    fn process(&self, input: PipelineData) -> (r: Result<PipelineData, StageError>) {
        let mut input = input;
        let ghost rv = self.rules();
        let mut cur = chars_of(input.content.as_str());
        let ghost c0 = cur@;
        let mut i: usize = 0;
        while i < self.rules.len()
            invariant
                i <= self.rules@.len(),
                rv == pair_views(self.rules@),
                cur@ == pairs_replaced(c0, rv.take(i as int)),
            decreases self.rules@.len() - i,
        {
            proof {
                assert(rv.take(i + 1).drop_last() =~= rv.take(i as int));
            }
            let p = chars_of(self.rules[i].0.as_str());
            let t = chars_of(self.rules[i].1.as_str());
            cur = replace_chars(cur.as_slice(), p.as_slice(), t.as_slice());
            i = i + 1;
        }
        proof {
            assert(rv.take(self.rules@.len() as int) =~= rv);
        }
        input.content = string_from_chars(cur.as_slice());
        Ok(input)
    }

    fn stage_name(&self) -> (r: &'static str) {
        "StringReplacer"
    }

    fn is_skippable(&self) -> (b: bool) {
        false
    }
}

/// The regex rules applied in order with `replace_all`; the first pattern that does
/// not compile stops with the compiler's message.
pub open spec fn regex_rules_applied(s: Seq<char>, rules: Seq<(Seq<char>, Seq<char>)>) -> Result<Seq<char>, Seq<char>>
    decreases rules.len(),
{
    if rules.len() == 0 {
        Ok(s)
    } else {
        match regex_rules_applied(s, rules.drop_last()) {
            Err(m) => Err(m),
            Ok(cur) => {
                let (p, r) = rules.last();
                if regex_valid(p) {
                    Ok(regex_replace_all(p, cur, r))
                } else {
                    Err(regex_error_text(p))
                }
            },
        }
    }
}

proof fn lemma_regex_rules_err(s: Seq<char>, rules: Seq<(Seq<char>, Seq<char>)>, i: int, m: Seq<char>)
    requires
        0 <= i <= rules.len(),
        regex_rules_applied(s, rules.take(i)) == Err::<Seq<char>, Seq<char>>(m),
    ensures
        regex_rules_applied(s, rules) == Err::<Seq<char>, Seq<char>>(m),
    decreases rules.len() - i,
{
    if i < rules.len() {
        assert(rules.take(i + 1).drop_last() =~= rules.take(i));
        lemma_regex_rules_err(s, rules, i + 1, m);
    } else {
        assert(rules.take(i) =~= rules);
    }
}

/// Stage: applies regex replace rules, in order.
pub struct RegexReplacer {
    rules: Vec<(String, String)>,
}

impl RegexReplacer {
    pub closed spec fn rules(&self) -> Seq<(Seq<char>, Seq<char>)> {
        pair_views(self.rules@)
    }

    /// A replacer with the given `(pattern, replacement)` rules.
    pub fn new(rules: Vec<(String, String)>) -> (s: RegexReplacer)
        ensures
            s.rules() == pair_views(rules@),
    {
        RegexReplacer { rules }
    }
}

impl ProcessingStage for RegexReplacer {
    open spec fn outcome(&self, input: PipelineDataView) -> Result<PipelineDataView, Seq<char>> {
        match regex_rules_applied(input.content, self.rules()) {
            Ok(c) => Ok(PipelineDataView { content: c, ..input }),
            Err(m) => Err(m),
        }
    }

    open spec fn specified(&self) -> bool {
        true
    }

    open spec fn name(&self) -> Seq<char> {
        "RegexReplacer"@
    }

    open spec fn skippable(&self) -> bool {
        false
    }

    fn process(&self, input: PipelineData) -> (r: Result<PipelineData, StageError>) {
        let ghost orig = input@;
        let mut data = input;
        assert(data@ == orig);
        let ghost rv = self.rules();
        let ghost c0 = data.content@;
        let mut cur = data.content.clone();
        let mut i: usize = 0;
        while i < self.rules.len()
            invariant
                i <= self.rules@.len(),
                rv == pair_views(self.rules@),
                rv == self.rules(),
                c0 == orig.content,
                orig == input@,
                regex_rules_applied(c0, rv.take(i as int)) == Ok::<Seq<char>, Seq<char>>(cur@),
            decreases self.rules@.len() - i,
        {
            proof {
                assert(rv.take(i + 1).drop_last() =~= rv.take(i as int));
            }
            match CompiledPattern::compile(self.rules[i].0.as_str()) {
                Ok(re) => {
                    cur = re.replace_all(cur.as_str(), self.rules[i].1.as_str());
                },
                Err(message) => {
                    proof {
                        assert(rv[i as int] == (self.rules@[i as int].0@, self.rules@[i as int].1@));
                        assert(rv.take(i + 1).last() == rv[i as int]);
                        assert(regex_rules_applied(c0, rv.take(i + 1)) == Err::<Seq<char>, Seq<char>>(message@));
                        lemma_regex_rules_err(c0, rv, i + 1, message@);
                        assert(c0 == orig.content);
                        assert(self.outcome(orig) == Err::<PipelineDataView, Seq<char>>(message@));
                    }
                    return Err(StageError { message });
                },
            }
            i = i + 1;
        }
        proof {
            assert(rv.take(self.rules@.len() as int) =~= rv);
        }
        data.content = cur;
        Ok(data)
    }

    fn stage_name(&self) -> (r: &'static str) {
        "RegexReplacer"
    }

    fn is_skippable(&self) -> (b: bool) {
        false
    }
}

} // verus!
