//! A run of the replace rules in which each regex rule can be given a time limit.
//!
//! The run stops at every enabled regex rule and hands out a job: the compiled
//! pattern, the text and the replacement. Whoever drives the run performs the job
//! within the rule's time limit and reports back: the replaced text, a timeout (the
//! rule then leaves the text as it was, and the driver disables it for later
//! runs), or a cancellation (the run fails). String rules, disabled rules and
//! script rules are dealt with inside the run.
use vstd::prelude::*;
use crate::content_preprocessor::{
    ReplaceRule, RuleType, ContentProcessError, compile_error_message, rules_applied,
    result_matches,
};
use crate::pattern::{CompiledPattern, regex_valid, regex_replace_all};
use crate::text::{chars_of, string_from_chars, replace_chars, replaced, push_all};

verus! {

/// The enabled rules applied in order, as `rules_applied` does, except that the
/// regex rules at the positions in `skipped` leave the text unchanged.
pub open spec fn rules_applied_except(
    rules: Seq<ReplaceRule>,
    content: Seq<char>,
    skipped: Set<int>,
) -> Result<Seq<char>, Seq<char>>
    decreases rules.len(),
{
    if rules.len() == 0 {
        Ok(content)
    } else {
        match rules_applied_except(rules.drop_last(), content, skipped) {
            Err(m) => Err(m),
            Ok(s) => {
                let r = rules.last();
                if !r.enabled {
                    Ok(s)
                } else {
                    match r.rule_type {
                        RuleType::String => Ok(replaced(s, r.pattern@, r.replacement@)),
                        RuleType::Regex => if !regex_valid(r.pattern@) {
                            Err(compile_error_message(r.pattern@))
                        } else if skipped.contains(rules.len() - 1) {
                            Ok(s)
                        } else {
                            Ok(regex_replace_all(r.pattern@, s, r.replacement@))
                        },
                        RuleType::Js => Ok(s),
                    }
                }
            },
        }
    }
}

/// Without timeouts, a run applies the rules exactly as `apply_replace_rules` does.
pub proof fn lemma_no_timeouts(rules: Seq<ReplaceRule>, content: Seq<char>)
    ensures
        rules_applied_except(rules, content, Set::<int>::empty()) == rules_applied(rules, content),
    decreases rules.len(),
{
    if rules.len() > 0 {
        lemma_no_timeouts(rules.drop_last(), content);
    }
}

proof fn lemma_except_err(rules: Seq<ReplaceRule>, content: Seq<char>, skipped: Set<int>, i: int, m: Seq<char>)
    requires
        0 <= i <= rules.len(),
        rules_applied_except(rules.take(i), content, skipped) == Err::<Seq<char>, Seq<char>>(m),
    ensures
        rules_applied_except(rules, content, skipped) == Err::<Seq<char>, Seq<char>>(m),
    decreases rules.len() - i,
{
    if i < rules.len() {
        assert(rules.take(i + 1).drop_last() =~= rules.take(i));
        lemma_except_err(rules, content, skipped, i + 1, m);
    } else {
        assert(rules.take(i) =~= rules);
    }
}

/// Positions of at least `n` do not change what the first `n` rules do.
proof fn lemma_except_prefix_only(rules: Seq<ReplaceRule>, content: Seq<char>, skipped: Set<int>, n: int)
    requires
        0 <= n <= rules.len(),
    ensures
        rules_applied_except(rules.take(n), content, skipped) == rules_applied_except(
            rules.take(n),
            content,
            skipped.insert(n),
        ),
    decreases n,
{
    if n > 0 {
        assert(rules.take(n).drop_last() =~= rules.take(n - 1));
        lemma_except_prefix_only(rules, content, skipped, n - 1);
        lemma_except_insert_above(rules.take(n - 1), content, skipped, n - 1, n);
    }
}

proof fn lemma_except_insert_above(rules: Seq<ReplaceRule>, content: Seq<char>, skipped: Set<int>, len: int, x: int)
    requires
        rules.len() == len,
        x >= len,
    ensures
        rules_applied_except(rules, content, skipped) == rules_applied_except(
            rules,
            content,
            skipped.insert(x),
        ),
    decreases rules.len(),
{
    if rules.len() > 0 {
        lemma_except_insert_above(rules.drop_last(), content, skipped, len - 1, x);
    }
}

/// A regex rule ready to run: the compiled pattern, the text it runs over and the
/// replacement.
pub struct RegexJob {
    pattern: CompiledPattern,
    text: String,
    replacement: String,
    rule_pattern: String,
    timeout_ms: u64,
}

impl RegexJob {
    #[verifier::type_invariant]
    spec fn compiled_from_rule(self) -> bool {
        self.pattern.source() == self.rule_pattern@
    }

    /// The text the rule runs over.
    pub closed spec fn input(&self) -> Seq<char> {
        self.text@
    }

    /// The rule's replacement.
    pub closed spec fn replacement_text(&self) -> Seq<char> {
        self.replacement@
    }

    /// The rule's pattern text.
    pub closed spec fn rule_text(&self) -> Seq<char> {
        self.rule_pattern@
    }

    /// The rule's time limit in milliseconds.
    pub closed spec fn time_limit(&self) -> u64 {
        self.timeout_ms
    }

    /// The rule's pattern text.
    pub fn pattern_text(&self) -> (r: &str)
        ensures
            r@ == self.rule_text(),
    {
        self.rule_pattern.as_str()
    }

    /// The rule's time limit in milliseconds.
    pub fn timeout(&self) -> (t: u64)
        ensures
            t == self.time_limit(),
    {
        self.timeout_ms
    }

    /// Replaces every match of the pattern in the text.
    pub fn run(self) -> (r: JobResult)
        ensures
            r.answers(self.rule_text(), self.input(), self.replacement_text()),
            r.output() == regex_replace_all(self.rule_text(), self.input(), self.replacement_text()),
    {
        proof {
            use_type_invariant(&self);
        }
        let output = self.pattern.replace_all(self.text.as_str(), self.replacement.as_str());
        JobResult { output, pattern: self.rule_pattern, input: self.text, replacement: self.replacement }
    }
}

/// The text a regex job produced, with the job it belongs to.
pub struct JobResult {
    output: String,
    pattern: String,
    input: String,
    replacement: String,
}

impl JobResult {
    #[verifier::type_invariant]
    spec fn is_replacement(self) -> bool {
        self.output@ == regex_replace_all(self.pattern@, self.input@, self.replacement@)
    }

    /// The replaced text.
    pub closed spec fn output(&self) -> Seq<char> {
        self.output@
    }

    /// Whether this is the result of running `pattern` with `replacement` over `input`.
    pub closed spec fn answers(&self, pattern: Seq<char>, input: Seq<char>, replacement: Seq<char>) -> bool {
        self.pattern@ == pattern && self.input@ == input && self.replacement@ == replacement
    }
}

/// What the driver of a run does next.
pub enum RuleAction {
    /// Every rule is applied: the resulting text.
    Finished(String),
    /// A regex rule's pattern does not compile: the run fails with this error.
    Failed(ContentProcessError),
    /// Run this regex rule within its time limit, then report with `regex_done`.
    RunRegex(RegexJob),
}

/// How a regex job ended.
pub enum RegexOutcome {
    /// It finished with this result.
    Replaced(JobResult),
    /// It ran out of time.
    TimedOut,
    /// It was cancelled.
    Cancelled,
}

/// A run of replace rules over a text.
pub struct RuleRun {
    rules: Vec<ReplaceRule>,
    next: usize,
    content: String,
    start: Ghost<Seq<char>>,
    skipped: Ghost<Set<int>>,
    pending: bool,
}

impl RuleRun {
    /// The rules of the run.
    pub closed spec fn rules(&self) -> Seq<ReplaceRule> {
        self.rules@
    }

    /// The text the run started from.
    pub closed spec fn start_text(&self) -> Seq<char> {
        self.start@
    }

    /// The positions of the regex rules that ran out of time.
    pub closed spec fn timed_out(&self) -> Set<int> {
        self.skipped@
    }

    /// The position of the next rule.
    pub closed spec fn next_rule(&self) -> int {
        self.next as int
    }

    /// The text so far.
    pub closed spec fn text(&self) -> Seq<char> {
        self.content@
    }

    /// Whether a regex job is out and not yet reported.
    pub closed spec fn waiting(&self) -> bool {
        self.pending
    }

    pub closed spec fn wf(&self) -> bool {
        &&& self.next <= self.rules@.len()
        &&& rules_applied_except(self.rules@.take(self.next as int), self.start@, self.skipped@)
            == Ok::<Seq<char>, Seq<char>>(self.content@)
        &&& forall|i: int| #[trigger] self.skipped@.contains(i) ==> 0 <= i < self.next
        &&& self.pending ==> {
            &&& self.next < self.rules@.len()
            &&& self.rules@[self.next as int].enabled
            &&& self.rules@[self.next as int].rule_type == RuleType::Regex
            &&& regex_valid(self.rules@[self.next as int].pattern@)
        }
    }

    /// A run of `rules` over `content`.
    pub fn new(rules: Vec<ReplaceRule>, content: String) -> (r: RuleRun)
        ensures
            r.wf(),
            r.rules() == rules@,
            r.start_text() == content@,
            r.text() == content@,
            r.timed_out() == Set::<int>::empty(),
            r.next_rule() == 0,
            !r.waiting(),
    {
        let ghost start = content@;
        proof {
            assert(rules@.take(0) =~= Seq::<ReplaceRule>::empty());
        }
        RuleRun {
            rules,
            next: 0,
            content,
            start: Ghost(start),
            skipped: Ghost(Set::empty()),
            pending: false,
        }
    }

    /// Applies the rules up to the next enabled regex rule, and says what to do:
    /// finish, fail on a pattern that does not compile, or run the regex rule.
    pub fn advance(&mut self) -> (a: RuleAction)
        requires
            old(self).wf(),
            !old(self).waiting(),
        ensures
            final(self).wf(),
            final(self).rules() == old(self).rules(),
            final(self).start_text() == old(self).start_text(),
            final(self).timed_out() == old(self).timed_out(),
            match a {
                RuleAction::Finished(s) => !final(self).waiting() && rules_applied_except(
                    old(self).rules(),
                    old(self).start_text(),
                    old(self).timed_out(),
                ) == Ok::<Seq<char>, Seq<char>>(s@),
                RuleAction::Failed(e) => !final(self).waiting() && result_matches(
                    Err(e),
                    rules_applied_except(old(self).rules(), old(self).start_text(), old(self).timed_out()),
                ),
                RuleAction::RunRegex(job) => {
                    let k = final(self).next_rule();
                    &&& final(self).waiting()
                    &&& job.input() == final(self).text()
                    &&& job.replacement_text() == old(self).rules()[k].replacement@
                    &&& job.rule_text() == old(self).rules()[k].pattern@
                    &&& job.time_limit() == old(self).rules()[k].timeout_ms
                },
            },
    {
        let ghost rv = self.rules@;
        let ghost sk = self.skipped@;
        let ghost st = self.start@;
        while self.next < self.rules.len()
            invariant
                self.wf(),
                !self.pending,
                self.rules@ == rv,
                self.skipped@ == sk,
                self.start@ == st,
                rv == old(self).rules(),
                sk == old(self).timed_out(),
                st == old(self).start_text(),
            decreases rv.len() - self.next,
        {
            let i = self.next;
            proof {
                assert(rv.take(i + 1).drop_last() =~= rv.take(i as int));
                assert(rv.take(i + 1).last() == rv[i as int]);
            }
            let rule = &self.rules[i];
            if rule.enabled {
                match rule.rule_type {
                    RuleType::String => {
                        let s = chars_of(self.content.as_str());
                        let p = chars_of(rule.pattern.as_str());
                        let t = chars_of(rule.replacement.as_str());
                        let out = replace_chars(s.as_slice(), p.as_slice(), t.as_slice());
                        self.content = string_from_chars(out.as_slice());
                    },
                    RuleType::Regex => {
                        match CompiledPattern::compile(rule.pattern.as_str()) {
                            Ok(re) => {
                                let job = RegexJob {
                                    pattern: re,
                                    text: self.content.clone(),
                                    replacement: rule.replacement.clone(),
                                    rule_pattern: rule.pattern.clone(),
                                    timeout_ms: rule.timeout_ms,
                                };
                                self.pending = true;
                                return RuleAction::RunRegex(job);
                            },
                            Err(e) => {
                                let mut m = chars_of(rule.pattern.as_str());
                                m.push(':');
                                m.push(' ');
                                let ev = chars_of(e.as_str());
                                push_all(&mut m, ev.as_slice());
                                proof {
                                    assert(m@ =~= compile_error_message(rv[i as int].pattern@));
                                    lemma_except_err(rv, st, sk, i + 1, m@);
                                }
                                return RuleAction::Failed(
                                    ContentProcessError::RegexCompile(string_from_chars(m.as_slice())),
                                );
                            },
                        }
                    },
                    RuleType::Js => {},
                }
            }
            self.next = i + 1;
        }
        proof {
            assert(rv.take(rv.len() as int) =~= rv);
        }
        RuleAction::Finished(self.content.clone())
    }

    /// Reports how the regex job of the next rule ended: its result (refused, as a
    /// cancellation, when it belongs to another job), a timeout (the rule then
    /// changes nothing) or a cancellation (the run fails).
    pub fn regex_done(&mut self, outcome: RegexOutcome) -> (r: Result<(), ContentProcessError>)
        requires
            old(self).wf(),
            old(self).waiting(),
        ensures
            final(self).wf(),
            !final(self).waiting(),
            final(self).rules() == old(self).rules(),
            final(self).start_text() == old(self).start_text(),
            match outcome {
                RegexOutcome::Replaced(j) => {
                    let rule = old(self).rules()[old(self).next_rule()];
                    &&& r is Ok <==> j.answers(rule.pattern@, old(self).text(), rule.replacement@)
                    &&& r is Ok ==> {
                        &&& final(self).text() == regex_replace_all(rule.pattern@, old(self).text(), rule.replacement@)
                        &&& final(self).timed_out() == old(self).timed_out()
                        &&& final(self).next_rule() == old(self).next_rule() + 1
                    }
                    &&& r is Err ==> r matches Err(ContentProcessError::Cancelled)
                },
                RegexOutcome::TimedOut => {
                    &&& r is Ok
                    &&& final(self).text() == old(self).text()
                    &&& final(self).timed_out() == old(self).timed_out().insert(old(self).next_rule())
                    &&& final(self).next_rule() == old(self).next_rule() + 1
                },
                RegexOutcome::Cancelled => r matches Err(ContentProcessError::Cancelled),
            },
    {
        let i = self.next;
        let ghost rv = self.rules@;
        let ghost sk = self.skipped@;
        let ghost st = self.start@;
        assert(i < self.rules.len());
        self.pending = false;
        proof {
            assert(rv.take(i + 1).drop_last() =~= rv.take(i as int));
            assert(rv.take(i + 1).last() == rv[i as int]);
            assert(!sk.contains(i as int));
        }
        match outcome {
            RegexOutcome::Replaced(j) => {
                proof {
                    use_type_invariant(&j);
                }
                let rule = &self.rules[i];
                if j.pattern == rule.pattern && j.input == self.content && j.replacement == rule.replacement {
                    self.content = j.output;
                    self.next = i + 1;
                    Ok(())
                } else {
                    Err(ContentProcessError::Cancelled)
                }
            },
            RegexOutcome::TimedOut => {
                proof {
                    lemma_except_prefix_only(rv, st, sk, i as int);
                    assert(sk.insert(i as int).contains(i as int));
                }
                self.skipped = Ghost(sk.insert(i as int));
                self.next = i + 1;
                Ok(())
            },
            RegexOutcome::Cancelled => Err(ContentProcessError::Cancelled),
        }
    }
}

} // verus!
