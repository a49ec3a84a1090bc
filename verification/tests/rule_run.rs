use reader_core::content_preprocessor::{
    prepare_content, ContentPreprocessor, ContentProcessError, ProcessOptions, ReplaceRule,
};
use reader_core::rule_run::{RegexJob, RegexOutcome, RuleAction, RuleRun};

fn rules() -> Vec<ReplaceRule> {
    vec![ReplaceRule::string("猫", "狗"), ReplaceRule::regex(r"\d+", "#"), ReplaceRule::string("#", "[n]")]
}

/// Drives a run, answering each regex job with `answer`.
fn drive(mut run: RuleRun, answer: impl Fn(RegexJob) -> RegexOutcome) -> Result<String, ContentProcessError> {
    loop {
        match run.advance() {
            RuleAction::Finished(s) => return Ok(s),
            RuleAction::Failed(e) => return Err(e),
            RuleAction::RunRegex(job) => {
                let outcome = answer(job);
                run.regex_done(outcome)?;
            }
        }
    }
}

#[test]
fn run_without_timeouts_matches_apply_replace_rules() {
    let p = ContentPreprocessor::new(rules());
    let text = "猫有3只，狗有12只";
    let run = p.start_rule_run(text.to_string());
    let driven = drive(run, |job| RegexOutcome::Replaced(job.run())).unwrap();
    assert_eq!(driven, p.apply_replace_rules(text, "").unwrap());
    assert_eq!(driven, "狗有[n]只，狗有[n]只");
}

#[test]
fn timed_out_regex_rule_changes_nothing() {
    let p = ContentPreprocessor::new(rules());
    let run = p.start_rule_run("猫有3只".to_string());
    let driven = drive(run, |job| {
        assert_eq!(job.pattern_text(), r"\d+");
        assert_eq!(job.timeout(), 1000);
        RegexOutcome::TimedOut
    })
    .unwrap();
    assert_eq!(driven, "狗有3只");
}

#[test]
fn cancelled_regex_rule_fails_the_run() {
    let p = ContentPreprocessor::new(rules());
    let run = p.start_rule_run("猫有3只".to_string());
    assert!(matches!(drive(run, |_| RegexOutcome::Cancelled), Err(ContentProcessError::Cancelled)));
}

#[test]
fn bad_pattern_fails_the_run() {
    let p = ContentPreprocessor::new(vec![ReplaceRule::regex("(", "x")]);
    let run = p.start_rule_run("abc".to_string());
    assert!(matches!(drive(run, |job| RegexOutcome::Replaced(job.run())), Err(ContentProcessError::RegexCompile(_))));
}

#[test]
fn prepared_text_then_rules_then_restore_is_process() {
    let p = ContentPreprocessor::new(vec![ReplaceRule::string("b", "x")]);
    let options = ProcessOptions { adapt_special_style: true, remove_duplicate_title: false, ..Default::default() };
    let raw = "a<b>b</b>c";
    let (content, map) = prepare_content(raw, &options);
    assert!(!content.contains("<b>"));
    let replaced = drive(p.start_rule_run(content), |job| RegexOutcome::Replaced(job.run())).unwrap();
    let restored = reader_core::content_preprocessor::restore_html_tags(&replaced, &map);
    assert_eq!(restored, p.process(raw, &options).unwrap());
    assert_eq!(restored, "a<b>x</b>c");
}

#[test]
fn result_of_another_job_is_refused() {
    let p = ContentPreprocessor::new(rules());
    let other = ContentPreprocessor::new(vec![ReplaceRule::regex(r"\d+", "#")]);
    let mut foreign = other.start_rule_run("别的文本 7".to_string());
    let foreign_job = match foreign.advance() {
        RuleAction::RunRegex(job) => job,
        _ => panic!("expected a regex job"),
    };
    let mut run = p.start_rule_run("猫有3只".to_string());
    match run.advance() {
        RuleAction::RunRegex(_) => {}
        _ => panic!("expected a regex job"),
    }
    assert!(matches!(run.regex_done(RegexOutcome::Replaced(foreign_job.run())), Err(ContentProcessError::Cancelled)));
}
