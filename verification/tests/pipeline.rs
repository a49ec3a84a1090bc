use reader_core::pipeline::{
    keep_running, PipelineConfig, PipelineData, ProcessingPipeline, ProcessingStage, StageError,
};
use reader_core::stages::{HtmlProtector, HtmlRestorer, RegexReplacer, ResegmentProcessor, StringReplacer};

/// A stage that always fails.
struct Failing;

impl ProcessingStage for Failing {
    fn process(&self, _input: PipelineData) -> Result<PipelineData, StageError> {
        Err(StageError { message: "boom".to_string() })
    }
    fn stage_name(&self) -> &'static str {
        "Failing"
    }
    fn is_skippable(&self) -> bool {
        false
    }
}

/// A stage the pipeline passes over.
struct Skipped;

impl ProcessingStage for Skipped {
    fn process(&self, mut input: PipelineData) -> Result<PipelineData, StageError> {
        input.content.push_str("!");
        Ok(input)
    }
    fn stage_name(&self) -> &'static str {
        "Skipped"
    }
    fn is_skippable(&self) -> bool {
        true
    }
}

fn data(content: &str) -> PipelineData {
    PipelineData { content: content.to_string(), ..Default::default() }
}

#[test]
fn test_pipeline_with_replacements() {
    let pipeline = ProcessingPipeline::builder()
        .add_stage(Box::new(StringReplacer::new(vec![("测试".to_string(), "TEST".to_string())])))
        .add_stage(Box::new(RegexReplacer::new(vec![(r"\d+".to_string(), "[数字]".to_string())])))
        .build();
    let output = pipeline.process(data("这是123测试456内容")).unwrap();
    assert_eq!(output.content, "这是[数字]TEST[数字]内容");
}

#[test]
fn test_pipeline_stage_names() {
    let pipeline = ProcessingPipeline::builder()
        .add_stage(Box::new(HtmlProtector::default()))
        .add_stage(Box::new(ResegmentProcessor))
        .build();
    assert_eq!(pipeline.stage_names(), vec!["HtmlProtector", "ResegmentProcessor"]);
    assert_eq!(pipeline.stage_count(), 2);
}

#[test]
fn test_pipeline_skip_on_error() {
    let pipeline = ProcessingPipeline::builder()
        .config(PipelineConfig { skip_on_error: true, ..Default::default() })
        .add_stage(Box::new(Failing))
        .add_stage(Box::new(ResegmentProcessor))
        .build();
    let output = pipeline.process(data("测试\n\n内容")).unwrap();
    assert_eq!(output.content, "测试\n内容");
}

#[test]
fn failing_stage_fails_the_run_without_skip_on_error() {
    let mut pipeline = ProcessingPipeline::new(PipelineConfig { skip_on_error: false, ..Default::default() });
    pipeline.add_stage(Box::new(ResegmentProcessor));
    pipeline.add_stage(Box::new(Failing));
    match pipeline.process(data("x")) {
        Err(e) => assert_eq!(e.message, "boom"),
        Ok(_) => panic!("the failing stage must fail the run"),
    }
}

#[test]
fn skippable_stage_is_passed_over() {
    let pipeline = ProcessingPipeline::builder().add_stage(Box::new(Skipped)).build();
    assert_eq!(pipeline.process(data("a")).unwrap().content, "a");
}

#[test]
fn protect_replace_restore_round_trip() {
    let pipeline = ProcessingPipeline::builder()
        .add_stage(Box::new(HtmlProtector::default()))
        .add_stage(Box::new(StringReplacer::new(vec![("b".to_string(), "B".to_string())])))
        .add_stage(Box::new(HtmlRestorer))
        .build();
    let output = pipeline.process(data("<b>abc</b>")).unwrap();
    assert_eq!(output.content, "<b>aBc</b>");
    assert!(output.html_map.is_none());
}

#[test]
fn default_config_values() {
    let c = PipelineConfig::default();
    assert!(c.remove_duplicate_title);
    assert!(!c.re_segment);
    assert!(c.protect_html);
    assert_eq!(c.timeout_secs, 5);
    assert!(c.skip_on_error);
}

#[test]
fn stages_run_one_at_a_time() {
    let pipeline = ProcessingPipeline::builder()
        .add_stage(Box::new(Skipped))
        .add_stage(Box::new(StringReplacer::new(vec![("a".to_string(), "b".to_string())])))
        .add_stage(Box::new(Failing))
        .build();
    assert_eq!(pipeline.stage_count(), 3);
    assert!(pipeline.stage_is_skippable(0));
    assert!(!pipeline.stage_is_skippable(1));
    assert_eq!(pipeline.run_stage(1, data("aa")).unwrap().content, "bb");
    assert_eq!(pipeline.run_stage(2, data("aa")).unwrap_err().message, "boom");
    assert_eq!(pipeline.timeout_secs(), 5);
}

#[test]
fn run_goes_on_while_within_the_timeout() {
    assert!(keep_running(0, 5));
    assert!(keep_running(5, 5));
    assert!(!keep_running(6, 5));
    assert!(!keep_running(1, 0));
}

#[test]
fn zero_timeout_still_runs_all_stages_of_a_fast_run() {
    let mut config = PipelineConfig::default();
    config.timeout_secs = 0;
    let mut p = ProcessingPipeline::new(config);
    p.add_stage(Box::new(StringReplacer::new(vec![("a".to_string(), "b".to_string())])));
    p.add_stage(Box::new(StringReplacer::new(vec![("b".to_string(), "c".to_string())])));
    let out = p.process(data("a")).unwrap();
    assert_eq!(out.content, "c");
}
