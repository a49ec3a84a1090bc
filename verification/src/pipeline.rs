//! The processing pipeline: an ordered list of stages, each transforming the
//! chapter data in turn.
use vstd::prelude::*;
use crate::content_preprocessor::ReplaceRule;

verus! {

/// Pipeline configuration.
#[derive(Debug, Clone)]
pub struct PipelineConfig {
    /// Enable duplicate title removal.
    pub remove_duplicate_title: bool,
    /// Enable re-segmentation.
    pub re_segment: bool,
    /// Enable HTML tag protection.
    pub protect_html: bool,
    /// Overall pipeline timeout in seconds.
    pub timeout_secs: u64,
    /// Skip stages on error instead of failing the pipeline.
    pub skip_on_error: bool,
}

impl Default for PipelineConfig {
    fn default() -> (c: PipelineConfig)
        ensures
            c.remove_duplicate_title,
            !c.re_segment,
            c.protect_html,
            c.timeout_secs == 5,
            c.skip_on_error,
    {
        PipelineConfig {
            remove_duplicate_title: true,
            re_segment: false,
            protect_html: true,
            timeout_secs: 5,
            skip_on_error: true,
        }
    }
}

/// Data flowing through the pipeline.
#[derive(Debug, Clone)]
pub struct PipelineData {
    pub content: String,
    pub chapter_title: String,
    pub chapter_index: usize,
    pub book_title: String,
    /// Placeholder → original text of the protected HTML tags, in tag order.
    pub html_map: Option<Vec<(String, String)>>,
    /// Script replace rules carried for a script stage.
    pub js_rules: Vec<ReplaceRule>,
}

/// Mathematical view of `PipelineData`.
pub struct PipelineDataView {
    pub content: Seq<char>,
    pub chapter_title: Seq<char>,
    pub chapter_index: usize,
    pub book_title: Seq<char>,
    pub html_map: Option<Seq<(Seq<char>, Seq<char>)>>,
    pub js_rules: Seq<ReplaceRule>,
}

pub open spec fn map_view(m: Option<Vec<(String, String)>>) -> Option<Seq<(Seq<char>, Seq<char>)>> {
    match m {
        Some(v) => Some(crate::content_preprocessor::pair_views(v@)),
        None => None,
    }
}

impl View for PipelineData {
    type V = PipelineDataView;

    open spec fn view(&self) -> PipelineDataView {
        PipelineDataView {
            content: self.content@,
            chapter_title: self.chapter_title@,
            chapter_index: self.chapter_index,
            book_title: self.book_title@,
            html_map: map_view(self.html_map),
            js_rules: self.js_rules@,
        }
    }
}

impl Default for PipelineData {
    fn default() -> (d: PipelineData)
        ensures
            d@ == (PipelineDataView {
                content: Seq::<char>::empty(),
                chapter_title: Seq::<char>::empty(),
                chapter_index: 0,
                book_title: Seq::<char>::empty(),
                html_map: None,
                js_rules: Seq::<ReplaceRule>::empty(),
            }),
    {
        let d = PipelineData {
            content: String::new(),
            chapter_title: String::new(),
            chapter_index: 0,
            book_title: String::new(),
            html_map: None,
            js_rules: Vec::new(),
        };
        assert(d@ =~= (PipelineDataView {
            content: Seq::<char>::empty(),
            chapter_title: Seq::<char>::empty(),
            chapter_index: 0,
            book_title: Seq::<char>::empty(),
            html_map: None,
            js_rules: Seq::<ReplaceRule>::empty(),
        }));
        d
    }
}

fn copy_rule(r: &ReplaceRule) -> (c: ReplaceRule)
    ensures
        c == *r,
{
    ReplaceRule {
        pattern: r.pattern.clone(),
        replacement: r.replacement.clone(),
        rule_type: r.rule_type,
        timeout_ms: r.timeout_ms,
        enabled: r.enabled,
    }
}

pub(crate) fn copy_rules(v: &Vec<ReplaceRule>) -> (c: Vec<ReplaceRule>)
    ensures
        c@ == v@,
{
    let mut c: Vec<ReplaceRule> = Vec::new();
    let mut i: usize = 0;
    while i < v.len()
        invariant
            i <= v@.len(),
            c@ =~= v@.take(i as int),
        decreases v@.len() - i,
    {
        c.push(copy_rule(&v[i]));
        proof {
            assert(v@.take(i + 1) =~= v@.take(i as int).push(v@[i as int]));
        }
        i = i + 1;
    }
    proof {
        assert(v@.take(v@.len() as int) =~= v@);
    }
    c
}

/// A copy of a string-pair list, entry for entry.
pub fn copy_pairs(v: &Vec<(String, String)>) -> (c: Vec<(String, String)>)
    ensures
        crate::content_preprocessor::pair_views(c@) == crate::content_preprocessor::pair_views(v@),
{
    let mut c: Vec<(String, String)> = Vec::new();
    let mut i: usize = 0;
    while i < v.len()
        invariant
            i <= v@.len(),
            crate::content_preprocessor::pair_views(c@) =~= crate::content_preprocessor::pair_views(
                v@.take(i as int),
            ),
        decreases v@.len() - i,
    {
        let ghost c0 = c@;
        c.push((v[i].0.clone(), v[i].1.clone()));
        proof {
            assert(v@.take(i + 1) =~= v@.take(i as int).push(v@[i as int]));
            assert(crate::content_preprocessor::pair_views(c@) =~= crate::content_preprocessor::pair_views(c0).push((v@[i as int].0@, v@[i as int].1@)));
            assert(crate::content_preprocessor::pair_views(v@.take(i + 1)) =~= crate::content_preprocessor::pair_views(v@.take(i as int)).push((v@[i as int].0@, v@[i as int].1@)));
        }
        i = i + 1;
    }
    proof {
        assert(v@.take(v@.len() as int) =~= v@);
    }
    c
}

/// A copy of the pipeline data, field for field.
pub fn copy_data(d: &PipelineData) -> (c: PipelineData)
    ensures
        c@ == d@,
{
    let html_map = match &d.html_map {
        Some(m) => Some(copy_pairs(m)),
        None => None,
    };
    PipelineData {
        content: d.content.clone(),
        chapter_title: d.chapter_title.clone(),
        chapter_index: d.chapter_index,
        book_title: d.book_title.clone(),
        html_map,
        js_rules: copy_rules(&d.js_rules),
    }
}

/// A stage failure, with its message.
#[derive(Debug)]
pub struct StageError {
    pub message: String,
}

/// A processing stage: transforms the pipeline data.
///
/// A stage that states its behaviour sets `specified` and describes it with
/// `outcome`, `name` and `skippable`; its methods are then held to those. The
/// stages of this library all do; a stage that does not is promised nothing.
pub trait ProcessingStage: Send + Sync {
    /// Whether the stage describes its behaviour with the spec functions below.
    open spec fn specified(&self) -> bool {
        false
    }

    /// What the stage makes of an input: the output, or an error message.
    open spec fn outcome(&self, input: PipelineDataView) -> Result<PipelineDataView, Seq<char>> {
        Ok(input)
    }

    /// The stage's name.
    open spec fn name(&self) -> Seq<char> {
        Seq::<char>::empty()
    }

    /// Whether the pipeline passes over this stage.
    open spec fn skippable(&self) -> bool {
        false
    }

    /// Processes the input.
    fn process(&self, input: PipelineData) -> (r: Result<PipelineData, StageError>)
        ensures
            self.specified() ==> match r {
                Ok(o) => self.outcome(input@) == Ok::<PipelineDataView, Seq<char>>(o@),
                Err(e) => self.outcome(input@) == Err::<PipelineDataView, Seq<char>>(e.message@),
            },
    ;

    /// Stage name for logging.
    fn stage_name(&self) -> (r: &'static str)
        ensures
            self.specified() ==> r@ == self.name(),
    ;

    /// Whether this stage can be skipped.
    fn is_skippable(&self) -> (b: bool)
        ensures
            self.specified() ==> b == self.skippable(),
    ;
}

/// Every stage states its behaviour.
pub open spec fn all_specified(stages: Seq<Box<dyn ProcessingStage>>) -> bool {
    forall|i: int| 0 <= i < stages.len() ==> #[trigger] stages[i].specified()
}

/// The stages run in order on `input`: a skippable stage is passed over; a failing
/// stage leaves the data as it was when `skip_on_error`, else the run fails with
/// its message.
pub open spec fn run_stages(
    stages: Seq<Box<dyn ProcessingStage>>,
    skip_on_error: bool,
    input: PipelineDataView,
) -> Result<PipelineDataView, Seq<char>>
    decreases stages.len(),
{
    if stages.len() == 0 {
        Ok(input)
    } else {
        match run_stages(stages.drop_last(), skip_on_error, input) {
            Err(m) => Err(m),
            Ok(cur) => {
                let s = stages.last();
                if s.skippable() {
                    Ok(cur)
                } else {
                    match s.outcome(cur) {
                        Ok(o) => Ok(o),
                        Err(m) => if skip_on_error {
                            Ok(cur)
                        } else {
                            Err(m)
                        },
                    }
                }
            },
        }
    }
}

/// How a pipeline result relates to a specified outcome.
pub open spec fn run_result_is(
    r: Result<PipelineData, StageError>,
    spec: Result<PipelineDataView, Seq<char>>,
) -> bool {
    match r {
        Ok(o) => spec == Ok::<PipelineDataView, Seq<char>>(o@),
        Err(e) => spec == Err::<PipelineDataView, Seq<char>>(e.message@),
    }
}

#[verifier::external_type_specification]
#[verifier::external_body]
pub struct ExInstant(std::time::Instant);

/// `std::time::Instant::now`.
#[verifier::external_body]
fn clock_now() -> std::time::Instant {
    std::time::Instant::now()
}

/// `Instant::elapsed`, in whole seconds.
#[verifier::external_body]
fn seconds_since(start: &std::time::Instant) -> u64 {
    start.elapsed().as_secs()
}

/// Whether a run goes on to the next stage after `elapsed_secs` seconds: it does
/// while no more than `timeout_secs` seconds have passed.
pub fn keep_running(elapsed_secs: u64, timeout_secs: u64) -> (b: bool)
    ensures
        b == (elapsed_secs <= timeout_secs),
{
    elapsed_secs <= timeout_secs
}

/// Processing pipeline that runs its stages in order.
pub struct ProcessingPipeline {
    stages: Vec<Box<dyn ProcessingStage>>,
    config: PipelineConfig,
}

impl ProcessingPipeline {
    pub closed spec fn stages(&self) -> Seq<Box<dyn ProcessingStage>> {
        self.stages@
    }

    pub closed spec fn config(&self) -> PipelineConfig {
        self.config
    }

    /// The names of the stages, in order.
    pub closed spec fn names(&self) -> Seq<Seq<char>> {
        self.stages@.map_values(|s: Box<dyn ProcessingStage>| s.name())
    }

    /// An empty pipeline with the given configuration.
    pub fn new(config: PipelineConfig) -> (p: ProcessingPipeline)
        ensures
            p.stages().len() == 0,
            p.config() == config,
    {
        ProcessingPipeline { stages: Vec::new(), config }
    }

    /// A pipeline builder.
    pub fn builder() -> (b: PipelineBuilder)
        ensures
            b.stages().len() == 0,
            b.configuration() == (PipelineConfig {
                remove_duplicate_title: true,
                re_segment: false,
                protect_html: true,
                timeout_secs: 5,
                skip_on_error: true,
            }),
    {
        PipelineBuilder::new()
    }

    /// Appends a stage.
    pub fn add_stage(&mut self, stage: Box<dyn ProcessingStage>)
        ensures
            final(self).stages() == old(self).stages().push(stage),
            final(self).config() == old(self).config(),
    {
        self.stages.push(stage);
    }

    /// Runs the stages in order. The clock is read only after a stage that is not
    /// skippable has run; when `keep_running` then says no, the remaining stages are
    /// left out. So the result is that of a prefix of the stages that is either all
    /// of them or ends with a stage that ran.
    pub fn process(&self, input: PipelineData) -> (r: Result<PipelineData, StageError>)
        ensures
            all_specified(self.stages()) ==> exists|k: int|
                0 <= k <= self.stages().len() && (k == self.stages().len() || (k >= 1
                    && !self.stages()[k - 1].skippable())) && run_result_is(
                    r,
                    run_stages(self.stages().take(k), self.config().skip_on_error, input@),
                ),
    {
        let start = clock_now();
        let mut current = input;
        let ghost stages = self.stages@;
        let n = self.stages.len();
        let mut i: usize = 0;
        proof {
            assert(stages.take(0) =~= Seq::<Box<dyn ProcessingStage>>::empty());
        }
        let mut stop = false;
        while i < n && !stop
            invariant
                i <= n == stages.len(),
                stages == self.stages@,
                all_specified(stages) ==> run_stages(stages.take(i as int), self.config.skip_on_error, input@) == Ok::<
                    PipelineDataView,
                    Seq<char>,
                >(current@),
                stop ==> i >= 1 && (all_specified(stages) ==> !stages[i - 1].skippable()),
            decreases n - i,
        {
            proof {
                assert(stages.take(i + 1).drop_last() =~= stages.take(i as int));
                assert(stages.take(i + 1).last() == stages[i as int]);
                if all_specified(stages) {
                    assert(stages[i as int].specified());
                }
            }
            let stage = &self.stages[i];
            if stage.is_skippable() {
                i = i + 1;
            } else {
                let before = copy_data(&current);
                match stage.process(current) {
                    Ok(output) => {
                        current = output;
                    },
                    Err(e) => {
                        if self.config.skip_on_error {
                            current = before;
                        } else {
                            proof {
                                if all_specified(stages) {
                                lemma_run_err(stages, self.config.skip_on_error, input@, i + 1, e.message@);
                                assert(stages.take(n as int) =~= stages);
                                assert(self.stages() == stages);
                                assert(self.config() == self.config);
                                assert(run_result_is(
                                    Err::<PipelineData, StageError>(e),
                                    run_stages(self.stages().take(n as int), self.config().skip_on_error, input@),
                                ));
                                }
                            }
                            return Err(e);
                        }
                    },
                }
                i = i + 1;
                let elapsed = seconds_since(&start);
                if !keep_running(elapsed, self.config.timeout_secs) {
                    stop = true;
                }
            }
        }
        proof {
            assert(self.stages() == stages);
            assert(self.config() == self.config);
            if all_specified(stages) {
                assert(run_result_is(
                    Ok::<PipelineData, StageError>(current),
                    run_stages(self.stages().take(i as int), self.config().skip_on_error, input@),
                ));
                assert(i == n || (i >= 1 && !self.stages()[i - 1].skippable()));
            }
        }
        Ok(current)
    }

    /// Whether stage `index` is passed over.
    pub fn stage_is_skippable(&self, index: usize) -> (b: bool)
        requires
            index < self.stages().len(),
        ensures
            self.stages()[index as int].specified() ==> b == self.stages()[index as int].skippable(),
    {
        self.stages[index].is_skippable()
    }

    /// Runs stage `index` alone on `input`.
    pub fn run_stage(&self, index: usize, input: PipelineData) -> (r: Result<PipelineData, StageError>)
        requires
            index < self.stages().len(),
        ensures
            self.stages()[index as int].specified() ==> match r {
                Ok(o) => self.stages()[index as int].outcome(input@) == Ok::<
                    PipelineDataView,
                    Seq<char>,
                >(o@),
                Err(e) => self.stages()[index as int].outcome(input@) == Err::<
                    PipelineDataView,
                    Seq<char>,
                >(e.message@),
            },
    {
        self.stages[index].process(input)
    }

    /// The time budget of a run, in seconds.
    pub fn timeout_secs(&self) -> (t: u64)
        ensures
            t == self.config().timeout_secs,
    {
        self.config.timeout_secs
    }

    /// Number of stages.
    pub fn stage_count(&self) -> (n: usize)
        ensures
            n == self.stages().len(),
    {
        self.stages.len()
    }

    /// The stage names, in order.
    pub fn stage_names(&self) -> (names: Vec<&'static str>)
        ensures
            names@.len() == self.stages().len(),
            forall|i: int|
                0 <= i < names@.len() && self.stages()[i].specified() ==> #[trigger] names@[i]@
                    == self.stages()[i].name(),
            all_specified(self.stages()) ==> names@.map_values(|n: &'static str| n@) == self.names(),
    {
        let mut names: Vec<&'static str> = Vec::new();
        let mut i: usize = 0;
        while i < self.stages.len()
            invariant
                i <= self.stages@.len(),
                names@.len() == i,
                forall|j: int|
                    0 <= j < i && self.stages@[j].specified() ==> #[trigger] names@[j]@
                        == self.stages@[j].name(),
            decreases self.stages@.len() - i,
        {
            names.push(self.stages[i].stage_name());
            i = i + 1;
        }
        proof {
            if all_specified(self.stages()) {
                assert(names@.map_values(|n: &'static str| n@) =~= self.names());
            }
        }
        names
    }
}

/// With `skip_on_error` a run never fails: a failing stage leaves the data as it
/// was and the next stage carries on.
pub proof fn lemma_skip_on_error_never_fails(stages: Seq<Box<dyn ProcessingStage>>, input: PipelineDataView)
    ensures
        run_stages(stages, true, input) is Ok,
    decreases stages.len(),
{
    if stages.len() > 0 {
        lemma_skip_on_error_never_fails(stages.drop_last(), input);
    }
}

/// Once the run fails, every longer run fails with the same message.
proof fn lemma_run_err(
    stages: Seq<Box<dyn ProcessingStage>>,
    skip: bool,
    input: PipelineDataView,
    i: int,
    m: Seq<char>,
)
    requires
        0 <= i <= stages.len(),
        run_stages(stages.take(i), skip, input) == Err::<PipelineDataView, Seq<char>>(m),
    ensures
        run_stages(stages, skip, input) == Err::<PipelineDataView, Seq<char>>(m),
    decreases stages.len() - i,
{
    if i < stages.len() {
        assert(stages.take(i + 1).drop_last() =~= stages.take(i));
        lemma_run_err(stages, skip, input, i + 1, m);
    } else {
        assert(stages.take(i) =~= stages);
    }
}

/// Builder for a pipeline.
pub struct PipelineBuilder {
    stages: Vec<Box<dyn ProcessingStage>>,
    config: PipelineConfig,
}

impl PipelineBuilder {
    pub closed spec fn stages(&self) -> Seq<Box<dyn ProcessingStage>> {
        self.stages@
    }

    pub closed spec fn configuration(&self) -> PipelineConfig {
        self.config
    }

    /// The names of the stages added so far, in order.
    pub closed spec fn names(&self) -> Seq<Seq<char>> {
        self.stages@.map_values(|s: Box<dyn ProcessingStage>| s.name())
    }

    /// A builder with no stages and the default configuration.
    pub fn new() -> (b: PipelineBuilder)
        ensures
            b.stages().len() == 0,
            b.configuration() == (PipelineConfig {
                remove_duplicate_title: true,
                re_segment: false,
                protect_html: true,
                timeout_secs: 5,
                skip_on_error: true,
            }),
    {
        PipelineBuilder { stages: Vec::new(), config: PipelineConfig::default() }
    }

    /// Sets the configuration.
    pub fn config(self, config: PipelineConfig) -> (b: PipelineBuilder)
        ensures
            b.stages() == self.stages(),
            b.configuration() == config,
            b.names() == self.names(),
    {
        PipelineBuilder { stages: self.stages, config }
    }

    /// Appends a stage.
    pub fn add_stage(self, stage: Box<dyn ProcessingStage>) -> (b: PipelineBuilder)
        ensures
            b.stages() == self.stages().push(stage),
            b.configuration() == self.configuration(),
    {
        let mut stages = self.stages;
        stages.push(stage);
        PipelineBuilder { stages, config: self.config }
    }

    /// The pipeline.
    pub fn build(self) -> (p: ProcessingPipeline)
        ensures
            p.stages() == self.stages(),
            p.config() == self.configuration(),
            p.names() == self.names(),
    {
        ProcessingPipeline { stages: self.stages, config: self.config }
    }
}

} // verus!
