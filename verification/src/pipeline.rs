//! The decisions of the specialist-model pipeline: which specialists start,
//! whether memory allows it, which failures are fatal, whether connections
//! hold, what a run's outcome leads to, and how a detector is configured.
//! The models themselves run outside; their outcomes come in as values.

use vstd::prelude::*;
use vstd::string::StringExecFns;
use crate::text::str_eq;

verus! {

/// The specialist models.
#[derive(Debug, Clone, Copy, PartialEq, Eq, Structural)]
pub enum Specialist {
    Florence2,
    Clip,
    TrOCR,
    Sam,
}

impl Specialist {
    /// The name a specialist is reported under.
    pub open spec fn spec_name(self) -> Seq<char> {
        match self {
            Specialist::Florence2 => "Florence-2"@,
            Specialist::Clip => "CLIP"@,
            Specialist::TrOCR => "TrOCR"@,
            Specialist::Sam => "SAM"@,
        }
    }

    /// The name a specialist is reported under.
    pub fn name(&self) -> (s: &'static str)
        ensures
            s@ == self.spec_name(),
    {
        match self {
            Specialist::Florence2 => "Florence-2",
            Specialist::Clip => "CLIP",
            Specialist::TrOCR => "TrOCR",
            Specialist::Sam => "SAM",
        }
    }
}

/// Why the pipeline or a specialist refused to go on.
#[derive(Debug)]
pub enum PipelineError {
    Memory { operation: String, required_mb: u64, available_mb: u64, suggestion: String },
    AiModel { model: String, error: String, suggestion: String },
}

/// The error `e` is a model error of `model` with the texts given.
pub open spec fn model_error(e: PipelineError, model: Seq<char>, error: Seq<char>, suggestion: Seq<char>) -> bool {
    e matches PipelineError::AiModel { model: m, error: x, suggestion: s } && m@ == model && x@ == error && s@
        == suggestion
}

fn ai_error(model: &str, error: String, suggestion: &str) -> (e: PipelineError)
    ensures
        model_error(e, model@, error@, suggestion@),
{
    PipelineError::AiModel { model: String::from_str(model), error, suggestion: String::from_str(suggestion) }
}

/// The specialists started: Florence-2, CLIP and TrOCR always, SAM when
/// segmentation is on.
pub open spec fn started(enable_segmentation: bool) -> Seq<Specialist> {
    if enable_segmentation {
        seq![Specialist::Florence2, Specialist::Clip, Specialist::TrOCR, Specialist::Sam]
    } else {
        seq![Specialist::Florence2, Specialist::Clip, Specialist::TrOCR]
    }
}

/// The specialists to start, in order.
pub fn specialists_to_start(enable_segmentation: bool) -> (v: Vec<Specialist>)
    ensures
        v@ == started(enable_segmentation),
{
    let mut v: Vec<Specialist> = Vec::new();
    v.push(Specialist::Florence2);
    v.push(Specialist::Clip);
    v.push(Specialist::TrOCR);
    if enable_segmentation {
        v.push(Specialist::Sam);
    }
    assert(v@ =~= started(enable_segmentation));
    v
}

/// Starting is refused when less memory is available than the specialists
/// need, in megabytes.
pub fn memory_gate(available_mb: u64, required_mb: u64) -> (r: Result<(), PipelineError>)
    ensures
        r is Ok <==> available_mb >= required_mb,
        r matches Err(e) ==> (e matches PipelineError::Memory { operation: o, required_mb: q, available_mb: a, suggestion: s }
            && o@ == "AI pipeline initialization"@ && q == required_mb && a == available_mb && s@
            == "Close other applications or disable some AI models"@),
{
    if available_mb < required_mb {
        return Err(
            PipelineError::Memory {
                operation: String::from_str("AI pipeline initialization"),
                required_mb,
                available_mb,
                suggestion: String::from_str("Close other applications or disable some AI models"),
            },
        );
    }
    Ok(())
}

/// How one start or check of a specialist ended: it worked, it failed, or
/// its task broke down.
#[derive(Debug, Clone, Copy, PartialEq, Eq, Structural)]
pub enum TaskOutcome {
    Succeeded,
    Failed,
    Crashed,
}

/// The name a failure at position `i` is reported under: the specialist
/// started there when the task ran, `Unknown` when it broke down.
pub open spec fn failure_name(i: int, outcome: TaskOutcome) -> Seq<char> {
    if outcome == TaskOutcome::Crashed {
        "Unknown"@
    } else if i == 0 {
        "Florence-2"@
    } else if i == 1 {
        "CLIP"@
    } else if i == 2 {
        "TrOCR"@
    } else if i == 3 {
        "SAM"@
    } else {
        "Unknown"@
    }
}

/// The names of the failed starts among `outcomes`, in order.
pub open spec fn failed_names(outcomes: Seq<TaskOutcome>) -> Seq<Seq<char>>
    decreases outcomes.len(),
{
    if outcomes.len() == 0 {
        Seq::empty()
    } else {
        let i = outcomes.len() - 1;
        failed_names(outcomes.drop_last()) + if outcomes[i] == TaskOutcome::Succeeded {
            Seq::<Seq<char>>::empty()
        } else {
            seq![failure_name(i, outcomes[i])]
        }
    }
}

/// The names `names` as a debug list: `["a", "b"]`.
pub open spec fn debug_list(names: Seq<Seq<char>>) -> Seq<char> {
    "["@ + quoted_joined(names) + "]"@
}

/// The names `names`, each in double quotes, joined with `, `.
pub open spec fn quoted_joined(names: Seq<Seq<char>>) -> Seq<char>
    decreases names.len(),
{
    if names.len() == 0 {
        Seq::empty()
    } else if names.len() == 1 {
        "\""@ + names[0] + "\""@
    } else {
        quoted_joined(names.drop_last()) + ", \""@ + names.last() + "\""@
    }
}

fn failure_name_of(i: usize, outcome: TaskOutcome) -> (s: &'static str)
    ensures
        s@ == failure_name(i as int, outcome),
{
    if outcome == TaskOutcome::Crashed {
        "Unknown"
    } else if i == 0 {
        "Florence-2"
    } else if i == 1 {
        "CLIP"
    } else if i == 2 {
        "TrOCR"
    } else if i == 3 {
        "SAM"
    } else {
        "Unknown"
    }
}

/// The names of the failed starts among `outcomes`.
pub fn failed_specialists(outcomes: &Vec<TaskOutcome>) -> (v: Vec<&'static str>)
    ensures
        v@.map_values(|s: &'static str| s@) == failed_names(outcomes@),
{
    let mut v: Vec<&'static str> = Vec::new();
    let mut i: usize = 0;
    while i < outcomes.len()
        invariant
            i <= outcomes@.len(),
            v@.map_values(|s: &'static str| s@) == failed_names(outcomes@.take(i as int)),
        decreases outcomes@.len() - i,
    {
        let ghost before = v@.map_values(|s: &'static str| s@);
        assert(outcomes@.take(i + 1).drop_last() =~= outcomes@.take(i as int));
        if outcomes[i] != TaskOutcome::Succeeded {
            v.push(failure_name_of(i, outcomes[i]));
        }
        assert(v@.map_values(|s: &'static str| s@) =~= failed_names(outcomes@.take(i + 1)));
        i = i + 1;
    }
    assert(outcomes@.take(outcomes@.len() as int) =~= outcomes@);
    v
}

/// `names` as a debug list.
fn debug_list_of(names: &Vec<&'static str>) -> (s: String)
    ensures
        s@ == debug_list(names@.map_values(|n: &'static str| n@)),
{
    let ghost all = names@.map_values(|n: &'static str| n@);
    let mut s = String::from_str("[");
    let mut i: usize = 0;
    while i < names.len()
        invariant
            i <= names@.len(),
            all == names@.map_values(|n: &'static str| n@),
            s@ == "["@ + quoted_joined(all.take(i as int)),
        decreases names@.len() - i,
    {
        assert(all.take(i + 1).drop_last() =~= all.take(i as int));
        assert(all.take(i + 1).last() == names@[i as int]@);
        if i > 0 {
            s.append(", ");
        }
        s.append("\"");
        s.append(names[i]);
        s.append("\"");
        proof {
            reveal_strlit(", ");
            reveal_strlit("\"");
            reveal_strlit(", \"");
            if i == 0 {
                assert(all.take(1) =~= seq![names@[0]@]);
            }
        }
        assert(s@ =~= "["@ + quoted_joined(all.take(i + 1)));
        i = i + 1;
    }
    assert(all.take(names@.len() as int) =~= all);
    s.append("]");
    s
}

/// The failures `names` hold Florence-2 or CLIP, which the pipeline
/// cannot do without.
pub open spec fn critical_failure(names: Seq<Seq<char>>) -> bool {
    names.contains("Florence-2"@) || names.contains("CLIP"@)
}

/// What the start outcomes `outcomes` lead to: a model error naming the
/// failed specialists when Florence-2 or CLIP failed; otherwise the
/// pipeline runs, and reports whether every start worked.
pub fn initialization_decision(outcomes: &Vec<TaskOutcome>) -> (r: Result<bool, PipelineError>)
    ensures
        critical_failure(failed_names(outcomes@)) ==> (r matches Err(e) && model_error(
            e,
            "Pipeline"@,
            "Critical specialists failed: "@ + debug_list(failed_names(outcomes@)),
            "Check individual specialist configurations and retry"@,
        )),
        !critical_failure(failed_names(outcomes@)) ==> r == Ok::<bool, PipelineError>(
            failed_names(outcomes@).len() == 0,
        ),
{
    let failed = failed_specialists(outcomes);
    let ghost names = failed@.map_values(|s: &'static str| s@);
    let mut critical = false;
    let mut i: usize = 0;
    while i < failed.len()
        invariant
            i <= failed@.len(),
            names == failed@.map_values(|s: &'static str| s@),
            critical == (names.take(i as int).contains("Florence-2"@) || names.take(i as int).contains("CLIP"@)),
        decreases failed@.len() - i,
    {
        let ghost pre = names.take(i as int);
        assert(names.take(i + 1) =~= pre.push(names[i as int]));
        assert(names[i as int] == failed@[i as int]@);
        if str_eq(failed[i], "Florence-2") || str_eq(failed[i], "CLIP") {
            critical = true;
            assert(names.take(i + 1)[i as int] == names[i as int]);
        }
        proof {
            let now = names.take(i + 1);
            assert forall|x: Seq<char>| now.contains(x) <==> (pre.contains(x) || x == names[i as int]) by {
                if now.contains(x) {
                    let q = choose|q: int| 0 <= q < now.len() && now[q] == x;
                    if q < i {
                        assert(pre[q] == x);
                    }
                }
                if pre.contains(x) {
                    let q = choose|q: int| 0 <= q < pre.len() && pre[q] == x;
                    assert(now[q] == x);
                }
                if x == names[i as int] {
                    assert(now[i as int] == x);
                }
            }
        }
        i = i + 1;
    }
    assert(names.take(failed@.len() as int) =~= names);
    if critical {
        let mut error = String::from_str("Critical specialists failed: ");
        let list = debug_list_of(&failed);
        error.append(list.as_str());
        return Err(ai_error("Pipeline", error, "Check individual specialist configurations and retry"));
    }
    Ok(failed.len() == 0)
}

/// Whether every connection check in `checks` held.
pub fn all_connected(checks: &Vec<bool>) -> (b: bool)
    ensures
        b == forall|i: int| 0 <= i < checks@.len() ==> checks@[i],
{
    let mut i: usize = 0;
    while i < checks.len()
        invariant
            i <= checks@.len(),
            forall|q: int| 0 <= q < i ==> checks@[q],
        decreases checks@.len() - i,
    {
        if !checks[i] {
            return false;
        }
        i = i + 1;
    }
    true
}

/// What a pipeline run's outcome leads to.
#[derive(Debug, Clone, Copy, PartialEq, Eq, Structural)]
pub enum PipelineAction {
    /// Give the run's result, and keep it in the cache when caching is on.
    ReturnResult { cache_it: bool },
    /// Try the simpler fallback analysis.
    RunFallback,
    /// Give the run's own error.
    PassError,
    /// Give up after the time limit.
    TimedOut,
}

/// How a pipeline run ended.
#[derive(Debug, Clone, Copy, PartialEq, Eq, Structural)]
pub enum RunOutcome {
    Done,
    Failed,
    Timeout,
}

/// The next step after a run that ended in `outcome`: the result when it
/// is done (cached when caching is on); otherwise the fallback when
/// fallbacks are on, else the run's error or the timeout.
pub open spec fn next_action(outcome: RunOutcome, enable_caching: bool, enable_fallbacks: bool) -> PipelineAction {
    match outcome {
        RunOutcome::Done => PipelineAction::ReturnResult { cache_it: enable_caching },
        RunOutcome::Failed => if enable_fallbacks {
            PipelineAction::RunFallback
        } else {
            PipelineAction::PassError
        },
        RunOutcome::Timeout => if enable_fallbacks {
            PipelineAction::RunFallback
        } else {
            PipelineAction::TimedOut
        },
    }
}

/// The counts of the pipeline: analyses asked for and analyses that
/// worked.
pub struct PipelineStats {
    pub total_analyses: u64,
    pub successful_analyses: u64,
}

impl PipelineStats {
    /// No analysis yet.
    pub fn new() -> (s: Self)
        ensures
            s.total_analyses == 0,
            s.successful_analyses == 0,
    {
        PipelineStats { total_analyses: 0, successful_analyses: 0 }
    }

    /// Counts a command coming in.  A cached result, when caching is on
    /// and there is one (`cached`), is given at once: `true` then.
    pub fn begin(&mut self, enable_caching: bool, cached: bool) -> (use_cache: bool)
        ensures
            use_cache == (enable_caching && cached),
            final(self).total_analyses == (if old(self).total_analyses < u64::MAX {
                old(self).total_analyses + 1
            } else {
                old(self).total_analyses as int
            }),
            final(self).successful_analyses == old(self).successful_analyses,
    {
        self.total_analyses = self.total_analyses.saturating_add(1);
        enable_caching && cached
    }

    /// The step after a run that ended in `outcome`; a run that is done
    /// counts as a success.
    pub fn finish(&mut self, outcome: RunOutcome, enable_caching: bool, enable_fallbacks: bool) -> (a: PipelineAction)
        ensures
            a == next_action(outcome, enable_caching, enable_fallbacks),
            final(self).total_analyses == old(self).total_analyses,
            final(self).successful_analyses == (if outcome == RunOutcome::Done && old(self).successful_analyses
                < u64::MAX {
                old(self).successful_analyses + 1
            } else {
                old(self).successful_analyses as int
            }),
    {
        match outcome {
            RunOutcome::Done => {
                self.successful_analyses = self.successful_analyses.saturating_add(1);
                PipelineAction::ReturnResult { cache_it: enable_caching }
            },
            RunOutcome::Failed => if enable_fallbacks {
                PipelineAction::RunFallback
            } else {
                PipelineAction::PassError
            },
            RunOutcome::Timeout => if enable_fallbacks {
                PipelineAction::RunFallback
            } else {
                PipelineAction::TimedOut
            },
        }
    }
}

/// The error a pipeline gives up with after its time limit.
pub fn timeout_error() -> (e: PipelineError)
    ensures
        model_error(e, "Pipeline"@, "Processing timeout"@, "Increase pipeline_timeout_ms or reduce image size"@),
{
    ai_error("Pipeline", String::from_str("Processing timeout"), "Increase pipeline_timeout_ms or reduce image size")
}

/// Where a detector runs.
#[derive(Debug, Clone, Copy, PartialEq, Eq, Structural)]
pub enum Device {
    Cpu,
    Cuda,
}

/// The device the detector's settings ask for, or why they are refused:
/// the confidence threshold (in percent) must lie in 0..=100 and at least
/// one object must be allowed; `cuda` needs CUDA available and starting
/// (`cuda_error` is what starting it reported, if it failed), `cpu` is the
/// processor, `auto` takes CUDA when it is available and starts and the
/// processor otherwise; any other name is refused.
pub fn florence_device(
    confidence_percent: i64,
    max_objects: usize,
    device: &str,
    cuda_available: bool,
    cuda_error: Option<String>,
) -> (r: Result<Device, PipelineError>)
    ensures
        !(0 <= confidence_percent <= 100) ==> (r matches Err(e) && model_error(
            e,
            "Florence-2"@,
            "Confidence threshold must be between 0.0 and 1.0"@,
            "Set confidence_threshold to a value between 0.0 and 1.0"@,
        )),
        0 <= confidence_percent <= 100 && max_objects == 0 ==> (r matches Err(e) && model_error(
            e,
            "Florence-2"@,
            "max_objects must be greater than 0"@,
            "Set max_objects to a positive integer"@,
        )),
        0 <= confidence_percent <= 100 && max_objects > 0 ==> {
            if device@ == "cuda"@ {
                if !cuda_available {
                    r matches Err(e) && model_error(
                        e,
                        "Florence-2"@,
                        "CUDA requested but not available"@,
                        "Install CUDA drivers or use 'auto' device"@,
                    )
                } else {
                    match cuda_error {
                        Some(m) => r matches Err(e) && model_error(
                            e,
                            "Florence-2"@,
                            "Failed to initialize CUDA: "@ + m@,
                            "Check CUDA installation or use 'cpu' device"@,
                        ),
                        None => r == Ok::<Device, PipelineError>(Device::Cuda),
                    }
                }
            } else if device@ == "cpu"@ {
                r == Ok::<Device, PipelineError>(Device::Cpu)
            } else if device@ == "auto"@ {
                r == Ok::<Device, PipelineError>(
                    if cuda_available && cuda_error is None {
                        Device::Cuda
                    } else {
                        Device::Cpu
                    },
                )
            } else {
                r matches Err(e) && model_error(
                    e,
                    "Florence-2"@,
                    "Unknown device: "@ + device@,
                    "Use 'cuda', 'cpu', or 'auto'"@,
                )
            }
        },
{
    if confidence_percent < 0 || confidence_percent > 100 {
        return Err(
            ai_error(
                "Florence-2",
                String::from_str("Confidence threshold must be between 0.0 and 1.0"),
                "Set confidence_threshold to a value between 0.0 and 1.0",
            ),
        );
    }
    if max_objects == 0 {
        return Err(
            ai_error(
                "Florence-2",
                String::from_str("max_objects must be greater than 0"),
                "Set max_objects to a positive integer",
            ),
        );
    }
    if str_eq(device, "cuda") {
        if !cuda_available {
            return Err(
                ai_error(
                    "Florence-2",
                    String::from_str("CUDA requested but not available"),
                    "Install CUDA drivers or use 'auto' device",
                ),
            );
        }
        match cuda_error {
            Some(m) => {
                let mut error = String::from_str("Failed to initialize CUDA: ");
                error.append(m.as_str());
                Err(ai_error("Florence-2", error, "Check CUDA installation or use 'cpu' device"))
            },
            None => Ok(Device::Cuda),
        }
    } else if str_eq(device, "cpu") {
        Ok(Device::Cpu)
    } else if str_eq(device, "auto") {
        if cuda_available && cuda_error.is_none() {
            Ok(Device::Cuda)
        } else {
            Ok(Device::Cpu)
        }
    } else {
        let mut error = String::from_str("Unknown device: ");
        error.append(device);
        Err(ai_error("Florence-2", error, "Use 'cuda', 'cpu', or 'auto'"))
    }
}

/// Whether the detector may look at an image of `image_len` bytes: it
/// must be initialized, and the image must not be empty.
pub fn detection_ready(initialized: bool, image_len: usize) -> (r: Result<(), PipelineError>)
    ensures
        !initialized ==> (r matches Err(e) && model_error(
            e,
            "Florence-2"@,
            "Model not initialized"@,
            "Call initialize() before using the model"@,
        )),
        initialized && image_len == 0 ==> (r matches Err(e) && model_error(
            e,
            "Florence-2"@,
            "Empty image data"@,
            "Provide valid image data"@,
        )),
        initialized && image_len > 0 ==> r is Ok,
{
    if !initialized {
        return Err(
            ai_error("Florence-2", String::from_str("Model not initialized"), "Call initialize() before using the model"),
        );
    }
    if image_len == 0 {
        return Err(ai_error("Florence-2", String::from_str("Empty image data"), "Provide valid image data"));
    }
    Ok(())
}

/// What the connection checks `checks` lead to: nothing when all held,
/// else a model error.
pub fn validation_result(checks: &Vec<bool>) -> (r: Result<(), PipelineError>)
    ensures
        r is Ok <==> forall|i: int| 0 <= i < checks@.len() ==> checks@[i],
        r matches Err(e) ==> (e matches PipelineError::AiModel { model: m, suggestion: s, .. } && m@ == "Pipeline"@ && s@
            == "Check individual specialist configurations"@),
{
    if all_connected(checks) {
        Ok(())
    } else {
        Err(
            PipelineError::AiModel {
                model: String::from_str("Pipeline"),
                error: String::from_str("Validation failures"),
                suggestion: String::from_str("Check individual specialist configurations"),
            },
        )
    }
}

} // verus!
