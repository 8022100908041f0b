use luna::pipeline::{
    all_connected, detection_ready, failed_specialists, florence_device, initialization_decision, memory_gate,
    specialists_to_start, timeout_error, validation_result, Device, PipelineAction, PipelineError, PipelineStats,
    RunOutcome, Specialist, TaskOutcome,
};

fn model_error_text(e: &PipelineError) -> (String, String) {
    match e {
        PipelineError::AiModel { model, error, .. } => (model.clone(), error.clone()),
        PipelineError::Memory { .. } => panic!("a model error was expected"),
    }
}

#[test]
fn specialists_and_memory() {
    assert_eq!(specialists_to_start(false), vec![Specialist::Florence2, Specialist::Clip, Specialist::TrOCR]);
    assert_eq!(specialists_to_start(true).len(), 4);
    assert_eq!(Specialist::Sam.name(), "SAM");
    assert!(memory_gate(4096, 4096).is_ok());
    match memory_gate(1000, 4096) {
        Err(PipelineError::Memory { required_mb, available_mb, .. }) => assert_eq!((required_mb, available_mb), (4096, 1000)),
        _ => panic!("memory must be refused"),
    }
}

#[test]
fn critical_failures_stop_the_pipeline() {
    let (ok, failed, crashed) = (TaskOutcome::Succeeded, TaskOutcome::Failed, TaskOutcome::Crashed);
    assert_eq!(failed_specialists(&vec![ok, failed, ok, crashed]), vec!["CLIP", "Unknown"]);
    let e = initialization_decision(&vec![ok, failed, ok, failed]).unwrap_err();
    assert_eq!(model_error_text(&e), ("Pipeline".to_string(), "Critical specialists failed: [\"CLIP\", \"SAM\"]".to_string()));
    assert_eq!(initialization_decision(&vec![ok, ok, failed]).unwrap(), false);
    assert_eq!(initialization_decision(&vec![ok, ok, ok]).unwrap(), true);
}

#[test]
fn connections_and_runs() {
    assert!(all_connected(&vec![true, true]));
    assert!(!all_connected(&vec![true, false]));
    assert!(validation_result(&vec![]).is_ok());
    assert!(validation_result(&vec![false]).is_err());
    let mut stats = PipelineStats::new();
    assert!(stats.begin(true, true));
    assert!(!stats.begin(false, true));
    assert_eq!(stats.finish(RunOutcome::Done, true, false), PipelineAction::ReturnResult { cache_it: true });
    assert_eq!(stats.finish(RunOutcome::Failed, true, true), PipelineAction::RunFallback);
    assert_eq!(stats.finish(RunOutcome::Timeout, true, false), PipelineAction::TimedOut);
    assert_eq!(stats.finish(RunOutcome::Failed, true, false), PipelineAction::PassError);
    assert_eq!((stats.total_analyses, stats.successful_analyses), (2, 1));
    assert_eq!(model_error_text(&timeout_error()).1, "Processing timeout");
}

#[test]
fn detector_settings() {
    assert_eq!(florence_device(50, 10, "cpu", true, None).unwrap(), Device::Cpu);
    assert_eq!(florence_device(50, 10, "auto", true, None).unwrap(), Device::Cuda);
    assert_eq!(florence_device(50, 10, "auto", true, Some("driver".to_string())).unwrap(), Device::Cpu);
    assert_eq!(model_error_text(&florence_device(50, 10, "cuda", false, None).unwrap_err()).1, "CUDA requested but not available");
    assert_eq!(model_error_text(&florence_device(50, 10, "tpu", false, None).unwrap_err()).1, "Unknown device: tpu");
    assert_eq!(model_error_text(&florence_device(101, 10, "cpu", false, None).unwrap_err()).1, "Confidence threshold must be between 0.0 and 1.0");
    assert_eq!(model_error_text(&florence_device(50, 0, "cpu", false, None).unwrap_err()).1, "max_objects must be greater than 0");
    assert_eq!(model_error_text(&detection_ready(false, 10).unwrap_err()).1, "Model not initialized");
    assert_eq!(model_error_text(&detection_ready(true, 0).unwrap_err()).1, "Empty image data");
    assert!(detection_ready(true, 1).is_ok());
}
