use luna::program::{is_critical_error, parse_args, AppMode, FrameReport, ParsedArgs, PerformanceMetrics};

fn args(list: &[&str]) -> Vec<String> {
    list.iter().map(|a| a.to_string()).collect()
}

#[test]
fn arguments_pick_the_mode() {
    assert_eq!(parse_args(&args(&["luna"])), ParsedArgs::Run(AppMode::Normal));
    assert_eq!(parse_args(&args(&["luna", "--test"])), ParsedArgs::Run(AppMode::Test));
    assert_eq!(parse_args(&args(&["luna", "--demo"])), ParsedArgs::Run(AppMode::Demo));
    assert_eq!(parse_args(&args(&["luna", "--headless"])), ParsedArgs::Run(AppMode::Headless));
    assert_eq!(parse_args(&args(&["luna", "-h"])), ParsedArgs::Help);
    assert_eq!(parse_args(&args(&["luna", "--help", "--test"])), ParsedArgs::Help);
}

#[test]
fn unknown_arguments_are_ignored() {
    assert_eq!(parse_args(&args(&["luna", "--verbose", "--demo"])), ParsedArgs::Run(AppMode::Demo));
    assert_eq!(parse_args(&args(&["luna", "extra"])), ParsedArgs::Run(AppMode::Normal));
    // The program's own name is never read as an option.
    assert_eq!(parse_args(&args(&["--test"])), ParsedArgs::Run(AppMode::Normal));
}

#[test]
fn critical_errors_end_the_program() {
    assert!(is_critical_error("FATAL: device lost"));
    assert!(is_critical_error("Out Of Memory while capturing"));
    assert!(is_critical_error("permission denied"));
    assert!(is_critical_error("a Critical fault"));
    assert!(!is_critical_error("screen capture timed out"));
    assert!(!is_critical_error(""));
}

#[test]
fn frame_timings_are_reported_every_five_seconds() {
    let mut m = PerformanceMetrics::new_at(1_000);
    assert_eq!(m.record_frame_at(20, 2_000), None);
    assert_eq!(m.record_frame_at(30, 4_000), None);
    assert_eq!(
        m.record_frame_at(10, 6_000),
        Some(FrameReport { frames: 3, elapsed_ms: 5_000, total_processing_ms: 60 })
    );
    assert_eq!(m.record_frame_at(5, 7_000), None);
    assert_eq!(
        m.record_frame_at(5, 11_000),
        Some(FrameReport { frames: 2, elapsed_ms: 5_000, total_processing_ms: 10 })
    );
}
