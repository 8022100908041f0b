use luna::logging::{
    format_timestamp_at, log_ai_processing, log_command_error, log_command_start, log_command_success,
    log_level_from_setting, log_safety_block, log_system_event, LogContext, LogLevel, Logger,
};

#[test]
fn test_log_level_ordering() {
    assert!(LogLevel::Error < LogLevel::Warn);
    assert!(LogLevel::Warn < LogLevel::Info);
    assert!(LogLevel::Info < LogLevel::Debug);
    assert!(LogLevel::Debug < LogLevel::Trace);
}

#[test]
fn timestamp_uses_the_simple_calendar() {
    assert_eq!(format_timestamp_at(0, 0), "1970-01-01 00:00:00.000");
    assert_eq!(format_timestamp_at(86_400 * 400 + 3_723, 45), "1971-02-06 01:02:03.045");
}

#[test]
fn logger_filters_by_level() {
    let logger = Logger::new().with_level(LogLevel::Warn);
    assert!(logger.entry(LogLevel::Info, "skip", 0, 0).is_none());
    assert_eq!(logger.entry(LogLevel::Error, "boom", 0, 7).unwrap(), "1970-01-01 00:00:00.007 [ERROR] boom\n");
    assert_eq!(LogLevel::Warn.label(), "WARN ");
}

fn fields(e: &luna::logging::LogEvent) -> Vec<(&str, &str)> {
    e.fields.iter().map(|(k, v)| (k.as_str(), v.as_str())).collect()
}

#[test]
fn command_events_carry_their_fields() {
    let e = log_command_start("open notepad");
    assert_eq!((e.level, e.event.as_str(), e.message.as_str()), (LogLevel::Info, "command_start", "Starting command execution"));
    assert_eq!(fields(&e), vec![("command", "open notepad")]);
    let e = log_command_success("x", 42);
    assert_eq!(fields(&e), vec![("command", "x"), ("duration_ms", "42")]);
    let e = log_command_error("x", "bad", 7);
    assert_eq!((e.level, e.event.as_str()), (LogLevel::Error, "command_error"));
    assert_eq!(fields(&e), vec![("command", "x"), ("error", "bad"), ("duration_ms", "7")]);
    let ok = log_ai_processing("clip", "detect", 12, true);
    assert_eq!((ok.level, ok.event.as_str(), ok.message.as_str()), (LogLevel::Info, "ai_processing_success", "AI processing completed"));
    let bad = log_ai_processing("clip", "detect", 12, false);
    assert_eq!((bad.level, bad.event.as_str(), bad.message.as_str()), (LogLevel::Warn, "ai_processing_failed", "AI processing failed"));
    assert_eq!(fields(&bad), vec![("model", "clip"), ("operation", "detect"), ("processing_time_ms", "12")]);
    let e = log_safety_block("rm -rf /", "blocked pattern");
    assert_eq!((e.level, e.event.as_str()), (LogLevel::Warn, "safety_block"));
    let e = log_system_event("startup", "ready");
    assert_eq!(fields(&e), vec![("event_type", "startup"), ("details", "ready")]);
}

#[test]
fn log_context_closes_with_duration_and_fields() {
    let mut c = LogContext::new_at("capture", 1000);
    c.add_field("frames", "3");
    c.add_field("mode", "full");
    c.add_field("frames", "4");
    let e = c.success_at(1250);
    assert_eq!((e.level, e.event.as_str()), (LogLevel::Info, "operation_complete"));
    assert_eq!(
        fields(&e),
        vec![("operation", "capture"), ("duration_ms", "250"), ("success", "true"), ("frames", "4"), ("mode", "full")]
    );
    let e = LogContext::new_at("load", 50).error_at("missing file", 20);
    assert_eq!(e.message, "Operation failed: missing file");
    assert_eq!(fields(&e), vec![("operation", "load"), ("duration_ms", "0"), ("success", "false"), ("error", "missing file")]);
}

#[test]
fn log_level_settings() {
    assert_eq!(log_level_from_setting(Some("debug")), LogLevel::Debug);
    assert_eq!(log_level_from_setting(Some("trace")), LogLevel::Trace);
    assert_eq!(log_level_from_setting(Some("warn")), LogLevel::Warn);
    assert_eq!(log_level_from_setting(Some("error")), LogLevel::Error);
    assert_eq!(log_level_from_setting(Some("loud")), LogLevel::Info);
    assert_eq!(log_level_from_setting(None), LogLevel::Info);
}

#[test]
fn test_logger_levels() {
    let logger = Logger::new().with_level(LogLevel::Warn);
    assert!(logger.entry(LogLevel::Debug, "This should not appear", 0, 0).is_none());
    assert!(logger.entry(LogLevel::Trace, "This should not appear", 0, 0).is_none());
    assert!(logger.entry(LogLevel::Warn, "This should appear", 0, 0).is_some());
    assert!(logger.entry(LogLevel::Error, "This should appear", 0, 0).is_some());
}
