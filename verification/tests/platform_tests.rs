use luna::events::{event_matches_filter, EventFilter, EventPriority, LunaEventType};
use luna::metrics::{AlertSeverity, AlertType, MetricsCollector, PerformanceTimer};
use luna::memory::MemoryManager;
use luna::winapi::{to_wide_string, windows_error, PermissionStatus, WinApiUtils, WindowsApiHelper};

#[test]
fn error_codes_and_messages() {
    assert_eq!(WindowsApiHelper::error_to_string(5), "Access denied");
    assert_eq!(WindowsApiHelper::error_to_string(1234), "Windows error code: 1234");
    assert_eq!(windows_error("OpenProcess", 87), "OpenProcess failed: Invalid parameter (87)");
    assert_eq!(WinApiUtils::get_windows_version(), "Windows 10/11");
    assert_eq!(WinApiUtils::get_system_uptime(), 3600);
    assert!(!WinApiUtils::is_dark_mode());
}

#[test]
fn permissions_report_what_is_missing() {
    let p = WindowsApiHelper::check_permissions(1, 0, true);
    assert!(!p.all_granted());
    assert_eq!(p.get_missing_permissions(), vec!["Window Management".to_string()]);
    let all = PermissionStatus { screen_capture: true, input_simulation: true, window_management: true, memory_access: true };
    assert!(all.all_granted());
    assert!(all.get_missing_permissions().is_empty());
}

#[test]
fn wide_strings_use_surrogates() {
    assert_eq!(to_wide_string("A\u{1F600}"), vec![0x41, 0xD83D, 0xDE00, 0]);
    assert_eq!(to_wide_string(""), vec![0]);
}

#[test]
fn event_filters_check_source_kind_and_priority() {
    let filter = EventFilter {
        source_components: Some(vec!["ai".to_string()]),
        event_types: Some(vec![LunaEventType::AiInferenceCompleted]),
        min_priority: Some(EventPriority::High),
    };
    assert!(event_matches_filter("ai", &LunaEventType::AiInferenceCompleted, EventPriority::High, &filter));
    assert!(!event_matches_filter("system", &LunaEventType::SystemError, EventPriority::Critical, &filter));
    assert!(!event_matches_filter("ai", &LunaEventType::AiInferenceCompleted, EventPriority::Normal, &filter));
    assert_eq!(LunaEventType::Custom("x".to_string()).name(), "custom_x");
}

#[test]
fn timer_records_component_operation() {
    let mut collector = MetricsCollector::new();
    let memory = MemoryManager::new();
    let timer = PerformanceTimer::start_at("ocr", "scan", 1_000, &memory);
    assert_eq!(timer.finish_at(false, 1_600, &mut collector, &memory), 600);
    let stats = collector.component_stats("ocr").unwrap();
    assert_eq!(stats.operations_count, 1);
    assert_eq!(stats.error_count, 1);
    assert_eq!(stats.min_execution_time_ms, 600);
    collector.stop_collection();
    collector.record_component_operation_at("ocr", 5, true, 0, 3).unwrap();
    assert_eq!(collector.component_stats("ocr").unwrap().operations_count, 1);
}

#[test]
fn test_event_filter() {
    let filter = EventFilter {
        source_components: Some(vec!["ai".to_string()]),
        event_types: Some(vec![LunaEventType::AiInferenceCompleted]),
        min_priority: Some(EventPriority::High),
    };
    assert!(event_matches_filter("ai", &LunaEventType::AiInferenceCompleted, EventPriority::High, &filter));
    assert!(!event_matches_filter("system", &LunaEventType::SystemError, EventPriority::Critical, &filter));
}

#[test]
fn test_performance_timer() {
    let mut collector = MetricsCollector::new();
    let memory = MemoryManager::new();
    let timer = PerformanceTimer::start_at("test", "operation", 5_000, &memory);
    let elapsed = timer.finish_at(true, 5_010, &mut collector, &memory);
    assert!(elapsed >= 10);
}

#[test]
fn test_platform_info() {
    let platform = luna::about::get_platform_info("linux", "x86_64");
    assert!(!platform.os.is_empty());
    assert!(!platform.arch.is_empty());
    assert!(platform.supports_overlay);
}

#[test]
fn test_metrics_snapshot() {
    let mut collector = MetricsCollector::new();
    collector.start_collection().unwrap();
    collector.record_component_operation("test", 100, true, 1000).unwrap();
    let snapshot = collector.take_snapshot();
    assert!(snapshot.components.iter().any(|(name, _)| name == "test"));
    let (_, stats) = snapshot.components.iter().find(|(name, _)| name == "test").unwrap();
    assert_eq!(stats.operations_count, 1);
    assert_eq!(stats.total_execution_time_ms, 100);
    assert_eq!(stats.memory_usage_bytes, 1000);
}

#[test]
fn test_alert_creation() {
    let mut collector = MetricsCollector::new();
    collector.start_collection().unwrap();
    for _ in 0..15 {
        collector.record_component_operation("failing_component", 100, false, 1000).unwrap();
    }
    let alerts = collector.get_alerts();
    assert!(!alerts.is_empty());
}

#[test]
fn alerts_name_the_rate_and_the_average() {
    let mut collector = MetricsCollector::new();
    for i in 0..11u64 {
        collector.record_component_operation_at("vision", 6_000, i != 0 && i != 1, 0, 77).unwrap();
    }
    let alerts = collector.get_alerts();
    // The eleventh operation crosses the error-rate threshold (2 of 11 failed).
    let high: Vec<_> = alerts.iter().filter(|a| a.alert_type == AlertType::HighErrorRate).collect();
    assert_eq!(high.len(), 1);
    assert_eq!(high[0].message, "High error rate in vision: 18.2%");
    assert_eq!(high[0].severity, AlertSeverity::Error);
    assert_eq!(high[0].id, "alert_77");
    let slow: Vec<_> = alerts.iter().filter(|a| a.alert_type == AlertType::SystemOverload).collect();
    assert_eq!(slow.len(), 11);
    assert_eq!(slow[0].message, "Slow operations in vision: 6000.0ms average");
    assert_eq!(slow[0].component.as_deref(), Some("vision"));
}
