use luna::config::{check_config_values, is_valid_level, InputConfig, LoggingConfig, PerformanceConfig};

#[test]
fn defaults() {
    let p = PerformanceConfig::default();
    assert_eq!((p.max_memory_mb, p.worker_threads, p.screenshot_cache_size), (512, 2, 5));
    let i = InputConfig::default();
    assert_eq!((i.click_delay_ms, i.type_delay_ms, i.scroll_amount, i.validate_coordinates), (50, 10, 3, true));
    let l = LoggingConfig::default();
    assert_eq!((l.level.as_str(), l.log_to_file, l.log_dir.is_none(), l.max_file_size_mb, l.max_files), ("info", false, true, 10, 5));
}

#[test]
fn performance_rules() {
    assert!(PerformanceConfig::default().validate().is_ok());
    let low = PerformanceConfig { max_memory_mb: 64, worker_threads: 0, screenshot_cache_size: 1 };
    assert_eq!(low.validate().unwrap_err(), "Minimum memory requirement is 128MB");
    let none = PerformanceConfig { max_memory_mb: 256, worker_threads: 0, screenshot_cache_size: 1 };
    assert_eq!(none.validate().unwrap_err(), "Must have at least 1 worker thread");
}

#[test]
fn config_rules_in_order() {
    assert!(check_config_values(true, 10, true, 50, 85, "info").is_ok());
    assert_eq!(check_config_values(false, 0, false, 0, 200, "x").unwrap_err(), "Safety threat threshold must be between 0.0 and 1.0");
    assert_eq!(check_config_values(true, 0, true, 50, 85, "info").unwrap_err(), "Max actions per command must be greater than 0");
    assert_eq!(check_config_values(true, 1, false, 50, 85, "info").unwrap_err(), "Vision confidence threshold must be between 0.0 and 1.0");
    assert_eq!(check_config_values(true, 1, true, 0, 85, "info").unwrap_err(), "Max elements must be greater than 0");
    assert_eq!(check_config_values(true, 1, true, 1, 101, "info").unwrap_err(), "Screenshot quality must be between 0 and 100");
    assert_eq!(check_config_values(true, 1, true, 1, 100, "verbose").unwrap_err(), "Invalid log level: verbose");
    assert!(is_valid_level("trace") && !is_valid_level("INFO"));
}
