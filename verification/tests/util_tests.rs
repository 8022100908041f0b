use luna::text::{escape_regex, parse_bool, parse_i32, parse_key_value, sanitize_filename, truncate_string};
use luna::util::{ConfigManager, PerformanceMonitor, SimpleCache, Timer};

#[test]
fn test_simple_cache() {
    let mut cache = SimpleCache::new(2, 1);
    cache.set("key1".to_string(), "value1".to_string());
    cache.set("key2".to_string(), "value2".to_string());
    assert_eq!(cache.get("key1"), Some("value1".to_string()));
    assert_eq!(cache.get("key2"), Some("value2".to_string()));
    cache.set("key3".to_string(), "value3".to_string());
    assert!(cache.get("key1").is_none() || cache.get("key2").is_none());
}

#[test]
fn test_sanitize_filename() {
    assert_eq!(sanitize_filename("file<>name.txt"), "file__name.txt");
    assert_eq!(sanitize_filename("normal_file.txt"), "normal_file.txt");
}

#[test]
fn cache_at_fixed_times_evicts_oldest_and_expires() {
    let mut cache = SimpleCache::new(2, 10);
    cache.set_at("a".to_string(), "1".to_string(), 100);
    cache.set_at("b".to_string(), "2".to_string(), 101);
    cache.set_at("c".to_string(), "3".to_string(), 102);
    assert_eq!(cache.get_at("a", 102), None);
    assert_eq!(cache.get_at("b", 102), Some("2".to_string()));
    assert_eq!(cache.get_at("c", 111), Some("3".to_string()));
    assert_eq!(cache.get_at("b", 111), None);
    assert_eq!(cache.len(), 1);
}

#[test]
fn config_reads_and_writes_key_value_text() {
    let mut config = ConfigManager::new("/tmp/luna.conf");
    config.load_config_text("# comment\n key1 = value1 \nkey2=123\nbroken line\nflag=true\n");
    assert_eq!(config.get("key1").map(|s| s.as_str()), Some("value1"));
    assert_eq!(config.get_int("key2", 0), 123);
    assert_eq!(config.get_int("key1", -5), -5);
    assert!(config.get_bool("flag", false));
    assert!(config.get("broken line").is_none());
    config.set("key2".to_string(), "-77".to_string());
    assert_eq!(config.get_int("key2", 0), -77);
    let mut again = ConfigManager::new("/tmp/luna.conf");
    again.load_config_text(&config.config_text());
    assert_eq!(again.get("key1").map(|s| s.as_str()), Some("value1"));
    assert_eq!(again.get_int("key2", 0), -77);
}

#[test]
fn text_helpers() {
    assert_eq!(truncate_string("hello world", 8), "hello...");
    assert_eq!(truncate_string("hi", 8), "hi");
    assert_eq!(truncate_string("hello", 2), "...");
    assert_eq!(escape_regex("a.b*c"), "a\\.b\\*c");
    assert_eq!(parse_key_value("  k = v = w "), Some(("k".to_string(), "v = w".to_string())));
    assert_eq!(parse_key_value("#k=v"), None);
    assert_eq!(parse_i32("-2147483648"), Some(i32::MIN));
    assert_eq!(parse_i32("2147483648"), None);
    assert_eq!(parse_i32("+12"), Some(12));
    assert_eq!(parse_i32("1 2"), None);
    assert_eq!(parse_bool("true"), Some(true));
    assert_eq!(parse_bool("True"), None);
}

#[test]
fn monitor_collects_samples_and_timer_counts() {
    let mut monitor = PerformanceMonitor::new();
    monitor.record("op", 5);
    monitor.record("op", 7);
    let r = monitor.measure("other", || 41 + 1);
    assert_eq!(r, 42);
    assert_eq!(monitor.samples_of("op").unwrap(), &vec![5, 7]);
    assert_eq!(monitor.samples_of("other").unwrap().len(), 1);
    assert!(monitor.samples_of("none").is_none());
    let t = Timer::started_at("t", 1_000);
    assert_eq!(t.elapsed_ms_at(1_250), 250);
    assert_eq!(t.elapsed_ms_at(900), 0);
}

#[test]
fn test_config_manager() {
    let mut config = ConfigManager::new("test_config.txt");
    config.set("key1".to_string(), "value1".to_string());
    config.set("key2".to_string(), "123".to_string());
    let saved = config.config_text();
    let mut config2 = ConfigManager::new("test_config.txt");
    config2.load_config_text(&saved);
    assert_eq!(config2.get("key1"), Some(&"value1".to_string()));
    assert_eq!(config2.get_int("key2", 0), 123);
}
