//! Configuration sections with whole-number settings, their defaults and
//! their validation rules.

use vstd::prelude::*;
use vstd::string::StringExecFns;

verus! {

/// Memory, threads and caching.
#[derive(Debug, Clone)]
pub struct PerformanceConfig {
    /// The most memory to use, in MB.
    pub max_memory_mb: u64,
    pub worker_threads: usize,
    pub screenshot_cache_size: usize,
}

impl Default for PerformanceConfig {
    fn default() -> (c: Self)
        ensures
            c.max_memory_mb == 512,
            c.worker_threads == 2,
            c.screenshot_cache_size == 5,
    {
        PerformanceConfig { max_memory_mb: 512, worker_threads: 2, screenshot_cache_size: 5 }
    }
}

impl PerformanceConfig {
    /// Accepted with at least 128 MB and one worker thread; otherwise the
    /// first rule broken, memory first.
    pub fn validate(&self) -> (r: Result<(), String>)
        ensures
            self.max_memory_mb < 128 ==> (r matches Err(m) && m@ == "Minimum memory requirement is 128MB"@),
            self.max_memory_mb >= 128 && self.worker_threads == 0 ==> (r matches Err(m) && m@
                == "Must have at least 1 worker thread"@),
            self.max_memory_mb >= 128 && self.worker_threads > 0 ==> r is Ok,
    {
        if self.max_memory_mb < 128 {
            return Err(String::from_str("Minimum memory requirement is 128MB"));
        }
        if self.worker_threads == 0 {
            return Err(String::from_str("Must have at least 1 worker thread"));
        }
        Ok(())
    }
}

/// Pacing and checks of input actions.
#[derive(Debug, Clone)]
pub struct InputConfig {
    pub click_delay_ms: u64,
    pub type_delay_ms: u64,
    pub scroll_amount: i32,
    pub validate_coordinates: bool,
}

impl Default for InputConfig {
    fn default() -> (c: Self)
        ensures
            c.click_delay_ms == 50,
            c.type_delay_ms == 10,
            c.scroll_amount == 3,
            c.validate_coordinates,
    {
        InputConfig { click_delay_ms: 50, type_delay_ms: 10, scroll_amount: 3, validate_coordinates: true }
    }
}

/// Where and how much is logged.
#[derive(Debug, Clone)]
pub struct LoggingConfig {
    /// One of `error`, `warn`, `info`, `debug`, `trace`.
    pub level: String,
    pub log_to_file: bool,
    pub log_dir: Option<String>,
    pub max_file_size_mb: u64,
    pub max_files: u32,
}

impl Default for LoggingConfig {
    fn default() -> (c: Self)
        ensures
            c.level@ == "info"@,
            !c.log_to_file,
            c.log_dir is None,
            c.max_file_size_mb == 10,
            c.max_files == 5,
    {
        LoggingConfig {
            level: String::from_str("info"),
            log_to_file: false,
            log_dir: None,
            max_file_size_mb: 10,
            max_files: 5,
        }
    }
}

/// The level names a configuration accepts.
pub open spec fn is_level_name(s: Seq<char>) -> bool {
    s == "error"@ || s == "warn"@ || s == "info"@ || s == "debug"@ || s == "trace"@
}

/// Whether `level` names a log level.
pub fn is_valid_level(level: &str) -> (b: bool)
    ensures
        b == is_level_name(level@),
{
    crate::text::str_eq(level, "error") || crate::text::str_eq(level, "warn") || crate::text::str_eq(level, "info")
        || crate::text::str_eq(level, "debug") || crate::text::str_eq(level, "trace")
}

/// The message for the first of the configuration rules broken, in the
/// order they are checked, or none: the safety threat threshold within
/// 0 and 1 (`threat_ok`), at least one action per command, the vision
/// confidence threshold within 0 and 1 (`vision_ok`), at least one
/// element, a screenshot quality of at most 100, a known log level.
pub open spec fn config_problem(
    threat_ok: bool,
    max_actions: usize,
    vision_ok: bool,
    max_elements: usize,
    quality: u8,
    level: Seq<char>,
) -> Option<Seq<char>> {
    if !threat_ok {
        Some("Safety threat threshold must be between 0.0 and 1.0"@)
    } else if max_actions == 0 {
        Some("Max actions per command must be greater than 0"@)
    } else if !vision_ok {
        Some("Vision confidence threshold must be between 0.0 and 1.0"@)
    } else if max_elements == 0 {
        Some("Max elements must be greater than 0"@)
    } else if quality > 100 {
        Some("Screenshot quality must be between 0 and 100"@)
    } else if !is_level_name(level) {
        Some("Invalid log level: "@ + level)
    } else {
        None
    }
}

/// Checks the configuration rules in order; the two threshold ranges are
/// judged by the caller and passed as `threat_ok` and `vision_ok`.
pub fn check_config_values(
    threat_ok: bool,
    max_actions: usize,
    vision_ok: bool,
    max_elements: usize,
    quality: u8,
    level: &str,
) -> (r: Result<(), String>)
    ensures
        match config_problem(threat_ok, max_actions, vision_ok, max_elements, quality, level@) {
            Some(m) => r matches Err(e) && e@ == m,
            None => r is Ok,
        },
{
    if !threat_ok {
        return Err(String::from_str("Safety threat threshold must be between 0.0 and 1.0"));
    }
    if max_actions == 0 {
        return Err(String::from_str("Max actions per command must be greater than 0"));
    }
    if !vision_ok {
        return Err(String::from_str("Vision confidence threshold must be between 0.0 and 1.0"));
    }
    if max_elements == 0 {
        return Err(String::from_str("Max elements must be greater than 0"));
    }
    if quality > 100 {
        return Err(String::from_str("Screenshot quality must be between 0 and 100"));
    }
    if !is_valid_level(level) {
        let mut m = String::from_str("Invalid log level: ");
        m.append(level);
        return Err(m);
    }
    Ok(())
}

} // verus!
