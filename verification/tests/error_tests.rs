use luna::error::{LunaError, RiskLevel};
use luna::errctx::{add_context, ErrorContext};

#[test]
fn test_error_creation() {
    let error = LunaError::ai_model("Model failed to load", "Florence-2", "Download the model again");
    assert!(error.display_string().contains("Model failed to load"));
    assert!(error.is_recoverable());
}

#[test]
fn test_risk_level_ordering() {
    assert!(RiskLevel::Low < RiskLevel::High);
    assert!(RiskLevel::Critical > RiskLevel::Medium);
}

#[test]
fn test_recovery_suggestions() {
    let memory_error = LunaError::memory("Out of memory", 8_000_000_000, 4_000_000_000);
    assert!(memory_error.recovery_suggestion().contains("free memory"));
    assert!(!memory_error.is_recoverable());
}

#[test]
fn risk_rank_follows_order() {
    assert!(RiskLevel::Low.is_below(&RiskLevel::Medium));
    assert!(!RiskLevel::Critical.is_below(&RiskLevel::High));
    assert_eq!(RiskLevel::High.rank(), 2);
}

#[test]
fn context_keeps_vision_kind_and_adds_details() {
    let base = luna::errctx::LunaError::Vision("blur".to_string());
    let ctx = ErrorContext::new_at("scan", 7).with_details("frame 3");
    let e = add_context(base, ctx);
    assert!(matches!(e, luna::errctx::LunaError::Vision(_)));
    assert_eq!(e.display_string(), "Vision processing error: scan: Vision processing error: blur (frame 3)");
}

#[test]
fn context_turns_timeouts_into_system_errors() {
    let base = luna::errctx::LunaError::Timeout("slow".to_string());
    let e = add_context(base, ErrorContext::new_at("load", 1));
    assert_eq!(e.display_string(), "System error: load: Operation timeout: slow");
}
