use luna::input::{get_virtual_key_code, ActionType, BasicSafetyChecker, InputAction, InputController, InputError, MouseButton, RateLimiter, RiskLevel, SafetyChecker, ScrollDirection, Target};

fn typing(text: &str) -> InputAction {
    InputAction {
        action_type: ActionType::Type { text: text.to_string() },
        target: Target { x: 100, y: 100, element_type: None },
        timestamp: 0,
    }
}

#[test]
fn test_rate_limiter() {
    let mut limiter = RateLimiter::new(5, 2);
    assert!(limiter.check_rate_limit("click"));
    assert!(limiter.check_rate_limit("click"));
    assert!(!limiter.check_rate_limit("click"));
}

#[test]
fn test_safety_checker() {
    let checker = BasicSafetyChecker::new();
    let safe_action = typing("hello world");
    let unsafe_action = typing("shutdown /s /t 0");
    assert!(checker.is_action_safe(&safe_action));
    assert!(!checker.is_action_safe(&unsafe_action));
}

#[test]
fn rate_limits_per_second_and_minute_at_fixed_times() {
    let mut limiter = RateLimiter::new(3, 2);
    assert!(limiter.check_rate_limit_at("k", 0));
    assert!(limiter.check_rate_limit_at("k", 10));
    assert!(!limiter.check_rate_limit_at("k", 20));
    assert!(limiter.check_rate_limit_at("k", 1500));
    assert!(!limiter.check_rate_limit_at("k", 2600));
    assert!(limiter.check_rate_limit_at("k", 60_011));
    assert!(limiter.check_rate_limit_at("other", 20));
}

#[test]
fn risk_levels_of_the_basic_checker() {
    let checker = BasicSafetyChecker::new();
    assert_eq!(checker.get_risk_level(&typing("DELETE everything")), RiskLevel::Critical);
    assert_eq!(checker.get_risk_level(&typing("my Password")), RiskLevel::High);
    assert_eq!(checker.get_risk_level(&typing("hi")), RiskLevel::Safe);
    let key = InputAction { action_type: ActionType::Key { key: "alt+f4".to_string() }, target: Target { x: 0, y: 0, element_type: None }, timestamp: 0 };
    assert_eq!(checker.get_risk_level(&key), RiskLevel::High);
    assert!(!checker.is_action_safe(&key));
    let run = InputAction { action_type: ActionType::Key { key: "win+r".to_string() }, target: Target { x: 0, y: 0, element_type: None }, timestamp: 0 };
    assert_eq!(checker.get_risk_level(&run), RiskLevel::Low);
    assert!(!checker.is_action_safe(&run));
    let click = InputAction { action_type: ActionType::Click { button: MouseButton::Left }, target: Target { x: 0, y: 0, element_type: None }, timestamp: 0 };
    assert!(checker.is_action_safe(&click));
    assert_eq!(checker.get_risk_level(&click), RiskLevel::Low);
}

#[test]
fn controller_records_only_allowed_actions() {
    let mut controller = InputController::new(BasicSafetyChecker::new());
    assert!(controller.execute_action_at(typing("hello"), 0).is_ok());
    assert!(matches!(controller.execute_action_at(typing("format c:"), 0), Err(InputError::SafetyViolation)));
    assert_eq!(controller.get_action_history().len(), 1);
    for i in 0..9u64 {
        assert!(controller.execute_action_at(typing("hello"), i).is_ok());
    }
    assert!(matches!(controller.execute_action_at(typing("hello"), 9), Err(InputError::RateLimited)));
    assert_eq!(controller.get_action_history().len(), 10);
    controller.clear_history();
    assert!(controller.get_action_history().is_empty());
}

#[test]
fn the_limit_holds_across_all_actions() {
    let mut controller = InputController::new(BasicSafetyChecker::new());
    let moving = |x: i32| InputAction { action_type: ActionType::Move { x, y: 0 }, target: Target { x, y: 0, element_type: None }, timestamp: 0 };
    for i in 0..10 {
        assert!(controller.execute_action_at(moving(i), 100 + i as u64).is_ok());
    }
    assert!(matches!(controller.execute_action_at(moving(10), 200), Err(InputError::RateLimited)));
    for i in 0..90u64 {
        assert!(controller.execute_action_at(moving(20), 2_000 + i * 500).is_ok());
    }
    assert!(matches!(controller.execute_action_at(moving(21), 50_000), Err(InputError::RateLimited)));
}

#[test]
fn virtual_key_codes() {
    assert_eq!(get_virtual_key_code("Ctrl"), Ok(0x11));
    assert_eq!(get_virtual_key_code("control"), Ok(0x11));
    assert_eq!(get_virtual_key_code("ALT"), Ok(0x12));
    assert_eq!(get_virtual_key_code("Return"), Ok(0x0D));
    assert_eq!(get_virtual_key_code("F12"), Ok(0x7B));
    assert_eq!(get_virtual_key_code("a"), Ok(0x41));
    assert_eq!(get_virtual_key_code("Z"), Ok(0x5A));
    assert_eq!(get_virtual_key_code("7"), Ok(0x37));
    assert_eq!(get_virtual_key_code("#"), Err("Unsupported key: #".to_string()));
    assert_eq!(get_virtual_key_code("Hyper"), Err("Unknown key: hyper".to_string()));
    assert_eq!(get_virtual_key_code("é"), Err("Unknown key: é".to_string()));
}
