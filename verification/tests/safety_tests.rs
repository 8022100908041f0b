use luna::safety::{LunaAction, SafetySystem};

fn system() -> SafetySystem {
    SafetySystem::new(true).unwrap()
}

#[test]
fn blocks_destructive_commands() {
    let s = system();
    assert!(!s.is_command_safe("please format c: for me"));
    assert!(!s.is_command_safe("rm -rf /"));
    assert!(!s.is_command_safe("shutdown the machine"));
}

#[test]
fn allows_normal_commands() {
    let s = system();
    assert!(s.is_command_safe("click the save button"));
    assert!(s.is_command_safe("type \"hello world\""));
}

#[test]
fn rejects_out_of_range_actions() {
    let s = system();
    assert!(!s.is_action_safe(&LunaAction::Click { x: -5, y: 10 }));
    assert!(!s.is_action_safe(&LunaAction::Scroll { direction: "down".to_string(), amount: 10_000 }));
    assert!(s.is_action_safe(&LunaAction::Click { x: 100, y: 100 }));
}

#[test]
fn disabled_system_allows_everything() {
    let s = SafetySystem::new(false).unwrap();
    assert!(s.is_command_safe("rm -rf /"));
    assert!(s.is_action_safe(&LunaAction::Click { x: -5, y: 10 }));
}

#[test]
fn long_text_and_waits_are_limited() {
    let s = system();
    assert!(!s.is_action_safe(&LunaAction::Type { text: "x".repeat(20_000) }));
    assert!(s.is_action_safe(&LunaAction::Type { text: "hello".to_string() }));
    assert!(!s.is_action_safe(&LunaAction::Wait { milliseconds: 1_000_000 }));
    assert!(s.is_action_safe(&LunaAction::Wait { milliseconds: 100 }));
}

#[test]
fn first_unsafe_action_is_found() {
    let s = system();
    let actions = vec![
        LunaAction::Click { x: 1, y: 1 },
        LunaAction::Wait { milliseconds: 10 },
        LunaAction::Scroll { direction: "up".to_string(), amount: 500 },
        LunaAction::Click { x: -1, y: 0 },
    ];
    assert_eq!(s.first_unsafe_action(&actions), Some(2));
    assert_eq!(s.first_unsafe_action(&actions[..2].to_vec()), None);
}

#[test]
fn configured_keywords_refuse_commands() {
    let s = system();
    assert!(!s.is_command_safe("restart the computer"));
    assert!(!s.is_command_safe("Open the REGISTRY editor"));
    let custom = SafetySystem::with_keywords(true, vec!["purge".to_string()]).unwrap();
    assert!(!custom.is_command_safe("purge the cache"));
    assert!(custom.is_command_safe("restart the computer"));
}
