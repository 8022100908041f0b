use luna::engine::{CoreError, CoreEvent, LunaCore};
use luna::safety::LunaAction;

fn fresh() -> LunaCore {
    LunaCore::new().expect("the refused patterns compile")
}

#[test]
fn refused_command_counts_a_block_and_captures_nothing() {
    let mut c = fresh();
    match c.process_command_at("rm -rf /", 1_000) {
        Err(CoreError::UnsafeCommand(cmd)) => assert_eq!(cmd, "rm -rf /"),
        _ => panic!("the command must be refused"),
    }
    let s = c.get_stats();
    assert_eq!(s.safety_blocks, 1);
    assert_eq!(s.commands_processed, 0);
    assert_eq!(s.actions_executed, 0);
}

#[test]
fn disabled_gate_lets_every_command_through() {
    let mut c = LunaCore::with_config(false).expect("the refused patterns compile");
    assert!(c.process_command_at("shutdown the machine", 1_000).is_ok());
    assert_eq!(c.get_stats().safety_blocks, 0);
}

#[test]
fn scroll_command_is_planned_on_the_screen() {
    let mut c = fresh();
    let plan = match c.process_command_at("scroll up", 1_000) {
        Ok(p) => p,
        Err(_) => panic!("a scroll command is planned"),
    };
    assert_eq!(plan.analysis.screen_size, (1920, 1080));
    assert_eq!(plan.actions.len(), 1);
    match &plan.actions[0] {
        LunaAction::Scroll { direction, amount } => {
            assert_eq!(direction, "up");
            assert_eq!(*amount, 3);
        }
        _ => panic!("a scroll is planned"),
    }
    assert!(plan.analysis.elements.len() <= 50);
    assert!(plan.analysis.elements.iter().all(|e| e.confidence >= 60));
}

#[test]
fn success_is_counted_after_the_actions_ran() {
    let mut c = fresh();
    c.record_success(2, 40);
    c.record_success(1, 10);
    let s = c.get_stats();
    assert_eq!(s.commands_processed, 2);
    assert_eq!(s.actions_executed, 3);
    assert_eq!(s.total_processing_time_ms, 50);
    assert_eq!(s.safety_blocks, 0);
}

#[test]
fn direct_actions_pass_the_gate() {
    let c = fresh();
    assert!(c.is_ready());
    assert!(matches!(c.click(10, 20), Ok(LunaAction::Click { x: 10, y: 20 })));
    assert!(matches!(c.click(-1, 20), Err(CoreError::ActionRefused(LunaAction::Click { x: -1, y: 20 }))));
    assert!(matches!(c.type_text("hello"), Ok(LunaAction::Type { .. })));
    assert!(matches!(c.type_text("format c: now"), Err(CoreError::ActionRefused(_))));
    assert!(matches!(c.send_keys(vec!["ctrl".to_string(), "c".to_string()]), Ok(LunaAction::KeyCombo { .. })));
    assert!(matches!(c.send_keys(Vec::new()), Err(CoreError::ActionRefused(_))));
    assert!(matches!(c.scroll("down", 100), Ok(LunaAction::Scroll { amount: 100, .. })));
    assert!(matches!(c.scroll("down", 101), Err(CoreError::ActionRefused(_))));
}

#[test]
fn switching_the_gate_off() {
    let mut c = fresh();
    assert!(c.update_config(false));
    assert!(c.click(-5, -5).is_ok());
}

#[test]
fn analysing_the_current_screen() {
    let mut c = fresh();
    let a = c.analyze_current_screen_at(5).expect("the synthetic screen is captured");
    assert_eq!(a.screen_size, (1920, 1080));
    assert!(a.elements.iter().all(|e| e.bounds.x >= 0 && e.bounds.y >= 0));
}

#[test]
fn every_subscriber_hears_each_command_once() {
    let mut c = fresh();
    assert_eq!(c.subscribe_to_events(), 0);
    assert_eq!(c.subscribe_to_events(), 1);
    assert!(c.process_command_at("rm -rf /", 1_000).is_err());
    let (events, deliveries) = c.take_deliveries();
    assert_eq!(events.len(), 1);
    assert!(matches!(&events[0], CoreEvent::CommandReceived { command } if command == "rm -rf /"));
    assert_eq!(deliveries, vec![(0, 0), (1, 0)]);
    assert!(c.process_command_at("scroll up", 2_000).is_ok());
    c.report_action(0, true);
    let (events, deliveries) = c.take_deliveries();
    assert_eq!(events.len(), 4);
    assert!(matches!(&events[2], CoreEvent::ActionsPlanned { action_count: 1 }));
    assert!(matches!(&events[3], CoreEvent::ActionExecuted { index: 0, success: true }));
    assert_eq!(deliveries.len(), 8);
    assert_eq!(deliveries[5], (1, 2));
}
