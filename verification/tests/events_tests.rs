use luna::events::{
    init, publish_event, shutdown, validate_system, EventFilter, EventPriority, EventSystem, LunaEvent,
    LunaEventType,
};

fn payload(text: &str) -> String {
    text.to_string()
}

#[test]
fn test_event_creation() {
    let event = LunaEvent::new_at(
        7,
        1_700_000_000,
        LunaEventType::SystemStartup,
        "test".to_string(),
        EventPriority::Normal,
        payload("{\"data\":\"test\"}"),
    );
    assert_eq!(event.source, "test");
    assert_eq!(event.priority, EventPriority::Normal);
    assert!(event.id != 0);
    assert!(event.correlation_id.is_none());
}

#[test]
fn test_event_system_init() {
    let mut system = EventSystem::new();
    assert!(validate_system(&system).is_err());
    assert!(init(&mut system).is_ok());
    assert!(validate_system(&system).is_ok());
    assert!(shutdown(&mut system).is_ok());
    assert!(!system.is_running());
}

#[test]
fn test_event_subscription() {
    let mut system = EventSystem::new();
    init(&mut system).unwrap();
    let subscription = system.subscribe(None).unwrap();
    let event = LunaEvent::system_at(1, 10, LunaEventType::SystemStartup, payload("{\"test\":true}"));
    system.publish(event).unwrap();
    assert!(system.process_next_event());
    let received = system.try_recv(&subscription);
    assert!(received.is_ok());
    assert_eq!(received.unwrap().id, 1);
    system.unsubscribe(subscription.id()).unwrap();
    shutdown(&mut system).unwrap();
}

#[test]
fn publishing_needs_a_running_system() {
    let mut system = EventSystem::new();
    let e = LunaEvent::system_at(1, 10, LunaEventType::SystemStartup, payload("{}"));
    assert!(system.publish(e).is_err());
    assert_eq!(system.get_stats().events_dropped, 1);
    system.start_at(100).unwrap();
    assert!(publish_event(&mut system, 2, 11, LunaEventType::ScreenCaptured, "vision", EventPriority::Low, payload("{}")).is_ok());
    assert_eq!(system.get_stats().events_published, 1);
}

#[test]
fn filters_decide_who_receives() {
    let mut system = EventSystem::new();
    system.start_at(100).unwrap();
    let ai_only = system
        .subscribe(Some(EventFilter {
            source_components: Some(vec!["ai".to_string()]),
            event_types: Some(vec![LunaEventType::AiInferenceCompleted]),
            min_priority: Some(EventPriority::High),
        }))
        .unwrap();
    let everything = system.subscribe(None).unwrap();
    assert_eq!(ai_only.id(), 0);
    assert_eq!(everything.id(), 1);
    // Routed names: ai_inference_completed plus the ten default kinds, one shared.
    assert_eq!(system.get_stats().subscribers_count, 10);

    let low = LunaEvent::new_at(1, 1, LunaEventType::AiInferenceCompleted, "ai".to_string(), EventPriority::Low, payload("{}"));
    let high = LunaEvent::new_at(2, 2, LunaEventType::AiInferenceCompleted, "ai".to_string(), EventPriority::High, payload("{}"));
    system.publish(low).unwrap();
    system.publish(high).unwrap();
    assert!(system.process_next_event());
    assert!(system.process_next_event());
    assert!(!system.process_next_event());

    assert_eq!(system.try_recv(&ai_only).unwrap().id, 2);
    assert!(system.try_recv(&ai_only).is_err());
    assert_eq!(system.try_recv(&everything).unwrap().id, 1);
    assert_eq!(system.try_recv(&everything).unwrap().id, 2);
    assert_eq!(system.get_stats().events_processed, 2);
}

#[test]
fn unsubscribed_gets_nothing_more() {
    let mut system = EventSystem::new();
    system.start_at(100).unwrap();
    let sub = system.subscribe(None).unwrap();
    system.unsubscribe(sub.id()).unwrap();
    assert_eq!(system.get_stats().subscribers_count, 0);
    let e = LunaEvent::system_at(3, 10, LunaEventType::SystemError, payload("{}"));
    system.publish(e).unwrap();
    assert!(system.process_next_event());
    assert!(system.try_recv(&sub).is_err());
}

#[test]
fn events_of_unrouted_kinds_reach_no_one() {
    let mut system = EventSystem::new();
    system.start_at(100).unwrap();
    let sub = system.subscribe(None).unwrap();
    let e = LunaEvent::system_at(4, 10, LunaEventType::OverlayShown, payload("{}"));
    system.publish(e).unwrap();
    assert!(system.process_next_event());
    assert!(system.try_recv(&sub).is_err());
}

#[test]
fn error_events_carry_a_json_payload() {
    let e = LunaEvent::error_at(9, 5, "vision".to_string(), "boom");
    assert_eq!(e.event_type.name(), "system_error");
    assert_eq!(e.priority, EventPriority::Critical);
    assert_eq!(e.data, "{\"error\":\"boom\",\"timestamp\":5}");
    let c = LunaEvent::with_correlation_at(10, 6, LunaEventType::ActionFailed, "input".to_string(), EventPriority::High, payload("{}"), 9);
    assert_eq!(c.correlation_id, Some(9));
}

#[test]
fn stopping_unroutes_everyone() {
    let mut system = EventSystem::new();
    system.start_at(100).unwrap();
    let sub = system.subscribe(None).unwrap();
    system.stop().unwrap();
    system.start_at(200).unwrap();
    let e = LunaEvent::system_at(5, 10, LunaEventType::SystemStartup, payload("{}"));
    system.publish(e).unwrap();
    assert!(system.process_next_event());
    assert!(system.try_recv(&sub).is_err());
}

#[test]
fn error_payload_escapes_the_message() {
    let e = LunaEvent::error_at(1, 42, "input".to_string(), "bad \"key\"\n\tnow\u{1}");
    assert_eq!(e.data, "{\"error\":\"bad \\\"key\\\"\\n\\tnow\\u0001\",\"timestamp\":42}");
}
