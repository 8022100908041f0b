use luna::ai::ScreenElement;
use luna::preview::{OverlayConfig, OverlayElementType, VisualOverlay};
use luna::safety::{ElementBounds, LunaAction};

fn planned() -> Vec<LunaAction> {
    vec![
        LunaAction::Click { x: 100, y: 200 },
        LunaAction::Type { text: "hi".to_string() },
        LunaAction::KeyCombo { keys: vec!["ctrl".to_string(), "s".to_string()] },
        LunaAction::Wait { milliseconds: 500 },
        LunaAction::Scroll { direction: "down".to_string(), amount: 3 },
    ]
}

#[test]
fn action_preview_marks_each_action() {
    let mut o = VisualOverlay::new();
    assert!(!o.is_visible());
    o.show_action_preview_at(&planned(), 1_000);
    assert!(o.is_visible());
    let marks = o.get_elements();
    assert_eq!(marks.len(), 8);
    assert_eq!(marks[0].element_type, OverlayElementType::Circle);
    assert_eq!((marks[0].x, marks[0].y, marks[0].width, marks[0].height), (85, 185, 30, 30));
    assert_eq!(marks[0].text.as_deref(), Some("1"));
    assert_eq!(marks[0].color, [100, 149, 237, 200]);
    assert_eq!((marks[1].x, marks[1].y), (75, 160));
    assert_eq!(marks[1].text.as_deref(), Some("Click"));
    assert_eq!(marks[2].text.as_deref(), Some("Type: \"hi\""));
    assert_eq!(marks[3].text.as_deref(), Some("Keys: ctrl + s"));
    assert_eq!(marks[4].text.as_deref(), Some("Wait 500ms"));
    assert_eq!(marks[5].text.as_deref(), Some("Unknown Action"));
    assert_eq!(marks[6].element_type, OverlayElementType::Countdown);
    assert_eq!(marks[6].text.as_deref(), Some("3"));
    assert_eq!(marks[7].text.as_deref(), Some("Press ESC to cancel"));
    assert!(marks.iter().all(|m| m.visible && m.animation_progress == 0));
}

#[test]
fn countdown_follows_the_clock() {
    let mut o = VisualOverlay::new();
    o.show_action_preview_at(&vec![LunaAction::Click { x: 10, y: 10 }], 1_000);
    assert!(o.update_animation_at(2_500));
    assert_eq!(o.get_elements()[2].text.as_deref(), Some("2"));
    assert!(o.get_elements().iter().all(|m| m.animation_progress == 500));
    let stats = o.get_stats();
    assert!(stats.animation_active);
    assert_eq!(stats.animation_progress, 16);
    assert!(!o.update_animation_at(4_000));
    assert!(!o.get_stats().animation_active);
    assert!(o.get_stats().is_active());
    o.hide_overlay();
    assert!(!o.get_stats().is_active());
    assert_eq!(o.get_elements().len(), 0);
}

#[test]
fn countdown_can_be_switched_off() {
    let mut o = VisualOverlay::new();
    let mut config = OverlayConfig::default();
    config.show_countdown = false;
    o.set_config(config);
    o.show_action_preview_at(&vec![LunaAction::Wait { milliseconds: 7 }], 0);
    assert_eq!(o.get_elements().len(), 1);
}

#[test]
fn detection_preview_labels_the_first_ten() {
    let mut elements = Vec::new();
    for i in 0..12 {
        elements.push(ScreenElement {
            element_type: if i == 0 { "button".to_string() } else { "element".to_string() },
            bounds: ElementBounds { x: 10 * i, y: 50, width: 5, height: 5 },
            confidence: 80,
            text: None,
            attributes: Vec::new(),
        });
    }
    let mut o = VisualOverlay::new();
    o.show_detection_preview(&elements);
    let marks = o.get_elements();
    assert_eq!(marks.len(), 22);
    assert_eq!(marks[0].color, [0, 255, 0, 150]);
    assert_eq!(marks[1].text.as_deref(), Some("button: 80.0%"));
    assert_eq!(marks[1].y, 30);
    assert_eq!(marks[2].color, [255, 255, 0, 150]);
    o.force_hide();
    assert!(!o.is_visible());
}
