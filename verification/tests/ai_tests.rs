use luna::ai::{
    calculate_confidence, calculate_overall_confidence, classify_element, detect_edges, extract_attributes,
    extract_text_from_command, filter_elements, find_clickable_element, find_rectangles, grow_rectangle_from_point,
    plan_actions_for, sort_by_confidence, split_words, to_rgb_pixels, AICoordinator, ScreenAnalysis, ScreenElement,
    VisionProcessor,
};
use luna::image::Image;
use luna::safety::{ElementBounds, LunaAction};

fn element(kind: &str, x: i32, y: i32, w: i32, h: i32, text: Option<&str>, confidence: u32) -> ScreenElement {
    ScreenElement {
        element_type: kind.to_string(),
        bounds: ElementBounds { x, y, width: w, height: h },
        confidence,
        text: text.map(|t| t.to_string()),
        attributes: Vec::new(),
    }
}

fn analysis(elements: Vec<ScreenElement>) -> ScreenAnalysis {
    ScreenAnalysis { elements, confidence: 0, processing_time_ms: 0, screen_size: (800, 600) }
}

fn gray_image(w: usize, h: usize, value: u8) -> Image {
    let mut img = Image::new(w, h, 1);
    for y in 0..h {
        for x in 0..w {
            img.set_pixel(x, y, &[value]);
        }
    }
    img
}

fn bounds(r: &ElementBounds) -> (i32, i32, i32, i32) {
    (r.x, r.y, r.width, r.height)
}

#[test]
fn click_command_clicks_center_of_first_button() {
    let coordinator = AICoordinator::new();
    let a = analysis(vec![
        element("link", 0, 0, 10, 10, Some("Home"), 90),
        element("button", 10, 20, 100, 40, Some("Save"), 80),
    ]);
    let actions = coordinator.plan_actions("Click the save button", &a);
    assert_eq!(actions.len(), 1);
    match &actions[0] {
        LunaAction::Click { x, y } => assert_eq!((*x, *y), (60, 40)),
        _ => panic!("expected a click"),
    }
}

#[test]
fn click_without_button_uses_text_then_clickable() {
    let els = vec![element("label", 0, 0, 10, 10, Some("Save"), 90), element("icon", 100, 100, 20, 20, None, 90)];
    assert_eq!(find_clickable_element("please click save", &els), Some(0));
    assert_eq!(find_clickable_element("please click it", &els), Some(1));
    let links = vec![element("label", 0, 0, 10, 10, None, 90), element("link", 5, 5, 10, 10, None, 90)];
    assert_eq!(find_clickable_element("navigate to the link", &links), Some(1));
    assert_eq!(find_clickable_element("click", &Vec::new()), None);
}

#[test]
fn short_words_do_not_match_text() {
    let els = vec![element("label", 0, 0, 10, 10, Some("Go"), 90)];
    assert_eq!(find_clickable_element("tap go", &els), None);
}

#[test]
fn negative_width_center_rounds_toward_zero() {
    let actions = plan_actions_for("click", &vec![element("button", 10, 10, -5, 3, None, 90)]);
    match &actions[0] {
        LunaAction::Click { x, y } => assert_eq!((*x, *y), (8, 11)),
        _ => panic!("expected a click"),
    }
}

#[test]
fn type_command_extracts_quoted_or_following_text() {
    assert_eq!(extract_text_from_command("type \"hello world\" now"), Some("hello world".to_string()));
    assert_eq!(extract_text_from_command("Type   hello there  "), Some("hello there".to_string()));
    assert_eq!(extract_text_from_command("type"), None);
    assert_eq!(extract_text_from_command("press enter"), None);
    let actions = plan_actions_for("Type \"abc\"", &Vec::new());
    match &actions[0] {
        LunaAction::Type { text } => assert_eq!(text, "abc"),
        _ => panic!("expected typing"),
    }
    assert!(plan_actions_for("enter", &Vec::new()).is_empty());
}

#[test]
fn scroll_command_direction() {
    let up = plan_actions_for("scroll up please", &Vec::new());
    match &up[0] {
        LunaAction::Scroll { direction, amount } => assert_eq!((direction.as_str(), *amount), ("up", 3)),
        _ => panic!("expected a scroll"),
    }
    let down = plan_actions_for("SCROLL", &Vec::new());
    match &down[0] {
        LunaAction::Scroll { direction, amount } => assert_eq!((direction.as_str(), *amount), ("down", 3)),
        _ => panic!("expected a scroll"),
    }
    assert!(plan_actions_for("open the menu", &Vec::new()).is_empty());
}

#[test]
fn words_split_on_white_space() {
    assert_eq!(split_words("  a bc\td\n "), vec!["a".to_string(), "bc".to_string(), "d".to_string()]);
    assert!(split_words("   ").is_empty());
}

#[test]
fn confidence_rules() {
    let r = |w: i32, h: i32| ElementBounds { x: 0, y: 0, width: w, height: h };
    assert_eq!(calculate_confidence(r(60, 20), "button"), 80);
    assert_eq!(calculate_confidence(r(10, 5), "button"), 30);
    assert_eq!(calculate_confidence(r(120, 20), "textfield"), 80);
    assert_eq!(calculate_confidence(r(60, 20), "textfield"), 50);
    assert_eq!(calculate_confidence(r(20, 20), "icon"), 90);
    assert_eq!(calculate_confidence(r(20, 20), "other"), 40);
    assert_eq!(calculate_confidence(r(300, 300), "other"), 20);
}

#[test]
fn classification_by_shape_and_brightness() {
    let white = gray_image(200, 100, 255);
    let dark = gray_image(200, 100, 0);
    let wrgb = to_rgb_pixels(&white);
    let drgb = to_rgb_pixels(&dark);
    let r = |x: i32, y: i32, w: i32, h: i32| ElementBounds { x, y, width: w, height: h };
    let b = classify_element(&wrgb, 200, 100, r(10, 10, 60, 20)).unwrap();
    assert_eq!((b.element_type.as_str(), b.confidence), ("button", 80));
    assert_eq!(b.attributes, vec![("area".to_string(), "1200".to_string()), ("clickable".to_string(), "true".to_string())]);
    let t = classify_element(&wrgb, 200, 100, r(10, 10, 120, 20)).unwrap();
    assert_eq!((t.element_type.as_str(), t.confidence), ("textfield", 80));
    assert_eq!(t.attributes[1], ("editable".to_string(), "true".to_string()));
    let i = classify_element(&drgb, 200, 100, r(10, 10, 20, 20)).unwrap();
    assert_eq!((i.element_type.as_str(), i.confidence), ("icon", 90));
    let e = classify_element(&drgb, 200, 100, r(10, 10, 60, 20)).unwrap();
    assert_eq!((e.element_type.as_str(), e.confidence), ("element", 30));
    assert!(e.attributes.is_empty());
    assert!(classify_element(&drgb, 200, 100, r(10, 10, 30, 10)).is_none());
    assert_eq!(extract_attributes(r(0, 0, 7, 3), "icon").len(), 2);
}

#[test]
fn edges_of_a_step() {
    let mut img = gray_image(6, 4, 0);
    for y in 0..4 {
        for x in 3..6 {
            img.set_pixel(x, y, &[255]);
        }
    }
    assert_eq!(detect_edges(&img), vec![(2, 1), (3, 1), (2, 2), (3, 2)]);
    assert!(detect_edges(&gray_image(1, 1, 0)).is_empty());
}

fn outline(x0: usize, y0: usize, x1: usize, y1: usize) -> Vec<(usize, usize)> {
    let mut pts = Vec::new();
    for x in x0..=x1 {
        pts.push((x, y0));
        pts.push((x, y1));
    }
    for y in y0 + 1..y1 {
        pts.push((x0, y));
        pts.push((x1, y));
    }
    pts
}

#[test]
fn rectangles_from_edge_points() {
    let mut pts = outline(10, 10, 50, 30);
    pts.push((150, 80));
    let rects = find_rectangles(&pts, 200, 100);
    assert_eq!(rects.iter().map(bounds).collect::<Vec<_>>(), vec![(10, 10, 40, 20)]);
    assert!(find_rectangles(&outline(10, 10, 50, 30), 60, 100).is_empty());
    assert!(find_rectangles(&outline(10, 10, 14, 14), 200, 100).is_empty());
}

#[test]
fn growing_stops_at_the_gap_and_marks_points() {
    let mut pts = outline(0, 0, 30, 12);
    pts.push((40, 40));
    let mut visited = vec![false; pts.len()];
    let r = grow_rectangle_from_point(&pts, 0, &mut visited).unwrap();
    assert_eq!(bounds(&r), (0, 0, 30, 12));
    assert!(!visited[pts.len() - 1]);
    assert!(visited[..pts.len() - 1].iter().all(|v| *v));
    let mut visited = vec![false; pts.len()];
    assert!(grow_rectangle_from_point(&pts, pts.len() - 1, &mut visited).is_none());
}

#[test]
fn sorting_keeps_order_among_equals() {
    let els = vec![
        element("a", 0, 0, 1, 1, None, 30),
        element("b", 0, 0, 1, 1, None, 80),
        element("c", 0, 0, 1, 1, None, 30),
        element("d", 0, 0, 1, 1, None, 100),
    ];
    let sorted = sort_by_confidence(els);
    let names: Vec<&str> = sorted.iter().map(|e| e.element_type.as_str()).collect();
    assert_eq!(names, vec!["d", "b", "a", "c"]);
}

#[test]
fn filtering_and_mean_confidence() {
    let els = vec![
        element("a", 0, 0, 1, 1, None, 59),
        element("b", 0, 0, 1, 1, None, 60),
        element("c", 0, 0, 1, 1, None, 95),
    ];
    let kept = filter_elements(els, 60, 1);
    assert_eq!(kept.len(), 1);
    assert_eq!(kept[0].element_type, "b");
    let all = vec![element("a", 0, 0, 1, 1, None, 60), element("b", 0, 0, 1, 1, None, 95)];
    assert_eq!(calculate_overall_confidence(&all), 77);
    assert_eq!(calculate_overall_confidence(&Vec::new()), 0);
}

fn screen_with_button() -> Image {
    let mut img = gray_image(200, 100, 0);
    for y in 40..60 {
        for x in 50..110 {
            img.set_pixel(x, y, &[255]);
        }
    }
    img
}

#[test]
fn detects_a_bright_button() {
    let found = VisionProcessor::new().detect_elements(&screen_with_button());
    assert_eq!(found.len(), 1);
    assert_eq!(found[0].element_type, "button");
    assert_eq!(bounds(&found[0].bounds), (49, 39, 61, 21));
    assert_eq!(found[0].confidence, 80);
}

#[test]
fn analysis_keeps_sure_elements_and_counts() {
    let mut coordinator = AICoordinator::new();
    let a = coordinator.analyze_screen(&screen_with_button());
    assert_eq!(a.elements.len(), 1);
    assert_eq!(a.confidence, 80);
    assert_eq!(a.screen_size, (200, 100));
    let blank = coordinator.analyze_screen(&gray_image(50, 40, 0));
    assert!(blank.elements.is_empty());
    assert_eq!(blank.confidence, 0);
    let stats = coordinator.get_stats();
    assert_eq!((stats.images_processed, stats.elements_detected), (2, 1));
}
