use luna::vision::{ElementType, VisionError};

#[test]
fn test_element_type_display() {
    assert_eq!(ElementType::Button.to_display_string(), "Button");
    assert_eq!(ElementType::TextBox.to_display_string(), "TextBox");
}

#[test]
fn vision_error_messages() {
    assert_eq!(VisionError::CacheError("full".to_string()).message(), "Cache error: full");
}

#[test]
fn image_hash_samples_every_tenth_pixel() {
    let img = luna::image::Image::new(2, 1, 1);
    assert_eq!(luna::vision::calculate_image_hash(&img), 62_982_018);
    let mut a = luna::image::Image::new(20, 20, 3);
    let b = luna::image::Image::new(20, 20, 3);
    assert_eq!(luna::vision::calculate_image_hash(&a), luna::vision::calculate_image_hash(&b));
    a.set_pixel(2, 2, &[9, 9, 9]);
    assert_ne!(luna::vision::calculate_image_hash(&a), luna::vision::calculate_image_hash(&b));
    let c = luna::image::Image::new(20, 20, 3);
    let mut d = luna::image::Image::new(20, 20, 3);
    d.set_pixel(3, 3, &[9, 9, 9]);
    assert_eq!(luna::vision::calculate_image_hash(&c), luna::vision::calculate_image_hash(&d));
}

#[test]
fn menu_detector_finds_nothing_yet() {
    let img = luna::image::Image::new(20, 20, 3);
    assert!(luna::vision::MenuDetector::new().detect(&img).is_empty());
}
