use luna::capture::{quick_screenshot, screenshot_region, CaptureConfig, ScreenCapture};

#[test]
fn test_capture_config() {
    let config = CaptureConfig::default();
    assert_eq!(config.target_fps, 30);
    assert_eq!(config.compression_quality, 85);
    assert!(!config.capture_cursor);
    assert!(config.capture_region.is_none());
}

#[test]
fn test_screen_capture_creation() {
    let config = CaptureConfig::default();
    let capture = ScreenCapture::new(config);
    assert!(capture.last_capture_time().is_none());
}

#[test]
fn test_quick_screenshot() {
    let result = quick_screenshot();
    assert!(result.is_ok());
    let image = result.unwrap();
    assert!(image.width > 0);
    assert!(image.height > 0);
    assert_eq!(image.channels, 3);
}

#[test]
fn test_screenshot_region() {
    let result = screenshot_region(0, 0, 100, 100);
    assert!(result.is_ok());
    let image = result.unwrap();
    assert!(image.width <= 100);
    assert!(image.height <= 100);
}

#[test]
fn pattern_pixels_and_pacing() {
    let image = luna::capture::create_test_pattern(800, 600);
    assert_eq!(image.get_pixel(150, 120).unwrap(), &[200, 200, 200][..]);
    assert_eq!(image.get_pixel(200, 310).unwrap(), &[255, 255, 255][..]);
    assert_eq!(image.get_pixel(400, 0).unwrap(), &[127, 0, 128][..]);
    let mut capture = ScreenCapture::new(CaptureConfig::default());
    assert_eq!(capture.pending_wait_ms(1_000), 0);
    capture.capture_screen_at(1_000).unwrap();
    assert_eq!(capture.pending_wait_ms(1_010), 23);
    assert_eq!(capture.pending_wait_ms(2_000), 0);
    assert_eq!(capture.get_capture_count(), 1);
}

#[test]
fn region_crop_keeps_region_size_past_the_edge() {
    let image = screenshot_region(1900, 1070, 50, 20).unwrap();
    assert_eq!((image.width, image.height), (50, 20));
    assert_eq!(image.get_pixel(30, 15).unwrap(), &[0, 0, 0][..]);
}

#[test]
fn captures_show_the_synthetic_screen() {
    let full = luna::capture::quick_screenshot().unwrap();
    assert_eq!(full.get_pixel(0, 0).unwrap(), &[0u8, 0, 128][..]);
    assert_eq!(full.get_pixel(200, 125).unwrap(), &[200u8, 200, 200][..]);
    assert_eq!(full.get_pixel(300, 315).unwrap(), &[255u8, 255, 255][..]);
    let region = luna::capture::screenshot_region(0, 0, 100, 100).unwrap();
    for y in 0..100 {
        for x in 0..100 {
            assert_eq!(region.get_pixel(x, y), full.get_pixel(x, y));
        }
    }
    let off = luna::capture::screenshot_region(1910, 1075, 20, 10).unwrap();
    assert_eq!(off.get_pixel(15, 2).unwrap(), &[0u8, 0, 0][..]);
}
