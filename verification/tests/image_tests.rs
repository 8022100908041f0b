use luna::image::{calculate_histogram, find_connected_components, sobel_edge_detection, threshold, Image};

#[test]
fn test_image_creation() {
    let image = Image::new(100, 100, 3);
    assert_eq!(image.width, 100);
    assert_eq!(image.height, 100);
    assert_eq!(image.channels, 3);
    assert_eq!(image.data.len(), 100 * 100 * 3);
}

#[test]
fn test_pixel_operations() {
    let mut image = Image::new(10, 10, 3);
    let pixel = [255, 128, 0];
    image.set_pixel(5, 5, &pixel);
    assert_eq!(image.get_pixel(5, 5), Some(&pixel[..]));
}

#[test]
fn test_grayscale_conversion() {
    let mut image = Image::new(2, 2, 3);
    image.set_pixel(0, 0, &[255, 0, 0]);
    image.set_pixel(1, 1, &[0, 255, 0]);
    let gray = image.to_grayscale();
    assert_eq!(gray.channels, 1);
    let red_gray = gray.get_pixel(0, 0).unwrap()[0];
    let green_gray = gray.get_pixel(1, 1).unwrap()[0];
    assert!(red_gray < green_gray);
}

#[test]
fn test_image_resize() {
    let image = Image::new(100, 100, 3);
    let resized = image.resize(50, 50);
    assert_eq!(resized.width, 50);
    assert_eq!(resized.height, 50);
    assert_eq!(resized.channels, 3);
}

#[test]
fn test_threshold() {
    let mut image = Image::new(3, 3, 1);
    image.set_pixel(0, 0, &[100]);
    image.set_pixel(1, 1, &[200]);
    image.set_pixel(2, 2, &[50]);
    let binary = threshold(&image, 128);
    assert_eq!(binary.get_pixel(0, 0).unwrap()[0], 0);
    assert_eq!(binary.get_pixel(1, 1).unwrap()[0], 255);
    assert_eq!(binary.get_pixel(2, 2).unwrap()[0], 0);
}

#[test]
fn test_histogram() {
    let mut image = Image::new(2, 2, 1);
    image.set_pixel(0, 0, &[100]);
    image.set_pixel(0, 1, &[100]);
    image.set_pixel(1, 0, &[200]);
    image.set_pixel(1, 1, &[200]);
    let histogram = calculate_histogram(&image, 0);
    assert_eq!(histogram[100], 2);
    assert_eq!(histogram[200], 2);
    assert_eq!(histogram[150], 0);
}

#[test]
fn grayscale_uses_integer_luma() {
    let mut image = Image::new(1, 1, 3);
    image.set_pixel(0, 0, &[100, 150, 200]);
    let gray = image.to_grayscale();
    assert_eq!(gray.get_pixel(0, 0).unwrap()[0], 140);
}

#[test]
fn resize_picks_nearest_source_pixel() {
    let mut image = Image::new(4, 1, 1);
    for x in 0..4 {
        image.set_pixel(x, 0, &[x as u8 * 10]);
    }
    let small = image.resize(2, 1);
    assert_eq!(small.get_pixel(0, 0).unwrap()[0], 0);
    assert_eq!(small.get_pixel(1, 0).unwrap()[0], 20);
}

#[test]
fn crop_fills_outside_with_zero() {
    let mut image = Image::new(3, 3, 1);
    image.set_pixel(2, 2, &[7]);
    let c = image.crop(2, 2, 2, 2);
    assert_eq!(c.get_pixel(0, 0).unwrap()[0], 7);
    assert_eq!(c.get_pixel(1, 1).unwrap()[0], 0);
}

#[test]
fn sobel_on_a_step_edge() {
    let mut image = Image::new(3, 3, 1);
    for y in 0..3 {
        image.set_pixel(2, y, &[255]);
    }
    let edges = sobel_edge_detection(&image);
    assert_eq!(edges.get_pixel(1, 1).unwrap()[0], 255);
    assert_eq!(edges.get_pixel(0, 0).unwrap()[0], 0);
}

#[test]
fn components_group_adjacent_pixels() {
    let mut image = Image::new(5, 3, 1);
    image.set_pixel(0, 0, &[255]);
    image.set_pixel(1, 0, &[255]);
    image.set_pixel(4, 2, &[255]);
    let comps = find_connected_components(&image);
    assert_eq!(comps.len(), 2);
    let sizes: Vec<usize> = comps.iter().map(|c| c.len()).collect();
    assert!(sizes.contains(&2) && sizes.contains(&1));
}

#[test]
fn intensity_and_lit_pixels() {
    let mut img = luna::image::Image::new(3, 2, 1);
    img.set_pixel(0, 0, &[10]);
    img.set_pixel(2, 1, &[250]);
    assert_eq!(luna::image::total_intensity(&img), 260);
    assert_eq!(luna::image::lit_count(&img), 2);
    let empty = luna::image::Image::new(0, 0, 1);
    assert_eq!(luna::image::total_intensity(&empty), 0);
    assert_eq!(luna::image::lit_count(&empty), 0);
}
