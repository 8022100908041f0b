use luna::image::Image;
use luna::render::{draw_rectangle_outline, draw_text, fill_rectangle, Color, FontCache, PixelRect, Renderer};

#[test]
fn test_color_creation() {
    let color1 = Color::rgb(255, 128, 64);
    assert_eq!(color1.r, 255);
    assert_eq!(color1.g, 128);
    assert_eq!(color1.b, 64);
    assert_eq!(color1.a, 255);
    let color2 = Color::rgba(100, 50, 25, 128);
    assert_eq!(color2.a, 128);
    let transparent = Color::transparent();
    assert_eq!(transparent.a, 0);
    let with_alpha = color1.with_alpha(100);
    assert_eq!(with_alpha.a, 100);
    assert_eq!(with_alpha.r, 255);
}

#[test]
fn test_renderer_creation() {
    let renderer = Renderer::new(800, 600);
    assert_eq!(renderer.canvas_width(), 800);
    assert_eq!(renderer.canvas_height(), 600);
}

#[test]
fn test_font_cache() {
    let font_cache = FontCache::new();
    assert!(font_cache.get_character_bitmap('A').is_some());
    assert!(font_cache.get_character_bitmap(' ').is_some());
    assert!(font_cache.get_character_bitmap('?').is_some());
}

#[test]
fn test_color_blending() {
    let renderer = Renderer::new(10, 10);
    let mut canvas = Image::new(10, 10, 4);
    canvas.set_pixel(5, 5, &[255, 0, 0, 128]);
    let blue_pixel = [0, 0, 255, 128];
    renderer.blend_pixel(&mut canvas, 5, 5, &blue_pixel);
    if let Some(pixel) = canvas.get_pixel(5, 5) {
        assert!(pixel[0] > 0);
        assert!(pixel[2] > 0);
    }
}

#[test]
fn test_fill_rectangle() {
    let mut canvas = Image::new(100, 100, 4);
    let rect = PixelRect { x: 10, y: 10, width: 20, height: 20 };
    let color = Color::rgb(255, 0, 0);
    fill_rectangle(&mut canvas, &rect, color);
    if let Some(pixel) = canvas.get_pixel(15, 15) {
        assert_eq!(pixel[0], 255);
        assert_eq!(pixel[1], 0);
        assert_eq!(pixel[2], 0);
    }
}

#[test]
fn blend_formula_exact_values() {
    let renderer = Renderer::new(1, 1);
    let mut canvas = Image::new(1, 1, 4);
    canvas.set_pixel(0, 0, &[255, 0, 0, 128]);
    renderer.blend_pixel(&mut canvas, 0, 0, &[0, 0, 255, 128]);
    assert_eq!(canvas.get_pixel(0, 0).unwrap(), &[127, 0, 128, 191][..]);
}

#[test]
fn blend_ignores_other_channel_counts_and_outside() {
    let renderer = Renderer::new(3, 3);
    let mut canvas = Image::new(3, 3, 3);
    renderer.blend_pixel(&mut canvas, 1, 1, &[9, 9, 9, 255]);
    assert_eq!(canvas.get_pixel(1, 1).unwrap(), &[0, 0, 0][..]);
    let mut rgba = Image::new(3, 3, 4);
    renderer.blend_pixel(&mut rgba, 3, 0, &[9, 9, 9, 255]);
    assert!(rgba.data.iter().all(|&b| b == 0));
}

#[test]
fn fill_is_clipped_to_canvas() {
    let mut canvas = Image::new(4, 4, 4);
    fill_rectangle(&mut canvas, &PixelRect { x: -2, y: 2, width: 4, height: 10 }, Color::rgb(1, 2, 3));
    assert_eq!(canvas.get_pixel(0, 3).unwrap(), &[1, 2, 3, 255][..]);
    assert_eq!(canvas.get_pixel(1, 2).unwrap(), &[1, 2, 3, 255][..]);
    assert_eq!(canvas.get_pixel(2, 2).unwrap(), &[0, 0, 0, 0][..]);
    assert_eq!(canvas.get_pixel(0, 1).unwrap(), &[0, 0, 0, 0][..]);
}

#[test]
fn outline_draws_edges_only() {
    let mut canvas = Image::new(10, 10, 4);
    draw_rectangle_outline(&mut canvas, &PixelRect { x: 2, y: 2, width: 5, height: 5 }, Color::rgb(0, 255, 0), 1);
    assert_eq!(canvas.get_pixel(4, 2).unwrap()[1], 255);
    assert_eq!(canvas.get_pixel(2, 4).unwrap()[1], 255);
    assert_eq!(canvas.get_pixel(4, 4).unwrap()[1], 0);
}

#[test]
fn text_inks_known_glyphs() {
    let font = FontCache::new();
    let mut canvas = Image::new(16, 12, 4);
    draw_text(&mut canvas, &font, "A?", 0, 0, Color::rgb(255, 255, 255));
    assert_eq!(canvas.get_pixel(3, 0).unwrap()[0], 255);
    assert_eq!(canvas.get_pixel(0, 0).unwrap()[0], 0);
    assert_eq!(canvas.get_pixel(8, 0).unwrap()[0], 255);
    assert_eq!(canvas.get_pixel(9, 1).unwrap()[0], 0);
}

fn red_pixels(canvas: &luna::image::Image) -> Vec<(usize, usize)> {
    let mut out = Vec::new();
    for y in 0..canvas.height {
        for x in 0..canvas.width {
            if canvas.get_pixel(x, y).map(|p| p.to_vec()) == Some(vec![255, 0, 0, 255]) {
                out.push((x, y));
            }
        }
    }
    out
}

#[test]
fn bresenham_line_points() {
    let mut canvas = luna::image::Image::new(10, 10, 4);
    luna::render::draw_line(&mut canvas, 1, 1, 4, 3, luna::render::Color::rgb(255, 0, 0));
    assert_eq!(red_pixels(&canvas), vec![(1, 1), (2, 2), (3, 2), (4, 3)]);
    let mut canvas = luna::image::Image::new(10, 10, 4);
    luna::render::draw_line(&mut canvas, 3, 8, 3, 6, luna::render::Color::rgb(255, 0, 0));
    assert_eq!(red_pixels(&canvas), vec![(3, 6), (3, 7), (3, 8)]);
    let mut canvas = luna::image::Image::new(4, 4, 4);
    luna::render::draw_line(&mut canvas, -2, 0, 5, 0, luna::render::Color::rgb(255, 0, 0));
    assert_eq!(red_pixels(&canvas), vec![(0, 0), (1, 0), (2, 0), (3, 0)]);
}

#[test]
fn midpoint_circle_points() {
    let mut canvas = luna::image::Image::new(10, 10, 4);
    luna::render::draw_circle(&mut canvas, 5, 5, 2, luna::render::Color::rgb(255, 0, 0));
    assert_eq!(
        red_pixels(&canvas),
        vec![(5, 3), (4, 4), (6, 4), (3, 5), (7, 5), (4, 6), (6, 6), (5, 7)]
    );
    let mut canvas = luna::image::Image::new(3, 3, 4);
    luna::render::draw_circle(&mut canvas, 1, 1, 0, luna::render::Color::rgb(255, 0, 0));
    assert_eq!(red_pixels(&canvas), vec![(1, 1)]);
    let mut canvas = luna::image::Image::new(3, 3, 4);
    luna::render::draw_circle(&mut canvas, 1, 1, -1, luna::render::Color::rgb(255, 0, 0));
    assert!(red_pixels(&canvas).is_empty());
}

#[test]
fn test_draw_line() {
    let mut canvas = luna::image::Image::new(100, 100, 4);
    luna::render::draw_line(&mut canvas, 0, 0, 10, 10, luna::render::Color::rgb(0, 255, 0));
    assert_eq!(canvas.get_pixel(0, 0).unwrap()[1], 255);
    assert_eq!(canvas.get_pixel(10, 10).unwrap()[1], 255);
}
