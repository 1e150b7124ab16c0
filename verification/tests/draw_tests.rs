use imaglib::draw::colors;
use imaglib::draw::{Bitmap, Color, Font, Image, TextMetrics, TextScale};
use imaglib::math::Vec2;

const RED: Color = Color { r: 220, g: 0, b: 0, a: 255 };
const BLACK: Color = Color { r: 0, g: 0, b: 0, a: 255 };

fn painted(img: &Image, c: Color) -> Vec<(usize, usize)> {
    let mut out = Vec::new();
    for y in 0..img.height {
        for x in 0..img.width {
            if img.data[y * img.width + x] == c {
                out.push((x, y));
            }
        }
    }
    out
}

#[test]
fn new_image_is_black() {
    let img = Image::new(3, 2);
    assert_eq!(img.width, 3);
    assert_eq!(img.height, 2);
    assert_eq!(img.data.len(), 6);
    assert!(img.data.iter().all(|c| *c == BLACK));
}

#[test]
fn named_colours() {
    assert_eq!(colors::black(), BLACK);
    assert_eq!(colors::white(), Color { r: 220, g: 220, b: 220, a: 255 });
    assert_eq!(colors::pink(), Color { r: 255, g: 150, b: 210, a: 255 });
    assert_eq!(colors::dark_grey(), Color { r: 55, g: 55, b: 55, a: 255 });
}

#[test]
fn draw_then_read_pixel() {
    let mut img = Image::new(4, 3);
    img.draw_pixel(2, 1, RED);
    assert_eq!(img.get_pixel(2, 1), RED);
    assert_eq!(img.data[1 * 4 + 2], RED);
    assert_eq!(painted(&img, RED), vec![(2, 1)]);
    img.draw_pixel(4, 0, RED);
    img.draw_pixel(0, 3, RED);
    assert_eq!(painted(&img, RED), vec![(2, 1)]);
}

#[test]
fn get_pixel_clamps_to_the_edges() {
    let mut img = Image::new(4, 3);
    img.draw_pixel(3, 2, RED);
    assert_eq!(img.get_pixel(10, 10), RED);
    assert_eq!(img.get_pixel(3, 99), RED);
    assert_eq!(img.get_pixel(0, 99), BLACK);
}

#[test]
fn clear_fills_everything() {
    let mut img = Image::new(2, 2);
    img.draw_pixel(0, 0, BLACK);
    img.clear(RED);
    assert_eq!(painted(&img, RED).len(), 4);
}

#[test]
fn rectangle_fills_its_cells() {
    let mut img = Image::new(4, 3);
    img.draw_rect(1, 0, 2, 2, RED);
    assert_eq!(painted(&img, RED), vec![(1, 0), (2, 0), (1, 1), (2, 1)]);
    let mut img2 = Image::new(4, 3);
    img2.draw_rect(-1, -1, 2, 2, RED);
    assert_eq!(painted(&img2, RED), vec![(0, 0)]);
    let mut img3 = Image::new(4, 3);
    img3.draw_rect(3, 2, 5, 5, RED);
    assert_eq!(painted(&img3, RED), vec![(3, 2)]);
    let mut img4 = Image::new(4, 3);
    img4.draw_rect(0, 0, 0, 3, RED);
    assert!(painted(&img4, RED).is_empty());
}

#[test]
fn triangle_fills_inside_its_box() {
    let mut img = Image::new(5, 5);
    img.draw_triangle(Vec2::new(0, 0), Vec2::new(4, 0), Vec2::new(0, 4), RED);
    // The scanned box is 0..4 in each direction (its far edges are left out).
    assert_eq!(
        painted(&img, RED),
        vec![(0, 0), (1, 0), (2, 0), (3, 0), (0, 1), (1, 1), (2, 1), (3, 1), (0, 2), (1, 2), (2, 2), (0, 3), (1, 3)]
    );
}

#[test]
fn circle_uses_squared_distance_against_radius() {
    let mut img = Image::new(5, 5);
    img.draw_circ(Vec2::new(2, 2), 2, RED);
    assert_eq!(painted(&img, RED), vec![(2, 1), (1, 2), (2, 2), (3, 2), (2, 3)]);
    let mut img2 = Image::new(5, 5);
    img2.draw_circ(Vec2::new(0, 0), 5, RED);
    assert_eq!(painted(&img2, RED), vec![(0, 0), (1, 0), (2, 0), (0, 1), (1, 1), (0, 2)]);
}

static GLYPH_A: [u8; 6] = [1, 0, 1, 0, 1, 0];
static GLYPH_B: [u8; 4] = [1, 1, 1, 1];
static MISSING: [u8; 1] = [1];

fn font() -> Font {
    Font {
        glyphs: vec![
            ('a', Bitmap { width: 2, height: 3, data: &GLYPH_A }),
            ('b', Bitmap { width: 2, height: 2, data: &GLYPH_B }),
        ],
        missing: Bitmap { width: 1, height: 1, data: &MISSING },
        text_width: 2,
        text_height: 3,
        text_space: 3,
        text_space_v: 4,
    }
}

#[test]
fn bitmap_cells() {
    let b = Bitmap { width: 2, height: 3, data: &GLYPH_A };
    assert!(b.get(0, 0));
    assert!(!b.get(1, 0));
    assert!(b.get(0, 2));
    assert!(!b.get(2, 0));
    assert!(!b.get(-1, 0));
    assert!(!b.get(0, 3));
}

#[test]
fn bitmap_stamps_set_cells() {
    let mut img = Image::new(4, 4);
    let b = Bitmap { width: 2, height: 3, data: &GLYPH_A };
    img.draw_bitmap(1, 1, &b, RED);
    assert_eq!(painted(&img, RED), vec![(1, 1), (1, 2), (1, 3)]);
}

#[test]
fn glyph_lookup_falls_back() {
    let f = font();
    assert_eq!(f.glyph('a').height, 3);
    assert_eq!(f.glyph('b').height, 2);
    assert_eq!(f.glyph('z').height, 1);
}

#[test]
fn char_and_text_drawing() {
    let f = font();
    let mut img = Image::new(8, 8);
    img.draw_char(0, 0, 'b', RED, &f);
    assert_eq!(painted(&img, RED), vec![(0, 0), (1, 0), (0, 1), (1, 1)]);
    let mut img2 = Image::new(8, 8);
    img2.draw_text(0, 0, "b\nz\tb", RED, &f);
    // 'b' at (0,0); newline to (0,4); 'z' (fallback) at (0,4); tab moves 9 so 'b' at (12,4) is off the image.
    assert_eq!(painted(&img2, RED), vec![(0, 0), (1, 0), (0, 1), (1, 1), (0, 4)]);
}

#[test]
fn text_bounds_measures_layout() {
    assert_eq!(Image::text_bounds(2, 3, 100, "ab"), (6, 3));
    assert_eq!(Image::text_bounds(2, 3, 4, "ab"), (4, 6));
    assert_eq!(Image::text_bounds(2, 3, 100, ""), (2, 3));
    assert_eq!(Image::text_bounds(2, 3, 100, "a\nb"), (4, 6));
    assert_eq!(Image::text_bounds(2, 3, 100, "\t"), (8, 3));
}

#[test]
fn text_layouts() {
    assert_eq!(Image::layout_text(1, 2, 3, 4, "ab\nc\td"), vec![(1, 2, 'a'), (4, 2, 'b'), (1, 6, 'c'), (13, 6, 'd')]);
    assert_eq!(
        Image::layout_text_width(0, 0, 7, 3, 4, "abcd"),
        vec![(0, 0, 'a'), (3, 0, 'b'), (0, 4, 'c'), (3, 4, 'd')]
    );
}

#[test]
fn loading_swaps_width_and_height() {
    let p = vec![RED, Color { r: 1, g: 2, b: 3, a: 4 }];
    let img = Image::from_pixels(2, 1, &p);
    assert_eq!(img.width, 1);
    assert_eq!(img.height, 2);
    assert_eq!(img.data, vec![RED, BLACK]);
    let sq = Image::from_pixels(2, 2, &vec![RED, BLACK, BLACK, RED]);
    assert_eq!(sq.data, vec![RED, BLACK, BLACK, RED]);
}

#[test]
fn export_writes_plain_ppm() {
    let mut img = Image::new(2, 1);
    img.draw_pixel(1, 0, Color { r: 255, g: 7, b: 10, a: 255 });
    let bytes = img.export_bytes();
    assert_eq!(String::from_utf8(bytes).unwrap(), "P3\n2 1\n255\n0 0 0\n255 7 10\n");
}

#[test]
fn width_layout_wraps_every_glyph_when_narrow() {
    assert_eq!(
        Image::layout_text_width(0, 0, 6, 3, 4, "abc"),
        vec![(0, 0, 'a'), (0, 4, 'b'), (0, 8, 'c')]
    );
    assert_eq!(Image::layout_text_width(2, 0, 100, 3, 4, "a\tb"), vec![(2, 0, 'a'), (14, 0, 'b')]);
}

#[test]
fn draw_text_stamps_glyphs_where_layout_places_them() {
    let f = font();
    let text = "ab\nba\tz";
    let mut drawn = Image::new(40, 20);
    drawn.draw_text(1, 2, text, RED, &f);
    let mut by_layout = Image::new(40, 20);
    for (x, y, c) in Image::layout_text(1, 2, f.text_space, f.text_space_v, text) {
        by_layout.draw_char(x, y, c, RED, &f);
    }
    assert_eq!(drawn.data, by_layout.data);
    assert!(!painted(&drawn, RED).is_empty());
}

#[test]
fn text_box_height_searches_down_from_100() {
    let scale = TextScale {
        top: 100,
        steps: vec![
            TextMetrics { advance: 10, line_height: 20 },
            TextMetrics { advance: 5, line_height: 10 },
            TextMetrics { advance: 2, line_height: 3 },
        ],
    };
    assert_eq!(Image::text_box_height(&scale, 12, 100, "ab"), Some(100));
    assert_eq!(Image::text_box_height(&scale, 12, 30, "ab"), Some(99));
    assert_eq!(Image::text_box_height(&scale, 12, 6, "ab"), Some(98));
    assert_eq!(Image::text_box_height(&scale, 12, 5, "ab"), None);
    let low = TextScale { top: 50, steps: vec![TextMetrics { advance: 1, line_height: 1 }] };
    assert_eq!(Image::text_box_height(&low, 12, 100, "ab"), None);
}

#[test]
fn scale_lookup_by_height() {
    let scale = TextScale { top: 12, steps: vec![TextMetrics { advance: 6, line_height: 10 }, TextMetrics { advance: 5, line_height: 8 }] };
    assert_eq!(scale.metrics_for(11).map(|m| (m.advance, m.line_height)), Some((5, 8)));
    assert!(scale.metrics_for(13).is_none());
    assert!(scale.metrics_for(10).is_none());
}

#[test]
fn drawing_concatenated_text_is_drawing_the_parts() {
    let f = font();
    let mut whole = Image::new(16, 6);
    whole.draw_text(0, 1, "abba", RED, &f);
    let mut parts = Image::new(16, 6);
    parts.draw_text(0, 1, "ab", RED, &f);
    parts.draw_text(6, 1, "ba", RED, &f);
    assert_eq!(whole.data, parts.data);
}
