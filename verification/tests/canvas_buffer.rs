use simplepaint::{CanvasBuffer, CanvasPos, PixelColor};

fn color_at(canvas: &CanvasBuffer, x: u32, y: u32) -> (u8, u8, u8, u8) {
    let bytes = canvas.as_bytes();
    let i = ((y * canvas.width() + x) * 4) as usize;
    (bytes[i], bytes[i + 1], bytes[i + 2], bytes[i + 3])
}

fn black_pixels(canvas: &CanvasBuffer) -> Vec<(u32, u32)> {
    let mut out = Vec::new();
    for y in 0..canvas.height() {
        for x in 0..canvas.width() {
            if color_at(canvas, x, y) == (0, 0, 0, 255) {
                out.push((x, y));
            }
        }
    }
    out
}

const WHITE: (u8, u8, u8, u8) = (255, 255, 255, 255);
const BLACK: (u8, u8, u8, u8) = (0, 0, 0, 255);

fn pos(x: i32, y: i32) -> CanvasPos {
    CanvasPos { x, y }
}

#[test]
fn new_buffer_is_white_and_clean() {
    let canvas = CanvasBuffer::new(3, 2);
    assert_eq!(canvas.width(), 3);
    assert_eq!(canvas.height(), 2);
    assert!(!canvas.dirty);
    let bytes = canvas.as_bytes();
    assert_eq!(bytes.len(), 3 * 2 * 4);
    assert!(bytes.iter().all(|b| *b == 255));
}

#[test]
fn empty_buffer_has_no_bytes() {
    let canvas = CanvasBuffer::new(0, 7);
    assert_eq!(canvas.as_bytes().len(), 0);
}

#[test]
fn as_bytes_is_row_major_rgba() {
    let mut canvas = CanvasBuffer::new(2, 2);
    canvas.set_pixel(1, 0, PixelColor { r: 1, g: 2, b: 3, a: 4 });
    canvas.set_pixel(0, 1, PixelColor { r: 5, g: 6, b: 7, a: 8 });
    assert_eq!(
        canvas.as_bytes(),
        vec![255, 255, 255, 255, 1, 2, 3, 4, 5, 6, 7, 8, 255, 255, 255, 255]
    );
}

#[test]
fn set_pixel_inside_sets_one_pixel_and_dirties() {
    let mut canvas = CanvasBuffer::new(3, 3);
    canvas.set_pixel(1, 2, PixelColor::black());
    assert!(canvas.dirty);
    assert_eq!(black_pixels(&canvas), vec![(1, 2)]);
}

#[test]
fn set_pixel_outside_is_ignored() {
    let mut canvas = CanvasBuffer::new(3, 3);
    for (x, y) in [(-1, 0), (0, -1), (3, 0), (0, 3), (i32::MIN, i32::MAX)] {
        canvas.set_pixel(x, y, PixelColor::black());
    }
    assert!(!canvas.dirty);
    assert!(black_pixels(&canvas).is_empty());
}

#[test]
fn set_pixel_twice_same_as_once() {
    let mut once = CanvasBuffer::new(4, 4);
    once.set_pixel(2, 3, PixelColor::black());
    let mut twice = CanvasBuffer::new(4, 4);
    twice.set_pixel(2, 3, PixelColor::black());
    twice.set_pixel(2, 3, PixelColor::black());
    assert_eq!(once.as_bytes(), twice.as_bytes());
}

#[test]
fn fill_scanline_clamps_to_the_row() {
    let mut canvas = CanvasBuffer::new(4, 3);
    canvas.fill_scanline(1, -5, 10, PixelColor::black());
    assert!(canvas.dirty);
    assert_eq!(black_pixels(&canvas), vec![(0, 1), (1, 1), (2, 1), (3, 1)]);
}

#[test]
fn fill_scanline_on_last_row_stays_in_the_row() {
    let mut canvas = CanvasBuffer::new(4, 3);
    canvas.fill_scanline(2, 2, 100, PixelColor::black());
    assert_eq!(black_pixels(&canvas), vec![(2, 2), (3, 2)]);
    canvas.fill_scanline(0, 3, 4, PixelColor::black());
    assert_eq!(black_pixels(&canvas), vec![(3, 0), (2, 2), (3, 2)]);
}

#[test]
fn fill_scanline_outside_is_ignored() {
    let mut canvas = CanvasBuffer::new(4, 3);
    canvas.fill_scanline(-1, 0, 3, PixelColor::black());
    canvas.fill_scanline(3, 0, 3, PixelColor::black());
    canvas.fill_scanline(1, 4, 9, PixelColor::black());
    canvas.fill_scanline(1, -9, -1, PixelColor::black());
    canvas.fill_scanline(1, 3, 2, PixelColor::black());
    assert!(!canvas.dirty);
    assert!(black_pixels(&canvas).is_empty());
}

#[test]
fn fill_scanline_on_zero_width_canvas_is_ignored() {
    let mut canvas = CanvasBuffer::new(0, 3);
    canvas.fill_scanline(0, -1, 5, PixelColor::black());
    assert!(!canvas.dirty);
}

#[test]
fn draw_line_horizontal_radius_one() {
    let mut canvas = CanvasBuffer::new(5, 3);
    canvas.draw_line(pos(0, 1), pos(3, 1), 1, PixelColor::black());
    assert!(canvas.dirty);
    // Each pixel of a shallow line stamps rows y - 1 ..= y.
    assert_eq!(
        black_pixels(&canvas),
        vec![(0, 0), (1, 0), (2, 0), (3, 0), (0, 1), (1, 1), (2, 1), (3, 1)]
    );
}

#[test]
fn draw_line_follows_bresenham_walk() {
    let mut canvas = CanvasBuffer::new(5, 3);
    // The walk from (0, 1) to (3, 2) visits (0,1), (1,1), (2,2), (3,2).
    canvas.draw_line(pos(0, 1), pos(3, 2), 1, PixelColor::black());
    assert_eq!(
        black_pixels(&canvas),
        vec![(0, 0), (1, 0), (0, 1), (1, 1), (2, 1), (3, 1), (2, 2), (3, 2)]
    );
}

#[test]
fn draw_line_diagonal() {
    let mut canvas = CanvasBuffer::new(4, 4);
    canvas.draw_line(pos(0, 1), pos(2, 3), 1, PixelColor::black());
    assert_eq!(
        black_pixels(&canvas),
        vec![(0, 0), (0, 1), (1, 1), (1, 2), (2, 2), (2, 3)]
    );
}

#[test]
fn draw_line_steep_uses_horizontal_spans() {
    let mut canvas = CanvasBuffer::new(4, 4);
    canvas.draw_line(pos(1, 0), pos(2, 3), 1, PixelColor::black());
    // Walk: (1,0), (1,1), (2,2), (2,3); each stamps columns x - 1 ..= x.
    assert_eq!(
        black_pixels(&canvas),
        vec![(0, 0), (1, 0), (0, 1), (1, 1), (1, 2), (2, 2), (1, 3), (2, 3)]
    );
}

#[test]
fn draw_line_backwards_reaches_the_start() {
    let mut canvas = CanvasBuffer::new(6, 6);
    canvas.draw_line(pos(5, 5), pos(1, 2), 1, PixelColor::black());
    let black = black_pixels(&canvas);
    assert!(black.contains(&(5, 5)));
    assert!(black.contains(&(1, 2)));
}

#[test]
fn draw_line_single_point() {
    let mut canvas = CanvasBuffer::new(4, 4);
    canvas.draw_line(pos(2, 2), pos(2, 2), 2, PixelColor::black());
    assert_eq!(black_pixels(&canvas), vec![(2, 0), (2, 1), (2, 2), (2, 3)]);
}

#[test]
fn draw_line_radius_zero_draws_nothing() {
    let mut canvas = CanvasBuffer::new(4, 4);
    canvas.draw_line(pos(0, 0), pos(3, 2), 0, PixelColor::black());
    assert!(!canvas.dirty);
    assert!(black_pixels(&canvas).is_empty());
}

#[test]
fn draw_line_off_canvas_is_ignored() {
    let mut canvas = CanvasBuffer::new(4, 4);
    canvas.draw_line(pos(-10, -10), pos(-2, -5), 1, PixelColor::black());
    assert!(!canvas.dirty);
    assert!(black_pixels(&canvas).is_empty());
}

#[test]
fn draw_line_covers_both_end_points() {
    let mut canvas = CanvasBuffer::new(20, 20);
    canvas.draw_line(pos(3, 17), pos(15, 2), 1, PixelColor::black());
    assert_eq!(color_at(&canvas, 3, 17), BLACK);
    assert_eq!(color_at(&canvas, 15, 2), BLACK);
}

#[test]
fn draw_line_twice_same_as_once() {
    let mut once = CanvasBuffer::new(10, 10);
    once.draw_line(pos(1, 2), pos(8, 6), 2, PixelColor::black());
    let mut twice = CanvasBuffer::new(10, 10);
    twice.draw_line(pos(1, 2), pos(8, 6), 2, PixelColor::black());
    twice.draw_line(pos(1, 2), pos(8, 6), 2, PixelColor::black());
    assert_eq!(once.as_bytes(), twice.as_bytes());
}

#[test]
fn fill_circle_radius_zero_is_one_pixel() {
    let mut canvas = CanvasBuffer::new(5, 5);
    canvas.fill_circle(pos(2, 3), 0, PixelColor::black());
    assert_eq!(black_pixels(&canvas), vec![(2, 3)]);
}

#[test]
fn fill_circle_radius_one_has_diameter_three() {
    let mut canvas = CanvasBuffer::new(5, 5);
    canvas.fill_circle(pos(2, 2), 1, PixelColor::black());
    assert_eq!(black_pixels(&canvas), vec![(2, 1), (1, 2), (2, 2), (3, 2), (2, 3)]);
}

#[test]
fn fill_circle_radius_two() {
    let mut canvas = CanvasBuffer::new(5, 5);
    canvas.fill_circle(pos(2, 2), 2, PixelColor::black());
    let black = black_pixels(&canvas);
    assert_eq!(black.len(), 13);
    for (x, y) in black {
        let (dx, dy) = (x as i32 - 2, y as i32 - 2);
        assert!(dx * dx + dy * dy <= 4);
    }
    assert_eq!(color_at(&canvas, 0, 0), WHITE);
}

#[test]
fn fill_circle_clipped_at_the_border() {
    let mut canvas = CanvasBuffer::new(3, 3);
    canvas.fill_circle(pos(0, 0), 1, PixelColor::black());
    assert!(canvas.dirty);
    assert_eq!(black_pixels(&canvas), vec![(0, 0), (1, 0), (0, 1)]);
}

#[test]
fn fill_circle_off_canvas_is_ignored() {
    let mut canvas = CanvasBuffer::new(3, 3);
    canvas.fill_circle(pos(-5, 1), 2, PixelColor::black());
    assert!(!canvas.dirty);
}

#[test]
fn canvas_pos_add_and_eq() {
    assert_eq!(pos(1, -2) + pos(3, 4), pos(4, 2));
    assert!(pos(7, 8) == pos(7, 8));
    assert!(pos(7, 8) != pos(8, 7));
}

#[test]
fn pixel_colors() {
    assert_eq!(PixelColor::white(), PixelColor { r: 255, g: 255, b: 255, a: 255 });
    assert_eq!(PixelColor::black(), PixelColor { r: 0, g: 0, b: 0, a: 255 });
}

#[test]
fn fill_circle_twice_same_as_once() {
    let mut once = CanvasBuffer::new(9, 9);
    once.fill_circle(pos(4, 5), 3, PixelColor::black());
    let mut twice = CanvasBuffer::new(9, 9);
    twice.fill_circle(pos(4, 5), 3, PixelColor::black());
    twice.fill_circle(pos(4, 5), 3, PixelColor::black());
    assert_eq!(once.as_bytes(), twice.as_bytes());
}

#[test]
fn set_pixel_then_bytes_show_the_color() {
    let mut canvas = CanvasBuffer::new(5, 4);
    let color = PixelColor { r: 9, g: 8, b: 7, a: 6 };
    canvas.set_pixel(3, 2, color);
    let bytes = canvas.as_bytes();
    let i = 4 * (2 * 5 + 3);
    assert_eq!(&bytes[i..i + 4], &[9, 8, 7, 6]);
    assert_eq!(color_at(&canvas, 2, 2), WHITE);
}

#[test]
fn drawing_keeps_the_buffer_dirty() {
    let mut canvas = CanvasBuffer::new(4, 4);
    canvas.set_pixel(1, 1, PixelColor::black());
    assert!(canvas.dirty);
    canvas.set_pixel(-1, 1, PixelColor::black());
    assert!(canvas.dirty);
    canvas.clear_dirty();
    assert!(!canvas.is_dirty());
    canvas.fill_circle(pos(10, 10), 1, PixelColor::black());
    assert!(!canvas.dirty);
    canvas.fill_circle(pos(3, 3), 1, PixelColor::black());
    assert!(canvas.dirty);
}

#[test]
fn is_dirty_reads_the_flag() {
    let mut canvas = CanvasBuffer::new(3, 3);
    assert!(!canvas.is_dirty());
    canvas.fill_scanline(1, 0, 1, PixelColor::black());
    assert!(canvas.is_dirty());
    assert!(canvas.dirty);
    canvas.clear_dirty();
    assert!(!canvas.dirty);
    assert_eq!(black_pixels(&canvas), vec![(0, 1), (1, 1)]);
}

#[test]
fn can_draw_line_accepts_ordinary_strokes() {
    let canvas = CanvasBuffer::new(500, 500);
    assert!(canvas.can_draw_line(pos(0, 0), pos(499, 250), 1));
    assert!(canvas.can_draw_line(pos(-1000, 3), pos(1000, -3), 5));
}

#[test]
fn can_draw_line_refuses_overflowing_strokes() {
    let canvas = CanvasBuffer::new(10, 10);
    assert!(!canvas.can_draw_line(pos(i32::MIN, 0), pos(i32::MAX, 0), 1));
    assert!(!canvas.can_draw_line(pos(0, i32::MAX), pos(0, i32::MAX - 1), 1));
    assert!(!canvas.can_draw_line(pos(0, 0), pos(3, 3), u32::MAX / 2));
}

#[test]
fn set_pixel_on_distinct_pixels_commutes() {
    let a = PixelColor { r: 1, g: 1, b: 1, a: 1 };
    let b = PixelColor { r: 2, g: 2, b: 2, a: 2 };
    let mut first = CanvasBuffer::new(4, 4);
    first.set_pixel(1, 2, a);
    first.set_pixel(3, 0, b);
    let mut second = CanvasBuffer::new(4, 4);
    second.set_pixel(3, 0, b);
    second.set_pixel(1, 2, a);
    assert_eq!(first.as_bytes(), second.as_bytes());
    assert_eq!(first.dirty, second.dirty);
}

#[test]
fn set_pixel_last_write_wins() {
    let a = PixelColor { r: 1, g: 1, b: 1, a: 1 };
    let b = PixelColor { r: 2, g: 2, b: 2, a: 2 };
    let mut twice = CanvasBuffer::new(4, 4);
    twice.set_pixel(2, 2, a);
    twice.set_pixel(2, 2, b);
    let mut once = CanvasBuffer::new(4, 4);
    once.set_pixel(2, 2, b);
    assert_eq!(twice.as_bytes(), once.as_bytes());
}

#[test]
fn shallow_line_stays_within_half_a_pixel() {
    let (dx, dy) = (13i32, 5i32);
    let mut canvas = CanvasBuffer::new(20, 10);
    canvas.draw_line(pos(0, 1), pos(dx, 1 + dy), 1, PixelColor::black());
    // Each column holds the stamp rows y - 1 ..= y of the line pixel y.
    for x in 0..=dx {
        let mut row = None;
        for y in 0..10 {
            if color_at(&canvas, x as u32, y) == BLACK {
                row = Some(y as i32);
            }
        }
        let j = row.expect("every column of the line is painted") - 1;
        assert!((2 * (j * dx - x * dy)).abs() <= dx);
    }
}

#[test]
fn mark_dirty_sets_the_flag_only() {
    let mut canvas = CanvasBuffer::new(2, 2);
    let before = canvas.as_bytes();
    canvas.mark_dirty();
    assert!(canvas.is_dirty());
    assert_eq!(canvas.as_bytes(), before);
    assert_eq!((canvas.width(), canvas.height()), (2, 2));
}

#[test]
fn continue_stroke_starts_with_a_stamp() {
    let mut canvas = CanvasBuffer::new(5, 5);
    let next = canvas.continue_stroke(pos(2, 3), None);
    assert_eq!(next, Some(pos(2, 3)));
    assert_eq!(black_pixels(&canvas), vec![(2, 2), (2, 3)]);
}

#[test]
fn continue_stroke_joins_the_last_position() {
    let mut stroke = CanvasBuffer::new(6, 6);
    let next = stroke.continue_stroke(pos(4, 4), Some(pos(1, 2)));
    assert_eq!(next, Some(pos(4, 4)));
    let mut line = CanvasBuffer::new(6, 6);
    line.draw_line(pos(4, 4), pos(1, 2), 1, PixelColor::black());
    assert_eq!(stroke.as_bytes(), line.as_bytes());
    assert!(stroke.is_dirty());
}

#[test]
fn fill_circle_far_above_the_canvas_draws_nothing() {
    let mut canvas = CanvasBuffer::new(4, 4);
    canvas.fill_circle(pos(0, -100_000), 50_000, PixelColor::black());
    assert!(!canvas.is_dirty());
    assert!(black_pixels(&canvas).is_empty());
}

#[test]
fn operations_keep_the_size() {
    let mut canvas = CanvasBuffer::new(7, 3);
    canvas.set_pixel(1, 1, PixelColor::black());
    canvas.draw_line(pos(0, 0), pos(6, 2), 1, PixelColor::black());
    canvas.fill_circle(pos(3, 1), 2, PixelColor::black());
    canvas.fill_scanline(2, -4, 40, PixelColor::black());
    canvas.clear_dirty();
    assert_eq!((canvas.width(), canvas.height()), (7, 3));
    assert_eq!(canvas.as_bytes().len(), 7 * 3 * 4);
}
