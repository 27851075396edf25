use simplepaint::{Canvas, CanvasBuffer, CanvasPos, PixelColor, PxCoords};

fn black_count(canvas: &Canvas) -> usize {
    canvas
        .as_bytes()
        .chunks(4)
        .filter(|c| c == &[0, 0, 0, 255])
        .count()
}

#[test]
fn canvas_new_is_white() {
    let canvas = Canvas::new(4, 5);
    assert_eq!(canvas.width(), 4);
    assert_eq!(canvas.height(), 5);
    assert_eq!(canvas.as_bytes(), vec![255u8; 4 * 5 * 4]);
}

#[test]
fn canvas_draws_like_the_buffer() {
    let mut canvas = Canvas::new(5, 3);
    canvas.draw_line(PxCoords { x: 0, y: 1 }, PxCoords { x: 3, y: 1 }, 1, PixelColor::black());
    assert_eq!(black_count(&canvas), 8);
    canvas.set_pixel(4, 2, PixelColor::black());
    assert_eq!(black_count(&canvas), 9);
    canvas.set_pixel(5, 2, PixelColor::black());
    assert_eq!(black_count(&canvas), 9);
}

#[test]
fn canvas_fill_circle_and_scanline() {
    let mut canvas = Canvas::new(5, 5);
    canvas.fill_circle(PxCoords { x: 2, y: 2 }, 1, PixelColor::black());
    assert_eq!(black_count(&canvas), 5);
    canvas.fill_scanline(4, -3, 9, PixelColor::black());
    assert_eq!(black_count(&canvas), 10);
}

#[test]
fn px_coords_add_and_eq() {
    let p = PxCoords { x: 2, y: 3 } + PxCoords { x: -1, y: 1 };
    assert_eq!(p, PxCoords { x: 1, y: 4 });
    assert!(p != PxCoords { x: 4, y: 1 });
}

#[test]
fn canvas_and_buffer_draw_the_same_line() {
    let mut canvas = Canvas::new(12, 9);
    let mut buffer = CanvasBuffer::new(12, 9);
    assert!(canvas.can_draw_line(PxCoords { x: 1, y: 8 }, PxCoords { x: 10, y: 2 }, 2));
    canvas.draw_line(PxCoords { x: 1, y: 8 }, PxCoords { x: 10, y: 2 }, 2, PixelColor::black());
    buffer.draw_line(CanvasPos { x: 1, y: 8 }, CanvasPos { x: 10, y: 2 }, 2, PixelColor::black());
    assert_eq!(canvas.as_bytes(), buffer.as_bytes());
}

#[test]
fn canvas_can_draw_line_matches_the_buffer_check() {
    let canvas = Canvas::new(8, 8);
    let buffer = CanvasBuffer::new(8, 8);
    for (a, b, r) in [((0, 0), (7, 7), 1u32), ((i32::MIN, 0), (0, 0), 1), ((0, 0), (1, 1), u32::MAX)] {
        assert_eq!(
            canvas.can_draw_line(PxCoords { x: a.0, y: a.1 }, PxCoords { x: b.0, y: b.1 }, r),
            buffer.can_draw_line(CanvasPos { x: a.0, y: a.1 }, CanvasPos { x: b.0, y: b.1 }, r)
        );
    }
}
