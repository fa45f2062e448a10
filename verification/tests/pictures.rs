use pixels_primitives::circle_filled;
use pixels_primitives::lines;
use pixels_primitives::square;
use pixels_primitives::triangle_filled;
use pixels_primitives::try_rect_filled;

const BLACK: [u8; 4] = [0, 0, 0, 255];
const WHITE: [u8; 4] = [255, 255, 255, 255];
const RED: [u8; 4] = [255, 0, 0, 255];
const GREEN: [u8; 4] = [0, 255, 0, 255];
const BLUE: [u8; 4] = [0, 0, 255, 255];

fn canvas(width: usize, height: usize) -> Vec<u8> {
    let mut frame = Vec::with_capacity(width * height * 4);
    for _ in 0..width * height {
        frame.extend_from_slice(&BLACK);
    }
    frame
}

fn pixel(frame: &[u8], width: usize, x: usize, y: usize) -> [u8; 4] {
    let at = (y * width + x) * 4;
    [frame[at], frame[at + 1], frame[at + 2], frame[at + 3]]
}

#[test]
fn filled_circle_of_radius_three() {
    let mut frame = canvas(10, 10);
    circle_filled(&mut frame, 10, 5, 5, 3, &WHITE);
    let mut white = 0;
    for y in 0..10usize {
        for x in 0..10usize {
            let dx = x as i32 - 5;
            let dy = y as i32 - 5;
            let expected = if dx * dx + dy * dy <= 9 { WHITE } else { BLACK };
            assert_eq!(pixel(&frame, 10, x, y), expected, "pixel ({}, {})", x, y);
            if expected == WHITE {
                white += 1;
            }
        }
    }
    assert_eq!(white, 29);
    assert_eq!(pixel(&frame, 10, 5, 2), WHITE);
    assert_eq!(pixel(&frame, 10, 8, 5), WHITE);
    assert_eq!(pixel(&frame, 10, 7, 7), WHITE);
    assert_eq!(pixel(&frame, 10, 8, 6), BLACK);
    assert_eq!(pixel(&frame, 10, 5, 1), BLACK);
}

#[test]
fn zero_length_line_is_one_pixel() {
    let mut frame = canvas(100, 100);
    lines::line(&mut frame, 100, 10, 10, 10, 10, &RED);
    for y in 0..100usize {
        for x in 0..100usize {
            let expected = if x == 10 && y == 10 { RED } else { BLACK };
            assert_eq!(pixel(&frame, 100, x, y), expected, "pixel ({}, {})", x, y);
        }
    }
}

#[test]
fn filled_rect_with_corners_out_of_order_is_refused() {
    let mut frame = canvas(50, 50);
    let before = frame.clone();
    let drawn = try_rect_filled(&mut frame, 50, 5, 5, 2, 2, &BLUE);
    assert!(!drawn);
    assert_eq!(frame, before);
}

#[test]
fn filled_rect_with_one_axis_out_of_order_is_refused() {
    let mut frame = canvas(50, 50);
    let before = frame.clone();
    assert!(!try_rect_filled(&mut frame, 50, 5, 2, 2, 5, &BLUE));
    assert!(!try_rect_filled(&mut frame, 50, 2, 5, 5, 2, &BLUE));
    assert_eq!(frame, before);
}

#[test]
fn square_outline_is_its_four_edges() {
    let mut frame = canvas(50, 50);
    square(&mut frame, 50, 25, 25, 10, &GREEN);
    let mut green = 0;
    for y in 0..50usize {
        for x in 0..50usize {
            let inside = (20..=30).contains(&x) && (20..=30).contains(&y);
            let on_edge = inside && (x == 20 || x == 30 || y == 20 || y == 30);
            let expected = if on_edge { GREEN } else { BLACK };
            assert_eq!(pixel(&frame, 50, x, y), expected, "pixel ({}, {})", x, y);
            if on_edge {
                green += 1;
            }
        }
    }
    assert_eq!(green, 40);
    for corner in [(20, 20), (30, 20), (20, 30), (30, 30)] {
        assert_eq!(pixel(&frame, 50, corner.0, corner.1), GREEN);
    }
}

#[test]
fn filled_triangle_with_flat_top() {
    let mut frame = canvas(20, 20);
    triangle_filled(&mut frame, 20, 0, 0, 10, 0, 5, 10, &WHITE);
    // Each row, from the flat edge down to the apex, as (first, last) column.
    let spans: [(usize, usize); 11] = [
        (0, 10),
        (0, 9),
        (1, 9),
        (1, 8),
        (2, 8),
        (2, 7),
        (3, 7),
        (3, 6),
        (4, 6),
        (4, 5),
        (5, 5),
    ];
    for y in 0..20usize {
        for x in 0..20usize {
            let filled = y <= 10 && spans[y].0 <= x && x <= spans[y].1;
            let expected = if filled { WHITE } else { BLACK };
            assert_eq!(pixel(&frame, 20, x, y), expected, "pixel ({}, {})", x, y);
        }
    }
    for y in 0..=10usize {
        // No row is empty, so the two halves of the sweep leave no gap, and
        // each row mirrors about x = 5 up to the one pixel that rounding the
        // two edges toward zero costs.
        let (first, last) = spans[y];
        assert!(first <= last);
        assert!(first + last == 10 || first + last == 9);
        assert!(first <= 5 && 5 <= last);
    }
    for y in (0..=10usize).step_by(2) {
        assert_eq!(spans[y].0 + spans[y].1, 10);
    }
}
