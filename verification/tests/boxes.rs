use pixels_primitives::rect;
use pixels_primitives::rect_filled;
use pixels_primitives::square;
use pixels_primitives::square_filled;
use pixels_primitives::try_rect_filled;

const INK: [u8; 4] = [1, 2, 3, 4];

fn blank(width: usize, height: usize) -> Vec<u8> {
    vec![0; width * height * 4]
}

/// The pixels that hold the ink, row by row.
fn inked(frame: &[u8], width: usize) -> Vec<(i32, i32)> {
    let mut found = Vec::new();
    for (i, pixel) in frame.chunks_exact(4).enumerate() {
        if pixel == INK {
            found.push(((i % width) as i32, (i / width) as i32));
        } else {
            assert_eq!(pixel, [0, 0, 0, 0]);
        }
    }
    found
}

/// The pixels of the box from `low` to `high` that lie on the canvas; only
/// those on the border of the box when `border` is set.
fn boxed(
    width: i32,
    height: i32,
    low: (i32, i32),
    high: (i32, i32),
    border: bool,
) -> Vec<(i32, i32)> {
    let mut pixels = Vec::new();
    for y in 0..height {
        for x in 0..width {
            let inside = low.0 <= x && x <= high.0 && low.1 <= y && y <= high.1;
            let on_border = x == low.0 || x == high.0 || y == low.1 || y == high.1;
            if inside && (on_border || !border) {
                pixels.push((x, y));
            }
        }
    }
    pixels
}

#[test]
fn rect_outline_draws_each_edge() {
    let mut frame = blank(8, 6);
    rect(&mut frame, 8, 1, 1, 5, 4, &INK);
    assert_eq!(
        inked(&frame, 8),
        vec![
            (1, 1),
            (2, 1),
            (3, 1),
            (4, 1),
            (5, 1),
            (1, 2),
            (5, 2),
            (1, 3),
            (5, 3),
            (1, 4),
            (2, 4),
            (3, 4),
            (4, 4),
            (5, 4)
        ]
    );
}

#[test]
fn rect_outline_takes_its_corners_in_any_order() {
    let want = boxed(12, 12, (2, 3), (9, 7), true);
    for (a, b) in [((2, 3), (9, 7)), ((9, 7), (2, 3)), ((2, 7), (9, 3)), ((9, 3), (2, 7))] {
        let mut frame = blank(12, 12);
        rect(&mut frame, 12, a.0, a.1, b.0, b.1, &INK);
        assert_eq!(inked(&frame, 12), want, "{:?} and {:?}", a, b);
    }
}

#[test]
fn rect_outline_of_one_row_or_one_pixel() {
    let mut frame = blank(6, 6);
    rect(&mut frame, 6, 1, 2, 4, 2, &INK);
    assert_eq!(inked(&frame, 6), vec![(1, 2), (2, 2), (3, 2), (4, 2)]);
    let mut frame = blank(6, 6);
    rect(&mut frame, 6, 3, 3, 3, 3, &INK);
    assert_eq!(inked(&frame, 6), vec![(3, 3)]);
}

#[test]
fn rect_outline_is_clipped_at_the_canvas() {
    let mut frame = blank(6, 6);
    rect(&mut frame, 6, -2, 2, 3, 9, &INK);
    assert_eq!(inked(&frame, 6), boxed(6, 6, (-2, 2), (3, 9), true));
    assert_eq!(
        inked(&frame, 6),
        vec![(0, 2), (1, 2), (2, 2), (3, 2), (3, 3), (3, 4), (3, 5)]
    );
    let mut frame = blank(6, 6);
    rect(&mut frame, 6, -3, -3, 9, 9, &INK);
    assert_eq!(inked(&frame, 6), vec![]);
}

#[test]
fn rect_filled_covers_the_inclusive_box() {
    let mut frame = blank(8, 6);
    rect_filled(&mut frame, 8, 2, 1, 4, 3, &INK);
    assert_eq!(
        inked(&frame, 8),
        vec![(2, 1), (3, 1), (4, 1), (2, 2), (3, 2), (4, 2), (2, 3), (3, 3), (4, 3)]
    );
}

#[test]
fn rect_filled_of_one_pixel() {
    let mut frame = blank(4, 4);
    rect_filled(&mut frame, 4, 2, 3, 2, 3, &INK);
    assert_eq!(inked(&frame, 4), vec![(2, 3)]);
}

#[test]
fn rect_filled_is_clipped_at_the_canvas() {
    let mut frame = blank(5, 4);
    rect_filled(&mut frame, 5, -10, 2, 1, 50, &INK);
    assert_eq!(inked(&frame, 5), vec![(0, 2), (1, 2), (0, 3), (1, 3)]);
    let mut frame = blank(5, 4);
    rect_filled(&mut frame, 5, i32::MIN, i32::MIN, i32::MAX, i32::MAX, &INK);
    assert_eq!(inked(&frame, 5).len(), 20);
    let mut frame = blank(5, 4);
    rect_filled(&mut frame, 5, 5, 0, 9, 3, &INK);
    assert_eq!(inked(&frame, 5), vec![]);
    rect_filled(&mut frame, 5, 0, -9, 4, -1, &INK);
    assert_eq!(inked(&frame, 5), vec![]);
}

#[test]
fn try_rect_filled_draws_when_the_corners_are_in_order() {
    let mut frame = blank(8, 6);
    let mut want = blank(8, 6);
    assert!(try_rect_filled(&mut frame, 8, 2, 1, 4, 3, &INK));
    rect_filled(&mut want, 8, 2, 1, 4, 3, &INK);
    assert_eq!(frame, want);
    assert!(try_rect_filled(&mut frame, 8, 5, 5, 5, 5, &INK));
    assert_eq!(inked(&frame, 8).len(), 10);
}

#[test]
fn square_outline_with_an_odd_side() {
    // Half of 5 is 2.5: the edges lie at 22.5 and 27.5, rounded toward zero.
    let mut frame = blank(40, 40);
    square(&mut frame, 40, 25, 25, 5, &INK);
    assert_eq!(inked(&frame, 40), boxed(40, 40, (22, 22), (27, 27), true));
}

#[test]
fn square_outline_rounds_toward_zero_on_both_sides_of_it() {
    // Centre 1 and side 5: the edges lie at -1.5 and 3.5, so at -1 and 3.
    let mut frame = blank(8, 8);
    square(&mut frame, 8, 1, 1, 5, &INK);
    assert_eq!(inked(&frame, 8), boxed(8, 8, (-1, -1), (3, 3), true));
    assert_eq!(inked(&frame, 8), vec![(3, 0), (3, 1), (3, 2), (0, 3), (1, 3), (2, 3), (3, 3)]);
}

#[test]
fn square_outline_with_a_negative_side_is_the_same_square() {
    let mut frame = blank(20, 20);
    let mut want = blank(20, 20);
    square(&mut frame, 20, 10, 10, -6, &INK);
    square(&mut want, 20, 10, 10, 6, &INK);
    assert_eq!(frame, want);
    assert_eq!(inked(&frame, 20), boxed(20, 20, (7, 7), (13, 13), true));
}

#[test]
fn square_outline_of_side_zero_is_one_pixel() {
    let mut frame = blank(6, 6);
    square(&mut frame, 6, 2, 4, 0, &INK);
    assert_eq!(inked(&frame, 6), vec![(2, 4)]);
}

#[test]
fn square_outline_far_larger_than_the_canvas() {
    let mut frame = blank(6, 6);
    square(&mut frame, 6, 3, 3, i32::MAX, &INK);
    assert_eq!(inked(&frame, 6), vec![]);
    square(&mut frame, 6, i32::MAX, 3, i32::MAX, &INK);
    assert_eq!(inked(&frame, 6), vec![]);
    square(&mut frame, 6, i32::MIN, i32::MIN, i32::MIN, &INK);
    assert_eq!(inked(&frame, 6), vec![]);
}

#[test]
fn square_filled_covers_the_inclusive_box() {
    let mut frame = blank(50, 50);
    square_filled(&mut frame, 50, 25, 25, 10, &INK);
    assert_eq!(inked(&frame, 50), boxed(50, 50, (20, 20), (30, 30), false));
    assert_eq!(inked(&frame, 50).len(), 121);
}

#[test]
fn square_filled_with_an_odd_side() {
    let mut frame = blank(12, 12);
    square_filled(&mut frame, 12, 5, 6, 3, &INK);
    // The edges lie at 3.5 and 6.5 across, 4.5 and 7.5 down.
    assert_eq!(inked(&frame, 12), boxed(12, 12, (3, 4), (6, 7), false));
}

#[test]
fn square_filled_with_a_negative_side_draws_nothing() {
    let mut frame = blank(12, 12);
    square_filled(&mut frame, 12, 5, 6, -4, &INK);
    assert_eq!(inked(&frame, 12), vec![]);
    square_filled(&mut frame, 12, 5, 6, i32::MIN, &INK);
    assert_eq!(inked(&frame, 12), vec![]);
}

#[test]
fn square_filled_far_larger_than_the_canvas_fills_it() {
    let mut frame = blank(7, 5);
    square_filled(&mut frame, 7, 3, 3, i32::MAX, &INK);
    assert_eq!(inked(&frame, 7).len(), 35);
    let mut frame = blank(7, 5);
    square_filled(&mut frame, 7, i32::MAX, i32::MAX, i32::MAX, &INK);
    assert_eq!(inked(&frame, 7), vec![]);
}

#[test]
fn square_filled_is_the_outline_and_its_inside() {
    let mut outline = blank(30, 30);
    let mut filled = blank(30, 30);
    square(&mut outline, 30, 14, 15, 9, &INK);
    square_filled(&mut filled, 30, 14, 15, 9, &INK);
    let border = inked(&outline, 30);
    let all = inked(&filled, 30);
    assert!(border.iter().all(|p| all.contains(p)));
    assert_eq!(border, boxed(30, 30, (9, 10), (18, 19), true));
    assert_eq!(all, boxed(30, 30, (9, 10), (18, 19), false));
}
