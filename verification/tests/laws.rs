use pixels_primitives::circle;
use pixels_primitives::circle_filled;
use pixels_primitives::lines;
use pixels_primitives::rect;
use pixels_primitives::rect_filled;
use pixels_primitives::square;
use pixels_primitives::square_filled;
use pixels_primitives::triangle;
use pixels_primitives::triangle_filled;

const INK: [u8; 4] = [250, 128, 0, 255];
const OTHER: [u8; 4] = [5, 6, 7, 8];

/// A frame of 16 by 12 pixels in which every byte differs from its neighbours.
fn patterned() -> Vec<u8> {
    (0..16 * 12 * 4).map(|i| (i * 7 % 251) as u8).collect()
}

/// Draws once and twice, and expects the same frame.
fn twice(draw: &dyn Fn(&mut [u8])) {
    let mut once = patterned();
    draw(&mut once);
    let mut again = once.clone();
    draw(&mut again);
    assert_eq!(once, again);
    assert_ne!(once, patterned());
}

#[test]
fn drawing_a_line_twice_is_drawing_it_once() {
    twice(&|frame| lines::line(frame, 16, 1, 2, 14, 9, &INK));
    twice(&|frame| lines::line(frame, 16, -4, 11, 20, -3, &INK));
}

#[test]
fn drawing_a_circle_twice_is_drawing_it_once() {
    twice(&|frame| circle(frame, 16, 8, 6, 5, 2, &INK));
    twice(&|frame| circle_filled(frame, 16, 14, 2, 6, &INK));
}

#[test]
fn drawing_a_box_twice_is_drawing_it_once() {
    twice(&|frame| rect(frame, 16, 2, 2, 20, 9, &INK));
    twice(&|frame| rect_filled(frame, 16, -3, 4, 7, 30, &INK));
    twice(&|frame| square(frame, 16, 8, 6, 7, &INK));
    twice(&|frame| square_filled(frame, 16, 8, 6, 7, &INK));
}

#[test]
fn drawing_a_triangle_twice_is_drawing_it_once() {
    twice(&|frame| triangle(frame, 16, 1, 1, 14, 4, 6, 11, &INK));
    twice(&|frame| triangle_filled(frame, 16, 1, 1, 14, 4, 6, 11, &INK));
    twice(&|frame| triangle_filled(frame, 16, -5, 3, 30, 3, 2, 3, &INK));
}

#[test]
fn drawing_changes_only_the_pixels_of_the_shape() {
    let before = patterned();
    let mut frame = before.clone();
    rect_filled(&mut frame, 16, 3, 2, 5, 4, &INK);
    for (i, (now, then)) in frame.chunks_exact(4).zip(before.chunks_exact(4)).enumerate() {
        let (x, y) = (i % 16, i / 16);
        if (3..=5).contains(&x) && (2..=4).contains(&y) {
            assert_eq!(now, INK);
        } else {
            assert_eq!(now, then);
        }
    }
}

#[test]
fn a_later_shape_replaces_an_earlier_colour() {
    let mut frame = patterned();
    circle_filled(&mut frame, 16, 8, 6, 4, &INK);
    rect_filled(&mut frame, 16, 8, 6, 9, 7, &OTHER);
    let at = |x: usize, y: usize| (y * 16 + x) * 4;
    assert_eq!(&frame[at(8, 6)..at(8, 6) + 4], &OTHER);
    assert_eq!(&frame[at(9, 7)..at(9, 7) + 4], &OTHER);
    assert_eq!(&frame[at(7, 6)..at(7, 6) + 4], &INK);
    assert_eq!(&frame[at(8, 2)..at(8, 2) + 4], &INK);
}

#[test]
fn shapes_drawn_in_either_order_give_the_same_frame() {
    let mut one = patterned();
    lines::line(&mut one, 16, 0, 0, 15, 11, &INK);
    circle(&mut one, 16, 8, 6, 4, 1, &INK);
    let mut other = patterned();
    circle(&mut other, 16, 8, 6, 4, 1, &INK);
    lines::line(&mut other, 16, 0, 0, 15, 11, &INK);
    assert_eq!(one, other);
}

#[test]
fn a_line_drawn_backward_is_the_line_drawn_forward() {
    for (from, to) in [
        ((0, 0), (15, 11)),
        ((3, 10), (12, 1)),
        ((7, -5), (9, 30)),
        ((-20, 6), (40, 5)),
        ((5, 5), (5, 5)),
        ((1, 2), (2, 4)),
        ((2, 1), (4, 2)),
    ] {
        let mut forward = patterned();
        let mut backward = patterned();
        lines::line(&mut forward, 16, from.0, from.1, to.0, to.1, &INK);
        lines::line(&mut backward, 16, to.0, to.1, from.0, from.1, &INK);
        assert_eq!(forward, backward, "{:?} and {:?}", from, to);
    }
}
