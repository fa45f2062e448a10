use pixels_primitives::canvas::canvas_height;
use pixels_primitives::canvas::color_position;
use pixels_primitives::canvas::get_starting_pixel_index;
use pixels_primitives::circle_filled;
use pixels_primitives::lines;
use pixels_primitives::rect;
use pixels_primitives::rect_filled;
use pixels_primitives::square_filled;
use pixels_primitives::triangle;
use pixels_primitives::triangle_filled;

const INK: [u8; 4] = [11, 22, 33, 44];

#[test]
fn pixel_index_counts_four_bytes_a_pixel_row_by_row() {
    assert_eq!(get_starting_pixel_index(0, 0, 10), 0);
    assert_eq!(get_starting_pixel_index(1, 0, 10), 4);
    assert_eq!(get_starting_pixel_index(9, 0, 10), 36);
    assert_eq!(get_starting_pixel_index(0, 1, 10), 40);
    assert_eq!(get_starting_pixel_index(3, 2, 10), 92);
    assert_eq!(get_starting_pixel_index(799, 599, 800), (599 * 800 + 799) * 4);
    assert_eq!(get_starting_pixel_index(799, 599, 800), 1_919_996);
    assert_eq!(get_starting_pixel_index(5, 0, 0), 20);
    assert_eq!(get_starting_pixel_index(0, 46_340, 46_340), 8_589_582_400);
}

#[test]
fn canvas_height_counts_the_complete_rows() {
    assert_eq!(canvas_height(&[0u8; 400], 10), 10);
    assert_eq!(canvas_height(&[0u8; 400], 5), 20);
    assert_eq!(canvas_height(&[0u8; 400], 100), 1);
    assert_eq!(canvas_height(&[0u8; 400], 101), 0);
    assert_eq!(canvas_height(&[0u8; 439], 10), 10);
    assert_eq!(canvas_height(&[0u8; 440], 10), 11);
    assert_eq!(canvas_height(&[], 3), 0);
}

#[test]
fn color_position_overwrites_the_four_bytes_of_the_pixel() {
    let mut frame = vec![7u8; 3 * 2 * 4];
    color_position(1, 1, 3, 2, &mut frame, &INK);
    let mut want = vec![7u8; 3 * 2 * 4];
    want[16..20].copy_from_slice(&INK);
    assert_eq!(frame, want);
    color_position(0, 0, 3, 2, &mut frame, &INK);
    want[0..4].copy_from_slice(&INK);
    assert_eq!(frame, want);
    color_position(2, 1, 3, 2, &mut frame, &[1, 2, 3, 4]);
    want[20..24].copy_from_slice(&[1, 2, 3, 4]);
    assert_eq!(frame, want);
}

#[test]
fn color_position_replaces_an_earlier_colour() {
    let mut frame = vec![0u8; 16];
    color_position(1, 0, 2, 2, &mut frame, &[200, 200, 200, 128]);
    color_position(1, 0, 2, 2, &mut frame, &[1, 0, 0, 1]);
    assert_eq!(frame, vec![0, 0, 0, 0, 1, 0, 0, 1, 0, 0, 0, 0, 0, 0, 0, 0]);
}

#[test]
fn color_position_outside_the_canvas_does_nothing() {
    let mut frame = vec![7u8; 3 * 2 * 4];
    let before = frame.clone();
    for (x, y) in [
        (-1, 0),
        (0, -1),
        (3, 0),
        (0, 2),
        (3, 2),
        (-1, -1),
        (i32::MIN, 1),
        (1, i32::MAX),
        (i32::MAX, i32::MAX),
    ] {
        color_position(x, y, 3, 2, &mut frame, &INK);
        assert_eq!(frame, before, "({}, {})", x, y);
    }
}

#[test]
fn color_position_on_a_canvas_without_area_does_nothing() {
    let mut frame = vec![7u8; 8];
    let before = frame.clone();
    color_position(0, 0, 0, 5, &mut frame, &INK);
    color_position(0, 0, 5, 0, &mut frame, &INK);
    color_position(0, 0, -3, 5, &mut frame, &INK);
    color_position(0, 0, 5, -3, &mut frame, &INK);
    assert_eq!(frame, before);
    let mut empty: Vec<u8> = Vec::new();
    color_position(0, 0, 1, 0, &mut empty, &INK);
    assert!(empty.is_empty());
}

#[test]
fn color_position_keeps_to_the_height_it_is_given() {
    let mut frame = vec![0u8; 4 * 4 * 4];
    color_position(1, 2, 4, 2, &mut frame, &INK);
    assert_eq!(frame, vec![0u8; 4 * 4 * 4]);
    color_position(1, 1, 4, 2, &mut frame, &INK);
    assert_eq!(&frame[20..24], &INK);
}

/// Draws one of each shape over and around the canvas.
fn draw_everything(frame: &mut [u8], width: i32) {
    lines::line(frame, width, -7, -3, 12, 9, &INK);
    lines::line(frame, width, 2, 40, 3, -40, &INK);
    rect(frame, width, -2, 1, 30, 3, &INK);
    rect_filled(frame, width, 3, -5, 4, 50, &INK);
    square_filled(frame, width, 0, 0, 3, &INK);
    circle_filled(frame, width, 5, 5, 3, &INK);
    triangle(frame, width, -1, -1, 9, 2, 4, 12, &INK);
    triangle_filled(frame, width, 6, -2, -3, 4, 9, 9, &INK);
}

#[test]
fn shapes_leave_the_bytes_behind_the_last_complete_row() {
    // Five complete rows of six pixels, and half a row more.
    let mut frame = vec![0u8; 6 * 5 * 4 + 14];
    draw_everything(&mut frame, 6);
    assert!(frame[..6 * 5 * 4].chunks_exact(4).any(|pixel| pixel == INK));
    assert_eq!(&frame[6 * 5 * 4..], &[0u8; 14]);
}

#[test]
fn shapes_on_a_frame_without_a_complete_row_draw_nothing() {
    let mut frame = vec![0u8; 23];
    draw_everything(&mut frame, 6);
    assert_eq!(frame, vec![0u8; 23]);
    let mut empty: Vec<u8> = Vec::new();
    draw_everything(&mut empty, 6);
    assert!(empty.is_empty());
}

#[test]
fn shapes_follow_the_width_they_are_given() {
    // The same 48 bytes as four rows of three pixels and as two rows of six.
    let mut narrow = vec![0u8; 48];
    let mut wide = vec![0u8; 48];
    rect_filled(&mut narrow, 3, 1, 1, 2, 2, &INK);
    rect_filled(&mut wide, 6, 1, 1, 2, 2, &INK);
    let inked = |frame: &[u8]| -> Vec<usize> {
        frame
            .chunks_exact(4)
            .enumerate()
            .filter(|(_, pixel)| *pixel == INK)
            .map(|(i, _)| i)
            .collect()
    };
    assert_eq!(inked(&narrow), vec![4, 5, 7, 8]);
    assert_eq!(inked(&wide), vec![7, 8]);
}
