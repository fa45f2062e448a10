//! Axis-aligned rectangles and squares, outlined and filled.

use crate::canvas::canvas_height;
use crate::canvas::canvas_ok;
use crate::canvas::color_position;
use crate::canvas::lemma_paint_clipped;
use crate::canvas::lemma_paint_nothing;
use crate::canvas::lemma_paint_one;
use crate::canvas::lemma_paint_union;
use crate::canvas::paint;
use crate::canvas::rows;
use crate::canvas::scanned;
use crate::lines::lemma_level_line;
use crate::lines::lemma_upright_line;
use crate::lines::line;
use crate::lines::line_pixels;
use crate::math::clamp;
use crate::math::clamped;
use crate::math::clip;
use crate::math::div_toward_zero;
use vstd::prelude::*;

verus! {

/// The pixels `(x, y)` with `left <= x <= right` and `top <= y <= bottom`.
/// There are none when a lower bound lies above its upper bound.
pub open spec fn box_pixels(left: int, top: int, right: int, bottom: int) -> Set<(int, int)> {
    Set::new(|p: (int, int)| left <= p.0 <= right && top <= p.1 <= bottom)
}

/// The four edges of the rectangle with opposite corners `(xa, ya)` and
/// `(xb, yb)`, given in any order: the pixels of the rectangle that share a
/// coordinate with one of the corners.
pub open spec fn outline_pixels(xa: int, ya: int, xb: int, yb: int) -> Set<(int, int)> {
    Set::new(
        |p: (int, int)|
            (xa <= p.0 <= xb || xb <= p.0 <= xa) && (ya <= p.1 <= yb || yb <= p.1 <= ya) && (p.0
                == xa || p.0 == xb || p.1 == ya || p.1 == yb),
    )
}

/// The outline of a rectangle lies within the filled rectangle of the same
/// corners.
pub proof fn lemma_outline_within_box(left: int, top: int, right: int, bottom: int)
    requires
        left <= right,
        top <= bottom,
    ensures
        outline_pixels(left, top, right, bottom).subset_of(box_pixels(left, top, right, bottom)),
{
}

/// Fills the pixels `(x, y)` with `left <= x <= right` and `top <= y <=
/// bottom`, as far as they lie on the canvas.
fn fill_box(
    frame: &mut [u8],
    canvas_width: i32,
    left: i64,
    top: i64,
    right: i64,
    bottom: i64,
    rgba: &[u8; 4],
)
    requires
        canvas_ok(old(frame)@.len(), canvas_width as int),
        right < i64::MAX,
        bottom < i64::MAX,
    ensures
        final(frame)@ == paint(
            old(frame)@,
            canvas_width as int,
            box_pixels(left as int, top as int, right as int, bottom as int),
            rgba@,
        ),
{
    let height: i32 = canvas_height(frame, canvas_width);
    let (x_from, x_to): (i32, i32) = clip(left, right, canvas_width);
    let (y_from, y_to): (i32, i32) = clip(top, bottom, height);
    let ghost before = frame@;
    let ghost width = canvas_width as int;
    let ghost shape = box_pixels(left as int, top as int, right as int, bottom as int);
    let ghost window = (x_from as int, x_to as int, y_from as int);

    proof {
        lemma_paint_nothing(before, width, rgba@);
        assert(scanned(shape, window, x_from as int, y_from as int) =~= Set::empty());
    }
    let mut y: i32 = y_from;
    while y < y_to
        invariant
            frame@ == paint(before, width, scanned(shape, window, x_from as int, y as int), rgba@),
            frame@.len() == before.len(),
            0 <= height == rows(before.len(), width),
            4 * (canvas_width * height) <= before.len(),
            width == canvas_width > 0,
            window == (x_from as int, x_to as int, y_from as int),
            shape == box_pixels(left as int, top as int, right as int, bottom as int),
            x_from == clamped(left as int, 0, width),
            x_to == clamped(right + 1, 0, width),
            y_from == clamped(top as int, 0, height as int),
            y_to == clamped(bottom + 1, 0, height as int),
            y_from <= y,
        decreases y_to - y,
    {
        let mut x: i32 = x_from;
        while x < x_to
            invariant
                frame@ == paint(before, width, scanned(shape, window, x as int, y as int), rgba@),
                frame@.len() == before.len(),
                0 <= height == rows(before.len(), width),
                4 * (canvas_width * height) <= before.len(),
                width == canvas_width > 0,
                window == (x_from as int, x_to as int, y_from as int),
                shape == box_pixels(left as int, top as int, right as int, bottom as int),
                x_from == clamped(left as int, 0, width),
                x_to == clamped(right + 1, 0, width),
                y_from == clamped(top as int, 0, height as int),
                y_to == clamped(bottom + 1, 0, height as int),
                y_from <= y < y_to,
                x_from <= x,
            decreases x_to - x,
        {
            let ghost drawn = frame@;
            color_position(x, y, canvas_width, height, frame, rgba);
            proof {
                lemma_paint_one(drawn, width, x as int, y as int, rgba@);
                lemma_paint_union(
                    before,
                    width,
                    scanned(shape, window, x as int, y as int),
                    set![(x as int, y as int)],
                    rgba@,
                );
                assert(shape.contains((x as int, y as int)));
                assert(scanned(shape, window, x as int, y as int).union(
                    set![(x as int, y as int)],
                ) =~= scanned(shape, window, x + 1, y as int));
            }
            x += 1;
        }
        proof {
            assert(scanned(shape, window, x as int, y as int) =~= scanned(
                shape,
                window,
                x_from as int,
                y + 1,
            ));
        }
        y += 1;
    }
    proof {
        lemma_paint_clipped(
            before,
            width,
            scanned(shape, window, x_from as int, y as int),
            shape,
            rgba@,
        );
    }
}

/// Fills the rectangle whose corners of smallest and of largest coordinates
/// are `(bottom_left_x, bottom_left_y)` and `(top_right_x, top_right_y)`,
/// edges included.
///
/// Rows are counted downward on the canvas, so the corner called bottom left
/// is the one shown at the top left.
pub fn rect_filled(
    frame: &mut [u8],
    canvas_width: i32,
    bottom_left_x: i32,
    bottom_left_y: i32,
    top_right_x: i32,
    top_right_y: i32,
    rgba: &[u8; 4],
)
    requires
        canvas_ok(old(frame)@.len(), canvas_width as int),
        bottom_left_x <= top_right_x,
        bottom_left_y <= top_right_y,
    ensures
        final(frame)@ == paint(
            old(frame)@,
            canvas_width as int,
            box_pixels(
                bottom_left_x as int,
                bottom_left_y as int,
                top_right_x as int,
                top_right_y as int,
            ),
            rgba@,
        ),
{
    fill_box(
        frame,
        canvas_width,
        bottom_left_x as i64,
        bottom_left_y as i64,
        top_right_x as i64,
        top_right_y as i64,
        rgba,
    );
}

/// Fills the rectangle as `rect_filled` does when the corners are in order,
/// and reports whether they were. With corners out of order the frame is left
/// as it is.
pub fn try_rect_filled(
    frame: &mut [u8],
    canvas_width: i32,
    bottom_left_x: i32,
    bottom_left_y: i32,
    top_right_x: i32,
    top_right_y: i32,
    rgba: &[u8; 4],
) -> (drawn: bool)
    requires
        canvas_ok(old(frame)@.len(), canvas_width as int),
    ensures
        drawn <==> bottom_left_x <= top_right_x && bottom_left_y <= top_right_y,
        final(frame)@ == if drawn {
            paint(
                old(frame)@,
                canvas_width as int,
                box_pixels(
                    bottom_left_x as int,
                    bottom_left_y as int,
                    top_right_x as int,
                    top_right_y as int,
                ),
                rgba@,
            )
        } else {
            old(frame)@
        },
{
    if bottom_left_x <= top_right_x && bottom_left_y <= top_right_y {
        rect_filled(
            frame,
            canvas_width,
            bottom_left_x,
            bottom_left_y,
            top_right_x,
            top_right_y,
            rgba,
        );
        true
    } else {
        false
    }
}

/// Draws the four edges of the rectangle with opposite corners
/// `(bottom_left_x, bottom_left_y)` and `(top_right_x, top_right_y)`, each
/// edge once. The corners may be given in any order.
///
/// Rows are counted downward on the canvas, so the corner called bottom left
/// is the one shown at the top left.
pub fn rect(
    frame: &mut [u8],
    canvas_width: i32,
    bottom_left_x: i32,
    bottom_left_y: i32,
    top_right_x: i32,
    top_right_y: i32,
    rgba: &[u8; 4],
)
    requires
        canvas_ok(old(frame)@.len(), canvas_width as int),
    ensures
        final(frame)@ == paint(
            old(frame)@,
            canvas_width as int,
            outline_pixels(
                bottom_left_x as int,
                bottom_left_y as int,
                top_right_x as int,
                top_right_y as int,
            ),
            rgba@,
        ),
{
    let ghost before = frame@;
    let ghost width = canvas_width as int;
    let ghost (xa, ya, xb, yb) = (
        bottom_left_x as int,
        bottom_left_y as int,
        top_right_x as int,
        top_right_y as int,
    );

    line(frame, canvas_width, bottom_left_x, bottom_left_y, bottom_left_x, top_right_y, rgba);
    line(frame, canvas_width, bottom_left_x, bottom_left_y, top_right_x, bottom_left_y, rgba);
    line(frame, canvas_width, top_right_x, bottom_left_y, top_right_x, top_right_y, rgba);
    line(frame, canvas_width, top_right_x, top_right_y, bottom_left_x, top_right_y, rgba);

    proof {
        let first = line_pixels(xa, ya, xa, yb);
        let second = line_pixels(xa, ya, xb, ya);
        let third = line_pixels(xb, ya, xb, yb);
        let fourth = line_pixels(xb, yb, xa, yb);
        lemma_upright_line(xa, ya, yb);
        lemma_level_line(xa, xb, ya);
        lemma_upright_line(xb, ya, yb);
        lemma_level_line(xb, xa, yb);
        lemma_paint_union(before, width, first, second, rgba@);
        lemma_paint_union(before, width, first.union(second), third, rgba@);
        lemma_paint_union(before, width, first.union(second).union(third), fourth, rgba@);
        assert(first.union(second).union(third).union(fourth) =~= outline_pixels(xa, ya, xb, yb));
    }
}

/// The smaller coordinate of a square's edges on one axis: the centre less
/// half the side length, rounded toward zero.
pub open spec fn square_low(center: int, side_length: int) -> int {
    div_toward_zero(2 * center - side_length, 2)
}

/// The larger coordinate of a square's edges on one axis: the centre plus
/// half the side length, rounded toward zero.
pub open spec fn square_high(center: int, side_length: int) -> int {
    div_toward_zero(2 * center + side_length, 2)
}

/// The two edge coordinates of a square on one axis.
fn square_bounds(center: i32, side_length: i32) -> (bounds: (i64, i64))
    ensures
        bounds.0 == square_low(center as int, side_length as int),
        bounds.1 == square_high(center as int, side_length as int),
        -0x1_0000_0000 <= bounds.0 <= 0x1_0000_0000,
        -0x1_0000_0000 <= bounds.1 <= 0x1_0000_0000,
{
    let doubled: i64 = 2 * (center as i64);
    ((doubled - side_length as i64) / 2, (doubled + side_length as i64) / 2)
}

/// The coordinate as an `i32`, a coordinate beyond the range of `i32` moved
/// to the nearest end of that range.
fn saturate(coordinate: i64) -> (saturated: i32)
    ensures
        saturated == clamped(coordinate as int, i32::MIN as int, i32::MAX as int),
{
    let saturated: i64 = clamp(coordinate, i32::MIN as i64, i32::MAX as i64);
    saturated as i32
}

/// Draws the four edges of the square centred at `(center_x, center_y)`, each
/// edge once. The edges lie half the side length from the centre, rounded
/// toward zero.
pub fn square(
    frame: &mut [u8],
    canvas_width: i32,
    center_x: i32,
    center_y: i32,
    side_length: i32,
    rgba: &[u8; 4],
)
    requires
        canvas_ok(old(frame)@.len(), canvas_width as int),
    ensures
        final(frame)@ == paint(
            old(frame)@,
            canvas_width as int,
            outline_pixels(
                square_low(center_x as int, side_length as int),
                square_low(center_y as int, side_length as int),
                square_high(center_x as int, side_length as int),
                square_high(center_y as int, side_length as int),
            ),
            rgba@,
        ),
{
    let ghost before = frame@;
    let (left, right): (i64, i64) = square_bounds(center_x, side_length);
    let (top, bottom): (i64, i64) = square_bounds(center_y, side_length);
    let near_x: i32 = saturate(left);
    let near_y: i32 = saturate(top);
    let far_x: i32 = saturate(right);
    let far_y: i32 = saturate(bottom);
    rect(frame, canvas_width, near_x, near_y, far_x, far_y, rgba);
    proof {
        // A coordinate that saturates lies off the canvas before and after.
        lemma_paint_clipped(
            before,
            canvas_width as int,
            outline_pixels(near_x as int, near_y as int, far_x as int, far_y as int),
            outline_pixels(left as int, top as int, right as int, bottom as int),
            rgba@,
        );
    }
}

/// Fills the square centred at `(center_x, center_y)`, edges included. The
/// edges lie half the side length from the centre, rounded toward zero; with
/// a negative side length nothing is drawn.
pub fn square_filled(
    frame: &mut [u8],
    canvas_width: i32,
    center_x: i32,
    center_y: i32,
    side_length: i32,
    rgba: &[u8; 4],
)
    requires
        canvas_ok(old(frame)@.len(), canvas_width as int),
    ensures
        final(frame)@ == paint(
            old(frame)@,
            canvas_width as int,
            box_pixels(
                square_low(center_x as int, side_length as int),
                square_low(center_y as int, side_length as int),
                square_high(center_x as int, side_length as int),
                square_high(center_y as int, side_length as int),
            ),
            rgba@,
        ),
{
    let (left, right): (i64, i64) = square_bounds(center_x, side_length);
    let (top, bottom): (i64, i64) = square_bounds(center_y, side_length);
    fill_box(frame, canvas_width, left, top, right, bottom, rgba);
}

} // verus!
