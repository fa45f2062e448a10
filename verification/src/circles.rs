//! Circles, outlined and filled, by a distance test on every pixel of the
//! bounding box.
//!
//! Distances are compared by their squares, which orders integer points
//! exactly as the distances themselves do.

use crate::canvas::canvas_height;
use crate::canvas::canvas_ok;
use crate::canvas::color_position;
use crate::canvas::lemma_paint_clipped;
use crate::canvas::lemma_paint_nothing;
use crate::canvas::lemma_paint_one;
use crate::canvas::lemma_paint_union;
use crate::canvas::on_canvas;
use crate::canvas::paint;
use crate::canvas::rows;
use crate::canvas::scanned;
use crate::math::clip;
use crate::math::distance_squared;
use crate::math::squared_distance;
use vstd::prelude::*;

verus! {

/// Whether `(x, y)` lies at a distance of at most `reach` from the centre.
/// No point lies within a negative distance.
pub open spec fn at_most(center_x: int, center_y: int, x: int, y: int, reach: int) -> bool {
    reach >= 0 && squared_distance(center_x, center_y, x, y) <= reach * reach
}

/// Whether `(x, y)` lies at a distance of at least `reach` from the centre.
/// Every point lies at least a negative distance away.
pub open spec fn at_least(center_x: int, center_y: int, x: int, y: int, reach: int) -> bool {
    reach <= 0 || squared_distance(center_x, center_y, x, y) >= reach * reach
}

/// The pixels of a filled circle: those at most `radius` from the centre.
pub open spec fn disc_pixels(center_x: int, center_y: int, radius: int) -> Set<(int, int)> {
    Set::new(|p: (int, int)| at_most(center_x, center_y, p.0, p.1, radius))
}

/// The pixels of a circle's outline: those at most `radius` and at least
/// `radius - outline_width` from the centre.
pub open spec fn ring_pixels(center_x: int, center_y: int, radius: int, outline_width: int) -> Set<
    (int, int),
> {
    Set::new(
        |p: (int, int)|
            at_most(center_x, center_y, p.0, p.1, radius) && at_least(
                center_x,
                center_y,
                p.0,
                p.1,
                radius - outline_width,
            ),
    )
}

/// The outline of a circle, of whatever width, lies within the filled circle
/// of the same centre and radius.
pub proof fn lemma_outline_within_fill(
    center_x: int,
    center_y: int,
    radius: int,
    outline_width: int,
)
    ensures
        ring_pixels(center_x, center_y, radius, outline_width).subset_of(
            disc_pixels(center_x, center_y, radius),
        ),
{
}

/// An outline at least as wide as the radius is the filled circle.
pub proof fn lemma_wide_outline_is_fill(
    center_x: int,
    center_y: int,
    radius: int,
    outline_width: int,
)
    requires
        outline_width >= radius,
    ensures
        ring_pixels(center_x, center_y, radius, outline_width) == disc_pixels(
            center_x,
            center_y,
            radius,
        ),
{
    assert(ring_pixels(center_x, center_y, radius, outline_width) =~= disc_pixels(
        center_x,
        center_y,
        radius,
    ));
}

/// A point at most `reach` from the centre lies in the square of that half
/// width around the centre.
pub proof fn lemma_within_bounding_box(center_x: int, center_y: int, x: int, y: int, reach: int)
    requires
        at_most(center_x, center_y, x, y, reach),
    ensures
        center_x - reach <= x <= center_x + reach,
        center_y - reach <= y <= center_y + reach,
{
    let dx = center_x - x;
    let dy = center_y - y;
    assert(dx * dx <= reach * reach && dy * dy <= reach * reach) by (nonlinear_arith)
        requires
            dx * dx + dy * dy <= reach * reach,
    ;
    assert(-reach <= dx <= reach) by (nonlinear_arith)
        requires
            dx * dx <= reach * reach,
            reach >= 0,
    ;
    assert(-reach <= dy <= reach) by (nonlinear_arith)
        requires
            dy * dy <= reach * reach,
            reach >= 0,
    ;
}

/// Whether `(x, y)` lies at most `radius` and at least `inner` from the
/// centre.
fn in_ring(center_x: i32, center_y: i32, x: i32, y: i32, radius: i32, inner: i64) -> (inside: bool)
    requires
        -0x1_0000_0000 <= inner <= 0x1_0000_0000,
    ensures
        inside == (at_most(center_x as int, center_y as int, x as int, y as int, radius as int)
            && at_least(center_x as int, center_y as int, x as int, y as int, inner as int)),
{
    if radius < 0 {
        return false;
    }
    let squared: i128 = distance_squared(center_x, center_y, x, y);
    let reach: i128 = radius as i128;
    let hole: i128 = inner as i128;
    assert(0 <= reach * reach <= 0x1_0000_0000 * 0x1_0000_0000) by (nonlinear_arith)
        requires
            0 <= reach <= 0x1_0000_0000,
    ;
    assert(0 <= hole * hole <= 0x1_0000_0000 * 0x1_0000_0000) by (nonlinear_arith)
        requires
            -0x1_0000_0000 <= hole <= 0x1_0000_0000,
    ;
    squared <= reach * reach && (hole <= 0 || squared >= hole * hole)
}

/// Draws the pixels that lie at most `radius` and at least `inner` from the
/// centre.
fn ring(
    frame: &mut [u8],
    canvas_width: i32,
    center_x: i32,
    center_y: i32,
    radius: i32,
    inner: i64,
    rgba: &[u8; 4],
)
    requires
        canvas_ok(old(frame)@.len(), canvas_width as int),
        -0x1_0000_0000 <= inner <= 0x1_0000_0000,
    ensures
        final(frame)@ == paint(
            old(frame)@,
            canvas_width as int,
            Set::new(
                |p: (int, int)|
                    at_most(center_x as int, center_y as int, p.0, p.1, radius as int) && at_least(
                        center_x as int,
                        center_y as int,
                        p.0,
                        p.1,
                        inner as int,
                    ),
            ),
            rgba@,
        ),
{
    let height: i32 = canvas_height(frame, canvas_width);
    let ghost before = frame@;
    let ghost width = canvas_width as int;
    let ghost shape = Set::new(
        |p: (int, int)|
            at_most(center_x as int, center_y as int, p.0, p.1, radius as int) && at_least(
                center_x as int,
                center_y as int,
                p.0,
                p.1,
                inner as int,
            ),
    );
    let (x_from, x_to): (i32, i32) = clip(
        center_x as i64 - radius as i64,
        center_x as i64 + radius as i64,
        canvas_width,
    );
    let (y_from, y_to): (i32, i32) = clip(
        center_y as i64 - radius as i64,
        center_y as i64 + radius as i64,
        height,
    );
    let ghost window = (x_from as int, x_to as int, y_from as int);

    proof {
        lemma_paint_nothing(before, width, rgba@);
        assert(scanned(shape, window, x_from as int, y_from as int) =~= Set::empty());
    }
    let mut y: i32 = y_from;
    while y < y_to
        invariant
            frame@ == paint(before, width, scanned(shape, window, x_from as int, y as int), rgba@),
            frame@.len() == before.len(),
            0 <= height == rows(before.len(), width),
            4 * (canvas_width * height) <= before.len(),
            width == canvas_width > 0,
            window == (x_from as int, x_to as int, y_from as int),
            shape == Set::new(
                |p: (int, int)|
                    at_most(center_x as int, center_y as int, p.0, p.1, radius as int) && at_least(
                        center_x as int,
                        center_y as int,
                        p.0,
                        p.1,
                        inner as int,
                    ),
            ),
            -0x1_0000_0000 <= inner <= 0x1_0000_0000,
            0 <= x_from,
            x_to <= width,
            0 <= y_from <= y,
            y_to <= height,
        decreases y_to - y,
    {
        let mut x: i32 = x_from;
        while x < x_to
            invariant
                frame@ == paint(before, width, scanned(shape, window, x as int, y as int), rgba@),
                frame@.len() == before.len(),
                0 <= height == rows(before.len(), width),
                4 * (canvas_width * height) <= before.len(),
                width == canvas_width > 0,
                window == (x_from as int, x_to as int, y_from as int),
                shape == Set::new(
                    |p: (int, int)|
                        at_most(center_x as int, center_y as int, p.0, p.1, radius as int)
                            && at_least(center_x as int, center_y as int, p.0, p.1, inner as int),
                ),
                -0x1_0000_0000 <= inner <= 0x1_0000_0000,
                0 <= x_from <= x,
                x_to <= width,
                0 <= y_from <= y < y_to <= height,
            decreases x_to - x,
        {
            if in_ring(center_x, center_y, x, y, radius, inner) {
                let ghost drawn = frame@;
                color_position(x, y, canvas_width, height, frame, rgba);
                proof {
                    lemma_paint_one(drawn, width, x as int, y as int, rgba@);
                    lemma_paint_union(
                        before,
                        width,
                        scanned(shape, window, x as int, y as int),
                        set![(x as int, y as int)],
                        rgba@,
                    );
                    assert(scanned(shape, window, x as int, y as int).union(
                        set![(x as int, y as int)],
                    ) =~= scanned(shape, window, x + 1, y as int));
                }
            } else {
                proof {
                    assert(scanned(shape, window, x as int, y as int) =~= scanned(
                        shape,
                        window,
                        x + 1,
                        y as int,
                    ));
                }
            }
            x += 1;
        }
        proof {
            assert(scanned(shape, window, x as int, y as int) =~= scanned(
                shape,
                window,
                x_from as int,
                y + 1,
            ));
        }
        y += 1;
    }
    proof {
        let passed = scanned(shape, window, x_from as int, y as int);
        assert forall|px: int, py: int| on_canvas(before.len(), width, px, py) implies (
        passed.contains((px, py)) <==> shape.contains((px, py))) by {
            if shape.contains((px, py)) {
                lemma_within_bounding_box(
                    center_x as int,
                    center_y as int,
                    px,
                    py,
                    radius as int,
                );
            }
        }
        lemma_paint_clipped(before, width, passed, shape, rgba@);
    }
}

/// Draws the outline of a circle: every pixel whose distance from the centre
/// is at most `radius` and at least `radius - outline_width`.
pub fn circle(
    frame: &mut [u8],
    canvas_width: i32,
    center_x: i32,
    center_y: i32,
    radius: i32,
    outline_width: i32,
    rgba: &[u8; 4],
)
    requires
        canvas_ok(old(frame)@.len(), canvas_width as int),
    ensures
        final(frame)@ == paint(
            old(frame)@,
            canvas_width as int,
            ring_pixels(center_x as int, center_y as int, radius as int, outline_width as int),
            rgba@,
        ),
{
    ring(
        frame,
        canvas_width,
        center_x,
        center_y,
        radius,
        radius as i64 - outline_width as i64,
        rgba,
    );
}

/// Draws a filled circle: every pixel whose distance from the centre is at
/// most `radius`.
pub fn circle_filled(
    frame: &mut [u8],
    canvas_width: i32,
    center_x: i32,
    center_y: i32,
    radius: i32,
    rgba: &[u8; 4],
)
    requires
        canvas_ok(old(frame)@.len(), canvas_width as int),
    ensures
        final(frame)@ == paint(
            old(frame)@,
            canvas_width as int,
            disc_pixels(center_x as int, center_y as int, radius as int),
            rgba@,
        ),
{
    ring(frame, canvas_width, center_x, center_y, radius, 0, rgba);
    proof {
        assert(disc_pixels(center_x as int, center_y as int, radius as int) =~= Set::new(
            |p: (int, int)|
                at_most(center_x as int, center_y as int, p.0, p.1, radius as int) && at_least(
                    center_x as int,
                    center_y as int,
                    p.0,
                    p.1,
                    0,
                ),
        ));
    }
}

} // verus!
