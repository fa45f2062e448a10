//! Straight segments, drawn with an integer error-accumulating stepper.
//!
//! A segment is walked one pixel at a time along its major axis, the axis on
//! which its end points lie further apart. The pixel drawn at each step is the
//! one whose minor coordinate is nearest to the ideal segment; exactly between
//! two pixels, the one nearer to the start of the walk is taken. Both end
//! points are drawn, so a segment whose end points coincide is one pixel.

use crate::canvas::canvas_height;
use crate::canvas::canvas_ok;
use crate::canvas::color_position;
use crate::canvas::lemma_paint_clipped;
use crate::canvas::lemma_paint_nothing;
use crate::canvas::lemma_paint_one;
use crate::canvas::lemma_paint_union;
use crate::canvas::paint;
use crate::canvas::rows;
use crate::math::clip;
use vstd::arithmetic::div_mod::lemma_basic_div;
use vstd::arithmetic::div_mod::lemma_fundamental_div_mod;
use vstd::arithmetic::div_mod::lemma_fundamental_div_mod_converse;
use vstd::math::abs;
use vstd::prelude::*;

verus! {

/// Whether the segment is steep, so that `y` is its major axis.
pub open spec fn is_steep(x0: int, y0: int, x1: int, y1: int) -> bool {
    abs(x1 - x0) < abs(y1 - y0)
}

/// The segment in major and minor coordinates, as `(a0, b0, a1, b1)` with the
/// end point of smaller major coordinate first.
pub open spec fn major_run(x0: int, y0: int, x1: int, y1: int) -> (int, int, int, int) {
    let (a0, b0, a1, b1) = if is_steep(x0, y0, x1, y1) {
        (y0, x0, y1, x1)
    } else {
        (x0, y0, x1, y1)
    };
    if a0 > a1 {
        (a1, b1, a0, b0)
    } else {
        (a0, b0, a1, b1)
    }
}

/// How far the stepper has moved along the minor axis after `k` major steps
/// of a run that is `length` long and climbs `rise` in all: `k * rise / length`
/// rounded to the nearest integer, a tie rounded down.
pub open spec fn minor_offset(k: int, length: int, rise: int) -> int {
    if length == 0 {
        0
    } else {
        (2 * k * rise + length - 1) / (2 * length)
    }
}

/// The minor coordinate of the pixel drawn at major coordinate `a`.
pub open spec fn minor_at(run: (int, int, int, int), a: int) -> int {
    let (a0, b0, a1, b1) = run;
    if b1 > b0 {
        b0 + minor_offset(a - a0, a1 - a0, b1 - b0)
    } else {
        b0 - minor_offset(a - a0, a1 - a0, b0 - b1)
    }
}

/// Whether the segment from `(x0, y0)` to `(x1, y1)` covers the pixel `(x, y)`.
pub open spec fn on_line(x0: int, y0: int, x1: int, y1: int, x: int, y: int) -> bool {
    let run = major_run(x0, y0, x1, y1);
    let (a, b) = if is_steep(x0, y0, x1, y1) {
        (y, x)
    } else {
        (x, y)
    };
    run.0 <= a <= run.2 && b == minor_at(run, a)
}

/// The pixels of the segment from `(x0, y0)` to `(x1, y1)`.
pub open spec fn line_pixels(x0: int, y0: int, x1: int, y1: int) -> Set<(int, int)> {
    Set::new(|p: (int, int)| on_line(x0, y0, x1, y1, p.0, p.1))
}

/// The pixels of the segment whose major coordinate is at least `from` and
/// below `upto`.
pub open spec fn line_part(x0: int, y0: int, x1: int, y1: int, from: int, upto: int) -> Set<
    (int, int),
> {
    Set::new(
        |p: (int, int)|
            on_line(x0, y0, x1, y1, p.0, p.1) && from <= (if is_steep(x0, y0, x1, y1) {
                p.1
            } else {
                p.0
            }) < upto,
    )
}

/// The pixels of the horizontal span from `xa` to `xb`, both included, on
/// row `y`, whichever of the two is the smaller.
pub open spec fn row_span(xa: int, xb: int, y: int) -> Set<(int, int)> {
    Set::new(|p: (int, int)| p.1 == y && (xa <= p.0 <= xb || xb <= p.0 <= xa))
}

/// The pixels of the vertical span from `ya` to `yb`, both included, on
/// column `x`.
pub open spec fn column_span(x: int, ya: int, yb: int) -> Set<(int, int)> {
    Set::new(|p: (int, int)| p.0 == x && (ya <= p.1 <= yb || yb <= p.1 <= ya))
}

/// A segment drawn from either end covers the same pixels.
pub proof fn lemma_line_symmetric(x0: int, y0: int, x1: int, y1: int)
    ensures
        line_pixels(x0, y0, x1, y1) == line_pixels(x1, y1, x0, y0),
{
    assert(is_steep(x0, y0, x1, y1) == is_steep(x1, y1, x0, y0));
    assert(major_run(x0, y0, x1, y1) == major_run(x1, y1, x0, y0));
    assert(line_pixels(x0, y0, x1, y1) =~= line_pixels(x1, y1, x0, y0));
}

/// The stepper never leaves the band between the two end points: after at
/// most `length` steps it has moved between 0 and `rise`, and after exactly
/// `length` steps it has moved `rise`.
pub proof fn lemma_minor_offset_bounds(k: int, length: int, rise: int)
    requires
        0 <= k <= length,
        0 <= rise <= length,
    ensures
        0 <= minor_offset(k, length, rise) <= rise,
        minor_offset(0, length, rise) == 0,
        minor_offset(length, length, rise) == rise,
{
    if length > 0 {
        let d = 2 * length;
        lemma_basic_div(length - 1, d);
        assert(2 * 0 * rise + length - 1 == length - 1) by (nonlinear_arith);
        assert(2 * length * rise + length - 1 == rise * d + (length - 1)) by (nonlinear_arith)
            requires
                d == 2 * length,
        ;
        lemma_fundamental_div_mod_converse(
            2 * length * rise + length - 1,
            d,
            rise,
            length - 1,
        );
        let n = 2 * k * rise + length - 1;
        assert(0 <= n <= rise * d + (length - 1)) by (nonlinear_arith)
            requires
                0 <= k <= length,
                0 <= rise,
                length > 0,
                d == 2 * length,
                n == 2 * k * rise + length - 1,
        ;
        vstd::arithmetic::div_mod::lemma_div_is_ordered(0, n, d);
        vstd::arithmetic::div_mod::lemma_div_is_ordered(n, rise * d + (length - 1), d);
        lemma_basic_div(0, d);
    }
}

/// A segment covers both of its end points.
pub proof fn lemma_line_has_end_points(x0: int, y0: int, x1: int, y1: int)
    ensures
        line_pixels(x0, y0, x1, y1).contains((x0, y0)),
        line_pixels(x0, y0, x1, y1).contains((x1, y1)),
{
    let run = major_run(x0, y0, x1, y1);
    lemma_minor_offset_bounds(0, run.2 - run.0, abs(run.3 - run.1) as int);
    assert(minor_at(run, run.0) == run.1);
    assert(minor_at(run, run.2) == run.3);
}

/// A segment stays within the rectangle spanned by its end points.
pub proof fn lemma_line_within_bounds(x0: int, y0: int, x1: int, y1: int, x: int, y: int)
    requires
        on_line(x0, y0, x1, y1, x, y),
    ensures
        x0 <= x <= x1 || x1 <= x <= x0,
        y0 <= y <= y1 || y1 <= y <= y0,
{
    let run = major_run(x0, y0, x1, y1);
    let a = if is_steep(x0, y0, x1, y1) {
        y
    } else {
        x
    };
    lemma_minor_offset_bounds(a - run.0, run.2 - run.0, abs(run.3 - run.1) as int);
}

/// A segment between two pixels of one row is the span between them.
pub proof fn lemma_level_line(xa: int, xb: int, y: int)
    ensures
        line_pixels(xa, y, xb, y) == row_span(xa, xb, y),
{
    let length = abs(xb - xa) as int;
    assert(!is_steep(xa, y, xb, y));
    assert forall|k: int| #[trigger] minor_offset(k, length, 0) == 0 by {
        if length > 0 {
            assert(2 * k * 0 + length - 1 == length - 1) by (nonlinear_arith);
            lemma_basic_div(length - 1, 2 * length);
        }
    }
    assert forall|p: (int, int)|
        line_pixels(xa, y, xb, y).contains(p) == row_span(xa, xb, y).contains(p) by {
        let run = major_run(xa, y, xb, y);
        assert(minor_offset(p.0 - run.0, length, 0) == 0);
    }
    assert(line_pixels(xa, y, xb, y) =~= row_span(xa, xb, y));
}

/// A segment between two pixels of one column is the span between them.
pub proof fn lemma_upright_line(x: int, ya: int, yb: int)
    ensures
        line_pixels(x, ya, x, yb) == column_span(x, ya, yb),
{
    let length = abs(yb - ya) as int;
    assert forall|k: int| #[trigger] minor_offset(k, length, 0) == 0 by {
        if length > 0 {
            assert(2 * k * 0 + length - 1 == length - 1) by (nonlinear_arith);
            lemma_basic_div(length - 1, 2 * length);
        }
    }
    assert forall|p: (int, int)|
        line_pixels(x, ya, x, yb).contains(p) == column_span(x, ya, yb).contains(p) by {
        let run = major_run(x, ya, x, yb);
        if is_steep(x, ya, x, yb) {
            assert(minor_offset(p.1 - run.0, length, 0) == 0);
        } else {
            assert(ya == yb);
            assert(minor_offset(p.0 - run.0, 0, 0) == 0);
        }
    }
    assert(line_pixels(x, ya, x, yb) =~= column_span(x, ya, yb));
}

/// Draws the segment from `(starting_x, starting_y)` to `(ending_x, ending_y)`,
/// both end points included.
///
/// Pixels of the segment that lie outside the canvas are skipped: the walk
/// starts where the segment enters the canvas along its major axis and ends
/// where it leaves.
pub fn line(
    frame: &mut [u8],
    canvas_width: i32,
    starting_x: i32,
    starting_y: i32,
    ending_x: i32,
    ending_y: i32,
    rgba: &[u8; 4],
)
    requires
        canvas_ok(old(frame)@.len(), canvas_width as int),
    ensures
        final(frame)@ == paint(
            old(frame)@,
            canvas_width as int,
            line_pixels(starting_x as int, starting_y as int, ending_x as int, ending_y as int),
            rgba@,
        ),
{
    let height: i32 = canvas_height(frame, canvas_width);
    let ghost before = frame@;
    let ghost width = canvas_width as int;
    let ghost (x0, y0, x1, y1) = (
        starting_x as int,
        starting_y as int,
        ending_x as int,
        ending_y as int,
    );

    let steep = span(starting_x, ending_x) < span(starting_y, ending_y);
    let (a0, b0, a1, b1): (i64, i64, i64, i64) = ordered_run(
        starting_x,
        starting_y,
        ending_x,
        ending_y,
    );
    let length: i64 = a1 - a0;
    let rise: i64 = if b1 > b0 {
        b1 - b0
    } else {
        b0 - b1
    };

    // Only the part of the walk that crosses the canvas is made.
    let limit: i32 = if steep {
        height
    } else {
        canvas_width
    };
    let (a_from, a_to): (i32, i32) = clip(a0, a1, limit);
    if a_from >= a_to {
        proof {
            lemma_paint_nothing(before, width, rgba@);
            lemma_paint_clipped(before, width, Set::empty(), line_pixels(x0, y0, x1, y1), rgba@);
        }
        return ;
    }
    // The error is kept doubled, so that half a pixel is an integer.
    let (climbed_at_start, error_at_start): (i64, i64) = walk_to(
        a_from as i64 - a0,
        length,
        rise,
    );
    let error_increment2: i64 = rise * 2;
    let mut error2: i64 = error_at_start;
    let mut a: i64 = a_from as i64;
    let mut b: i64 = if b1 > b0 {
        b0 + climbed_at_start
    } else {
        b0 - climbed_at_start
    };
    let ghost mut climbed: int = climbed_at_start as int;

    proof {
        lemma_paint_nothing(before, width, rgba@);
        assert(line_part(x0, y0, x1, y1, a_from as int, a_from as int) =~= Set::empty());
    }
    while a < a_to as i64
        invariant
            frame@ == paint(
                before,
                width,
                line_part(x0, y0, x1, y1, a_from as int, a as int),
                rgba@,
            ),
            frame@.len() == before.len(),
            canvas_ok(before.len(), width),
            height == rows(before.len(), width),
            4 * (canvas_width * height) <= before.len(),
            width == canvas_width,
            steep == is_steep(x0, y0, x1, y1),
            (a0 as int, b0 as int, a1 as int, b1 as int) == major_run(x0, y0, x1, y1),
            i32::MIN <= a0 <= a1 <= i32::MAX,
            i32::MIN <= b0 <= i32::MAX,
            i32::MIN <= b1 <= i32::MAX,
            length == a1 - a0,
            rise == abs(b1 - b0),
            0 <= rise <= length,
            error_increment2 == 2 * rise,
            a0 <= a_from <= a <= a_to <= a1 + 1,
            climbed == minor_offset(a - a0, length as int, rise as int),
            b == minor_at(major_run(x0, y0, x1, y1), a as int),
            error2 == 2 * (a - a0) * rise - 2 * length * climbed,
            length > 0 ==> -length < error2 <= length,
            length == 0 ==> error2 == 0,
        decreases a_to - a,
    {
        proof {
            lemma_minor_offset_bounds(a - a0, length as int, rise as int);
        }
        let ghost pixel = if steep {
            (b as int, a as int)
        } else {
            (a as int, b as int)
        };
        let ghost drawn = frame@;
        if steep {
            color_position(b as i32, a as i32, canvas_width, height, frame, rgba);
        } else {
            color_position(a as i32, b as i32, canvas_width, height, frame, rgba);
        }
        proof {
            lemma_paint_one(drawn, width, pixel.0, pixel.1, rgba@);
            lemma_paint_union(
                before,
                width,
                line_part(x0, y0, x1, y1, a_from as int, a as int),
                set![pixel],
                rgba@,
            );
            assert(line_part(x0, y0, x1, y1, a_from as int, a as int).union(set![pixel])
                =~= line_part(x0, y0, x1, y1, a_from as int, a + 1));
        }
        let ghost error_before = error2 as int;
        let ghost climbed_before = climbed;
        error2 += error_increment2;
        if error2 > length {
            b += if b1 > b0 {
                1
            } else {
                -1
            };
            error2 -= length * 2;
            proof {
                climbed = climbed + 1;
            }
        }
        proof {
            lemma_stepped(
                a - a0,
                length as int,
                rise as int,
                error_before,
                climbed_before,
                error2 as int,
                climbed,
            );
        }
        a += 1;
    }
    proof {
        // What lies before and behind the walk lies off the canvas.
        lemma_paint_clipped(
            before,
            width,
            line_part(x0, y0, x1, y1, a_from as int, a_to as int),
            line_pixels(x0, y0, x1, y1),
            rgba@,
        );
    }
}

/// The state of the stepper after `steps` steps along the major axis: how far
/// it has climbed along the minor axis, and its doubled error.
fn walk_to(steps: i64, length: i64, rise: i64) -> (state: (i64, i64))
    requires
        0 <= steps <= length <= 0xffff_ffff,
        0 <= rise <= length,
    ensures
        state.0 == minor_offset(steps as int, length as int, rise as int),
        0 <= state.0 <= rise,
        state.1 == 2 * steps * rise - 2 * length * state.0,
        length > 0 ==> -length < state.1 <= length,
        length == 0 ==> state.1 == 0,
{
    if length == 0 {
        assert(2 * steps * rise - 2 * length * 0 == 0) by (nonlinear_arith)
            requires
                steps == 0,
                length == 0,
        ;
        return (0, 0);
    }
    assert(0 <= steps * rise <= 0xffff_ffff * 0xffff_ffff) by (nonlinear_arith)
        requires
            0 <= steps <= 0xffff_ffff,
            0 <= rise <= 0xffff_ffff,
    ;
    let doubled: i128 = 2 * (steps as i128 * rise as i128) + (length as i128 - 1);
    let divisor: i128 = 2 * length as i128;
    let climbed: i128 = doubled / divisor;
    let rest: i128 = doubled % divisor;
    proof {
        assert(2 * steps * rise == 2 * (steps * rise)) by (nonlinear_arith);
        lemma_fundamental_div_mod(doubled as int, divisor as int);
        assert(2 * length * climbed == divisor * climbed) by (nonlinear_arith)
            requires
                divisor == 2 * length,
        ;
        lemma_minor_offset_bounds(steps as int, length as int, rise as int);
    }
    (climbed as i64, (rest - (length as i128 - 1)) as i64)
}

/// Distance between two coordinates.
fn span(from: i32, to: i32) -> (extent: i64)
    ensures
        extent == abs(to - from),
{
    let difference: i64 = to as i64 - from as i64;
    if difference < 0 {
        -difference
    } else {
        difference
    }
}

/// The segment in major and minor coordinates, ordered along the major axis.
fn ordered_run(x0: i32, y0: i32, x1: i32, y1: i32) -> (run: (i64, i64, i64, i64))
    ensures
        (run.0 as int, run.1 as int, run.2 as int, run.3 as int) == major_run(
            x0 as int,
            y0 as int,
            x1 as int,
            y1 as int,
        ),
        i32::MIN <= run.0 <= run.2 <= i32::MAX,
        i32::MIN <= run.1 <= i32::MAX,
        i32::MIN <= run.3 <= i32::MAX,
        abs(run.3 - run.1) <= run.2 - run.0,
{
    let steep = span(x0, x1) < span(y0, y1);
    let (a0, b0, a1, b1): (i64, i64, i64, i64) = if steep {
        (y0 as i64, x0 as i64, y1 as i64, x1 as i64)
    } else {
        (x0 as i64, y0 as i64, x1 as i64, y1 as i64)
    };
    if a0 > a1 {
        (a1, b1, a0, b0)
    } else {
        (a0, b0, a1, b1)
    }
}

/// One step of the stepper. The doubled error, `2 * k * rise - 2 * length *
/// climbed`, is kept within half a pixel of zero, and that determines how far
/// the stepper has climbed after `k + 1` steps.
proof fn lemma_stepped(
    k: int,
    length: int,
    rise: int,
    error_before: int,
    climbed_before: int,
    error_after: int,
    climbed_after: int,
)
    requires
        0 <= k,
        0 <= rise <= length,
        climbed_before == minor_offset(k, length, rise),
        error_before == 2 * k * rise - 2 * length * climbed_before,
        length > 0 ==> -length < error_before <= length,
        length == 0 ==> error_before == 0,
        error_before + 2 * rise > length ==> error_after == error_before + 2 * rise - 2 * length
            && climbed_after == climbed_before + 1,
        error_before + 2 * rise <= length ==> error_after == error_before + 2 * rise
            && climbed_after == climbed_before,
    ensures
        error_after == 2 * (k + 1) * rise - 2 * length * climbed_after,
        length > 0 ==> -length < error_after <= length,
        length == 0 ==> error_after == 0,
        climbed_after == minor_offset(k + 1, length, rise),
{
    assert(2 * (k + 1) * rise == 2 * k * rise + 2 * rise) by (nonlinear_arith);
    assert(2 * length * (climbed_before + 1) == 2 * length * climbed_before + 2 * length)
        by (nonlinear_arith);
    if length > 0 {
        let d = 2 * length;
        assert(2 * (k + 1) * rise + length - 1 == climbed_after * d + (error_after + length - 1))
            by (nonlinear_arith)
            requires
                error_after == 2 * (k + 1) * rise - 2 * length * climbed_after,
                d == 2 * length,
        ;
        lemma_fundamental_div_mod_converse(
            2 * (k + 1) * rise + length - 1,
            d,
            climbed_after,
            error_after + length - 1,
        );
    }
}

} // verus!
