//! Triangles: the outline as three segments, the fill as a sweep of rows
//! between two edges.

use crate::canvas::canvas_height;
use crate::canvas::canvas_ok;
use crate::canvas::lemma_paint_clipped;
use crate::canvas::lemma_paint_nothing;
use crate::canvas::lemma_paint_union;
use crate::canvas::paint;
use crate::canvas::rows;
use crate::lines::lemma_level_line;
use crate::lines::line;
use crate::lines::line_pixels;
use crate::lines::row_span;
use crate::math::Vertex;
use crate::math::clamped;
use crate::math::clip;
use crate::math::div_toward_zero;
use crate::math::simple_bubble_sort_vector_by_y;
use crate::math::sorted_by_y;
use vstd::math::max;
use vstd::math::min;
use vstd::prelude::*;

verus! {

/// The pixels of the three sides of a triangle.
pub open spec fn triangle_pixels(v0: Vertex, v1: Vertex, v2: Vertex) -> Set<(int, int)> {
    line_pixels(v0.0, v0.1, v1.0, v1.1).union(line_pixels(v1.0, v1.1, v2.0, v2.1)).union(
        line_pixels(v2.0, v2.1, v0.0, v0.1),
    )
}

/// Draws the three sides of a triangle: from the first vertex to the second,
/// on to the third, and back to the first.
pub fn triangle(
    frame: &mut [u8],
    canvas_width: i32,
    v0x: i32,
    v0y: i32,
    v1x: i32,
    v1y: i32,
    v2x: i32,
    v2y: i32,
    rgba: &[u8; 4],
)
    requires
        canvas_ok(old(frame)@.len(), canvas_width as int),
    ensures
        final(frame)@ == paint(
            old(frame)@,
            canvas_width as int,
            triangle_pixels(
                (v0x as int, v0y as int),
                (v1x as int, v1y as int),
                (v2x as int, v2y as int),
            ),
            rgba@,
        ),
{
    let ghost before = frame@;
    let ghost width = canvas_width as int;
    line(frame, canvas_width, v0x, v0y, v1x, v1y, rgba);
    line(frame, canvas_width, v1x, v1y, v2x, v2y, rgba);
    line(frame, canvas_width, v2x, v2y, v0x, v0y, rgba);
    proof {
        let first = line_pixels(v0x as int, v0y as int, v1x as int, v1y as int);
        let second = line_pixels(v1x as int, v1y as int, v2x as int, v2y as int);
        let third = line_pixels(v2x as int, v2y as int, v0x as int, v0y as int);
        lemma_paint_union(before, width, first, second, rgba@);
        lemma_paint_union(before, width, first.union(second), third, rgba@);
    }
}

/// The `x` at which the edge from `from` up to `to` crosses row `y`, by linear
/// interpolation, rounded toward zero. The edge must climb: `to.1 > from.1`.
pub open spec fn edge_x(from: Vertex, to: Vertex, y: int) -> int {
    div_toward_zero(from.0 * (to.1 - from.1) + (to.0 - from.0) * (y - from.1), to.1 - from.1)
}

/// The rows from `y_from` to `y_to`, both included, each filled between the
/// two edges.
pub open spec fn swept_pixels(
    long: (Vertex, Vertex),
    short: (Vertex, Vertex),
    y_from: int,
    y_to: int,
) -> Set<(int, int)> {
    Set::new(
        |p: (int, int)|
            y_from <= p.1 <= y_to && row_span(
                edge_x(long.0, long.1, p.1),
                edge_x(short.0, short.1, p.1),
                p.1,
            ).contains(p),
    )
}

/// The pixels of a filled triangle.
///
/// With the vertices sorted by `y` into `a`, `b` and `c`, the rows from `a`
/// to `b` are filled between the long edge `a`-`c` and the short edge `a`-`b`,
/// and the rows from `b` to `c` between the long edge and the short edge
/// `b`-`c`. A short edge that lies in one row has no sweep of its own: its row
/// is filled by the other sweep. A triangle that lies in one row fills that
/// row from its leftmost to its rightmost vertex.
pub open spec fn triangle_fill_pixels(v0: Vertex, v1: Vertex, v2: Vertex) -> Set<(int, int)> {
    let (a, b, c) = sorted_by_y(v0, v1, v2);
    if a.1 == c.1 {
        row_span(min(min(a.0, b.0), c.0), max(max(a.0, b.0), c.0), a.1)
    } else {
        let lower = if a.1 < b.1 {
            swept_pixels((a, c), (a, b), a.1, b.1)
        } else {
            Set::empty()
        };
        let upper = if b.1 < c.1 {
            swept_pixels((a, c), (b, c), b.1, c.1)
        } else {
            Set::empty()
        };
        lower.union(upper)
    }
}

/// An edge stays between its end points: on every row from `from` to `to`
/// its `x` lies between the `x` of the two, and at either end it is that of
/// the end point.
pub proof fn lemma_edge_x_between(from: Vertex, to: Vertex, y: int)
    requires
        from.1 <= y <= to.1,
        from.1 < to.1,
    ensures
        min(from.0, to.0) <= edge_x(from, to, y) <= max(from.0, to.0),
        edge_x(from, to, from.1) == from.0,
        edge_x(from, to, to.1) == to.0,
{
    let h = to.1 - from.1;
    lemma_toward_zero_of_multiple(from.0, h);
    lemma_toward_zero_of_multiple(to.0, h);
    assert(from.0 * h + (to.0 - from.0) * (from.1 - from.1) == from.0 * h) by (nonlinear_arith);
    assert(from.0 * h + (to.0 - from.0) * (to.1 - from.1) == to.0 * h) by (nonlinear_arith)
        requires
            h == to.1 - from.1,
    ;
    let t = y - from.1;
    let n = from.0 * h + (to.0 - from.0) * t;
    let low = min(from.0, to.0);
    let high = max(from.0, to.0);
    assert(low * h <= n <= high * h) by (nonlinear_arith)
        requires
            0 <= t <= h,
            n == from.0 * h + (to.0 - from.0) * t,
            low <= from.0 <= high,
            low <= to.0 <= high,
    ;
    lemma_toward_zero_bounds(n, h, low, high);
}

/// A filled triangle covers its three vertices, whether or not some of them
/// share a row.
pub proof fn lemma_fill_covers_vertices(v0: Vertex, v1: Vertex, v2: Vertex)
    ensures
        triangle_fill_pixels(v0, v1, v2).contains(v0),
        triangle_fill_pixels(v0, v1, v2).contains(v1),
        triangle_fill_pixels(v0, v1, v2).contains(v2),
{
    let (a, b, c) = sorted_by_y(v0, v1, v2);
    let fill = triangle_fill_pixels(v0, v1, v2);
    if a.1 < c.1 {
        lemma_edge_x_between(a, c, a.1);
        lemma_edge_x_between(a, c, b.1);
        if a.1 < b.1 {
            lemma_edge_x_between(a, b, a.1);
        }
        if b.1 < c.1 {
            lemma_edge_x_between(b, c, b.1);
        }
        assert(fill.contains(a));
        assert(fill.contains(b));
        assert(fill.contains(c));
    }
}

/// A filled triangle stays within the rectangle spanned by its vertices.
pub proof fn lemma_fill_within_bounds(v0: Vertex, v1: Vertex, v2: Vertex, x: int, y: int)
    requires
        triangle_fill_pixels(v0, v1, v2).contains((x, y)),
    ensures
        min(min(v0.0, v1.0), v2.0) <= x <= max(max(v0.0, v1.0), v2.0),
        min(min(v0.1, v1.1), v2.1) <= y <= max(max(v0.1, v1.1), v2.1),
{
    let (a, b, c) = sorted_by_y(v0, v1, v2);
    if a.1 < c.1 {
        lemma_edge_x_between(a, c, y);
        if a.1 < b.1 && y <= b.1 {
            lemma_edge_x_between(a, b, y);
        }
        if b.1 < c.1 && b.1 <= y {
            lemma_edge_x_between(b, c, y);
        }
    }
}

/// A side of a triangle that lies in one row is filled from end to end: with
/// the sorted vertices `a`, `b` and `c`, a flat side `a`-`b` or `b`-`c` is
/// part of the fill.
pub proof fn lemma_fill_covers_flat_side(v0: Vertex, v1: Vertex, v2: Vertex)
    ensures
        ({
            let (a, b, c) = sorted_by_y(v0, v1, v2);
            let fill = triangle_fill_pixels(v0, v1, v2);
            &&& a.1 == b.1 ==> row_span(a.0, b.0, a.1).subset_of(fill)
            &&& b.1 == c.1 ==> row_span(b.0, c.0, b.1).subset_of(fill)
        }),
{
    let (a, b, c) = sorted_by_y(v0, v1, v2);
    if a.1 < c.1 {
        lemma_edge_x_between(a, c, a.1);
        lemma_edge_x_between(a, c, c.1);
        if a.1 < b.1 {
            lemma_edge_x_between(a, b, b.1);
        }
        if b.1 < c.1 {
            lemma_edge_x_between(b, c, b.1);
        }
    }
}

/// A multiple of the divisor divides exactly.
proof fn lemma_toward_zero_of_multiple(q: int, d: int)
    requires
        d > 0,
    ensures
        div_toward_zero(q * d, d) == q,
{
    if q >= 0 {
        assert(q * d >= 0) by (nonlinear_arith)
            requires
                q >= 0,
                d > 0,
        ;
        vstd::arithmetic::div_mod::lemma_fundamental_div_mod_converse(q * d, d, q, 0);
    } else {
        assert(q * d < 0) by (nonlinear_arith)
            requires
                q < 0,
                d > 0,
        ;
        assert(-(q * d) == (-q) * d) by (nonlinear_arith);
        vstd::arithmetic::div_mod::lemma_fundamental_div_mod_converse(-(q * d), d, -q, 0);
    }
}

/// Rounding a quotient toward zero keeps it between integer bounds.
proof fn lemma_toward_zero_bounds(n: int, d: int, low: int, high: int)
    requires
        d > 0,
        low * d <= n <= high * d,
    ensures
        low <= div_toward_zero(n, d) <= high,
{
    if n >= 0 {
        let q = n / d;
        vstd::arithmetic::div_mod::lemma_fundamental_div_mod(n, d);
        assert(low <= q <= high) by (nonlinear_arith)
            requires
                d > 0,
                low * d <= n <= high * d,
                n == d * q + n % d,
                0 <= n % d < d,
        ;
    } else {
        let k = (-n) / d;
        vstd::arithmetic::div_mod::lemma_fundamental_div_mod(-n, d);
        assert(low <= -k <= high) by (nonlinear_arith)
            requires
                d > 0,
                low * d <= n <= high * d,
                -n == d * k + (-n) % d,
                0 <= (-n) % d < d,
        ;
    }
}

/// The `x` at which the edge from `(from_x, from_y)` up to `(to_x, to_y)`
/// crosses row `y`.
fn edge_at(from_x: i32, from_y: i32, to_x: i32, to_y: i32, y: i32) -> (x: i32)
    requires
        from_y <= y <= to_y,
        from_y < to_y,
    ensures
        x == edge_x((from_x as int, from_y as int), (to_x as int, to_y as int), y as int),
{
    let height: i128 = to_y as i128 - from_y as i128;
    let run: i128 = to_x as i128 - from_x as i128;
    let climbed: i128 = y as i128 - from_y as i128;
    let start: i128 = from_x as i128;
    assert(-0x8000_0000 * 0x1_0000_0000 <= start * height <= 0x8000_0000 * 0x1_0000_0000)
        by (nonlinear_arith)
        requires
            -0x8000_0000 <= start <= 0x8000_0000,
            0 < height <= 0x1_0000_0000,
    ;
    assert(-0x1_0000_0000 * 0x1_0000_0000 <= run * climbed <= 0x1_0000_0000 * 0x1_0000_0000)
        by (nonlinear_arith)
        requires
            -0x1_0000_0000 <= run <= 0x1_0000_0000,
            0 <= climbed <= 0x1_0000_0000,
    ;
    let x: i128 = (start * height + run * climbed) / height;
    proof {
        lemma_edge_x_between(
            (from_x as int, from_y as int),
            (to_x as int, to_y as int),
            y as int,
        );
    }
    x as i32
}

/// Fills the rows from `y_from` to `y_to`, both included, between two
/// climbing edges, each given as `(from_x, from_y, to_x, to_y)`.
fn sweep(
    frame: &mut [u8],
    canvas_width: i32,
    long: (i32, i32, i32, i32),
    short: (i32, i32, i32, i32),
    y_from: i32,
    y_to: i32,
    rgba: &[u8; 4],
)
    requires
        canvas_ok(old(frame)@.len(), canvas_width as int),
        long.1 < long.3,
        short.1 < short.3,
        long.1 <= y_from <= y_to <= long.3,
        short.1 <= y_from <= y_to <= short.3,
    ensures
        final(frame)@ == paint(
            old(frame)@,
            canvas_width as int,
            swept_pixels(
                ((long.0 as int, long.1 as int), (long.2 as int, long.3 as int)),
                ((short.0 as int, short.1 as int), (short.2 as int, short.3 as int)),
                y_from as int,
                y_to as int,
            ),
            rgba@,
        ),
{
    let height: i32 = canvas_height(frame, canvas_width);
    let ghost before = frame@;
    let ghost width = canvas_width as int;
    let ghost long_edge = ((long.0 as int, long.1 as int), (long.2 as int, long.3 as int));
    let ghost short_edge = ((short.0 as int, short.1 as int), (short.2 as int, short.3 as int));

    // Only the rows that cross the canvas are swept.
    let (row_from, row_to): (i32, i32) = clip(y_from as i64, y_to as i64, height);
    proof {
        lemma_paint_nothing(before, width, rgba@);
        assert(swept_pixels(long_edge, short_edge, row_from as int, row_from - 1)
            =~= Set::empty());
    }
    let mut y: i32 = row_from;
    while y < row_to
        invariant
            frame@ == paint(
                before,
                width,
                swept_pixels(long_edge, short_edge, row_from as int, y - 1),
                rgba@,
            ),
            frame@.len() == before.len(),
            canvas_ok(before.len(), width),
            width == canvas_width,
            long_edge == ((long.0 as int, long.1 as int), (long.2 as int, long.3 as int)),
            short_edge == ((short.0 as int, short.1 as int), (short.2 as int, short.3 as int)),
            long.1 < long.3,
            short.1 < short.3,
            long.1 <= y_from <= y_to <= long.3,
            short.1 <= y_from <= y_to <= short.3,
            row_from == clamped(y_from as int, 0, height as int),
            row_to == clamped(y_to + 1, 0, height as int),
            0 <= height == rows(before.len(), width),
            row_from <= y,
            y <= row_to || y == row_from,
        decreases row_to - y,
    {
        let left_point_x: i32 = edge_at(long.0, long.1, long.2, long.3, y);
        let right_point_x: i32 = edge_at(short.0, short.1, short.2, short.3, y);
        line(frame, canvas_width, right_point_x, y, left_point_x, y, rgba);
        proof {
            lemma_level_line(right_point_x as int, left_point_x as int, y as int);
            lemma_paint_union(
                before,
                width,
                swept_pixels(long_edge, short_edge, row_from as int, y - 1),
                row_span(right_point_x as int, left_point_x as int, y as int),
                rgba@,
            );
            assert(swept_pixels(long_edge, short_edge, row_from as int, y - 1).union(
                row_span(right_point_x as int, left_point_x as int, y as int),
            ) =~= swept_pixels(long_edge, short_edge, row_from as int, y as int));
        }
        y += 1;
    }
    proof {
        // The rows before and behind the sweep lie off the canvas.
        lemma_paint_clipped(
            before,
            width,
            swept_pixels(long_edge, short_edge, row_from as int, y - 1),
            swept_pixels(long_edge, short_edge, y_from as int, y_to as int),
            rgba@,
        );
    }
}

/// Draws a filled triangle.
///
/// The vertices are sorted by `y`, and the triangle is swept row by row in
/// two halves, below and above the middle vertex. Each row is filled between
/// the long edge and the short edge of its half, where an edge crosses a row
/// at the linearly interpolated `x`, rounded toward zero. A half whose short
/// edge lies in one row is skipped, since the other half fills that row; a
/// triangle that lies in one row is drawn as that row, from its leftmost to
/// its rightmost vertex.
pub fn triangle_filled(
    frame: &mut [u8],
    canvas_width: i32,
    v0x: i32,
    v0y: i32,
    v1x: i32,
    v1y: i32,
    v2x: i32,
    v2y: i32,
    rgba: &[u8; 4],
)
    requires
        canvas_ok(old(frame)@.len(), canvas_width as int),
    ensures
        final(frame)@ == paint(
            old(frame)@,
            canvas_width as int,
            triangle_fill_pixels(
                (v0x as int, v0y as int),
                (v1x as int, v1y as int),
                (v2x as int, v2y as int),
            ),
            rgba@,
        ),
{
    let ghost before = frame@;
    let ghost width = canvas_width as int;
    let (mut mv0x, mut mv0y, mut mv1x, mut mv1y, mut mv2x, mut mv2y): (
        i32,
        i32,
        i32,
        i32,
        i32,
        i32,
    ) = (v0x, v0y, v1x, v1y, v2x, v2y);
    simple_bubble_sort_vector_by_y(
        &mut mv0x,
        &mut mv0y,
        &mut mv1x,
        &mut mv1y,
        &mut mv2x,
        &mut mv2y,
    );
    let ghost a = (mv0x as int, mv0y as int);
    let ghost b = (mv1x as int, mv1y as int);
    let ghost c = (mv2x as int, mv2y as int);

    if mv0y == mv2y {
        line(frame, canvas_width, mv0x, mv0y, mv1x, mv0y, rgba);
        line(frame, canvas_width, mv1x, mv0y, mv2x, mv0y, rgba);
        proof {
            lemma_level_line(a.0, b.0, a.1);
            lemma_level_line(b.0, c.0, a.1);
            lemma_paint_union(
                before,
                width,
                row_span(a.0, b.0, a.1),
                row_span(b.0, c.0, a.1),
                rgba@,
            );
            assert(row_span(a.0, b.0, a.1).union(row_span(b.0, c.0, a.1)) =~= row_span(
                min(min(a.0, b.0), c.0),
                max(max(a.0, b.0), c.0),
                a.1,
            ));
        }
        return ;
    }
    let ghost lower = if a.1 < b.1 {
        swept_pixels((a, c), (a, b), a.1, b.1)
    } else {
        Set::empty()
    };
    let ghost upper = if b.1 < c.1 {
        swept_pixels((a, c), (b, c), b.1, c.1)
    } else {
        Set::empty()
    };
    let long: (i32, i32, i32, i32) = (mv0x, mv0y, mv2x, mv2y);

    // The first half, from the lowest vertex to the middle one.
    if mv0y < mv1y {
        sweep(frame, canvas_width, long, (mv0x, mv0y, mv1x, mv1y), mv0y, mv1y, rgba);
    }
    proof {
        lemma_paint_nothing(before, width, rgba@);
    }
    assert(frame@ == paint(before, width, lower, rgba@));

    // The second half, from the middle vertex to the highest one.
    let ghost halfway = frame@;
    if mv1y < mv2y {
        sweep(frame, canvas_width, long, (mv1x, mv1y, mv2x, mv2y), mv1y, mv2y, rgba);
    }
    proof {
        lemma_paint_nothing(halfway, width, rgba@);
        lemma_paint_union(before, width, lower, upper, rgba@);
    }
}

} // verus!
