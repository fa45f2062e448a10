//! The canvas model and the single bounds-checked pixel write.

use vstd::arithmetic::div_mod::lemma_fundamental_div_mod;
use vstd::arithmetic::div_mod::lemma_fundamental_div_mod_converse;
use vstd::arithmetic::mul::lemma_mul_inequality;
use vstd::prelude::*;

verus! {

/// Number of complete pixel rows in a frame of `len` bytes that is `width`
/// pixels wide.
pub open spec fn rows(len: nat, width: int) -> int {
    (len as int / 4) / width
}

/// A frame can be drawn on when its width is positive and its row count is
/// addressable by an `i32` coordinate.
pub open spec fn canvas_ok(len: nat, width: int) -> bool {
    width > 0 && rows(len, width) <= i32::MAX
}

/// Whether the pixel `(x, y)` lies on the canvas.
pub open spec fn on_canvas(len: nat, width: int, x: int, y: int) -> bool {
    0 <= x < width && 0 <= y < rows(len, width)
}

/// Byte offset of the pixel `(x, y)` in a frame that is `width` pixels wide.
pub open spec fn pixel_offset(x: int, y: int, width: int) -> int {
    (y * width + x) * 4
}

/// The pixel that the byte at index `i` belongs to.
pub open spec fn pixel_of(i: int, width: int) -> (int, int) {
    ((i / 4) % width, (i / 4) / width)
}

/// Whether painting `shape` overwrites the byte at index `i`: its pixel is in
/// the shape and in a complete row.
pub open spec fn byte_painted(len: nat, width: int, shape: Set<(int, int)>, i: int) -> bool {
    pixel_of(i, width).1 < rows(len, width) && shape.contains(pixel_of(i, width))
}

/// The frame with the four bytes at `offset` replaced by `rgba`.
pub open spec fn with_pixel(frame: Seq<u8>, offset: int, rgba: Seq<u8>) -> Seq<u8> {
    Seq::new(
        frame.len(),
        |i: int|
            if offset <= i < offset + 4 {
                rgba[i - offset]
            } else {
                frame[i]
            },
    )
}

/// The frame after every on-canvas pixel of `shape` has been overwritten with
/// `rgba`. Nothing is blended, and every other byte keeps its value.
pub open spec fn paint(frame: Seq<u8>, width: int, shape: Set<(int, int)>, rgba: Seq<u8>) -> Seq<
    u8,
> {
    Seq::new(
        frame.len(),
        |i: int|
            if byte_painted(frame.len(), width, shape, i) {
                rgba[i % 4]
            } else {
                frame[i]
            },
    )
}

/// The part of `shape` that a scan has passed when it stands at `(x, y)`. The
/// scan visits the columns from `window.0` up to, not including, `window.1`,
/// row after row, starting at row `window.2`.
pub open spec fn scanned(shape: Set<(int, int)>, window: (int, int, int), x: int, y: int) -> Set<
    (int, int),
> {
    Set::new(
        |p: (int, int)|
            shape.contains(p) && window.0 <= p.0 < window.1 && window.2 <= p.1 && (p.1 < y || (p.1
                == y && p.0 < x)),
    )
}

/// The four bytes of the pixel `(x, y)`.
pub open spec fn pixel_at(frame: Seq<u8>, width: int, x: int, y: int) -> Seq<u8> {
    frame.subrange(pixel_offset(x, y, width), pixel_offset(x, y, width) + 4)
}

/// The four bytes of an on-canvas pixel lie inside the frame.
pub proof fn lemma_pixel_in_frame(len: nat, width: int, x: int, y: int)
    requires
        width > 0,
        on_canvas(len, width, x, y),
    ensures
        0 <= pixel_offset(x, y, width),
        pixel_offset(x, y, width) + 4 <= 4 * (width * rows(len, width)) <= len,
{
    let h = rows(len, width);
    assert(y * width >= 0) by (nonlinear_arith)
        requires
            y >= 0,
            width > 0,
    ;
    assert((y + 1) * width <= h * width) by {
        lemma_mul_inequality(y + 1, h, width);
    }
    assert((y + 1) * width == y * width + width) by (nonlinear_arith);
    assert(h * width == width * h) by (nonlinear_arith);
    lemma_fundamental_div_mod(len as int / 4, width);
    lemma_fundamental_div_mod(len as int, 4);
}

/// The bytes of the pixel `(x, y)` are exactly those that `pixel_of` maps to
/// `(x, y)`.
pub proof fn lemma_pixel_of_offset(i: int, width: int, x: int, y: int)
    requires
        width > 0,
        0 <= x < width,
        i >= 0,
    ensures
        pixel_of(i, width) == (x, y) <==> pixel_offset(x, y, width) <= i < pixel_offset(
            x,
            y,
            width,
        ) + 4,
{
    let p = i / 4;
    lemma_fundamental_div_mod(i, 4);
    lemma_fundamental_div_mod(p, width);
    if pixel_of(i, width) == (x, y) {
        assert(p == width * y + x);
        assert(width * y == y * width) by (nonlinear_arith);
    }
    if pixel_offset(x, y, width) <= i < pixel_offset(x, y, width) + 4 {
        assert(p == y * width + x);
        lemma_fundamental_div_mod_converse(p, width, y, x);
    }
}

/// Painting a single pixel replaces its four bytes when it lies on the canvas
/// and changes nothing when it does not.
pub proof fn lemma_paint_one(frame: Seq<u8>, width: int, x: int, y: int, rgba: Seq<u8>)
    requires
        width > 0,
    ensures
        paint(frame, width, set![(x, y)], rgba) == if on_canvas(frame.len(), width, x, y) {
            with_pixel(frame, pixel_offset(x, y, width), rgba)
        } else {
            frame
        },
{
    let painted = paint(frame, width, set![(x, y)], rgba);
    let offset = pixel_offset(x, y, width);
    if on_canvas(frame.len(), width, x, y) {
        assert forall|i: int| 0 <= i < frame.len() implies painted[i] == with_pixel(
            frame,
            offset,
            rgba,
        )[i] by {
            lemma_pixel_of_offset(i, width, x, y);
            if offset <= i < offset + 4 {
                assert(i % 4 == i - offset);
            }
        }
        assert(painted =~= with_pixel(frame, offset, rgba));
    } else {
        assert forall|i: int| 0 <= i < frame.len() implies painted[i] == frame[i] by {
            lemma_fundamental_div_mod(i, 4);
            lemma_fundamental_div_mod(i / 4, width);
            assert(0 <= pixel_of(i, width).0 < width);
            assert(0 <= pixel_of(i, width).1) by (nonlinear_arith)
                requires
                    i / 4 >= 0,
                    width > 0,
                    pixel_of(i, width).1 == (i / 4) / width,
            ;
        }
        assert(painted =~= frame);
    }
}

/// Painting one shape and then another with the same colour paints their union.
pub proof fn lemma_paint_union(
    frame: Seq<u8>,
    width: int,
    a: Set<(int, int)>,
    b: Set<(int, int)>,
    rgba: Seq<u8>,
)
    ensures
        paint(paint(frame, width, a, rgba), width, b, rgba) == paint(
            frame,
            width,
            a.union(b),
            rgba,
        ),
{
    assert(paint(paint(frame, width, a, rgba), width, b, rgba) =~= paint(
        frame,
        width,
        a.union(b),
        rgba,
    ));
}

/// Drawing is idempotent: painting a shape a second time with the same colour
/// leaves the frame as the first painting left it.
pub proof fn lemma_paint_idempotent(
    frame: Seq<u8>,
    width: int,
    shape: Set<(int, int)>,
    rgba: Seq<u8>,
)
    ensures
        paint(paint(frame, width, shape, rgba), width, shape, rgba) == paint(
            frame,
            width,
            shape,
            rgba,
        ),
{
    lemma_paint_union(frame, width, shape, shape, rgba);
    assert(shape.union(shape) =~= shape);
}

/// Painting the empty shape changes nothing.
pub proof fn lemma_paint_nothing(frame: Seq<u8>, width: int, rgba: Seq<u8>)
    ensures
        paint(frame, width, Set::empty(), rgba) == frame,
{
    assert(paint(frame, width, Set::empty(), rgba) =~= frame);
}

/// Only the on-canvas part of a shape matters: two shapes with the same pixels
/// on the canvas paint the same frame.
pub proof fn lemma_paint_clipped(
    frame: Seq<u8>,
    width: int,
    a: Set<(int, int)>,
    b: Set<(int, int)>,
    rgba: Seq<u8>,
)
    requires
        width > 0,
        forall|x: int, y: int|
            on_canvas(frame.len(), width, x, y) ==> (a.contains((x, y)) <==> b.contains((x, y))),
    ensures
        paint(frame, width, a, rgba) == paint(frame, width, b, rgba),
{
    assert forall|i: int| 0 <= i < frame.len() implies byte_painted(frame.len(), width, a, i)
        == byte_painted(frame.len(), width, b, i) by {
        let (x, y) = pixel_of(i, width);
        lemma_fundamental_div_mod(i, 4);
        lemma_fundamental_div_mod(i / 4, width);
        assert(0 <= y) by (nonlinear_arith)
            requires
                i / 4 >= 0,
                width > 0,
                y == (i / 4) / width,
        ;
        if y < rows(frame.len(), width) {
            assert(on_canvas(frame.len(), width, x, y));
        }
    }
    assert(paint(frame, width, a, rgba) =~= paint(frame, width, b, rgba));
}

/// What a painted frame holds, pixel by pixel: an on-canvas pixel of the shape
/// holds the colour, every other on-canvas pixel holds what it held before.
pub proof fn lemma_paint_pixel(
    frame: Seq<u8>,
    width: int,
    shape: Set<(int, int)>,
    rgba: Seq<u8>,
    x: int,
    y: int,
)
    requires
        width > 0,
        rgba.len() == 4,
        on_canvas(frame.len(), width, x, y),
    ensures
        pixel_at(paint(frame, width, shape, rgba), width, x, y) == if shape.contains((x, y)) {
            rgba
        } else {
            pixel_at(frame, width, x, y)
        },
{
    let offset = pixel_offset(x, y, width);
    let painted = paint(frame, width, shape, rgba);
    lemma_pixel_in_frame(frame.len(), width, x, y);
    let got = pixel_at(painted, width, x, y);
    let want = if shape.contains((x, y)) {
        rgba
    } else {
        pixel_at(frame, width, x, y)
    };
    assert forall|j: int| 0 <= j < 4 implies got[j] == want[j] by {
        lemma_pixel_of_offset(offset + j, width, x, y);
        assert((offset + j) % 4 == j);
        assert(got[j] == painted[offset + j]);
    }
    assert(got =~= want);
}

/// Painting never changes the length of the frame, nor any byte behind the
/// last complete row.
pub proof fn lemma_paint_stays_inside(
    frame: Seq<u8>,
    width: int,
    shape: Set<(int, int)>,
    rgba: Seq<u8>,
    i: int,
)
    requires
        width > 0,
        4 * (width * rows(frame.len(), width)) <= i < frame.len(),
    ensures
        paint(frame, width, shape, rgba).len() == frame.len(),
        paint(frame, width, shape, rgba)[i] == frame[i],
{
    let h = rows(frame.len(), width);
    lemma_fundamental_div_mod(i, 4);
    lemma_fundamental_div_mod(i / 4, width);
    assert(i / 4 >= width * h);
    assert((i / 4) / width >= h) by (nonlinear_arith)
        requires
            width > 0,
            i / 4 >= width * h,
            i / 4 == width * ((i / 4) / width) + (i / 4) % width,
            0 <= (i / 4) % width < width,
    ;
}

/// Byte offset of the pixel `(x, y)` in a frame that is `canvas_width` pixels
/// wide.
pub fn get_starting_pixel_index(x: i32, y: i32, canvas_width: i32) -> (index: usize)
    requires
        0 <= x,
        0 <= y,
        0 <= canvas_width,
        pixel_offset(x as int, y as int, canvas_width as int) <= usize::MAX,
    ensures
        index == pixel_offset(x as int, y as int, canvas_width as int),
{
    assert(0 <= y * canvas_width <= y * canvas_width + x <= (y * canvas_width + x) * 4)
        by (nonlinear_arith)
        requires
            y >= 0,
            canvas_width >= 0,
            x >= 0,
    ;
    (y as usize * canvas_width as usize + x as usize) * 4
}

/// Overwrites the pixel `(x, y)` with `rgba`, or does nothing when the pixel
/// lies outside `[0, canvas_width) x [0, canvas_height)`.
///
/// Every shape writes through this function and through nothing else.
pub fn color_position(
    x: i32,
    y: i32,
    canvas_width: i32,
    canvas_height: i32,
    frame: &mut [u8],
    rgba: &[u8; 4],
)
    requires
        canvas_width > 0 && canvas_height > 0 ==> 4 * (canvas_width * canvas_height) <= old(
            frame,
        )@.len(),
    ensures
        final(frame)@ == if 0 <= x < canvas_width && 0 <= y < canvas_height {
            with_pixel(old(frame)@, pixel_offset(x as int, y as int, canvas_width as int), rgba@)
        } else {
            old(frame)@
        },
{
    if (x < 0) || (y < 0) || (x >= canvas_width) || (y >= canvas_height) {
        return ;
    }
    let len: usize = frame.len();
    proof {
        assert((y + 1) * canvas_width <= canvas_height * canvas_width) by {
            lemma_mul_inequality(y + 1, canvas_height as int, canvas_width as int);
        }
        assert((y + 1) * canvas_width == y * canvas_width + canvas_width) by (nonlinear_arith);
        assert(canvas_height * canvas_width == canvas_width * canvas_height) by (nonlinear_arith);
        assert(pixel_offset(x as int, y as int, canvas_width as int) + 4 <= 4 * (canvas_width
            * canvas_height));
    }
    let index: usize = get_starting_pixel_index(x, y, canvas_width);
    assert(index + 4 <= len);
    let ghost before = frame@;
    frame[index] = rgba[0];
    frame[index + 1] = rgba[1];
    frame[index + 2] = rgba[2];
    frame[index + 3] = rgba[3];
    assert(frame@ =~= with_pixel(before, index as int, rgba@));
}

/// Number of complete pixel rows of the frame.
pub fn canvas_height(frame: &[u8], canvas_width: i32) -> (height: i32)
    requires
        canvas_ok(frame@.len(), canvas_width as int),
    ensures
        height == rows(frame@.len(), canvas_width as int),
        height >= 0,
        4 * (canvas_width * height) <= frame@.len(),
{
    let pixels: usize = frame.len() / 4;
    let height: usize = pixels / (canvas_width as usize);
    proof {
        lemma_fundamental_div_mod(frame@.len() as int, 4);
        lemma_fundamental_div_mod(pixels as int, canvas_width as int);
    }
    height as i32
}

} // verus!
