//! Small geometry utilities shared by the shape routines.

use vstd::prelude::*;
use vstd::std_specs::cmp::PartialOrdIs;
use vstd::std_specs::cmp::PartialOrdSpec;

verus! {

/// A vertex in canvas space, as `(x, y)`.
pub type Vertex = (int, int);

/// The integer `n` restricted to the range from `min` to `max`.
pub open spec fn clamped(n: int, min: int, max: int) -> int {
    if n < min {
        min
    } else if n > max {
        max
    } else {
        n
    }
}

/// Restricts `n` to the range from `min` to `max`: a value below `min` gives
/// `min`, one above `max` gives `max`, any other is returned unchanged.
pub fn clamp<T: PartialOrd>(n: T, min: T, max: T) -> (clamped: T)
    ensures
        clamped == n || clamped == min || clamped == max,
        T::obeys_partial_cmp_spec() ==> clamped == (if n.is_lt(&min) {
            min
        } else if n.is_gt(&max) {
            max
        } else {
            n
        }),
{
    if n < min {
        min
    } else if n > max {
        max
    } else {
        n
    }
}

/// The part `[from, to)` of the range from `low` to `high`, both included,
/// that lies in `[0, limit)`.
pub(crate) fn clip(low: i64, high: i64, limit: i32) -> (part: (i32, i32))
    requires
        limit >= 0,
        high < i64::MAX,
    ensures
        part.0 == clamped(low as int, 0, limit as int),
        part.1 == clamped(high + 1, 0, limit as int),
{
    let from: i64 = clamp(low, 0i64, limit as i64);
    let to: i64 = clamp(high + 1, 0i64, limit as i64);
    (from as i32, to as i32)
}

/// Square of the Euclidean distance between `(origin_x, origin_y)` and
/// `(x, y)`.
pub open spec fn squared_distance(origin_x: int, origin_y: int, x: int, y: int) -> int {
    (origin_x - x) * (origin_x - x) + (origin_y - y) * (origin_y - y)
}

/// Square of the Euclidean distance between two points. Comparing squares
/// orders integer points exactly as comparing the distances themselves.
pub fn distance_squared(origin_x: i32, origin_y: i32, x: i32, y: i32) -> (squared: i128)
    ensures
        squared == squared_distance(origin_x as int, origin_y as int, x as int, y as int),
        squared >= 0,
{
    let x_dist: i128 = origin_x as i128 - x as i128;
    let y_dist: i128 = origin_y as i128 - y as i128;
    assert(0 <= x_dist * x_dist <= 0x1_0000_0000 * 0x1_0000_0000) by (nonlinear_arith)
        requires
            -0x1_0000_0000 <= x_dist <= 0x1_0000_0000,
    ;
    assert(0 <= y_dist * y_dist <= 0x1_0000_0000 * 0x1_0000_0000) by (nonlinear_arith)
        requires
            -0x1_0000_0000 <= y_dist <= 0x1_0000_0000,
    ;
    x_dist * x_dist + y_dist * y_dist
}

/// The quotient `n / d` rounded toward zero, for a positive divisor.
pub open spec fn div_toward_zero(n: int, d: int) -> int {
    if n >= 0 {
        n / d
    } else {
        -((-n) / d)
    }
}

/// Three vertices in ascending order of `y`. Vertices with equal `y` keep the
/// order in which they were given.
pub open spec fn sorted_by_y(v0: Vertex, v1: Vertex, v2: Vertex) -> (Vertex, Vertex, Vertex) {
    if v0.1 <= v1.1 {
        if v1.1 <= v2.1 {
            (v0, v1, v2)
        } else if v0.1 <= v2.1 {
            (v0, v2, v1)
        } else {
            (v2, v0, v1)
        }
    } else {
        if v0.1 <= v2.1 {
            (v1, v0, v2)
        } else if v1.1 <= v2.1 {
            (v1, v2, v0)
        } else {
            (v2, v1, v0)
        }
    }
}

/// `sorted_by_y` is the stable ascending sort: its result is ascending in `y`
/// and is `(v[i], v[j], v[k])` for a rearrangement `i, j, k` of the indices
/// `0, 1, 2` that keeps vertices of equal `y` in their given order.
pub proof fn lemma_sorted_by_y(v0: Vertex, v1: Vertex, v2: Vertex)
    ensures
        ({
            let v = seq![v0, v1, v2];
            let s = sorted_by_y(v0, v1, v2);
            &&& s.0.1 <= s.1.1 <= s.2.1
            &&& exists|i: int, j: int, k: int|
                {
                    &&& 0 <= i < 3 && 0 <= j < 3 && 0 <= k < 3
                    &&& i != j && j != k && i != k
                    &&& #[trigger] is_rearranged(v, s, i, j, k)
                    &&& (v[i].1 == v[j].1 ==> i < j)
                    &&& (v[j].1 == v[k].1 ==> j < k)
                    &&& (v[i].1 == v[k].1 ==> i < k)
                }
        }),
{
    let v = seq![v0, v1, v2];
    let s = sorted_by_y(v0, v1, v2);
    if v0.1 <= v1.1 {
        if v1.1 <= v2.1 {
            assert(is_rearranged(v, s, 0, 1, 2));
        } else if v0.1 <= v2.1 {
            assert(is_rearranged(v, s, 0, 2, 1));
        } else {
            assert(is_rearranged(v, s, 2, 0, 1));
        }
    } else {
        if v0.1 <= v2.1 {
            assert(is_rearranged(v, s, 1, 0, 2));
        } else if v1.1 <= v2.1 {
            assert(is_rearranged(v, s, 1, 2, 0));
        } else {
            assert(is_rearranged(v, s, 2, 1, 0));
        }
    }
}

/// Whether `s` holds the vertices of `v` at the indices `i`, `j` and `k`, in
/// that order.
pub open spec fn is_rearranged(
    v: Seq<Vertex>,
    s: (Vertex, Vertex, Vertex),
    i: int,
    j: int,
    k: int,
) -> bool {
    s == (v[i], v[j], v[k])
}

/// Sorts three vertices in place, in ascending order of `y`. Vertices with
/// equal `y` keep their order.
pub fn simple_bubble_sort_vector_by_y(
    mv0x: &mut i32,
    mv0y: &mut i32,
    mv1x: &mut i32,
    mv1y: &mut i32,
    mv2x: &mut i32,
    mv2y: &mut i32,
)
    ensures
        (
            (*final(mv0x) as int, *final(mv0y) as int),
            (*final(mv1x) as int, *final(mv1y) as int),
            (*final(mv2x) as int, *final(mv2y) as int),
        ) == sorted_by_y(
            (*old(mv0x) as int, *old(mv0y) as int),
            (*old(mv1x) as int, *old(mv1y) as int),
            (*old(mv2x) as int, *old(mv2y) as int),
        ),
{
    if *mv0y > *mv1y {
        std::mem::swap(mv0x, mv1x);
        std::mem::swap(mv0y, mv1y);
    }
    if *mv1y > *mv2y {
        std::mem::swap(mv1x, mv2x);
        std::mem::swap(mv1y, mv2y);
    }
    if *mv0y > *mv1y {
        std::mem::swap(mv0x, mv1x);
        std::mem::swap(mv0y, mv1y);
    }
}

} // verus!
