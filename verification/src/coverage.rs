//! Which pixels a triangle covers.
//!
//! A point's barycentric coordinates with respect to a triangle are kept
//! exact: three integer weights over a common positive total. The point is
//! the weighted mean of the three vertices, and it lies in the closed
//! triangle when no weight is negative.

use crate::geometry::Vec2;
use vstd::prelude::*;

verus! {

/// The largest magnitude of a coordinate for which the cross products of
/// coordinate differences fit in 128 bits.
pub const COORD_LIMIT: i128 = 0x2000_0000_0000_0000;

/// Whether both coordinates of `v` are within `COORD_LIMIT` of zero.
pub open spec fn in_range(v: Vec2<isize>) -> bool {
    &&& -COORD_LIMIT <= v.x <= COORD_LIMIT
    &&& -COORD_LIMIT <= v.y <= COORD_LIMIT
}

/// The cross product of `(t2.x - t0.x, t1.x - t0.x, t0.x - p.x)` and
/// `(t2.y - t0.y, t1.y - t0.y, t0.y - p.y)`.
pub open spec fn edge_cross(
    t0: Vec2<isize>,
    t1: Vec2<isize>,
    t2: Vec2<isize>,
    p: Vec2<isize>,
) -> (int, int, int) {
    (
        (t1.x - t0.x) * (t0.y - p.y) - (t0.x - p.x) * (t1.y - t0.y),
        (t0.x - p.x) * (t2.y - t0.y) - (t2.x - t0.x) * (t0.y - p.y),
        (t2.x - t0.x) * (t1.y - t0.y) - (t1.x - t0.x) * (t2.y - t0.y),
    )
}

/// Twice the signed area of the triangle. It is the third component of
/// `edge_cross`, whatever the point.
pub open spec fn doubled_area(t0: Vec2<isize>, t1: Vec2<isize>, t2: Vec2<isize>) -> int {
    (t2.x - t0.x) * (t1.y - t0.y) - (t1.x - t0.x) * (t2.y - t0.y)
}

/// Whether the triangle has no area: its vertices lie on one line.
pub open spec fn is_degenerate(t0: Vec2<isize>, t1: Vec2<isize>, t2: Vec2<isize>) -> bool {
    doubled_area(t0, t1, t2) == 0
}

/// The total that the weights of a point add up to: the doubled area without
/// its sign, or 1 for a triangle without area.
pub open spec fn barycentric_total(t0: Vec2<isize>, t1: Vec2<isize>, t2: Vec2<isize>) -> int {
    let area = doubled_area(t0, t1, t2);
    if area == 0 {
        1
    } else if area > 0 {
        area
    } else {
        -area
    }
}

/// The weights of `t0`, `t1` and `t2` at the point `p`. A triangle without
/// area gives every point the weights `(-1, 1, 1)`, the first of them
/// negative.
pub open spec fn barycentric_weights(
    t0: Vec2<isize>,
    t1: Vec2<isize>,
    t2: Vec2<isize>,
    p: Vec2<isize>,
) -> (int, int, int) {
    let u = edge_cross(t0, t1, t2, p);
    if u.2 == 0 {
        (-1, 1, 1)
    } else if u.2 > 0 {
        (u.2 - (u.0 + u.1), u.1, u.0)
    } else {
        ((u.0 + u.1) - u.2, -u.1, -u.0)
    }
}

/// Whether the triangle covers `p`: none of the point's weights is negative.
pub open spec fn covers(t0: Vec2<isize>, t1: Vec2<isize>, t2: Vec2<isize>, p: Vec2<isize>) -> bool {
    let w = barycentric_weights(t0, t1, t2, p);
    w.0 >= 0 && w.1 >= 0 && w.2 >= 0
}

/// Whether the triangle covers the pixel `(x, y)`.
pub open spec fn covers_pixel(
    t0: Vec2<isize>,
    t1: Vec2<isize>,
    t2: Vec2<isize>,
    x: int,
    y: int,
) -> bool {
    isize::MIN <= x <= isize::MAX && isize::MIN <= y <= isize::MAX && covers(
        t0,
        t1,
        t2,
        Vec2 { x: x as isize, y: y as isize },
    )
}

/// The weights of a point add up to the total, which is positive.
pub proof fn lemma_weights_total(
    t0: Vec2<isize>,
    t1: Vec2<isize>,
    t2: Vec2<isize>,
    p: Vec2<isize>,
)
    ensures
        ({
            let w = barycentric_weights(t0, t1, t2, p);
            w.0 + w.1 + w.2 == barycentric_total(t0, t1, t2)
        }),
        barycentric_total(t0, t1, t2) > 0,
{
}

/// A point is the mean of the vertices of a triangle with area, each taken
/// with its weight.
pub proof fn lemma_weighted_mean(
    t0: Vec2<isize>,
    t1: Vec2<isize>,
    t2: Vec2<isize>,
    p: Vec2<isize>,
)
    requires
        !is_degenerate(t0, t1, t2),
    ensures
        ({
            let w = barycentric_weights(t0, t1, t2, p);
            let total = barycentric_total(t0, t1, t2);
            &&& w.0 * t0.x + w.1 * t1.x + w.2 * t2.x == total * p.x
            &&& w.0 * t0.y + w.1 * t1.y + w.2 * t2.y == total * p.y
        }),
{
    let u = edge_cross(t0, t1, t2, p);
    let (ax, ay, az) = (t2.x - t0.x, t1.x - t0.x, t0.x - p.x);
    let (bx, by, bz) = (t2.y - t0.y, t1.y - t0.y, t0.y - p.y);
    assert(u.0 * ax + u.1 * ay + u.2 * az == 0) by (nonlinear_arith)
        requires
            u.0 == ay * bz - az * by,
            u.1 == az * bx - ax * bz,
            u.2 == ax * by - ay * bx,
    ;
    assert(u.0 * bx + u.1 * by + u.2 * bz == 0) by (nonlinear_arith)
        requires
            u.0 == ay * bz - az * by,
            u.1 == az * bx - ax * bz,
            u.2 == ax * by - ay * bx,
    ;
    let (x0, x1, x2, px) = (t0.x as int, t1.x as int, t2.x as int, p.x as int);
    let (y0, y1, y2, py) = (t0.y as int, t1.y as int, t2.y as int, p.y as int);
    assert((u.2 - (u.0 + u.1)) * x0 + u.1 * x1 + u.0 * x2 == u.2 * px) by (nonlinear_arith)
        requires
            u.0 * (x2 - x0) + u.1 * (x1 - x0) + u.2 * (x0 - px) == 0,
    ;
    assert((u.2 - (u.0 + u.1)) * y0 + u.1 * y1 + u.0 * y2 == u.2 * py) by (nonlinear_arith)
        requires
            u.0 * (y2 - y0) + u.1 * (y1 - y0) + u.2 * (y0 - py) == 0,
    ;
    if u.2 < 0 {
        assert(((u.0 + u.1) - u.2) * x0 + (-u.1) * x1 + (-u.0) * x2 == (-u.2) * px)
            by (nonlinear_arith)
            requires
                (u.2 - (u.0 + u.1)) * x0 + u.1 * x1 + u.0 * x2 == u.2 * px,
        ;
        assert(((u.0 + u.1) - u.2) * y0 + (-u.1) * y1 + (-u.0) * y2 == (-u.2) * py)
            by (nonlinear_arith)
            requires
                (u.2 - (u.0 + u.1)) * y0 + u.1 * y1 + u.0 * y2 == u.2 * py,
        ;
    }
}

/// A triangle without area covers nothing.
pub proof fn lemma_degenerate_covers_nothing(
    t0: Vec2<isize>,
    t1: Vec2<isize>,
    t2: Vec2<isize>,
    p: Vec2<isize>,
)
    requires
        is_degenerate(t0, t1, t2),
    ensures
        !covers(t0, t1, t2, p),
{
}

/// A covered point lies within the bounding box of the vertices.
pub proof fn lemma_covered_within_vertices(
    t0: Vec2<isize>,
    t1: Vec2<isize>,
    t2: Vec2<isize>,
    p: Vec2<isize>,
)
    requires
        covers(t0, t1, t2, p),
    ensures
        p.x >= t0.x || p.x >= t1.x || p.x >= t2.x,
        p.x <= t0.x || p.x <= t1.x || p.x <= t2.x,
        p.y >= t0.y || p.y >= t1.y || p.y >= t2.y,
        p.y <= t0.y || p.y <= t1.y || p.y <= t2.y,
{
    let w = barycentric_weights(t0, t1, t2, p);
    let total = barycentric_total(t0, t1, t2);
    lemma_weights_total(t0, t1, t2, p);
    lemma_weighted_mean(t0, t1, t2, p);
    lemma_mean_between(w.0, w.1, w.2, t0.x as int, t1.x as int, t2.x as int, p.x as int);
    lemma_mean_between(w.0, w.1, w.2, t0.y as int, t1.y as int, t2.y as int, p.y as int);
}

/// A weighted mean with weights that are not negative is no smaller than
/// the least of the values and no larger than the greatest.
proof fn lemma_mean_between(w0: int, w1: int, w2: int, v0: int, v1: int, v2: int, m: int)
    requires
        w0 >= 0,
        w1 >= 0,
        w2 >= 0,
        w0 + w1 + w2 > 0,
        w0 * v0 + w1 * v1 + w2 * v2 == (w0 + w1 + w2) * m,
    ensures
        m >= v0 || m >= v1 || m >= v2,
        m <= v0 || m <= v1 || m <= v2,
{
    if m < v0 && m < v1 && m < v2 {
        assert(w0 * v0 + w1 * v1 + w2 * v2 > (w0 + w1 + w2) * m) by (nonlinear_arith)
            requires
                w0 >= 0,
                w1 >= 0,
                w2 >= 0,
                w0 + w1 + w2 > 0,
                m < v0,
                m < v1,
                m < v2,
        ;
    }
    if m > v0 && m > v1 && m > v2 {
        assert(w0 * v0 + w1 * v1 + w2 * v2 < (w0 + w1 + w2) * m) by (nonlinear_arith)
            requires
                w0 >= 0,
                w1 >= 0,
                w2 >= 0,
                w0 + w1 + w2 > 0,
                m > v0,
                m > v1,
                m > v2,
        ;
    }
}

/// A triangle with area covers every point of the closed triangle: every
/// point that is a weighted mean of the vertices with weights `m0`, `m1`,
/// `m2` that are not negative.
pub proof fn lemma_mean_is_covered(
    t0: Vec2<isize>,
    t1: Vec2<isize>,
    t2: Vec2<isize>,
    p: Vec2<isize>,
    m0: int,
    m1: int,
    m2: int,
)
    requires
        !is_degenerate(t0, t1, t2),
        m0 >= 0,
        m1 >= 0,
        m2 >= 0,
        m0 + m1 + m2 > 0,
        m0 * t0.x + m1 * t1.x + m2 * t2.x == (m0 + m1 + m2) * p.x,
        m0 * t0.y + m1 * t1.y + m2 * t2.y == (m0 + m1 + m2) * p.y,
    ensures
        covers(t0, t1, t2, p),
{
    let u = edge_cross(t0, t1, t2, p);
    let m = m0 + m1 + m2;
    let (ax, ay, az) = (t2.x - t0.x, t1.x - t0.x, t0.x - p.x);
    let (bx, by, bz) = (t2.y - t0.y, t1.y - t0.y, t0.y - p.y);
    lemma_mean_offset(m0, m1, m2, t0.x as int, t1.x as int, t2.x as int, p.x as int);
    lemma_mean_offset(m0, m1, m2, t0.y as int, t1.y as int, t2.y as int, p.y as int);
    let ma = -(m1 * ay + m2 * ax);
    let mb = -(m1 * by + m2 * bx);
    assert(m * az == ma);
    assert(m * bz == mb);
    assert(m * (ay * bz - az * by) == ay * (m * bz) - (m * az) * by) by (nonlinear_arith);
    assert(ay * (-(m1 * by + m2 * bx)) - (-(m1 * ay + m2 * ax)) * by == m2 * (ax * by - ay * bx))
        by (nonlinear_arith);
    assert(m * u.0 == m2 * u.2);
    assert(m * (az * bx - ax * bz) == (m * az) * bx - ax * (m * bz)) by (nonlinear_arith);
    assert((-(m1 * ay + m2 * ax)) * bx - ax * (-(m1 * by + m2 * bx)) == m1 * (ax * by - ay * bx))
        by (nonlinear_arith);
    assert(m * u.1 == m1 * u.2);
    assert(m * (u.2 - (u.0 + u.1)) == m * u.2 - m * u.0 - m * u.1) by (nonlinear_arith);
    assert((m0 + m1 + m2) * u.2 == m0 * u.2 + m1 * u.2 + m2 * u.2) by (nonlinear_arith);
    assert(m * (u.2 - (u.0 + u.1)) == m0 * u.2);
    lemma_same_sign(m, u.0, m2, u.2);
    lemma_same_sign(m, u.1, m1, u.2);
    lemma_same_sign(m, u.2 - (u.0 + u.1), m0, u.2);
}

/// If `p` is the mean of `v0`, `v1`, `v2` with the weights `m0`, `m1`, `m2`,
/// then the weights' sum times `v0 - p` is what the second and third value
/// pull away from the first.
proof fn lemma_mean_offset(m0: int, m1: int, m2: int, v0: int, v1: int, v2: int, p: int)
    requires
        m0 * v0 + m1 * v1 + m2 * v2 == (m0 + m1 + m2) * p,
    ensures
        (m0 + m1 + m2) * (v0 - p) == -(m1 * (v1 - v0) + m2 * (v2 - v0)),
{
    let m = m0 + m1 + m2;
    assert(m * (v0 - p) == m * v0 - m * p) by (nonlinear_arith);
    assert((m0 + m1 + m2) * v0 == m0 * v0 + m1 * v0 + m2 * v0) by (nonlinear_arith);
    assert(m1 * (v1 - v0) == m1 * v1 - m1 * v0) by (nonlinear_arith);
    assert(m2 * (v2 - v0) == m2 * v2 - m2 * v0) by (nonlinear_arith);
}

/// If `m * v == k * area` with `m` positive and `k` not negative, then `v`
/// is zero or has the sign of `area`.
proof fn lemma_same_sign(m: int, v: int, k: int, area: int)
    requires
        m > 0,
        k >= 0,
        m * v == k * area,
    ensures
        area > 0 ==> v >= 0,
        area < 0 ==> v <= 0,
{
    if area > 0 && v < 0 {
        assert(m * v < 0 && k * area >= 0) by (nonlinear_arith)
            requires
                m > 0,
                v < 0,
                k >= 0,
                area > 0,
        ;
    }
    if area < 0 && v > 0 {
        assert(m * v > 0 && k * area <= 0) by (nonlinear_arith)
            requires
                m > 0,
                v > 0,
                k >= 0,
                area < 0,
        ;
    }
}

} // verus!
