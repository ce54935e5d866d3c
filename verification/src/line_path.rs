//! The pixels of a rasterized line segment.
//!
//! A line is walked one pixel at a time along its major axis, the axis on
//! which the segment is longer. The pixel's coordinate on the other axis
//! follows the segment to the nearest integer.

use crate::geometry::Vec2;
use vstd::arithmetic::div_mod::{lemma_fundamental_div_mod, lemma_fundamental_div_mod_converse};
use vstd::math::abs;
use vstd::prelude::*;

verus! {

/// Whether the segment from `a` to `b` is steep: taller than it is wide.
pub open spec fn is_steep(a: Vec2<isize>, b: Vec2<isize>) -> bool {
    abs(a.x - b.x) < abs(a.y - b.y)
}

/// The ends of the segment as the line is walked, each as a pair of its
/// coordinate on the major axis (the one that is stepped along: y if the
/// segment is steep, else x) and on the minor axis. The walk starts at the
/// end with the smaller major coordinate.
pub open spec fn line_ends(a: Vec2<isize>, b: Vec2<isize>) -> ((int, int), (int, int)) {
    let (p, q) = if is_steep(a, b) {
        ((a.y as int, a.x as int), (b.y as int, b.x as int))
    } else {
        ((a.x as int, a.y as int), (b.x as int, b.y as int))
    };
    if p.0 > q.0 {
        (q, p)
    } else {
        (p, q)
    }
}

/// The number of pixels on the line from `a` to `b`: one for each step along
/// the major axis, both ends included.
pub open spec fn line_len(a: Vec2<isize>, b: Vec2<isize>) -> nat {
    let (p, q) = line_ends(a, b);
    (q.0 - p.0 + 1) as nat
}

/// How far the line has moved along the minor axis after `k` steps along the
/// major axis: `|dminor| * k / dmajor` rounded to the nearest integer, a
/// tie going to the smaller one.
pub open spec fn minor_offset(dmajor: int, dminor: int, k: int) -> int {
    if dmajor == 0 {
        0
    } else {
        (2 * abs(dminor) * k + dmajor - 1) / (2 * dmajor)
    }
}

/// The `k`-th pixel of the line from `a` to `b`, as `(x, y)`.
pub open spec fn line_point(a: Vec2<isize>, b: Vec2<isize>, k: int) -> (int, int) {
    let (p, q) = line_ends(a, b);
    let offset = minor_offset(q.0 - p.0, q.1 - p.1, k);
    let major = p.0 + k;
    let minor = if q.1 > p.1 {
        p.1 + offset
    } else {
        p.1 - offset
    };
    if is_steep(a, b) {
        (minor, major)
    } else {
        (major, minor)
    }
}

/// Whether `(x, y)` is among the first `n` pixels of the line from `a` to
/// `b`.
pub open spec fn among_first(a: Vec2<isize>, b: Vec2<isize>, n: int, x: int, y: int) -> bool {
    exists|k: int| 0 <= k < n && #[trigger] line_point(a, b, k) == (x, y)
}

/// Whether `(x, y)` is a pixel of the line from `a` to `b`.
pub open spec fn on_line(a: Vec2<isize>, b: Vec2<isize>, x: int, y: int) -> bool {
    among_first(a, b, line_len(a, b) as int, x, y)
}

/// `c` is the minor-axis offset after `k` steps if the error term
/// `2 * |dminor| * k - 2 * dmajor * c` lies in `(-dmajor, dmajor]`.
pub proof fn lemma_minor_offset_from_error(dmajor: int, dminor: int, k: int, c: int)
    requires
        dmajor > 0,
        -dmajor < 2 * abs(dminor) * k - 2 * dmajor * c <= dmajor,
    ensures
        minor_offset(dmajor, dminor, k) == c,
{
    let error = 2 * abs(dminor) * k - 2 * dmajor * c;
    assert(2 * dmajor * c == c * (2 * dmajor)) by (nonlinear_arith);
    lemma_fundamental_div_mod_converse(
        2 * abs(dminor) * k + dmajor - 1,
        2 * dmajor,
        c,
        error + dmajor - 1,
    );
}

/// The first `n + 1` pixels of a line are its first `n` pixels and pixel `n`.
pub proof fn lemma_among_first_step(a: Vec2<isize>, b: Vec2<isize>, n: int, x: int, y: int)
    requires
        0 <= n,
    ensures
        among_first(a, b, n + 1, x, y) <==> among_first(a, b, n, x, y) || line_point(a, b, n) == (
            x,
            y,
        ),
{
    if among_first(a, b, n + 1, x, y) {
        let k = choose|k: int| 0 <= k < n + 1 && #[trigger] line_point(a, b, k) == (x, y);
        if k < n {
            assert(among_first(a, b, n, x, y));
        }
    }
    if among_first(a, b, n, x, y) {
        let k = choose|k: int| 0 <= k < n && #[trigger] line_point(a, b, k) == (x, y);
        assert(0 <= k < n + 1 && line_point(a, b, k) == (x, y));
    }
    if line_point(a, b, n) == (x, y) {
        assert(0 <= n < n + 1 && line_point(a, b, n) == (x, y));
    }
}

/// The error term of the offset after `k` steps lies in `(-dmajor, dmajor]`.
pub proof fn lemma_minor_offset_error(dmajor: int, dminor: int, k: int)
    requires
        dmajor > 0,
    ensures
        -dmajor < 2 * abs(dminor) * k - 2 * dmajor * minor_offset(dmajor, dminor, k) <= dmajor,
{
    let n = 2 * abs(dminor) * k + dmajor - 1;
    let c = minor_offset(dmajor, dminor, k);
    lemma_fundamental_div_mod(n, 2 * dmajor);
    assert(2 * dmajor * c == (2 * dmajor) * (n / (2 * dmajor))) by (nonlinear_arith)
        requires
            c == n / (2 * dmajor),
    ;
}

/// From one step to the next the minor-axis offset stays or grows by one,
/// provided that the segment is no longer on the minor than on the major
/// axis.
pub proof fn lemma_minor_offset_step(dmajor: int, dminor: int, k: int)
    requires
        dmajor > 0,
        abs(dminor) <= dmajor,
    ensures
        minor_offset(dmajor, dminor, k) <= minor_offset(dmajor, dminor, k + 1) <= minor_offset(
            dmajor,
            dminor,
            k,
        ) + 1,
{
    let c = minor_offset(dmajor, dminor, k);
    let m = abs(dminor) as int;
    lemma_minor_offset_error(dmajor, dminor, k);
    let error = 2 * m * k - 2 * dmajor * c;
    assert(2 * m * (k + 1) == 2 * m * k + 2 * m) by (nonlinear_arith);
    assert(2 * dmajor * (c + 1) == 2 * dmajor * c + 2 * dmajor) by (nonlinear_arith);
    if error + 2 * m > dmajor {
        lemma_minor_offset_from_error(dmajor, dminor, k + 1, c + 1);
    } else {
        lemma_minor_offset_from_error(dmajor, dminor, k + 1, c);
    }
}

/// The offset is zero at the start and the whole minor-axis extent at the
/// end.
pub proof fn lemma_minor_offset_ends(dmajor: int, dminor: int)
    requires
        dmajor >= 0,
        abs(dminor) <= dmajor,
    ensures
        minor_offset(dmajor, dminor, 0) == 0,
        minor_offset(dmajor, dminor, dmajor) == abs(dminor),
{
    if dmajor > 0 {
        let m = abs(dminor) as int;
        lemma_minor_offset_from_error(dmajor, dminor, 0, 0);
        assert(2 * m * dmajor - 2 * dmajor * m == 0) by (nonlinear_arith);
        lemma_minor_offset_from_error(dmajor, dminor, dmajor, m);
    }
}

/// The walk's ends are the segment's ends, and the segment is at least as
/// long on the major as on the minor axis.
pub proof fn lemma_line_ends(a: Vec2<isize>, b: Vec2<isize>)
    ensures
        ({
            let (p, q) = line_ends(a, b);
            &&& p.0 <= q.0
            &&& abs(q.1 - p.1) <= q.0 - p.0
            &&& line_len(a, b) == q.0 - p.0 + 1
        }),
{
}

/// A line starts at one end of its segment and stops at the other.
pub proof fn lemma_line_reaches_both_ends(a: Vec2<isize>, b: Vec2<isize>)
    ensures
        ({
            let first = line_point(a, b, 0);
            let last = line_point(a, b, line_len(a, b) - 1);
            ||| first == (a.x as int, a.y as int) && last == (b.x as int, b.y as int)
            ||| first == (b.x as int, b.y as int) && last == (a.x as int, a.y as int)
        }),
{
    let (p, q) = line_ends(a, b);
    lemma_line_ends(a, b);
    lemma_minor_offset_ends(q.0 - p.0, q.1 - p.1);
}

/// Consecutive pixels of a line are neighbours, edge to edge or corner to
/// corner: they differ by one on the major axis and by at most one on the
/// minor axis. So the line is a connected 8-path.
pub proof fn lemma_line_connected(a: Vec2<isize>, b: Vec2<isize>, k: int)
    requires
        0 <= k,
        k + 1 < line_len(a, b),
    ensures
        ({
            let here = line_point(a, b, k);
            let next = line_point(a, b, k + 1);
            &&& abs(next.0 - here.0) <= 1
            &&& abs(next.1 - here.1) <= 1
            &&& here != next
        }),
{
    let (p, q) = line_ends(a, b);
    lemma_line_ends(a, b);
    lemma_minor_offset_step(q.0 - p.0, q.1 - p.1, k);
}

/// A line is the same in both directions: the pixels from `a` to `b` are
/// the pixels from `b` to `a`, in the same order.
pub proof fn lemma_line_symmetric(a: Vec2<isize>, b: Vec2<isize>)
    ensures
        line_len(a, b) == line_len(b, a),
        forall|k: int| line_point(a, b, k) == line_point(b, a, k),
        forall|x: int, y: int| on_line(a, b, x, y) == on_line(b, a, x, y),
{
    assert(line_ends(a, b) == line_ends(b, a));
    assert forall|k: int| line_point(a, b, k) == line_point(b, a, k) by {}
    assert forall|x: int, y: int| on_line(a, b, x, y) == on_line(b, a, x, y) by {
        lemma_among_first_same(a, b, line_len(a, b) as int, x, y);
    }
}

/// `among_first` is the same in both directions.
proof fn lemma_among_first_same(a: Vec2<isize>, b: Vec2<isize>, n: int, x: int, y: int)
    requires
        forall|k: int| line_point(a, b, k) == line_point(b, a, k),
    ensures
        among_first(a, b, n, x, y) == among_first(b, a, n, x, y),
{
    if among_first(a, b, n, x, y) {
        let k = choose|k: int| 0 <= k < n && #[trigger] line_point(a, b, k) == (x, y);
        assert(line_point(b, a, k) == (x, y));
    }
    if among_first(b, a, n, x, y) {
        let k = choose|k: int| 0 <= k < n && #[trigger] line_point(b, a, k) == (x, y);
        assert(line_point(a, b, k) == (x, y));
    }
}

/// The line from a point to itself is that one pixel.
pub proof fn lemma_line_single_point(a: Vec2<isize>)
    ensures
        line_len(a, a) == 1,
        line_point(a, a, 0) == (a.x as int, a.y as int),
        forall|x: int, y: int| on_line(a, a, x, y) <==> x == a.x && y == a.y,
{
    assert forall|x: int, y: int| on_line(a, a, x, y) <==> x == a.x && y == a.y by {
        if x == a.x && y == a.y {
            assert(line_point(a, a, 0) == (x, y));
        }
    }
}

} // verus!
