//! Line and triangle rasterization into a framebuffer.

use crate::coverage::{
    barycentric_total, barycentric_weights, covers_pixel, edge_cross, in_range, is_degenerate,
    lemma_covered_within_vertices, COORD_LIMIT,
};
use crate::geometry::{Vec2, Vec3};
use crate::line_path::{
    among_first, is_steep, lemma_among_first_step, lemma_minor_offset_from_error, line_ends,
    line_len, line_point, minor_offset, on_line,
};
use crate::tga::{ColorSpace, Image};
use vstd::math::{abs, max, min};
use vstd::prelude::*;

verus! {

/// The absolute value of `v`.
fn abs_i128(v: i128) -> (r: i128)
    requires
        v > i128::MIN,
    ensures
        r == abs(v as int),
{
    if v < 0 {
        -v
    } else {
        v
    }
}

/// Sets the pixel at `(x, y)` if the image has one there, and does nothing
/// otherwise.
fn plot<T: ColorSpace + Copy>(image: &mut Image<T>, x: i128, y: i128, color: T)
    ensures
        final(image).spec_width() == old(image).spec_width(),
        final(image).spec_height() == old(image).spec_height(),
        final(image)@.len() == old(image)@.len(),
        forall|i: int, j: int|
            old(image).contains(i, j) ==> #[trigger] final(image).pixel(i, j) == if i == x && j
                == y {
                color
            } else {
                old(image).pixel(i, j)
            },
{
    if 0 <= x && x < image.width() as i128 && 0 <= y && y < image.height() as i128 {
        let _ = image.set(x as usize, y as usize, color);
    }
}

/// Draws the line from `a` to `b`: one pixel for each step along the axis on
/// which the segment is longer, both ends included. Pixels of the line that
/// fall outside the image are skipped.
pub fn line<T: ColorSpace + Copy>(
    a: &Vec2<isize>,
    b: &Vec2<isize>,
    image: &mut Image<T>,
    color: T,
)
    ensures
        final(image).spec_width() == old(image).spec_width(),
        final(image).spec_height() == old(image).spec_height(),
        final(image)@.len() == old(image)@.len(),
        forall|x: int, y: int|
            old(image).contains(x, y) ==> #[trigger] final(image).pixel(x, y) == if on_line(
                *a,
                *b,
                x,
                y,
            ) {
                color
            } else {
                old(image).pixel(x, y)
            },
{
    let mut x0 = a.x as i128;
    let mut y0 = a.y as i128;
    let mut x1 = b.x as i128;
    let mut y1 = b.y as i128;
    let mut steep = false;
    if abs_i128(x0 - x1) < abs_i128(y0 - y1) {
        core::mem::swap(&mut x0, &mut y0);
        core::mem::swap(&mut x1, &mut y1);
        steep = true;
    }
    if x0 > x1 {
        core::mem::swap(&mut x0, &mut x1);
        core::mem::swap(&mut y0, &mut y1);
    }
    let dx = x1 - x0;
    let dy = y1 - y0;
    let derror2 = abs_i128(dy) * 2;
    let mut error2: i128 = 0;
    let mut y = y0;
    let mut x = x0;
    let ghost mut steps: int = 0;
    let ghost mut offset: int = 0;
    proof {
        if dx > 0 {
            lemma_minor_offset_from_error(dx as int, dy as int, 0, 0);
        }
    }
    loop
        invariant
            line_ends(*a, *b) == ((x0 as int, y0 as int), (x1 as int, y1 as int)),
            steep == is_steep(*a, *b),
            isize::MIN <= x0 <= x1 <= isize::MAX,
            isize::MIN <= y0 <= isize::MAX,
            isize::MIN <= y1 <= isize::MAX,
            dx == x1 - x0,
            dy == y1 - y0,
            derror2 == 2 * abs(dy as int),
            abs(dy as int) <= dx,
            0 <= steps <= dx + 1,
            x == x0 + steps,
            0 <= offset <= steps,
            offset == minor_offset(dx as int, dy as int, steps),
            y == if y1 > y0 {
                y0 + offset
            } else {
                y0 - offset
            },
            error2 == 2 * abs(dy as int) * steps - 2 * dx * offset,
            -dx < error2 <= dx || (dx == 0 && error2 == 0),
            image.spec_width() == old(image).spec_width(),
            image.spec_height() == old(image).spec_height(),
            image@.len() == old(image)@.len(),
            forall|i: int, j: int|
                old(image).contains(i, j) ==> #[trigger] image.pixel(i, j) == if among_first(
                    *a,
                    *b,
                    steps,
                    i,
                    j,
                ) {
                    color
                } else {
                    old(image).pixel(i, j)
                },
        ensures
            steps == line_len(*a, *b),
        decreases x1 + 1 - x,
    {
        if x > x1 {
            break;
        }
        let ghost before = *image;
        if steep {
            plot(image, y, x, color);
        } else {
            plot(image, x, y, color);
        }
        assert((if steep {
            (y as int, x as int)
        } else {
            (x as int, y as int)
        }) == line_point(*a, *b, steps));
        proof {
            assert forall|i: int, j: int| old(image).contains(i, j) implies #[trigger] image.pixel(
                i,
                j,
            ) == if among_first(*a, *b, steps + 1, i, j) {
                color
            } else {
                old(image).pixel(i, j)
            } by {
                lemma_among_first_step(*a, *b, steps, i, j);
                assert(before.contains(i, j));
            }
        }
        error2 += derror2;
        if error2 > dx {
            y += if y1 > y0 {
                1
            } else {
                -1
            };
            error2 -= dx * 2;
            proof {
                offset = offset + 1;
            }
        }
        x += 1;
        proof {
            let ady = abs(dy as int) as int;
            assert(2 * ady * (steps + 1) == 2 * ady * steps + 2 * ady) by (nonlinear_arith);
            assert(2 * dx * (offset - 1 + 1) == 2 * dx * (offset - 1) + 2 * dx)
                by (nonlinear_arith);
            steps = steps + 1;
            if dx > 0 {
                lemma_minor_offset_from_error(dx as int, dy as int, steps, offset);
            }
        }
    }
}

/// Whether `bound` is the least of the values `max(floor, v)`, with `v` a
/// value of `values` or `ceiling`.
pub open spec fn is_clamped_min(bound: int, values: Seq<int>, floor: int, ceiling: int) -> bool {
    &&& bound <= max(floor, ceiling)
    &&& forall|i: int| 0 <= i < values.len() ==> bound <= max(floor, #[trigger] values[i])
    &&& (bound == max(floor, ceiling) || exists|i: int|
        0 <= i < values.len() && bound == max(floor, #[trigger] values[i]))
}

/// Whether `bound` is the greatest of the values `min(ceiling, v)`, with `v`
/// a value of `values` or `floor`.
pub open spec fn is_clamped_max(bound: int, values: Seq<int>, floor: int, ceiling: int) -> bool {
    &&& bound >= min(ceiling, floor)
    &&& forall|i: int| 0 <= i < values.len() ==> bound >= min(ceiling, #[trigger] values[i])
    &&& (bound == min(ceiling, floor) || exists|i: int|
        0 <= i < values.len() && bound == min(ceiling, #[trigger] values[i]))
}

/// The x coordinates of `points`.
pub open spec fn xs(points: Seq<Vec2<isize>>) -> Seq<int> {
    Seq::new(points.len(), |i: int| points[i].x as int)
}

/// The y coordinates of `points`.
pub open spec fn ys(points: Seq<Vec2<isize>>) -> Seq<int> {
    Seq::new(points.len(), |i: int| points[i].y as int)
}

/// The larger of `a` and `b`.
fn max_of(a: isize, b: isize) -> (m: isize)
    ensures
        m == max(a as int, b as int),
{
    if a >= b {
        a
    } else {
        b
    }
}

/// The smaller of `a` and `b`.
fn min_of(a: isize, b: isize) -> (m: isize)
    ensures
        m == min(a as int, b as int),
{
    if a <= b {
        a
    } else {
        b
    }
}

/// The bounding box of `points`, clipped to the box from `c_min` to `c_max`,
/// as its least and its greatest corner. On each axis the least corner is
/// the least of the points' coordinates and of `c_max`, none of them taken
/// below `c_min`; the greatest corner is the greatest of the points'
/// coordinates and of `c_min`, none of them taken above `c_max`.
pub fn bounding_box(points: &[Vec2<isize>], c_min: Vec2<isize>, c_max: Vec2<isize>) -> (corners: (
    Vec2<isize>,
    Vec2<isize>,
))
    ensures
        is_clamped_min(corners.0.x as int, xs(points@), c_min.x as int, c_max.x as int),
        is_clamped_min(corners.0.y as int, ys(points@), c_min.y as int, c_max.y as int),
        is_clamped_max(corners.1.x as int, xs(points@), c_min.x as int, c_max.x as int),
        is_clamped_max(corners.1.y as int, ys(points@), c_min.y as int, c_max.y as int),
{
    let mut min_x = max_of(c_min.x, c_max.x);
    let mut min_y = max_of(c_min.y, c_max.y);
    let mut max_x = min_of(c_max.x, c_min.x);
    let mut max_y = min_of(c_max.y, c_min.y);
    let n = points.len();
    let mut i: usize = 0;
    while i < n
        invariant
            i <= n,
            n == points@.len(),
            is_clamped_min(min_x as int, xs(points@).take(i as int), c_min.x as int, c_max.x as int),
            is_clamped_min(min_y as int, ys(points@).take(i as int), c_min.y as int, c_max.y as int),
            is_clamped_max(max_x as int, xs(points@).take(i as int), c_min.x as int, c_max.x as int),
            is_clamped_max(max_y as int, ys(points@).take(i as int), c_min.y as int, c_max.y as int),
        decreases n - i,
    {
        let p = points[i];
        let ghost before = (min_x as int, min_y as int, max_x as int, max_y as int);
        min_x = min_of(min_x, max_of(c_min.x, p.x));
        min_y = min_of(min_y, max_of(c_min.y, p.y));
        max_x = max_of(max_x, min_of(c_max.x, p.x));
        max_y = max_of(max_y, min_of(c_max.y, p.y));
        proof {
            lemma_clamped_min_step(
                before.0,
                xs(points@),
                i as int,
                c_min.x as int,
                c_max.x as int,
            );
            lemma_clamped_min_step(
                before.1,
                ys(points@),
                i as int,
                c_min.y as int,
                c_max.y as int,
            );
            lemma_clamped_max_step(
                before.2,
                xs(points@),
                i as int,
                c_min.x as int,
                c_max.x as int,
            );
            lemma_clamped_max_step(
                before.3,
                ys(points@),
                i as int,
                c_min.y as int,
                c_max.y as int,
            );
        }
        i += 1;
    }
    proof {
        assert(xs(points@).take(n as int) =~= xs(points@));
        assert(ys(points@).take(n as int) =~= ys(points@));
    }
    (Vec2 { x: min_x, y: min_y }, Vec2 { x: max_x, y: max_y })
}

/// Taking one more value into a clamped minimum.
proof fn lemma_clamped_min_step(bound: int, values: Seq<int>, i: int, floor: int, ceiling: int)
    requires
        0 <= i < values.len(),
        is_clamped_min(bound, values.take(i), floor, ceiling),
    ensures
        is_clamped_min(
            min(bound, max(floor, values[i])),
            values.take(i + 1),
            floor,
            ceiling,
        ),
{
    let next = min(bound, max(floor, values[i]));
    let shorter = values.take(i);
    let longer = values.take(i + 1);
    assert forall|j: int| 0 <= j < longer.len() implies next <= max(
        floor,
        #[trigger] longer[j],
    ) by {
        if j < i {
            assert(longer[j] == shorter[j]);
        }
    }
    if next == bound {
        if bound != max(floor, ceiling) {
            let j = choose|j: int|
                0 <= j < shorter.len() && bound == max(floor, #[trigger] shorter[j]);
            assert(longer[j] == shorter[j]);
        }
    } else {
        assert(longer[i] == values[i]);
    }
}

/// Taking one more value into a clamped maximum.
proof fn lemma_clamped_max_step(bound: int, values: Seq<int>, i: int, floor: int, ceiling: int)
    requires
        0 <= i < values.len(),
        is_clamped_max(bound, values.take(i), floor, ceiling),
    ensures
        is_clamped_max(
            max(bound, min(ceiling, values[i])),
            values.take(i + 1),
            floor,
            ceiling,
        ),
{
    let next = max(bound, min(ceiling, values[i]));
    let shorter = values.take(i);
    let longer = values.take(i + 1);
    assert forall|j: int| 0 <= j < longer.len() implies next >= min(
        ceiling,
        #[trigger] longer[j],
    ) by {
        if j < i {
            assert(longer[j] == shorter[j]);
        }
    }
    if next == bound {
        if bound != min(ceiling, floor) {
            let j = choose|j: int|
                0 <= j < shorter.len() && bound == min(ceiling, #[trigger] shorter[j]);
            assert(longer[j] == shorter[j]);
        }
    } else {
        assert(longer[i] == values[i]);
    }
}

/// The barycentric coordinates of a point as exact fractions: the weights of
/// the three vertices over their positive total.
#[derive(Debug, Clone, Copy)]
pub struct Barycentric {
    pub weights: Vec3<i128>,
    pub total: i128,
}

/// The product of two differences of coordinates that are within
/// `COORD_LIMIT` of zero is within `4 * COORD_LIMIT * COORD_LIMIT` of zero.
proof fn lemma_product_bound(a: int, b: int)
    requires
        -0x4000_0000_0000_0000 <= a <= 0x4000_0000_0000_0000,
        -0x4000_0000_0000_0000 <= b <= 0x4000_0000_0000_0000,
    ensures
        -0x1000_0000_0000_0000_0000_0000_0000_0000 <= a * b
            <= 0x1000_0000_0000_0000_0000_0000_0000_0000,
{
    assert(-0x1000_0000_0000_0000_0000_0000_0000_0000 <= a * b
        <= 0x1000_0000_0000_0000_0000_0000_0000_0000) by (nonlinear_arith)
        requires
            -0x4000_0000_0000_0000 <= a <= 0x4000_0000_0000_0000,
            -0x4000_0000_0000_0000 <= b <= 0x4000_0000_0000_0000,
    ;
}

/// The barycentric coordinates of `p` with respect to the triangle `t0`,
/// `t1`, `t2`. For a triangle without area they are `(-1, 1, 1)` over 1.
pub fn barycentric(t0: Vec2<isize>, t1: Vec2<isize>, t2: Vec2<isize>, p: Vec2<isize>) -> (bc:
    Barycentric)
    requires
        in_range(t0),
        in_range(t1),
        in_range(t2),
        in_range(p),
    ensures
        (bc.weights.x as int, bc.weights.y as int, bc.weights.z as int) == barycentric_weights(
            t0,
            t1,
            t2,
            p,
        ),
        bc.total == barycentric_total(t0, t1, t2),
{
    let a = Vec3 {
        x: t2.x as i128 - t0.x as i128,
        y: t1.x as i128 - t0.x as i128,
        z: t0.x as i128 - p.x as i128,
    };
    let b = Vec3 {
        x: t2.y as i128 - t0.y as i128,
        y: t1.y as i128 - t0.y as i128,
        z: t0.y as i128 - p.y as i128,
    };
    proof {
        lemma_product_bound(a.y as int, b.z as int);
        lemma_product_bound(a.z as int, b.y as int);
        lemma_product_bound(a.z as int, b.x as int);
        lemma_product_bound(a.x as int, b.z as int);
        lemma_product_bound(a.x as int, b.y as int);
        lemma_product_bound(a.y as int, b.x as int);
    }
    let u = a.cross_product(b);
    assert((u.x as int, u.y as int, u.z as int) == edge_cross(t0, t1, t2, p));
    if abs_i128(u.z) < 1 {
        Barycentric { weights: Vec3 { x: -1, y: 1, z: 1 }, total: 1 }
    } else if u.z > 0 {
        Barycentric { weights: Vec3 { x: u.z - (u.x + u.y), y: u.y, z: u.x }, total: u.z }
    } else {
        Barycentric { weights: Vec3 { x: (u.x + u.y) - u.z, y: -u.y, z: -u.x }, total: -u.z }
    }
}

/// `v` as a coordinate, or the greatest coordinate if `v` is greater.
fn to_coordinate(v: usize) -> (c: isize)
    ensures
        c == min(v as int, isize::MAX as int),
{
    if v > isize::MAX as usize {
        isize::MAX
    } else {
        v as isize
    }
}

/// A pixel that the triangle covers lies in the triangle's bounding box
/// clipped to the image.
proof fn lemma_covered_in_box(
    t0: Vec2<isize>,
    t1: Vec2<isize>,
    t2: Vec2<isize>,
    lo: Vec2<isize>,
    hi: Vec2<isize>,
    c_max: Vec2<isize>,
    x: int,
    y: int,
)
    requires
        is_clamped_min(lo.x as int, xs(seq![t0, t1, t2]), 0, c_max.x as int),
        is_clamped_min(lo.y as int, ys(seq![t0, t1, t2]), 0, c_max.y as int),
        is_clamped_max(hi.x as int, xs(seq![t0, t1, t2]), 0, c_max.x as int),
        is_clamped_max(hi.y as int, ys(seq![t0, t1, t2]), 0, c_max.y as int),
        0 <= x <= c_max.x,
        0 <= y <= c_max.y,
        covers_pixel(t0, t1, t2, x, y),
    ensures
        lo.x <= x <= hi.x,
        lo.y <= y <= hi.y,
{
    let p = Vec2 { x: x as isize, y: y as isize };
    let px = xs(seq![t0, t1, t2]);
    let py = ys(seq![t0, t1, t2]);
    lemma_covered_within_vertices(t0, t1, t2, p);
    assert(px[0] == t0.x && px[1] == t1.x && px[2] == t2.x);
    assert(py[0] == t0.y && py[1] == t1.y && py[2] == t2.y);
}

/// Fills the triangle `t0`, `t1`, `t2`, its edges included: every pixel of
/// the image that the triangle covers takes the color, and no other pixel
/// changes. A triangle without area fills nothing.
pub fn triangle<T: ColorSpace + Copy>(
    t0: Vec2<isize>,
    t1: Vec2<isize>,
    t2: Vec2<isize>,
    image: &mut Image<T>,
    color: T,
)
    requires
        in_range(t0),
        in_range(t1),
        in_range(t2),
    ensures
        final(image).spec_width() == old(image).spec_width(),
        final(image).spec_height() == old(image).spec_height(),
        final(image)@.len() == old(image)@.len(),
        forall|x: int, y: int|
            old(image).contains(x, y) ==> #[trigger] final(image).pixel(x, y) == if covers_pixel(
                t0,
                t1,
                t2,
                x,
                y,
            ) {
                color
            } else {
                old(image).pixel(x, y)
            },
        is_degenerate(t0, t1, t2) ==> final(image)@ == old(image)@,
{
    let width = image.width();
    let height = image.height();
    if width == 0 || height == 0 {
        return ;
    }
    let c_max = Vec2 { x: to_coordinate(width - 1), y: to_coordinate(height - 1) };
    let vertices = [t0, t1, t2];
    let bbox = bounding_box(vertices.as_slice(), Vec2 { x: 0, y: 0 }, c_max);
    let lo = bbox.0;
    let hi = bbox.1;
    proof {
        assert(vertices@ =~= seq![t0, t1, t2]);
        let px = xs(seq![t0, t1, t2]);
        let py = ys(seq![t0, t1, t2]);
        assert(px[0] == t0.x && px[1] == t1.x && px[2] == t2.x);
        assert(py[0] == t0.y && py[1] == t1.y && py[2] == t2.y);
    }
    proof {
        assert forall|i: int, j: int| old(image).contains(i, j) && covers_pixel(
            t0,
            t1,
            t2,
            i,
            j,
        ) implies lo.x <= i by {
            lemma_covered_in_box(t0, t1, t2, lo, hi, c_max, i, j);
        }
    }
    let mut x: i128 = lo.x as i128;
    while x <= hi.x as i128
        invariant
            in_range(t0),
            in_range(t1),
            in_range(t2),
            is_clamped_min(lo.x as int, xs(seq![t0, t1, t2]), 0, c_max.x as int),
            is_clamped_min(lo.y as int, ys(seq![t0, t1, t2]), 0, c_max.y as int),
            is_clamped_max(hi.x as int, xs(seq![t0, t1, t2]), 0, c_max.x as int),
            is_clamped_max(hi.y as int, ys(seq![t0, t1, t2]), 0, c_max.y as int),
            c_max.x == min(width - 1, isize::MAX as int),
            c_max.y == min(height - 1, isize::MAX as int),
            width >= 1,
            height >= 1,
            0 <= lo.x <= x,
            0 <= lo.y,
            hi.x <= c_max.x,
            hi.y <= c_max.y,
            hi.x <= COORD_LIMIT,
            hi.y <= COORD_LIMIT,
            image.spec_width() == width,
            image.spec_height() == height,
            old(image).spec_width() == width,
            old(image).spec_height() == height,
            image@.len() == old(image)@.len(),
            is_degenerate(t0, t1, t2) ==> image@ == old(image)@,
            forall|i: int, j: int|
                old(image).contains(i, j) ==> #[trigger] image.pixel(i, j) == if covers_pixel(
                    t0,
                    t1,
                    t2,
                    i,
                    j,
                ) && i < x {
                    color
                } else {
                    old(image).pixel(i, j)
                },
        ensures
            x > hi.x,
        decreases hi.x + 1 - x,
    {
        let mut y: i128 = lo.y as i128;
        proof {
            assert forall|i: int, j: int| old(image).contains(i, j) && covers_pixel(
                t0,
                t1,
                t2,
                i,
                j,
            ) implies lo.y <= j <= hi.y by {
                lemma_covered_in_box(t0, t1, t2, lo, hi, c_max, i, j);
            }
        }
        while y <= hi.y as i128
            invariant
                in_range(t0),
                in_range(t1),
                in_range(t2),
                0 <= lo.x <= x <= hi.x,
                0 <= lo.y <= y,
                hi.x <= c_max.x,
                hi.y <= c_max.y,
                hi.x <= COORD_LIMIT,
                hi.y <= COORD_LIMIT,
                c_max.x == min(width - 1, isize::MAX as int),
                c_max.y == min(height - 1, isize::MAX as int),
                width >= 1,
                height >= 1,
                image.spec_width() == width,
                image.spec_height() == height,
                old(image).spec_width() == width,
                old(image).spec_height() == height,
                image@.len() == old(image)@.len(),
                is_degenerate(t0, t1, t2) ==> image@ == old(image)@,
                forall|i: int, j: int|
                    old(image).contains(i, j) && covers_pixel(t0, t1, t2, i, j) ==> lo.y <= j
                        <= hi.y,
                forall|i: int, j: int|
                    old(image).contains(i, j) ==> #[trigger] image.pixel(i, j) == if covers_pixel(
                        t0,
                        t1,
                        t2,
                        i,
                        j,
                    ) && (i < x || (i == x && j < y)) {
                        color
                    } else {
                        old(image).pixel(i, j)
                    },
            ensures
                y > hi.y,
            decreases hi.y + 1 - y,
        {
            let p = Vec2 { x: x as isize, y: y as isize };
            let bc_screen = barycentric(t0, t1, t2, p);
            if !(bc_screen.weights.x < 0 || bc_screen.weights.y < 0 || bc_screen.weights.z < 0) {
                let ghost before = *image;
                let _ = image.set(x as usize, y as usize, color);
                assert forall|i: int, j: int| old(image).contains(i, j) implies #[trigger] image.pixel(
                    i,
                    j,
                ) == if covers_pixel(t0, t1, t2, i, j) && (i < x || (i == x && j < y + 1)) {
                    color
                } else {
                    old(image).pixel(i, j)
                } by {
                    assert(before.contains(i, j));
                }
            }
            y += 1;
        }
        x += 1;
    }
    proof {
        assert forall|i: int, j: int| old(image).contains(i, j) implies #[trigger] image.pixel(
            i,
            j,
        ) == if covers_pixel(t0, t1, t2, i, j) {
            color
        } else {
            old(image).pixel(i, j)
        } by {
            if covers_pixel(t0, t1, t2, i, j) {
                lemma_covered_in_box(t0, t1, t2, lo, hi, c_max, i, j);
            }
        }
    }
}

} // verus!
