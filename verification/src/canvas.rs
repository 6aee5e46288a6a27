//! Laying the points of a circuit out on a canvas.
//!
//! The bounding box of the points is mapped linearly onto the canvas. The
//! vertical axis is flipped, so that a larger `y` is drawn higher up. An axis
//! on which all points agree has extent zero; it is scaled as if its extent
//! were one, which puts every point at the origin of that axis.

use vstd::prelude::*;
use crate::track::Point;

verus! {

/// The smallest box with sides parallel to the axes that holds a set of points.
#[derive(Clone, Copy, Debug, PartialEq, Eq, Structural)]
pub struct BoundingBox {
    pub min_x: i64,
    pub max_x: i64,
    pub min_y: i64,
    pub max_y: i64,
}

/// The least `x` among `points`, which must not be empty.
pub open spec fn least_x(points: Seq<Point>) -> i64
    decreases points.len(),
{
    if points.len() <= 1 {
        points[0].x
    } else if points.last().x < least_x(points.drop_last()) {
        points.last().x
    } else {
        least_x(points.drop_last())
    }
}

/// The greatest `x` among `points`, which must not be empty.
pub open spec fn greatest_x(points: Seq<Point>) -> i64
    decreases points.len(),
{
    if points.len() <= 1 {
        points[0].x
    } else if points.last().x > greatest_x(points.drop_last()) {
        points.last().x
    } else {
        greatest_x(points.drop_last())
    }
}

/// The least `y` among `points`, which must not be empty.
pub open spec fn least_y(points: Seq<Point>) -> i64
    decreases points.len(),
{
    if points.len() <= 1 {
        points[0].y
    } else if points.last().y < least_y(points.drop_last()) {
        points.last().y
    } else {
        least_y(points.drop_last())
    }
}

/// The greatest `y` among `points`, which must not be empty.
pub open spec fn greatest_y(points: Seq<Point>) -> i64
    decreases points.len(),
{
    if points.len() <= 1 {
        points[0].y
    } else if points.last().y > greatest_y(points.drop_last()) {
        points.last().y
    } else {
        greatest_y(points.drop_last())
    }
}

/// The bounding box of a set of points that is not empty.
pub open spec fn bounding_box_of(points: Seq<Point>) -> BoundingBox {
    BoundingBox {
        min_x: least_x(points),
        max_x: greatest_x(points),
        min_y: least_y(points),
        max_y: greatest_y(points),
    }
}

impl BoundingBox {
    /// The point lies inside the box or on its border.
    pub open spec fn contains(self, p: Point) -> bool {
        self.min_x <= p.x <= self.max_x && self.min_y <= p.y <= self.max_y
    }
}

/// The extent by which an axis is scaled: an extent of zero counts as one.
pub open spec fn span(low: int, high: int) -> int {
    if high - low == 0 {
        1
    } else {
        high - low
    }
}

/// The position on a canvas axis of length `canvas` of `value`, where the axis
/// shows the range from `low` to `high`. Positions are whole canvas units,
/// rounded down.
pub open spec fn scaled(value: int, low: int, high: int, canvas: int) -> int {
    (value - low) * canvas / span(low, high)
}

/// The horizontal canvas position of `p`.
pub open spec fn canvas_x(p: Point, bounds: BoundingBox, width: u32) -> int {
    scaled(p.x as int, bounds.min_x as int, bounds.max_x as int, width as int)
}

/// The vertical canvas position of `p`, measured from the top of the canvas.
pub open spec fn canvas_y(p: Point, bounds: BoundingBox, height: u32) -> int {
    height - scaled(p.y as int, bounds.min_y as int, bounds.max_y as int, height as int)
}

/// A scaled position lies on the canvas axis.
pub proof fn lemma_scaled_in_range(value: int, low: int, high: int, canvas: int)
    requires
        low <= value <= high,
        0 <= canvas,
    ensures
        0 <= scaled(value, low, high, canvas) <= canvas,
        high == low ==> scaled(value, low, high, canvas) == 0,
{
    let offset = value - low;
    let extent = span(low, high);
    assert(0 <= offset <= extent);
    assert(0 <= offset * canvas <= extent * canvas) by (nonlinear_arith)
        requires
            0 <= offset <= extent,
            0 <= canvas,
    ;
    assert(0 <= (offset * canvas) / extent <= canvas) by (nonlinear_arith)
        requires
            0 <= offset * canvas <= extent * canvas,
            0 < extent,
    ;
    if high == low {
        assert(offset * canvas == 0) by (nonlinear_arith)
            requires
                offset == 0,
        ;
    }
}

/// Every point inside the bounding box is drawn on the canvas: its position
/// is at least zero and at most the canvas size on both axes.
pub proof fn lemma_position_on_canvas(p: Point, bounds: BoundingBox, width: u32, height: u32)
    requires
        bounds.contains(p),
    ensures
        0 <= canvas_x(p, bounds, width) <= width,
        0 <= canvas_y(p, bounds, height) <= height,
{
    lemma_scaled_in_range(p.x as int, bounds.min_x as int, bounds.max_x as int, width as int);
    lemma_scaled_in_range(p.y as int, bounds.min_y as int, bounds.max_y as int, height as int);
}

/// The bounding box of a set of points holds each of them, and each of its
/// sides passes through one of them.
pub proof fn lemma_bounding_box_tight(points: Seq<Point>)
    requires
        points.len() > 0,
    ensures
        forall|i: int|
            0 <= i < points.len() ==> bounding_box_of(points).contains(#[trigger] points[i]),
        exists|i: int| 0 <= i < points.len() && (#[trigger] points[i]).x == least_x(points),
        exists|i: int| 0 <= i < points.len() && (#[trigger] points[i]).x == greatest_x(points),
        exists|i: int| 0 <= i < points.len() && (#[trigger] points[i]).y == least_y(points),
        exists|i: int| 0 <= i < points.len() && (#[trigger] points[i]).y == greatest_y(points),
    decreases points.len(),
{
    if points.len() == 1 {
        assert(points[0].x == least_x(points));
        assert(points[0].x == greatest_x(points));
        assert(points[0].y == least_y(points));
        assert(points[0].y == greatest_y(points));
    } else {
        let rest = points.drop_last();
        let n = rest.len() as int;
        lemma_bounding_box_tight(rest);
        assert forall|i: int| 0 <= i < points.len() implies bounding_box_of(points).contains(
            #[trigger] points[i],
        ) by {
            if i < n {
                assert(points[i] == rest[i]);
                assert(bounding_box_of(rest).contains(rest[i]));
            }
        }
        let a = choose|i: int| 0 <= i < rest.len() && (#[trigger] rest[i]).x == least_x(rest);
        let b = choose|i: int| 0 <= i < rest.len() && (#[trigger] rest[i]).x == greatest_x(rest);
        let c = choose|i: int| 0 <= i < rest.len() && (#[trigger] rest[i]).y == least_y(rest);
        let d = choose|i: int| 0 <= i < rest.len() && (#[trigger] rest[i]).y == greatest_y(rest);
        assert(points[a] == rest[a] && points[b] == rest[b] && points[c] == rest[c] && points[d]
            == rest[d]);
        assert(points[n] == points.last());
        assert(points[a].x == least_x(points) || points[n].x == least_x(points));
        assert(points[b].x == greatest_x(points) || points[n].x == greatest_x(points));
        assert(points[c].y == least_y(points) || points[n].y == least_y(points));
        assert(points[d].y == greatest_y(points) || points[n].y == greatest_y(points));
    }
}

/// Where all points share one `x`, the horizontal extent is zero and every
/// point is drawn at horizontal position zero.
pub proof fn lemma_shared_x_at_origin(points: Seq<Point>, width: u32, i: int)
    requires
        0 <= i < points.len(),
        forall|j: int| 0 <= j < points.len() ==> (#[trigger] points[j]).x == points[0].x,
    ensures
        bounding_box_of(points).min_x == bounding_box_of(points).max_x,
        canvas_x(points[i], bounding_box_of(points), width) == 0,
{
    lemma_bounding_box_tight(points);
    let bounds = bounding_box_of(points);
    assert(bounds.contains(points[i]));
    lemma_scaled_in_range(
        points[i].x as int,
        bounds.min_x as int,
        bounds.max_x as int,
        width as int,
    );
}

/// Where all points share one `y`, the vertical extent is zero and every
/// point is drawn at the bottom of the canvas.
pub proof fn lemma_shared_y_at_origin(points: Seq<Point>, height: u32, i: int)
    requires
        0 <= i < points.len(),
        forall|j: int| 0 <= j < points.len() ==> (#[trigger] points[j]).y == points[0].y,
    ensures
        bounding_box_of(points).min_y == bounding_box_of(points).max_y,
        canvas_y(points[i], bounding_box_of(points), height) == height,
{
    lemma_bounding_box_tight(points);
    let bounds = bounding_box_of(points);
    assert(bounds.contains(points[i]));
    lemma_scaled_in_range(
        points[i].y as int,
        bounds.min_y as int,
        bounds.max_y as int,
        height as int,
    );
}

/// Computes the bounding box in one pass; there is none for an empty set.
pub fn bounding_box(points: &Vec<Point>) -> (r: Option<BoundingBox>)
    ensures
        points@.len() == 0 ==> r is None,
        points@.len() > 0 ==> r == Some(bounding_box_of(points@)),
{
    if points.len() == 0 {
        return None;
    }
    let first = points[0];
    let mut bounds = BoundingBox { min_x: first.x, max_x: first.x, min_y: first.y, max_y: first.y };
    let mut i: usize = 1;
    assert(points@.take(1).len() == 1 && points@.take(1)[0] == points@[0]);
    while i < points.len()
        invariant
            1 <= i <= points.len(),
            bounds == bounding_box_of(points@.take(i as int)),
        decreases points.len() - i,
    {
        let p = points[i];
        proof {
            let next = points@.take(i as int + 1);
            assert(next.drop_last() == points@.take(i as int));
            assert(next.last() == p);
        }
        if p.x < bounds.min_x {
            bounds.min_x = p.x;
        }
        if p.x > bounds.max_x {
            bounds.max_x = p.x;
        }
        if p.y < bounds.min_y {
            bounds.min_y = p.y;
        }
        if p.y > bounds.max_y {
            bounds.max_y = p.y;
        }
        i += 1;
    }
    assert(points@.take(points@.len() as int) == points@);
    Some(bounds)
}

/// Maps one coordinate onto a canvas axis.
fn scale(value: i64, low: i64, high: i64, canvas: u32) -> (r: u32)
    requires
        low <= value <= high,
    ensures
        r == scaled(value as int, low as int, high as int, canvas as int),
        r <= canvas,
{
    let offset: i128 = value as i128 - low as i128;
    let extent: i128 = high as i128 - low as i128;
    let divisor: i128 = if extent == 0 { 1 } else { extent };
    proof {
        lemma_scaled_in_range(value as int, low as int, high as int, canvas as int);
        assert(0 <= offset * canvas <= 0x1_0000_0000_0000_0000 * 0x1_0000_0000) by (nonlinear_arith)
            requires
                0 <= offset <= 0x1_0000_0000_0000_0000,
                0 <= canvas <= 0x1_0000_0000,
        ;
    }
    let product: i128 = offset * (canvas as i128);
    let position: i128 = product / divisor;
    position as u32
}

/// The canvas position of a point inside `bounds`, as `(x, y)` with `y`
/// measured from the top.
pub fn place(p: &Point, bounds: &BoundingBox, width: u32, height: u32) -> (r: (u32, u32))
    requires
        bounds.contains(*p),
    ensures
        r.0 == canvas_x(*p, *bounds, width),
        r.1 == canvas_y(*p, *bounds, height),
        r.0 <= width,
        r.1 <= height,
{
    let x = scale(p.x, bounds.min_x, bounds.max_x, width);
    let y = height - scale(p.y, bounds.min_y, bounds.max_y, height);
    (x, y)
}

} // verus!
