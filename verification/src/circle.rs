//! Circle outlines by the midpoint algorithm: one octant is stepped through,
//! and each step is mirrored into all eight.

use crate::drawer::GeometryDrawer;
use crate::error::{failure_of, DrawError};
use crate::raster::{
    all_in_frame, holds, in_frame, lemma_concat_contains, lemma_paint_concat,
    lemma_paint_finishes, lemma_paint_len, lemma_paint_one, lemma_paint_step,
    lemma_paint_stopped_prefix, paint, slot, tone, touched,
};
use vstd::prelude::*;

verus! {

/// The eight mirror images of the offset `(x, y)` about the center
/// `(center_x, center_y)`, in drawing order.
pub open spec fn octet(center_x: int, center_y: int, x: int, y: int) -> Seq<(int, int)> {
    seq![
        (center_x + x, center_y + y),
        (center_x - x, center_y + y),
        (center_x + x, center_y - y),
        (center_x - x, center_y - y),
        (center_x + y, center_y + x),
        (center_x - y, center_y + x),
        (center_x + y, center_y - x),
        (center_x - y, center_y - x),
    ]
}

/// The offset and decision value that follow `(x, y, d)`: `x` moves one
/// outwards, and `y` moves one inwards when `d` is positive.
pub open spec fn arc_step(x: int, y: int, d: int) -> (int, int, int) {
    if d > 0 {
        (x + 1, y - 1, d + 4 * ((x + 1) - (y - 1)) + 10)
    } else {
        (x + 1, y, d + 4 * (x + 1) + 6)
    }
}

/// The positions drawn from the state `(x, y, d)` on: while `y` is not below
/// `x`, the state is stepped and the new offset is drawn in all octants.
pub open spec fn arc_points(center_x: int, center_y: int, x: int, y: int, d: int) -> Seq<(int, int)>
    decreases y - x + 2,
{
    if y < x {
        Seq::empty()
    } else {
        let next = arc_step(x, y, d);
        octet(center_x, center_y, next.0, next.1) + arc_points(
            center_x,
            center_y,
            next.0,
            next.1,
            next.2,
        )
    }
}

/// The positions of the circle about `(center_x, center_y)`, in drawing
/// order: first the four points on the axes, as the mirror images of the
/// offset `(0, radius)`, then what the midpoint rule steps through from
/// there with the decision value `3 - 2 * radius`.
pub open spec fn circle_points(center_x: int, center_y: int, radius: int) -> Seq<(int, int)> {
    octet(center_x, center_y, 0, radius) + arc_points(
        center_x,
        center_y,
        0,
        radius,
        3 - 2 * radius,
    )
}

/// How far a circle reaches from its center along either axis: its radius,
/// or one pixel for the circle of radius zero, whose one step lands on the
/// four diagonal neighbors of the center.
pub open spec fn extent(radius: int) -> int {
    if radius < 1 {
        1
    } else {
        radius
    }
}

/// Whether the square of all positions within `span` of the center along
/// both axes lies in a buffer of `len` pixels: it does not cross the left
/// or the top edge, and the index of its far corner is in the buffer.
pub open spec fn square_in_frame(
    width: nat,
    len: nat,
    center_x: int,
    center_y: int,
    span: int,
) -> bool {
    center_x - span >= 0 && center_y - span >= 0 && slot(
        width,
        (center_x + span, center_y + span),
    ) < len
}

/// Whether the offset `(dx, dy)` is one of the eight mirror images of the
/// offset `(x, y)`: the same two distances from the center, along either
/// axis and to either side.
pub open spec fn mirrors(x: int, y: int, dx: int, dy: int) -> bool {
    ((dx == x || dx == -x) && (dy == y || dy == -y)) || ((dx == y || dx == -y) && (dy == x || dy
        == -x))
}

/// An octet holds exactly the mirror images of its offset.
pub proof fn lemma_octet_mirrors(center_x: int, center_y: int, x: int, y: int, dx: int, dy: int)
    ensures
        octet(center_x, center_y, x, y).contains((center_x + dx, center_y + dy)) <==> mirrors(
            x,
            y,
            dx,
            dy,
        ),
{
    let images = octet(center_x, center_y, x, y);
    let p = (center_x + dx, center_y + dy);
    if images.contains(p) {
        let j = choose|j: int| 0 <= j < images.len() && images[j] == p;
        assert(images[j] == p);
    }
    if mirrors(x, y, dx, dy) {
        assert(images[0] == p || images[1] == p || images[2] == p || images[3] == p || images[4]
            == p || images[5] == p || images[6] == p || images[7] == p);
    }
}

/// Whether the positions at the two offsets from the center lie both in
/// `points` or both outside it.
pub open spec fn alike(
    points: Seq<(int, int)>,
    center_x: int,
    center_y: int,
    dx: int,
    dy: int,
    ex: int,
    ey: int,
) -> bool {
    points.contains((center_x + dx, center_y + dy)) == points.contains(
        (center_x + ex, center_y + ey),
    )
}

/// From any state on, what is drawn is symmetric about the center: with a
/// position it holds the position mirrored left to right, and the position
/// with its two offsets exchanged.
proof fn lemma_arc_symmetric(
    center_x: int,
    center_y: int,
    x: int,
    y: int,
    d: int,
    dx: int,
    dy: int,
)
    ensures
        alike(arc_points(center_x, center_y, x, y, d), center_x, center_y, dx, dy, -dx, dy),
        alike(arc_points(center_x, center_y, x, y, d), center_x, center_y, dx, dy, dy, dx),
    decreases y - x + 2,
{
    if y >= x {
        let next = arc_step(x, y, d);
        let images = octet(center_x, center_y, next.0, next.1);
        let rest = arc_points(center_x, center_y, next.0, next.1, next.2);
        lemma_arc_symmetric(center_x, center_y, next.0, next.1, next.2, dx, dy);
        lemma_octet_mirrors(center_x, center_y, next.0, next.1, dx, dy);
        lemma_octet_mirrors(center_x, center_y, next.0, next.1, -dx, dy);
        lemma_octet_mirrors(center_x, center_y, next.0, next.1, dy, dx);
        lemma_concat_contains(images, rest, (center_x + dx, center_y + dy));
        lemma_concat_contains(images, rest, (center_x + -dx, center_y + dy));
        lemma_concat_contains(images, rest, (center_x + dy, center_y + dx));
    }
}

/// A circle holds a position exactly if it holds the position mirrored
/// left to right, and exactly if it holds the position with its two offsets
/// exchanged.
proof fn lemma_circle_alike(center_x: int, center_y: int, radius: int, dx: int, dy: int)
    ensures
        alike(circle_points(center_x, center_y, radius), center_x, center_y, dx, dy, -dx, dy),
        alike(circle_points(center_x, center_y, radius), center_x, center_y, dx, dy, dy, dx),
{
    let first = octet(center_x, center_y, 0, radius);
    let rest = arc_points(center_x, center_y, 0, radius, 3 - 2 * radius);
    lemma_arc_symmetric(center_x, center_y, 0, radius, 3 - 2 * radius, dx, dy);
    lemma_octet_mirrors(center_x, center_y, 0, radius, dx, dy);
    lemma_octet_mirrors(center_x, center_y, 0, radius, -dx, dy);
    lemma_octet_mirrors(center_x, center_y, 0, radius, dy, dx);
    lemma_concat_contains(first, rest, (center_x + dx, center_y + dy));
    lemma_concat_contains(first, rest, (center_x + -dx, center_y + dy));
    lemma_concat_contains(first, rest, (center_x + dy, center_y + dx));
}

/// A circle is symmetric in all eight octants: whenever it holds the
/// position at an offset `(dx, dy)` from its center, it holds the positions
/// at the seven other offsets that have the same two distances, along
/// either axis and to either side.
pub proof fn lemma_circle_symmetric(center_x: int, center_y: int, radius: int, dx: int, dy: int)
    requires
        circle_points(center_x, center_y, radius).contains((center_x + dx, center_y + dy)),
    ensures
        circle_points(center_x, center_y, radius).contains((center_x - dx, center_y + dy)),
        circle_points(center_x, center_y, radius).contains((center_x + dx, center_y - dy)),
        circle_points(center_x, center_y, radius).contains((center_x - dx, center_y - dy)),
        circle_points(center_x, center_y, radius).contains((center_x + dy, center_y + dx)),
        circle_points(center_x, center_y, radius).contains((center_x - dy, center_y + dx)),
        circle_points(center_x, center_y, radius).contains((center_x + dy, center_y - dx)),
        circle_points(center_x, center_y, radius).contains((center_x - dy, center_y - dx)),
{
    // Mirroring left to right and exchanging the offsets generate all eight.
    lemma_circle_alike(center_x, center_y, radius, dx, dy);
    lemma_circle_alike(center_x, center_y, radius, dy, dx);
    lemma_circle_alike(center_x, center_y, radius, -dx, dy);
    lemma_circle_alike(center_x, center_y, radius, -dy, dx);
    lemma_circle_alike(center_x, center_y, radius, dy, -dx);
    lemma_circle_alike(center_x, center_y, radius, dx, -dy);
    lemma_circle_alike(center_x, center_y, radius, -dy, -dx);
}

/// A circle has no gap where its octants meet on the axes: it holds the
/// four positions at the distance of its radius from the center along the
/// axes.
pub proof fn lemma_circle_axes(center_x: int, center_y: int, radius: int)
    ensures
        circle_points(center_x, center_y, radius).contains((center_x + radius, center_y)),
        circle_points(center_x, center_y, radius).contains((center_x - radius, center_y)),
        circle_points(center_x, center_y, radius).contains((center_x, center_y + radius)),
        circle_points(center_x, center_y, radius).contains((center_x, center_y - radius)),
{
    let points = circle_points(center_x, center_y, radius);
    assert(points[0] == (center_x, center_y + radius));
    assert(points[2] == (center_x, center_y - radius));
    assert(points[4] == (center_x + radius, center_y));
    assert(points[5] == (center_x - radius, center_y));
}

/// What holds of every state that the midpoint rule passes through on a
/// circle of radius one or more: the offsets stay within the radius, and
/// until `y` first moves inwards `x` has not reached the radius and the
/// decision value is a fixed polynomial of `x`.
pub open spec fn arc_state(radius: int, x: int, y: int, d: int) -> bool {
    &&& radius >= 1
    &&& 0 <= x <= radius
    &&& -1 <= y <= radius
    &&& y == radius ==> x < radius && d == 2 * x * x + 8 * x + 3 - 2 * radius
}

/// The midpoint rule keeps `arc_state`, and the offset it steps to lies
/// within the radius and is not the center.
proof fn lemma_arc_state_steps(radius: int, x: int, y: int, d: int)
    requires
        arc_state(radius, x, y, d),
        y >= x,
    ensures
        arc_state(radius, arc_step(x, y, d).0, arc_step(x, y, d).1, arc_step(x, y, d).2),
        1 <= arc_step(x, y, d).0 <= radius,
{
    if y == radius {
        assert(2 * (x + 1) * (x + 1) + 8 * (x + 1) == 2 * x * x + 12 * x + 10) by (nonlinear_arith);
        if d <= 0 {
            assert(x + 1 < radius) by (nonlinear_arith)
                requires
                    2 * x * x + 8 * x + 3 - 2 * radius <= 0,
                    x >= 0,
            ;
        }
    }
}

/// From a state that `arc_state` holds of, every position drawn lies within
/// the radius of the center along both axes, and none is the center.
proof fn lemma_arc_bounds(
    center_x: int,
    center_y: int,
    radius: int,
    x: int,
    y: int,
    d: int,
    p: (int, int),
)
    requires
        arc_state(radius, x, y, d),
        arc_points(center_x, center_y, x, y, d).contains(p),
    ensures
        center_x - radius <= p.0 <= center_x + radius,
        center_y - radius <= p.1 <= center_y + radius,
        p != (center_x, center_y),
    decreases y - x + 2,
{
    if y >= x {
        let next = arc_step(x, y, d);
        let images = octet(center_x, center_y, next.0, next.1);
        let rest = arc_points(center_x, center_y, next.0, next.1, next.2);
        lemma_arc_state_steps(radius, x, y, d);
        lemma_concat_contains(images, rest, p);
        if images.contains(p) {
            lemma_octet_mirrors(center_x, center_y, next.0, next.1, p.0 - center_x, p.1 - center_y);
            assert((center_x + (p.0 - center_x), center_y + (p.1 - center_y)) == p);
        } else {
            lemma_arc_bounds(center_x, center_y, radius, next.0, next.1, next.2, p);
        }
    }
}

/// Every position of a circle lies within its extent of the center along
/// both axes, and a circle of radius one or more does not hold its center.
pub proof fn lemma_circle_bounds(center_x: int, center_y: int, radius: int, p: (int, int))
    requires
        radius >= 0,
        circle_points(center_x, center_y, radius).contains(p),
    ensures
        center_x - extent(radius) <= p.0 <= center_x + extent(radius),
        center_y - extent(radius) <= p.1 <= center_y + extent(radius),
        radius >= 1 ==> p != (center_x, center_y),
{
    let first = octet(center_x, center_y, 0, radius);
    let rest = arc_points(center_x, center_y, 0, radius, 3 - 2 * radius);
    lemma_concat_contains(first, rest, p);
    if first.contains(p) {
        lemma_octet_mirrors(center_x, center_y, 0, radius, p.0 - center_x, p.1 - center_y);
        assert((center_x + (p.0 - center_x), center_y + (p.1 - center_y)) == p);
    } else if radius >= 1 {
        lemma_arc_bounds(center_x, center_y, radius, 0, radius, 3 - 2 * radius, p);
    } else {
        // Radius zero takes one step, to the offset (1, -1), and stops there.
        let images = octet(center_x, center_y, 1, -1);
        let after = arc_points(center_x, center_y, 1, -1, 21);
        assert(arc_step(0, 0, 3) == (1int, -1int, 21int));
        assert(after =~= Seq::<(int, int)>::empty());
        assert(rest == images + after);
        lemma_concat_contains(images, after, p);
        lemma_octet_mirrors(center_x, center_y, 1, -1, p.0 - center_x, p.1 - center_y);
        assert((center_x + (p.0 - center_x), center_y + (p.1 - center_y)) == p);
    }
}

/// A circle whose square of extent lies in the buffer lies in the buffer.
pub proof fn lemma_circle_inside(width: nat, len: nat, center_x: int, center_y: int, radius: int)
    requires
        radius >= 0,
        square_in_frame(width, len, center_x, center_y, extent(radius)),
    ensures
        all_in_frame(width, len, circle_points(center_x, center_y, radius)),
{
    let points = circle_points(center_x, center_y, radius);
    let far = center_y + extent(radius);
    assert forall|j: int| 0 <= j < points.len() implies in_frame(width, len, #[trigger] points[j]) by {
        let p = points[j];
        assert(points.contains(p));
        lemma_circle_bounds(center_x, center_y, radius, p);
        assert(p.1 * width <= far * width) by (nonlinear_arith)
            requires
                p.1 <= far,
                width >= 0,
        ;
    }
}

/// The largest magnitude of a center coordinate or an offset that
/// `draw_octet` is called with.
pub open spec fn octet_limit() -> int {
    0x2_0000_0000_0000_0000
}

impl GeometryDrawer {
    /// Draws the eight mirror images of the offset `(x, y)` about the
    /// center, stopping at the first that lies outside the buffer.
    #[verifier::loop_isolation(false)]
    fn draw_octet(
        &self,
        buf: &mut Vec<u32>,
        center_x: i128,
        center_y: i128,
        x: i128,
        y: i128,
        color: usize,
    ) -> (res: Result<(), DrawError>)
        requires
            -octet_limit() <= center_x <= octet_limit(),
            -octet_limit() <= center_y <= octet_limit(),
            -octet_limit() <= x <= octet_limit(),
            -octet_limit() <= y <= octet_limit(),
        ensures
            final(buf)@ == paint(
                self.width(),
                old(buf)@,
                octet(center_x as int, center_y as int, x as int, y as int),
                tone(color),
            ).pixels,
            failure_of(res) == paint(
                self.width(),
                old(buf)@,
                octet(center_x as int, center_y as int, x as int, y as int),
                tone(color),
            ).stopped,
    {
        let images: [(i128, i128); 8] = [
            (center_x + x, center_y + y),
            (center_x - x, center_y + y),
            (center_x + x, center_y - y),
            (center_x - x, center_y - y),
            (center_x + y, center_y + x),
            (center_x - y, center_y + x),
            (center_x + y, center_y - x),
            (center_x - y, center_y - x),
        ];
        let ghost points = octet(center_x as int, center_y as int, x as int, y as int);
        let ghost before = buf@;
        let ghost width = self.width();
        let ghost value = tone(color);
        proof {
            assert(points.take(0) =~= Seq::<(int, int)>::empty());
        }
        let mut k: usize = 0;
        while k < 8
            invariant
                k <= 8,
                points.len() == 8,
                forall|j: int| 0 <= j < 8 ==> points[j] == (images[j].0 as int, images[j].1 as int),
                buf@ == paint(width, before, points.take(k as int), value).pixels,
                paint(width, before, points.take(k as int), value).stopped is None,
            decreases 8 - k,
        {
            let ghost drawn = buf@;
            proof {
                lemma_paint_step(width, before, points, value, k as int);
                lemma_paint_one(width, drawn, points[k as int], value);
                lemma_paint_len(width, before, points.take(k as int), value);
            }
            match self.draw_point(buf, images[k].0, images[k].1, color) {
                Ok(()) => {},
                Err(e) => {
                    proof {
                        lemma_paint_stopped_prefix(width, before, points, value, k + 1);
                    }
                    return Err(e);
                },
            }
            k += 1;
        }
        proof {
            assert(points.take(8) =~= points);
        }
        Ok(())
    }

    /// Draws the outline of the circle of the given radius about
    /// `(start_x, start_y)`.
    ///
    /// The four points on the axes are drawn first. From there the outline
    /// is stepped through by the midpoint rule, and each step draws its
    /// offset mirrored into all eight octants; mirror images left of or
    /// above the buffer are positions outside it like any other. The first
    /// position outside the buffer is reported and ends the call; what was
    /// drawn before it stays drawn.
    ///
    /// The call succeeds exactly if every position of the circle lies in the
    /// buffer, and so whenever the square around the circle does.
    #[verifier::loop_isolation(false)]
    pub fn draw_circle(
        &self,
        buf: &mut Vec<u32>,
        start_x: usize,
        start_y: usize,
        radius: usize,
        color: usize,
    ) -> (res: Result<(), DrawError>)
        ensures
            final(buf)@ == paint(
                self.width(),
                old(buf)@,
                circle_points(start_x as int, start_y as int, radius as int),
                tone(color),
            ).pixels,
            failure_of(res) == paint(
                self.width(),
                old(buf)@,
                circle_points(start_x as int, start_y as int, radius as int),
                tone(color),
            ).stopped,
            res is Ok <==> all_in_frame(
                self.width(),
                old(buf)@.len(),
                circle_points(start_x as int, start_y as int, radius as int),
            ),
            square_in_frame(
                self.width(),
                old(buf)@.len(),
                start_x as int,
                start_y as int,
                extent(radius as int),
            ) ==> res is Ok,
            res is Ok ==> final(buf)@.len() == old(buf)@.len() && forall|i: int|
                0 <= i < old(buf)@.len() ==> #[trigger] final(buf)@[i] == (if touched(
                    self.width(),
                    circle_points(start_x as int, start_y as int, radius as int),
                    circle_points(start_x as int, start_y as int, radius as int).len() as int,
                    i,
                ) {
                    tone(color)
                } else {
                    old(buf)@[i]
                }),
            res is Ok ==> holds(
                self.width(),
                final(buf)@,
                (start_x + radius, start_y as int),
                tone(color),
            ) && holds(self.width(), final(buf)@, (start_x - radius, start_y as int), tone(color))
                && holds(self.width(), final(buf)@, (start_x as int, start_y + radius), tone(color))
                && holds(self.width(), final(buf)@, (start_x as int, start_y - radius), tone(color)),
    {
        let center_x = start_x as i128;
        let center_y = start_y as i128;
        let r = radius as i128;
        let ghost width = self.width();
        let ghost value = tone(color);
        let ghost points = circle_points(start_x as int, start_y as int, radius as int);
        let ghost all = paint(width, buf@, points, value);
        let mut d: i128 = 3 - 2 * r;
        let mut x: i128 = 0;
        let mut y: i128 = r;
        proof {
            lemma_paint_len(width, buf@, points, value);
            lemma_paint_finishes(width, buf@, points, value);
            if square_in_frame(width, buf@.len(), start_x as int, start_y as int, extent(r as int)) {
                lemma_circle_inside(width, buf@.len(), start_x as int, start_y as int, r as int);
            }
            if all.stopped is None {
                lemma_circle_axes(start_x as int, start_y as int, r as int);
                let east = choose|j: int|
                    0 <= j < points.len() && points[j] == (start_x + radius, start_y as int);
                let west = choose|j: int|
                    0 <= j < points.len() && points[j] == (start_x - radius, start_y as int);
                let south = choose|j: int|
                    0 <= j < points.len() && points[j] == (start_x as int, start_y + radius);
                let north = choose|j: int|
                    0 <= j < points.len() && points[j] == (start_x as int, start_y - radius);
                assert(holds(width, all.pixels, points[east], value));
                assert(holds(width, all.pixels, points[west], value));
                assert(holds(width, all.pixels, points[south], value));
                assert(holds(width, all.pixels, points[north], value));
            }
            lemma_paint_concat(
                width,
                buf@,
                octet(center_x as int, center_y as int, 0, r as int),
                arc_points(center_x as int, center_y as int, 0, r as int, 3 - 2 * r),
                value,
            );
        }
        match self.draw_octet(buf, center_x, center_y, x, y, color) {
            Ok(()) => {},
            Err(e) => {
                return Err(e);
            },
        }
        while y >= x
            invariant
                0 <= x <= r + 1,
                -1 <= y <= r,
                -4 * r <= d <= 4 * r + 10 + 18 * x,
                all == paint(
                    width,
                    buf@,
                    arc_points(center_x as int, center_y as int, x as int, y as int, d as int),
                    value,
                ),
            decreases y - x + 2,
        {
            let ghost next = arc_step(x as int, y as int, d as int);
            proof {
                lemma_paint_concat(
                    width,
                    buf@,
                    octet(center_x as int, center_y as int, next.0, next.1),
                    arc_points(center_x as int, center_y as int, next.0, next.1, next.2),
                    value,
                );
            }
            x += 1;
            if d > 0 {
                y -= 1;
                d = d + 4 * (x - y) + 10;
            } else {
                d = d + 4 * x + 6;
            }
            match self.draw_octet(buf, center_x, center_y, x, y, color) {
                Ok(()) => {},
                Err(e) => {
                    return Err(e);
                },
            }
        }
        Ok(())
    }
}

} // verus!
