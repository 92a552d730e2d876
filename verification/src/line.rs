//! Straight lines. The positions between the two ends come from the
//! `bresenham` crate, one at a time; each is written through the drawer's
//! bounds check as it arrives.

use crate::drawer::GeometryDrawer;
use crate::error::{failure_of, DrawError};
use crate::raster::{
    all_in_frame, holds, in_frame, lemma_paint_fail_fast, lemma_paint_finishes, lemma_paint_len,
    lemma_paint_one, lemma_paint_step, lemma_paint_stopped_prefix, paint, slot, tone, touched,
};
use bresenham::Bresenham;
use vstd::prelude::*;

verus! {

/// The line iterator of the `bresenham` crate, carried through as an opaque
/// value.
#[verifier::external_type_specification]
#[verifier::external_body]
pub struct ExBresenham(bresenham::Bresenham);

/// The positions that `bresenham::Bresenham::new((x0, y0), (x1, y1))` yields
/// when it is run to its end, in the order in which it yields them.
pub uninterp spec fn bresenham_walk(x0: int, y0: int, x1: int, y1: int) -> Seq<(int, int)>;

/// The positions that a line iterator has yet to yield, next one first.
pub uninterp spec fn pending(walk: Bresenham) -> Seq<(int, int)>;

/// The end points between which the crate's arithmetic on machine words
/// stays in range: no coordinate is the least `isize`, and neither
/// difference of the two ends exceeds the greatest `isize` in magnitude.
pub open spec fn walkable(x0: int, y0: int, x1: int, y1: int) -> bool {
    &&& -isize::MAX <= x0 <= isize::MAX
    &&& -isize::MAX <= y0 <= isize::MAX
    &&& -isize::MAX <= x1 <= isize::MAX
    &&& -isize::MAX <= y1 <= isize::MAX
    &&& -isize::MAX <= x1 - x0 <= isize::MAX
    &&& -isize::MAX <= y1 - y0 <= isize::MAX
}

/// How far apart two coordinates are.
pub open spec fn distance(a: int, b: int) -> int {
    if a < b {
        b - a
    } else {
        a - b
    }
}

/// The coordinate `k` steps from `from` in the direction of `to`. Where the
/// two are equal there is no direction, and the coordinate stays.
pub open spec fn toward(from: int, to: int, k: int) -> int {
    if from < to {
        from + k
    } else if from > to {
        from - k
    } else {
        from
    }
}

/// Whether the line between two positions runs along a row, a column or a
/// diagonal.
pub open spec fn straight(x0: int, y0: int, x1: int, y1: int) -> bool {
    x0 == x1 || y0 == y1 || distance(x0, x1) == distance(y0, y1)
}

/// The number of steps from one end of a line to the other: the larger of
/// the two distances.
pub open spec fn steps(x0: int, y0: int, x1: int, y1: int) -> int {
    if distance(x0, x1) >= distance(y0, y1) {
        distance(x0, x1)
    } else {
        distance(y0, y1)
    }
}

/// The first `count` positions on the way from `(x0, y0)` towards
/// `(x1, y1)` along a row, a column or a diagonal, one step apart.
pub open spec fn run(x0: int, y0: int, x1: int, y1: int, count: int) -> Seq<(int, int)> {
    Seq::new(count as nat, |k: int| (toward(x0, x1, k), toward(y0, y1, k)))
}

/// Whether `v` lies between `a` and `b`, whichever of the two is larger.
pub open spec fn between(a: int, b: int, v: int) -> bool {
    (a <= v <= b) || (b <= v <= a)
}

/// What is known of the shape of the walk from `(x0, y0)` towards
/// `(x1, y1)`:
/// - it has one position for each step between the ends, so none for equal
///   ends;
/// - it begins at the start;
/// - it stays within the rectangle that the two ends span;
/// - along a row, a column or a diagonal it is the plain run of positions
///   from the start up to, but not including, the end.
pub open spec fn walk_shape(walk: Seq<(int, int)>, x0: int, y0: int, x1: int, y1: int) -> bool {
    &&& walk.len() == steps(x0, y0, x1, y1)
    &&& walk.len() > 0 ==> walk[0] == (x0, y0)
    &&& forall|k: int|
        0 <= k < walk.len() ==> between(x0, x1, (#[trigger] walk[k]).0) && between(
            y0,
            y1,
            walk[k].1,
        )
    &&& straight(x0, y0, x1, y1) ==> walk == run(x0, y0, x1, y1, steps(x0, y0, x1, y1))
}

/// Calls `bresenham::Bresenham::new`.
///
/// Trusted: the iterator will yield the crate's walk from `(x0, y0)` towards
/// `(x1, y1)`, which is a function of the two ends alone, and the walk has
/// the shape that `walk_shape` states. The crate turns the line into its
/// first octant and yields one position for each column from the start's up
/// to, but not including, the end's, beginning with the start; the row
/// never moves past the end's. Where the line runs along a row, a column or
/// a diagonal the crate's error term moves the row at no step or at every
/// step, so the walk is the plain run.
#[verifier::external_body]
fn walk_from(x0: isize, y0: isize, x1: isize, y1: isize) -> (walk: Bresenham)
    requires
        walkable(x0 as int, y0 as int, x1 as int, y1 as int),
    ensures
        pending(walk) == bresenham_walk(x0 as int, y0 as int, x1 as int, y1 as int),
        walk_shape(pending(walk), x0 as int, y0 as int, x1 as int, y1 as int),
{
    Bresenham::new((x0, y0), (x1, y1))
}

/// Calls `Iterator::next` on a `bresenham::Bresenham`.
///
/// Trusted: the iterator hands out its next pending position and keeps the
/// rest; once nothing is pending it returns `None` and stays empty.
#[verifier::external_body]
fn walk_next(walk: &mut Bresenham) -> (next: Option<(isize, isize)>)
    ensures
        pending(*old(walk)).len() == 0 ==> next is None && pending(*final(walk)).len() == 0,
        pending(*old(walk)).len() > 0 ==> next is Some && (
            next.unwrap().0 as int,
            next.unwrap().1 as int,
        ) == pending(*old(walk))[0] && pending(*final(walk)) == pending(*old(walk)).drop_first(),
{
    walk.next()
}

/// The positions of the line from `(x0, y0)` to `(x1, y1)`, both ends
/// included: the walk between them, then the end itself. A line whose ends
/// are equal is that one position.
pub open spec fn line_points(x0: int, y0: int, x1: int, y1: int) -> Seq<(int, int)> {
    if x0 == x1 && y0 == y1 {
        seq![(x1, y1)]
    } else {
        bresenham_walk(x0, y0, x1, y1).push((x1, y1))
    }
}

/// The corner farthest from the origin of the rectangle that two positions
/// span.
pub open spec fn far_corner(x0: int, y0: int, x1: int, y1: int) -> (int, int) {
    (if x0 < x1 { x1 } else { x0 }, if y0 < y1 { y1 } else { y0 })
}

/// The positions of a line along a row, a column or a diagonal, both ends
/// included.
pub open spec fn straight_line(x0: int, y0: int, x1: int, y1: int) -> Seq<(int, int)> {
    run(x0, y0, x1, y1, steps(x0, y0, x1, y1) + 1)
}

impl GeometryDrawer {
    /// Draws the walk from `(x0, y0)` towards `(x1, y1)`: the line between
    /// them without its far end.
    #[verifier::loop_isolation(false)]
    pub(crate) fn draw_walk(
        &self,
        buf: &mut Vec<u32>,
        x0: isize,
        y0: isize,
        x1: isize,
        y1: isize,
        color: usize,
    ) -> (res: Result<(), DrawError>)
        requires
            walkable(x0 as int, y0 as int, x1 as int, y1 as int),
        ensures
            final(buf)@ == paint(
                self.width(),
                old(buf)@,
                bresenham_walk(x0 as int, y0 as int, x1 as int, y1 as int),
                tone(color),
            ).pixels,
            failure_of(res) == paint(
                self.width(),
                old(buf)@,
                bresenham_walk(x0 as int, y0 as int, x1 as int, y1 as int),
                tone(color),
            ).stopped,
            walk_shape(
                bresenham_walk(x0 as int, y0 as int, x1 as int, y1 as int),
                x0 as int,
                y0 as int,
                x1 as int,
                y1 as int,
            ),
    {
        let mut walk = walk_from(x0, y0, x1, y1);
        let ghost points = pending(walk);
        let ghost before = buf@;
        let ghost width = self.width();
        let ghost value = tone(color);
        let ghost mut k: int = 0;
        proof {
            assert(points.take(0) =~= Seq::<(int, int)>::empty());
            assert(points.skip(0) =~= points);
        }
        loop
            invariant
                0 <= k <= points.len(),
                pending(walk) == points.skip(k),
                buf@ == paint(width, before, points.take(k), value).pixels,
                paint(width, before, points.take(k), value).stopped is None,
            decreases points.len() - k,
        {
            match walk_next(&mut walk) {
                None => {
                    proof {
                        assert(points.take(k) =~= points);
                    }
                    return Ok(());
                },
                Some((x, y)) => {
                    let ghost drawn = buf@;
                    proof {
                        assert(points.skip(k).drop_first() =~= points.skip(k + 1));
                        lemma_paint_step(width, before, points, value, k);
                        lemma_paint_one(width, drawn, (x as int, y as int), value);
                        lemma_paint_len(width, before, points.take(k), value);
                    }
                    match self.draw_point(buf, x as i128, y as i128, color) {
                        Ok(()) => {},
                        Err(e) => {
                            proof {
                                lemma_paint_stopped_prefix(width, before, points, value, k + 1);
                            }
                            return Err(e);
                        },
                    }
                    proof {
                        k = k + 1;
                    }
                },
            }
        }
    }

    /// Draws the line from `(start_x, start_y)` to `(end_x, end_y)`, both
    /// ends included, starting at the start.
    ///
    /// The first position outside the buffer is reported and ends the call;
    /// what was drawn before it stays drawn. The call succeeds exactly if
    /// every position of the line lies in the buffer, and so whenever the
    /// rectangle that the two ends span does. A line whose ends are equal is
    /// that one pixel.
    ///
    /// Between different ends the line is walked in the signed machine word,
    /// which the coordinates must fit.
    pub fn draw_line(
        &self,
        buf: &mut Vec<u32>,
        start_x: usize,
        start_y: usize,
        end_x: usize,
        end_y: usize,
        color: usize,
    ) -> (res: Result<(), DrawError>)
        requires
            (start_x == end_x && start_y == end_y) || (start_x <= isize::MAX && start_y
                <= isize::MAX && end_x <= isize::MAX && end_y <= isize::MAX),
        ensures
            final(buf)@ == paint(
                self.width(),
                old(buf)@,
                line_points(start_x as int, start_y as int, end_x as int, end_y as int),
                tone(color),
            ).pixels,
            failure_of(res) == paint(
                self.width(),
                old(buf)@,
                line_points(start_x as int, start_y as int, end_x as int, end_y as int),
                tone(color),
            ).stopped,
            !(start_x == end_x && start_y == end_y) ==> walk_shape(
                bresenham_walk(start_x as int, start_y as int, end_x as int, end_y as int),
                start_x as int,
                start_y as int,
                end_x as int,
                end_y as int,
            ),
            !in_frame(self.width(), old(buf)@.len(), (start_x as int, start_y as int))
                ==> failure_of(res) == Some((start_x as int, start_y as int)) && final(buf)@
                == old(buf)@,
            start_x == end_x && start_y == end_y && in_frame(
                self.width(),
                old(buf)@.len(),
                (start_x as int, start_y as int),
            ) ==> res is Ok && final(buf)@ == old(buf)@.update(
                slot(self.width(), (start_x as int, start_y as int)),
                tone(color),
            ),
            straight(start_x as int, start_y as int, end_x as int, end_y as int) ==> final(buf)@
                == paint(
                self.width(),
                old(buf)@,
                straight_line(start_x as int, start_y as int, end_x as int, end_y as int),
                tone(color),
            ).pixels && failure_of(res) == paint(
                self.width(),
                old(buf)@,
                straight_line(start_x as int, start_y as int, end_x as int, end_y as int),
                tone(color),
            ).stopped,
            res is Ok <==> all_in_frame(
                self.width(),
                old(buf)@.len(),
                line_points(start_x as int, start_y as int, end_x as int, end_y as int),
            ),
            in_frame(
                self.width(),
                old(buf)@.len(),
                far_corner(start_x as int, start_y as int, end_x as int, end_y as int),
            ) ==> res is Ok,
            res is Ok ==> holds(
                self.width(),
                final(buf)@,
                (start_x as int, start_y as int),
                tone(color),
            ) && holds(self.width(), final(buf)@, (end_x as int, end_y as int), tone(color)),
            res is Ok ==> final(buf)@.len() == old(buf)@.len() && forall|i: int|
                0 <= i < old(buf)@.len() ==> #[trigger] final(buf)@[i] == (if touched(
                    self.width(),
                    line_points(start_x as int, start_y as int, end_x as int, end_y as int),
                    line_points(start_x as int, start_y as int, end_x as int, end_y as int).len() as int,
                    i,
                ) {
                    tone(color)
                } else {
                    old(buf)@[i]
                }),
    {
        let ghost before = buf@;
        let ghost (x0, y0, x1, y1) = (start_x as int, start_y as int, end_x as int, end_y as int);
        let ghost points = line_points(x0, y0, x1, y1);
        let ghost value = tone(color);
        proof {
            lemma_paint_len(self.width(), before, points, value);
            lemma_paint_finishes(self.width(), before, points, value);
            lemma_paint_one(self.width(), before, (x1, y1), value);
            vstd::arithmetic::mul::lemma_mul_nonnegative(y1, self.width() as int);
            if straight(x0, y0, x1, y1) {
                lemma_straight_line_ends(x0, y0, x1, y1);
            }
        }
        if start_x == end_x && start_y == end_y {
            proof {
                assert(straight_line(x0, y0, x1, y1) =~= seq![(x1, y1)]);
                assert(points[0] == (x1, y1));
            }
            return self.draw_pixel(buf, end_x, end_y, color);
        }
        let ghost walk = bresenham_walk(x0, y0, x1, y1);
        proof {
            assert(walk.push((x1, y1)).drop_last() =~= walk);
            lemma_paint_len(self.width(), before, walk, value);
        }
        match self.draw_walk(
            buf,
            start_x as isize,
            start_y as isize,
            end_x as isize,
            end_y as isize,
            color,
        ) {
            Ok(()) => {},
            Err(e) => {
                proof {
                    lemma_line_shape(self.width(), before, x0, y0, x1, y1, value);
                }
                return Err(e);
            },
        }
        let res = self.draw_pixel(buf, end_x, end_y, color);
        proof {
            lemma_line_shape(self.width(), before, x0, y0, x1, y1, value);
        }
        res
    }
}

/// What the shape of the walk gives of a line between different ends: the
/// line begins at its start and ends at its end; if the start lies outside
/// the buffer the line stops there with nothing drawn; and if the far
/// corner of the rectangle that the ends span lies in the buffer, so does
/// the line.
proof fn lemma_line_shape(
    width: nat,
    pixels: Seq<u32>,
    x0: int,
    y0: int,
    x1: int,
    y1: int,
    tone: u32,
)
    requires
        0 <= x0,
        0 <= y0,
        0 <= x1,
        0 <= y1,
        !(x0 == x1 && y0 == y1),
        walk_shape(bresenham_walk(x0, y0, x1, y1), x0, y0, x1, y1),
    ensures
        line_points(x0, y0, x1, y1)[0] == (x0, y0),
        line_points(x0, y0, x1, y1).last() == (x1, y1),
        !in_frame(width, pixels.len(), (x0, y0)) ==> paint(
            width,
            pixels,
            line_points(x0, y0, x1, y1),
            tone,
        ) == (crate::raster::Trace { pixels, stopped: Some((x0, y0)) }),
        in_frame(width, pixels.len(), far_corner(x0, y0, x1, y1)) ==> all_in_frame(
            width,
            pixels.len(),
            line_points(x0, y0, x1, y1),
        ),
{
    let walk = bresenham_walk(x0, y0, x1, y1);
    let points = line_points(x0, y0, x1, y1);
    let far = far_corner(x0, y0, x1, y1);
    assert(points[0] == walk[0]);
    if !in_frame(width, pixels.len(), (x0, y0)) {
        lemma_walk_stops_at_start(width, pixels, points, tone);
    }
    if in_frame(width, pixels.len(), far) {
        assert forall|j: int| 0 <= j < points.len() implies in_frame(
            width,
            pixels.len(),
            #[trigger] points[j],
        ) by {
            let p = points[j];
            if j < walk.len() {
                assert(p == walk[j]);
            }
            assert(0 <= p.0 <= far.0 && 0 <= p.1 <= far.1);
            assert(p.1 * width <= far.1 * width) by (nonlinear_arith)
                requires
                    p.1 <= far.1,
                    width >= 0,
            ;
        }
    }
}

/// A walk whose first position lies outside the buffer stops there, with
/// nothing drawn.
proof fn lemma_walk_stops_at_start(width: nat, pixels: Seq<u32>, points: Seq<(int, int)>, tone: u32)
    requires
        points.len() > 0,
        !in_frame(width, pixels.len(), points[0]),
    ensures
        paint(width, pixels, points, tone) == (crate::raster::Trace {
            pixels,
            stopped: Some(points[0]),
        }),
{
    lemma_paint_one(width, pixels, points[0], tone);
    assert(points.take(1) =~= seq![points[0]]);
    lemma_paint_stopped_prefix(width, pixels, points, tone, 1);
}

/// A straight line is the run short of its end, then the end.
pub proof fn lemma_straight_line_ends(x0: int, y0: int, x1: int, y1: int)
    requires
        straight(x0, y0, x1, y1),
    ensures
        straight_line(x0, y0, x1, y1) == run(x0, y0, x1, y1, steps(x0, y0, x1, y1)).push((x1, y1)),
        straight_line(x0, y0, x1, y1)[0] == (x0, y0),
        straight_line(x0, y0, x1, y1).last() == (x1, y1),
{
    assert(straight_line(x0, y0, x1, y1) =~= run(x0, y0, x1, y1, steps(x0, y0, x1, y1)).push(
        (x1, y1),
    ));
}

/// A straight line drawn from its other end passes through the same
/// positions in the opposite order.
pub proof fn lemma_straight_line_reversed(x0: int, y0: int, x1: int, y1: int)
    requires
        straight(x0, y0, x1, y1),
    ensures
        straight_line(x1, y1, x0, y0) == straight_line(x0, y0, x1, y1).reverse(),
{
    assert(straight_line(x1, y1, x0, y0) =~= straight_line(x0, y0, x1, y1).reverse());
}

/// Drawing a straight line that lies in the buffer from either end leaves
/// the same pixels set: the line is symmetric in the order of its ends.
pub proof fn lemma_straight_line_symmetric(
    width: nat,
    pixels: Seq<u32>,
    x0: int,
    y0: int,
    x1: int,
    y1: int,
    tone: u32,
)
    requires
        straight(x0, y0, x1, y1),
        forall|k: int|
            0 <= k < straight_line(x0, y0, x1, y1).len() ==> in_frame(
                width,
                pixels.len(),
                #[trigger] straight_line(x0, y0, x1, y1)[k],
            ),
    ensures
        paint(width, pixels, straight_line(x0, y0, x1, y1), tone) == paint(
            width,
            pixels,
            straight_line(x1, y1, x0, y0),
            tone,
        ),
        paint(width, pixels, straight_line(x0, y0, x1, y1), tone).stopped is None,
{
    let forth = straight_line(x0, y0, x1, y1);
    let back = straight_line(x1, y1, x0, y0);
    let n = forth.len() as int;
    lemma_straight_line_reversed(x0, y0, x1, y1);
    assert forall|k: int| 0 <= k < n implies in_frame(width, pixels.len(), #[trigger] back[k]) by {
        assert(back[k] == forth[n - 1 - k]);
    }
    assert forall|i: int| touched(width, forth, n, i) == touched(width, back, n, i) by {
        if touched(width, forth, n, i) {
            let j = choose|j: int| 0 <= j < n && slot(width, #[trigger] forth[j]) == i;
            assert(back[n - 1 - j] == forth[j]);
        }
        if touched(width, back, n, i) {
            let j = choose|j: int| 0 <= j < n && slot(width, #[trigger] back[j]) == i;
            assert(forth[n - 1 - j] == back[j]);
        }
    }
    lemma_paint_fail_fast(width, pixels, forth, tone, n);
    lemma_paint_fail_fast(width, pixels, back, tone, n);
    assert(paint(width, pixels, forth, tone).pixels =~= paint(width, pixels, back, tone).pixels);
}

} // verus!
