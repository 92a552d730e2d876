//! Rectangle frames: rings of four edges, one ring per layer of thickness.

use crate::drawer::GeometryDrawer;
use crate::error::{failure_of, DrawError};
use crate::line::{distance, run, steps, toward};
use crate::raster::{
    all_in_frame, lemma_concat_contains, lemma_paint_concat, lemma_paint_finishes,
    lemma_paint_len, paint, tone,
};
use vstd::prelude::*;

verus! {

/// The positions of a vertical edge in column `x`: from row `from` towards
/// row `to`, stopping one short of it. With `from` below `to` these are the
/// rows `from..to`.
pub open spec fn column(x: int, from: int, to: int) -> Seq<(int, int)> {
    Seq::new(distance(from, to) as nat, |k: int| (x, toward(from, to, k)))
}

/// The positions of a horizontal edge in row `y`: from column `from` towards
/// column `to`, stopping one short of it. With `from` below `to` these are
/// the columns `from..to`.
pub open spec fn row(from: int, to: int, y: int) -> Seq<(int, int)> {
    Seq::new(distance(from, to) as nat, |k: int| (toward(from, to, k), y))
}

/// The positions of the ring that lies `inset` pixels inside the box
/// `[start_x, end_x) x [start_y, end_y)`, in drawing order: the left edge in
/// column `start_x + inset`, the right edge in column `end_x - inset - 1`,
/// the top edge in row `start_y + inset`, and the bottom edge in row
/// `end_y - inset - 1`. Each edge spans the whole box, not only the part
/// inside the ring.
pub open spec fn ring_points(start_x: int, start_y: int, end_x: int, end_y: int, inset: int) -> Seq<
    (int, int),
> {
    column(start_x + inset, start_y, end_y) + column(end_x - inset - 1, start_y, end_y) + row(
        start_x,
        end_x,
        start_y + inset,
    ) + row(start_x, end_x, end_y - inset - 1)
}

/// An edge is the walk of the line between its two ends.
proof fn lemma_edges_are_runs(x: int, y: int, from: int, to: int)
    ensures
        column(x, from, to) == run(x, from, x, to, steps(x, from, x, to)),
        row(from, to, y) == run(from, y, to, y, steps(from, y, to, y)),
{
    assert(column(x, from, to) =~= run(x, from, x, to, steps(x, from, x, to)));
    assert(row(from, to, y) =~= run(from, y, to, y, steps(from, y, to, y)));
}

/// Whether position `p` lies in the box `[start_x, end_x) x [start_y, end_y)`
/// in its first or last column or its first or last row.
pub open spec fn on_border(start_x: int, start_y: int, end_x: int, end_y: int, p: (int, int)) -> bool {
    &&& start_x <= p.0 < end_x
    &&& start_y <= p.1 < end_y
    &&& (p.0 == start_x || p.0 == end_x - 1 || p.1 == start_y || p.1 == end_y - 1)
}

/// The outermost ring of a box that is not empty is its border: the
/// positions in its first and last column and its first and last row, and no
/// position inside or outside of these.
pub proof fn lemma_outer_ring_is_border(
    start_x: int,
    start_y: int,
    end_x: int,
    end_y: int,
    p: (int, int),
)
    requires
        start_x < end_x,
        start_y < end_y,
    ensures
        ring_points(start_x, start_y, end_x, end_y, 0).contains(p) <==> on_border(
            start_x,
            start_y,
            end_x,
            end_y,
            p,
        ),
{
    let left = column(start_x, start_y, end_y);
    let right = column(end_x - 1, start_y, end_y);
    let top = row(start_x, end_x, start_y);
    let bottom = row(start_x, end_x, end_y - 1);
    lemma_concat_contains(left + right + top, bottom, p);
    lemma_concat_contains(left + right, top, p);
    lemma_concat_contains(left, right, p);
    if left.contains(p) {
        let k = choose|k: int| 0 <= k < left.len() && left[k] == p;
        assert(left[k] == p);
    }
    if right.contains(p) {
        let k = choose|k: int| 0 <= k < right.len() && right[k] == p;
        assert(right[k] == p);
    }
    if top.contains(p) {
        let k = choose|k: int| 0 <= k < top.len() && top[k] == p;
        assert(top[k] == p);
    }
    if bottom.contains(p) {
        let k = choose|k: int| 0 <= k < bottom.len() && bottom[k] == p;
        assert(bottom[k] == p);
    }
    if on_border(start_x, start_y, end_x, end_y, p) {
        if p.0 == start_x {
            assert(left[p.1 - start_y] == p);
        } else if p.0 == end_x - 1 {
            assert(right[p.1 - start_y] == p);
        } else if p.1 == start_y {
            assert(top[p.0 - start_x] == p);
        } else {
            assert(bottom[p.0 - start_x] == p);
        }
    }
}

/// The positions of the rings `inset`, `inset + 1`, and so on up to but not
/// including ring `thickness`, outermost first.
pub open spec fn rings_from(
    start_x: int,
    start_y: int,
    end_x: int,
    end_y: int,
    inset: int,
    thickness: int,
) -> Seq<(int, int)>
    decreases thickness - inset,
{
    if inset >= thickness {
        Seq::empty()
    } else {
        ring_points(start_x, start_y, end_x, end_y, inset) + rings_from(
            start_x,
            start_y,
            end_x,
            end_y,
            inset + 1,
            thickness,
        )
    }
}

/// The positions of a frame of the given thickness, in drawing order.
pub open spec fn frame_points(
    start_x: int,
    start_y: int,
    end_x: int,
    end_y: int,
    thickness: int,
) -> Seq<(int, int)> {
    rings_from(start_x, start_y, end_x, end_y, 0, thickness)
}

impl GeometryDrawer {
    /// Draws a frame of `border_thickness` nested rings just inside the box
    /// `[start_x, end_x) x [start_y, end_y)`, outermost ring first, each
    /// ring as its left, right, top and bottom edge.
    ///
    /// Rings that cross or overlap in a box that is too small for them are
    /// drawn all the same. The first position outside the buffer is reported
    /// and ends the call; what was drawn before it stays drawn.
    ///
    /// Every edge must fit the signed machine word in which it is walked.
    #[verifier::loop_isolation(false)]
    pub fn draw_rectangle(
        &self,
        buf: &mut Vec<u32>,
        start_x: usize,
        start_y: usize,
        end_x: usize,
        end_y: usize,
        border_thickness: usize,
        color: usize,
    ) -> (res: Result<(), DrawError>)
        requires
            start_x + border_thickness <= isize::MAX,
            start_y + border_thickness <= isize::MAX,
            end_x <= isize::MAX,
            end_y <= isize::MAX,
        ensures
            final(buf)@ == paint(
                self.width(),
                old(buf)@,
                frame_points(
                    start_x as int,
                    start_y as int,
                    end_x as int,
                    end_y as int,
                    border_thickness as int,
                ),
                tone(color),
            ).pixels,
            failure_of(res) == paint(
                self.width(),
                old(buf)@,
                frame_points(
                    start_x as int,
                    start_y as int,
                    end_x as int,
                    end_y as int,
                    border_thickness as int,
                ),
                tone(color),
            ).stopped,
            border_thickness == 0 ==> res is Ok && final(buf)@ == old(buf)@,
            res is Ok <==> all_in_frame(
                self.width(),
                old(buf)@.len(),
                frame_points(
                    start_x as int,
                    start_y as int,
                    end_x as int,
                    end_y as int,
                    border_thickness as int,
                ),
            ),
    {
        let ghost (sx, sy, ex, ey) = (start_x as int, start_y as int, end_x as int, end_y as int);
        let ghost width = self.width();
        let ghost value = tone(color);
        let ghost all = paint(width, buf@, frame_points(sx, sy, ex, ey, border_thickness as int), value);
        proof {
            lemma_paint_finishes(
                width,
                buf@,
                frame_points(sx, sy, ex, ey, border_thickness as int),
                value,
            );
        }
        let (left, top, right, bottom) = (
            start_x as isize,
            start_y as isize,
            end_x as isize,
            end_y as isize,
        );
        let mut i: usize = 0;
        while i < border_thickness
            invariant
                i <= border_thickness,
                all == paint(
                    width,
                    buf@,
                    rings_from(sx, sy, ex, ey, i as int, border_thickness as int),
                    value,
                ),
            decreases border_thickness - i,
        {
            let inset = i as isize;
            let ghost a = column(sx + i, sy, ey);
            let ghost b = column(ex - i - 1, sy, ey);
            let ghost c = row(sx, ex, sy + i);
            let ghost d = row(sx, ex, ey - i - 1);
            let ghost rest = rings_from(sx, sy, ex, ey, i + 1, border_thickness as int);
            proof {
                assert(rings_from(sx, sy, ex, ey, i as int, border_thickness as int) =~= a + (b + (c
                    + (d + rest))));
                lemma_paint_concat(width, buf@, a, b + (c + (d + rest)), value);
                lemma_paint_len(width, buf@, a, value);
                lemma_edges_are_runs(sx + i, sy + i, sy, ey);
                lemma_edges_are_runs(ex - i - 1, ey - i - 1, sy, ey);
                lemma_edges_are_runs(sx + i, sy + i, sx, ex);
                lemma_edges_are_runs(ex - i - 1, ey - i - 1, sx, ex);
            }
            match self.draw_walk(buf, left + inset, top, left + inset, bottom, color) {
                Ok(()) => {},
                Err(e) => {
                    return Err(e);
                },
            }
            proof {
                lemma_paint_concat(width, buf@, b, c + (d + rest), value);
                lemma_paint_len(width, buf@, b, value);
            }
            match self.draw_walk(buf, right - inset - 1, top, right - inset - 1, bottom, color) {
                Ok(()) => {},
                Err(e) => {
                    return Err(e);
                },
            }
            proof {
                lemma_paint_concat(width, buf@, c, d + rest, value);
                lemma_paint_len(width, buf@, c, value);
            }
            match self.draw_walk(buf, left, top + inset, right, top + inset, color) {
                Ok(()) => {},
                Err(e) => {
                    return Err(e);
                },
            }
            proof {
                lemma_paint_concat(width, buf@, d, rest, value);
                lemma_paint_len(width, buf@, d, value);
            }
            match self.draw_walk(buf, left, bottom - inset - 1, right, bottom - inset - 1, color) {
                Ok(()) => {},
                Err(e) => {
                    return Err(e);
                },
            }
            i += 1;
        }
        Ok(())
    }
}

} // verus!
