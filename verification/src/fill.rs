//! Filled boxes, and clearing as a box of black.

use crate::drawer::GeometryDrawer;
use crate::error::{failure_of, DrawError};
use crate::raster::{
    first_outside, in_frame, lemma_paint_fail_fast, lemma_paint_one, lemma_paint_step,
    lemma_paint_stopped_prefix, lemma_reach, paint, reach, slot, tone, touched,
};
use vstd::prelude::*;

verus! {

/// The positions of the half-open box `[start_x, end_x) x [start_y, end_y)`
/// in the order in which they are filled: column by column from the left,
/// each column from the top. A box whose end does not lie beyond its start
/// in both directions has no positions.
pub open spec fn box_points(start_x: int, start_y: int, end_x: int, end_y: int) -> Seq<(int, int)> {
    if start_x < end_x && start_y < end_y {
        Seq::new(
            ((end_x - start_x) * (end_y - start_y)) as nat,
            |k: int| (start_x + k / (end_y - start_y), start_y + k % (end_y - start_y)),
        )
    } else {
        Seq::empty()
    }
}

/// Whether every position of the box lies in a buffer of `len` pixels.
pub open spec fn box_in_frame(
    width: nat,
    len: nat,
    start_x: int,
    start_y: int,
    end_x: int,
    end_y: int,
) -> bool {
    forall|x: int, y: int|
        start_x <= x < end_x && start_y <= y < end_y ==> #[trigger] in_frame(width, len, (x, y))
}

/// Whether buffer index `i` is the index of a position of the box.
pub open spec fn box_covers(
    width: nat,
    start_x: int,
    start_y: int,
    end_x: int,
    end_y: int,
    i: int,
) -> bool {
    exists|x: int, y: int|
        start_x <= x < end_x && start_y <= y < end_y && #[trigger] slot(width, (x, y)) == i
}

/// The number of positions of a box that precede column `x`, row `y` in
/// filling order.
pub open spec fn box_rank(start_x: int, start_y: int, end_y: int, x: int, y: int) -> int {
    (x - start_x) * (end_y - start_y) + (y - start_y)
}

/// Each position of a box stands in `box_points` at its rank.
pub proof fn lemma_box_rank(start_x: int, start_y: int, end_x: int, end_y: int, x: int, y: int)
    requires
        start_x <= x < end_x,
        start_y <= y < end_y,
    ensures
        0 <= box_rank(start_x, start_y, end_y, x, y) < box_points(
            start_x,
            start_y,
            end_x,
            end_y,
        ).len(),
        box_points(start_x, start_y, end_x, end_y)[box_rank(start_x, start_y, end_y, x, y)] == (
            x,
            y,
        ),
{
    let rows = end_y - start_y;
    let cols = end_x - start_x;
    let k = box_rank(start_x, start_y, end_y, x, y);
    assert(0 <= (x - start_x) * rows && (x - start_x) * rows + rows <= cols * rows)
        by (nonlinear_arith)
        requires
            0 <= x - start_x < cols,
            0 < rows,
    ;
    vstd::arithmetic::div_mod::lemma_fundamental_div_mod_converse(k, rows, x - start_x, y - start_y);
}

/// Each element of `box_points` is a position of the box, at its rank.
pub proof fn lemma_box_point(start_x: int, start_y: int, end_x: int, end_y: int, k: int)
    requires
        0 <= k < box_points(start_x, start_y, end_x, end_y).len(),
    ensures
        start_x <= box_points(start_x, start_y, end_x, end_y)[k].0 < end_x,
        start_y <= box_points(start_x, start_y, end_x, end_y)[k].1 < end_y,
        box_rank(
            start_x,
            start_y,
            end_y,
            box_points(start_x, start_y, end_x, end_y)[k].0,
            box_points(start_x, start_y, end_x, end_y)[k].1,
        ) == k,
{
    let rows = end_y - start_y;
    let cols = end_x - start_x;
    vstd::arithmetic::div_mod::lemma_fundamental_div_mod(k, rows);
    vstd::arithmetic::div_mod::lemma_mod_bound(k, rows);
    vstd::arithmetic::div_mod::lemma_div_pos_is_pos(k, rows);
    assert(k / rows < cols) by (nonlinear_arith)
        requires
            k < cols * rows,
            0 < rows,
            k == rows * (k / rows) + k % rows,
            0 <= k % rows,
    ;
    assert((k / rows) * rows == rows * (k / rows)) by (nonlinear_arith);
}

/// A box is filled completely exactly if it lies in the buffer. Then the
/// pixels of the box hold the new value, and every other pixel holds what it
/// held before.
pub proof fn lemma_box_filled(
    width: nat,
    pixels: Seq<u32>,
    start_x: int,
    start_y: int,
    end_x: int,
    end_y: int,
    tone: u32,
)
    ensures
        paint(width, pixels, box_points(start_x, start_y, end_x, end_y), tone).stopped is None
            <==> box_in_frame(width, pixels.len(), start_x, start_y, end_x, end_y),
        box_in_frame(width, pixels.len(), start_x, start_y, end_x, end_y) ==> forall|i: int|
            0 <= i < pixels.len() ==> #[trigger] paint(
                width,
                pixels,
                box_points(start_x, start_y, end_x, end_y),
                tone,
            ).pixels[i] == (if box_covers(width, start_x, start_y, end_x, end_y, i) {
                tone
            } else {
                pixels[i]
            }),
{
    let points = box_points(start_x, start_y, end_x, end_y);
    let n = reach(width, pixels.len(), points);
    lemma_reach(width, pixels.len(), points);
    lemma_paint_fail_fast(width, pixels, points, tone, n);
    if box_in_frame(width, pixels.len(), start_x, start_y, end_x, end_y) {
        if n < points.len() {
            lemma_box_point(start_x, start_y, end_x, end_y, n);
            assert(in_frame(width, pixels.len(), (points[n].0, points[n].1)));
        }
        assert forall|i: int| 0 <= i < pixels.len() implies touched(width, points, n, i)
            == box_covers(width, start_x, start_y, end_x, end_y, i) by {
            if touched(width, points, n, i) {
                let j = choose|j: int| 0 <= j < n && slot(width, #[trigger] points[j]) == i;
                lemma_box_point(start_x, start_y, end_x, end_y, j);
                assert(slot(width, (points[j].0, points[j].1)) == i);
            }
            if box_covers(width, start_x, start_y, end_x, end_y, i) {
                let (x, y) = choose|x: int, y: int|
                    start_x <= x < end_x && start_y <= y < end_y && #[trigger] slot(width, (x, y))
                        == i;
                lemma_box_rank(start_x, start_y, end_x, end_y, x, y);
                let j = box_rank(start_x, start_y, end_y, x, y);
                assert(slot(width, points[j]) == i);
            }
        }
    }
    if n == points.len() {
        assert forall|x: int, y: int|
            start_x <= x < end_x && start_y <= y < end_y implies #[trigger] in_frame(
            width,
            pixels.len(),
            (x, y),
        ) by {
            lemma_box_rank(start_x, start_y, end_x, end_y, x, y);
            assert(in_frame(width, pixels.len(), points[box_rank(start_x, start_y, end_y, x, y)]));
        }
    }
}

impl GeometryDrawer {
    /// Fills the half-open box `[start_x, end_x) x [start_y, end_y)` with
    /// `color`, column by column from the left, each column from the top.
    ///
    /// An empty box draws nothing and succeeds. The first position outside
    /// the buffer is reported and ends the call; what was filled before it
    /// stays filled.
    #[verifier::loop_isolation(false)]
    pub fn draw_box(
        &self,
        buf: &mut Vec<u32>,
        start_x: usize,
        start_y: usize,
        end_x: usize,
        end_y: usize,
        color: usize,
    ) -> (res: Result<(), DrawError>)
        ensures
            final(buf)@ == paint(
                self.width(),
                old(buf)@,
                box_points(start_x as int, start_y as int, end_x as int, end_y as int),
                tone(color),
            ).pixels,
            failure_of(res) == paint(
                self.width(),
                old(buf)@,
                box_points(start_x as int, start_y as int, end_x as int, end_y as int),
                tone(color),
            ).stopped,
            end_x <= start_x || end_y <= start_y ==> res is Ok && final(buf)@ == old(buf)@,
            res is Ok <==> box_in_frame(
                self.width(),
                old(buf)@.len(),
                start_x as int,
                start_y as int,
                end_x as int,
                end_y as int,
            ),
            res is Ok ==> final(buf)@.len() == old(buf)@.len() && forall|i: int|
                0 <= i < old(buf)@.len() ==> #[trigger] final(buf)@[i] == (if box_covers(
                    self.width(),
                    start_x as int,
                    start_y as int,
                    end_x as int,
                    end_y as int,
                    i,
                ) {
                    tone(color)
                } else {
                    old(buf)@[i]
                }),
    {
        let ghost (sx, sy, ex, ey) = (start_x as int, start_y as int, end_x as int, end_y as int);
        let ghost points = box_points(sx, sy, ex, ey);
        let ghost before = buf@;
        let ghost width = self.width();
        let ghost value = tone(color);
        let ghost mut k: int = 0;
        proof {
            assert(points.take(0) =~= Seq::<(int, int)>::empty());
            lemma_box_filled(width, before, sx, sy, ex, ey, value);
            crate::raster::lemma_paint_len(width, before, points, value);
        }
        if end_y <= start_y {
            return Ok(());
        }
        let mut x: usize = start_x;
        while x < end_x
            invariant
                sx <= x,
                sx < ex ==> x <= ex,
                k == if sx < ex {
                    box_rank(sx, sy, ey, x as int, sy)
                } else {
                    0
                },
                0 <= k <= points.len(),
                buf@ == paint(width, before, points.take(k), value).pixels,
                paint(width, before, points.take(k), value).stopped is None,
            decreases end_x - x,
        {
            let mut y: usize = start_y;
            while y < end_y
                invariant
                    sx <= x < ex,
                    sy <= y <= ey,
                    k == box_rank(sx, sy, ey, x as int, y as int),
                    0 <= k <= points.len(),
                    buf@ == paint(width, before, points.take(k), value).pixels,
                    paint(width, before, points.take(k), value).stopped is None,
                decreases end_y - y,
            {
                let ghost drawn = buf@;
                proof {
                    lemma_box_rank(sx, sy, ex, ey, x as int, y as int);
                    lemma_paint_step(width, before, points, value, k);
                    lemma_paint_one(width, drawn, (x as int, y as int), value);
                    crate::raster::lemma_paint_len(width, before, points.take(k), value);
                }
                match self.draw_pixel(buf, x, y, color) {
                    Ok(()) => {},
                    Err(e) => {
                        proof {
                            lemma_paint_stopped_prefix(width, before, points, value, k + 1);
                        }
                        return Err(e);
                    },
                }
                y += 1;
                proof {
                    k = k + 1;
                }
            }
            proof {
                assert(box_rank(sx, sy, ey, x as int, ey) == box_rank(sx, sy, ey, x as int + 1, sy))
                    by (nonlinear_arith);
                assert(x + 1 == ex ==> box_rank(sx, sy, ey, x as int + 1, sy) == (ex - sx) * (ey
                    - sy));
            }
            x += 1;
        }
        proof {
            if sx < ex {
                assert(k == points.len());
            }
            assert(points.take(points.len() as int) =~= points);
        }
        Ok(())
    }

    /// Fills the half-open box `[start_x, end_x) x [start_y, end_y)` with
    /// black, as `draw_box` does with color `0`.
    pub fn screen_clear(
        &self,
        buf: &mut Vec<u32>,
        start_x: usize,
        start_y: usize,
        end_x: usize,
        end_y: usize,
    ) -> (res: Result<(), DrawError>)
        ensures
            final(buf)@ == paint(
                self.width(),
                old(buf)@,
                box_points(start_x as int, start_y as int, end_x as int, end_y as int),
                0u32,
            ).pixels,
            failure_of(res) == paint(
                self.width(),
                old(buf)@,
                box_points(start_x as int, start_y as int, end_x as int, end_y as int),
                0u32,
            ).stopped,
            res is Ok ==> forall|x: int, y: int|
                start_x <= x < end_x && start_y <= y < end_y ==> 0 <= #[trigger] slot(
                    self.width(),
                    (x, y),
                ) < final(buf)@.len() && final(buf)@[slot(self.width(), (x, y))] == 0,
    {
        let res = self.draw_box(buf, start_x, start_y, end_x, end_y, 0x00_00_00);
        proof {
            if res is Ok {
                assert forall|x: int, y: int|
                    start_x <= x < end_x && start_y <= y < end_y implies 0 <= #[trigger] slot(
                    self.width(),
                    (x, y),
                ) < buf@.len() && buf@[slot(self.width(), (x, y))] == 0 by {
                    assert(in_frame(self.width(), old(buf)@.len(), (x, y)));
                    vstd::arithmetic::mul::lemma_mul_nonnegative(y, self.width() as int);
                    assert(box_covers(
                        self.width(),
                        start_x as int,
                        start_y as int,
                        end_x as int,
                        end_y as int,
                        slot(self.width(), (x, y)),
                    ));
                }
            }
        }
        res
    }
}

} // verus!
