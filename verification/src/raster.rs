//! The mathematical model of drawing: a buffer is a sequence of pixel values,
//! a shape is a sequence of positions, and drawing writes the positions in
//! order until one of them falls outside the buffer.

use vstd::prelude::*;

verus! {

/// The index of position `p` (column, row) in a row-major buffer whose rows
/// hold `width` pixels.
pub open spec fn slot(width: nat, p: (int, int)) -> int {
    p.1 * width + p.0
}

/// Whether position `p` addresses a pixel of a buffer of `len` pixels.
/// Negative coordinates never do.
pub open spec fn in_frame(width: nat, len: nat, p: (int, int)) -> bool {
    0 <= p.0 && 0 <= p.1 && slot(width, p) < len
}

/// The pixel value that a color is stored as: its low 32 bits.
pub open spec fn tone(color: usize) -> u32 {
    (color as int % 0x1_0000_0000) as u32
}

/// What a drawing operation leaves behind.
pub struct Trace {
    /// The buffer after the operation.
    pub pixels: Seq<u32>,
    /// The position at which the operation stopped, if it did not finish.
    pub stopped: Option<(int, int)>,
}

/// Writing `tone` at each of `points` in order. The first position outside
/// the buffer stops the operation: it is recorded, and neither it nor any
/// later position is written.
pub open spec fn paint(width: nat, pixels: Seq<u32>, points: Seq<(int, int)>, tone: u32) -> Trace
    decreases points.len(),
{
    if points.len() == 0 {
        Trace { pixels, stopped: None }
    } else {
        let before = paint(width, pixels, points.drop_last(), tone);
        let p = points.last();
        if before.stopped is Some {
            before
        } else if in_frame(width, pixels.len(), p) {
            Trace { pixels: before.pixels.update(slot(width, p), tone), stopped: None }
        } else {
            Trace { pixels: before.pixels, stopped: Some(p) }
        }
    }
}

/// Whether exactly the first `n` of `points` lie in the buffer before one
/// falls outside; `n` is the number of points if none does.
pub open spec fn first_outside(width: nat, len: nat, points: Seq<(int, int)>, n: int) -> bool {
    &&& 0 <= n <= points.len()
    &&& forall|j: int| 0 <= j < n ==> in_frame(width, len, #[trigger] points[j])
    &&& n < points.len() ==> !in_frame(width, len, points[n])
}

/// Whether one of the first `n` of `points` addresses buffer index `i`.
pub open spec fn touched(width: nat, points: Seq<(int, int)>, n: int, i: int) -> bool {
    exists|j: int| 0 <= j < n && slot(width, #[trigger] points[j]) == i
}

/// The number of leading `points` that lie in the buffer: the index of the
/// first one that falls outside, or the number of points if none does.
pub open spec fn reach(width: nat, len: nat, points: Seq<(int, int)>) -> int
    decreases points.len(),
{
    if points.len() == 0 {
        0
    } else {
        let r = reach(width, len, points.drop_last());
        if r == points.len() - 1 && in_frame(width, len, points.last()) {
            r + 1
        } else {
            r
        }
    }
}

/// `reach` is the one `n` of which `first_outside` holds.
pub proof fn lemma_reach(width: nat, len: nat, points: Seq<(int, int)>)
    ensures
        first_outside(width, len, points, reach(width, len, points)),
        forall|n: int| first_outside(width, len, points, n) ==> n == reach(width, len, points),
    decreases points.len(),
{
    if points.len() > 0 {
        let rest = points.drop_last();
        lemma_reach(width, len, rest);
        let r = reach(width, len, rest);
        assert forall|j: int| 0 <= j < r implies in_frame(width, len, #[trigger] points[j]) by {
            assert(points[j] == rest[j]);
        }
        if r < rest.len() {
            assert(points[r] == rest[r]);
        }
    }
    let m = reach(width, len, points);
    assert forall|n: int| first_outside(width, len, points, n) implies n == m by {
        if n < m {
            assert(in_frame(width, len, points[n]));
        } else if m < n {
            assert(in_frame(width, len, points[m]));
        }
    }
}

/// Drawing never changes the length of the buffer.
pub proof fn lemma_paint_len(width: nat, pixels: Seq<u32>, points: Seq<(int, int)>, tone: u32)
    ensures
        paint(width, pixels, points, tone).pixels.len() == pixels.len(),
    decreases points.len(),
{
    if points.len() > 0 {
        lemma_paint_len(width, pixels, points.drop_last(), tone);
    }
}

/// Drawing one point writes it if it lies in the buffer, and otherwise
/// reports it and leaves the buffer as it was.
pub proof fn lemma_paint_one(width: nat, pixels: Seq<u32>, p: (int, int), tone: u32)
    ensures
        in_frame(width, pixels.len(), p) ==> paint(width, pixels, seq![p], tone) == (Trace {
            pixels: pixels.update(slot(width, p), tone),
            stopped: None,
        }),
        !in_frame(width, pixels.len(), p) ==> paint(width, pixels, seq![p], tone) == (Trace {
            pixels,
            stopped: Some(p),
        }),
{
    let one = seq![p];
    assert(one.drop_last() =~= Seq::<(int, int)>::empty());
    assert(paint(width, pixels, one.drop_last(), tone) == Trace { pixels, stopped: None });
}

/// Drawing two shapes one after the other: the second is drawn onto what the
/// first left, unless the first stopped.
pub proof fn lemma_paint_concat(
    width: nat,
    pixels: Seq<u32>,
    first: Seq<(int, int)>,
    second: Seq<(int, int)>,
    tone: u32,
)
    ensures
        paint(width, pixels, first + second, tone) == ({
            let t = paint(width, pixels, first, tone);
            if t.stopped is Some {
                t
            } else {
                paint(width, t.pixels, second, tone)
            }
        }),
    decreases second.len(),
{
    let t = paint(width, pixels, first, tone);
    lemma_paint_len(width, pixels, first, tone);
    if second.len() == 0 {
        assert(first + second =~= first);
    } else {
        lemma_paint_concat(width, pixels, first, second.drop_last(), tone);
        assert((first + second).drop_last() =~= first + second.drop_last());
        assert((first + second).last() == second.last());
    }
}

/// Once a run of the points has stopped, drawing more of them changes
/// nothing.
pub proof fn lemma_paint_stopped_prefix(
    width: nat,
    pixels: Seq<u32>,
    points: Seq<(int, int)>,
    tone: u32,
    k: int,
)
    requires
        0 <= k <= points.len(),
        paint(width, pixels, points.take(k), tone).stopped is Some,
    ensures
        paint(width, pixels, points, tone) == paint(width, pixels, points.take(k), tone),
{
    lemma_paint_concat(width, pixels, points.take(k), points.skip(k), tone);
    assert(points.take(k) + points.skip(k) =~= points);
}

/// Drawing one more point after a run that did not stop.
pub proof fn lemma_paint_step(
    width: nat,
    pixels: Seq<u32>,
    points: Seq<(int, int)>,
    tone: u32,
    k: int,
)
    requires
        0 <= k < points.len(),
        paint(width, pixels, points.take(k), tone).stopped is None,
    ensures
        paint(width, pixels, points.take(k + 1), tone) == paint(
            width,
            paint(width, pixels, points.take(k), tone).pixels,
            seq![points[k]],
            tone,
        ),
{
    lemma_paint_concat(width, pixels, points.take(k), seq![points[k]], tone);
    assert(points.take(k) + seq![points[k]] =~= points.take(k + 1));
}

/// Fail-fast drawing, said pixel by pixel. If the first `n` points lie in
/// the buffer and the next one does not, the operation stops at that point
/// and reports it; if all of them lie in the buffer it finishes. Either way
/// the pixels that those first `n` points address hold the new value, and
/// every other pixel holds what it held before.
pub proof fn lemma_paint_fail_fast(
    width: nat,
    pixels: Seq<u32>,
    points: Seq<(int, int)>,
    tone: u32,
    n: int,
)
    requires
        first_outside(width, pixels.len(), points, n),
    ensures
        paint(width, pixels, points, tone).stopped == (if n < points.len() {
            Some(points[n])
        } else {
            None
        }),
        paint(width, pixels, points, tone).pixels.len() == pixels.len(),
        forall|i: int|
            0 <= i < pixels.len() ==> #[trigger] paint(width, pixels, points, tone).pixels[i] == (
            if touched(width, points, n, i) {
                tone
            } else {
                pixels[i]
            }),
    decreases points.len(),
{
    lemma_paint_len(width, pixels, points, tone);
    if points.len() > 0 {
        let rest = points.drop_last();
        let m = if n < points.len() { n } else { n - 1 };
        assert forall|j: int| 0 <= j < m implies in_frame(width, pixels.len(), #[trigger] rest[j]) by {
            assert(rest[j] == points[j]);
        }
        if m < rest.len() {
            assert(rest[m] == points[m]);
        }
        lemma_paint_fail_fast(width, pixels, rest, tone, m);
        let before = paint(width, pixels, rest, tone);
        let after = paint(width, pixels, points, tone);
        assert forall|i: int| 0 <= i < pixels.len() implies #[trigger] after.pixels[i] == (if touched(
            width,
            points,
            n,
            i,
        ) {
            tone
        } else {
            pixels[i]
        }) by {
            if touched(width, rest, m, i) {
                let j = choose|j: int| 0 <= j < m && slot(width, #[trigger] rest[j]) == i;
                assert(points[j] == rest[j]);
            }
            if touched(width, points, n, i) {
                let j = choose|j: int| 0 <= j < n && slot(width, #[trigger] points[j]) == i;
                if j < m {
                    assert(rest[j] == points[j]);
                }
            }
            if m < n {
                assert(slot(width, points[m]) == i ==> touched(width, points, n, i));
            }
        }
    } else {
        assert forall|i: int| 0 <= i < pixels.len() implies !touched(width, points, n, i) by {}
    }
}

/// A position lies in two shapes drawn one after the other if it lies in
/// either.
pub proof fn lemma_concat_contains(first: Seq<(int, int)>, second: Seq<(int, int)>, p: (int, int))
    ensures
        (first + second).contains(p) <==> first.contains(p) || second.contains(p),
{
    let both = first + second;
    if both.contains(p) {
        let j = choose|j: int| 0 <= j < both.len() && both[j] == p;
        if j < first.len() {
            assert(first[j] == p);
        } else {
            assert(second[j - first.len()] == p);
        }
    }
    if first.contains(p) {
        let j = choose|j: int| 0 <= j < first.len() && first[j] == p;
        assert(both[j] == p);
    }
    if second.contains(p) {
        let j = choose|j: int| 0 <= j < second.len() && second[j] == p;
        assert(both[first.len() + j] == p);
    }
}

/// Whether every one of `points` lies in the buffer.
pub open spec fn all_in_frame(width: nat, len: nat, points: Seq<(int, int)>) -> bool {
    forall|j: int| 0 <= j < points.len() ==> in_frame(width, len, #[trigger] points[j])
}

/// Whether position `p` lies in the buffer and its pixel holds `value`.
pub open spec fn holds(width: nat, pixels: Seq<u32>, p: (int, int), value: u32) -> bool {
    in_frame(width, pixels.len(), p) && pixels[slot(width, p)] == value
}

/// A drawing finishes exactly if all of its positions lie in the buffer.
/// Then the pixels that its positions address hold the new value, and every
/// other pixel holds what it held before.
pub proof fn lemma_paint_finishes(width: nat, pixels: Seq<u32>, points: Seq<(int, int)>, tone: u32)
    ensures
        paint(width, pixels, points, tone).stopped is None <==> all_in_frame(
            width,
            pixels.len(),
            points,
        ),
        paint(width, pixels, points, tone).stopped is None ==> forall|i: int|
            0 <= i < pixels.len() ==> #[trigger] paint(width, pixels, points, tone).pixels[i] == (
            if touched(width, points, points.len() as int, i) {
                tone
            } else {
                pixels[i]
            }),
        paint(width, pixels, points, tone).stopped is None ==> forall|j: int|
            0 <= j < points.len() ==> holds(
                width,
                paint(width, pixels, points, tone).pixels,
                #[trigger] points[j],
                tone,
            ),
{
    let n = reach(width, pixels.len(), points);
    lemma_reach(width, pixels.len(), points);
    lemma_paint_fail_fast(width, pixels, points, tone, n);
    let after = paint(width, pixels, points, tone);
    if all_in_frame(width, pixels.len(), points) {
        if n < points.len() {
            assert(in_frame(width, pixels.len(), points[n]));
        }
    }
    if after.stopped is None {
        assert forall|j: int| 0 <= j < points.len() implies holds(
            width,
            after.pixels,
            #[trigger] points[j],
            tone,
        ) by {
            assert(in_frame(width, pixels.len(), points[j]));
            vstd::arithmetic::mul::lemma_mul_nonnegative(points[j].1, width as int);
            assert(touched(width, points, n, slot(width, points[j])));
        }
    }
}

} // verus!
