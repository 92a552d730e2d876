//! The drawer and its single point of bounds enforcement.

use crate::error::DrawError;
use crate::raster::{in_frame, slot, tone};
use vstd::prelude::*;

verus! {

/// Draws into row-major pixel buffers of one fixed row width.
///
/// The drawer keeps the row width and nothing else. The height of the window
/// is not part of it: the length of the buffer handed to each call is the
/// bound that every write is checked against.
pub struct GeometryDrawer {
    window_width: usize,
}

impl GeometryDrawer {
    /// The number of pixels in a row.
    pub closed spec fn width(&self) -> nat {
        self.window_width as nat
    }

    /// A drawer for buffers whose rows hold `window_width` pixels.
    pub fn new(window_width: usize) -> (drawer: Self)
        ensures
            drawer.width() == window_width,
    {
        Self { window_width }
    }

    /// Writes `color` at column `x`, row `y`.
    ///
    /// The pixel is written if its index `y * width + x` lies in the buffer.
    /// Otherwise the position is reported and the buffer is left as it was.
    pub fn draw_pixel(&self, buf: &mut Vec<u32>, x: usize, y: usize, color: usize) -> (res: Result<
        (),
        DrawError,
    >)
        ensures
            y * self.width() + x < old(buf)@.len() ==> res is Ok && final(buf)@ == old(buf)@.update(
                y * self.width() + x,
                tone(color),
            ),
            y * self.width() + x >= old(buf)@.len() ==> res == Err::<(), DrawError>(
                DrawError::OutOfBounds(x as i128, y as i128),
            ) && final(buf)@ == old(buf)@,
    {
        self.draw_point(buf, x as i128, y as i128, color)
    }

    /// Writes `color` at a position that arithmetic on coordinates has
    /// produced, which may be negative or lie beyond any index.
    ///
    /// This is where every drawing operation has its writes checked: the
    /// index is computed without wrapping, and a position that is negative
    /// or whose index is not below the buffer's length is reported, with the
    /// buffer left as it was.
    pub fn draw_point(&self, buf: &mut Vec<u32>, x: i128, y: i128, color: usize) -> (res: Result<
        (),
        DrawError,
    >)
        ensures
            in_frame(self.width(), old(buf)@.len(), (x as int, y as int)) ==> res is Ok
                && final(buf)@ == old(buf)@.update(
                slot(self.width(), (x as int, y as int)),
                tone(color),
            ),
            !in_frame(self.width(), old(buf)@.len(), (x as int, y as int)) ==> res == Err::<
                (),
                DrawError,
            >(DrawError::OutOfBounds(x, y)) && final(buf)@ == old(buf)@,
    {
        if x < 0 || y < 0 {
            return Err(DrawError::OutOfBounds(x, y));
        }
        let width = self.window_width as i128;
        let len = buf.len() as i128;
        proof {
            assert(y * width >= 0) by (nonlinear_arith)
                requires
                    y >= 0,
                    width >= 0,
            ;
            assert(slot(self.width(), (x as int, y as int)) == y * width + x);
        }
        let index = match y.checked_mul(width) {
            Some(row) => row.checked_add(x),
            None => None,
        };
        match index {
            Some(i) => {
                if i < len {
                    buf[i as usize] = low_bits(color);
                    Ok(())
                } else {
                    Err(DrawError::OutOfBounds(x, y))
                }
            },
            None => Err(DrawError::OutOfBounds(x, y)),
        }
    }
}

/// The low 32 bits of a color.
fn low_bits(color: usize) -> (value: u32)
    ensures
        value == tone(color),
{
    (color as u64 % 0x1_0000_0000) as u32
}

} // verus!
