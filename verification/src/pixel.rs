use vstd::prelude::*;

use crate::screen::Size;

verus! {

/// A complex number as it travels through the iteration kernel. The library
/// never computes with it; each field carries the IEEE-754 bit pattern of one
/// part, so a record can round-trip through the device untouched. The zero
/// value is the all-zero bit pattern in both parts.
#[derive(Clone, Copy, PartialEq, Eq, Structural, Debug)]
pub struct Complex {
    pub re_bits: u32,
    pub im_bits: u32,
}

impl Complex {
    /// The starting iterate z0 = 0 + 0i.
    pub fn zero() -> (r: Complex)
        ensures
            r == (Complex { re_bits: 0, im_bits: 0 }),
    {
        Complex { re_bits: 0, im_bits: 0 }
    }
}

/// Per-cell record of the escape-time iteration: the cell's screen position,
/// the current iterate, how many steps have run, and whether the iterate has
/// crossed the divergence threshold. `escaped` is 0 or 1, a `u32` so the
/// record has the layout the kernel writes.
#[derive(Clone, Copy, PartialEq, Eq, Structural, Debug)]
pub struct Pixel {
    pub x: u32,
    pub y: u32,
    pub current_value: Complex,
    pub escaped: u32,
    pub iteration_count: u32,
}

impl Pixel {
    /// A freshly created cell at (x, y): zero iterate, no steps, not escaped.
    pub open spec fn initial(x: u32, y: u32) -> Pixel {
        Pixel {
            x,
            y,
            current_value: Complex { re_bits: 0, im_bits: 0 },
            escaped: 0,
            iteration_count: 0,
        }
    }

    /// The cell's slot in a row-major width x height snapshot.
    pub open spec fn snapshot_index(self, width: u32) -> int {
        self.y * width + self.x
    }

    /// The cell's coordinates lie on the screen.
    pub open spec fn in_bounds(self, size: Size) -> bool {
        self.x < size.width && self.y < size.height
    }

    /// The record is one a well-behaved readback can hand over: coordinates on
    /// screen and a boolean escaped flag.
    pub open spec fn valid(self, size: Size) -> bool {
        self.in_bounds(size) && self.escaped <= 1
    }
}

/// A cell inside the screen maps to a slot inside the row-major snapshot.
pub proof fn lemma_snapshot_index_in_area(x: int, y: int, w: int, h: int)
    requires
        0 <= x < w,
        0 <= y < h,
    ensures
        0 <= y * w + x < w * h,
{
    assert(y * w + x < w * h) by (nonlinear_arith)
        requires
            0 <= x < w,
            0 <= y < h,
    ;
    assert(0 <= y * w) by (nonlinear_arith)
        requires
            0 <= y,
            0 <= w,
    ;
}

/// Produces the full width x height grid of fresh pixels in row-major order:
/// the cell at slot i sits at column i % width, row i / width.
pub fn create_pixels(size: Size) -> (pixels: Vec<Pixel>)
    requires
        size.area() <= usize::MAX,
    ensures
        pixels@.len() == size.area(),
        forall|i: int|
            0 <= i < pixels@.len() ==> pixels@[i] == Pixel::initial(
                (i % (size.width as int)) as u32,
                (i / (size.width as int)) as u32,
            ),
{
    let n: usize = size.cell_count() as usize;
    let width: usize = size.width as usize;
    proof {
        assert(size.width == 0 ==> size.width * size.height == 0) by (nonlinear_arith);
    }
    let mut pixels: Vec<Pixel> = Vec::new();
    let mut i: usize = 0;
    while i < n
        invariant
            n == size.area(),
            width == size.width,
            n > 0 ==> width > 0,
            i <= n,
            pixels@.len() == i,
            forall|j: int|
                0 <= j < i ==> pixels@[j] == Pixel::initial(
                    (j % (size.width as int)) as u32,
                    (j / (size.width as int)) as u32,
                ),
        decreases n - i,
    {
        let x: usize = i % width;
        let y: usize = i / width;
        proof {
            assert(x < width);
            assert(i < size.width * size.height);
            assert(y < size.height as int) by (nonlinear_arith)
                requires
                    y == i as int / width as int,
                    width > 0,
                    i < width * size.height,
                    width == size.width as int,
            ;
        }
        pixels.push(Pixel {
            x: x as u32,
            y: y as u32,
            current_value: Complex { re_bits: 0, im_bits: 0 },
            escaped: 0,
            iteration_count: 0,
        });
        i = i + 1;
    }
    pixels
}

} // verus!
