use vstd::prelude::*;

verus! {

/// Screen dimensions, in whole cells (pixels).
#[derive(Clone, Copy, PartialEq, Eq, Structural, Debug)]
pub struct Size {
    pub width: u32,
    pub height: u32,
}

impl Size {
    /// Total number of cells on the screen.
    pub open spec fn area(self) -> nat {
        (self.width * self.height) as nat
    }

    /// Computes the cell count; `u64` so that no screen size can overflow it.
    pub fn cell_count(&self) -> (n: u64)
        ensures
            n == self.area(),
    {
        proof {
            assert(self.width as int * self.height as int <= u32::MAX as int * u32::MAX as int)
                by (nonlinear_arith)
                requires
                    self.width <= u32::MAX,
                    self.height <= u32::MAX,
            ;
        }
        self.width as u64 * self.height as u64
    }
}

} // verus!
