use vstd::prelude::*;

verus! {

/// An input/output pair of equally shaped resources for the ping-pong between
/// this frame's kernel input and output: each frame reads `input`, writes
/// `output`, then exchanges the two roles without reallocating either.
pub struct DoubleBuffer<T> {
    pub input: T,
    pub output: T,
}

impl<T> DoubleBuffer<T> {
    /// Exchanges the two roles: what was written becomes next frame's input.
    pub fn swap(&mut self)
        ensures
            final(self).input == old(self).output,
            final(self).output == old(self).input,
    {
        core::mem::swap(&mut self.input, &mut self.output);
    }
}

} // verus!
