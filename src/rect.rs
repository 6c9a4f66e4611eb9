use vstd::prelude::*;

verus! {

/// An absolute rectangle in terminal cells.
#[derive(Clone, Copy, Debug, PartialEq, Eq, Structural)]
pub struct Rect {
    pub x: u16,
    pub y: u16,
    pub height: u16,
    pub width: u16,
}

impl Rect {
    /// Number of cells covered, `width * height`.
    pub fn area(&self) -> (r: u32)
        ensures
            r == self.width as int * self.height as int,
    {
        proof {
            vstd::arithmetic::mul::lemma_mul_upper_bound(
                self.width as int,
                0xffff,
                self.height as int,
                0xffff,
            );
        }
        (self.width as u32) * (self.height as u32)
    }
}

} // verus!
