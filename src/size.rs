//! A size bound given as minimum, maximum and preferred lengths.
use vstd::prelude::*;
use crate::length::{Length, max, min, resolve};

verus! {

/// A size bound: the extent wanted, and the least and most allowed.
#[derive(Clone, Copy, Debug, PartialEq, Eq, Structural)]
pub struct Size {
    pub minimum: Length,
    pub maximum: Length,
    pub preferred: Length,
}

/// The extent that `s` takes inside a parent of extent `parent`: the
/// preferred extent raised to the minimum, then held to the maximum and to
/// the parent; each length resolved against the parent alone.
pub open spec fn appliable(s: Size, parent: int) -> int {
    let lo = resolve(s.minimum, parent, 0);
    let hi = resolve(s.maximum, parent, 0);
    let want = resolve(s.preferred, parent, 0);
    min(min(hi, parent), max(want, lo))
}

impl Default for Size {
    /// Fill the parent: no minimum, and all of the parent at most and preferably.
    fn default() -> (r: Size)
        ensures
            r == (Size {
                minimum: Length::Absolute(0),
                maximum: Length::Relative(100),
                preferred: Length::Relative(100),
            }),
    {
        Size {
            minimum: Length::Absolute(0),
            maximum: Length::Relative(100),
            preferred: Length::Relative(100),
        }
    }
}

impl Size {
    /// The extent this bound takes inside a parent of extent `parent_length`.
    pub fn get_appliable_size(&self, parent_length: u16) -> (r: u16)
        ensures
            r == appliable(*self, parent_length as int),
            r <= parent_length,
    {
        let minimum_length = self.minimum.get_absolute(parent_length, 0);
        let maximum_length = self.maximum.get_absolute(parent_length, 0);
        let preferred_length = self.preferred.get_absolute(parent_length, 0);
        let upper = if maximum_length <= parent_length { maximum_length } else { parent_length };
        let wanted = if preferred_length >= minimum_length { preferred_length } else { minimum_length };
        if upper <= wanted { upper } else { wanted }
    }
}

} // verus!
