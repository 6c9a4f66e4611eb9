//! The axis along which a container lays out its children.
use vstd::prelude::*;
use crate::text::{owned, ParseError};

verus! {

/// The axis along which a container's children follow one another.
#[derive(Clone, Copy, Debug, PartialEq, Eq, Structural)]
pub enum Direction {
    /// Children are stacked top to bottom.
    Vertical,
    /// Children are placed left to right.
    Horizontal,
}

pub open spec fn direction_name(d: Direction) -> Seq<char> {
    match d {
        Direction::Vertical => "vertical"@,
        Direction::Horizontal => "horizontal"@,
    }
}

impl Direction {
    /// The textual encoding: `"vertical"` or `"horizontal"`.
    pub fn as_str(&self) -> (r: &'static str)
        ensures
            r@ == direction_name(*self),
    {
        match self {
            Direction::Vertical => "vertical",
            Direction::Horizontal => "horizontal",
        }
    }

    /// Reads the textual encoding; the match is exact and case-sensitive.
    pub fn parse(value: &str) -> (r: Result<Direction, ParseError>)
        ensures
            r matches Ok(Direction::Vertical) <==> value@ == "vertical"@,
            r matches Ok(Direction::Horizontal) <==> value@ == "horizontal"@,
            r is Err <==> value@ != "vertical"@ && value@ != "horizontal"@,
            r matches Err(e) ==> (e matches ParseError::InvalidDirection(lit) && lit@ == value@),
    {
        let v = owned(value);
        let vertical = owned("vertical");
        let horizontal = owned("horizontal");
        proof {
            reveal_strlit("vertical");
            reveal_strlit("horizontal");
            assert("vertical"@.len() != "horizontal"@.len());
        }
        if v == vertical {
            Ok(Direction::Vertical)
        } else if v == horizontal {
            Ok(Direction::Horizontal)
        } else {
            Err(ParseError::InvalidDirection(v))
        }
    }
}

} // verus!
