//! A constraint-based tree layout engine for terminal screens.
//!
//! A flat list of [`item::Item`]s describes named screen areas; the linker in
//! [`item`] turns it into an arena-backed [`item::ItemTree`], and the solver in
//! [`rect_computation`] assigns an absolute [`rect::Rect`] to every node.
use vstd::prelude::*;




pub mod direction;
pub mod identifier;
pub mod item;
pub mod length;
pub mod rect;
pub mod rect_computation;
pub mod size;
pub mod text;
pub mod ui;
pub mod window;

verus! {

} // verus!
