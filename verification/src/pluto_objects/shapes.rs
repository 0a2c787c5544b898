//! Kinds of vector shapes.
use vstd::prelude::*;

verus! {

#[derive(Debug, Clone, Copy, PartialEq, Eq)]
pub enum ShapeType {
    Rectangle,
    Circle,
    /// Regular polygon with the given number of sides.
    Polygon(u32),
}

} // verus!
