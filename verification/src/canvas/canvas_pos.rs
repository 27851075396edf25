use vstd::prelude::*;
use std::ops::Add;
use vstd::std_specs::ops::AddSpecImpl;
use vstd::std_specs::cmp::PartialEqSpecImpl;

verus! {

/// A position in pixels relative to the canvas, with the top left corner being (0, 0).
///
/// Positions off the canvas are valid values. This includes negative coordinates,
/// even though all positions displayed on the canvas are positive.
#[derive(Copy, Clone, Eq, Debug)]
pub struct CanvasPos {
    pub x: i32,
    pub y: i32,
}

impl Add for CanvasPos {
    type Output = CanvasPos;

    /// Adds the two positions component by component.
    fn add(self, rhs: Self) -> (sum: Self::Output) {
        CanvasPos { x: self.x + rhs.x, y: self.y + rhs.y }
    }
}

impl AddSpecImpl for CanvasPos {
    open spec fn obeys_add_spec() -> bool {
        true
    }

    /// Neither coordinate sum leaves the range of `i32`.
    open spec fn add_req(self, rhs: Self) -> bool {
        &&& i32::MIN <= self.x + rhs.x <= i32::MAX
        &&& i32::MIN <= self.y + rhs.y <= i32::MAX
    }

    open spec fn add_spec(self, rhs: Self) -> Self {
        CanvasPos { x: (self.x + rhs.x) as i32, y: (self.y + rhs.y) as i32 }
    }
}

impl PartialEq for CanvasPos {
    /// Two positions are equal when both coordinates are equal.
    fn eq(&self, other: &Self) -> (same: bool) {
        self.x == other.x && self.y == other.y
    }
}

impl PartialEqSpecImpl for CanvasPos {
    open spec fn obeys_eq_spec() -> bool {
        true
    }

    open spec fn eq_spec(&self, other: &Self) -> bool {
        self.x == other.x && self.y == other.y
    }
}

} // verus!
