use vstd::prelude::*;

verus! {

/// Width of the display in pixels.
pub const WIDTH: usize = 128;

/// Height of the display in pixels.
pub const HEIGHT: usize = 64;

/// A pixel coordinate: column, then row.
#[derive(Clone, Copy, Debug, PartialEq, Eq, Structural)]
pub struct Point(pub usize, pub usize);

impl Point {
    /// The point lies on the display.
    pub open spec fn on_display(self) -> bool {
        self.0 < WIDTH && self.1 < HEIGHT
    }

    /// The point halfway between `self` and `other`, rounded down on each axis.
    pub open spec fn spec_midpoint(self, other: Point) -> Point {
        Point(((self.0 + other.0) / 2) as usize, ((self.1 + other.1) / 2) as usize)
    }

    /// The point halfway between `self` and `other`, rounded down on each axis.
    pub fn midpoint(&self, other: &Self) -> (r: Self)
        requires
            self.0 + other.0 <= usize::MAX,
            self.1 + other.1 <= usize::MAX,
        ensures
            r == self.spec_midpoint(*other),
    {
        let x = (self.0 + other.0) / 2;
        let y = (self.1 + other.1) / 2;
        Point(x, y)
    }
}

/// The midpoint of two points on the display is on the display.
pub proof fn lemma_midpoint_on_display(a: Point, b: Point)
    requires
        a.on_display(),
        b.on_display(),
    ensures
        a.spec_midpoint(b).on_display(),
{
}

} // verus!
