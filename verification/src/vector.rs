//! Basic Euclidean vector types.

use vstd::prelude::*;
use vstd::std_specs::ops::{AddSpecImpl, SubSpecImpl};

verus! {

/// A 2D vector to represent a coordinate, translation, etc.
#[derive(PartialEq, Eq, Structural, PartialOrd, Ord, Clone, Copy, Hash, Debug, Default)]
pub struct Vector2D {
    pub x: i32,
    pub y: i32,
}

impl Vector2D {
    /// The sum of two vectors, coordinate by coordinate.
    pub open spec fn plus(self, rhs: Vector2D) -> (int, int) {
        (self.x + rhs.x, self.y + rhs.y)
    }

    /// The difference of two vectors, coordinate by coordinate.
    pub open spec fn minus(self, rhs: Vector2D) -> (int, int) {
        (self.x - rhs.x, self.y - rhs.y)
    }

    /// The coordinates as integers.
    pub open spec fn point(self) -> (int, int) {
        (self.x as int, self.y as int)
    }

    /// The coordinates are those of a vector.
    pub open spec fn is_point(p: (int, int)) -> bool {
        i32::MIN <= p.0 <= i32::MAX && i32::MIN <= p.1 <= i32::MAX
    }

    /// The point turned by `turns` quarter turns, counter-clockwise where
    /// the y-axis is upwards.
    pub open spec fn turned(p: (int, int), turns: int) -> (int, int) {
        if turns % 4 == 0 {
            p
        } else if turns % 4 == 1 {
            (-p.1, p.0)
        } else if turns % 4 == 2 {
            (-p.0, -p.1)
        } else {
            (p.1, -p.0)
        }
    }

    /// Rotates the vector by (rotation * 90) degrees.
    /// (counter-clockwise in the standard coordinate system where the
    /// y-axis is upwards.)
    pub fn rotate(&self, rotation: i32) -> (res: Vector2D)
        requires
            self.x > i32::MIN,
            self.y > i32::MIN,
        ensures
            res.point() == Vector2D::turned(self.point(), rotation as int),
    {
        let t = ((rotation % 4) + 4) % 4;
        if t == 0 {
            Vector2D { x: self.x, y: self.y }
        } else if t == 1 {
            Vector2D { x: -self.y, y: self.x }
        } else if t == 2 {
            Vector2D { x: -self.x, y: -self.y }
        } else {
            Vector2D { x: self.y, y: -self.x }
        }
    }
}

impl core::ops::Add<Vector2D> for Vector2D {
    type Output = Vector2D;

    fn add(self, rhs: Vector2D) -> (res: Vector2D) {
        Vector2D { x: self.x + rhs.x, y: self.y + rhs.y }
    }
}

impl AddSpecImpl<Vector2D> for Vector2D {
    open spec fn obeys_add_spec() -> bool {
        true
    }

    open spec fn add_req(self, rhs: Vector2D) -> bool {
        Vector2D::is_point(self.plus(rhs))
    }

    open spec fn add_spec(self, rhs: Vector2D) -> Vector2D {
        Vector2D { x: (self.x + rhs.x) as i32, y: (self.y + rhs.y) as i32 }
    }
}

impl core::ops::Sub<Vector2D> for Vector2D {
    type Output = Vector2D;

    fn sub(self, rhs: Vector2D) -> (res: Vector2D) {
        Vector2D { x: self.x - rhs.x, y: self.y - rhs.y }
    }
}

impl SubSpecImpl<Vector2D> for Vector2D {
    open spec fn obeys_sub_spec() -> bool {
        true
    }

    open spec fn sub_req(self, rhs: Vector2D) -> bool {
        Vector2D::is_point(self.minus(rhs))
    }

    open spec fn sub_spec(self, rhs: Vector2D) -> Vector2D {
        Vector2D { x: (self.x - rhs.x) as i32, y: (self.y - rhs.y) as i32 }
    }
}

} // verus!
