//! Affine positions with fixed-point components.
//!
//! Subtracting two points yields a [`Vec3`] displacement; adding a
//! displacement to a point yields another point.

use vstd::prelude::*;

verus! {

use crate::num::BOUND;
use crate::vec3::Vec3;

/// An absolute position with fixed-point components.
#[derive(Clone, Copy, Debug, PartialEq, Eq, Structural)]
pub struct Point3 {
    pub x: i64,
    pub y: i64,
    pub z: i64,
}

impl Point3 {
    /// All components within the global coordinate bound.
    pub open spec fn wf(self) -> bool {
        &&& -BOUND <= self.x <= BOUND
        &&& -BOUND <= self.y <= BOUND
        &&& -BOUND <= self.z <= BOUND
    }

    pub fn new(x: i64, y: i64, z: i64) -> (p: Point3)
        ensures
            p == (Point3 { x, y, z }),
    {
        Point3 { x, y, z }
    }

    pub fn zeros() -> (p: Point3)
        ensures
            p == (Point3 { x: 0i64, y: 0i64, z: 0i64 }),
    {
        Point3 { x: 0, y: 0, z: 0 }
    }

    /// Translates the point by a displacement.
    pub fn add(self, rhs: Vec3) -> (p: Point3)
        requires
            i64::MIN <= self.x + rhs.x <= i64::MAX,
            i64::MIN <= self.y + rhs.y <= i64::MAX,
            i64::MIN <= self.z + rhs.z <= i64::MAX,
        ensures
            p.x == self.x + rhs.x,
            p.y == self.y + rhs.y,
            p.z == self.z + rhs.z,
    {
        Point3 { x: self.x + rhs.x, y: self.y + rhs.y, z: self.z + rhs.z }
    }

    pub fn neg(self) -> (p: Point3)
        requires
            self.x > i64::MIN,
            self.y > i64::MIN,
            self.z > i64::MIN,
        ensures
            p.x == -self.x,
            p.y == -self.y,
            p.z == -self.z,
    {
        Point3 { x: -self.x, y: -self.y, z: -self.z }
    }

    /// The displacement from `rhs` to `self`.
    pub fn sub(self, rhs: Point3) -> (v: Vec3)
        requires
            i64::MIN <= self.x - rhs.x <= i64::MAX,
            i64::MIN <= self.y - rhs.y <= i64::MAX,
            i64::MIN <= self.z - rhs.z <= i64::MAX,
        ensures
            v.x == self.x - rhs.x,
            v.y == self.y - rhs.y,
            v.z == self.z - rhs.z,
    {
        Vec3 { x: self.x - rhs.x, y: self.y - rhs.y, z: self.z - rhs.z }
    }

    /// Translates the point backwards by a displacement.
    pub fn sub_vec(self, rhs: Vec3) -> (p: Point3)
        requires
            i64::MIN <= self.x - rhs.x <= i64::MAX,
            i64::MIN <= self.y - rhs.y <= i64::MAX,
            i64::MIN <= self.z - rhs.z <= i64::MAX,
        ensures
            p.x == self.x - rhs.x,
            p.y == self.y - rhs.y,
            p.z == self.z - rhs.z,
    {
        Point3 { x: self.x - rhs.x, y: self.y - rhs.y, z: self.z - rhs.z }
    }

    /// The position vector of the point.
    pub fn to_vec(self) -> (v: Vec3)
        ensures
            v.x == self.x,
            v.y == self.y,
            v.z == self.z,
    {
        Vec3 { x: self.x, y: self.y, z: self.z }
    }
}

} // verus!
