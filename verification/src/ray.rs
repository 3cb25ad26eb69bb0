//! A ray: an origin and an (not necessarily unit) direction.

use vstd::prelude::*;

verus! {

use crate::num::BOUND;
use crate::num::SCALE;
use crate::num::div_floor;
use crate::point3::Point3;
use crate::vec3::Vec3;
use crate::vec3::lemma_rescale_bound;

/// A half-line through `origin` along `direction`.
#[derive(Clone, Copy, Debug, PartialEq, Eq, Structural)]
pub struct Ray {
    pub origin: Point3,
    pub direction: Vec3,
}

/// One component of `origin + t * direction`, with the product rescaled.
pub open spec fn at_param(o: int, t: int, d: int) -> int {
    o + t * d / (SCALE as int)
}

impl Ray {
    /// Origin and direction both inside the global coordinate bound.
    pub open spec fn wf(self) -> bool {
        self.origin.wf() && self.direction.wf()
    }

    pub fn new(origin: Point3, direction: Vec3) -> (r: Ray)
        ensures
            r == (Ray { origin, direction }),
    {
        Ray { origin, direction }
    }

    /// The point `origin + t * direction` for a fixed-point parameter `t`.
    pub fn point_at_parameter(self, t: i64) -> (p: Point3)
        requires
            self.wf(),
            -BOUND <= t <= BOUND,
        ensures
            p.x == at_param(self.origin.x as int, t as int, self.direction.x as int),
            p.y == at_param(self.origin.y as int, t as int, self.direction.y as int),
            p.z == at_param(self.origin.z as int, t as int, self.direction.z as int),
    {
        proof {
            lemma_rescale_bound(t as int, self.direction.x as int);
            lemma_rescale_bound(t as int, self.direction.y as int);
            lemma_rescale_bound(t as int, self.direction.z as int);
        }
        Point3 {
            x: self.origin.x + div_floor(
                (t as i128) * (self.direction.x as i128),
                SCALE as i128,
            ) as i64,
            y: self.origin.y + div_floor(
                (t as i128) * (self.direction.y as i128),
                SCALE as i128,
            ) as i64,
            z: self.origin.z + div_floor(
                (t as i128) * (self.direction.z as i128),
                SCALE as i128,
            ) as i64,
        }
    }
}

} // verus!
