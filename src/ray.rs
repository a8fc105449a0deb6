use vstd::prelude::*;
use crate::vec3::{Point3, Vec3, BOUND, bounded};

verus! {

/// A half-line `origin + t * direction`, with `t` in fixed point.
#[derive(Clone, Copy, PartialEq, Eq, Structural, Debug)]
pub struct Ray {
    pub origin: Point3,
    pub direction: Vec3,
}

impl Ray {
    pub fn new(origin: Point3, direction: Vec3) -> (r: Ray)
        ensures
            r == (Ray { origin, direction }),
    {
        Ray { origin, direction }
    }

    /// Origin and direction lie in the region the intersection arithmetic accepts.
    pub open spec fn wf(&self) -> bool {
        bounded(self.origin, BOUND as int) && bounded(self.direction, BOUND as int)
    }
}

/// A range `[min, max]` of fixed-point ray parameters.
#[derive(Clone, Copy, PartialEq, Eq, Structural, Debug)]
pub struct Interval {
    pub min: i64,
    pub max: i64,
}

pub open spec fn surrounds_spec(iv: Interval, x: int) -> bool {
    iv.min < x < iv.max
}

pub open spec fn clamp_spec(iv: Interval, x: int) -> int {
    if x < iv.min { iv.min as int } else if x > iv.max { iv.max as int } else { x }
}

impl Interval {
    pub fn new(min: i64, max: i64) -> (r: Interval)
        ensures
            r == (Interval { min, max }),
    {
        Interval { min, max }
    }

    /// The open-interval test `min < x < max`.
    pub fn surrounds(&self, x: i128) -> (r: bool)
        ensures
            r == surrounds_spec(*self, x as int),
    {
        (self.min as i128) < x && x < (self.max as i128)
    }

    /// Restrict `x` to `[min, max]`.
    pub fn clamp(&self, x: i64) -> (r: i64)
        ensures
            r == clamp_spec(*self, x as int),
    {
        if x < self.min {
            self.min
        } else if x > self.max {
            self.max
        } else {
            x
        }
    }
}

} // verus!
