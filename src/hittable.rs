use vstd::prelude::*;
use crate::material::Material;
use crate::vec3::{Point3, Vec3};

verus! {

/// What an intersection test reports: the ray parameter, the point, the
/// normal turned against the ray, which side was struck, and the material.
#[derive(Clone, Copy, PartialEq, Eq, Structural, Debug)]
pub struct HitRecord {
    pub t: i64,
    pub p: Point3,
    pub normal: Vec3,
    pub front_face: bool,
    pub mat: Material,
}

} // verus!
