//! A Monte-Carlo path tracer in exact fixed-point arithmetic: sphere
//! intersection, a nearest-hit scene scan, diffuse, metal and glass
//! materials, a bounded recursive integrator and gamma quantization. Random
//! draws and the two camera tangents come in as arguments.
use vstd::prelude::*;

pub mod vec3;
pub mod ray;
pub mod material;
pub mod hittable;
pub mod sphere;
pub mod hittable_list;
pub mod camera;
pub mod color;

verus! {

} // verus!
