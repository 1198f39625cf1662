//! A Monte-Carlo path tracer core over fixed-point arithmetic: intervals,
//! bounding boxes, primitives, a bounding-volume hierarchy, materials and the
//! radiance integrator, each with a verified contract.
pub mod num;
pub mod random;
pub mod vec3;
pub mod interval;
pub mod ray;
pub mod aabb;
pub mod texture;
pub mod primitive;
pub mod material;
pub mod sphere;
pub mod planar;
pub mod bvh;
pub mod render;
pub mod medium;
