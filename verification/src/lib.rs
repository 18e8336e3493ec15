//! Core of an offline Monte Carlo path tracer.
//!
//! All geometry and radiometry is carried in 16.16 fixed-point integers, so
//! that every arithmetic step has an exact mathematical meaning and the
//! acceleration structure, the scattering model and the integrator can be
//! verified. Randomness comes from `rand`'s `SmallRng` behind trusted
//! wrappers; everything downstream of a drawn value is verified for every
//! value the wrapper can return.

pub mod bounds;
pub mod bvh;
pub mod fixed;
pub mod hittable;
pub mod integrator;
pub mod material;
pub mod ray;
pub mod rng;
pub mod tile;
pub mod vector;
