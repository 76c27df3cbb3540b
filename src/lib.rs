//! The core of a stochastic ray tracer, over exact integer geometry.
//!
//! Coordinates are integers and ray parameters are exact fractions, so every geometric
//! decision is stated and proved exactly: the slab test of bounding boxes, sphere and
//! rectangle intersection, the nearest hit over a scene, and a bounding volume
//! hierarchy that finds the same nearest hit as a search through every sphere.
//! Light is counted in fixed point: the radiance integrator is a state machine fed
//! with what each bounce met, and the parallel renderer's settings, work split and
//! buffer merge are stated here too. Tracing in floating point (cameras, materials,
//! textures) is left to the application around the library.

pub mod aabb;
pub mod buffer;
pub mod bvh;
pub mod color;
pub mod container;
pub mod cube;
pub mod face;
pub mod integrator;
pub mod param;
pub mod picture;
pub mod ray;
pub mod rect;
pub mod render;
pub mod sphere;
pub mod vec3;
pub mod world;
