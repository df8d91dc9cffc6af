//! Index-level logic of a Monte-Carlo ray tracer: the hittable, material and
//! texture arenas, the bounding-volume-hierarchy builder, Perlin lattice
//! permutations, material records, scene selection, the integer bookkeeping
//! of image output and the frame-by-frame decisions of the render window.

pub mod arena;
pub mod bvh;
pub mod channel;
pub mod hittable_service;
pub mod image;
pub mod materials;
pub mod perlin;
pub mod render_app;
pub mod rng;
pub mod scene;
