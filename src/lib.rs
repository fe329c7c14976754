//! Two-dimensional geometric optics on fixed-point numbers: rays cross
//! line-segment surfaces, refract by Snell's law or stop at absorbers, and
//! every beam source grows bounded chains of ray segments.

pub mod fixed;
pub mod geometry;
pub mod scene;
pub mod kernel;
pub mod interaction;
pub mod tree;
pub mod beam;
pub mod store;
