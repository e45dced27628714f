//! Exact integer geometry for a raycasting renderer: segment crossings,
//! triangle containment, nearest-hit scans and screen projection.
pub mod geometry;
pub mod scanner;
pub mod projector;
pub mod camera;
pub mod portal;
