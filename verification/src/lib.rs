//! Construction of compressed 8-wide bounding-volume hierarchies over
//! primitives with integer (fixed-point) coordinates.
//!
//! A build runs in stages, each in a module of its own:
//!
//! - `setup` derives one reference (a box and the primitive's position)
//!   per primitive, and refuses input that cannot be built over;
//! - `splits` cuts large triangles into several references;
//! - `ploc` sorts the references by spatial keys (`keys`, `sort`) and
//!   clusters them bottom-up into a binary hierarchy (`bvh2`);
//! - `reinsertion` lowers the surface-area cost of that hierarchy by
//!   moving nodes;
//! - `compress` collapses it into 8-wide nodes with quantized boxes
//!   (`cwbvh`), after `leaves` has divided the leaves that are too large;
//! - `validate` checks a finished hierarchy against the boxes it was
//!   built over.
//!
//! `builder` runs the stages in turn. Every function is verified against
//! its contract; the contracts of `builder` state what a finished
//! hierarchy is.
pub mod aabb;
pub mod config;
pub mod primitive;
pub mod sort;
pub mod keys;
pub mod bvh2;
pub mod ploc;
pub mod cwbvh;
pub mod leaves;
pub mod compress;
pub mod setup;
pub mod reinsertion;
pub mod splits;
pub mod validate;
pub mod builder;
