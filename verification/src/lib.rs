//! A procedural generator for a bonsai-like branching tree, together with an
//! animation engine that replays the tree's construction as an incremental
//! stream of drawable points.
//!
//! All geometry is carried in fixed-point *milli-units*: an `i64` coordinate
//! holds one thousandth of a display cell, so a cell width of `w` cells spans
//! `w * 1000` coordinate steps. Interpolation parameters run over `0..=1000`
//! in the same scale. This keeps every quantity an integer, which lets the
//! contracts state the exact value of each computation.

pub mod config;
pub mod curved;
pub mod geom;
pub mod leaf;
pub mod rng;
pub mod tree;
