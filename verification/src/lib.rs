//! A workspace of layered compositions.
//!
//! Each stack in the workspace is a persistent chain of immutable layers
//! built by overlaying parameterized deltas on a shared root. The workspace
//! also keeps two auxiliary registries over stack indices: a bijective id
//! assignment and a many-to-many class-tag relation.

pub mod eqview;
pub mod layer;
pub mod utils;
pub mod workspace;
