//! Decoding and topology operators for arc-based vector topologies.
//!
//! Shared boundaries between features are stored once as indexed, delta-encoded
//! polylines ("arcs"); geometries refer to them by signed arc indices. The
//! modules below decode such a topology into per-feature coordinates (in the
//! stored integer grid) and derive merges, meshes and adjacency from it.

mod bisect;
pub mod topology;
pub mod feature;
pub mod stitch;
pub mod merge;
pub mod neighbors;
pub mod mesh;
pub mod bbox;
pub mod quantize;
pub mod api;

pub use bisect::bisect;
