//! Tooling for Gamebryo KFM keyframe-motion assets: a verified binary codec
//! for the versioned graph format, an id-indexed editable view of the graph,
//! and a patch engine that applies declarative edit instructions to it.

pub mod error;
pub mod prim;
pub mod source;
pub mod codec;
pub mod laws;
pub mod mapped;
pub mod regex_or;
pub mod patch;
pub mod header;
