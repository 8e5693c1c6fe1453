//! Verified index and topology logic of a mesh boolean library.
pub mod triangulate;
pub mod rings;
pub mod cross_section;
pub mod mesh_layout;
pub mod boolean_state;
pub mod mesh_stats;
