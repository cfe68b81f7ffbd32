//! Verified core of a Wavefront OBJ viewer: the OBJ parser, the integer side
//! of mesh building and edge extraction, and the toolbar's decisions.
pub mod text;
pub mod parser;
pub mod mesh;
pub mod edges;
pub mod ui;
