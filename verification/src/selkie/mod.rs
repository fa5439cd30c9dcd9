//! Diagrams.
pub mod common;
pub mod direction;
pub mod flowchart;
pub mod render;
pub mod table;
