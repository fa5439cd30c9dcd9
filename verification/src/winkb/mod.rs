//! The knowledge base: what is known of the Windows API, held in memory, and the
//! look-ups that the assembler front-end and the IDE make in it.
pub mod import;
pub mod kb;
pub mod laws;
pub mod distance;
pub mod library;
pub mod report;
pub mod search;
pub mod suggest;
