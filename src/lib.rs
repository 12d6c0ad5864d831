//! Locates a byte signature inside a loaded module and decodes the linked
//! list of class descriptors (with their nested property tables) that it
//! leads to.

pub mod memory;
pub mod pattern;
pub mod module;
pub mod walker;
pub mod render;
