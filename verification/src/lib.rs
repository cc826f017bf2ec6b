//! Precomputes a static index of the icon-state names found in a tree of DMI
//! files (PNG images whose zTXt chunk carries a line-oriented state manifest)
//! and renders it as a single JSON document with sorted, unique keys.

pub mod entry;
pub mod extract;
pub mod index;
pub mod json;
pub mod laws;
pub mod manifest;
pub mod paths;
pub mod text;
