//! Moves the `mod.rs` file of each directory module out to a sibling file
//! named after the directory, and removes the directory once it is empty.

pub mod config;
pub mod migrate;
pub mod model;
pub mod path;
pub mod scan;
