//! Load-order resolution for packaged game mods: archive container decoding,
//! descriptor extraction and dependency ordering.

pub mod bytes;
pub mod error;
pub mod header;
pub mod compress;
pub mod directory;
pub mod text;
pub mod document;
pub mod descriptor;
pub mod metadata;
pub mod graph;
pub mod modlist;
pub mod config;
