//! Adds and removes `[patch]` entries of a Cargo manifest, keeping the rest of
//! its text as it was.
pub mod document;
pub mod source;
pub mod toml;

pub use source::{GitReference, Mode, PatchError};
pub use toml::{patch_manifest, Operation};
