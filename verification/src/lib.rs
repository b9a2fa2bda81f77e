//! A verified model of a recursive file-copy engine.
//!
//! The library models the core of a `cp`-like utility: walking a directory
//! tree while excluding the destination, counting files for a progress
//! indicator, and copying each file with a size-based skip policy. Paths,
//! trees and the destination's contents are held as plain data, so every
//! decision the engine makes is stated in a contract and proved.

pub mod engine;
pub mod laws;
pub mod paths;
pub mod policy;
pub mod progress;
pub mod store;
pub mod tree;

pub use paths::FsPath;
