//! A path tracker: a registry of root paths, a matcher that selects the
//! regular files beneath them, and an exporter that lays the matched files
//! out under a destination directory or inside an archive.
//!
//! Paths are byte strings (`Vec<u8>`, viewed as `Seq<u8>`), so that names
//! which are not valid UTF-8 pass through unchanged. The library decides and
//! keeps the registry; walking directories, copying files and writing
//! archives is left to its caller, who hands over what was found.

pub mod error;
pub mod exporter;
pub mod matcher;
pub mod order;
pub mod path;
pub mod registry;
pub mod store;
