//! Reading, merging and writing the packed archives (VPK) that hold a game's
//! map terrain, with the installation paths and Steam library lookup around
//! them.
//!
//! - `vpk` reads an archive into a `FileSet`; `writer` writes one back.
//! - `patch` merges a terrain's files over the base map's.
//! - `terrain` does all three on two archives.
//! - `roundtrip` proves that writing then reading gives back the files.
pub mod bytes;
pub mod checksum;
pub mod fileset;
pub mod patch;
pub mod paths;
pub mod roundtrip;
pub mod steam;
pub mod terrain;
pub mod utils;
pub mod vpk;
pub mod writer;
