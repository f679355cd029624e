//! Thumbnail cache keys and exact-duplicate resolution for an image library.
//!
//! The library decides and computes; it touches neither the disk nor the
//! console. The cache side derives a key from a source image's identity
//! ([`cache`]), walks through the population of the cache with one thumbnail
//! ([`store`]) and plans the removal of orphaned thumbnails. The duplicate side
//! hashes content ([`digest`]), groups files of equal length and digest
//! ([`grouping`]) and runs the session in which the groups are resolved one
//! by one ([`session`], [`command`]).

pub mod cache;
pub mod cli;
pub mod command;
pub mod config;
pub mod digest;
pub mod grouping;
pub mod launch;
pub mod layout;
pub mod scanner;
pub mod session;
pub mod store;
pub mod text;
pub mod wallhaven;
pub mod wallpaper;
