//! Comic archives: packing a directory of page images into a tape archive,
//! and rebuilding an existing archive so that `webp` variants replace the
//! pages they were made from.

pub mod order;
pub mod name;
pub mod path;
pub mod error;
pub mod sorting;
pub mod tarball;
pub mod table;
pub mod entry;
pub mod merge;
pub mod index;
pub mod pack;
pub mod repair;
pub mod builder;
pub mod fspath;
pub mod args;
pub mod processor;
pub mod item;
