//! Scans of a directory tree for image files, grouped by the top-level
//! subfolder under the scanned root that each image descends from.
//!
//! The walk of the filesystem is left to the caller: the library takes the
//! files that the walk found, as plain values, and decides which of them are
//! images, which group each one belongs to, and in what order the groups and
//! their images come out.

pub mod text;
pub mod classify;
pub mod group;
pub mod laws;
