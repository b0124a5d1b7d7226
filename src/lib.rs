//! Renaming files by their extension: adding, removing, setting, toggling an
//! extension, or toggling between two. The library decides every new name and
//! which files take part; the caller reads the filesystem and performs the
//! renames.
pub mod glob;
pub mod laws;
pub mod ops;
pub mod path;
pub mod rewrite;
pub mod schedule;
pub mod select;
