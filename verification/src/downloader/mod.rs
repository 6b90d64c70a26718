//! Downloading: which files, in which order, and what happens to each.
pub mod file_writer;
pub mod plan;
pub mod task;
