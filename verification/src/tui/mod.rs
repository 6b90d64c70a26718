//! The interactive parts.
pub mod folder_selector;
