//! The state of a mirror: what was discovered, what was downloaded, what was selected.
pub mod changes;
pub mod laws;
pub mod models;
pub mod schema;
pub mod tables;
