//! Discovery: reading listings and deciding what is wanted.
pub mod parser;
pub mod listing;
pub mod filter;
pub mod crawl;
pub mod rate_limiter;
pub mod session;
pub mod laws;
