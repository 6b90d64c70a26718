//! The verified core of `elscione-sync`, a resumable mirror of an h5ai file server.
//!
//! Everything the program decides stands here: how a listing is read, which
//! folders and files are wanted, how the state tables change, how a download
//! is resumed, retried and checked.  The surrounding binary performs the
//! input and output and hands plain values in.
pub mod outside;
pub mod cli;
pub mod config;
pub mod downloader;
pub mod order;
pub mod db;
pub mod tui;
pub mod paths;
pub mod sync;
pub mod text;
pub mod crawler;
