//! Sifter: a local-first search engine for code and documentation.
//!
//! This crate holds the verified core of the tool: the collection and
//! context configuration model, document classification and chunking,
//! reference parsing and line slicing, related-file ranking, the
//! language-plugin registry and Rust symbol extraction, and the decisions
//! that drive the command-line front end.

pub mod codeintel;
pub mod text;
pub mod strmap;
pub mod paths;
pub mod config;
pub mod index;
pub mod rust_plugin;
pub mod indexer;
pub mod cli;
pub mod snippet;
