//! Maintenance of a note tree's derived artifacts: per-directory navigation
//! indexes and the link graph between notes.

pub mod cli;
pub mod config;
pub mod ident;
pub mod index;
pub mod links;
pub mod graph;
