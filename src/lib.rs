//! A music library catalog with a fuzzy, cosine-ranked search index and
//! incremental reconciliation against the files found on disk.

pub mod cache;
pub mod text;
pub mod grammar;
pub mod cosine;
pub mod fuzzy;
pub mod index;
pub mod ids;
pub mod catalog;
pub mod tags;
pub mod playlist;
pub mod config;
