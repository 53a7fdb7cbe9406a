//! A verified file-cataloging core: it parses the host's mount table into
//! drive roots, folds the files found under a root into per-walk aggregates
//! and analyzed metadata records, persists the catalog in bounded JSON
//! chunks whose parse provably inverts their serialization, and reports
//! duplicate candidates from a reloaded catalog.
pub mod analyzer;
pub mod catalog;
pub mod codec;
pub mod config;
pub mod json;
pub mod scanner;
pub mod storage;
pub mod text;
