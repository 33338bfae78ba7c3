//! Reconciliation engine for tracked workshop items: a parser for the
//! nested key-value manifest format, extraction of the local inventory
//! from manifest texts, a per-container record store with deterministic
//! field-level merge rules, a tabular overlay applier, and the batching
//! and event order of the remote metadata fetch.  Everything here is a
//! function of plain values; files, the network and the display belong
//! to the surrounding program.

pub mod config;
pub mod fetch;
pub mod parser;
pub mod spreadsheet;
pub mod steam;
pub mod store;
pub mod text;
