//! Zone-transfer ingestion and PTR-audit engine.
//!
//! The library parses a user-supplied server endpoint, folds the records of a
//! streamed zone transfer into an address-to-hostnames map, classifies each
//! address by the outcome of its reverse lookup, and aggregates a health
//! summary. All network traffic is performed by the surrounding application;
//! the engine works on plain values and is verified.
pub mod audit;
pub mod endpoint;
pub mod ip;
pub mod lookup;
pub mod pattern;
pub mod records;
pub mod text;
pub mod transfer;
