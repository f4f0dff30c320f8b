//! A search engine for domain names: normalisation and filtering of raw
//! domains, the ingest plan that keeps one document per domain, and the
//! structural ranking of search candidates.

pub mod text;
pub mod error;
pub mod domain;
pub mod search;
pub mod ranking;
pub mod schema;
pub mod ingest;
pub mod zone;
pub mod segment;
pub mod config;
pub mod cache;
pub mod health;
