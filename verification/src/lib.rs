//! Content negotiation and multi-format rendering for read-only inventory
//! records.
//!
//! Given an HTTP `Accept` header, an optional comma-separated field
//! selection, and a sequence of structured records, the library decides
//! which wire format to emit (JSON, YAML, or CSV), restricts each record to
//! the selected fields, and renders the records into the chosen format.

pub mod accept;
pub mod csv;
pub mod data;
pub mod json;
pub mod negotiate;
pub mod project;
pub mod response;
pub mod text;
pub mod value;
pub mod yaml;
