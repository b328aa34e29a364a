//! A small verified line-search library.
//!
//! Given a query string and the full text of a file, the library returns the
//! lines of the text that contain the query, optionally ignoring letter case.
//! A companion module resolves the search configuration (query, file name,
//! case sensitivity) from raw command-line arguments and the presence of an
//! environment variable, both handed in as plain values.

pub mod config;
pub mod search;

pub use config::Config;
pub use config::ConfigError;
pub use search::search;
pub use search::search_case_insensitive;
