//! Line search over in-memory text: argument handling for a search run,
//! and filters that keep the lines of a text that contain a query.

pub mod config;
pub mod lines;
pub mod search;
