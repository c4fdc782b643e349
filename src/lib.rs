//! Resolution of command-line inputs (files, directories, the standard-input
//! marker) into a deduplicated set of canonical source files.
pub mod line;
pub mod opts;
pub mod traversal;
