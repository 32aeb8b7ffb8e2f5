//! Verified core of the tracker-module library backend: path-derived index
//! fields, module-extension recognition, rename planning, scan
//! reconciliation, content hashing, the Content-Security-Policy header and the
//! request gate. The HTTP server, SQLite cache and filesystem walk live in the
//! application crate and call into these functions.

pub mod text;
pub mod scan;
pub mod digest;
pub mod csp;
pub mod error;
pub mod auth;
pub mod config;
pub mod routes;
pub mod db;
