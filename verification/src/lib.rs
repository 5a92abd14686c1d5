//! Ferrox: the verified core of a small static-file and single-page-application web server.
pub mod config;
pub mod http;
pub mod utils;
pub mod server;
pub mod handlers;
