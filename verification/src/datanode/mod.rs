//! A data node: what it does with connections, requests and metrics.
pub mod args;
pub mod connection;
pub mod laws;
pub mod observability;
pub mod promises;
pub mod resp;
pub mod server;
pub mod verbs;
pub mod watching;
