//! What the node shares with its surroundings: configuration and errors.
pub mod config;
pub mod error;
pub mod laws;

pub use config::Config;
pub use error::Error;
