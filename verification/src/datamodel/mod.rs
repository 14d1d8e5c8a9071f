//! The command layer: requests become operations on a store, and their results become replies.
pub mod commands;
pub mod laws;
pub mod promises;
pub mod registry;
pub mod soundness;

pub use commands::Command;
pub use registry::{CommandHandler, CommandRegistry, ExecCtx};
