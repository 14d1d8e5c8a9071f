//! The storage engine: an ordered map of bytes to bytes, and the values of a store on top of it.
pub mod bigend;
pub mod encoding;
pub mod engine;
pub mod error;
pub mod gc;
pub mod laws;
pub mod mem;
pub mod model;
pub mod properties;
pub mod store;
pub mod values;

pub use engine::{GcPredicate, GeneralEngine, Range, Scan, ScanItem, WriteBatch, WriteOp};
pub use error::EngineError;
pub use gc::VersionMap;
pub use mem::MemEngine;
pub use store::{now_ms, Store};
