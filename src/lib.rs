//! A log-structured key-value store: the record codec, the in-memory index,
//! segment naming, and the engine's state machine, with their contracts.
pub mod error;
pub mod codec;
pub mod index;
pub mod model;
pub mod store;
pub mod segment;
pub mod protocol;
pub mod engine;
pub mod server;

pub use crate::codec::{LogHelper, Record};
pub use crate::engine::{KvsEngine, ThreadPool};
pub use crate::error::KvsError;
pub use crate::index::{FileIndex, Index};
pub use crate::protocol::{Request, Response};
pub use crate::segment::EngineKind;
pub use crate::store::{LogStore, Pending, MAX_SEGMENT_BYTES, MAX_UNCOMPACTED};
