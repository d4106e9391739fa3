//! A persistent, log-structured key-value store with an in-memory index,
//! online compaction, a pluggable engine interface, and a line-oriented
//! request/response protocol for serving the store over a network.
pub mod codec;
pub mod engine;
pub mod error;
pub mod service;
pub mod sled_store;
pub mod store;
pub mod text;
pub mod wire;

pub use crate::engine::KvsEngine;
pub use crate::error::KvsError;
pub use crate::service::{
    do_command, engine_file_exists, handle_request, match_engine, select_engine, Engine,
};
pub use crate::sled_store::SledStore;
pub use crate::store::{DiskAction, KvStore, Segment};
pub use crate::wire::{Command, Response, ServerError};
