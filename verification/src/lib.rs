//! A log-structured, single-node key-value storage engine in the Bitcask
//! family, together with the in-memory reference stores that share its
//! interface.
//!
//! All writes are appended to a sequence of immutable segment files
//! ("generations"); a per-key in-memory index maps each live key to the
//! location of its most recent record; reads resolve through the index
//! directly to the record bytes, never by scanning the log.
//!
//! The engine itself operates on segment contents held as plain byte
//! vectors, so that every rule of the format and of the engine's state
//! machine is verified; a thin unverified shell performs the actual file
//! reads and appends and keeps the on-disk files in step with the engine.

pub mod bitcask;
pub mod command;
pub mod error;
pub mod gen_list;
pub mod hash_map;
pub mod index;
pub mod kv;
pub mod log_pointer;
pub mod recovery;
pub mod store_engine;
