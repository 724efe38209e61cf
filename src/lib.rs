//! An embedded, append-only key/value store for 256-bit keys and byte
//! values, kept in fixed-size checksummed slots of a memory-mapped file.
//!
//! The modules, leaves first:
//! - `record`: the on-disk slot format and its checksum validation;
//! - `keys`: the derived keys under which values and chunks are stored;
//! - `slots`: the memory-mapped bytes that hold the slots;
//! - `model`: the mathematical model of probing, lookup and insertion;
//! - `mapping`: the store itself, an open-addressed table of records with
//!   long values split over several records;
//! - `lemmas`: the laws that the store obeys, stated over the model;
//! - `node`: records held in memory, as a trie-shaped index keeps them.
pub mod keys;
pub mod lemmas;
pub mod mapping;
pub mod model;
pub mod node;
pub mod record;
pub mod slots;

pub use keys::{atomic_key, chunk_key};
pub use mapping::{DbError, Mapping};
pub use model::PROBE_LIMIT;
pub use record::{new_record, Record, MAX_RECORD_BODYLEN, RECORD_SIZE};
