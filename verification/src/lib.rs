//! A log-structured, Bitcask-style key-value store.
//!
//! Writes are appended to an active data segment; a companion hint segment
//! records positions so that the in-memory key directory can be rebuilt on
//! open. Values are served by a single positioned read into a data segment;
//! keys stay resident in memory.
//!
//! The storage engine works over a [`file_ops::Volume`], an in-memory image of
//! the segment directory (the byte contents of every `.data` / `.hint` pair).
//! A host process keeps the volume and the real directory in step: it loads
//! the files into the volume on open and mirrors every append back to disk.

pub mod errors;
mod clock;
pub mod keybytes;
pub mod schema;
pub mod memtable;
pub mod file_ops;
pub mod datastore;
pub mod nutos;
