//! Sorted blocks and immutable tables for a log-structured merge tree.
//!
//! A [`Block`] is a run of length-prefixed key-value entries with an offset
//! index; a [`BlockBuilder`] packs entries into one under a byte budget; a
//! [`BlockIterator`] scans or seeks within one; an [`SsTableBuilder`] cuts a
//! sorted stream into blocks and lays them out, with a directory of
//! [`BlockMeta`] records, as the bytes of an [`SsTable`].

pub mod block;
pub mod buffer;
pub mod key;
pub mod layout;
pub mod table;
pub mod wire;

pub use block::{Block, BlockBuilder, BlockIterator, DecodeError};
pub use table::builder::BuildError;
pub use table::{BlockMeta, SsTable, SsTableBuilder};
