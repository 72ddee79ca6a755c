//! An embedded key-value store in the Bitcask style, held to its contracts by Verus.
//!
//! Every mutation is appended as a checksummed record to the newest of a chain of log
//! segments; a keydir per segment remembers where the latest record of each key starts.
//! The segments are modelled by their bytes, so that everything the store promises can
//! be stated over what would be on disk.

pub mod checksum;
pub mod wire;
pub mod error;
pub mod record;
pub mod index;
pub mod clock;
pub mod ident;
pub mod log;
pub mod model;
pub mod laws;
pub mod database;
pub mod shell;

pub use database::{lookup, Compaction, Database, Lookup, MAX_SEGMENT_BYTES};
pub use error::Error;
pub use index::{Index, IndexEntry};
pub use log::Log;
pub use record::{Entry, Operation, MAX_FIELD_BYTES};
pub use shell::{Command, Reply};
