//! A Bitcask-style key-value store: an append-only log of checksummed
//! records, split into segments with companion hint files, and an in-memory
//! index from keys to record locations.
//!
//! The library owns the storage format and every decision of the engine. It
//! works on byte images of the segment files; reading those images from a
//! directory and writing them back is left to the embedding program.

pub mod cask;
pub mod compaction;
pub mod data;
pub mod directory;
pub mod durability;
pub mod endian;
pub mod index;
pub mod keymap;
pub mod soundness;
pub mod laws;
pub mod log;
pub mod segment;
pub mod xxhash;

pub use cask::Cask;
pub use data::{Entry, Error, Hint, SequenceNumber};
pub use directory::{Directory, Segment};
pub use index::{Index, IndexEntry};
pub use log::{
    find_data_files, get_data_file_path, get_hint_file_path, is_valid_hint_file, Entries,
    HintWriter, Hints, Log, LogWriter, RecreateHints,
};
pub use xxhash::{xxhash32, xxhash64, XxHash32};
