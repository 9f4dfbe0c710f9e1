//! An embedded key-value storage engine organised as a log-structured merge tree.
//!
//! The engine keeps current writes in an ordered memtable, freezes full
//! memtables into a queue, persists them as sorted runs, and merges old runs.
//! Every layer is a function on plain values: the bytes of a write-ahead log
//! segment or of a sorted run are produced and parsed here, and the program
//! around the library moves those bytes to and from the file system.

pub mod bloom;
pub mod bytes;
pub mod cache;
pub mod clock;
pub mod compression;
pub mod data_value;
pub mod directory;
pub mod error;
pub mod length;
pub mod lru;
pub mod merge;
pub mod names;
pub mod readers;
pub mod segments;
pub mod settings;
pub mod sstable;
pub mod table;
pub mod transaction;
pub mod tree;
pub mod wal;

pub use crate::cache::{CacheKey, CacheStats, LRUIndexCache, LRUValueCache};
pub use crate::clock::{Span, Timestamp};
pub use crate::compression::{CompressionConfig, CompressionType, Compressor};
pub use crate::data_value::{DataValue, Record};
pub use crate::directory::{DiskAction, FileEntry};
pub use crate::error::{TreeError, TreeResult};
pub use crate::settings::{TreeSettings, TreeSettingsBuilder};
pub use crate::transaction::{TransactionContext, TransactionManager, TransactionStatus, VersionStamp};
pub use crate::tree::Tree;
