//! The settings of the engine, and a builder for them.

use crate::cache::{DEFAULT_INDEX_CACHE_LRU_MAX_CAPACITY, DEFAULT_INDEX_CACHE_MEMORY_LIMIT, DEFAULT_VALUE_CACHE_LRU_MAX_CAPACITY, DEFAULT_VALUE_CACHE_MEMORY_LIMIT};
use crate::compression::{CompressionConfig, CompressionType, Compressor};
use crate::error::{TreeError, TreeResult};
use vstd::prelude::*;

verus! {

pub const DEFAULT_MEM_TABLE_SIZE: usize = 10000;

pub const DEFAULT_WAL_MAX_SIZE: u64 = 10485760;

/// The settings of the engine.
#[derive(Clone, Debug)]
pub struct TreeSettings {
    /// The directory that holds the sorted runs and the log segments.
    pub db_path: String,
    /// The number of entries beyond which the memtable is flushed.
    pub mem_table_max_size: usize,
    /// Whether the bloom filters of the runs are kept in memory.
    pub enable_bloom_filter_cache: bool,
    pub enable_index_cache: bool,
    pub index_cache_memory_limit: usize,
    pub index_cache_max_capacity: usize,
    pub enable_value_cache: bool,
    pub value_cache_memory_limit: usize,
    pub value_cache_max_capacity: usize,
    /// Whether writes go through the write-ahead log.
    pub enable_wal: bool,
    /// The size of the active log segment beyond which a checkpoint is forced.
    pub wal_max_size: u64,
    pub compressor: Compressor,
}

/// The settings without the path of the directory.
pub struct Limits {
    pub mem_table_max_size: usize,
    pub enable_bloom_filter_cache: bool,
    pub enable_index_cache: bool,
    pub index_cache_memory_limit: usize,
    pub index_cache_max_capacity: usize,
    pub enable_value_cache: bool,
    pub value_cache_memory_limit: usize,
    pub value_cache_max_capacity: usize,
    pub enable_wal: bool,
    pub wal_max_size: u64,
    pub compression: CompressionConfig,
}

impl TreeSettings {
    /// The settings without the path of the directory.
    pub open spec fn limits(self) -> Limits {
        Limits {
            mem_table_max_size: self.mem_table_max_size,
            enable_bloom_filter_cache: self.enable_bloom_filter_cache,
            enable_index_cache: self.enable_index_cache,
            index_cache_memory_limit: self.index_cache_memory_limit,
            index_cache_max_capacity: self.index_cache_max_capacity,
            enable_value_cache: self.enable_value_cache,
            value_cache_memory_limit: self.value_cache_memory_limit,
            value_cache_max_capacity: self.value_cache_max_capacity,
            enable_wal: self.enable_wal,
            wal_max_size: self.wal_max_size,
            compression: self.compressor.config,
        }
    }

    /// The default limits: a memtable of 10000 entries, the log with
    /// segments of 10 MiB, all caches on with their default bounds, and the
    /// balanced codec.
    pub open spec fn default_limits() -> Limits {
        Limits {
            mem_table_max_size: 10000,
            enable_bloom_filter_cache: true,
            enable_index_cache: true,
            index_cache_memory_limit: 104857600,
            index_cache_max_capacity: 100,
            enable_value_cache: true,
            value_cache_memory_limit: 209715200,
            value_cache_max_capacity: 200000,
            enable_wal: true,
            wal_max_size: 10485760,
            compression: CompressionConfig {
                level: Some(1),
                ..CompressionConfig::of(CompressionType::Lz4)
            },
        }
    }

    /// Whether the settings are consistent: the memtable holds an entry at
    /// least, a cache that is on has room, and the level suits the codec
    /// (1 to 22 for Zstd, 1 to 9 for LZ4).
    pub open spec fn consistent(self) -> bool {
        &&& self.mem_table_max_size >= 1
        &&& self.enable_index_cache ==> self.index_cache_max_capacity >= 1
            && self.index_cache_memory_limit >= 1
        &&& self.enable_value_cache ==> self.value_cache_max_capacity >= 1
            && self.value_cache_memory_limit >= 1
        &&& match self.compressor.config.level {
            Some(level) => match self.compressor.config.compression_type {
                CompressionType::Zstd => 1 <= level <= 22,
                CompressionType::Lz4 => 1 <= level <= 9,
                _ => true,
            },
            None => true,
        }
    }

    /// Checks the settings; inconsistent ones are refused with a
    /// `Configuration` error.
    pub fn validate(&self) -> (r: TreeResult<()>)
        ensures
            match r {
                Ok(_) => self.consistent(),
                Err(e) => e is Configuration && !self.consistent(),
            },
    {
        if self.mem_table_max_size < 1 {
            return Err(TreeError::configuration("the memtable must hold one entry at least"));
        }
        if self.enable_index_cache && (self.index_cache_max_capacity < 1
            || self.index_cache_memory_limit < 1) {
            return Err(TreeError::configuration("the index cache has no room"));
        }
        if self.enable_value_cache && (self.value_cache_max_capacity < 1
            || self.value_cache_memory_limit < 1) {
            return Err(TreeError::configuration("the value cache has no room"));
        }
        match self.compressor.config.level {
            Some(level) => match self.compressor.config.compression_type {
                CompressionType::Zstd => {
                    if level < 1 || level > 22 {
                        return Err(TreeError::configuration("Zstd levels are 1 to 22"));
                    }
                },
                CompressionType::Lz4 => {
                    if level < 1 || level > 9 {
                        return Err(TreeError::configuration("LZ4 levels are 1 to 9"));
                    }
                },
                _ => {},
            },
            None => {},
        }
        Ok(())
    }

    /// The settings with another directory.
    pub fn with_db_path(self, path: &str) -> (s: Self)
        ensures
            s == (TreeSettings { db_path: s.db_path, ..self }),
            s.db_path@ == path@,
    {
        TreeSettings { db_path: path.to_owned(), ..self }
    }

    /// The settings with another limit for the entries of the memtable.
    pub fn with_mem_table_max_size(self, size: usize) -> (s: Self)
        ensures
            s == (TreeSettings { mem_table_max_size: size, ..self }),
    {
        TreeSettings { mem_table_max_size: size, ..self }
    }

    /// A copy of the settings.
    pub fn duplicate(&self) -> (s: Self)
        ensures
            s == *self,
    {
        TreeSettings {
            db_path: self.db_path.clone(),
            mem_table_max_size: self.mem_table_max_size,
            enable_bloom_filter_cache: self.enable_bloom_filter_cache,
            enable_index_cache: self.enable_index_cache,
            index_cache_memory_limit: self.index_cache_memory_limit,
            index_cache_max_capacity: self.index_cache_max_capacity,
            enable_value_cache: self.enable_value_cache,
            value_cache_memory_limit: self.value_cache_memory_limit,
            value_cache_max_capacity: self.value_cache_max_capacity,
            enable_wal: self.enable_wal,
            wal_max_size: self.wal_max_size,
            compressor: Compressor { config: self.compressor.config },
        }
    }
}

/// The directory of an engine where none is named: `./db`.
pub open spec fn default_path() -> Seq<char> {
    "./db"@
}

impl Default for TreeSettings {
    fn default() -> (s: Self)
        ensures
            s.limits() == TreeSettings::default_limits(),
            s.db_path@ == default_path(),
            s.consistent(),
    {
        TreeSettings {
            db_path: "./db".to_owned(),
            mem_table_max_size: DEFAULT_MEM_TABLE_SIZE,
            enable_bloom_filter_cache: true,
            enable_index_cache: true,
            index_cache_memory_limit: DEFAULT_INDEX_CACHE_MEMORY_LIMIT,
            index_cache_max_capacity: DEFAULT_INDEX_CACHE_LRU_MAX_CAPACITY,
            enable_value_cache: true,
            value_cache_memory_limit: DEFAULT_VALUE_CACHE_MEMORY_LIMIT,
            value_cache_max_capacity: DEFAULT_VALUE_CACHE_LRU_MAX_CAPACITY,
            enable_wal: true,
            wal_max_size: DEFAULT_WAL_MAX_SIZE,
            compressor: Compressor::new(CompressionConfig::balanced()),
        }
    }
}

/// A builder for `TreeSettings`: what is not set takes its default.
pub struct TreeSettingsBuilder {
    db_path: Option<String>,
    mem_table_max_size: Option<usize>,
    enable_bloom_filter_cache: Option<bool>,
    enable_index_cache: Option<bool>,
    index_cache_memory_limit: Option<usize>,
    index_cache_max_capacity: Option<usize>,
    enable_value_cache: Option<bool>,
    value_cache_memory_limit: Option<usize>,
    value_cache_max_capacity: Option<usize>,
    enable_wal: Option<bool>,
    wal_max_size: Option<u64>,
    compressor: Option<CompressionConfig>,
}

/// The value that was set, or else the default.
pub open spec fn set_or<T>(set: Option<T>, default: T) -> T {
    match set {
        Some(value) => value,
        None => default,
    }
}

impl TreeSettingsBuilder {
    /// The limits that `build` gives.
    pub closed spec fn limits(self) -> Limits {
        let d = TreeSettings::default_limits();
        Limits {
            mem_table_max_size: set_or(self.mem_table_max_size, d.mem_table_max_size),
            enable_bloom_filter_cache: set_or(
                self.enable_bloom_filter_cache,
                d.enable_bloom_filter_cache,
            ),
            enable_index_cache: set_or(self.enable_index_cache, d.enable_index_cache),
            index_cache_memory_limit: set_or(
                self.index_cache_memory_limit,
                d.index_cache_memory_limit,
            ),
            index_cache_max_capacity: set_or(
                self.index_cache_max_capacity,
                d.index_cache_max_capacity,
            ),
            enable_value_cache: set_or(self.enable_value_cache, d.enable_value_cache),
            value_cache_memory_limit: set_or(
                self.value_cache_memory_limit,
                d.value_cache_memory_limit,
            ),
            value_cache_max_capacity: set_or(
                self.value_cache_max_capacity,
                d.value_cache_max_capacity,
            ),
            enable_wal: set_or(self.enable_wal, d.enable_wal),
            wal_max_size: set_or(self.wal_max_size, d.wal_max_size),
            compression: set_or(self.compressor, d.compression),
        }
    }

    /// The path that `build` gives, where one was set.
    pub closed spec fn path(self) -> Option<Seq<char>> {
        match self.db_path {
            Some(path) => Some(path@),
            None => None,
        }
    }

    /// A builder with nothing set.
    pub fn new() -> (b: Self)
        ensures
            b.limits() == TreeSettings::default_limits(),
            b.path() is None,
    {
        TreeSettingsBuilder {
            db_path: None,
            mem_table_max_size: None,
            enable_bloom_filter_cache: None,
            enable_index_cache: None,
            index_cache_memory_limit: None,
            index_cache_max_capacity: None,
            enable_value_cache: None,
            value_cache_memory_limit: None,
            value_cache_max_capacity: None,
            enable_wal: None,
            wal_max_size: None,
            compressor: None,
        }
    }

    pub fn db_path(self, path: &str) -> (b: Self)
        ensures
            b.limits() == self.limits(),
            b.path() == Some(path@),
    {
        TreeSettingsBuilder { db_path: Some(path.to_owned()), ..self }
    }

    pub fn mem_table_max_size(self, size: usize) -> (b: Self)
        ensures
            b.limits() == (Limits { mem_table_max_size: size, ..self.limits() }),
            b.path() == self.path(),
    {
        TreeSettingsBuilder { mem_table_max_size: Some(size), ..self }
    }

    pub fn bloom_filter_cache(self, is_enabled: bool) -> (b: Self)
        ensures
            b.limits() == (Limits { enable_bloom_filter_cache: is_enabled, ..self.limits() }),
            b.path() == self.path(),
    {
        TreeSettingsBuilder { enable_bloom_filter_cache: Some(is_enabled), ..self }
    }

    pub fn index_cache(self, is_enabled: bool) -> (b: Self)
        ensures
            b.limits() == (Limits { enable_index_cache: is_enabled, ..self.limits() }),
            b.path() == self.path(),
    {
        TreeSettingsBuilder { enable_index_cache: Some(is_enabled), ..self }
    }

    pub fn value_cache(self, is_enabled: bool) -> (b: Self)
        ensures
            b.limits() == (Limits { enable_value_cache: is_enabled, ..self.limits() }),
            b.path() == self.path(),
    {
        TreeSettingsBuilder { enable_value_cache: Some(is_enabled), ..self }
    }

    pub fn wal(self, is_enabled: bool) -> (b: Self)
        ensures
            b.limits() == (Limits { enable_wal: is_enabled, ..self.limits() }),
            b.path() == self.path(),
    {
        TreeSettingsBuilder { enable_wal: Some(is_enabled), ..self }
    }

    pub fn wal_max_size(self, size: u64) -> (b: Self)
        ensures
            b.limits() == (Limits { wal_max_size: size, ..self.limits() }),
            b.path() == self.path(),
    {
        TreeSettingsBuilder { wal_max_size: Some(size), ..self }
    }

    pub fn index_cache_memory_limit(self, memory_limit: usize) -> (b: Self)
        ensures
            b.limits() == (Limits { index_cache_memory_limit: memory_limit, ..self.limits() }),
            b.path() == self.path(),
    {
        TreeSettingsBuilder { index_cache_memory_limit: Some(memory_limit), ..self }
    }

    pub fn index_cache_max_capacity(self, size: usize) -> (b: Self)
        ensures
            b.limits() == (Limits { index_cache_max_capacity: size, ..self.limits() }),
            b.path() == self.path(),
    {
        TreeSettingsBuilder { index_cache_max_capacity: Some(size), ..self }
    }

    pub fn value_cache_memory_limit(self, memory_limit: usize) -> (b: Self)
        ensures
            b.limits() == (Limits { value_cache_memory_limit: memory_limit, ..self.limits() }),
            b.path() == self.path(),
    {
        TreeSettingsBuilder { value_cache_memory_limit: Some(memory_limit), ..self }
    }

    pub fn value_cache_max_capacity(self, size: usize) -> (b: Self)
        ensures
            b.limits() == (Limits { value_cache_max_capacity: size, ..self.limits() }),
            b.path() == self.path(),
    {
        TreeSettingsBuilder { value_cache_max_capacity: Some(size), ..self }
    }

    pub fn compressor(self, config: CompressionConfig) -> (b: Self)
        ensures
            b.limits() == (Limits { compression: config, ..self.limits() }),
            b.path() == self.path(),
    {
        TreeSettingsBuilder { compressor: Some(config), ..self }
    }

    /// The settings: what was set, and the default for the rest. The path
    /// defaults to `./db`.
    pub fn build(self) -> (s: TreeSettings)
        ensures
            s.limits() == self.limits(),
            self.path() matches Some(path) ==> s.db_path@ == path,
    {
        let d = TreeSettings::default();
        TreeSettings {
            db_path: match self.db_path {
                Some(path) => path,
                None => d.db_path,
            },
            mem_table_max_size: match self.mem_table_max_size {
                Some(v) => v,
                None => d.mem_table_max_size,
            },
            enable_bloom_filter_cache: match self.enable_bloom_filter_cache {
                Some(v) => v,
                None => d.enable_bloom_filter_cache,
            },
            enable_index_cache: match self.enable_index_cache {
                Some(v) => v,
                None => d.enable_index_cache,
            },
            index_cache_memory_limit: match self.index_cache_memory_limit {
                Some(v) => v,
                None => d.index_cache_memory_limit,
            },
            index_cache_max_capacity: match self.index_cache_max_capacity {
                Some(v) => v,
                None => d.index_cache_max_capacity,
            },
            enable_value_cache: match self.enable_value_cache {
                Some(v) => v,
                None => d.enable_value_cache,
            },
            value_cache_memory_limit: match self.value_cache_memory_limit {
                Some(v) => v,
                None => d.value_cache_memory_limit,
            },
            value_cache_max_capacity: match self.value_cache_max_capacity {
                Some(v) => v,
                None => d.value_cache_max_capacity,
            },
            enable_wal: match self.enable_wal {
                Some(v) => v,
                None => d.enable_wal,
            },
            wal_max_size: match self.wal_max_size {
                Some(v) => v,
                None => d.wal_max_size,
            },
            compressor: match self.compressor {
                Some(config) => Compressor::new(config),
                None => d.compressor,
            },
        }
    }
}

} // verus!
