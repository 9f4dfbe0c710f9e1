//! The error taxonomy of the engine.

use vstd::prelude::*;

verus! {

/// What went wrong, by kind, with a message for the operator.
#[derive(Debug)]
pub enum TreeError {
    /// A failure of the file system reported by the surrounding program.
    IoExtended { message: String },
    /// A value record or a framed field could not be decoded.
    Serialization { message: String },
    /// A codec refused to compress or decompress.
    Compression { message: String },
    /// A write-ahead log segment could not be written, read or replayed.
    Wal { message: String },
    /// A sorted run has a bad magic number, version or checksum.
    Corruption { message: String },
    /// The caller's key breaks an invariant.
    InvalidKey { message: String },
    /// The caller's value breaks an invariant.
    InvalidValue { message: String },
    /// The settings are inconsistent.
    Configuration { message: String },
    /// A cache could not serve a request.
    Cache { message: String },
    /// A bloom filter could not be built or read.
    BloomFilter { message: String },
    /// An internal invariant was violated.
    Internal { message: String },
    /// An unknown transaction, or a conflict found at validation.
    Transaction { message: String },
    /// The clock gave a time before the epoch.
    SystemTimeError { message: String },
}

pub type TreeResult<T> = Result<T, TreeError>;

impl TreeError {
    /// The message carried by the error, whatever its kind.
    pub open spec fn message_of(self) -> String {
        match self {
            TreeError::IoExtended { message } => message,
            TreeError::Serialization { message } => message,
            TreeError::Compression { message } => message,
            TreeError::Wal { message } => message,
            TreeError::Corruption { message } => message,
            TreeError::InvalidKey { message } => message,
            TreeError::InvalidValue { message } => message,
            TreeError::Configuration { message } => message,
            TreeError::Cache { message } => message,
            TreeError::BloomFilter { message } => message,
            TreeError::Internal { message } => message,
            TreeError::Transaction { message } => message,
            TreeError::SystemTimeError { message } => message,
        }
    }

    pub fn io(message: &str) -> (e: Self)
        ensures
            e is IoExtended,
            e.message_of()@ == message@,
    {
        TreeError::IoExtended { message: message.to_owned() }
    }

    pub fn serialization(message: &str) -> (e: Self)
        ensures
            e is Serialization,
            e.message_of()@ == message@,
    {
        TreeError::Serialization { message: message.to_owned() }
    }

    pub fn compression(message: &str) -> (e: Self)
        ensures
            e is Compression,
            e.message_of()@ == message@,
    {
        TreeError::Compression { message: message.to_owned() }
    }

    pub fn wal(message: &str) -> (e: Self)
        ensures
            e is Wal,
            e.message_of()@ == message@,
    {
        TreeError::Wal { message: message.to_owned() }
    }

    pub fn corruption(message: &str) -> (e: Self)
        ensures
            e is Corruption,
            e.message_of()@ == message@,
    {
        TreeError::Corruption { message: message.to_owned() }
    }

    pub fn invalid_key(message: &str) -> (e: Self)
        ensures
            e is InvalidKey,
            e.message_of()@ == message@,
    {
        TreeError::InvalidKey { message: message.to_owned() }
    }

    pub fn invalid_value(message: &str) -> (e: Self)
        ensures
            e is InvalidValue,
            e.message_of()@ == message@,
    {
        TreeError::InvalidValue { message: message.to_owned() }
    }

    pub fn configuration(message: &str) -> (e: Self)
        ensures
            e is Configuration,
            e.message_of()@ == message@,
    {
        TreeError::Configuration { message: message.to_owned() }
    }

    pub fn cache(message: &str) -> (e: Self)
        ensures
            e is Cache,
            e.message_of()@ == message@,
    {
        TreeError::Cache { message: message.to_owned() }
    }

    pub fn bloom_filter(message: &str) -> (e: Self)
        ensures
            e is BloomFilter,
            e.message_of()@ == message@,
    {
        TreeError::BloomFilter { message: message.to_owned() }
    }

    pub fn internal(message: &str) -> (e: Self)
        ensures
            e is Internal,
            e.message_of()@ == message@,
    {
        TreeError::Internal { message: message.to_owned() }
    }

    pub fn transaction(message: &str) -> (e: Self)
        ensures
            e is Transaction,
            e.message_of()@ == message@,
    {
        TreeError::Transaction { message: message.to_owned() }
    }

    pub fn system_time_error(message: &str) -> (e: Self)
        ensures
            e is SystemTimeError,
            e.message_of()@ == message@,
    {
        TreeError::SystemTimeError { message: message.to_owned() }
    }

    /// The message of the error, for the surrounding program to print.
    pub fn message(&self) -> (m: &String)
        ensures
            *m == self.message_of(),
    {
        match self {
            TreeError::IoExtended { message } => message,
            TreeError::Serialization { message } => message,
            TreeError::Compression { message } => message,
            TreeError::Wal { message } => message,
            TreeError::Corruption { message } => message,
            TreeError::InvalidKey { message } => message,
            TreeError::InvalidValue { message } => message,
            TreeError::Configuration { message } => message,
            TreeError::Cache { message } => message,
            TreeError::BloomFilter { message } => message,
            TreeError::Internal { message } => message,
            TreeError::Transaction { message } => message,
            TreeError::SystemTimeError { message } => message,
        }
    }
}

} // verus!
