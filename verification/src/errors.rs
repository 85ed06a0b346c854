use vstd::prelude::*;
use crate::text::{dec_chars, push_decimal, str_to_string, string_push_str};

verus! {

/// Parser errors.
#[derive(Debug)]
pub enum ParserError {
    UnsupportedLanguage { path: String },
    FileTooLarge { path: String, size: u64, max: u64 },
    InvalidEncoding { path: String },
    ParseFailed { path: String, reason: String },
}

/// The text of a parser error.
pub open spec fn spec_parser_error_message(e: ParserError) -> Seq<char> {
    match e {
        ParserError::UnsupportedLanguage { path } => "unsupported language for file: "@ + path@,
        ParserError::FileTooLarge { path, size, max } => "file too large ("@ + dec_chars(size as nat) + " bytes, max "@
            + dec_chars(max as nat) + "): "@ + path@,
        ParserError::InvalidEncoding { path } => "invalid encoding (non-UTF-8): "@ + path@,
        ParserError::ParseFailed { path, reason } => "parse failed for "@ + path@ + ": "@ + reason@,
    }
}

impl ParserError {
    /// The error's text.
    pub fn message(&self) -> (r: String)
        ensures
            r@ == spec_parser_error_message(*self),
    {
        match self {
            ParserError::UnsupportedLanguage { path } => {
                let mut m = str_to_string("unsupported language for file: ");
                string_push_str(&mut m, path.as_str());
                m
            },
            ParserError::FileTooLarge { path, size, max } => {
                let mut m = str_to_string("file too large (");
                push_decimal(&mut m, *size as u128);
                string_push_str(&mut m, " bytes, max ");
                push_decimal(&mut m, *max as u128);
                string_push_str(&mut m, "): ");
                string_push_str(&mut m, path.as_str());
                m
            },
            ParserError::InvalidEncoding { path } => {
                let mut m = str_to_string("invalid encoding (non-UTF-8): ");
                string_push_str(&mut m, path.as_str());
                m
            },
            ParserError::ParseFailed { path, reason } => {
                let mut m = str_to_string("parse failed for ");
                string_push_str(&mut m, path.as_str());
                string_push_str(&mut m, ": ");
                string_push_str(&mut m, reason.as_str());
                m
            },
        }
    }

    /// No parser error is worth retrying.
    pub fn is_retryable(&self) -> (r: bool)
        ensures
            !r,
    {
        false
    }
}

/// Storage errors. The failures of the SQLite, Tantivy and I/O layers are
/// carried as what the library reads of them: for SQLite, whether the
/// database was busy, and for each a message.
#[derive(Debug)]
pub enum StorageError {
    /// An SQLite failure; `busy` when its code is `DatabaseBusy`, `corrupt`
    /// when it is `DatabaseCorrupt` or `NotADatabase`.
    Sqlite { busy: bool, corrupt: bool, message: String },
    /// A full-text engine failure.
    Tantivy { message: String },
    VectorIndexUnavailable { reason: String },
    FullTextIndexUnavailable { reason: String },
    DimensionMismatch { expected: usize, actual: usize },
    /// An I/O failure.
    Io { message: String },
    TransactionFailed { reason: String },
    SchemaMismatch { expected: u32, actual: u32 },
}

impl StorageError {
    /// Whether the error means the storage directory is corrupt or
    /// incompatible and must be rebuilt: a schema mismatch, an unusable
    /// vector or full-text index, a corrupt SQLite file, any full-text
    /// engine failure.
    pub fn should_purge(&self) -> (r: bool)
        ensures
            r == match *self {
                StorageError::SchemaMismatch { .. } => true,
                StorageError::VectorIndexUnavailable { .. } => true,
                StorageError::FullTextIndexUnavailable { .. } => true,
                StorageError::Sqlite { corrupt, .. } => corrupt,
                StorageError::Tantivy { .. } => true,
                _ => false,
            },
    {
        match self {
            StorageError::SchemaMismatch { .. } => true,
            StorageError::VectorIndexUnavailable { .. } => true,
            StorageError::FullTextIndexUnavailable { .. } => true,
            StorageError::Sqlite { corrupt, .. } => *corrupt,
            StorageError::Tantivy { .. } => true,
            _ => false,
        }
    }

    /// Only a busy SQLite database is worth retrying.
    pub fn is_retryable(&self) -> (r: bool)
        ensures
            r == (*self matches StorageError::Sqlite { busy, .. } && busy),
    {
        match self {
            StorageError::Sqlite { busy, .. } => *busy,
            _ => false,
        }
    }
}

/// Indexer errors.
#[derive(Debug)]
pub enum IndexerError {
    Parser(ParserError),
    Storage(StorageError),
    Watcher(String),
    PipelineFailed { stage: String, reason: String },
    /// An I/O failure, by its message.
    Io(String),
}

impl IndexerError {
    /// Retryable exactly when it wraps a retryable storage error.
    pub fn is_retryable(&self) -> (r: bool)
        ensures
            r == (*self matches IndexerError::Storage(StorageError::Sqlite { busy, .. }) && busy),
    {
        match self {
            IndexerError::Storage(e) => e.is_retryable(),
            _ => false,
        }
    }
}

/// Retrieval errors.
#[derive(Debug)]
pub enum RetrievalError {
    Storage(StorageError),
    QueryFailed { reason: String },
    FusionFailed { reason: String },
    ExpansionFailed { reason: String },
}

impl RetrievalError {
    /// Retryable exactly when it wraps a retryable storage error.
    pub fn is_retryable(&self) -> (r: bool)
        ensures
            r == (*self matches RetrievalError::Storage(StorageError::Sqlite { busy, .. }) && busy),
    {
        match self {
            RetrievalError::Storage(e) => e.is_retryable(),
            _ => false,
        }
    }
}

} // verus!
