use vstd::prelude::*;

verus! {

/// Errors from core operations.
#[derive(Debug)]
pub enum CoreError {
    HashFailed { path: String, reason: String },
    InvalidOrdinal { type_label: &'static str, ordinal: u8 },
    ConversionFailed { reason: String },
}

impl CoreError {
    /// No core error is worth retrying.
    pub fn is_retryable(&self) -> (r: bool)
        ensures
            !r,
    {
        false
    }
}

} // verus!
